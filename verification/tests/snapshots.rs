use vcddiff::{FourStateBit, SignalChange, TraceVariable, WaveformDB, WaveformSignal};

fn var(name: &str, changes: &[(u64, &str)]) -> TraceVariable {
    TraceVariable {
        name: name.to_string(),
        changes: changes
            .iter()
            .map(|(t, b)| SignalChange {
                time: *t,
                bits: b.to_string(),
            })
            .collect(),
    }
}

#[test]
fn snapshot_takes_value_at_or_before_the_time_step() {
    let db = WaveformDB::new(vec![var("top.a", &[(0, "0"), (10, "1"), (20, "0")])]);
    let snap = db.signal_values_at_cycle(15);
    assert_eq!(snap.len(), 1);
    let key = WaveformSignal::from_dotted("top.a");
    assert_eq!(snap.get(&key), Some(&FourStateBit::Bit1));
}

#[test]
fn snapshot_omits_signals_without_a_recorded_value() {
    let db = WaveformDB::new(vec![
        var("top.a", &[(10, "1")]),
        var("top.b", &[(0, "0")]),
    ]);
    let snap = db.signal_values_at_cycle(5);
    assert_eq!(snap.len(), 1);
    assert!(snap.get(&WaveformSignal::from_dotted("top.a")).is_none());
    assert_eq!(
        snap.get(&WaveformSignal::from_dotted("top.b")),
        Some(&FourStateBit::Bit0)
    );
}

#[test]
fn snapshot_explodes_multi_bit_signals_per_bit() {
    // The value string is most-significant-first, so bit 0 is its last
    // character.
    let db = WaveformDB::new(vec![var("top.bus", &[(0, "10")])]);
    let snap = db.signal_values_at_cycle(0);
    assert_eq!(snap.len(), 2);
    assert_eq!(
        snap.get(&WaveformSignal::from_dotted("top.bus[0]")),
        Some(&FourStateBit::Bit0)
    );
    assert_eq!(
        snap.get(&WaveformSignal::from_dotted("top.bus[1]")),
        Some(&FourStateBit::Bit1)
    );
    assert!(snap.get(&WaveformSignal::from_dotted("top.bus")).is_none());
}

#[test]
fn snapshot_explodes_x_bits_as_x() {
    let db = WaveformDB::new(vec![var("n", &[(0, "x1")])]);
    let snap = db.signal_values_at_cycle(3);
    assert_eq!(
        snap.get(&WaveformSignal::from_dotted("n[0]")),
        Some(&FourStateBit::Bit1)
    );
    assert_eq!(
        snap.get(&WaveformSignal::from_dotted("n[1]")),
        Some(&FourStateBit::BitX)
    );
}

#[test]
fn snapshot_keeps_listing_order() {
    let db = WaveformDB::new(vec![
        var("b.sig", &[(0, "1")]),
        var("a.sig", &[(0, "0")]),
    ]);
    let snap = db.signal_values_at_cycle(0);
    assert_eq!(snap.len(), 2);
    assert_eq!(snap.key_at(0).to_string(), "b.sig".to_string());
    assert_eq!(snap.key_at(1).to_string(), "a.sig".to_string());
}

#[test]
fn rebase_rekeys_matching_entries() {
    let db = WaveformDB::new(vec![
        var("top.m.a", &[(0, "0")]),
        var("top.m.sub.b", &[(0, "1")]),
        var("top.x", &[(0, "1")]),
        var("m2.deep.c", &[(0, "1")]),
    ]);
    let rebased = db.signal_values_at_cycle_rebase_top(0, "top.m".to_string());
    // top.m.a and top.m.sub.b match the instance prefix and lose it;
    // top.x is shallower than the instance and passes through unmodified;
    // m2.deep.c is deep enough but does not match, so it is dropped.
    assert_eq!(rebased.len(), 3);
    assert_eq!(
        rebased.get(&"a".to_string()),
        Some(&FourStateBit::Bit0)
    );
    assert_eq!(
        rebased.get(&"sub.b".to_string()),
        Some(&FourStateBit::Bit1)
    );
    assert_eq!(
        rebased.get(&"top.x".to_string()),
        Some(&FourStateBit::Bit1)
    );
    assert!(rebased.get(&"m2.deep.c".to_string()).is_none());
    assert!(rebased.get(&"deep.c".to_string()).is_none());
}

#[test]
fn rebase_then_requalify_reproduces_identities() {
    let db = WaveformDB::new(vec![
        var("top.m.a", &[(0, "0")]),
        var("top.m.sub.b", &[(0, "1")]),
    ]);
    let rebased = db.signal_values_at_cycle_rebase_top(0, "top.m".to_string());
    for i in 0..rebased.len() {
        let requalified = format!("top.m.{}", rebased.key_at(i));
        let snap = db.signal_values_at_cycle(0);
        assert!(snap
            .get(&WaveformSignal::from_dotted(&requalified))
            .is_some());
    }
}
