use vcddiff::{
    find_divergences, DivergenceMap, FourStateBit, SignalChange, TraceVariable, WaveformDB,
    WaveformSignal, DIVERGENCE_THRESHOLD,
};

fn var(name: &str, changes: &[(u64, &str)]) -> TraceVariable {
    TraceVariable {
        name: name.to_string(),
        changes: changes
            .iter()
            .map(|(t, b)| SignalChange {
                time: *t,
                bits: b.to_string(),
            })
            .collect(),
    }
}

/// A clock with `n` rising edges at times 10, 20, ..., 10 * n.
fn clock(n: u64) -> TraceVariable {
    let mut changes = vec![(0u64, "0")];
    for i in 0..n {
        changes.push((10 * i + 10, "1"));
        changes.push((10 * i + 15, "0"));
    }
    var("clk", &changes)
}

fn same_records(r1: &DivergenceMap, r2: &DivergenceMap) -> bool {
    if r1.len() != r2.len() {
        return false;
    }
    for i in 0..r1.len() {
        if r1.key_at(i) != r2.key_at(i) {
            return false;
        }
        let a = r1.value_at(i);
        let b = r2.value_at(i);
        if a.cycle != b.cycle || a.value_a != b.value_a || a.value_b != b.value_b {
            return false;
        }
    }
    true
}

#[test]
fn equal_traces_have_no_divergence() {
    let a = WaveformDB::new(vec![clock(4), var("top.a", &[(0, "0"), (25, "1")])]);
    let b = WaveformDB::new(vec![clock(4), var("top.a", &[(0, "0"), (25, "1")])]);
    let r = find_divergences(&a, &b, "clk", "", DIVERGENCE_THRESHOLD);
    assert_eq!(r.len(), 0);
}

#[test]
fn first_divergence_is_reported_once_per_signal() {
    // top.a agrees at cycles 0 to 2 (times 10, 20, 30) and differs from
    // cycle 3 (time 40) on.
    let a = WaveformDB::new(vec![clock(4), var("top.a", &[(0, "0")])]);
    let b = WaveformDB::new(vec![clock(4), var("top.a", &[(0, "0"), (35, "1")])]);
    let r = find_divergences(&a, &b, "clk", "", DIVERGENCE_THRESHOLD);
    assert_eq!(r.len(), 1);
    let rec = r.get(&WaveformSignal::from_dotted("top.a")).unwrap();
    assert_eq!(rec.cycle, 3);
    assert_eq!(rec.value_a, FourStateBit::Bit0);
    assert_eq!(rec.value_b, Some(FourStateBit::Bit1));
}

#[test]
fn earliest_divergence_is_kept() {
    // top.a differs at every cycle; only the first divergence is recorded.
    let a = WaveformDB::new(vec![clock(4), var("top.a", &[(0, "0")])]);
    let b = WaveformDB::new(vec![clock(4), var("top.a", &[(0, "1")])]);
    let r = find_divergences(&a, &b, "clk", "", DIVERGENCE_THRESHOLD);
    assert_eq!(r.len(), 1);
    let rec = r.get(&WaveformSignal::from_dotted("top.a")).unwrap();
    assert_eq!(rec.cycle, 0);
}

#[test]
fn missing_signal_is_reported_immediately() {
    let a = WaveformDB::new(vec![clock(4), var("top.b", &[(0, "1")])]);
    let b = WaveformDB::new(vec![clock(4)]);
    let r = find_divergences(&a, &b, "clk", "", DIVERGENCE_THRESHOLD);
    assert_eq!(r.len(), 1);
    let rec = r.get(&WaveformSignal::from_dotted("top.b")).unwrap();
    assert_eq!(rec.cycle, 0);
    assert_eq!(rec.value_a, FourStateBit::Bit1);
    assert_eq!(rec.value_b, None);
}

#[test]
fn threshold_stops_the_scan_early() {
    // Eleven signals diverge first at cycles 0 through 10; a twelfth would
    // diverge at cycle 15, but the scan stops once more than ten signals
    // have diverged.
    let mut vars_a = vec![clock(20)];
    let mut vars_b = vec![clock(20)];
    for i in 0u64..11 {
        let name = format!("top.s{}", i);
        vars_a.push(var(&name, &[(0, "0")]));
        vars_b.push(var(&name, &[(0, "0"), (10 * i + 6, "1")]));
    }
    vars_a.push(var("top.late", &[(0, "0")]));
    vars_b.push(var("top.late", &[(0, "0"), (156, "1")]));
    let a = WaveformDB::new(vars_a);
    let b = WaveformDB::new(vars_b);
    let r = find_divergences(&a, &b, "clk", "", DIVERGENCE_THRESHOLD);
    assert_eq!(r.len(), 11);
    for i in 0u64..11 {
        let name = format!("top.s{}", i);
        let rec = r.get(&WaveformSignal::from_dotted(&name)).unwrap();
        assert_eq!(rec.cycle, i);
    }
    assert!(r
        .get(&WaveformSignal::from_dotted("top.late"))
        .is_none());
}

#[test]
fn scope_prefix_filters_signals() {
    let a = WaveformDB::new(vec![
        clock(2),
        var("top.m.a", &[(0, "0")]),
        var("top.x", &[(0, "0")]),
    ]);
    let b = WaveformDB::new(vec![
        clock(2),
        var("top.m.a", &[(0, "1")]),
        var("top.x", &[(0, "1")]),
    ]);
    let r = find_divergences(&a, &b, "clk", "top.m", DIVERGENCE_THRESHOLD);
    assert_eq!(r.len(), 1);
    assert!(r.get(&WaveformSignal::from_dotted("top.m.a")).is_some());
    assert!(r.get(&WaveformSignal::from_dotted("top.x")).is_none());
}

#[test]
fn scope_prefix_is_a_plain_string_prefix() {
    // The scope test is character-wise, not hierarchy-aware: "top.m" also
    // matches "top.mx.q".
    let a = WaveformDB::new(vec![clock(2), var("top.mx.q", &[(0, "0")])]);
    let b = WaveformDB::new(vec![clock(2), var("top.mx.q", &[(0, "1")])]);
    let r = find_divergences(&a, &b, "clk", "top.m", DIVERGENCE_THRESHOLD);
    assert_eq!(r.len(), 1);
}

#[test]
fn unknown_clock_compares_nothing() {
    let a = WaveformDB::new(vec![clock(4), var("top.a", &[(0, "0")])]);
    let b = WaveformDB::new(vec![clock(4), var("top.a", &[(0, "1")])]);
    let r = find_divergences(&a, &b, "nope", "", DIVERGENCE_THRESHOLD);
    assert_eq!(r.len(), 0);
}

#[test]
fn rerunning_the_engine_is_deterministic() {
    let mut vars_a = vec![clock(8)];
    let mut vars_b = vec![clock(8)];
    for i in 0u64..5 {
        let name = format!("top.s{}", i);
        vars_a.push(var(&name, &[(0, "0")]));
        vars_b.push(var(&name, &[(0, "0"), (10 * i + 6, "1")]));
    }
    vars_a.push(var("top.only_a", &[(0, "x")]));
    let a = WaveformDB::new(vars_a);
    let b = WaveformDB::new(vars_b);
    let r1 = find_divergences(&a, &b, "clk", "", DIVERGENCE_THRESHOLD);
    let r2 = find_divergences(&a, &b, "clk", "", DIVERGENCE_THRESHOLD);
    assert!(same_records(&r1, &r2));
    assert_eq!(r1.len(), 6);
}
