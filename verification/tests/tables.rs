use vcddiff::{FourStateBit, SignalMap, WaveformSignal};

#[test]
fn insert_appends_new_keys_in_order() {
    let mut m = SignalMap::new();
    m.insert(WaveformSignal::from_dotted("a.x"), FourStateBit::Bit0);
    m.insert(WaveformSignal::from_dotted("a.y"), FourStateBit::Bit1);
    assert_eq!(m.len(), 2);
    assert_eq!(m.key_at(0).to_string(), "a.x".to_string());
    assert_eq!(m.key_at(1).to_string(), "a.y".to_string());
}

#[test]
fn insert_replaces_existing_keys_in_place() {
    let mut m = SignalMap::new();
    m.insert(WaveformSignal::from_dotted("a.x"), FourStateBit::Bit0);
    m.insert(WaveformSignal::from_dotted("a.y"), FourStateBit::Bit1);
    m.insert(WaveformSignal::from_dotted("a.x"), FourStateBit::BitZ);
    assert_eq!(m.len(), 2);
    assert_eq!(m.key_at(0).to_string(), "a.x".to_string());
    assert_eq!(m.value_at(0), &FourStateBit::BitZ);
    assert_eq!(
        m.get(&WaveformSignal::from_dotted("a.x")),
        Some(&FourStateBit::BitZ)
    );
}

#[test]
fn get_and_contains_key_miss_on_absent_keys() {
    let mut m = SignalMap::new();
    assert!(!m.contains_key(&WaveformSignal::from_dotted("a.x")));
    m.insert(WaveformSignal::from_dotted("a.x"), FourStateBit::Bit0);
    assert!(m.contains_key(&WaveformSignal::from_dotted("a.x")));
    assert!(m.get(&WaveformSignal::from_dotted("a.z")).is_none());
}
