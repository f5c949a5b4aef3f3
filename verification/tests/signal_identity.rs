use vcddiff::WaveformSignal;

fn path(parts: &[&str]) -> Vec<String> {
    parts.iter().map(|s| s.to_string()).collect()
}

#[test]
fn hier_and_name_decompose_the_path() {
    let sig = WaveformSignal::new(path(&["top", "mod1", "clk"]));
    assert_eq!(sig.hier(), path(&["top", "mod1"]));
    assert_eq!(sig.name(), "clk".to_string());
    // Re-assembling hierarchy and name yields the original path.
    let mut rebuilt = sig.hier();
    rebuilt.push(sig.name());
    assert_eq!(rebuilt, path(&["top", "mod1", "clk"]));
}

#[test]
fn hier_and_name_on_single_component() {
    let sig = WaveformSignal::new(path(&["clk"]));
    assert_eq!(sig.hier(), Vec::<String>::new());
    assert_eq!(sig.name(), "clk".to_string());
}

#[test]
fn to_string_joins_with_dots() {
    let sig = WaveformSignal::new(path(&["top", "mod1", "clk"]));
    assert_eq!(sig.to_string(), "top.mod1.clk".to_string());
    let single = WaveformSignal::new(path(&["clk"]));
    assert_eq!(single.to_string(), "clk".to_string());
}

#[test]
fn from_dotted_splits_at_dots() {
    let sig = WaveformSignal::from_dotted("top.mod1.clk");
    assert_eq!(sig, WaveformSignal::new(path(&["top", "mod1", "clk"])));
    assert_eq!(sig.to_string(), "top.mod1.clk".to_string());
}

#[test]
fn from_dotted_keeps_empty_components() {
    let sig = WaveformSignal::from_dotted("a..b");
    assert_eq!(sig, WaveformSignal::new(path(&["a", "", "b"])));
    let trailing = WaveformSignal::from_dotted("a.");
    assert_eq!(trailing, WaveformSignal::new(path(&["a", ""])));
}

#[test]
fn append_extends_the_path() {
    let mut sig = WaveformSignal::new(path(&["top"]));
    sig.append("u0".to_string());
    assert_eq!(sig.to_string(), "top.u0".to_string());
}

#[test]
fn equality_is_component_wise() {
    let a = WaveformSignal::new(path(&["top", "a"]));
    let b = WaveformSignal::from_dotted("top.a");
    let c = WaveformSignal::from_dotted("top.b");
    assert_eq!(a, b);
    assert_ne!(a, c);
    assert_ne!(a, WaveformSignal::from_dotted("top"));
}
