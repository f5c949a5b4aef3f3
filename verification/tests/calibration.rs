use vcddiff::{SignalChange, TimeStampInfo, TraceVariable, WaveformDB};

fn var(name: &str, changes: &[(u64, &str)]) -> TraceVariable {
    TraceVariable {
        name: name.to_string(),
        changes: changes
            .iter()
            .map(|(t, b)| SignalChange {
                time: *t,
                bits: b.to_string(),
            })
            .collect(),
    }
}

#[test]
fn calibration_counts_rising_edges() {
    // Rising edges at 10, 20 and 35: three cycles, first edge at 10, and the
    // step width is the gap between the last two edges (35 - 20).
    let db = WaveformDB::new(vec![var(
        "top.clk",
        &[
            (0, "0"),
            (10, "1"),
            (15, "0"),
            (20, "1"),
            (30, "0"),
            (35, "1"),
        ],
    )]);
    assert!(db.wf_check());
    let cal = db.clock_cycles("top.clk");
    assert_eq!(cal, TimeStampInfo::new(3, 15, 10));
}

#[test]
fn calibration_ignores_falling_edges_and_leading_one() {
    // The trace starts high: the first 1 is not a rising edge because no 0
    // was seen before it.
    let db = WaveformDB::new(vec![var("clk", &[(0, "1"), (5, "0"), (9, "1")])]);
    let cal = db.clock_cycles("clk");
    assert_eq!(cal, TimeStampInfo::new(1, 9, 9));
}

#[test]
fn unknown_clock_yields_zero_calibration() {
    let db = WaveformDB::new(vec![var("top.clk", &[(0, "0"), (10, "1")])]);
    let cal = db.clock_cycles("top.other");
    assert_eq!(cal, TimeStampInfo::new(0, 0, 0));
}

#[test]
fn clock_without_edges_yields_zero_calibration() {
    let db = WaveformDB::new(vec![var("top.clk", &[(0, "0"), (10, "0"), (20, "0")])]);
    let cal = db.clock_cycles("top.clk");
    assert_eq!(cal, TimeStampInfo::new(0, 0, 0));
}

#[test]
fn calibration_uses_first_matching_variable() {
    let db = WaveformDB::new(vec![
        var("clk", &[(0, "0"), (10, "1")]),
        var("clk", &[(0, "0"), (99, "1")]),
    ]);
    let cal = db.clock_cycles("clk");
    assert_eq!(cal, TimeStampInfo::new(1, 10, 10));
}

#[test]
fn wf_check_rejects_unsorted_changes() {
    let db = WaveformDB::new(vec![var("clk", &[(10, "0"), (5, "1")])]);
    assert!(!db.wf_check());
    let dup = WaveformDB::new(vec![var("clk", &[(10, "0"), (10, "1")])]);
    assert!(!dup.wf_check());
}
