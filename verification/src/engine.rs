//! The divergence engine: drives the cycle-aligned comparison of two traces
//! and collects, per signal, the first cycle at which they disagree.

use vstd::prelude::*;

verus! {

use crate::four_state::{FourStateBit, FourStateVal};
use crate::signal::{join_dotted, WaveformSignal};
use crate::strutil::{starts_with_spec, str_starts_with};
use crate::table::{
    lemma_tbl_index_of_first,
    tbl_get,
    tbl_has_key,
    tbl_index_of,
    tbl_insert,
    SignalMap,
};
use crate::trace::{spec_calibration, spec_snapshot, ClockScan, WaveformDB};

/// Number of distinct diverging signals after which the engine stops
/// scanning further cycles.
pub const DIVERGENCE_THRESHOLD: usize = 10;

/// Model of a recorded divergence.
pub ghost struct DivergenceRecordView {
    pub cycle: u64,
    pub value_a: FourStateVal,
    pub value_b: Option<FourStateVal>,
}

/// The first observed divergence of one signal: the cycle at which it was
/// seen, the value in trace A, and the value in trace B (`None` when the
/// signal is absent from trace B at that cycle).
#[derive(Debug)]
pub struct DivergenceRecord {
    pub cycle: u64,
    pub value_a: FourStateBit,
    pub value_b: Option<FourStateBit>,
}

impl View for DivergenceRecord {
    type V = DivergenceRecordView;

    open spec fn view(&self) -> DivergenceRecordView {
        DivergenceRecordView {
            cycle: self.cycle,
            value_a: self.value_a@,
            value_b: match self.value_b {
                Option::Some(v) => Option::Some(v@),
                Option::None => Option::None,
            },
        }
    }
}

impl Clone for DivergenceRecord {
    fn clone(&self) -> (r: Self)
        ensures
            r@ == self@,
    {
        DivergenceRecord {
            cycle: self.cycle,
            value_a: self.value_a.clone(),
            value_b: match &self.value_b {
                Some(v) => Some(v.clone()),
                None => None,
            },
        }
    }
}

/// The engine's terminal output: an insertion-ordered mapping from signal
/// identity to the first recorded divergence of that signal.
#[derive(Debug)]
pub struct DivergenceMap {
    entries: Vec<(WaveformSignal, DivergenceRecord)>,
}

impl View for DivergenceMap {
    type V = Seq<(Seq<Seq<char>>, DivergenceRecordView)>;

    closed spec fn view(&self) -> Seq<(Seq<Seq<char>>, DivergenceRecordView)> {
        Seq::new(self.entries@.len(), |i: int| (self.entries@[i].0@, self.entries@[i].1@))
    }
}

impl DivergenceMap {
    pub fn new() -> (r: Self)
        ensures
            r@ == Seq::<(Seq<Seq<char>>, DivergenceRecordView)>::empty(),
    {
        let r = DivergenceMap { entries: Vec::new() };
        proof {
            assert(r@ =~= Seq::<(Seq<Seq<char>>, DivergenceRecordView)>::empty());
        }
        r
    }

    pub fn len(&self) -> (n: usize)
        ensures
            n == self@.len(),
    {
        self.entries.len()
    }

    pub fn key_at(&self, i: usize) -> (r: &WaveformSignal)
        requires
            i < self@.len(),
        ensures
            r@ == self@[i as int].0,
    {
        &self.entries[i].0
    }

    pub fn value_at(&self, i: usize) -> (r: &DivergenceRecord)
        requires
            i < self@.len(),
        ensures
            r@ == self@[i as int].1,
    {
        &self.entries[i].1
    }

    fn find_idx(&self, key: &WaveformSignal) -> (r: Option<usize>)
        ensures
            (r matches Some(i) ==> tbl_has_key(self@, key@) && tbl_index_of(self@, key@)
                == i as int && i < self@.len()),
            r is None ==> !tbl_has_key(self@, key@),
    {
        let n = self.entries.len();
        let mut i: usize = 0;
        while i < n
            invariant
                n == self.entries@.len(),
                n == self@.len(),
                i <= n,
                forall|j: int| 0 <= j < i ==> (#[trigger] self@[j]).0 != key@,
            decreases n - i,
        {
            if self.entries[i].0 == *key {
                proof {
                    assert(self@[i as int].0 == key@);
                    lemma_tbl_index_of_first(self@, key@, i as int);
                }
                return Some(i);
            }
            i = i + 1;
        }
        None
    }

    pub fn contains_key(&self, key: &WaveformSignal) -> (b: bool)
        ensures
            b == tbl_has_key(self@, key@),
    {
        match self.find_idx(key) {
            Some(_) => true,
            None => false,
        }
    }

    pub fn get(&self, key: &WaveformSignal) -> (r: Option<&DivergenceRecord>)
        ensures
            r is Some <==> tbl_has_key(self@, key@),
            (r matches Some(v) ==> tbl_get(self@, key@) == Some(v@)),
    {
        match self.find_idx(key) {
            Some(i) => Some(&self.entries[i].1),
            None => None,
        }
    }

    pub fn insert(&mut self, key: WaveformSignal, value: DivergenceRecord)
        ensures
            final(self)@ == tbl_insert(old(self)@, key@, value@),
    {
        let ghost old_view = self@;
        match self.find_idx(&key) {
            Some(i) => {
                let ghost kv = key@;
                let ghost vv = value@;
                self.entries[i] = (key, value);
                proof {
                    assert forall|j: int| 0 <= j < self@.len() implies self@[j] == old_view.update(
                        tbl_index_of(old_view, kv),
                        (kv, vv),
                    )[j] by {}
                    assert(self@ =~= tbl_insert(old_view, kv, vv));
                }
            },
            None => {
                let ghost kv = key@;
                let ghost vv = value@;
                self.entries.push((key, value));
                proof {
                    assert forall|j: int| 0 <= j < self@.len() implies self@[j] == old_view.push(
                        (kv, vv),
                    )[j] by {}
                    assert(self@ =~= tbl_insert(old_view, kv, vv));
                }
            },
        }
    }
}

/// Spec: cycle `c` of this calibration has a representable time stamp.
pub open spec fn cycle_time_ok(cal: ClockScan, c: int) -> bool {
    0 <= cal.first_edge + c * cal.steps <= u64::MAX
}

/// Spec: how one snapshot entry of trace A advances the record table at
/// cycle `c`.  Entries outside the scope prefix are ignored; a signal with a
/// differing or absent value in trace B gains a record unless it already has
/// one — records are never overwritten.
pub open spec fn spec_compare_entry(
    acc: Seq<(Seq<Seq<char>>, DivergenceRecordView)>,
    entry: (Seq<Seq<char>>, FourStateVal),
    snap_b: Seq<(Seq<Seq<char>>, FourStateVal)>,
    scope: Seq<char>,
    c: u64,
) -> Seq<(Seq<Seq<char>>, DivergenceRecordView)> {
    if starts_with_spec(join_dotted(entry.0), scope) {
        match tbl_get(snap_b, entry.0) {
            Option::Some(v2) => {
                if v2 != entry.1 && !tbl_has_key(acc, entry.0) {
                    acc.push(
                        (
                            entry.0,
                            DivergenceRecordView {
                                cycle: c,
                                value_a: entry.1,
                                value_b: Option::Some(v2),
                            },
                        ),
                    )
                } else {
                    acc
                }
            },
            Option::None => {
                if !tbl_has_key(acc, entry.0) {
                    acc.push(
                        (
                            entry.0,
                            DivergenceRecordView {
                                cycle: c,
                                value_a: entry.1,
                                value_b: Option::None,
                            },
                        ),
                    )
                } else {
                    acc
                }
            },
        }
    } else {
        acc
    }
}

pub open spec fn spec_compare_cycle(
    acc: Seq<(Seq<Seq<char>>, DivergenceRecordView)>,
    snap_a: Seq<(Seq<Seq<char>>, FourStateVal)>,
    snap_b: Seq<(Seq<Seq<char>>, FourStateVal)>,
    scope: Seq<char>,
    c: u64,
) -> Seq<(Seq<Seq<char>>, DivergenceRecordView)>
    decreases snap_a.len(),
{
    if snap_a.len() == 0 {
        acc
    } else {
        spec_compare_cycle(
            spec_compare_entry(acc, snap_a[0], snap_b, scope, c),
            snap_a.skip(1),
            snap_b,
            scope,
            c,
        )
    }
}

/// Spec: the scan from cycle `c` up to `n`, with early exit once the record
/// count exceeds the threshold after a cycle, or once a cycle's time stamp
/// would not be representable.
pub open spec fn spec_run_cycles(
    a: Seq<crate::trace::VarView>,
    b: Seq<crate::trace::VarView>,
    cal_a: ClockScan,
    cal_b: ClockScan,
    scope: Seq<char>,
    threshold: int,
    c: int,
    n: int,
    acc: Seq<(Seq<Seq<char>>, DivergenceRecordView)>,
) -> Seq<(Seq<Seq<char>>, DivergenceRecordView)>
    decreases n - c,
{
    if c >= n {
        acc
    } else if !(cycle_time_ok(cal_a, c) && cycle_time_ok(cal_b, c)) {
        acc
    } else {
        let ta = (cal_a.first_edge + c * cal_a.steps) as u64;
        let tb = (cal_b.first_edge + c * cal_b.steps) as u64;
        let acc2 = spec_compare_cycle(
            acc,
            spec_snapshot(a, ta),
            spec_snapshot(b, tb),
            scope,
            c as u64,
        );
        if acc2.len() > threshold {
            acc2
        } else {
            spec_run_cycles(a, b, cal_a, cal_b, scope, threshold, c + 1, n, acc2)
        }
    }
}

/// Spec: the divergence table of two traces, compared cycle for cycle over
/// the span both can cover, under a scope prefix and an early-exit
/// threshold.
pub open spec fn spec_divergences(
    a: Seq<crate::trace::VarView>,
    b: Seq<crate::trace::VarView>,
    clock: Seq<char>,
    scope: Seq<char>,
    threshold: int,
) -> Seq<(Seq<Seq<char>>, DivergenceRecordView)> {
    let cal_a = spec_calibration(a, clock);
    let cal_b = spec_calibration(b, clock);
    let n = if cal_a.cycles <= cal_b.cycles {
        cal_a.cycles
    } else {
        cal_b.cycles
    };
    spec_run_cycles(a, b, cal_a, cal_b, scope, threshold, 0, n, Seq::empty())
}

/// Compares two traces cycle for cycle, aligned on the rising edges of the
/// clock signal named `clock_path`, and returns the first divergence of
/// every signal in trace A's snapshots whose dotted name starts with
/// `scope_prefix`.  An empty result means the traces agree over the span
/// compared.  After any cycle that leaves more than `threshold` signals
/// diverging, scanning stops early.
pub fn find_divergences(
    a: &WaveformDB,
    b: &WaveformDB,
    clock_path: &str,
    scope_prefix: &str,
    threshold: usize,
) -> (r: DivergenceMap)
    requires
        a.wf(),
        b.wf(),
    ensures
        r@ == spec_divergences(a@, b@, clock_path@, scope_prefix@, threshold as int),
{
    let ta = a.clock_cycles(clock_path);
    let tb = b.clock_cycles(clock_path);
    let ghost cal_a = spec_calibration(a@, clock_path@);
    let ghost cal_b = spec_calibration(b@, clock_path@);
    let n = if ta.tot_cycles <= tb.tot_cycles {
        ta.tot_cycles
    } else {
        tb.tot_cycles
    };
    let mut records = DivergenceMap::new();
    let mut c: u64 = 0;
    while c < n
        invariant
            a.wf(),
            b.wf(),
            cal_a == spec_calibration(a@, clock_path@),
            cal_b == spec_calibration(b@, clock_path@),
            n as int == (if cal_a.cycles <= cal_b.cycles {
                cal_a.cycles
            } else {
                cal_b.cycles
            }),
            ta.per_cycle_steps == cal_a.steps,
            ta.offset == cal_a.first_edge,
            tb.per_cycle_steps == cal_b.steps,
            tb.offset == cal_b.first_edge,
            c <= n,
            spec_divergences(a@, b@, clock_path@, scope_prefix@, threshold as int)
                == spec_run_cycles(
                a@,
                b@,
                cal_a,
                cal_b,
                scope_prefix@,
                threshold as int,
                c as int,
                n as int,
                records@,
            ),
        decreases n - c,
    {
        let time_a_opt = match c.checked_mul(ta.per_cycle_steps) {
            Some(p) => ta.offset.checked_add(p),
            None => None,
        };
        let time_b_opt = match c.checked_mul(tb.per_cycle_steps) {
            Some(p) => tb.offset.checked_add(p),
            None => None,
        };
        let (time_a, time_b) = match (time_a_opt, time_b_opt) {
            (Some(x), Some(y)) => (x, y),
            _ => {
                proof {
                    assert(!(cycle_time_ok(cal_a, c as int) && cycle_time_ok(cal_b, c as int)));
                }
                return records;
            },
        };
        proof {
            assert(cycle_time_ok(cal_a, c as int) && cycle_time_ok(cal_b, c as int));
            assert(time_a as int == cal_a.first_edge + (c as int) * cal_a.steps);
            assert(time_b as int == cal_b.first_edge + (c as int) * cal_b.steps);
        }
        let snap_a = a.signal_values_at_cycle(time_a);
        let snap_b = b.signal_values_at_cycle(time_b);
        let ghost acc0 = records@;
        let sn = snap_a.len();
        let mut si: usize = 0;
        proof {
            assert(snap_a@.skip(0) =~= snap_a@);
        }
        while si < sn
            invariant
                sn == snap_a@.len(),
                si <= sn,
                spec_compare_cycle(acc0, snap_a@, snap_b@, scope_prefix@, c)
                    == spec_compare_cycle(
                    records@,
                    snap_a@.skip(si as int),
                    snap_b@,
                    scope_prefix@,
                    c,
                ),
            decreases sn - si,
        {
            let ghost pre = records@;
            let ghost entry = snap_a@[si as int];
            proof {
                assert(snap_a@.skip(si as int)[0] == entry);
                assert(snap_a@.skip(si as int).skip(1) =~= snap_a@.skip(si as int + 1));
            }
            let key = snap_a.key_at(si);
            let value = snap_a.value_at(si);
            let dotted = key.to_string();
            if str_starts_with(dotted.as_str(), scope_prefix) {
                match snap_b.get(key) {
                    Some(v2) => {
                        if !(*v2 == *value) && !records.contains_key(key) {
                            let rec = DivergenceRecord {
                                cycle: c,
                                value_a: value.clone(),
                                value_b: Some(v2.clone()),
                            };
                            proof {
                                assert(!tbl_has_key(pre, entry.0));
                            }
                            records.insert(key.clone(), rec);
                            proof {
                                assert(records@ =~= spec_compare_entry(
                                    pre,
                                    entry,
                                    snap_b@,
                                    scope_prefix@,
                                    c,
                                ));
                            }
                        }
                    },
                    None => {
                        if !records.contains_key(key) {
                            let rec = DivergenceRecord {
                                cycle: c,
                                value_a: value.clone(),
                                value_b: None,
                            };
                            proof {
                                assert(!tbl_has_key(pre, entry.0));
                            }
                            records.insert(key.clone(), rec);
                            proof {
                                assert(records@ =~= spec_compare_entry(
                                    pre,
                                    entry,
                                    snap_b@,
                                    scope_prefix@,
                                    c,
                                ));
                            }
                        }
                    },
                }
            }
            proof {
                assert(records@ == spec_compare_entry(pre, entry, snap_b@, scope_prefix@, c));
            }
            si = si + 1;
        }
        proof {
            assert(snap_a@.skip(sn as int).len() == 0);
            assert(records@ == spec_compare_cycle(acc0, snap_a@, snap_b@, scope_prefix@, c));
        }
        if records.len() > threshold {
            return records;
        }
        c = c + 1;
    }
    records
}

/// Law: the engine is deterministic.  Two runs on the same pair of traces,
/// with the same clock name, scope prefix and threshold, yield identical
/// divergence tables: any two results that meet the engine's contract are
/// equal.
pub proof fn lemma_engine_deterministic(
    a: Seq<crate::trace::VarView>,
    b: Seq<crate::trace::VarView>,
    clock: Seq<char>,
    scope: Seq<char>,
    threshold: int,
    r1: Seq<(Seq<Seq<char>>, DivergenceRecordView)>,
    r2: Seq<(Seq<Seq<char>>, DivergenceRecordView)>,
)
    requires
        r1 == spec_divergences(a, b, clock, scope, threshold),
        r2 == spec_divergences(a, b, clock, scope, threshold),
    ensures
        r1 == r2,
{
}

} // verus!
