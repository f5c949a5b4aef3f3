//! The trace model and its per-trace algorithms: clock-edge calibration,
//! per-cycle snapshot extraction and instance rebasing.
//!
//! A trace is a table of variables; each variable carries its full dotted
//! name and the time-ordered list of recorded value changes the waveform
//! source decoded for it.  All times are absolute time steps on the axis the
//! waveform source exposes.

use vstd::prelude::*;

verus! {

use vstd::string::StrSliceExecFns;
use crate::four_state::{char_to_bit, FourStateBit, FourStateVal};
use crate::signal::{component_wf, indexed_path, join_dotted, path_wf, split_dots, WaveformSignal};
use crate::signal::{lemma_split_dots_len, lemma_split_join_roundtrip};
use crate::strutil::str_eq;
use crate::table::{tbl_has_key, tbl_insert, RebasedMap, SignalMap};
use crate::table::{lemma_tbl_insert_has_key, lemma_tbl_insert_preserves_key};

/// Calibration of one trace against a designated clock signal: the number of
/// rising edges seen, the time delta between the last two of them, and the
/// time of the first one.
#[derive(Debug, Clone, Copy, PartialEq, Eq, Structural)]
pub struct TimeStampInfo {
    pub tot_cycles: u64,
    pub per_cycle_steps: u64,
    pub offset: u64,
}

impl TimeStampInfo {
    pub fn new(tot_cycles: u64, per_cycle_steps: u64, offset: u64) -> (r: Self)
        ensures
            r == (TimeStampInfo { tot_cycles, per_cycle_steps, offset }),
    {
        TimeStampInfo { tot_cycles, per_cycle_steps, offset }
    }
}

/// Model of one recorded value change.
pub ghost struct ChangeView {
    pub time: u64,
    pub bits: Seq<char>,
}

/// Model of one variable of a trace.
pub ghost struct VarView {
    pub name: Seq<char>,
    pub changes: Seq<ChangeView>,
}

/// One recorded value change: the value string holds one character per bit,
/// most significant first, as the waveform source renders it.
#[derive(Debug)]
pub struct SignalChange {
    pub time: u64,
    pub bits: String,
}

impl View for SignalChange {
    type V = ChangeView;

    open spec fn view(&self) -> ChangeView {
        ChangeView { time: self.time, bits: self.bits@ }
    }
}

impl DeepView for SignalChange {
    type V = ChangeView;

    open spec fn deep_view(&self) -> ChangeView {
        self@
    }
}

/// One variable of a trace: its full dotted name and its recorded changes in
/// increasing time order.
#[derive(Debug)]
pub struct TraceVariable {
    pub name: String,
    pub changes: Vec<SignalChange>,
}

impl View for TraceVariable {
    type V = VarView;

    open spec fn view(&self) -> VarView {
        VarView { name: self.name@, changes: self.changes.deep_view() }
    }
}

impl DeepView for TraceVariable {
    type V = VarView;

    open spec fn deep_view(&self) -> VarView {
        self@
    }
}

/// A whole trace: every variable the waveform source decoded, in its stable
/// listing order.
#[derive(Debug)]
pub struct WaveformDB {
    pub vars: Vec<TraceVariable>,
}

impl View for WaveformDB {
    type V = Seq<VarView>;

    open spec fn view(&self) -> Seq<VarView> {
        self.vars.deep_view()
    }
}

/// Spec: the changes of a variable are in strictly increasing time order.
pub open spec fn var_wf(v: VarView) -> bool {
    forall|i: int|
        0 <= i && i + 1 < v.changes.len() ==> (#[trigger] v.changes[i]).time < v.changes[i
            + 1].time
}

/// Spec: the last recorded value at or before `t`, scanning from the end.
pub open spec fn at_or_before(changes: Seq<ChangeView>, t: u64) -> Option<Seq<char>>
    decreases changes.len(),
{
    if changes.len() == 0 {
        None
    } else if changes.last().time <= t {
        Some(changes.last().bits)
    } else {
        at_or_before(changes.drop_last(), t)
    }
}

/// Spec: the first character of a value string, or 'x' if it is empty.
pub open spec fn first_char_or_x(s: Seq<char>) -> char {
    if s.len() == 0 {
        'x'
    } else {
        s[0]
    }
}

/// State of the clock-edge scan.
pub ghost struct ClockScan {
    pub last: FourStateVal,
    pub cycles: int,
    pub steps: int,
    pub last_edge: int,
    pub first_edge: int,
    pub found: bool,
}

pub open spec fn scan_init() -> ClockScan {
    ClockScan { last: FourStateVal::BitX, cycles: 0, steps: 0, last_edge: 0, first_edge: 0, found: false }
}

/// Spec: one step of the clock scan.  A rising edge (previous value 0,
/// current value 1) counts a cycle, records the gap since the previous edge,
/// and pins the first edge time once.
pub open spec fn scan_step(st: ClockScan, ch: ChangeView) -> ClockScan {
    let cur = char_to_bit(first_char_or_x(ch.bits));
    if st.last == FourStateVal::Bit0 && cur == FourStateVal::Bit1 {
        ClockScan {
            last: cur,
            cycles: st.cycles + 1,
            steps: ch.time - st.last_edge,
            last_edge: ch.time as int,
            first_edge: if st.found {
                st.first_edge
            } else {
                ch.time as int
            },
            found: true,
        }
    } else {
        ClockScan {
            last: cur,
            cycles: st.cycles,
            steps: st.steps,
            last_edge: st.last_edge,
            first_edge: st.first_edge,
            found: st.found,
        }
    }
}

pub open spec fn scan_clock(changes: Seq<ChangeView>, st: ClockScan) -> ClockScan
    decreases changes.len(),
{
    if changes.len() == 0 {
        st
    } else {
        scan_clock(changes.skip(1), scan_step(st, changes[0]))
    }
}

/// Spec: the snapshot entries one variable contributes at time `t`: nothing
/// if it has no recorded value yet; its identity with the single-bit value if
/// the value has one character; otherwise one entry per bit, named with a
/// bracketed index, bit 0 being the least significant (the last character of
/// the value string).
pub open spec fn var_entries(v: VarView, t: u64) -> Seq<(Seq<Seq<char>>, FourStateVal)> {
    match at_or_before(v.changes, t) {
        Option::None => Seq::empty(),
        Option::Some(bits) => {
            if bits.len() == 1 {
                seq![(split_dots(v.name), char_to_bit(bits[0]))]
            } else {
                Seq::new(
                    bits.len(),
                    |i: int|
                        (indexed_path(split_dots(v.name), i), char_to_bit(bits[bits.len() - 1 - i])),
                )
            }
        },
    }
}

pub open spec fn insert_entries(
    acc: Seq<(Seq<Seq<char>>, FourStateVal)>,
    es: Seq<(Seq<Seq<char>>, FourStateVal)>,
) -> Seq<(Seq<Seq<char>>, FourStateVal)>
    decreases es.len(),
{
    if es.len() == 0 {
        acc
    } else {
        insert_entries(tbl_insert(acc, es[0].0, es[0].1), es.skip(1))
    }
}

pub open spec fn snap_vars(
    vars: Seq<VarView>,
    t: u64,
    acc: Seq<(Seq<Seq<char>>, FourStateVal)>,
) -> Seq<(Seq<Seq<char>>, FourStateVal)>
    decreases vars.len(),
{
    if vars.len() == 0 {
        acc
    } else {
        snap_vars(vars.skip(1), t, insert_entries(acc, var_entries(vars[0], t)))
    }
}

/// Spec: the full signal table of a trace at time `t`.
pub open spec fn spec_snapshot(vars: Seq<VarView>, t: u64) -> Seq<(Seq<Seq<char>>, FourStateVal)> {
    snap_vars(vars, t, Seq::empty())
}

/// Spec: how one snapshot entry rebases onto instance path `inst`: an entry
/// at least as deep as the instance must match the instance prefix (and is
/// re-keyed relative to it) or is dropped; a shallower entry passes through
/// under its full dotted name.
pub open spec fn rebase_entry(
    acc: Seq<(Seq<char>, FourStateVal)>,
    p: Seq<Seq<char>>,
    v: FourStateVal,
    inst: Seq<Seq<char>>,
) -> Seq<(Seq<char>, FourStateVal)> {
    if p.len() == 0 {
        acc
    } else if p.len() - 1 >= inst.len() {
        if p.drop_last().take(inst.len() as int) == inst {
            tbl_insert(acc, join_dotted(p.skip(inst.len() as int)), v)
        } else {
            acc
        }
    } else {
        tbl_insert(acc, join_dotted(p), v)
    }
}

pub open spec fn spec_rebase(
    snap: Seq<(Seq<Seq<char>>, FourStateVal)>,
    inst: Seq<Seq<char>>,
    acc: Seq<(Seq<char>, FourStateVal)>,
) -> Seq<(Seq<char>, FourStateVal)>
    decreases snap.len(),
{
    if snap.len() == 0 {
        acc
    } else {
        spec_rebase(snap.skip(1), inst, rebase_entry(acc, snap[0].0, snap[0].1, inst))
    }
}

/// Spec: index of the first variable with the given name, or -1.
pub open spec fn find_var(vars: Seq<VarView>, name: Seq<char>) -> int
    decreases vars.len(),
{
    if vars.len() == 0 {
        -1
    } else if vars[0].name == name {
        0
    } else if find_var(vars.skip(1), name) < 0 {
        -1
    } else {
        1 + find_var(vars.skip(1), name)
    }
}

pub proof fn lemma_find_var_first(vars: Seq<VarView>, name: Seq<char>, i: int)
    requires
        0 <= i < vars.len(),
        vars[i].name == name,
        forall|j: int| 0 <= j < i ==> (#[trigger] vars[j]).name != name,
    ensures
        find_var(vars, name) == i,
    decreases vars.len(),
{
    if i > 0 {
        assert(vars[0].name != name);
        assert(vars.skip(1)[i - 1] == vars[i]);
        assert forall|j: int| 0 <= j < i - 1 implies (#[trigger] vars.skip(1)[j]).name != name by {
            assert(vars.skip(1)[j] == vars[j + 1]);
        }
        lemma_find_var_first(vars.skip(1), name, i - 1);
    }
}

pub proof fn lemma_find_var_none(vars: Seq<VarView>, name: Seq<char>)
    requires
        forall|j: int| 0 <= j < vars.len() ==> (#[trigger] vars[j]).name != name,
    ensures
        find_var(vars, name) == -1,
    decreases vars.len(),
{
    if vars.len() > 0 {
        assert forall|j: int| 0 <= j < vars.skip(1).len() implies (#[trigger] vars.skip(
            1,
        )[j]).name != name by {
            assert(vars.skip(1)[j] == vars[j + 1]);
        }
        lemma_find_var_none(vars.skip(1), name);
    }
}

/// Spec: the calibration of a trace for a clock name.  An unknown clock, or
/// one that never rises, yields the zero calibration.
pub open spec fn spec_calibration(vars: Seq<VarView>, clock: Seq<char>) -> ClockScan {
    if find_var(vars, clock) < 0 {
        scan_init()
    } else {
        scan_clock(vars[find_var(vars, clock)].changes, scan_init())
    }
}

/// The last value of `changes` recorded at or before time `t`.
fn value_at_or_before(changes: &Vec<SignalChange>, t: u64) -> (r: Option<&String>)
    ensures
        (r matches Some(b) ==> at_or_before(changes.deep_view(), t) == Some(b@)),
        r is None ==> at_or_before(changes.deep_view(), t) is None,
{
    let ghost full = changes.deep_view();
    let mut i: usize = changes.len();
    proof {
        assert(full.len() == changes@.len());
        assert(full.take(i as int) =~= full);
    }
    while i > 0
        invariant
            full == changes.deep_view(),
            full.len() == changes@.len(),
            i <= changes@.len(),
            at_or_before(full, t) == at_or_before(full.take(i as int), t),
        decreases i,
    {
        proof {
            assert(full[i - 1] == changes@[i - 1]@);
            assert(full.take(i as int).last() == full[i - 1]);
        }
        if changes[i - 1].time <= t {
            return Some(&changes[i - 1].bits);
        }
        proof {
            assert(full.take(i as int).drop_last() =~= full.take(i as int - 1));
        }
        i = i - 1;
    }
    proof {
        assert(full.take(0).len() == 0);
    }
    None
}

impl WaveformDB {
    /// Spec: every variable's change list is in strictly increasing time
    /// order.
    pub open spec fn wf(&self) -> bool {
        forall|i: int| 0 <= i < self@.len() ==> var_wf(#[trigger] self@[i])
    }

    /// Builds a trace from its decoded variables.
    pub fn new(vars: Vec<TraceVariable>) -> (r: Self)
        ensures
            r@ == vars.deep_view(),
    {
        WaveformDB { vars }
    }

    /// Runtime check of the model invariant, for callers that assemble a
    /// trace from unverified input.
    pub fn wf_check(&self) -> (b: bool)
        ensures
            b == self.wf(),
    {
        let n = self.vars.len();
        let mut vi: usize = 0;
        while vi < n
            invariant
                n == self.vars@.len(),
                n == self@.len(),
                vi <= n,
                forall|j: int| 0 <= j < vi ==> var_wf(#[trigger] self@[j]),
            decreases n - vi,
        {
            let m = self.vars[vi].changes.len();
            proof {
                assert(self@[vi as int] == self.vars@[vi as int]@);
                assert(self@[vi as int].changes.len() == m);
            }
            if m > 0 {
                let mut k: usize = 0;
                while k + 1 < m
                    invariant
                        vi < n,
                        n == self.vars@.len(),
                        n == self@.len(),
                        m == self.vars@[vi as int]@.changes.len(),
                        self@[vi as int] == self.vars@[vi as int]@,
                        k < m,
                        forall|j: int|
                            0 <= j && j + 1 < k + 1 ==> (#[trigger] self@[vi as int].changes[j]).time
                                < self@[vi as int].changes[j + 1].time,
                    decreases m - k,
                {
                    let t0 = self.vars[vi].changes[k].time;
                    let t1 = self.vars[vi].changes[k + 1].time;
                    proof {
                        assert(self@[vi as int].changes[k as int] == self.vars@[vi as int].changes@[k as int]@);
                        assert(self@[vi as int].changes[k as int + 1] == self.vars@[vi as int].changes@[k as int + 1]@);
                    }
                    if !(t0 < t1) {
                        proof {
                            assert(!var_wf(self@[vi as int]));
                        }
                        return false;
                    }
                    k = k + 1;
                }
            }
            proof {
                assert(var_wf(self@[vi as int]));
            }
            vi = vi + 1;
        }
        true
    }

    /// Calibration of this trace against the clock signal with the given
    /// full dotted name: counts rising edges, measures the gap between the
    /// last two, and records the first edge time.  An unknown clock, or one
    /// that never rises, yields the zero calibration.
    pub fn clock_cycles(&self, clock_path: &str) -> (r: TimeStampInfo)
        requires
            self.wf(),
        ensures
            r.tot_cycles == spec_calibration(self@, clock_path@).cycles,
            r.per_cycle_steps == spec_calibration(self@, clock_path@).steps,
            r.offset == spec_calibration(self@, clock_path@).first_edge,
    {
        let n = self.vars.len();
        let mut vi: usize = 0;
        while vi < n
            invariant
                n == self.vars@.len(),
                n == self@.len(),
                vi <= n,
                self.wf(),
                forall|j: int| 0 <= j < vi ==> (#[trigger] self@[j]).name != clock_path@,
            decreases n - vi,
        {
            proof {
                assert(self@[vi as int] == self.vars@[vi as int]@);
            }
            if str_eq(self.vars[vi].name.as_str(), clock_path) {
                proof {
                    assert(self@[vi as int].name == clock_path@);
                    lemma_find_var_first(self@, clock_path@, vi as int);
                    assert(var_wf(self@[vi as int]));
                }
                return Self::calibrate_var(&self.vars[vi]);
            }
            vi = vi + 1;
        }
        proof {
            lemma_find_var_none(self@, clock_path@);
        }
        TimeStampInfo::new(0, 0, 0)
    }

    /// Scans one variable's changes for rising clock edges.
    fn calibrate_var(v: &TraceVariable) -> (r: TimeStampInfo)
        requires
            var_wf(v@),
        ensures
            r.tot_cycles == scan_clock(v@.changes, scan_init()).cycles,
            r.per_cycle_steps == scan_clock(v@.changes, scan_init()).steps,
            r.offset == scan_clock(v@.changes, scan_init()).first_edge,
    {
        let ghost full = v@.changes;
        let n = v.changes.len();
        let mut cycles: u64 = 0;
        let mut steps: u64 = 0;
        let mut last_edge: u64 = 0;
        let mut first_edge: u64 = 0;
        let mut found = false;
        let mut last_is_zero = false;
        let ghost mut last_val = FourStateVal::BitX;
        let mut i: usize = 0;
        proof {
            assert(full.skip(0) =~= full);
        }
        while i < n
            invariant
                var_wf(v@),
                full == v@.changes,
                n == v.changes@.len(),
                full.len() == n,
                i <= n,
                cycles <= i,
                last_is_zero == (last_val == FourStateVal::Bit0),
                i == 0 ==> last_edge == 0,
                i > 0 ==> last_edge as int <= full[i - 1].time as int,
                scan_clock(full, scan_init()) == scan_clock(
                    full.skip(i as int),
                    ClockScan {
                        last: last_val,
                        cycles: cycles as int,
                        steps: steps as int,
                        last_edge: last_edge as int,
                        first_edge: first_edge as int,
                        found: found,
                    },
                ),
            decreases n - i,
        {
            let ghost st = ClockScan {
                last: last_val,
                cycles: cycles as int,
                steps: steps as int,
                last_edge: last_edge as int,
                first_edge: first_edge as int,
                found: found,
            };
            proof {
                assert(full[i as int] == v.changes@[i as int]@);
            }
            let bits = &v.changes[i].bits;
            let c = if bits.as_str().unicode_len() == 0 {
                'x'
            } else {
                bits.as_str().get_char(0)
            };
            proof {
                assert(c == first_char_or_x(full[i as int].bits));
            }
            let t = v.changes[i].time;
            let rising = last_is_zero && c == '1';
            proof {
                assert(rising == (st.last == FourStateVal::Bit0 && char_to_bit(c)
                    == FourStateVal::Bit1));
            }
            if rising {
                cycles = cycles + 1;
                steps = t - last_edge;
                last_edge = t;
                if !found {
                    first_edge = t;
                    found = true;
                }
            }
            last_is_zero = c == '0';
            proof {
                last_val = char_to_bit(c);
                assert(last_is_zero == (last_val == FourStateVal::Bit0));
                let st2 = ClockScan {
                    last: last_val,
                    cycles: cycles as int,
                    steps: steps as int,
                    last_edge: last_edge as int,
                    first_edge: first_edge as int,
                    found: found,
                };
                assert(st2 == scan_step(st, full[i as int]));
                assert(full.skip(i as int).skip(1) =~= full.skip(i as int + 1));
                assert(full.skip(i as int)[0] == full[i as int]);
                assert(scan_clock(full.skip(i as int), st) == scan_clock(
                    full.skip(i as int + 1),
                    st2,
                ));
            }
            i = i + 1;
        }
        proof {
            assert(full.skip(n as int).len() == 0);
        }
        TimeStampInfo::new(cycles, steps, first_edge)
    }

    /// The full signal table of this trace at the given absolute time step.
    /// Signals without a recorded value yet are omitted; a multi-bit signal
    /// contributes one entry per bit, named `name[i]` with bit 0 the least
    /// significant.
    pub fn signal_values_at_cycle(&self, time_step: u64) -> (r: SignalMap)
        ensures
            r@ == spec_snapshot(self@, time_step),
    {
        let mut ret = SignalMap::new();
        let n = self.vars.len();
        let mut vi: usize = 0;
        proof {
            assert(self@.skip(0) =~= self@);
        }
        while vi < n
            invariant
                n == self.vars@.len(),
                n == self@.len(),
                vi <= n,
                spec_snapshot(self@, time_step) == snap_vars(
                    self@.skip(vi as int),
                    time_step,
                    ret@,
                ),
            decreases n - vi,
        {
            let ghost vv = self@[vi as int];
            let ghost acc0 = ret@;
            proof {
                assert(vv == self.vars@[vi as int]@);
                assert(self@.skip(vi as int)[0] == vv);
                assert(self@.skip(vi as int).skip(1) =~= self@.skip(vi as int + 1));
                assert(snap_vars(self@.skip(vi as int), time_step, acc0) == snap_vars(
                    self@.skip(vi as int + 1),
                    time_step,
                    insert_entries(acc0, var_entries(vv, time_step)),
                ));
            }
            let var = &self.vars[vi];
            proof {
                assert(vv.changes == var.changes.deep_view());
                assert(vv.name == var.name@);
            }
            match value_at_or_before(&var.changes, time_step) {
                None => {
                    proof {
                        assert(var_entries(vv, time_step) == Seq::<
                            (Seq<Seq<char>>, FourStateVal),
                        >::empty());
                        assert(insert_entries(acc0, var_entries(vv, time_step)) == acc0);
                    }
                },
                Some(bits_string) => {
                    let ghost es = var_entries(vv, time_step);
                    let ghost bv = bits_string@;
                    let m = bits_string.as_str().unicode_len();
                    if m == 1 {
                        let key = WaveformSignal::from_dotted(var.name.as_str());
                        let value = FourStateBit::from_char(bits_string.as_str().get_char(0));
                        proof {
                            assert(es == seq![(split_dots(vv.name), char_to_bit(bv[0]))]);
                            assert(es[0] == (split_dots(vv.name), char_to_bit(bv[0])));
                            assert(es.skip(1).len() == 0);
                            assert(insert_entries(acc0, es) == insert_entries(
                                tbl_insert(acc0, es[0].0, es[0].1),
                                es.skip(1),
                            ));
                            assert(insert_entries(tbl_insert(acc0, es[0].0, es[0].1), es.skip(1))
                                == tbl_insert(acc0, es[0].0, es[0].1));
                        }
                        ret.insert(key, value);
                        proof {
                            assert(ret@ == insert_entries(acc0, es));
                        }
                    } else {
                        let base = WaveformSignal::from_dotted(var.name.as_str());
                        proof {
                            lemma_split_dots_len(vv.name);
                            assert(base@ == split_dots(vv.name));
                            assert(es.len() == m);
                            assert(es.skip(0) =~= es);
                        }
                        let mut bi: usize = 0;
                        while bi < m
                            invariant
                                m == bv.len(),
                                m != 1,
                                bv == bits_string@,
                                bi <= m,
                                base@ == split_dots(vv.name),
                                base@.len() > 0,
                                es == var_entries(vv, time_step),
                                at_or_before(vv.changes, time_step) == Some(bv),
                                es.len() == m,
                                insert_entries(acc0, es) == insert_entries(
                                    ret@,
                                    es.skip(bi as int),
                                ),
                            decreases m - bi,
                        {
                            let key = base.indexed(bi);
                            let value = FourStateBit::from_char(
                                bits_string.as_str().get_char(m - 1 - bi),
                            );
                            proof {
                                assert(es[bi as int] == (
                                    indexed_path(base@, bi as int),
                                    char_to_bit(bv[m - 1 - bi as int]),
                                ));
                                assert(es.skip(bi as int)[0] == es[bi as int]);
                                assert(es.skip(bi as int).skip(1) =~= es.skip(bi as int + 1));
                            }
                            ret.insert(key, value);
                            proof {
                                assert(insert_entries(acc0, es) == insert_entries(
                                    ret@,
                                    es.skip(bi as int + 1),
                                ));
                            }
                            bi = bi + 1;
                        }
                        proof {
                            assert(es.skip(m as int).len() == 0);
                            assert(ret@ == insert_entries(acc0, es));
                        }
                    }
                },
            }
            vi = vi + 1;
        }
        proof {
            assert(self@.skip(n as int).len() == 0);
        }
        ret
    }

    /// The snapshot at `time_step`, re-keyed relative to `instance_path`:
    /// entries under the instance keep their instance-relative dotted name,
    /// deeper entries elsewhere are dropped, and entries shallower than the
    /// instance pass through under their full dotted name.
    pub fn signal_values_at_cycle_rebase_top(&self, time_step: u64, instance_path: String) -> (r:
        RebasedMap)
        ensures
            r@ == spec_rebase(
                spec_snapshot(self@, time_step),
                split_dots(instance_path@),
                Seq::empty(),
            ),
    {
        let snap = self.signal_values_at_cycle(time_step);
        let inst = WaveformSignal::from_dotted(instance_path.as_str());
        let ghost iv = inst@;
        let k = inst.depth();
        let mut ret = RebasedMap::new();
        let sn = snap.len();
        let mut i: usize = 0;
        proof {
            assert(snap@.skip(0) =~= snap@);
        }
        while i < sn
            invariant
                sn == snap@.len(),
                i <= sn,
                iv == split_dots(instance_path@),
                iv == inst@,
                k == iv.len(),
                spec_rebase(snap@, iv, Seq::empty()) == spec_rebase(
                    snap@.skip(i as int),
                    iv,
                    ret@,
                ),
            decreases sn - i,
        {
            let ghost acc0 = ret@;
            let ghost p = snap@[i as int].0;
            let ghost pv = snap@[i as int].1;
            proof {
                assert(snap@.skip(i as int)[0] == snap@[i as int]);
                assert(snap@.skip(i as int).skip(1) =~= snap@.skip(i as int + 1));
                assert(spec_rebase(snap@.skip(i as int), iv, acc0) == spec_rebase(
                    snap@.skip(i as int + 1),
                    iv,
                    rebase_entry(acc0, p, pv, iv),
                ));
            }
            let key = snap.key_at(i);
            let value = snap.value_at(i);
            let d = key.depth();
            if d == 0 {
                // An identity is never empty in a snapshot; such an entry
                // rebases to nothing.
                proof {
                    assert(rebase_entry(acc0, p, pv, iv) == acc0);
                }
            } else if d - 1 >= k {
                let mut j: usize = 0;
                while j < k && str_eq(key.component(j).as_str(), inst.component(j).as_str())
                    invariant
                        j <= k,
                        k == iv.len(),
                        k <= d - 1,
                        d == key@.len(),
                        p == key@,
                        iv == inst@,
                        forall|q: int| 0 <= q < j ==> p[q] == iv[q],
                    decreases k - j,
                {
                    j = j + 1;
                }
                if j == k {
                    proof {
                        assert forall|q: int| 0 <= q < k implies p.drop_last().take(k as int)[q]
                            == iv[q] by {
                            assert(p.drop_last().take(k as int)[q] == p[q]);
                        }
                        assert(p.drop_last().take(k as int) =~= iv);
                    }
                    let mut comps: Vec<String> = Vec::new();
                    let mut q: usize = k;
                    while q < d
                        invariant
                            k <= q <= d,
                            d == key@.len(),
                            p == key@,
                            comps@.len() == q - k,
                            forall|w: int| 0 <= w < q - k ==> (#[trigger] comps@[w])@ == p[k + w],
                        decreases d - q,
                    {
                        comps.push(key.component(q).clone());
                        q = q + 1;
                    }
                    let rel = WaveformSignal::new(comps);
                    proof {
                        assert forall|w: int| 0 <= w < rel@.len() implies rel@[w] == p.skip(
                            k as int,
                        )[w] by {
                            assert(rel@[w] == comps@[w]@);
                            assert(p.skip(k as int)[w] == p[k + w]);
                        }
                        assert(rel@ =~= p.skip(k as int));
                    }
                    let name = rel.to_string();
                    ret.insert(name, value.clone());
                    proof {
                        assert(ret@ == rebase_entry(acc0, p, pv, iv));
                    }
                } else {
                    proof {
                        assert(p[j as int] != iv[j as int]);
                        assert(p.drop_last().take(k as int)[j as int] == p[j as int]);
                        assert(p.drop_last().take(k as int) != iv);
                        assert(rebase_entry(acc0, p, pv, iv) == acc0);
                    }
                }
            } else {
                let name = key.to_string();
                ret.insert(name, value.clone());
                proof {
                    assert(ret@ == rebase_entry(acc0, p, pv, iv));
                }
            }
            i = i + 1;
        }
        proof {
            assert(snap@.skip(sn as int).len() == 0);
        }
        ret
    }
}

proof fn lemma_rebase_preserves_key(
    snap: Seq<(Seq<Seq<char>>, FourStateVal)>,
    inst: Seq<Seq<char>>,
    acc: Seq<(Seq<char>, FourStateVal)>,
    key: Seq<char>,
)
    requires
        tbl_has_key(acc, key),
    ensures
        tbl_has_key(spec_rebase(snap, inst, acc), key),
    decreases snap.len(),
{
    if snap.len() > 0 {
        let p = snap[0].0;
        let acc2 = rebase_entry(acc, p, snap[0].1, inst);
        assert(tbl_has_key(acc2, key)) by {
            if p.len() == 0 {
            } else if p.len() - 1 >= inst.len() {
                if p.drop_last().take(inst.len() as int) == inst {
                    lemma_tbl_insert_preserves_key(
                        acc,
                        join_dotted(p.skip(inst.len() as int)),
                        snap[0].1,
                        key,
                    );
                }
            } else {
                lemma_tbl_insert_preserves_key(acc, join_dotted(p), snap[0].1, key);
            }
        }
        lemma_rebase_preserves_key(snap.skip(1), inst, acc2, key);
    }
}

/// Law: rebasing a snapshot to an instance path and then re-qualifying each
/// resulting name with that path reproduces the original identity, for every
/// entry whose hierarchy starts with the instance path.  Stated for
/// identities whose components are non-empty paths free of separator
/// characters, as every identity read from a dotted name is.
pub proof fn lemma_rebase_requalify(
    snap: Seq<(Seq<Seq<char>>, FourStateVal)>,
    inst: Seq<Seq<char>>,
    acc: Seq<(Seq<char>, FourStateVal)>,
    e: int,
)
    requires
        0 <= e < snap.len(),
        path_wf(snap[e].0),
        snap[e].0.len() > inst.len(),
        snap[e].0.take(inst.len() as int) == inst,
    ensures
        tbl_has_key(spec_rebase(snap, inst, acc), join_dotted(snap[e].0.skip(inst.len() as int))),
        inst + split_dots(join_dotted(snap[e].0.skip(inst.len() as int))) == snap[e].0,
    decreases e,
{
    let p = snap[e].0;
    let kk = inst.len() as int;
    assert(path_wf(p.skip(kk))) by {
        assert(p.skip(kk).len() > 0);
        assert forall|w: int| 0 <= w < p.skip(kk).len() implies component_wf(
            #[trigger] p.skip(kk)[w],
        ) by {
            assert(p.skip(kk)[w] == p[kk + w]);
        }
    }
    lemma_split_join_roundtrip(p.skip(kk));
    assert(inst + split_dots(join_dotted(p.skip(kk))) =~= p);
    if e == 0 {
        let acc2 = rebase_entry(acc, p, snap[0].1, inst);
        assert forall|q: int| 0 <= q < kk implies p.drop_last().take(kk)[q] == inst[q] by {
            assert(p.drop_last().take(kk)[q] == p[q]);
            assert(p.take(kk)[q] == p[q]);
        }
        assert(p.drop_last().take(kk) =~= inst);
        lemma_tbl_insert_has_key(acc, join_dotted(p.skip(kk)), snap[0].1);
        lemma_rebase_preserves_key(snap.skip(1), inst, acc2, join_dotted(p.skip(kk)));
    } else {
        assert(snap.skip(1)[e - 1] == snap[e]);
        lemma_rebase_requalify(
            snap.skip(1),
            inst,
            rebase_entry(acc, snap[0].0, snap[0].1, inst),
            e - 1,
        );
        assert(spec_rebase(snap, inst, acc) == spec_rebase(
            snap.skip(1),
            inst,
            rebase_entry(acc, snap[0].0, snap[0].1, inst),
        ));
    }
}

} // verus!
