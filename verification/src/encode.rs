use vstd::prelude::*;
use crate::aggregate::{avg_mapq, avg_round, BASE_CAP};
use crate::location::Location;

verus! {

/// One emitted interval: `end` is exclusive, so the run covers the sorted
/// entries from `start` to `end - 1` on `contig`, all carrying `value`.
#[derive(Clone, Copy, Debug, PartialEq, Eq, Structural)]
pub struct Run {
    pub contig: u32,
    pub start: u32,
    pub end: u64,
    pub value: u64,
}

/// The running state of one encoding pass: the contig, start position, last
/// seen position and value of the currently open run.
#[derive(Clone, Copy, Debug, PartialEq, Eq, Structural)]
pub struct RunState {
    pub contig: u32,
    pub start: u32,
    pub last: u32,
    pub value: u64,
}

/// The run that closing the open state emits: exclusive end one past the
/// last covered position.
pub open spec fn run_of(st: RunState) -> Run {
    Run { contig: st.contig, start: st.start, end: (st.last + 1) as u64, value: st.value }
}

/// The state opened by the first entry of a run.
pub open spec fn open_state(loc: Location, value: u64) -> RunState {
    RunState { contig: loc.contig_num, start: loc.position, last: loc.position, value: value }
}

/// Whether the entry extends the open run: same value and same contig. Run
/// boundaries are decided by value and contig alone, never by positional
/// contiguity, so a coverage gap inside a constant stretch is spanned.
pub open spec fn extends(st: RunState, loc: Location, value: u64) -> bool {
    st.value == value && st.contig == loc.contig_num
}

/// Encode the remaining entries given an open run state: each entry either
/// extends the open run or closes it (emitting one run) and opens a new one;
/// exhaustion closes the open run unconditionally.
pub open spec fn encode_from(entries: Seq<(Location, u64)>, st: RunState) -> Seq<Run>
    decreases entries.len(),
{
    if entries.len() == 0 {
        seq![run_of(st)]
    } else {
        let (loc, v) = entries[0];
        if extends(st, loc, v) {
            encode_from(
                entries.skip(1),
                RunState { contig: st.contig, start: st.start, last: loc.position, value: st.value },
            )
        } else {
            seq![run_of(st)] + encode_from(entries.skip(1), open_state(loc, v))
        }
    }
}

/// The whole track for a series of (location, value) entries in genomic
/// order: empty input gives an empty track, otherwise the first entry opens
/// the first run.
pub open spec fn spec_encode(entries: Seq<(Location, u64)>) -> Seq<Run> {
    if entries.len() == 0 {
        seq![]
    } else {
        encode_from(entries.skip(1), open_state(entries[0].0, entries[0].1))
    }
}

/// Executable encoding pass; emits exactly the runs of `spec_encode`.
pub fn encode_runs(entries: &Vec<(Location, u64)>) -> (runs: Vec<Run>)
    ensures
        runs@ == spec_encode(entries@),
{
    let mut runs: Vec<Run> = Vec::new();
    let n = entries.len();
    if n == 0 {
        proof {
            assert(runs@ =~= spec_encode(entries@));
        }
        return runs;
    }
    let (loc0, v0) = entries[0];
    let mut st = RunState {
        contig: loc0.contig_num,
        start: loc0.position,
        last: loc0.position,
        value: v0,
    };
    let mut i: usize = 1;
    proof {
        assert(runs@ + encode_from(entries@.skip(1), st) =~= encode_from(entries@.skip(1), st));
    }
    while i < n
        invariant
            1 <= i <= n,
            n == entries@.len(),
            spec_encode(entries@) == runs@ + encode_from(entries@.skip(i as int), st),
        decreases n - i,
    {
        let (loc, v) = entries[i];
        let ghost runs0 = runs@;
        let ghost st0 = st;
        proof {
            assert(entries@.skip(i as int)[0] == entries@[i as int]);
            assert(entries@.skip(i as int).skip(1) =~= entries@.skip(i as int + 1));
        }
        if st.value == v && st.contig == loc.contig_num {
            st.last = loc.position;
        } else {
            runs.push(
                Run { contig: st.contig, start: st.start, end: st.last as u64 + 1, value: st.value },
            );
            st = RunState {
                contig: loc.contig_num,
                start: loc.position,
                last: loc.position,
                value: v,
            };
            proof {
                assert(runs@ =~= runs0.push(run_of(st0)));
                assert(runs0 + (seq![run_of(st0)] + encode_from(
                    entries@.skip(i as int + 1),
                    st,
                )) =~= runs@ + encode_from(entries@.skip(i as int + 1), st));
            }
        }
        i = i + 1;
    }
    let ghost runs0 = runs@;
    runs.push(Run { contig: st.contig, start: st.start, end: st.last as u64 + 1, value: st.value });
    proof {
        assert(entries@.skip(n as int) =~= Seq::<(Location, u64)>::empty());
        assert(runs@ =~= runs0 + seq![run_of(st)]);
    }
    runs
}

/// Project the aggregate entries onto the average-mapping-quality series.
pub fn mapq_series(entries: &Vec<(Location, u64, u64)>) -> (vals: Vec<(Location, u64)>)
    requires
        forall|i: int|
            0 <= i < entries@.len() ==> 1 <= (#[trigger] entries@[i]).2 <= BASE_CAP
                && entries@[i].1 <= 255 * entries@[i].2,
    ensures
        vals@.len() == entries@.len(),
        forall|i: int|
            0 <= i < vals@.len() ==> (#[trigger] vals@[i]).0 == entries@[i].0 && vals@[i].1 as nat
                == avg_round(entries@[i].1 as nat, entries@[i].2 as nat),
{
    let mut vals: Vec<(Location, u64)> = Vec::new();
    let n = entries.len();
    let mut i: usize = 0;
    while i < n
        invariant
            i <= n,
            n == entries@.len(),
            forall|k: int|
                0 <= k < entries@.len() ==> 1 <= (#[trigger] entries@[k]).2 <= BASE_CAP
                    && entries@[k].1 <= 255 * entries@[k].2,
            vals@.len() == i,
            forall|k: int|
                0 <= k < i ==> (#[trigger] vals@[k]).0 == entries@[k].0 && vals@[k].1 as nat
                    == avg_round(entries@[k].1 as nat, entries@[k].2 as nat),
        decreases n - i,
    {
        let (loc, s, c) = entries[i];
        let a = avg_mapq(s, c);
        vals.push((loc, a));
        i = i + 1;
    }
    vals
}

/// Project the aggregate entries onto the depth series.
pub fn depth_series(entries: &Vec<(Location, u64, u64)>) -> (vals: Vec<(Location, u64)>)
    ensures
        vals@.len() == entries@.len(),
        forall|i: int|
            0 <= i < vals@.len() ==> (#[trigger] vals@[i]).0 == entries@[i].0 && vals@[i].1
                == entries@[i].2,
{
    let mut vals: Vec<(Location, u64)> = Vec::new();
    let n = entries.len();
    let mut i: usize = 0;
    while i < n
        invariant
            i <= n,
            n == entries@.len(),
            vals@.len() == i,
            forall|k: int|
                0 <= k < i ==> (#[trigger] vals@[k]).0 == entries@[k].0 && vals@[k].1
                    == entries@[k].2,
        decreases n - i,
    {
        let (loc, _s, c) = entries[i];
        vals.push((loc, c));
        i = i + 1;
    }
    vals
}

} // verus!
