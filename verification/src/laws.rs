use vstd::prelude::*;
use crate::encode::{encode_from, extends, open_state, run_of, spec_encode, Run, RunState};
use crate::location::{loc_lt, Location};
use crate::record::{
    depth, is_mapped, mapq_mass, ops_cover, ops_ref_len, read_cover, read_ref_len, ReadRec,
};
use crate::aggregate::total_ref_len;

verus! {

// ---------------------------------------------------------------------------
// Coverage counts reads.
// ---------------------------------------------------------------------------
/// A read covers a location when it lays at least one base on it.
pub open spec fn covers(r: &ReadRec, loc: Location) -> bool {
    read_cover(r, loc) > 0
}

/// How many of the reads cover `loc`.
pub open spec fn covering_reads(recs: Seq<ReadRec>, loc: Location) -> nat
    decreases recs.len(),
{
    if recs.len() == 0 {
        0
    } else {
        covering_reads(recs.drop_last(), loc) + (if covers(&recs.last(), loc) {
            1nat
        } else {
            0nat
        })
    }
}

/// The mapping qualities of the covering reads, summed.
pub open spec fn covering_mapq_sum(recs: Seq<ReadRec>, loc: Location) -> nat
    decreases recs.len(),
{
    if recs.len() == 0 {
        0
    } else {
        covering_mapq_sum(recs.drop_last(), loc) + (if covers(&recs.last(), loc) {
            recs.last().mapq as nat
        } else {
            0nat
        })
    }
}

/// The cursor only moves forward: positions behind it are never covered.
proof fn lemma_ops_cover_before(ops: Seq<(u32, bool)>, cursor: int, p: int)
    requires
        p < cursor,
    ensures
        ops_cover(ops, cursor, p) == 0,
    decreases ops.len(),
{
    if ops.len() > 0 {
        if ops[0].1 {
            lemma_ops_cover_before(ops.skip(1), cursor + ops[0].0 as int, p);
        } else {
            lemma_ops_cover_before(ops.skip(1), cursor, p);
        }
    }
}

/// One read lays at most one base on any location: within one operation the
/// positions are distinct, and later operations start past the cursor.
pub proof fn lemma_read_cover_at_most_one(ops: Seq<(u32, bool)>, cursor: int, p: int)
    ensures
        ops_cover(ops, cursor, p) <= 1,
    decreases ops.len(),
{
    if ops.len() > 0 {
        if ops[0].1 {
            if cursor <= p < cursor + ops[0].0 as int {
                lemma_ops_cover_before(ops.skip(1), cursor + ops[0].0 as int, p);
            } else {
                lemma_read_cover_at_most_one(ops.skip(1), cursor + ops[0].0 as int, p);
            }
        } else {
            lemma_read_cover_at_most_one(ops.skip(1), cursor, p);
        }
    }
}

/// Law: the depth at a location is the number of reads whose
/// reference-consuming span includes it, and the quality mass there is the
/// sum of exactly those reads' mapping qualities. Together with the
/// aggregation contract: a table count is a read count, and the average
/// written for a location is round(sum of covering reads' mapq / depth).
pub proof fn lemma_point_statistics(recs: Seq<ReadRec>, loc: Location)
    ensures
        depth(recs, loc) == covering_reads(recs, loc),
        mapq_mass(recs, loc) == covering_mapq_sum(recs, loc),
    decreases recs.len(),
{
    if recs.len() > 0 {
        lemma_point_statistics(recs.drop_last(), loc);
        let r = recs.last();
        lemma_read_cover_at_most_one(r.cigar@, r.start as int, loc.position as int);
        assert(read_cover(&r, loc) <= 1);
        if covers(&r, loc) {
            assert(read_cover(&r, loc) == 1);
            assert(read_cover(&r, loc) * (r.mapq as nat) == r.mapq as nat);
        } else {
            assert(read_cover(&r, loc) == 0);
        }
    }
}

// ---------------------------------------------------------------------------
// Unmapped reads contribute nothing.
// ---------------------------------------------------------------------------
/// Law: appending an unmapped read changes no location's depth or quality
/// mass, and adds no bases.
pub proof fn lemma_unmapped_contributes_nothing(recs: Seq<ReadRec>, r: ReadRec, loc: Location)
    requires
        !is_mapped(&r),
    ensures
        depth(recs.push(r), loc) == depth(recs, loc),
        mapq_mass(recs.push(r), loc) == mapq_mass(recs, loc),
        total_ref_len(recs.push(r)) == total_ref_len(recs),
{
    assert(recs.push(r).drop_last() =~= recs);
    assert(recs.push(r).last() == r);
    assert(read_cover(&r, loc) == 0);
    assert(read_ref_len(&r) == 0);
}

// ---------------------------------------------------------------------------
// Operations that do not consume reference have no effect.
// ---------------------------------------------------------------------------
/// Law: inserting a non-reference-consuming operation (an insertion)
/// anywhere in a read's operation list neither moves the cursor nor covers
/// any position.
pub proof fn lemma_insertion_op_no_effect(
    ops1: Seq<(u32, bool)>,
    op: (u32, bool),
    ops2: Seq<(u32, bool)>,
    cursor: int,
    p: int,
)
    requires
        !op.1,
    ensures
        ops_cover(ops1 + seq![op] + ops2, cursor, p) == ops_cover(ops1 + ops2, cursor, p),
        ops_ref_len(ops1 + seq![op] + ops2) == ops_ref_len(ops1 + ops2),
    decreases ops1.len(),
{
    if ops1.len() == 0 {
        assert((ops1 + seq![op] + ops2)[0] == op);
        assert((ops1 + seq![op] + ops2).skip(1) =~= ops2);
        assert(ops1 + ops2 =~= ops2);
    } else {
        let whole = ops1 + seq![op] + ops2;
        let short = ops1 + ops2;
        assert(whole[0] == ops1[0]);
        assert(short[0] == ops1[0]);
        assert(whole.skip(1) =~= ops1.skip(1) + seq![op] + ops2);
        assert(short.skip(1) =~= ops1.skip(1) + ops2);
        if ops1[0].1 {
            lemma_insertion_op_no_effect(ops1.skip(1), op, ops2, cursor + ops1[0].0 as int, p);
        } else {
            lemma_insertion_op_no_effect(ops1.skip(1), op, ops2, cursor, p);
        }
    }
}

// ---------------------------------------------------------------------------
// Determinism.
// ---------------------------------------------------------------------------
/// Law: a strictly sorted, complete entry list of a table is unique: any two
/// lists that are strictly sorted in genomic order, whose entries carry the
/// table's sums and counts, and which carry every key of the table, are the
/// same list. The encoding passes are functions of that list, so one input
/// always yields one output.
pub proof fn lemma_sorted_entries_unique(
    r1: Seq<(Location, u64, u64)>,
    r2: Seq<(Location, u64, u64)>,
    m: Map<Location, (nat, nat)>,
)
    requires
        forall|i: int, j: int| 0 <= i < j < r1.len() ==> loc_lt(r1[i].0, r1[j].0),
        forall|i: int, j: int| 0 <= i < j < r2.len() ==> loc_lt(r2[i].0, r2[j].0),
        forall|i: int|
            0 <= i < r1.len() ==> m.contains_key((#[trigger] r1[i]).0) && r1[i].1 as nat
                == m[r1[i].0].0 && r1[i].2 as nat == m[r1[i].0].1,
        forall|i: int|
            0 <= i < r2.len() ==> m.contains_key((#[trigger] r2[i]).0) && r2[i].1 as nat
                == m[r2[i].0].0 && r2[i].2 as nat == m[r2[i].0].1,
        forall|loc: Location| #[trigger]
            m.contains_key(loc) ==> exists|i: int| 0 <= i < r1.len() && r1[i].0 == loc,
        forall|loc: Location| #[trigger]
            m.contains_key(loc) ==> exists|i: int| 0 <= i < r2.len() && r2[i].0 == loc,
    ensures
        r1 =~= r2,
    decreases r1.len(),
{
    if r1.len() == 0 {
        if r2.len() > 0 {
            assert(m.contains_key(r2[0].0));
            assert(exists|i: int| 0 <= i < r1.len() && r1[i].0 == r2[0].0);
            assert(false);
        }
        assert(r1 =~= r2);
    } else if r2.len() == 0 {
        assert(m.contains_key(r1[0].0));
        assert(exists|i: int| 0 <= i < r2.len() && r2[i].0 == r1[0].0);
        assert(false);
    } else {
        let a = r1[0].0;
        let b = r2[0].0;
        assert(m.contains_key(a));
        assert(m.contains_key(b));
        let ia = choose|i: int| 0 <= i < r2.len() && r2[i].0 == a;
        let ib = choose|i: int| 0 <= i < r1.len() && r1[i].0 == b;
        if a != b {
            if loc_lt(a, b) {
                assert(ia > 0 ==> loc_lt(b, a));
                assert(false);
            } else {
                assert(loc_lt(b, a));
                assert(ib > 0 ==> loc_lt(a, b));
                assert(false);
            }
        }
        assert(r1[0] == r2[0]);
        let t1 = r1.skip(1);
        let t2 = r2.skip(1);
        let m2 = m.remove(a);
        assert forall|i: int|
            0 <= i < t1.len() implies m2.contains_key((#[trigger] t1[i]).0) && t1[i].1 as nat
            == m2[t1[i].0].0 && t1[i].2 as nat == m2[t1[i].0].1 by {
            assert(t1[i] == r1[i + 1]);
            assert(loc_lt(r1[0].0, r1[i + 1].0));
        }
        assert forall|i: int|
            0 <= i < t2.len() implies m2.contains_key((#[trigger] t2[i]).0) && t2[i].1 as nat
            == m2[t2[i].0].0 && t2[i].2 as nat == m2[t2[i].0].1 by {
            assert(t2[i] == r2[i + 1]);
            assert(loc_lt(r2[0].0, r2[i + 1].0));
        }
        assert forall|loc: Location| #[trigger]
            m2.contains_key(loc) implies exists|i: int| 0 <= i < t1.len() && t1[i].0 == loc by {
            let i = choose|i: int| 0 <= i < r1.len() && r1[i].0 == loc;
            assert(i != 0);
            assert(t1[i - 1].0 == loc);
        }
        assert forall|loc: Location| #[trigger]
            m2.contains_key(loc) implies exists|i: int| 0 <= i < t2.len() && t2[i].0 == loc by {
            let i = choose|i: int| 0 <= i < r2.len() && r2[i].0 == loc;
            assert(i != 0);
            assert(t2[i - 1].0 == loc);
        }
        assert forall|i: int, j: int| 0 <= i < j < t1.len() implies loc_lt(t1[i].0, t1[j].0) by {
            assert(t1[i] == r1[i + 1] && t1[j] == r1[j + 1]);
        }
        assert forall|i: int, j: int| 0 <= i < j < t2.len() implies loc_lt(t2[i].0, t2[j].0) by {
            assert(t2[i] == r2[i + 1] && t2[j] == r2[j + 1]);
        }
        lemma_sorted_entries_unique(t1, t2, m2);
        assert(r1.len() == r2.len());
        assert forall|i: int| 0 <= i < r1.len() implies r1[i] == r2[i] by {
            if i > 0 {
                assert(t1[i - 1] == r1[i] && t2[i - 1] == r2[i]);
                assert(t1[i - 1] == t2[i - 1]);
            }
        }
        assert(r1 =~= r2);
    }
}

// ---------------------------------------------------------------------------
// A track conserves mass.
// ---------------------------------------------------------------------------
/// The mass of a track over contig `c`: run length times run value, summed.
pub open spec fn run_mass(runs: Seq<Run>, c: u32) -> int
    decreases runs.len(),
{
    if runs.len() == 0 {
        0
    } else {
        (if runs[0].contig == c {
            (runs[0].end - runs[0].start) * runs[0].value
        } else {
            0
        }) + run_mass(runs.skip(1), c)
    }
}

/// The mass of an entry series over contig `c`: its values there, summed.
/// For the depth series this is the number of (read, reference-consuming
/// base) pairs laid on the covered positions of `c`.
pub open spec fn entries_mass(entries: Seq<(Location, u64)>, c: u32) -> int
    decreases entries.len(),
{
    if entries.len() == 0 {
        0
    } else {
        (if entries[0].0.contig_num == c {
            entries[0].1 as int
        } else {
            0
        }) + entries_mass(entries.skip(1), c)
    }
}

/// The covered positions of each contig are contiguous: consecutive entries
/// on one contig sit on consecutive positions. Runs then span no coverage
/// gap, so a run's length counts exactly its entries.
pub open spec fn contiguous(entries: Seq<(Location, u64)>) -> bool {
    forall|i: int|
        0 <= i && i + 1 < entries.len() && (#[trigger] entries[i + 1]).0.contig_num
            == entries[i].0.contig_num ==> entries[i + 1].0.position == entries[i].0.position + 1
}

proof fn lemma_encode_from_mass(es: Seq<(Location, u64)>, st: RunState, c: u32)
    requires
        st.start <= st.last,
        contiguous(es),
        es.len() > 0 && es[0].0.contig_num == st.contig ==> es[0].0.position == st.last + 1,
    ensures
        run_mass(encode_from(es, st), c) == (if st.contig == c {
            (st.last + 1 - st.start) * st.value
        } else {
            0
        }) + entries_mass(es, c),
    decreases es.len(),
{
    reveal_with_fuel(run_mass, 2);
    reveal_with_fuel(entries_mass, 2);
    if es.len() == 0 {
        let r = run_of(st);
        assert(encode_from(es, st) == seq![r]);
        assert(seq![r].skip(1) =~= Seq::<Run>::empty());
        assert(r.end - r.start == st.last + 1 - st.start);
    } else {
        let (loc, v) = es[0];
        assert forall|i: int|
            0 <= i && i + 1 < es.skip(1).len() && (#[trigger] es.skip(1)[i + 1]).0.contig_num
                == es.skip(1)[i].0.contig_num implies es.skip(1)[i + 1].0.position == es.skip(
            1,
        )[i].0.position + 1 by {
            assert(es.skip(1)[i] == es[i + 1] && es.skip(1)[i + 1] == es[i + 2]);
        }
        if extends(st, loc, v) {
            let st2 = RunState {
                contig: st.contig,
                start: st.start,
                last: loc.position,
                value: st.value,
            };
            assert(loc.position == st.last + 1);
            assert(es.skip(1).len() > 0 && es.skip(1)[0].0.contig_num == st2.contig
                ==> es.skip(1)[0].0.position == st2.last + 1) by {
                if es.skip(1).len() > 0 {
                    assert(es.skip(1)[0] == es[1]);
                }
            }
            lemma_encode_from_mass(es.skip(1), st2, c);
            if st.contig == c {
                assert((st.last + 2 - st.start) * st.value == (st.last + 1 - st.start) * st.value
                    + st.value) by (nonlinear_arith);
            }
        } else {
            let st2 = open_state(loc, v);
            assert(es.skip(1).len() > 0 && es.skip(1)[0].0.contig_num == st2.contig
                ==> es.skip(1)[0].0.position == st2.last + 1) by {
                if es.skip(1).len() > 0 {
                    assert(es.skip(1)[0] == es[1]);
                }
            }
            lemma_encode_from_mass(es.skip(1), st2, c);
            let tail = encode_from(es.skip(1), st2);
            assert((seq![run_of(st)] + tail)[0] == run_of(st));
            assert((seq![run_of(st)] + tail).skip(1) =~= tail);
            assert(run_of(st).end - run_of(st).start == st.last + 1 - st.start);
            if loc.contig_num == c {
                assert((st2.last + 1 - st2.start) * st2.value == v) by (nonlinear_arith)
                    requires
                        st2.last == st2.start,
                        st2.value == v,
                ;
            }
        }
    }
}

/// Law: over every contig, the mass of an encoded track -- run length times
/// run value, summed -- equals the summed values of its entries, provided
/// each contig's covered positions are contiguous. Applied to the depth
/// series, whose value at a location is the number of reads covering it,
/// the depth track's mass over a contig is the total count of (read,
/// reference-consuming base) pairs on that contig's covered positions.
pub proof fn lemma_track_mass(entries: Seq<(Location, u64)>, c: u32)
    requires
        contiguous(entries),
    ensures
        run_mass(spec_encode(entries), c) == entries_mass(entries, c),
{
    if entries.len() == 0 {
    } else {
        let (loc, v) = entries[0];
        let st = open_state(loc, v);
        assert forall|i: int|
            0 <= i && i + 1 < entries.skip(1).len() && (#[trigger] entries.skip(1)[i
                + 1]).0.contig_num == entries.skip(1)[i].0.contig_num implies entries.skip(1)[i
            + 1].0.position == entries.skip(1)[i].0.position + 1 by {
            assert(entries.skip(1)[i] == entries[i + 1] && entries.skip(1)[i + 1] == entries[i
                + 2]);
        }
        assert(entries.skip(1).len() > 0 && entries.skip(1)[0].0.contig_num == st.contig
            ==> entries.skip(1)[0].0.position == st.last + 1) by {
            if entries.skip(1).len() > 0 {
                assert(entries.skip(1)[0] == entries[1]);
            }
        }
        lemma_encode_from_mass(entries.skip(1), st, c);
        if loc.contig_num == c {
            assert((st.last + 1 - st.start) * st.value == v) by (nonlinear_arith)
                requires
                    st.last == st.start,
                    st.value == v,
            ;
        }
    }
}

// ---------------------------------------------------------------------------
// Summed depth counts laid bases.
// ---------------------------------------------------------------------------
/// No two entries share a location.
pub open spec fn distinct_locs(es: Seq<(Location, u64)>) -> bool {
    forall|i: int, j: int| 0 <= i < j < es.len() ==> (#[trigger] es[i]).0 != (#[trigger] es[j]).0
}

/// Some entry sits at position `p` of contig `c`.
pub open spec fn has_loc(es: Seq<(Location, u64)>, c: u32, p: int) -> bool {
    exists|i: int|
        0 <= i < es.len() && (#[trigger] es[i]).0 == (Location {
            contig_num: c,
            position: p as u32,
        })
}

/// Total reference-consuming bases the reads lay on contig `c`.
pub open spec fn bases_on_contig(recs: Seq<ReadRec>, c: u32) -> int
    decreases recs.len(),
{
    if recs.len() == 0 {
        0
    } else {
        bases_on_contig(recs.drop_last(), c) + (if is_mapped(&recs.last()) && recs.last().ref_id
            == c {
            ops_ref_len(recs.last().cigar@) as int
        } else {
            0
        })
    }
}

/// Summed depth over the entries that lie on contig `c`.
pub open spec fn depth_mass(recs: Seq<ReadRec>, es: Seq<(Location, u64)>, c: u32) -> int
    decreases es.len(),
{
    if es.len() == 0 {
        0
    } else {
        (if es[0].0.contig_num == c {
            depth(recs, es[0].0) as int
        } else {
            0
        }) + depth_mass(recs, es.skip(1), c)
    }
}

/// Summed cover of one read over the entries that lie on contig `c`.
pub open spec fn rc_mass(r: ReadRec, es: Seq<(Location, u64)>, c: u32) -> int
    decreases es.len(),
{
    if es.len() == 0 {
        0
    } else {
        (if es[0].0.contig_num == c {
            read_cover(&r, es[0].0) as int
        } else {
            0
        }) + rc_mass(r, es.skip(1), c)
    }
}

/// Summed cover of an operation walk over the entries on contig `c`.
pub open spec fn oc_mass(ops: Seq<(u32, bool)>, cursor: int, es: Seq<(Location, u64)>, c: u32) -> int
    decreases es.len(),
{
    if es.len() == 0 {
        0
    } else {
        (if es[0].0.contig_num == c {
            ops_cover(ops, cursor, es[0].0.position as int) as int
        } else {
            0
        }) + oc_mass(ops, cursor, es.skip(1), c)
    }
}

/// How many entries lie on contig `c` at a position in `[a, b)`.
pub open spec fn ind_mass(es: Seq<(Location, u64)>, c: u32, a: int, b: int) -> int
    decreases es.len(),
{
    if es.len() == 0 {
        0
    } else {
        (if es[0].0.contig_num == c && a <= es[0].0.position < b {
            1int
        } else {
            0
        }) + ind_mass(es.skip(1), c, a, b)
    }
}

/// How many entries sit exactly at `loc`.
pub open spec fn count_loc(es: Seq<(Location, u64)>, loc: Location) -> int
    decreases es.len(),
{
    if es.len() == 0 {
        0
    } else {
        (if es[0].0 == loc {
            1int
        } else {
            0
        }) + count_loc(es.skip(1), loc)
    }
}

proof fn lemma_distinct_skip(es: Seq<(Location, u64)>)
    requires
        distinct_locs(es),
        es.len() > 0,
    ensures
        distinct_locs(es.skip(1)),
        forall|j: int| 0 <= j < es.skip(1).len() ==> (#[trigger] es.skip(1)[j]).0 != es[0].0,
{
    assert forall|i: int, j: int|
        0 <= i < j < es.skip(1).len() implies (#[trigger] es.skip(1)[i]).0 != (#[trigger] es.skip(
        1,
    )[j]).0 by {
        assert(es.skip(1)[i] == es[i + 1] && es.skip(1)[j] == es[j + 1]);
    }
    assert forall|j: int|
        0 <= j < es.skip(1).len() implies (#[trigger] es.skip(1)[j]).0 != es[0].0 by {
        assert(es.skip(1)[j] == es[j + 1]);
    }
}

proof fn lemma_count_zero(es: Seq<(Location, u64)>, loc: Location)
    requires
        forall|i: int| 0 <= i < es.len() ==> (#[trigger] es[i]).0 != loc,
    ensures
        count_loc(es, loc) == 0,
    decreases es.len(),
{
    if es.len() > 0 {
        assert forall|i: int|
            0 <= i < es.skip(1).len() implies (#[trigger] es.skip(1)[i]).0 != loc by {
            assert(es.skip(1)[i] == es[i + 1]);
        }
        lemma_count_zero(es.skip(1), loc);
    }
}

proof fn lemma_count_one(es: Seq<(Location, u64)>, loc: Location)
    requires
        distinct_locs(es),
        exists|i: int| 0 <= i < es.len() && (#[trigger] es[i]).0 == loc,
    ensures
        count_loc(es, loc) == 1,
    decreases es.len(),
{
    lemma_distinct_skip(es);
    if es[0].0 == loc {
        lemma_count_zero(es.skip(1), loc);
    } else {
        let i = choose|i: int| 0 <= i < es.len() && (#[trigger] es[i]).0 == loc;
        assert(es.skip(1)[i - 1] == es[i]);
        lemma_count_one(es.skip(1), loc);
    }
}

proof fn lemma_ind_mass_trivial(es: Seq<(Location, u64)>, c: u32, a: int, b: int)
    requires
        b <= a,
    ensures
        ind_mass(es, c, a, b) == 0,
    decreases es.len(),
{
    if es.len() > 0 {
        lemma_ind_mass_trivial(es.skip(1), c, a, b);
    }
}

proof fn lemma_ind_mass_peel(es: Seq<(Location, u64)>, c: u32, a: int, b: int)
    requires
        0 <= a < b <= 0x1_0000_0000,
    ensures
        ind_mass(es, c, a, b) == ind_mass(es, c, a, b - 1) + count_loc(
            es,
            Location { contig_num: c, position: (b - 1) as u32 },
        ),
    decreases es.len(),
{
    if es.len() > 0 {
        lemma_ind_mass_peel(es.skip(1), c, a, b);
    }
}

proof fn lemma_ind_mass_full(es: Seq<(Location, u64)>, c: u32, a: int, b: int)
    requires
        0 <= a <= b <= 0x1_0000_0000,
        distinct_locs(es),
        forall|p: int| a <= p < b ==> #[trigger] has_loc(es, c, p),
    ensures
        ind_mass(es, c, a, b) == b - a,
    decreases b - a,
{
    if b <= a {
        lemma_ind_mass_trivial(es, c, a, b);
    } else {
        lemma_ind_mass_peel(es, c, a, b);
        assert(has_loc(es, c, b - 1));
        lemma_count_one(es, Location { contig_num: c, position: (b - 1) as u32 });
        lemma_ind_mass_full(es, c, a, b - 1);
    }
}

proof fn lemma_oc_mass_empty(es: Seq<(Location, u64)>, cursor: int, c: u32)
    ensures
        oc_mass(Seq::<(u32, bool)>::empty(), cursor, es, c) == 0,
    decreases es.len(),
{
    if es.len() > 0 {
        lemma_oc_mass_empty(es.skip(1), cursor, c);
    }
}

proof fn lemma_oc_mass_step(ops: Seq<(u32, bool)>, cursor: int, es: Seq<(Location, u64)>, c: u32)
    requires
        ops.len() > 0,
    ensures
        oc_mass(ops, cursor, es, c) == (if ops[0].1 {
            ind_mass(es, c, cursor, cursor + ops[0].0)
        } else {
            0
        }) + oc_mass(ops.skip(1), cursor + (if ops[0].1 {
            ops[0].0 as int
        } else {
            0
        }), es, c),
    decreases es.len(),
{
    if es.len() > 0 {
        lemma_oc_mass_step(ops, cursor, es.skip(1), c);
    }
}

proof fn lemma_ops_cover_beyond(ops: Seq<(u32, bool)>, cursor: int, p: int)
    requires
        p >= cursor + ops_ref_len(ops),
    ensures
        ops_cover(ops, cursor, p) == 0,
    decreases ops.len(),
{
    if ops.len() > 0 {
        if ops[0].1 {
            lemma_ops_cover_beyond(ops.skip(1), cursor + ops[0].0 as int, p);
        } else {
            lemma_ops_cover_beyond(ops.skip(1), cursor, p);
        }
    }
}

proof fn lemma_oc_mass_full(ops: Seq<(u32, bool)>, cursor: int, es: Seq<(Location, u64)>, c: u32)
    requires
        0 <= cursor,
        cursor + ops_ref_len(ops) <= 0x1_0000_0000,
        distinct_locs(es),
        forall|p: int| ops_cover(ops, cursor, p) > 0 ==> #[trigger] has_loc(es, c, p),
    ensures
        oc_mass(ops, cursor, es, c) == ops_ref_len(ops),
    decreases ops.len(),
{
    if ops.len() == 0 {
        assert(ops =~= Seq::<(u32, bool)>::empty());
        lemma_oc_mass_empty(es, cursor, c);
    } else {
        lemma_oc_mass_step(ops, cursor, es, c);
        let len0 = ops[0].0 as int;
        if ops[0].1 {
            assert forall|p: int| cursor <= p < cursor + len0 implies #[trigger] has_loc(
                es,
                c,
                p,
            ) by {
                assert(ops_cover(ops, cursor, p) > 0);
            }
            lemma_ind_mass_full(es, c, cursor, cursor + len0);
            assert forall|p: int|
                ops_cover(ops.skip(1), cursor + len0, p) > 0 implies #[trigger] has_loc(
                es,
                c,
                p,
            ) by {
                assert(ops_cover(ops, cursor, p) > 0);
            }
            lemma_oc_mass_full(ops.skip(1), cursor + len0, es, c);
        } else {
            assert forall|p: int|
                ops_cover(ops.skip(1), cursor, p) > 0 implies #[trigger] has_loc(es, c, p) by {
                assert(ops_cover(ops, cursor, p) > 0);
            }
            lemma_oc_mass_full(ops.skip(1), cursor, es, c);
        }
    }
}

proof fn lemma_rc_mass_as_oc(r: ReadRec, es: Seq<(Location, u64)>, c: u32)
    ensures
        rc_mass(r, es, c) == (if is_mapped(&r) && r.ref_id == c {
            oc_mass(r.cigar@, r.start as int, es, c)
        } else {
            0
        }),
    decreases es.len(),
{
    if es.len() > 0 {
        lemma_rc_mass_as_oc(r, es.skip(1), c);
        if !(is_mapped(&r) && r.ref_id == c) && es[0].0.contig_num == c {
            assert(read_cover(&r, es[0].0) == 0);
        }
    }
}

proof fn lemma_rc_mass_full(r: ReadRec, es: Seq<(Location, u64)>, c: u32)
    requires
        crate::record::read_fits(&r),
        distinct_locs(es),
        forall|loc: Location| read_cover(&r, loc) > 0 ==> exists|i: int|
            0 <= i < es.len() && (#[trigger] es[i]).0 == loc,
    ensures
        rc_mass(r, es, c) == (if is_mapped(&r) && r.ref_id == c {
            ops_ref_len(r.cigar@) as int
        } else {
            0
        }),
{
    lemma_rc_mass_as_oc(r, es, c);
    if is_mapped(&r) && r.ref_id == c {
        assert forall|p: int|
            ops_cover(r.cigar@, r.start as int, p) > 0 implies #[trigger] has_loc(es, c, p) by {
            if p < r.start as int {
                lemma_ops_cover_before(r.cigar@, r.start as int, p);
            } else if p >= r.start as int + ops_ref_len(r.cigar@) {
                lemma_ops_cover_beyond(r.cigar@, r.start as int, p);
            } else {
                let loc = Location { contig_num: c, position: p as u32 };
                assert(loc.position as int == p);
                assert(read_cover(&r, loc) > 0);
            }
        }
        lemma_oc_mass_full(r.cigar@, r.start as int, es, c);
    }
}

proof fn lemma_depth_mass_empty(es: Seq<(Location, u64)>, c: u32)
    ensures
        depth_mass(Seq::<ReadRec>::empty(), es, c) == 0,
    decreases es.len(),
{
    if es.len() > 0 {
        lemma_depth_mass_empty(es.skip(1), c);
    }
}

proof fn lemma_depth_mass_step(recs: Seq<ReadRec>, es: Seq<(Location, u64)>, c: u32)
    requires
        recs.len() > 0,
    ensures
        depth_mass(recs, es, c) == depth_mass(recs.drop_last(), es, c) + rc_mass(
            recs.last(),
            es,
            c,
        ),
    decreases es.len(),
{
    if es.len() > 0 {
        lemma_depth_mass_step(recs, es.skip(1), c);
    }
}

/// Law: the summed depth over the covered locations of contig `c` is the
/// total number of (read, reference-consuming base) pairs the reads lay on
/// that contig, provided the entry list carries each covered location
/// exactly once.
pub proof fn lemma_depth_sum_counts_bases(recs: Seq<ReadRec>, es: Seq<(Location, u64)>, c: u32)
    requires
        crate::aggregate::reads_fit(recs),
        distinct_locs(es),
        forall|loc: Location| depth(recs, loc) > 0 ==> exists|i: int|
            0 <= i < es.len() && (#[trigger] es[i]).0 == loc,
    ensures
        depth_mass(recs, es, c) == bases_on_contig(recs, c),
    decreases recs.len(),
{
    if recs.len() == 0 {
        assert(recs =~= Seq::<ReadRec>::empty());
        lemma_depth_mass_empty(es, c);
    } else {
        lemma_depth_mass_step(recs, es, c);
        let r = recs.last();
        assert(crate::record::read_fits(&r));
        assert forall|loc: Location| read_cover(&r, loc) > 0 implies exists|i: int|
            0 <= i < es.len() && (#[trigger] es[i]).0 == loc by {
            assert(depth(recs, loc) > 0);
        }
        lemma_rc_mass_full(r, es, c);
        let prev = recs.drop_last();
        assert(crate::aggregate::reads_fit(prev)) by {
            assert forall|i: int|
                0 <= i < prev.len() implies crate::record::read_fits(#[trigger] &prev[i]) by {
                assert(prev[i] == recs[i]);
            }
        }
        assert forall|loc: Location| depth(prev, loc) > 0 implies exists|i: int|
            0 <= i < es.len() && (#[trigger] es[i]).0 == loc by {
            assert(depth(recs, loc) > 0);
        }
        lemma_depth_sum_counts_bases(prev, es, c);
    }
}

proof fn lemma_entries_mass_is_depth_mass(
    recs: Seq<ReadRec>,
    es: Seq<(Location, u64)>,
    c: u32,
)
    requires
        forall|i: int| 0 <= i < es.len() ==> (#[trigger] es[i]).1 as int == depth(recs, es[i].0),
    ensures
        entries_mass(es, c) == depth_mass(recs, es, c),
    decreases es.len(),
{
    if es.len() > 0 {
        assert forall|i: int|
            0 <= i < es.skip(1).len() implies (#[trigger] es.skip(1)[i]).1 as int == depth(
            recs,
            es.skip(1)[i].0,
        ) by {
            assert(es.skip(1)[i] == es[i + 1]);
        }
        lemma_entries_mass_is_depth_mass(recs, es.skip(1), c);
    }
}

/// Law: over every contig, the depth track's mass -- run length times run
/// depth, summed -- equals the total count of (read, reference-consuming
/// base) pairs the reads lay on that contig, provided the covered positions
/// of each contig are contiguous (a run spanning a coverage gap counts the
/// gap's positions too, so the law excludes gapped inputs) and the entry
/// list is the depth series of those reads: one entry per covered location,
/// carrying its depth.
pub proof fn lemma_depth_track_counts_bases(
    recs: Seq<ReadRec>,
    es: Seq<(Location, u64)>,
    c: u32,
)
    requires
        crate::aggregate::reads_fit(recs),
        contiguous(es),
        distinct_locs(es),
        forall|i: int| 0 <= i < es.len() ==> (#[trigger] es[i]).1 as int == depth(recs, es[i].0),
        forall|loc: Location| depth(recs, loc) > 0 ==> exists|i: int|
            0 <= i < es.len() && (#[trigger] es[i]).0 == loc,
    ensures
        run_mass(spec_encode(es), c) == bases_on_contig(recs, c),
{
    lemma_track_mass(es, c);
    lemma_entries_mass_is_depth_mass(recs, es, c);
    lemma_depth_sum_counts_bases(recs, es, c);
}

// ---------------------------------------------------------------------------
// Re-encoding an expanded track gives the track back.
// ---------------------------------------------------------------------------
/// The positions of run `r` from position `k` on, each carrying its value.
pub open spec fn tail_positions(r: Run, k: int) -> Seq<(Location, u64)> {
    Seq::new(
        (r.end - k) as nat,
        |i: int| (Location { contig_num: r.contig, position: (k + i) as u32 }, r.value),
    )
}

/// The per-position expansion of a track, in track order.
pub open spec fn expand(runs: Seq<Run>) -> Seq<(Location, u64)>
    decreases runs.len(),
{
    if runs.len() == 0 {
        Seq::empty()
    } else {
        tail_positions(runs[0], runs[0].start as int) + expand(runs.skip(1))
    }
}

/// A well-formed track: every run covers at least one position and stays
/// within the position type, and no two neighbouring runs could merge (they
/// differ in contig or in value) -- exactly what the encoder emits.
pub open spec fn wf_track(runs: Seq<Run>) -> bool {
    &&& forall|i: int|
        0 <= i < runs.len() ==> (#[trigger] runs[i]).start < runs[i].end <= 0x1_0000_0000
    &&& forall|i: int|
        0 <= i && i + 1 < runs.len() ==> ((#[trigger] runs[i + 1]).contig != runs[i].contig
            || runs[i + 1].value != runs[i].value)
}

proof fn lemma_wf_track_skip(runs: Seq<Run>)
    requires
        wf_track(runs),
        runs.len() > 0,
    ensures
        wf_track(runs.skip(1)),
{
    let t = runs.skip(1);
    assert forall|i: int|
        0 <= i < t.len() implies (#[trigger] t[i]).start < t[i].end <= 0x1_0000_0000 by {
        assert(t[i] == runs[i + 1]);
    }
    assert forall|i: int|
        0 <= i && i + 1 < t.len() implies ((#[trigger] t[i + 1]).contig != t[i].contig || t[i
            + 1].value != t[i].value) by {
        assert(t[i] == runs[i + 1] && t[i + 1] == runs[i + 2]);
    }
}

proof fn lemma_encode_from_wf(es: Seq<(Location, u64)>, st: RunState)
    requires
        st.start <= st.last,
        forall|i: int, j: int| 0 <= i < j < es.len() ==> loc_lt(es[i].0, es[j].0),
        es.len() > 0 && es[0].0.contig_num == st.contig ==> st.last < es[0].0.position,
    ensures
        wf_track(encode_from(es, st)),
        encode_from(es, st).len() > 0,
        encode_from(es, st)[0].contig == st.contig,
        encode_from(es, st)[0].value == st.value,
    decreases es.len(),
{
    if es.len() == 0 {
    } else {
        let (loc, v) = es[0];
        let tail = es.skip(1);
        assert forall|i: int, j: int|
            0 <= i < j < tail.len() implies loc_lt(tail[i].0, tail[j].0) by {
            assert(tail[i] == es[i + 1] && tail[j] == es[j + 1]);
        }
        assert(tail.len() > 0 ==> loc_lt(es[0].0, tail[0].0)) by {
            if tail.len() > 0 {
                assert(tail[0] == es[1]);
            }
        }
        if extends(st, loc, v) {
            let st2 = RunState {
                contig: st.contig,
                start: st.start,
                last: loc.position,
                value: st.value,
            };
            lemma_encode_from_wf(tail, st2);
        } else {
            let st2 = open_state(loc, v);
            lemma_encode_from_wf(tail, st2);
            let rest = encode_from(tail, st2);
            let whole = seq![run_of(st)] + rest;
            assert(whole[0] == run_of(st));
            assert(whole.skip(1) =~= rest);
            assert forall|i: int|
                0 <= i < whole.len() implies (#[trigger] whole[i]).start < whole[i].end
                    <= 0x1_0000_0000 by {
                if i > 0 {
                    assert(whole[i] == rest[i - 1]);
                }
            }
            assert forall|i: int|
                0 <= i && i + 1 < whole.len() implies ((#[trigger] whole[i + 1]).contig
                    != whole[i].contig || whole[i + 1].value != whole[i].value) by {
                if i == 0 {
                    assert(whole[1] == rest[0]);
                } else {
                    assert(whole[i] == rest[i - 1] && whole[i + 1] == rest[i]);
                }
            }
        }
    }
}

/// Law: an encoded track is well-formed: every run covers at least one
/// position, and no two neighbouring runs agree on both contig and value.
/// So `lemma_reencode_identity` applies to every track the encoder emits.
pub proof fn lemma_encoded_track_wf(entries: Seq<(Location, u64)>)
    requires
        forall|i: int, j: int| 0 <= i < j < entries.len() ==> loc_lt(entries[i].0, entries[j].0),
    ensures
        wf_track(spec_encode(entries)),
{
    if entries.len() > 0 {
        let tail = entries.skip(1);
        assert forall|i: int, j: int|
            0 <= i < j < tail.len() implies loc_lt(tail[i].0, tail[j].0) by {
            assert(tail[i] == entries[i + 1] && tail[j] == entries[j + 1]);
        }
        assert(tail.len() > 0 ==> loc_lt(entries[0].0, tail[0].0)) by {
            if tail.len() > 0 {
                assert(tail[0] == entries[1]);
            }
        }
        lemma_encode_from_wf(tail, open_state(entries[0].0, entries[0].1));
    }
}

/// Walking the rest of run `r` from position `k` with its run open, then the
/// expansion of the following runs, closes `r` exactly once and then emits
/// the following runs unchanged.
proof fn lemma_encode_tail(r: Run, k: int, st: RunState, rest: Seq<Run>)
    requires
        r.start < r.end <= 0x1_0000_0000,
        r.start < k <= r.end,
        st.contig == r.contig,
        st.value == r.value,
        st.last == k - 1,
        wf_track(rest),
        rest.len() > 0 ==> (rest[0].contig != r.contig || rest[0].value != r.value),
    ensures
        encode_from(tail_positions(r, k) + expand(rest), st) == seq![
            Run { contig: st.contig, start: st.start, end: r.end, value: st.value },
        ] + rest,
    decreases rest.len(), r.end - k,
{
    let entries = tail_positions(r, k) + expand(rest);
    if k < r.end {
        let e0 = (Location { contig_num: r.contig, position: k as u32 }, r.value);
        assert(tail_positions(r, k)[0] == e0);
        assert(entries[0] == e0);
        assert(extends(st, e0.0, e0.1));
        assert(entries.skip(1) =~= tail_positions(r, k + 1) + expand(rest));
        let st2 = RunState { contig: st.contig, start: st.start, last: k as u32, value: st.value };
        lemma_encode_tail(r, k + 1, st2, rest);
    } else {
        assert(tail_positions(r, k) =~= Seq::<(Location, u64)>::empty());
        assert(entries =~= expand(rest));
        if rest.len() == 0 {
            assert(entries.len() == 0);
            assert(run_of(st) == Run {
                contig: st.contig,
                start: st.start,
                end: r.end,
                value: st.value,
            });
            assert(seq![run_of(st)] =~= seq![run_of(st)] + rest);
        } else {
            let r2 = rest[0];
            let e0 = (Location { contig_num: r2.contig, position: r2.start }, r2.value);
            assert(expand(rest) == tail_positions(r2, r2.start as int) + expand(rest.skip(1)));
            assert(tail_positions(r2, r2.start as int)[0] == e0);
            assert(entries[0] == e0);
            assert(!extends(st, e0.0, e0.1));
            assert(entries.skip(1) =~= tail_positions(r2, r2.start as int + 1) + expand(
                rest.skip(1),
            ));
            lemma_wf_track_skip(rest);
            lemma_encode_tail(r2, r2.start as int + 1, open_state(e0.0, e0.1), rest.skip(1));
            assert(run_of(st) == Run {
                contig: st.contig,
                start: st.start,
                end: r.end,
                value: st.value,
            });
            assert(Run { contig: r2.contig, start: r2.start, end: r2.end, value: r2.value } == r2);
            assert(seq![run_of(st)] + (seq![r2] + rest.skip(1)) =~= seq![
                Run { contig: st.contig, start: st.start, end: r.end, value: st.value },
            ] + rest);
        }
    }
}

/// Law: expanding a track back into its per-position series and re-encoding
/// it yields the identical track.
pub proof fn lemma_reencode_identity(runs: Seq<Run>)
    requires
        wf_track(runs),
    ensures
        spec_encode(expand(runs)) == runs,
{
    if runs.len() == 0 {
        assert(spec_encode(expand(runs)) =~= runs);
    } else {
        let r0 = runs[0];
        let e0 = (Location { contig_num: r0.contig, position: r0.start }, r0.value);
        assert(tail_positions(r0, r0.start as int)[0] == e0);
        assert(expand(runs)[0] == e0);
        assert(expand(runs).skip(1) =~= tail_positions(r0, r0.start as int + 1) + expand(
            runs.skip(1),
        ));
        lemma_wf_track_skip(runs);
        lemma_encode_tail(r0, r0.start as int + 1, open_state(e0.0, e0.1), runs.skip(1));
        assert(seq![Run { contig: r0.contig, start: r0.start, end: r0.end, value: r0.value }]
            + runs.skip(1) =~= runs);
    }
}

} // verus!
