use vstd::prelude::*;
use crate::location::Location;

verus! {

/// One aligned read as the alignment container reports it: a 0-based
/// reference start (negative means unmapped), the index of the reference
/// sequence it aligned to, the mapping quality, and the alignment
/// operations as (length, consumes-reference) pairs in order.
pub struct ReadRec {
    pub start: i64,
    pub ref_id: u32,
    pub mapq: u8,
    pub cigar: Vec<(u32, bool)>,
}

/// A read contributes to the table only when it is mapped.
pub open spec fn is_mapped(r: &ReadRec) -> bool {
    r.start >= 0
}

/// How many bases the operations `ops`, walked with a cursor starting at
/// `cursor`, lay on reference position `p`. Reference-consuming operations
/// advance the cursor one position per unit length and lay one base on each
/// position visited; other operations lay nothing and leave the cursor.
pub open spec fn ops_cover(ops: Seq<(u32, bool)>, cursor: int, p: int) -> nat
    decreases ops.len(),
{
    if ops.len() == 0 {
        0
    } else {
        let len = ops[0].0 as int;
        if ops[0].1 {
            (if cursor <= p < cursor + len {
                1nat
            } else {
                0nat
            }) + ops_cover(ops.skip(1), cursor + len, p)
        } else {
            ops_cover(ops.skip(1), cursor, p)
        }
    }
}

/// Total reference-consuming length of the operations: how far the cursor
/// advances, and how many bases the read lays on the reference in all.
pub open spec fn ops_ref_len(ops: Seq<(u32, bool)>) -> nat
    decreases ops.len(),
{
    if ops.len() == 0 {
        0
    } else {
        (if ops[0].1 {
            ops[0].0 as nat
        } else {
            0nat
        }) + ops_ref_len(ops.skip(1))
    }
}

/// How many bases read `r` lays on `loc` (0 for unmapped reads and for
/// locations on another contig).
pub open spec fn read_cover(r: &ReadRec, loc: Location) -> nat {
    if is_mapped(r) && r.ref_id == loc.contig_num {
        ops_cover(r.cigar@, r.start as int, loc.position as int)
    } else {
        0
    }
}

/// Total bases a read lays on the reference; 0 for unmapped reads.
pub open spec fn read_ref_len(r: &ReadRec) -> nat {
    if is_mapped(r) {
        ops_ref_len(r.cigar@)
    } else {
        0
    }
}

/// A mapped read fits the position type: every position its cursor visits
/// stays below 2^32. Unmapped reads visit nothing, so they always fit.
pub open spec fn read_fits(r: &ReadRec) -> bool {
    is_mapped(r) ==> r.start <= 0xFFFF_FFFF && r.start as int + ops_ref_len(r.cigar@)
        <= 0x1_0000_0000
}

/// Bases laid on `loc` by the first `j` operations of read `r`.
pub open spec fn read_cover_prefix(r: &ReadRec, j: int, loc: Location) -> nat {
    if is_mapped(r) && r.ref_id == loc.contig_num {
        ops_cover(r.cigar@.take(j), r.start as int, loc.position as int)
    } else {
        0
    }
}

/// Appending one operation extends the covered span by that operation's
/// reference-consuming length, placed right after the cursor has walked the
/// earlier operations.
pub proof fn lemma_ops_cover_push(ops: Seq<(u32, bool)>, op: (u32, bool), cursor: int, p: int)
    ensures
        ops_cover(ops.push(op), cursor, p) == ops_cover(ops, cursor, p) + (if op.1 && cursor
            + ops_ref_len(ops) <= p < cursor + ops_ref_len(ops) + op.0 {
            1nat
        } else {
            0nat
        }),
    decreases ops.len(),
{
    reveal_with_fuel(ops_cover, 2);
    reveal_with_fuel(ops_ref_len, 2);
    if ops.len() == 0 {
        assert(ops.push(op)[0] == op);
        assert(ops.push(op).skip(1) =~= Seq::<(u32, bool)>::empty());
    } else {
        assert(ops.push(op)[0] == ops[0]);
        assert(ops.push(op).skip(1) =~= ops.skip(1).push(op));
        if ops[0].1 {
            lemma_ops_cover_push(ops.skip(1), op, cursor + ops[0].0 as int, p);
        } else {
            lemma_ops_cover_push(ops.skip(1), op, cursor, p);
        }
    }
}

/// Appending one operation adds its reference-consuming length.
pub proof fn lemma_ops_ref_len_push(ops: Seq<(u32, bool)>, op: (u32, bool))
    ensures
        ops_ref_len(ops.push(op)) == ops_ref_len(ops) + (if op.1 {
            op.0 as nat
        } else {
            0nat
        }),
    decreases ops.len(),
{
    reveal_with_fuel(ops_ref_len, 2);
    if ops.len() == 0 {
        assert(ops.push(op)[0] == op);
        assert(ops.push(op).skip(1) =~= Seq::<(u32, bool)>::empty());
    } else {
        assert(ops.push(op)[0] == ops[0]);
        assert(ops.push(op).skip(1) =~= ops.skip(1).push(op));
        lemma_ops_ref_len_push(ops.skip(1), op);
    }
}

/// The reference-consuming length splits over any cut of the operations.
pub proof fn lemma_ops_ref_len_split(ops: Seq<(u32, bool)>, j: int)
    requires
        0 <= j <= ops.len(),
    ensures
        ops_ref_len(ops) == ops_ref_len(ops.take(j)) + ops_ref_len(ops.skip(j)),
    decreases ops.len(),
{
    if j == 0 {
        assert(ops.take(0) =~= Seq::<(u32, bool)>::empty());
        assert(ops.skip(0) =~= ops);
    } else {
        assert(ops.take(j)[0] == ops[0]);
        assert(ops.take(j).skip(1) =~= ops.skip(1).take(j - 1));
        assert(ops.skip(j) =~= ops.skip(1).skip(j - 1));
        lemma_ops_ref_len_split(ops.skip(1), j - 1);
    }
}

/// Depth at `loc`: total bases laid on `loc` over a sequence of reads.
pub open spec fn depth(recs: Seq<ReadRec>, loc: Location) -> nat
    decreases recs.len(),
{
    if recs.len() == 0 {
        0
    } else {
        depth(recs.drop_last(), loc) + read_cover(&recs.last(), loc)
    }
}

/// Mapping-quality mass at `loc`: every base a read lays on `loc` adds that
/// read's mapping quality.
pub open spec fn mapq_mass(recs: Seq<ReadRec>, loc: Location) -> nat
    decreases recs.len(),
{
    if recs.len() == 0 {
        0
    } else {
        mapq_mass(recs.drop_last(), loc) + read_cover(&recs.last(), loc) * (
        recs.last().mapq as nat)
    }
}

} // verus!
