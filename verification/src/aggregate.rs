use vstd::prelude::*;
use std::collections::HashMap;
use crate::location::{loc_lt, loc_before, Location};
use crate::record::{
    depth, is_mapped, lemma_ops_cover_push, lemma_ops_ref_len_push, lemma_ops_ref_len_split,
    mapq_mass, ops_cover, ops_ref_len, read_cover, read_cover_prefix, read_fits, read_ref_len,
    ReadRec,
};

verus! {

broadcast use vstd::std_specs::hash::group_hash_axioms;

/// Budget on the total number of (read, reference-consuming base) pairs one
/// table accepts. It keeps every sum and count far below the integer limits:
/// a mapping quality is at most 255, so a sum never exceeds 255 * BASE_CAP.
pub const BASE_CAP: u64 = 0xFFFF_FFFF_FFFF;

/// The table key: a location packed into one integer, contig index in the
/// high half, position in the low half. Packing is injective, so the packed
/// map represents a map keyed by `Location`.
pub open spec fn loc_key(loc: Location) -> u64 {
    ((loc.contig_num as int) * 0x1_0000_0000 + loc.position as int) as u64
}

pub proof fn lemma_loc_key_injective()
    ensures
        forall|a: Location, b: Location| loc_key(a) == loc_key(b) ==> a == b,
{
    assert forall|a: Location, b: Location| loc_key(a) == loc_key(b) implies a == b by {
        let ka = (a.contig_num as int) * 0x1_0000_0000 + a.position as int;
        let kb = (b.contig_num as int) * 0x1_0000_0000 + b.position as int;
        assert(0 <= ka < 0x1_0000_0000_0000_0000);
        assert(0 <= kb < 0x1_0000_0000_0000_0000);
        assert(ka == kb);
    }
}

/// The count recorded for `loc`, 0 when the table has no entry there.
pub open spec fn tcount(m: Map<Location, (nat, nat)>, loc: Location) -> nat {
    if m.contains_key(loc) {
        m[loc].1
    } else {
        0
    }
}

/// The mapping-quality sum recorded for `loc`, 0 when absent.
pub open spec fn tsum(m: Map<Location, (nat, nat)>, loc: Location) -> nat {
    if m.contains_key(loc) {
        m[loc].0
    } else {
        0
    }
}

/// Whether `loc` lies in the span of `len` consecutive positions that starts
/// at `start` on contig `contig` (1 when it does, 0 when not).
pub open spec fn span_cover(contig: u32, start: u32, len: u32, loc: Location) -> nat {
    if loc.contig_num == contig && start <= loc.position && (loc.position as int) < start as int
        + len as int {
        1
    } else {
        0
    }
}

/// The mapping quality laid on `loc` by that same span: `mapq` when the
/// span covers `loc`, 0 otherwise.
pub open spec fn span_mapq(contig: u32, start: u32, len: u32, mapq: u8, loc: Location) -> nat {
    if span_cover(contig, start, len, loc) == 1 {
        mapq as nat
    } else {
        0
    }
}

/// Total reference-consuming bases over a sequence of reads.
pub open spec fn total_ref_len(recs: Seq<ReadRec>) -> nat
    decreases recs.len(),
{
    if recs.len() == 0 {
        0
    } else {
        total_ref_len(recs.drop_last()) + read_ref_len(&recs.last())
    }
}

/// The aggregate table: for every covered location, the running sum of
/// mapping qualities and the count of reads covering it. The map is keyed by
/// the packed location; `keys` lists each present location once, so the
/// table can be walked; `total_bases` counts every accumulated base, which
/// bounds all entries.
pub struct StatsTable {
    map: HashMap<u64, (u64, u64)>,
    keys: Vec<Location>,
    total_bases: u64,
}

impl View for StatsTable {
    type V = Map<Location, (nat, nat)>;

    closed spec fn view(&self) -> Map<Location, (nat, nat)> {
        Map::new(
            |loc: Location| self.map@.contains_key(loc_key(loc)),
            |loc: Location|
                (
                    self.map@[loc_key(loc)].0 as nat,
                    self.map@[loc_key(loc)].1 as nat,
                ),
        )
    }
}

impl StatsTable {
    /// How many bases have been accumulated in all.
    pub closed spec fn bases(&self) -> nat {
        self.total_bases as nat
    }

    pub closed spec fn wf(&self) -> bool {
        &&& self.total_bases <= BASE_CAP
        &&& forall|i: int|
            0 <= i < self.keys@.len() ==> self.map@.contains_key(
                #[trigger] loc_key(self.keys@[i]),
            )
        &&& forall|i: int, j: int|
            0 <= i < j < self.keys@.len() ==> self.keys@[i] != self.keys@[j]
        &&& forall|k: u64| #[trigger]
            self.map@.contains_key(k) ==> exists|i: int|
                0 <= i < self.keys@.len() && loc_key(self.keys@[i]) == k
        &&& forall|k: u64| #[trigger]
            self.map@.contains_key(k) ==> {
                &&& 1 <= self.map@[k].1
                &&& self.map@[k].1 <= self.total_bases
                &&& self.map@[k].0 <= 255 * self.map@[k].1
            }
    }

    /// A location has an entry exactly when at least one base was laid on it,
    /// and every entry keeps sum and count within the accumulated budget.
    pub proof fn lemma_wf_entries(&self)
        requires
            self.wf(),
        ensures
            forall|loc: Location| #[trigger]
                self@.contains_key(loc) <==> tcount(self@, loc) > 0,
            forall|loc: Location| #[trigger]
                tcount(self@, loc) <= self.bases() && tsum(self@, loc) <= 255 * tcount(
                    self@,
                    loc,
                ),
            self.bases() <= BASE_CAP,
    {
    }

    pub fn new() -> (t: StatsTable)
        ensures
            t.wf(),
            t.bases() == 0,
            forall|loc: Location| tcount(t@, loc) == 0 && tsum(t@, loc) == 0,
            forall|loc: Location| !t@.contains_key(loc),
    {
        let t = StatsTable { map: HashMap::new(), keys: Vec::new(), total_bases: 0 };
        proof {
            assert(forall|loc: Location| !t@.contains_key(loc));
        }
        t
    }

    /// Accumulate one base at `loc` with mapping quality `mapq`.
    fn add_base(&mut self, loc: Location, mapq: u8)
        requires
            old(self).wf(),
            old(self).bases() + 1 <= BASE_CAP,
        ensures
            final(self).wf(),
            final(self).bases() == old(self).bases() + 1,
            forall|l: Location| #[trigger]
                tcount(final(self)@, l) == tcount(old(self)@, l) + (if l == loc {
                    1nat
                } else {
                    0nat
                }),
            forall|l: Location| #[trigger]
                tsum(final(self)@, l) == tsum(old(self)@, l) + (if l == loc {
                    mapq as nat
                } else {
                    0nat
                }),
    {
        proof {
            lemma_loc_key_injective();
        }
        let k = loc_key_exec(&loc);
        let ghost m0 = self.map@;
        let ghost ks0 = self.keys@;
        let found: Option<(u64, u64)> = match self.map.get(&k) {
            Some(p) => Some(*p),
            None => None,
        };
        match found {
            Some((s0, c0)) => {
                self.map.insert(k, (s0 + (mapq as u64), c0 + 1));
                self.total_bases = self.total_bases + 1;
                proof {
                    assert(m0.contains_key(k) && m0[k] == (s0, c0));
                    assert(self.map@ =~= m0.insert(k, ((s0 + mapq) as u64, (c0 + 1) as u64)));
                    assert forall|k2: u64| #[trigger]
                        self.map@.contains_key(k2) implies exists|i: int|
                        0 <= i < self.keys@.len() && loc_key(self.keys@[i]) == k2 by {
                        assert(m0.contains_key(k2));
                    }
                }
            },
            None => {
                assert(!m0.contains_key(k));
                self.keys.push(loc);
                self.map.insert(k, (mapq as u64, 1));
                self.total_bases = self.total_bases + 1;
                proof {
                    assert(self.keys@ =~= ks0.push(loc));
                    assert(self.map@ =~= m0.insert(k, (mapq as u64, 1u64)));
                    assert forall|i: int, j: int|
                        0 <= i < j < self.keys@.len() implies self.keys@[i] != self.keys@[j] by {
                        if j == ks0.len() {
                            assert(m0.contains_key(loc_key(ks0[i])));
                        }
                    }
                    assert forall|k2: u64| #[trigger]
                        self.map@.contains_key(k2) implies exists|i: int|
                        0 <= i < self.keys@.len() && loc_key(self.keys@[i]) == k2 by {
                        if k2 == k {
                            assert(loc_key(self.keys@[ks0.len() as int]) == k2);
                        } else {
                            assert(m0.contains_key(k2));
                            let i0 = choose|i: int|
                                0 <= i < ks0.len() && loc_key(ks0[i]) == k2;
                            assert(loc_key(self.keys@[i0]) == k2);
                        }
                    }
                }
            },
        }
        proof {
            assert forall|l: Location| #[trigger]
                tcount(self@, l) == tcount(old(self)@, l) + (if l == loc {
                    1nat
                } else {
                    0nat
                }) by {
                if l != loc {
                    assert(loc_key(l) != loc_key(loc));
                }
            }
            assert forall|l: Location| #[trigger]
                tsum(self@, l) == tsum(old(self)@, l) + (if l == loc {
                    mapq as nat
                } else {
                    0nat
                }) by {
                if l != loc {
                    assert(loc_key(l) != loc_key(loc));
                }
            }
        }
    }

    /// Accumulate a whole reference-consuming span: one base laid on each of
    /// the `len` positions starting at `start` on contig `contig`.
    fn add_span(&mut self, contig: u32, start: u32, len: u32, mapq: u8)
        requires
            old(self).wf(),
            old(self).bases() + len <= BASE_CAP,
            start as int + len as int <= 0x1_0000_0000,
        ensures
            final(self).wf(),
            final(self).bases() == old(self).bases() + len,
            forall|l: Location| #[trigger]
                tcount(final(self)@, l) == tcount(old(self)@, l) + span_cover(
                    contig,
                    start,
                    len,
                    l,
                ),
            forall|l: Location| #[trigger]
                tsum(final(self)@, l) == tsum(old(self)@, l) + span_mapq(
                    contig,
                    start,
                    len,
                    mapq,
                    l,
                ),
    {
        let mut i: u32 = 0;
        while i < len
            invariant
                self.wf(),
                i <= len,
                start as int + len as int <= 0x1_0000_0000,
                old(self).bases() + len <= BASE_CAP,
                self.bases() == old(self).bases() + i,
                forall|l: Location| #[trigger]
                    tcount(self@, l) == tcount(old(self)@, l) + span_cover(contig, start, i, l),
                forall|l: Location| #[trigger]
                    tsum(self@, l) == tsum(old(self)@, l) + span_mapq(contig, start, i, mapq, l),
            decreases len - i,
        {
            let pos = start + i;
            let loc = Location { contig_num: contig, position: pos };
            let ghost prev = self@;
            self.add_base(loc, mapq);
            proof {
                assert forall|l: Location| #[trigger]
                    tcount(self@, l) == tcount(old(self)@, l) + span_cover(
                        contig,
                        start,
                        (i + 1) as u32,
                        l,
                    ) by {
                    assert(tcount(prev, l) == tcount(old(self)@, l) + span_cover(
                        contig,
                        start,
                        i,
                        l,
                    ));
                }
                assert forall|l: Location| #[trigger]
                    tsum(self@, l) == tsum(old(self)@, l) + span_mapq(
                        contig,
                        start,
                        (i + 1) as u32,
                        mapq,
                        l,
                    ) by {
                    assert(tsum(prev, l) == tsum(old(self)@, l) + span_mapq(
                        contig,
                        start,
                        i,
                        mapq,
                        l,
                    ));
                    if l == loc {
                        assert(span_cover(contig, start, i, l) == 0);
                        assert(span_cover(contig, start, (i + 1) as u32, l) == 1);
                    } else {
                        assert(span_cover(contig, start, (i + 1) as u32, l) == span_cover(
                            contig,
                            start,
                            i,
                            l,
                        ));
                    }
                }
            }
            i = i + 1;
        }
    }
}

/// Taking one more read adds that read's covering and its quality mass.
pub proof fn lemma_take_one_more(recs: Seq<ReadRec>, i: int)
    requires
        0 <= i < recs.len(),
    ensures
        total_ref_len(recs.take(i + 1)) == total_ref_len(recs.take(i)) + read_ref_len(&recs[i]),
        forall|loc: Location| #[trigger]
            depth(recs.take(i + 1), loc) == depth(recs.take(i), loc) + read_cover(&recs[i], loc),
        forall|loc: Location| #[trigger]
            mapq_mass(recs.take(i + 1), loc) == mapq_mass(recs.take(i), loc) + read_cover(
                &recs[i],
                loc,
            ) * (recs[i].mapq as nat),
{
    assert(recs.take(i + 1).drop_last() =~= recs.take(i));
    assert(recs.take(i + 1).last() == recs[i]);
}

/// A prefix never carries more bases than the whole sequence.
pub proof fn lemma_total_ref_len_mono(recs: Seq<ReadRec>, i: int)
    requires
        0 <= i <= recs.len(),
    ensures
        total_ref_len(recs.take(i)) <= total_ref_len(recs),
    decreases recs.len() - i,
{
    if i == recs.len() {
        assert(recs.take(i) =~= recs);
    } else {
        lemma_take_one_more(recs, i);
        lemma_total_ref_len_mono(recs, i + 1);
    }
}

impl StatsTable {
    /// Accumulate one read: walk its operations from its start position,
    /// lay one base per unit of reference-consuming length, skip everything
    /// else. Unmapped reads contribute nothing.
    pub fn add_read(&mut self, r: &ReadRec)
        requires
            old(self).wf(),
            read_fits(r),
            old(self).bases() + read_ref_len(r) <= BASE_CAP,
        ensures
            final(self).wf(),
            final(self).bases() == old(self).bases() + read_ref_len(r),
            forall|l: Location| #[trigger]
                tcount(final(self)@, l) == tcount(old(self)@, l) + read_cover(r, l),
            forall|l: Location| #[trigger]
                tsum(final(self)@, l) == tsum(old(self)@, l) + read_cover(r, l) * (
                r.mapq as nat),
    {
        if r.start < 0 {
            return ;
        }
        let mut cursor: u64 = r.start as u64;
        let mut j: usize = 0;
        let n: usize = r.cigar.len();
        proof {
            assert(r.cigar@.take(0) =~= Seq::<(u32, bool)>::empty());
            assert forall|l: Location| read_cover_prefix(r, 0, l) == 0 by {
                assert(ops_cover(r.cigar@.take(0), r.start as int, l.position as int) == 0);
            }
        }
        while j < n
            invariant
                self.wf(),
                j <= n,
                n == r.cigar@.len(),
                is_mapped(r),
                r.start as int + ops_ref_len(r.cigar@) <= 0x1_0000_0000,
                old(self).bases() + read_ref_len(r) <= BASE_CAP,
                cursor as int == r.start as int + ops_ref_len(r.cigar@.take(j as int)),
                cursor <= 0x1_0000_0000,
                self.bases() == old(self).bases() + ops_ref_len(r.cigar@.take(j as int)),
                forall|l: Location| #[trigger]
                    tcount(self@, l) == tcount(old(self)@, l) + read_cover_prefix(
                        r,
                        j as int,
                        l,
                    ),
                forall|l: Location| #[trigger]
                    tsum(self@, l) == tsum(old(self)@, l) + read_cover_prefix(r, j as int, l) * (
                    r.mapq as nat),
            decreases n - j,
        {
            let (op_len, consumes) = r.cigar[j];
            let ghost pfx = r.cigar@.take(j as int);
            let ghost mid = self@;
            proof {
                assert(r.cigar@.take(j as int + 1) =~= pfx.push(r.cigar@[j as int]));
                lemma_ops_ref_len_push(pfx, r.cigar@[j as int]);
                lemma_ops_ref_len_split(r.cigar@, j as int + 1);
            }
            if consumes && op_len > 0 {
                let span_start: u32 = cursor as u32;
                self.add_span(r.ref_id, span_start, op_len, r.mapq);
                proof {
                    assert forall|l: Location| #[trigger]
                        tcount(self@, l) == tcount(old(self)@, l) + read_cover_prefix(
                            r,
                            j as int + 1,
                            l,
                        ) by {
                        lemma_ops_cover_push(
                            pfx,
                            r.cigar@[j as int],
                            r.start as int,
                            l.position as int,
                        );
                        assert(tcount(mid, l) == tcount(old(self)@, l) + read_cover_prefix(
                            r,
                            j as int,
                            l,
                        ));
                    }
                    assert forall|l: Location| #[trigger]
                        tsum(self@, l) == tsum(old(self)@, l) + read_cover_prefix(
                            r,
                            j as int + 1,
                            l,
                        ) * (r.mapq as nat) by {
                        lemma_ops_cover_push(
                            pfx,
                            r.cigar@[j as int],
                            r.start as int,
                            l.position as int,
                        );
                        assert(tsum(mid, l) == tsum(old(self)@, l) + read_cover_prefix(
                            r,
                            j as int,
                            l,
                        ) * (r.mapq as nat));
                        let a = read_cover_prefix(r, j as int, l);
                        let a2 = read_cover_prefix(r, j as int + 1, l);
                        let m = r.mapq as nat;
                        if span_cover(r.ref_id, span_start, op_len, l) == 1 {
                            assert(span_mapq(r.ref_id, span_start, op_len, r.mapq, l) == m);
                            assert(a2 == a + 1);
                            assert(a2 * m == a * m + m) by (nonlinear_arith)
                                requires
                                    a2 == a + 1,
                            ;
                        } else {
                            assert(span_cover(r.ref_id, span_start, op_len, l) == 0);
                            assert(span_mapq(r.ref_id, span_start, op_len, r.mapq, l) == 0);
                            assert(a2 == a);
                        }
                    }
                }
                cursor = cursor + (op_len as u64);
            } else {
                proof {
                    assert forall|l: Location| #[trigger]
                        tcount(self@, l) == tcount(old(self)@, l) + read_cover_prefix(
                            r,
                            j as int + 1,
                            l,
                        ) by {
                        lemma_ops_cover_push(
                            pfx,
                            r.cigar@[j as int],
                            r.start as int,
                            l.position as int,
                        );
                    }
                    assert forall|l: Location| #[trigger]
                        tsum(self@, l) == tsum(old(self)@, l) + read_cover_prefix(
                            r,
                            j as int + 1,
                            l,
                        ) * (r.mapq as nat) by {
                        lemma_ops_cover_push(
                            pfx,
                            r.cigar@[j as int],
                            r.start as int,
                            l.position as int,
                        );
                    }
                }
            }
            j = j + 1;
        }
        proof {
            assert(r.cigar@.take(n as int) =~= r.cigar@);
        }
    }

    /// Accumulate one read after checking what `add_read` needs: that every
    /// position the read visits fits the position type, and that the table's
    /// base budget is not exhausted. Returns false, leaving the table
    /// unchanged, exactly when one of the two fails.
    pub fn try_add_read(&mut self, r: &ReadRec) -> (ok: bool)
        requires
            old(self).wf(),
        ensures
            final(self).wf(),
            ok == (read_fits(r) && old(self).bases() + read_ref_len(r) <= BASE_CAP),
            ok ==> {
                &&& final(self).bases() == old(self).bases() + read_ref_len(r)
                &&& forall|l: Location| #[trigger]
                    tcount(final(self)@, l) == tcount(old(self)@, l) + read_cover(r, l)
                &&& forall|l: Location| #[trigger]
                    tsum(final(self)@, l) == tsum(old(self)@, l) + read_cover(r, l) * (
                    r.mapq as nat)
            },
            !ok ==> *final(self) == *old(self),
    {
        if r.start < 0 {
            self.add_read(r);
            return true;
        }
        let capped = ops_ref_len_capped(&r.cigar);
        match capped {
            None => false,
            Some(total) => {
                if r.start > 0xFFFF_FFFFi64 {
                    return false;
                }
                if (r.start as u64) + total > 0x1_0000_0000u64 {
                    return false;
                }
                if self.total_bases > BASE_CAP - total {
                    proof {
                        self.lemma_wf_entries();
                    }
                    return false;
                }
                self.add_read(r);
                true
            },
        }
    }
}

/// Insert an entry whose location no present entry carries into a strictly
/// sorted entry list, keeping it strictly sorted.
#[verifier::rlimit(100)]
fn insert_sorted(out: &mut Vec<(Location, u64, u64)>, e: (Location, u64, u64))
    requires
        forall|a: int, b: int|
            0 <= a < b < old(out)@.len() ==> loc_lt(old(out)@[a].0, old(out)@[b].0),
        forall|m: int| 0 <= m < old(out)@.len() ==> (#[trigger] old(out)@[m]).0 != e.0,
    ensures
        final(out)@.len() == old(out)@.len() + 1,
        forall|a: int, b: int|
            0 <= a < b < final(out)@.len() ==> loc_lt(final(out)@[a].0, final(out)@[b].0),
        forall|m: int|
            0 <= m < final(out)@.len() ==> (#[trigger] final(out)@[m]) == e || exists|m0: int|
                0 <= m0 < old(out)@.len() && old(out)@[m0] == final(out)@[m],
        forall|m0: int|
            0 <= m0 < old(out)@.len() ==> exists|m: int|
                0 <= m < final(out)@.len() && final(out)@[m] == #[trigger] old(out)@[m0],
        exists|m: int| 0 <= m < final(out)@.len() && final(out)@[m] == e,
{
    let n = out.len();
    let mut pos: usize = 0;
    while pos < n && loc_before(&out[pos].0, &e.0)
        invariant
            pos <= n,
            n == out@.len(),
            out == old(out),
            forall|m: int| 0 <= m < pos ==> loc_lt((#[trigger] out@[m]).0, e.0),
        decreases n - pos,
    {
        pos = pos + 1;
    }
    let mut res: Vec<(Location, u64, u64)> = Vec::new();
    let mut i: usize = 0;
    while i < pos
        invariant
            i <= pos <= n,
            n == out@.len(),
            out == old(out),
            res@.len() == i,
            forall|m: int| 0 <= m < i ==> res@[m] == out@[m],
        decreases pos - i,
    {
        res.push(out[i]);
        i = i + 1;
    }
    res.push(e);
    let mut i2: usize = pos;
    while i2 < n
        invariant
            pos <= i2 <= n,
            n == out@.len(),
            out == old(out),
            res@.len() == i2 + 1,
            forall|m: int| 0 <= m < pos ==> res@[m] == out@[m],
            res@[pos as int] == e,
            forall|m: int| pos < m <= i2 ==> res@[m] == out@[m - 1],
        decreases n - i2,
    {
        res.push(out[i2]);
        i2 = i2 + 1;
    }
    let ghost out0 = out@;
    let ghost p = pos as int;
    *out = res;
    proof {
        assert forall|a: int, b: int|
            0 <= a < b < out@.len() implies loc_lt(out@[a].0, out@[b].0) by {
            if b < p {
                assert(loc_lt(out0[a].0, out0[b].0));
            } else if b == p {
                assert(loc_lt(out0[a].0, e.0));
            } else if a == p {
                assert(out0[b - 1].0 != e.0);
                assert(!loc_lt(out0[p].0, e.0));
                if b - 1 > p {
                    assert(loc_lt(out0[p].0, out0[b - 1].0));
                }
            } else if a < p {
                assert(out@[a] == out0[a] && out@[b] == out0[b - 1]);
                assert(loc_lt(out0[a].0, out0[b - 1].0));
            } else {
                assert(loc_lt(out0[a - 1].0, out0[b - 1].0));
            }
        }
        assert forall|m: int|
            0 <= m < out@.len() implies (#[trigger] out@[m]) == e || exists|m0: int|
                0 <= m0 < out0.len() && out0[m0] == out@[m] by {
            if m < p {
                assert(out0[m] == out@[m]);
            } else if m > p {
                assert(out0[m - 1] == out@[m]);
            }
        }
        assert forall|m0: int|
            0 <= m0 < out0.len() implies exists|m: int|
                0 <= m < out@.len() && out@[m] == #[trigger] out0[m0] by {
            if m0 < p {
                assert(out@[m0] == out0[m0]);
            } else {
                assert(out@[m0 + 1] == out0[m0]);
            }
        }
        assert(out@[p] == e);
    }
}

impl StatsTable {
    /// The table's entries as (location, sum, count) triples in genomic
    /// order: contig ascending, then position ascending. Strict sortedness
    /// and completeness pin the result down to one sequence.
    pub fn into_sorted_entries(&self) -> (out: Vec<(Location, u64, u64)>)
        requires
            self.wf(),
        ensures
            forall|i: int, j: int| 0 <= i < j < out@.len() ==> loc_lt(out@[i].0, out@[j].0),
            forall|i: int|
                0 <= i < out@.len() ==> self@.contains_key(#[trigger] out@[i].0) && out@[i].1
                    as nat == tsum(self@, out@[i].0) && out@[i].2 as nat == tcount(
                    self@,
                    out@[i].0,
                ) && 1 <= out@[i].2 <= BASE_CAP && out@[i].1 <= 255 * out@[i].2,
            forall|loc: Location| #[trigger]
                self@.contains_key(loc) ==> exists|i: int|
                    0 <= i < out@.len() && out@[i].0 == loc,
    {
        proof {
            lemma_loc_key_injective();
        }
        let mut out: Vec<(Location, u64, u64)> = Vec::new();
        let mut idx: usize = 0;
        let nk: usize = self.keys.len();
        while idx < nk
            invariant
                self.wf(),
                idx <= nk,
                nk == self.keys@.len(),
                forall|a: int, b: int| 0 <= a < b < out@.len() ==> loc_lt(out@[a].0, out@[b].0),
                forall|m: int|
                    0 <= m < out@.len() ==> self@.contains_key(#[trigger] out@[m].0) && out@[m].1
                        as nat == tsum(self@, out@[m].0) && out@[m].2 as nat == tcount(
                        self@,
                        out@[m].0,
                    ) && 1 <= out@[m].2 <= BASE_CAP && out@[m].1 <= 255 * out@[m].2,
                forall|m: int|
                    0 <= m < out@.len() ==> exists|j: int|
                        0 <= j < idx && self.keys@[j] == (#[trigger] out@[m]).0,
                forall|j: int|
                    0 <= j < idx ==> exists|m: int|
                        0 <= m < out@.len() && out@[m].0 == #[trigger] self.keys@[j],
            decreases nk - idx,
        {
            let loc = self.keys[idx];
            let k = loc_key_exec(&loc);
            proof {
                assert(self.map@.contains_key(loc_key(self.keys@[idx as int])));
                lemma_loc_key_injective();
            }
            let entry = *self.map.get(&k).unwrap();
            let (sm, ct) = entry;
            let ghost out0 = out@;
            proof {
                assert(self@.contains_key(loc));
                assert(tsum(self@, loc) == sm as nat && tcount(self@, loc) == ct as nat);
                assert forall|m: int|
                    0 <= m < out@.len() implies (#[trigger] out@[m]).0 != loc by {
                    let j = choose|j: int| 0 <= j < idx && self.keys@[j] == out@[m].0;
                    assert(self.keys@[j] != self.keys@[idx as int]);
                }
            }
            insert_sorted(&mut out, (loc, sm, ct));
            proof {
                assert forall|m: int|
                    0 <= m < out@.len() implies self@.contains_key((#[trigger] out@[m]).0)
                        && out@[m].1 as nat == tsum(self@, out@[m].0) && out@[m].2 as nat
                        == tcount(self@, out@[m].0) && 1 <= out@[m].2 <= BASE_CAP && out@[m].1
                        <= 255 * out@[m].2 by {
                    if out@[m] != (loc, sm, ct) {
                        let m0 = choose|m0: int| 0 <= m0 < out0.len() && out0[m0] == out@[m];
                        assert(out0[m0] == out@[m]);
                    }
                }
                assert forall|m: int|
                    0 <= m < out@.len() implies exists|j: int|
                        0 <= j < idx as int + 1 && self.keys@[j] == (#[trigger] out@[m]).0 by {
                    if out@[m] == (loc, sm, ct) {
                        assert(self.keys@[idx as int] == out@[m].0);
                    } else {
                        let m0 = choose|m0: int| 0 <= m0 < out0.len() && out0[m0] == out@[m];
                        let j = choose|j: int| 0 <= j < idx && self.keys@[j] == out0[m0].0;
                        assert(self.keys@[j] == out@[m].0);
                    }
                }
                assert forall|j: int|
                    0 <= j < idx as int + 1 implies exists|m: int|
                        0 <= m < out@.len() && out@[m].0 == #[trigger] self.keys@[j] by {
                    if j == idx as int {
                        let m = choose|m: int| 0 <= m < out@.len() && out@[m] == (loc, sm, ct);
                        assert(out@[m].0 == self.keys@[j]);
                    } else {
                        let m0 = choose|m0: int|
                            0 <= m0 < out0.len() && out0[m0].0 == self.keys@[j];
                        let m = choose|m: int| 0 <= m < out@.len() && out@[m] == out0[m0];
                        assert(out@[m].0 == self.keys@[j]);
                    }
                }
            }
            idx = idx + 1;
        }
        proof {
            assert forall|loc: Location| #[trigger]
                self@.contains_key(loc) implies exists|i: int|
                0 <= i < out@.len() && out@[i].0 == loc by {
                let k = loc_key(loc);
                assert(self.map@.contains_key(k));
                let j = choose|j: int| 0 <= j < self.keys@.len() && loc_key(self.keys@[j]) == k;
                assert(self.keys@[j] == loc);
            }
        }
        out
    }
}

/// The average mapping quality of an aggregate entry: the quality sum over
/// the read count, rounded half away from zero (both are non-negative, so
/// half always rounds up).
pub open spec fn avg_round(sum: nat, count: nat) -> nat
    recommends
        count > 0,
{
    (2 * sum + count) / (2 * count)
}

/// Executable rounded average.
pub fn avg_mapq(sum: u64, count: u64) -> (a: u64)
    requires
        1 <= count <= BASE_CAP,
        sum <= 255 * count,
    ensures
        a as nat == avg_round(sum as nat, count as nat),
        a <= 255,
{
    let q = sum / count;
    let r = sum % count;
    let a = if 2 * r >= count {
        q + 1
    } else {
        q
    };
    proof {
        let s = sum as int;
        let c = count as int;
        let qi = s / c;
        let ri = s % c;
        vstd::arithmetic::div_mod::lemma_fundamental_div_mod(s, c);
        assert(qi <= 255) by (nonlinear_arith)
            requires
                s == c * qi + ri,
                0 <= ri < c,
                1 <= c,
                s <= 255 * c,
        ;
        if 2 * ri >= c {
            assert(qi + 1 <= 255) by (nonlinear_arith)
                requires
                    s == c * qi + ri,
                    0 <= ri < c,
                    1 <= c,
                    s <= 255 * c,
                    2 * ri >= c,
            ;
            assert(2 * s + c == (qi + 1) * (2 * c) + (2 * ri - c)) by (nonlinear_arith)
                requires
                    s == c * qi + ri,
            ;
            vstd::arithmetic::div_mod::lemma_fundamental_div_mod_converse(
                2 * s + c,
                2 * c,
                qi + 1,
                2 * ri - c,
            );
        } else {
            assert(2 * s + c == qi * (2 * c) + (2 * ri + c)) by (nonlinear_arith)
                requires
                    s == c * qi + ri,
            ;
            vstd::arithmetic::div_mod::lemma_fundamental_div_mod_converse(
                2 * s + c,
                2 * c,
                qi,
                2 * ri + c,
            );
        }
    }
    a
}

/// The total reference-consuming length of a read's operations, or None when
/// it exceeds 2^32, past which no start position can make the read fit.
fn ops_ref_len_capped(cigar: &Vec<(u32, bool)>) -> (res: Option<u64>)
    ensures
        match res {
            Some(v) => v == ops_ref_len(cigar@) && v <= 0x1_0000_0000,
            None => ops_ref_len(cigar@) > 0x1_0000_0000,
        },
{
    let mut acc: u64 = 0;
    let mut j: usize = 0;
    let n: usize = cigar.len();
    proof {
        assert(cigar@.take(0) =~= Seq::<(u32, bool)>::empty());
    }
    while j < n
        invariant
            j <= n,
            n == cigar@.len(),
            acc == ops_ref_len(cigar@.take(j as int)),
            acc <= 0x1_0000_0000,
        decreases n - j,
    {
        let (op_len, consumes) = cigar[j];
        proof {
            assert(cigar@.take(j as int + 1) =~= cigar@.take(j as int).push(cigar@[j as int]));
            lemma_ops_ref_len_push(cigar@.take(j as int), cigar@[j as int]);
        }
        if consumes {
            if acc + (op_len as u64) > 0x1_0000_0000u64 {
                proof {
                    lemma_ops_ref_len_split(cigar@, j as int + 1);
                }
                return None;
            }
            acc = acc + (op_len as u64);
        }
        j = j + 1;
    }
    proof {
        assert(cigar@.take(n as int) =~= cigar@);
    }
    Some(acc)
}

/// Every read in the sequence fits the position type.
pub open spec fn reads_fit(recs: Seq<ReadRec>) -> bool {
    forall|i: int| 0 <= i < recs.len() ==> read_fits(#[trigger] &recs[i])
}

/// Build the aggregate table with one pass over a sequence of reads.
pub fn collect_stats(recs: &Vec<ReadRec>) -> (t: StatsTable)
    requires
        reads_fit(recs@),
        total_ref_len(recs@) <= BASE_CAP,
    ensures
        t.wf(),
        t.bases() == total_ref_len(recs@),
        forall|loc: Location| #[trigger] tcount(t@, loc) == depth(recs@, loc),
        forall|loc: Location| #[trigger] tsum(t@, loc) == mapq_mass(recs@, loc),
        forall|loc: Location| #[trigger] t@.contains_key(loc) <==> depth(recs@, loc) > 0,
{
    let mut t = StatsTable::new();
    let mut i: usize = 0;
    let n: usize = recs.len();
    proof {
        assert(recs@.take(0) =~= Seq::<ReadRec>::empty());
    }
    while i < n
        invariant
            t.wf(),
            i <= n,
            n == recs@.len(),
            reads_fit(recs@),
            total_ref_len(recs@) <= BASE_CAP,
            t.bases() == total_ref_len(recs@.take(i as int)),
            forall|loc: Location| #[trigger]
                tcount(t@, loc) == depth(recs@.take(i as int), loc),
            forall|loc: Location| #[trigger]
                tsum(t@, loc) == mapq_mass(recs@.take(i as int), loc),
        decreases n - i,
    {
        proof {
            lemma_take_one_more(recs@, i as int);
            lemma_total_ref_len_mono(recs@, i as int + 1);
        }
        t.add_read(&recs[i]);
        i = i + 1;
    }
    proof {
        assert(recs@.take(n as int) =~= recs@);
        t.lemma_wf_entries();
    }
    t
}

/// Executable packing of a location into the table key.
pub fn loc_key_exec(loc: &Location) -> (k: u64)
    ensures
        k == loc_key(*loc),
{
    (loc.contig_num as u64) * 0x1_0000_0000u64 + (loc.position as u64)
}

} // verus!
