use vstd::prelude::*;

verus! {

/// A genomic position: a contig (reference sequence) index together with a
/// 0-based position on that contig. This is the key of the aggregate table.
#[derive(Clone, Copy, Debug, PartialEq, Eq, Structural)]
pub struct Location {
    pub contig_num: u32,
    pub position: u32,
}

/// The strict genomic order: contig index ascending, then position
/// ascending.
pub open spec fn loc_lt(a: Location, b: Location) -> bool {
    a.contig_num < b.contig_num || (a.contig_num == b.contig_num && a.position < b.position)
}

/// Executable comparison deciding `loc_lt`.
pub fn loc_before(a: &Location, b: &Location) -> (r: bool)
    ensures
        r == loc_lt(*a, *b),
{
    a.contig_num < b.contig_num || (a.contig_num == b.contig_num && a.position < b.position)
}

} // verus!
