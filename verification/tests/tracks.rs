use bdp::aggregate::{avg_mapq, collect_stats, StatsTable};
use bdp::encode::{depth_series, encode_runs, mapq_series, Run};
use bdp::record::ReadRec;
use bdp::Location;

fn read(start: i64, ref_id: u32, mapq: u8, cigar: Vec<(u32, bool)>) -> ReadRec {
    ReadRec { start, ref_id, mapq, cigar }
}

fn run(contig: u32, start: u32, end: u64, value: u64) -> Run {
    Run { contig, start, end, value }
}

fn tracks(recs: Vec<ReadRec>) -> (Vec<Run>, Vec<Run>) {
    let table = collect_stats(&recs);
    let entries = table.into_sorted_entries();
    let mapq_runs = encode_runs(&mapq_series(&entries));
    let dp_runs = encode_runs(&depth_series(&entries));
    (mapq_runs, dp_runs)
}

#[test]
fn empty_input_gives_empty_tracks() {
    let (mapq_runs, dp_runs) = tracks(vec![]);
    assert!(mapq_runs.is_empty());
    assert!(dp_runs.is_empty());
}

#[test]
fn single_base_read_gives_one_line_each() {
    // One read of length 1 over one reference-consuming base.
    let (mapq_runs, dp_runs) = tracks(vec![read(7, 0, 60, vec![(1, true)])]);
    assert_eq!(mapq_runs, vec![run(0, 7, 8, 60)]);
    assert_eq!(dp_runs, vec![run(0, 7, 8, 1)]);
}

#[test]
fn unmapped_reads_contribute_nothing() {
    let (mapq_runs, dp_runs) = tracks(vec![
        read(-1, 0, 60, vec![(5, true)]),
        read(3, 0, 40, vec![(2, true)]),
        read(-1, 1, 10, vec![(4, true)]),
    ]);
    assert_eq!(mapq_runs, vec![run(0, 3, 5, 40)]);
    assert_eq!(dp_runs, vec![run(0, 3, 5, 1)]);
}

#[test]
fn insertions_do_not_advance_or_create() {
    // 2 consumed, 3 inserted (not consumed), 2 consumed: covers 10..14.
    let with_insert = tracks(vec![read(10, 0, 50, vec![(2, true), (3, false), (2, true)])]);
    let without = tracks(vec![read(10, 0, 50, vec![(4, true)])]);
    assert_eq!(with_insert, without);
    assert_eq!(with_insert.1, vec![run(0, 10, 14, 1)]);
}

#[test]
fn overlapping_same_mapq_collapses_to_one_run() {
    // Two reads, same mapq, overlapping and together contiguous in depth
    // change pattern: depth differs, mapq does not.
    let (mapq_runs, dp_runs) = tracks(vec![
        read(0, 0, 30, vec![(4, true)]),
        read(2, 0, 30, vec![(4, true)]),
    ]);
    assert_eq!(mapq_runs, vec![run(0, 0, 6, 30)]);
    assert_eq!(dp_runs, vec![run(0, 0, 2, 1), run(0, 2, 4, 2), run(0, 4, 6, 1)]);
}

#[test]
fn single_differing_base_splits_into_three() {
    // Uniform mapq 20 except one base in the middle covered by a second
    // read, pushing its average up: the mapq track splits in three.
    let (mapq_runs, _) = tracks(vec![
        read(0, 0, 20, vec![(5, true)]),
        read(2, 0, 40, vec![(1, true)]),
    ]);
    assert_eq!(
        mapq_runs,
        vec![run(0, 0, 2, 20), run(0, 2, 3, 30), run(0, 3, 5, 20)]
    );
}

#[test]
fn equal_values_merge_across_coverage_gap() {
    // Two reads with the same mapq on the same contig, separated by an
    // uncovered gap: boundaries depend on value and contig alone, so one
    // run spans the gap.
    let (mapq_runs, dp_runs) = tracks(vec![
        read(0, 0, 15, vec![(2, true)]),
        read(10, 0, 15, vec![(2, true)]),
    ]);
    assert_eq!(mapq_runs, vec![run(0, 0, 12, 15)]);
    assert_eq!(dp_runs, vec![run(0, 0, 12, 1)]);
}

#[test]
fn contig_change_always_splits() {
    let (mapq_runs, dp_runs) = tracks(vec![
        read(5, 0, 9, vec![(2, true)]),
        read(5, 1, 9, vec![(2, true)]),
    ]);
    assert_eq!(mapq_runs, vec![run(0, 5, 7, 9), run(1, 5, 7, 9)]);
    assert_eq!(dp_runs, vec![run(0, 5, 7, 1), run(1, 5, 7, 1)]);
}

#[test]
fn contigs_are_ordered_before_positions() {
    // Reads arrive out of genomic order; output is sorted by contig, then
    // position.
    let (_, dp_runs) = tracks(vec![
        read(0, 1, 5, vec![(1, true)]),
        read(100, 0, 5, vec![(1, true)]),
        read(1, 1, 5, vec![(1, true)]),
    ]);
    assert_eq!(dp_runs, vec![run(0, 100, 101, 1), run(1, 0, 2, 1)]);
}

#[test]
fn average_rounds_half_away_from_zero() {
    assert_eq!(avg_mapq(5, 2), 3); // 2.5 -> 3
    assert_eq!(avg_mapq(3, 2), 2); // 1.5 -> 2
    assert_eq!(avg_mapq(1, 3), 0); // 0.33 -> 0
    assert_eq!(avg_mapq(2, 3), 1); // 0.66 -> 1
    assert_eq!(avg_mapq(255, 1), 255);
    assert_eq!(avg_mapq(0, 7), 0);
}

#[test]
fn averaged_mapq_is_rounded_per_position() {
    // Depth 2 with mapqs 20 and 41: average 30.5 rounds to 31.
    let (mapq_runs, _) = tracks(vec![
        read(0, 0, 20, vec![(1, true)]),
        read(0, 0, 41, vec![(1, true)]),
    ]);
    assert_eq!(mapq_runs, vec![run(0, 0, 1, 31)]);
}

#[test]
fn depth_mass_matches_total_bases() {
    // Sum of run length x depth over the depth track equals the number of
    // (read, reference-consuming base) pairs, here 4 + 2 + 3 (contiguous
    // coverage, no gaps).
    let (_, dp_runs) = tracks(vec![
        read(0, 0, 10, vec![(4, true)]),
        read(1, 0, 20, vec![(2, true)]),
        read(2, 0, 30, vec![(3, true)]),
    ]);
    let mass: u64 = dp_runs.iter().map(|r| (r.end - r.start as u64) * r.value).sum();
    assert_eq!(mass, 9);
}

#[test]
fn rerunning_is_deterministic() {
    let recs = || {
        vec![
            read(0, 0, 20, vec![(5, true)]),
            read(2, 1, 40, vec![(1, true), (2, false), (3, true)]),
            read(-1, 0, 9, vec![(8, true)]),
        ]
    };
    let first = tracks(recs());
    let second = tracks(recs());
    assert_eq!(first, second);
}

#[test]
fn reencoding_expansion_gives_same_runs() {
    // Expand the depth track back to per-position entries and re-encode:
    // the run list is identical.
    let (_, dp_runs) = tracks(vec![
        read(0, 0, 30, vec![(4, true)]),
        read(2, 0, 30, vec![(4, true)]),
    ]);
    let mut expanded: Vec<(Location, u64)> = Vec::new();
    for r in &dp_runs {
        let mut p = r.start;
        while (p as u64) < r.end {
            expanded.push((Location { contig_num: r.contig, position: p }, r.value));
            p += 1;
        }
    }
    let reencoded = encode_runs(&expanded);
    assert_eq!(reencoded, dp_runs);
}

#[test]
fn try_add_read_refuses_oversized_reads() {
    let mut table = StatsTable::new();
    // A read whose span would walk past the end of the position type.
    let too_far = read(0xFFFF_FFF0, 0, 10, vec![(0x20, true)]);
    assert!(!table.try_add_read(&too_far));
    // A fitting read is accepted.
    let fits = read(0xFFFF_FFF0, 0, 10, vec![(0x10, true)]);
    assert!(table.try_add_read(&fits));
    let entries = table.into_sorted_entries();
    assert_eq!(entries.len(), 0x10);
}
