use remap::pipeline::Pipeline;
use remap::ranges::{Interval, RangeSet};
use remap::stage::StageTable;
use remap::Error;

fn range_set(pairs: &[(u64, u64)]) -> RangeSet {
    RangeSet::from_raw(&pairs.to_vec()).unwrap()
}

fn table(triples: &[(u64, u64, u64)]) -> StageTable {
    StageTable::from_entries(&triples.to_vec()).unwrap()
}

#[test]
fn from_raw_drops_empty_pairs() {
    let rs = range_set(&[(5, 0), (10, 3)]);
    assert_eq!(*rs.intervals(), vec![Interval { start: 10, end: 13 }]);
}

#[test]
fn from_raw_rejects_overflow() {
    let r = RangeSet::from_raw(&vec![(u64::MAX, 2)]);
    assert_eq!(r.unwrap_err(), Error::InvalidRange);
}

#[test]
fn from_raw_merges_overlaps() {
    let rs = range_set(&[(5, 10), (0, 7), (20, 1)]);
    assert_eq!(
        *rs.intervals(),
        vec![Interval { start: 0, end: 15 }, Interval { start: 20, end: 21 }]
    );
}

#[test]
fn minimum_start_scans_all_intervals() {
    assert_eq!(range_set(&[]).minimum_start(), None);
    assert_eq!(range_set(&[(7, 2), (3, 1)]).minimum_start(), Some(3));
}

#[test]
fn apply_stage_splits_at_boundaries() {
    // [0, 10) against a span [3, 6) moved to 103
    let rs = range_set(&[(0, 10)]);
    let t = table(&[(103, 3, 3)]);
    let out = rs.apply_stage(&t);
    assert_eq!(
        *out.intervals(),
        vec![
            Interval { start: 0, end: 3 },
            Interval { start: 6, end: 10 },
            Interval { start: 103, end: 106 },
        ]
    );
}

#[test]
fn totality_keeps_the_value_count() {
    let rs = range_set(&[(0, 10), (50, 5)]);
    let t = table(&[(100, 0, 5), (200, 52, 10)]);
    let out = rs.apply_stage(&t);
    assert_eq!(out.total_length(), rs.total_length());
    assert_eq!(out.total_length(), 15);
}

#[test]
fn identity_stage_returns_the_input_set() {
    let rs = range_set(&[(3, 4), (10, 2)]);
    let t = table(&[]);
    let out = rs.apply_stage(&t);
    assert_eq!(*out.intervals(), *rs.intervals());
}

#[test]
fn apply_stage_is_deterministic() {
    let rs = range_set(&[(0, 100), (500, 20)]);
    let t = table(&[(1000, 50, 100)]);
    let out1 = rs.apply_stage(&t);
    let out2 = rs.apply_stage(&t);
    assert_eq!(*out1.intervals(), *out2.intervals());
}

#[test]
fn stage_order_matters() {
    let first = table(&[(10, 0, 10)]);
    let second = table(&[(15, 10, 10)]);
    let rs = range_set(&[(0, 5)]);
    let one_way = Pipeline::new(vec![
        table(&[(10, 0, 10)]),
        table(&[(15, 10, 10)]),
    ])
    .minimum_location(range_set(&[(0, 5)]));
    let other_way = Pipeline::new(vec![second, first]).minimum_location(rs);
    assert_eq!(one_way, Some(15));
    assert_eq!(other_way, Some(10));
    assert_ne!(one_way, other_way);
}

#[test]
fn disjointness_survives_colliding_destinations() {
    // both spans land on overlapping destinations; the output is one interval
    let rs = range_set(&[(0, 10)]);
    let t = table(&[(100, 0, 5), (102, 5, 5)]);
    let out = rs.apply_stage(&t);
    assert_eq!(*out.intervals(), vec![Interval { start: 100, end: 107 }]);
    let iv = out.intervals();
    for i in 1..iv.len() {
        assert!(iv[i - 1].end <= iv[i].start);
    }
}

#[test]
fn overlapping_entries_are_rejected() {
    let r = StageTable::from_entries(&vec![(0, 0, 5), (10, 2, 5)]);
    assert_eq!(r.unwrap_err(), Error::OverlappingEntries);
}

#[test]
fn zero_length_entries_are_rejected() {
    let r = StageTable::from_entries(&vec![(0, 0, 0)]);
    assert_eq!(r.unwrap_err(), Error::InvalidRange);
    let r = StageTable::from_entries(&vec![(u64::MAX, 0, 2)]);
    assert_eq!(r.unwrap_err(), Error::InvalidRange);
}

#[test]
fn find_first_overlap_picks_the_nearest_span() {
    let t = table(&[(0, 20, 5), (0, 5, 5)]);
    let inside = t.find_first_overlap(6).unwrap();
    assert_eq!((inside.source_start, inside.source_end), (5, 10));
    let above = t.find_first_overlap(12).unwrap();
    assert_eq!((above.source_start, above.source_end), (20, 25));
    assert!(t.find_first_overlap(25).is_none());
}

fn example_stages() -> Vec<StageTable> {
    vec![
        table(&[(50, 98, 2), (52, 50, 48)]),
        table(&[(0, 15, 37), (37, 52, 2), (39, 0, 15)]),
        table(&[(49, 53, 8), (0, 11, 42), (42, 0, 7), (57, 7, 4)]),
        table(&[(88, 18, 7), (18, 25, 70)]),
        table(&[(45, 77, 23), (81, 45, 19), (68, 64, 13)]),
        table(&[(0, 69, 1), (1, 0, 69)]),
        table(&[(60, 56, 37), (56, 93, 4)]),
    ]
}

#[test]
fn pipeline_example_with_bulk_ranges() {
    let initial = range_set(&[(79, 14), (55, 13)]);
    let p = Pipeline::new(example_stages());
    assert_eq!(p.minimum_location(initial), Some(46));
}

#[test]
fn pipeline_example_with_singleton_ranges() {
    let initial = range_set(&[(79, 1), (14, 1), (55, 1), (13, 1)]);
    let p = Pipeline::new(example_stages());
    assert_eq!(p.minimum_location(initial), Some(35));
}

#[test]
fn empty_range_set_stays_empty() {
    let initial = range_set(&[]);
    let p = Pipeline::new(example_stages());
    assert_eq!(p.minimum_location(initial), None);
}

#[test]
fn run_folds_every_stage_in_order() {
    let initial = range_set(&[(79, 1)]);
    let p = Pipeline::new(example_stages());
    let out = p.run(initial);
    // 79 -> 81 -> 81 -> 81 -> 74 -> 78 -> 78 -> 82
    assert_eq!(*out.intervals(), vec![Interval { start: 82, end: 83 }]);
}
