use remap::almanac::Almanac;
use remap::ranges::Interval;
use remap::Error;

const TEST_INPUT: &str = "seeds: 79 14 55 13
seed-to-soil map:
50 98 2
52 50 48

soil-to-fertilizer map:
0 15 37
37 52 2
39 0 15

fertilizer-to-water map:
49 53 8
0 11 42
42 0 7
57 7 4

water-to-light map:
88 18 7
18 25 70

light-to-temperature map:
45 77 23
81 45 19
68 64 13

temperature-to-humidity map:
0 69 1
1 0 69

humidity-to-location map:
60 56 37
56 93 4";

#[test]
fn almanac() {
    let almanac = Almanac::from1(TEST_INPUT).unwrap();
    // the seeds 79, 14, 55 and 13 as singleton ranges, in normalized order,
    // 13 and 14 merged into one interval
    assert_eq!(
        *almanac.ranges.intervals(),
        vec![
            Interval { start: 13, end: 15 },
            Interval { start: 55, end: 56 },
            Interval { start: 79, end: 80 },
        ]
    );
    let mut entries = 0;
    for t in &almanac.stages {
        entries += t.entries().len();
    }
    assert_eq!(entries, 18);
    assert_eq!(almanac.stages.len(), 7);
}

#[test]
fn locations() {
    let mut almanac = Almanac::from1(TEST_INPUT).unwrap();
    almanac.process_times(10);
    assert_eq!(almanac.smallest_number().unwrap(), 35);
}

#[test]
fn locations_with_bulk_ranges() {
    let mut almanac = Almanac::from2(TEST_INPUT).unwrap();
    almanac.process_times(7);
    assert_eq!(almanac.smallest_number().unwrap(), 46);
}

#[test]
fn process_advances_one_stage() {
    let mut almanac = Almanac::from1(TEST_INPUT).unwrap();
    almanac.process();
    // 79 -> 81, 14 -> 14, 55 -> 57, 13 -> 13 after the first stage
    assert_eq!(
        *almanac.ranges.intervals(),
        vec![
            Interval { start: 13, end: 15 },
            Interval { start: 57, end: 58 },
            Interval { start: 81, end: 82 },
        ]
    );
    assert_eq!(almanac.next, 1);
}

#[test]
fn missing_seeds_line_is_malformed() {
    assert_eq!(
        Almanac::from1("nothing here\n1 2 3\n").unwrap_err(),
        Error::MalformedInput
    );
}

#[test]
fn overlapping_stage_rows_are_rejected() {
    let text = "seeds: 1 2\nbroken map:\n0 0 5\n10 2 5\n";
    assert_eq!(Almanac::from1(text).unwrap_err(), Error::OverlappingEntries);
}
