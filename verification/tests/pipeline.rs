use billion_record_challenge::coordinator::process_measurements;
use billion_record_challenge::duration::format_duration;
use billion_record_challenge::partition::compute_ranges;
use billion_record_challenge::registry::Registry;
use billion_record_challenge::scanner::{process_chunk, process_line};
use billion_record_challenge::temperature::ParseError;

const INPUT: &[u8] = b"A;1.0\nB;-2.5\nA;3.0\n";

fn assert_reference_result(r: &Registry) {
    // {A: min=1.0 max=3.0 mean=2.0 count=2, B: min=-2.5 max=-2.5 mean=-2.5 count=1}
    let a = r.get(b"A").unwrap();
    assert_eq!((a.min, a.max, a.sum, a.count), (10, 30, 40, 2));
    assert_eq!(a.sum as f64 / a.count as f64 * 0.1, 2.0);
    let b = r.get(b"B").unwrap();
    assert_eq!((b.min, b.max, b.sum, b.count), (-25, -25, -25, 1));
    assert_eq!(r.len(), 2);
}

#[test]
fn single_worker_end_to_end() {
    let r = process_measurements(INPUT, 1).unwrap();
    assert_reference_result(&r);
}

#[test]
fn two_workers_realign_mid_line() {
    // the candidate boundary (ceil(19 / 2) = 10) falls inside the second
    // record and must be realigned to just past its terminator
    let ranges = compute_ranges(INPUT, 2);
    assert_eq!(ranges.len(), 2);
    assert_eq!((ranges[0].start, ranges[0].end), (0, 13));
    assert_eq!((ranges[1].start, ranges[1].end), (13, 19));
    let r = process_measurements(INPUT, 2).unwrap();
    assert_reference_result(&r);
}

#[test]
fn partition_counts_match_any_worker_count() {
    for workers in 1..8 {
        let r = process_measurements(INPUT, workers).unwrap();
        assert_reference_result(&r);
    }
}

#[test]
fn ranges_cover_input_contiguously() {
    for workers in 1..8 {
        let ranges = compute_ranges(INPUT, workers);
        assert_eq!(ranges.len(), workers);
        assert_eq!(ranges[0].start, 0);
        assert_eq!(ranges[workers - 1].end, INPUT.len());
        for w in ranges.windows(2) {
            assert_eq!(w[0].end, w[1].start);
        }
        for r in &ranges[..workers - 1] {
            assert!(r.end == INPUT.len() || INPUT[r.end - 1] == b'\n');
        }
    }
}

#[test]
fn more_workers_than_lines_yields_empty_chunks() {
    let ranges = compute_ranges(INPUT, 10);
    assert_eq!(ranges.len(), 10);
    assert!(ranges.iter().any(|r| r.start == r.end));
    for r in &ranges {
        let chunk = process_chunk(INPUT, r.start, r.end).unwrap();
        if r.start == r.end {
            assert_eq!(chunk.len(), 0);
        }
    }
    let merged = process_measurements(INPUT, 10).unwrap();
    assert_reference_result(&merged);
}

#[test]
fn final_line_may_lack_terminator() {
    let r = process_measurements(b"A;1.0\nB;-2.5", 1).unwrap();
    let b = r.get(b"B").unwrap();
    assert_eq!((b.min, b.max, b.sum, b.count), (-25, -25, -25, 1));
    assert_eq!(r.len(), 2);
}

#[test]
fn empty_input_yields_empty_result() {
    let r = process_measurements(b"", 1).unwrap();
    assert_eq!(r.len(), 0);
    let r4 = process_measurements(b"", 4).unwrap();
    assert_eq!(r4.len(), 0);
}

#[test]
fn missing_delimiter_is_reported() {
    assert_eq!(process_measurements(b"A\n", 1).unwrap_err(), ParseError::MissingDelimiter);
    assert_eq!(
        process_measurements(b"A;1.0\nB\nA;3.0\n", 2).unwrap_err(),
        ParseError::MissingDelimiter
    );
}

#[test]
fn malformed_value_is_reported() {
    assert_eq!(process_measurements(b"A;12.34\n", 1).unwrap_err(), ParseError::InvalidValue);
    assert_eq!(process_measurements(b"A;1.0\nB;x\n", 1).unwrap_err(), ParseError::InvalidValue);
}

#[test]
fn process_line_leaves_registry_unchanged_on_error() {
    let mut r = Registry::new();
    r.update(b"A", 10);
    assert_eq!(process_line(b"oops", &mut r).unwrap_err(), ParseError::MissingDelimiter);
    assert_eq!(process_line(b"B;1", &mut r).unwrap_err(), ParseError::InvalidValue);
    assert_eq!(r.len(), 1);
    assert!(r.get(b"B").is_none());
    process_line(b"B;2.5", &mut r).unwrap();
    let b = r.get(b"B").unwrap();
    assert_eq!((b.min, b.max, b.sum, b.count), (25, 25, 25, 1));
}

#[test]
fn chunk_scan_stays_within_range() {
    // scanning only the middle record must not see its neighbours
    let r = process_chunk(INPUT, 6, 13).unwrap();
    assert_eq!(r.len(), 1);
    assert!(r.get(b"A").is_none());
    let b = r.get(b"B").unwrap();
    assert_eq!((b.min, b.max, b.sum, b.count), (-25, -25, -25, 1));
}

#[test]
fn formats_durations_zero_padded() {
    assert_eq!(format_duration(0, 0), "00:00:000");
    assert_eq!(format_duration(61, 5), "01:01:005");
    assert_eq!(format_duration(59, 999), "00:59:999");
    assert_eq!(format_duration(7205, 987), "120:05:987");
    assert_eq!(format_duration(600, 42), "10:00:042");
}
