use onebrc::aggregate::{GlobalAggregate, PartitionAggregate};
use onebrc::partition::{partition, PartitionRange};
use onebrc::pipeline::{aggregate, merge_all, parse_range, report, RunError};
use onebrc::record::ParseError;
use onebrc::scan::{parse_chunk_bytes, parse_partition};

fn lines_of(text: &[u8]) -> Vec<String> {
    let mut lines: Vec<String> = String::from_utf8(text.to_vec())
        .unwrap()
        .split('\n')
        .filter(|l| !l.is_empty())
        .map(|l| l.to_string())
        .collect();
    lines.sort();
    lines
}

fn summaries(g: &GlobalAggregate) -> Vec<(Vec<u8>, i16, i16, i16)> {
    let mut out = Vec::new();
    for i in 0..g.len() {
        let (k, min, mean, max) = g.summary(i);
        out.push((k.to_vec(), min, mean, max));
    }
    out.sort();
    out
}

fn concat(src: &[u8], ranges: &[PartitionRange]) -> Vec<u8> {
    let mut out = Vec::new();
    for r in ranges {
        out.extend_from_slice(&src[r.start..r.end]);
    }
    out
}

const SAMPLE: &[u8] = b"Hamburg;12.0\nBulawayo;8.9\nPalembang;38.8\nHamburg;-3.4\nSt. John's;15.2\nCracow;12.6\nBulawayo;-0.3\nPalembang;22.1\nHamburg;34.2\nCracow;-9.9\n";

#[test]
fn scenario_two_stations_two_partitions() {
    let src = b"A;3.2\nB;-1.0\nA;-5.5\n";
    let g = aggregate(src, 2).unwrap();
    assert_eq!(g.len(), 2);
    assert_eq!(g.get(b"A"), Some((-55, -12, 32)));
    assert_eq!(g.get(b"B"), Some((-10, -10, -10)));
    let text = report(src, 2).unwrap();
    assert_eq!(lines_of(&text), vec!["A;-5.5;-1.2;3.2".to_string(), "B;-1.0;-1.0;-1.0".to_string()]);
}

#[test]
fn scenario_last_line_without_newline() {
    let src = b"A;1.0\nB;2.5\nA;-0.5";
    for n in 1..8 {
        let g = aggregate(src, n).unwrap();
        assert_eq!(g.get(b"A"), Some((-5, 2, 10)));
        assert_eq!(g.get(b"B"), Some((25, 25, 25)));
    }
}

#[test]
fn scenario_empty_input() {
    let src: &[u8] = b"";
    assert!(partition(src, 4).is_empty());
    let g = aggregate(src, 4).unwrap();
    assert_eq!(g.len(), 0);
    assert_eq!(report(src, 4).unwrap(), Vec::<u8>::new());
}

#[test]
fn partitions_reassemble_input() {
    for n in 1..20 {
        let ranges = partition(SAMPLE, n);
        assert_eq!(concat(SAMPLE, &ranges), SAMPLE.to_vec());
        for (i, r) in ranges.iter().enumerate() {
            assert!(r.start < r.end);
            assert!(r.end == SAMPLE.len() || SAMPLE[r.end - 1] == b'\n');
            if i + 1 < ranges.len() {
                assert_eq!(r.end, ranges[i + 1].start);
            }
        }
    }
}

#[test]
fn partitions_follow_stride() {
    // 18 bytes, stride 9: ranges end after the newlines at 5 and 11, the
    // last one reaches the end.
    let src = b"A;1.0\nB;2.0\nC;3.0\n";
    let ranges = partition(src, 2);
    assert_eq!(
        ranges,
        vec![
            PartitionRange { start: 0, end: 6 },
            PartitionRange { start: 6, end: 12 },
            PartitionRange { start: 12, end: 18 },
        ]
    );
}

#[test]
fn partition_without_newline_in_stride_extends_to_end() {
    let src = b"Longname;1.0\nB;2.0\n";
    let ranges = partition(src, 4);
    assert_eq!(ranges, vec![PartitionRange { start: 0, end: src.len() }]);
}

#[test]
fn merge_order_does_not_matter() {
    let parts_src: [&[u8]; 3] = [b"A;1.0\nB;2.0\n", b"A;-4.0\nC;0.5\n", b"B;9.9\nA;0.0\n"];
    let orders = [[0, 1, 2], [0, 2, 1], [1, 0, 2], [1, 2, 0], [2, 0, 1], [2, 1, 0]];
    let mut results = Vec::new();
    for order in orders.iter() {
        let parts: Vec<PartitionAggregate> =
            order.iter().map(|&i| parse_chunk_bytes(parts_src[i].to_vec()).unwrap()).collect();
        results.push(summaries(&merge_all(&parts)));
    }
    for r in &results {
        assert_eq!(r, &results[0]);
    }
    assert_eq!(results[0][0], (b"A".to_vec(), -40, -15, 10));
}

#[test]
fn whole_input_matches_partitioned() {
    let whole = summaries(&aggregate(SAMPLE, 1).unwrap());
    for n in 2..40 {
        assert_eq!(summaries(&aggregate(SAMPLE, n).unwrap()), whole);
    }
    let hamburg = whole.iter().find(|e| e.0 == b"Hamburg".to_vec()).unwrap();
    assert_eq!(hamburg, &(b"Hamburg".to_vec(), -34, 154, 342));
}

#[test]
fn merging_empty_aggregate_changes_nothing() {
    let part = parse_chunk_bytes(SAMPLE.to_vec()).unwrap();
    let mut g = GlobalAggregate::new();
    g.merge(&part);
    let before = summaries(&g);
    g.merge(&PartitionAggregate::new());
    assert_eq!(summaries(&g), before);
}

#[test]
fn input_smaller_than_worker_count() {
    let src = b"X;7.5\n";
    let ranges = partition(src, 64);
    assert_eq!(ranges, vec![PartitionRange { start: 0, end: src.len() }]);
    let g = aggregate(src, 64).unwrap();
    assert_eq!(g.get(b"X"), Some((75, 75, 75)));
}

#[test]
fn carriage_return_before_newline_is_ignored() {
    let g = aggregate(b"A;1.5\r\nA;-2.0\r\n", 1).unwrap();
    assert_eq!(g.get(b"A"), Some((-20, -3, 15)));
}

#[test]
fn values_at_the_limits_of_i16() {
    let g = aggregate(b"A;-3276.8\nA;3276.7\n", 1).unwrap();
    assert_eq!(g.get(b"A"), Some((-32768, -1, 32767)));
}

#[test]
fn error_missing_delimiter() {
    match aggregate(b"A;1.0\nnodelimiter\n", 1) {
        Err(RunError::Parse { error, .. }) => assert_eq!(error, ParseError::MissingDelimiter),
        _ => panic!("expected an error"),
    }
}

#[test]
fn error_non_numeric() {
    match aggregate(b"A;1.x\n", 1) {
        Err(RunError::Parse { error, .. }) => assert_eq!(error, ParseError::NonNumeric),
        _ => panic!("expected an error"),
    }
    match aggregate(b"A;1.0-\n", 1) {
        Err(RunError::Parse { error, .. }) => assert_eq!(error, ParseError::NonNumeric),
        _ => panic!("expected an error"),
    }
}

#[test]
fn error_no_digits() {
    match aggregate(b"A;-.\n", 1) {
        Err(RunError::Parse { error, .. }) => assert_eq!(error, ParseError::NoDigits),
        _ => panic!("expected an error"),
    }
}

#[test]
fn error_out_of_range() {
    match aggregate(b"A;3276.8\n", 1) {
        Err(RunError::Parse { error, .. }) => assert_eq!(error, ParseError::OutOfRange),
        _ => panic!("expected an error"),
    }
    match aggregate(b"A;-99999999999.9\n", 1) {
        Err(RunError::Parse { error, .. }) => assert_eq!(error, ParseError::OutOfRange),
        _ => panic!("expected an error"),
    }
}

#[test]
fn error_unterminated_partition() {
    let src = b"A;1.0\nB;2";
    match parse_partition(src, 0, src.len(), false) {
        Err(e) => assert_eq!(e, ParseError::Unterminated),
        Ok(_) => panic!("expected an error"),
    }
    // A range that stops before the end of the input must end at a newline.
    match parse_range(src, PartitionRange { start: 0, end: 8 }) {
        Err(e) => assert_eq!(e, RunError::Parse { start: 0, error: ParseError::Unterminated }),
        Ok(_) => panic!("expected an error"),
    }
}

#[test]
fn error_range_outside_input() {
    let src = b"A;1.0\n";
    match parse_range(src, PartitionRange { start: 0, end: 7 }) {
        Err(e) => assert_eq!(e, RunError::Range { start: 0, end: 7 }),
        Ok(_) => panic!("expected an error"),
    }
    match parse_range(src, PartitionRange { start: 4, end: 2 }) {
        Err(e) => assert_eq!(e, RunError::Range { start: 4, end: 2 }),
        Ok(_) => panic!("expected an error"),
    }
}

#[test]
fn render_formats_tenths() {
    let text = report(b"Z;-0.5\nZ;0.0\nY;12.3\nY;-0.1\n", 1).unwrap();
    assert_eq!(String::from_utf8(text).unwrap(), "Z;-0.5;-0.3;0.0\nY;-0.1;6.1;12.3");
}

#[test]
fn first_error_is_reported() {
    match aggregate(b"A;1.0\nB;x\nC\n", 1) {
        Err(RunError::Parse { start, error }) => {
            assert_eq!(start, 0);
            assert_eq!(error, ParseError::NonNumeric);
        }
        _ => panic!("expected an error"),
    }
}
