use onebrc::aggregate::PartitionAggregate;
use onebrc::record::{parse_record, ParseError};
use onebrc::render::push_tenths;

#[test]
fn record_splits_key_and_value() {
    let line = b"St. John's;-12.7";
    assert_eq!(parse_record(line, 0, line.len()), Ok((10, -127)));
}

#[test]
fn record_errors() {
    let line = b"A1.0";
    assert_eq!(parse_record(line, 0, line.len()), Err(ParseError::MissingDelimiter));
    let line = b"A;";
    assert_eq!(parse_record(line, 0, line.len()), Err(ParseError::NoDigits));
    let line = b"A;1;0";
    assert_eq!(parse_record(line, 0, line.len()), Err(ParseError::NonNumeric));
}

#[test]
fn tenths_rendering() {
    let cases: [(i16, &str); 6] =
        [(0, "0.0"), (-5, "-0.5"), (32, "3.2"), (-55, "-5.5"), (32767, "3276.7"), (-32768, "-3276.8")];
    for (v, text) in cases.iter() {
        let mut out = Vec::new();
        push_tenths(&mut out, *v);
        assert_eq!(String::from_utf8(out).unwrap(), *text);
    }
}

#[test]
fn partition_aggregate_widens_extremes() {
    let src = b"keykey";
    let mut a = PartitionAggregate::new();
    a.add(src, 0, 3, 10);
    a.add(src, 3, 6, -20);
    a.add(src, 0, 3, 40);
    assert_eq!(a.len(), 1);
    assert_eq!(a.get(b"key"), Some((-20, 40)));
    assert_eq!(a.get(b"other"), None);
}
