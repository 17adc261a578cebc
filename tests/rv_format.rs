use rain_radar_values::rv_format::{parse_header_time, parse_number, parse_records};
use rain_radar_values::{DecodeError, WallTime};

const HEADER_TIME: &[u8] = b"RV021420100000519";

fn header(records: &[u8]) -> Vec<u8> {
    let mut e = HEADER_TIME.to_vec();
    e.extend_from_slice(records);
    e
}

#[test]
fn parse_number_trims_and_reads_digits() {
    assert_eq!(parse_number(b"  5", 0, 3), Some(5));
    assert_eq!(parse_number(b"05", 0, 2), Some(5));
    assert_eq!(parse_number(b"+12 ", 0, 4), Some(12));
    assert_eq!(parse_number(b"\t7\n", 0, 3), Some(7));
    assert_eq!(parse_number(b"x123y", 1, 4), Some(123));
    assert_eq!(parse_number(b"4294967295", 0, 10), Some(u32::MAX));
}

#[test]
fn parse_number_rejects_what_is_no_number() {
    assert_eq!(parse_number(b"", 0, 0), None);
    assert_eq!(parse_number(b"   ", 0, 3), None);
    assert_eq!(parse_number(b"+", 0, 1), None);
    assert_eq!(parse_number(b"-5", 0, 2), None);
    assert_eq!(parse_number(b"5a", 0, 2), None);
    assert_eq!(parse_number(b"1 2", 0, 3), None);
    assert_eq!(parse_number(b"4294967296", 0, 10), None);
}

#[test]
fn header_time_fields() {
    let t = parse_header_time(HEADER_TIME).unwrap();
    assert_eq!(t, WallTime { year: 19, month: 5, day: 2, hour: 14, minute: 20 });
}

#[test]
fn header_time_faults() {
    assert!(matches!(parse_header_time(b"R"), Err(DecodeError::Truncated)));
    assert!(matches!(parse_header_time(b"RX021420100000519"), Err(DecodeError::WrongProductCode)));
    assert!(matches!(parse_header_time(b"RV0214201000005"), Err(DecodeError::Truncated)));
    assert!(matches!(parse_header_time(b"RV02142010x000519"), Err(DecodeError::NotAnInteger)));
}

#[test]
fn records_up_to_etx() {
    let mut e = header(b"BY2640165VS 3SW   2.25.1PR E-02INT   5GP1200x1100VV 010MF 00000008MS  9<boo,eis>\x03");
    let body_start = e.len();
    e.extend_from_slice(&[1, 2, 3]);
    assert_eq!(parse_records(&e, 17, 2).unwrap(), body_start);
}

#[test]
fn records_faults() {
    let cases: Vec<(&[u8], usize)> = vec![
        (b"VS 4\x03", 0),
        (b"PR E-03\x03", 0),
        (b"GP1100x1200\x03", 0),
        (b"VV 005\x03", 0),
        (b"INT  10\x03", 0),
        (b"XYZ\x03", 0),
        (b"VS3\x03", 0),
        (b"BY26x0165\x03", 0),
        (b"MS 20short\x03", 0),
        (b"VV 000", 0),
    ];
    let faults: Vec<Result<usize, DecodeError>> =
        cases.iter().map(|(r, index)| parse_records(&header(r), 17, *index)).collect();
    assert!(matches!(faults[0], Err(DecodeError::UnsupportedVersion { version: 4 })));
    assert!(matches!(faults[1], Err(DecodeError::UnsupportedPrecision)));
    assert!(matches!(faults[2], Err(DecodeError::UnsupportedResolution)));
    assert!(matches!(
        faults[3],
        Err(DecodeError::WrongPredictionTime { index: 0, prediction_time: 5 })
    ));
    assert!(matches!(faults[4], Err(DecodeError::WrongInterval { interval: 10 })));
    assert!(matches!(faults[5], Err(DecodeError::UnknownRecord)));
    assert!(matches!(faults[6], Err(DecodeError::MissingSpace)));
    assert!(matches!(faults[7], Err(DecodeError::NotAnInteger)));
    assert!(matches!(faults[8], Err(DecodeError::Truncated)));
    assert!(matches!(faults[9], Err(DecodeError::Truncated)));
}

#[test]
fn prediction_time_follows_the_frame_index() {
    let e = header(b"VV 120\x03");
    assert_eq!(parse_records(&e, 17, 24).unwrap(), e.len());
    assert!(matches!(
        parse_records(&e, 17, 23),
        Err(DecodeError::WrongPredictionTime { index: 23, prediction_time: 120 })
    ));
}

#[test]
fn parse_number_trims_unicode_white_space() {
    // U+00A0 NO-BREAK SPACE, then "1"
    assert_eq!(parse_number(b"\xc2\xa01", 0, 3), Some(1));
    // U+0085 before, U+3000 IDEOGRAPHIC SPACE after
    assert_eq!(parse_number(b"\xc2\x8542\xe3\x80\x80", 0, 7), Some(42));
    // U+1680, U+2000, U+200A, U+2028, U+2029, U+202F, U+205F around digits
    assert_eq!(parse_number(b"\xe1\x9a\x80\xe2\x80\x80+9\xe2\x80\x8a", 0, 11), Some(9));
    assert_eq!(parse_number(b"\xe2\x80\xa87\xe2\x80\xa9", 0, 7), Some(7));
    assert_eq!(parse_number(b"\xe2\x80\xaf3\xe2\x81\x9f", 0, 7), Some(3));
}

#[test]
fn parse_number_keeps_what_trim_keeps() {
    // U+200B ZERO WIDTH SPACE is no white space.
    assert_eq!(parse_number(b"1\xe2\x80\x8b", 0, 4), None);
    // A lone lead byte is no UTF-8.
    assert_eq!(parse_number(b"\xc21", 0, 2), None);
    // U+00A0 inside the number
    assert_eq!(parse_number(b"1\xc2\xa02", 0, 4), None);
    // U+001F is no white space either.
    assert_eq!(parse_number(b"\x1f5", 0, 2), None);
}

#[test]
fn header_fields_with_unicode_white_space() {
    let t = parse_header_time(b"RV021420\xc2\xa01000519").unwrap();
    assert_eq!(t, WallTime { year: 19, month: 5, day: 2, hour: 14, minute: 20 });
    let e = header(b"BY\xe3\x80\x802640MF \xc2\xa0000008INT\xc2\xa0 5\x03");
    assert_eq!(parse_records(&e, 17, 0).unwrap(), e.len());
    let only_space = header(b"INT\xc2\xa0\xc2\xa0\x03");
    assert!(matches!(parse_records(&only_space, 17, 0), Err(DecodeError::NotAnInteger)));
}
