use rain_radar_values::{DWDRainRadarValues, DecodeError, RainRadarValues};

const BASE: i64 = 1556806800;
const FRAME_BYTES: usize = 2640000;

fn absent_body() -> Vec<u8> {
    [0xc4u8, 0x29].repeat(FRAME_BYTES / 2)
}

fn set_cell(body: &mut [u8], x: usize, y: usize, value: u16) {
    let offset = 2 * (1100 * (1199 - y) + x);
    body[offset..offset + 2].copy_from_slice(&value.to_le_bytes());
}

fn member(time: &[u8], prediction: usize, body: &[u8]) -> Vec<u8> {
    let mut e = b"RV".to_vec();
    e.extend_from_slice(time);
    e.extend_from_slice(b"BY2640165VS 3SW   2.25.1PR E-02INT   5GP1200x1100");
    e.extend_from_slice(format!("VV {:03}", prediction * 5).as_bytes());
    e.extend_from_slice(b"MF 00000008MS  9<boo,eis>\x03");
    e.extend_from_slice(body);
    e
}

fn members(bodies: &[Vec<u8>]) -> Vec<Vec<u8>> {
    bodies.iter().enumerate().map(|(i, b)| member(b"021420100000519", i, b)).collect()
}

fn absent_members() -> Vec<Vec<u8>> {
    members(&vec![absent_body(); 25])
}

fn tar_bz2(entries: &[Vec<u8>]) -> Vec<u8> {
    let mut builder = tar::Builder::new(Vec::new());
    for (i, contents) in entries.iter().enumerate() {
        let mut header = tar::Header::new_gnu();
        header.set_size(contents.len() as u64);
        header.set_mode(0o644);
        header.set_cksum();
        builder.append_data(&mut header, format!("frame{i:02}"), &contents[..]).unwrap();
    }
    let tarball = builder.into_inner().unwrap();
    let mut encoder = bzip2::write::BzEncoder::new(Vec::new(), bzip2::Compression::fast());
    std::io::Write::write_all(&mut encoder, &tarball).unwrap();
    encoder.finish().unwrap()
}

#[test]
fn decode_archive_with_absent_borders() {
    let mut bodies = vec![absent_body(); 25];
    for (k, body) in bodies.iter_mut().enumerate() {
        for x in 5..1095 {
            for y in (5..1195).step_by(97) {
                set_cell(body, x, y, ((x + y + k) % 4096) as u16);
            }
        }
    }
    let values = DWDRainRadarValues::from_entries(members(&bodies)).unwrap();
    let times = values.available_times();
    assert_eq!(times.len(), 25);
    assert_eq!(times[0], BASE);
    assert_eq!(times[24], BASE + 7200);
    for time in times {
        let borders = [
            values.for_area(time, 0usize..5, 0usize..1200),
            values.for_area(time, 1095usize..1100, 0usize..1200),
            values.for_area(time, 0usize..1100, 0usize..5),
            values.for_area(time, 0usize..1100, 1195usize..1200),
        ];
        assert_eq!(borders[0].len(), 6000);
        assert_eq!(borders[2].len(), 5500);
        for border in borders.iter() {
            assert!(border.iter().all(|v| v.is_none()));
        }
        let all = values.for_area(time, 0usize..1100, 0usize..1200);
        assert_eq!(all.len(), 1100 * 1200);
        assert!(all.iter().any(|v| v.is_some()));
    }
}

#[test]
fn decode_time_information() {
    let values = DWDRainRadarValues::from_entries(absent_members()).unwrap();
    let information = values.time_information();
    assert_eq!(information.first_time, BASE);
    assert_eq!(information.available_time_slots, 25);
}

#[test]
fn decode_puts_row_zero_at_the_top() {
    let mut bodies = vec![absent_body(); 25];
    set_cell(&mut bodies[3], 7, 0, 42);
    set_cell(&mut bodies[3], 7, 1199, 43);
    // The first word of the body is the bottom-left cell.
    bodies[3][0] = 44;
    bodies[3][1] = 0;
    let values = DWDRainRadarValues::from_entries(members(&bodies)).unwrap();
    let t = BASE + 3 * 300;
    assert_eq!(values.for_area(t, 7usize..8, 0usize..1), vec![Some(42)]);
    assert_eq!(values.for_area(t, 7usize..8, 1199usize..1200), vec![Some(43)]);
    assert_eq!(values.for_area(t, 0usize..1, 1199usize..1200), vec![Some(44)]);
    assert_eq!(values.for_area(BASE, 7usize..8, 0usize..1), vec![None]);
}

#[test]
fn for_area_walks_a_non_square_rectangle_row_by_row() {
    let mut bodies = vec![absent_body(); 25];
    for x in 10..13 {
        for y in 20..22 {
            set_cell(&mut bodies[0], x, y, (100 * x + y) as u16);
        }
    }
    let values = DWDRainRadarValues::from_entries(members(&bodies)).unwrap();
    assert_eq!(
        values.for_area(BASE, 10usize..13, 20usize..22),
        vec![Some(1020), Some(1120), Some(1220), Some(1021), Some(1121), Some(1221)]
    );
    let xs: Vec<usize> = vec![12, 10];
    assert_eq!(values.for_area(BASE, xs, 21usize..22), vec![Some(1221), Some(1021)]);
}

#[test]
fn decode_rejects_a_wrong_entry_count() {
    let mut entries = absent_members();
    entries.pop();
    assert!(matches!(
        DWDRainRadarValues::from_entries(entries),
        Err(DecodeError::WrongEntryCount { count: 24 })
    ));
    assert!(matches!(
        DWDRainRadarValues::from_entries(Vec::new()),
        Err(DecodeError::WrongEntryCount { count: 0 })
    ));
}

#[test]
fn decode_rejects_disagreeing_times() {
    let mut entries = absent_members();
    entries[7] = member(b"021425100000519", 7, &absent_body());
    assert!(matches!(DWDRainRadarValues::from_entries(entries), Err(DecodeError::TimeMismatch)));
}

#[test]
fn decode_rejects_a_day_that_does_not_exist() {
    let entries: Vec<Vec<u8>> =
        (0..25).map(|i| member(b"301420100000219", i, &absent_body())).collect();
    assert!(matches!(DWDRainRadarValues::from_entries(entries), Err(DecodeError::InvalidTime)));
}

#[test]
fn decode_rejects_a_wrong_body_length() {
    let mut entries = absent_members();
    entries[4].pop();
    assert!(matches!(
        DWDRainRadarValues::from_entries(entries),
        Err(DecodeError::WrongBodyLength { length: 2639999 })
    ));
}

#[test]
fn decode_rejects_a_wrong_prediction_time() {
    let mut entries = absent_members();
    entries[2] = member(b"021420100000519", 3, &absent_body());
    assert!(matches!(
        DWDRainRadarValues::from_entries(entries),
        Err(DecodeError::WrongPredictionTime { index: 2, prediction_time: 15 })
    ));
}

#[test]
fn decode_rejects_values_above_4095() {
    let mut bodies = vec![absent_body(); 25];
    set_cell(&mut bodies[24], 500, 600, 4095);
    assert!(DWDRainRadarValues::from_entries(members(&bodies)).is_ok());
    set_cell(&mut bodies[24], 500, 601, 4096);
    assert!(matches!(
        DWDRainRadarValues::from_entries(members(&bodies)),
        Err(DecodeError::ValueOutOfRange)
    ));
}

#[test]
fn decode_reports_the_first_faulty_member() {
    let mut entries = absent_members();
    entries[5][0] = b'X';
    entries[9][1] = b'X';
    entries.pop();
    assert!(matches!(
        DWDRainRadarValues::from_entries(entries),
        Err(DecodeError::WrongProductCode)
    ));
}

#[test]
fn archive_that_is_no_bzip2() {
    assert!(matches!(
        DWDRainRadarValues::from_archive(b"this is not bzip2"),
        Err(DecodeError::Archive(_))
    ));
}

#[test]
fn archive_members_reach_the_decoder_in_order() {
    let short = vec![
        member(b"021420100000519", 0, b"body"),
        member(b"021420100000519", 1, b"body"),
    ];
    assert!(matches!(
        DWDRainRadarValues::from_archive(&tar_bz2(&short)),
        Err(DecodeError::WrongBodyLength { length: 4 })
    ));
    let swapped = vec![member(b"021420100000519", 1, b"")];
    assert!(matches!(
        DWDRainRadarValues::from_archive(&tar_bz2(&swapped)),
        Err(DecodeError::WrongPredictionTime { index: 0, prediction_time: 5 })
    ));
    assert!(matches!(
        DWDRainRadarValues::from_archive(&tar_bz2(&[])),
        Err(DecodeError::WrongEntryCount { count: 0 })
    ));
}

#[test]
fn archive_of_zero_frames_round_trips_through_bzip2_and_tar() {
    let zero_body = vec![0u8; FRAME_BYTES];
    let entries = members(&vec![zero_body; 25]);
    let values = DWDRainRadarValues::from_archive(&tar_bz2(&entries)).unwrap();
    assert_eq!(values.time_information().first_time, BASE);
    let times = values.available_times();
    assert_eq!(times.len(), 25);
    for time in [times[0], times[12], times[24]] {
        let cells = values.for_area(time, 0usize..1100, 0usize..1200);
        assert!(cells.iter().all(|v| *v == Some(0)));
    }
    let compressed = rain_radar_values::CompressedRainRadarValues::from_rain_radar_values(&values);
    let data = compressed.data();
    assert_eq!(data.len(), 6608);
    assert!(data[8..6608].chunks(2).all(|tag| tag == [0xff, 0x7f]));
}

fn first_time_of_header(time: &[u8]) -> Result<i64, DecodeError> {
    let entries: Vec<Vec<u8>> = (0..25).map(|i| member(time, i, &absent_body())).collect();
    DWDRainRadarValues::from_entries(entries).map(|v| v.time_information().first_time)
}

#[test]
fn decode_base_time_follows_the_gregorian_calendar() {
    // DD HH MM WMO MOMO YY
    assert_eq!(first_time_of_header(b"290005100000200").unwrap(), 951782700);
    assert_eq!(first_time_of_header(b"312355100001299").unwrap(), 4102444500);
    assert_eq!(first_time_of_header(b"010000100000100").unwrap(), 946684800);
    assert!(matches!(first_time_of_header(b"010000100001300"), Err(DecodeError::InvalidTime)));
    assert!(matches!(first_time_of_header(b"312400100000100"), Err(DecodeError::InvalidTime)));
    assert!(matches!(first_time_of_header(b"010060100000100"), Err(DecodeError::InvalidTime)));
    assert!(matches!(first_time_of_header(b"310000100000400"), Err(DecodeError::InvalidTime)));
    assert!(matches!(first_time_of_header(b"000000100000100"), Err(DecodeError::InvalidTime)));
}

#[test]
fn archive_whose_contents_are_no_tar() {
    let mut encoder = bzip2::write::BzEncoder::new(Vec::new(), bzip2::Compression::fast());
    std::io::Write::write_all(&mut encoder, &[0x41u8; 700]).unwrap();
    let data = encoder.finish().unwrap();
    assert!(matches!(DWDRainRadarValues::from_archive(&data), Err(DecodeError::Archive(_))));
    assert!(matches!(
        DWDRainRadarValues::from_archive(&data[..data.len() / 2]),
        Err(DecodeError::Archive(_))
    ));
}

/// A GNU sparse member whose base-256 size is 2^64 - 1024, with one
/// extension block: its next header offset lies at the edge of a u64.
fn sparse_member_at_the_edge_of_u64() -> Vec<u8> {
    let mut header = [0u8; 512];
    header[0] = b'x';
    header[100..108].copy_from_slice(b"0000644\0");
    header[108..116].copy_from_slice(b"0000000\0");
    header[116..124].copy_from_slice(b"0000000\0");
    header[124] = 0x80;
    header[128..136].copy_from_slice(&(u64::MAX - 1023).to_be_bytes());
    header[136..148].copy_from_slice(b"00000000000\0");
    header[156] = b'S';
    header[257..263].copy_from_slice(b"ustar ");
    header[263..265].copy_from_slice(b" \0");
    header[482] = 1;
    header[483..495].copy_from_slice(b"00000000000\0");
    header[148..156].copy_from_slice(b"        ");
    let sum: u32 = header.iter().map(|b| *b as u32).sum();
    header[148..156].copy_from_slice(format!("{sum:06o}\0 ").as_bytes());
    let mut archive = header.to_vec();
    archive.extend_from_slice(&[0u8; 1024]);
    archive
}

#[test]
fn archive_with_an_overflowing_sparse_member_is_an_error() {
    let tarball = sparse_member_at_the_edge_of_u64();
    assert_eq!(tarball.len(), 1536);
    let mut encoder = bzip2::write::BzEncoder::new(Vec::new(), bzip2::Compression::fast());
    std::io::Write::write_all(&mut encoder, &tarball).unwrap();
    let data = encoder.finish().unwrap();
    assert!(matches!(DWDRainRadarValues::from_archive(&data), Err(DecodeError::Archive(_))));
}
