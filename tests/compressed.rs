use rain_radar_values::{CompressedRainRadarValues, DWDRainRadarValues, RainRadarValues};

const BASE: i64 = 1556806800;
const FRAME_BYTES: usize = 2640000;

fn absent_body() -> Vec<u8> {
    [0xc4u8, 0x29].repeat(FRAME_BYTES / 2)
}

fn set_cell(body: &mut [u8], x: usize, y: usize, value: u16) {
    let offset = 2 * (1100 * (1199 - y) + x);
    body[offset..offset + 2].copy_from_slice(&value.to_le_bytes());
}

fn member(prediction: usize, body: &[u8]) -> Vec<u8> {
    let mut e = b"RV021420100000519".to_vec();
    e.extend_from_slice(b"BY2640165VS 3SW   2.25.1PR E-02INT   5GP1200x1100");
    e.extend_from_slice(format!("VV {:03}", prediction * 5).as_bytes());
    e.extend_from_slice(b"MF 00000008MS  9<boo,eis>\x03");
    e.extend_from_slice(body);
    e
}

fn decode(bodies: &[Vec<u8>]) -> DWDRainRadarValues {
    let entries = bodies.iter().enumerate().map(|(i, b)| member(i, b)).collect();
    DWDRainRadarValues::from_entries(entries).unwrap()
}

fn tag(data: &[u8], k: usize, xb: usize, yb: usize) -> u16 {
    let at = 8 + 2 * (12 * (11 * k + xb) + yb);
    u16::from_le_bytes([data[at], data[at + 1]])
}

/// Blocks of every kind: absent, zero, one byte and two bytes per cell.
fn mixed_bodies() -> Vec<Vec<u8>> {
    let mut bodies = vec![absent_body(); 25];
    for (k, body) in bodies.iter_mut().enumerate() {
        for x in 0..1100 {
            for y in 0..1200 {
                let kind = (x / 100 + y / 100 + k) % 4;
                let value = match kind {
                    0 => None,
                    1 => Some(0),
                    2 if (x + y) % 7 == 0 => None,
                    2 => Some(((x * 3 + y + k) % 255) as u16),
                    _ if (x * y) % 11 == 0 => None,
                    _ => Some(((x * y + k) % 4096) as u16),
                };
                if let Some(v) = value {
                    set_cell(body, x, y, v);
                }
            }
        }
    }
    bodies
}

#[test]
fn encode_all_absent_grid() {
    let values = decode(&vec![absent_body(); 25]);
    let compressed = CompressedRainRadarValues::from_rain_radar_values(&values);
    let data = compressed.data();
    assert_eq!(data.len(), 6608);
    assert!(data[8..6608].iter().all(|b| *b == 0xff));
    assert_eq!(i64::from_le_bytes(data[0..8].try_into().unwrap()), BASE);
    for time in compressed.available_times() {
        assert!(compressed.for_area(time, 0usize..1100, 0usize..1200).iter().all(|v| v.is_none()));
    }
}

#[test]
fn encode_a_single_wide_cell() {
    let mut bodies = vec![absent_body(); 25];
    set_cell(&mut bodies[2], 345, 678, 300);
    let values = decode(&bodies);
    let compressed = CompressedRainRadarValues::from_rain_radar_values(&values);
    let data = compressed.data();
    assert_eq!(data.len(), 6608 + 20000);
    let t = tag(data, 2, 3, 6);
    assert_eq!(t, 0x8000);
    assert_eq!(t & 0x7fff, 0);
    for k in 0..25 {
        for xb in 0..11 {
            for yb in 0..12 {
                if (k, xb, yb) != (2, 3, 6) {
                    assert_eq!(tag(data, k, xb, yb), 0xffff);
                }
            }
        }
    }
    let t2 = BASE + 600;
    assert_eq!(compressed.for_area(t2, 345usize..346, 678usize..679), vec![Some(300)]);
    assert_eq!(compressed.for_area(t2, 344usize..345, 678usize..679), vec![None]);
    assert_eq!(u16::from_le_bytes([data[6608 + 2 * (7800 + 45)], data[6609 + 2 * (7800 + 45)]]), 300);
}

#[test]
fn encode_zero_and_narrow_blocks() {
    let mut bodies = vec![absent_body(); 25];
    for x in 100..200 {
        for y in 0..100 {
            set_cell(&mut bodies[0], x, y, 0);
        }
    }
    set_cell(&mut bodies[0], 1050, 1150, 17);
    set_cell(&mut bodies[1], 0, 0, 254);
    set_cell(&mut bodies[1], 1, 0, 0);
    let values = decode(&bodies);
    let compressed = CompressedRainRadarValues::from_rain_radar_values(&values);
    let data = compressed.data();
    assert_eq!(tag(data, 0, 1, 0), 0x7fff);
    assert_eq!(tag(data, 0, 10, 11), 0);
    assert_eq!(tag(data, 1, 0, 0), 1);
    assert_eq!(data.len(), 6608 + 2 * 10000);
    assert_eq!(data[6608 + 5000 + 50], 17);
    assert_eq!(data[6608 + 10000], 254);
    assert_eq!(data[6608 + 10000 + 1], 0);
    assert_eq!(data[6608 + 10000 + 2], 0xff);
    assert_eq!(compressed.for_area(BASE, 150usize..152, 50usize..51), vec![Some(0), Some(0)]);
    assert_eq!(compressed.for_area(BASE + 300, 0usize..3, 0usize..1), vec![Some(254), Some(0), None]);
}

#[test]
fn encode_round_trip_on_every_cell() {
    let values = decode(&mixed_bodies());
    let compressed = CompressedRainRadarValues::from_rain_radar_values(&values);
    assert_eq!(compressed.available_times(), values.available_times());
    assert_eq!(compressed.time_information().first_time, BASE);
    for time in values.available_times() {
        let original = values.for_area(time, 0usize..1100, 0usize..1200);
        let read_back = compressed.for_area(time, 0usize..1100, 0usize..1200);
        assert_eq!(original.len(), 1100 * 1200);
        assert!(original == read_back, "slot at {time} differs");
    }
}

#[test]
fn encoded_length_counts_payload_units() {
    let values = decode(&mixed_bodies());
    let compressed = CompressedRainRadarValues::from_rain_radar_values(&values);
    let data = compressed.data();
    let mut units = 0usize;
    for k in 0..25 {
        for xb in 0..11 {
            for yb in 0..12 {
                let t = tag(data, k, xb, yb);
                if t != 0xffff && t != 0x7fff {
                    assert_eq!((t & 0x7fff) as usize, units);
                    units += if t & 0x8000 != 0 { 2 } else { 1 };
                    assert!(6608 + 10000 * units <= data.len());
                }
            }
        }
    }
    assert_eq!(data.len(), 6608 + 10000 * units);
}
