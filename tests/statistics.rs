use rain_radar_values::{combine, frame_statistics, RadarStatistics, DWDRainRadarValues};

const BASE: i64 = 1556806800;
const FRAME_BYTES: usize = 2640000;

fn absent_body() -> Vec<u8> {
    [0xc4u8, 0x29].repeat(FRAME_BYTES / 2)
}

fn set_cell(body: &mut [u8], x: usize, y: usize, value: u16) {
    let offset = 2 * (1100 * (1199 - y) + x);
    body[offset..offset + 2].copy_from_slice(&value.to_le_bytes());
}

fn member(prediction: usize, body: &[u8]) -> Vec<u8> {
    let mut e = b"RV021420100000519".to_vec();
    e.extend_from_slice(b"BY2640165VS 3SW   2.25.1PR E-02INT   5GP1200x1100");
    e.extend_from_slice(format!("VV {:03}", prediction * 5).as_bytes());
    e.extend_from_slice(b"MF 00000008MS  9<boo,eis>\x03");
    e.extend_from_slice(body);
    e
}

#[test]
fn statistics_of_one_frame() {
    let mut bodies = vec![absent_body(); 25];
    for x in 0..100 {
        for y in 0..100 {
            set_cell(&mut bodies[1], x, y, 0);
        }
    }
    set_cell(&mut bodies[1], 500, 500, 300);
    set_cell(&mut bodies[1], 501, 500, 7);
    set_cell(&mut bodies[1], 900, 100, 255);
    let entries = bodies.iter().enumerate().map(|(i, b)| member(i, b)).collect();
    let values = DWDRainRadarValues::from_entries(entries).unwrap();
    let r = frame_statistics(&values, BASE + 300);
    assert_eq!(r.min_available_data_points, 10003);
    assert_eq!(r.max_available_data_points, 10003);
    assert_eq!(r.min_rain_value, 0);
    assert_eq!(r.min_rain_value_except_0, 7);
    assert_eq!(r.max_rain_value, 300);
    assert_eq!(r.non_zero_values, 3);
    assert_eq!(r.values_greater_255, 1);
    assert_eq!(r.blocks_of_100, 132);
    assert_eq!(r.blocks_of_100_with_no_values, 129);
    assert_eq!(r.blocks_of_100_with_only_zero_values, 1);
    assert_eq!(r.blocks_of_100_with_values_greater_254, 2);

    let empty = frame_statistics(&values, BASE);
    assert_eq!(empty.min_available_data_points, 0);
    assert_eq!(empty.min_rain_value, u16::MAX);
    assert_eq!(empty.max_rain_value, 0);
    assert_eq!(empty.blocks_of_100_with_no_values, 132);
}

#[test]
fn statistics_combine() {
    let a = RadarStatistics {
        min_available_data_points: 10,
        max_available_data_points: 10,
        min_rain_value: 3,
        min_rain_value_except_0: 3,
        max_rain_value: 40,
        non_zero_values: 5,
        values_greater_255: 0,
        blocks_of_100: 132,
        blocks_of_100_with_no_values: 100,
        blocks_of_100_with_only_zero_values: 2,
        blocks_of_100_with_values_greater_254: 0,
    };
    let b = RadarStatistics {
        min_available_data_points: 4,
        max_available_data_points: 4,
        min_rain_value: 0,
        min_rain_value_except_0: 9,
        max_rain_value: 400,
        non_zero_values: 2,
        values_greater_255: 1,
        blocks_of_100: 132,
        blocks_of_100_with_no_values: 120,
        blocks_of_100_with_only_zero_values: 0,
        blocks_of_100_with_values_greater_254: 1,
    };
    let r = combine(a, b);
    assert_eq!(r.min_available_data_points, 4);
    assert_eq!(r.max_available_data_points, 10);
    assert_eq!(r.min_rain_value, 0);
    assert_eq!(r.min_rain_value_except_0, 3);
    assert_eq!(r.max_rain_value, 400);
    assert_eq!(r.non_zero_values, 7);
    assert_eq!(r.values_greater_255, 1);
    assert_eq!(r.blocks_of_100, 264);
    assert_eq!(r.blocks_of_100_with_no_values, 220);
    assert_eq!(r.blocks_of_100_with_only_zero_values, 2);
    assert_eq!(r.blocks_of_100_with_values_greater_254, 1);
}
