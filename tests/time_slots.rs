use rain_radar_values::{pixel_color, slot_times, time_slot};

const BASE: i64 = 1556806800;

#[test]
fn time_slot_of_aligned_times() {
    assert_eq!(time_slot(BASE, BASE), Some(0));
    assert_eq!(time_slot(BASE, BASE + 300), Some(1));
    assert_eq!(time_slot(BASE, BASE + 120 * 60), Some(24));
}

#[test]
fn time_slot_rejects_misaligned_times() {
    assert_eq!(time_slot(BASE, BASE + 1), None);
    assert_eq!(time_slot(BASE, BASE + 150), None);
    assert_eq!(time_slot(BASE, BASE + 299), None);
}

#[test]
fn time_slot_rejects_times_outside_the_archive() {
    assert_eq!(time_slot(BASE, BASE - 300), None);
    assert_eq!(time_slot(BASE, BASE + 125 * 60), None);
    assert_eq!(time_slot(i64::MAX, i64::MIN), None);
    assert_eq!(time_slot(i64::MIN, i64::MAX), None);
}

#[test]
fn slot_times_are_five_minutes_apart() {
    let times = slot_times(BASE);
    assert_eq!(times.len(), 25);
    for (k, t) in times.iter().enumerate() {
        assert_eq!(*t, BASE + 300 * k as i64);
    }
    assert_eq!(times[24], BASE + 7200);
}

#[test]
fn pixel_colors() {
    assert_eq!(pixel_color(None), (0x99, 0x99, 0x99));
    assert_eq!(pixel_color(Some(0)), (0xff, 0xff, 0xff));
    assert_eq!(pixel_color(Some(55)), (200, 200, 0xff));
    assert_eq!(pixel_color(Some(255)), (0, 0, 0xff));
    assert_eq!(pixel_color(Some(256)), (0xff, 0, 0));
    assert_eq!(pixel_color(Some(4095)), (0xff, 0, 0));
}
