use crate::cross_product::{cross, Range};
use vstd::prelude::*;

verus! {

/// Width of a frame in cells (the x axis).
pub const GRID_WIDTH: usize = 1100;

/// Height of a frame in cells (the y axis, row zero at the top).
pub const GRID_HEIGHT: usize = 1200;

/// Number of time slots of an archive.
pub const TIME_SLOTS: usize = 25;

/// Seconds between two time slots.
pub const SLOT_SECONDS: i64 = 300;

/// Largest intensity a present cell can hold.
pub const MAX_INTENSITY: u16 = 4095;

/// Latest first time for which every slot time fits in an `i64`.
pub const LAST_FIRST_TIME: i64 = 9223372036854768607;

/// Times are UNIX seconds of a naive UTC wall-clock time.
pub struct TimeInformation {
    pub first_time: i64,
    pub available_time_slots: u32,
}

/// The slot that `time` falls on when slots start at `first_time`, if it
/// falls on one: a whole number of five-minute steps, fewer than 25.
pub open spec fn slot_of(first_time: i64, time: i64) -> Option<int> {
    let d = time - first_time;
    if 0 <= d && d % (SLOT_SECONDS as int) == 0 && d / (SLOT_SECONDS as int) < TIME_SLOTS {
        Some(d / (SLOT_SECONDS as int))
    } else {
        None
    }
}

/// The time of slot `k`.
pub open spec fn slot_time(first_time: i64, k: int) -> int {
    first_time + SLOT_SECONDS * k
}

/// Law of time alignment: a time falls on a slot exactly when it is one of
/// the 25 slot times, the first time plus a whole number of five-minute steps
/// up to 120 minutes. A time that is no whole number of five-minute steps
/// from the first time, or that lies before it or more than 120 minutes after
/// it, falls on no slot; `for_area` requires a time that falls on a slot, so
/// such a call is refused.
pub proof fn lemma_slot_times(first_time: i64, time: i64)
    ensures
        slot_of(first_time, time) is Some <==> exists|k: int|
            0 <= k < TIME_SLOTS && time == #[trigger] slot_time(first_time, k),
        slot_of(first_time, time) matches Some(k) ==> time == slot_time(first_time, k),
        (time - first_time) % (SLOT_SECONDS as int) != 0 ==> slot_of(first_time, time) is None,
        time < first_time ==> slot_of(first_time, time) is None,
        time > first_time + 120 * 60 ==> slot_of(first_time, time) is None,
{
    let d = time - first_time;
    if slot_of(first_time, time) is Some {
        vstd::arithmetic::div_mod::lemma_fundamental_div_mod(d, 300);
        assert(time == slot_time(first_time, d / 300));
    }
    if exists|k: int| 0 <= k < TIME_SLOTS && time == #[trigger] slot_time(first_time, k) {
        let k = choose|k: int| 0 <= k < TIME_SLOTS && time == #[trigger] slot_time(first_time, k);
        vstd::arithmetic::div_mod::lemma_fundamental_div_mod_converse(d, 300, k, 0);
    }
}

/// Whether every index of `r` is below `bound`.
pub open spec fn indices_below<R: Range>(r: &R, bound: usize) -> bool {
    forall|i: int| 0 <= i < r.indices().len() ==> #[trigger] r.indices()[i] < bound
}

/// Whether `(slot, x, y)` names a cell of an archive.
pub open spec fn in_grid(slot: int, x: int, y: int) -> bool {
    0 <= slot < TIME_SLOTS && 0 <= x < GRID_WIDTH && 0 <= y < GRID_HEIGHT
}

/// Whether a cell is absent or holds a valid intensity.
pub open spec fn valid_cell(v: Option<u16>) -> bool {
    v matches Some(w) ==> w <= MAX_INTENSITY
}

/// The slot of `time`: `None` unless `time` is the first time plus a whole
/// number of five-minute steps, fewer than 25.
pub fn time_slot(first_time: i64, time: i64) -> (r: Option<usize>)
    ensures
        match slot_of(first_time, time) {
            Some(k) => r == Some(k as usize),
            None => r is None,
        },
{
    let d: i128 = time as i128 - first_time as i128;
    if d < 0 || d % 300 != 0 || d / 300 >= 25 {
        None
    } else {
        Some((d / 300) as usize)
    }
}

/// The times of the 25 slots, in ascending order.
pub fn slot_times(first_time: i64) -> (r: Vec<i64>)
    requires
        first_time <= LAST_FIRST_TIME,
    ensures
        r@.len() == TIME_SLOTS,
        forall|k: int| 0 <= k < TIME_SLOTS ==> #[trigger] r@[k] == slot_time(first_time, k),
{
    let mut r: Vec<i64> = Vec::new();
    let mut k: usize = 0;
    while k < TIME_SLOTS
        invariant
            k <= TIME_SLOTS,
            first_time <= LAST_FIRST_TIME,
            r@.len() == k,
            forall|j: int| 0 <= j < k ==> #[trigger] r@[j] == slot_time(first_time, j),
        decreases TIME_SLOTS - k,
    {
        r.push(first_time + SLOT_SECONDS * (k as i64));
        k = k + 1;
    }
    r
}

/// The colour of a cell in a bitmap: grey where absent, a shade of blue
/// that darkens with the intensity up to 255, red above.
pub fn pixel_color(value: Option<u16>) -> (r: (u8, u8, u8))
    ensures
        r == match value {
            None => (0x99u8, 0x99u8, 0x99u8),
            Some(v) => if v <= 255 {
                ((255 - v) as u8, (255 - v) as u8, 0xffu8)
            } else {
                (0xffu8, 0u8, 0u8)
            },
        },
{
    match value {
        None => (0x99, 0x99, 0x99),
        Some(v) => if v <= 255 {
            let shade = (255 - v) as u8;
            (shade, shade, 0xff)
        } else {
            (0xff, 0, 0)
        },
    }
}

/// A grid of optional intensities over 25 five-minute slots, 1100 cells wide
/// and 1200 high, read by rectangles.
pub trait RainRadarValues {
    /// Whether the grid holds 25 full frames of valid cells.
    spec fn wf(&self) -> bool;

    /// The time of the first slot.
    spec fn base_time(&self) -> i64;

    /// The cell at `(x, y)` in slot `slot`.
    spec fn cell(&self, slot: int, x: int, y: int) -> Option<u16>;

    /// A well-formed grid has slot times that fit in an `i64`, and only valid cells.
    proof fn lemma_wf(&self)
        requires
            self.wf(),
        ensures
            self.base_time() <= LAST_FIRST_TIME,
            forall|k: int, x: int, y: int|
                in_grid(k, x, y) ==> valid_cell(#[trigger] self.cell(k, x, y)),
    ;

    fn time_information(&self) -> (r: TimeInformation)
        requires
            self.wf(),
        ensures
            r.first_time == self.base_time(),
            r.available_time_slots == TIME_SLOTS,
    ;

    /// The cells of the rectangle `x` by `y` at `time`, in cross product
    /// order: for each `y`, every `x`.
    fn for_area<X: Range, Y: Range>(&self, time: i64, x: X, y: Y) -> (r: Vec<Option<u16>>)
        requires
            self.wf(),
            slot_of(self.base_time(), time) is Some,
            indices_below(&x, GRID_WIDTH),
            indices_below(&y, GRID_HEIGHT),
        ensures
            r@ == cross(x.indices(), y.indices()).map_values(
                |p: (usize, usize)|
                    self.cell(slot_of(self.base_time(), time)->0, p.0 as int, p.1 as int),
            ),
            forall|i: int| 0 <= i < r@.len() ==> valid_cell(#[trigger] r@[i]),
    ;

    /// The times of the 25 slots, in ascending order.
    fn available_times(&self) -> (r: Vec<i64>)
        requires
            self.wf(),
        ensures
            r@.len() == TIME_SLOTS,
            forall|k: int|
                0 <= k < TIME_SLOTS ==> #[trigger] r@[k] == slot_time(self.base_time(), k),
    {
        let information = self.time_information();
        proof {
            self.lemma_wf();
        }
        slot_times(information.first_time)
    }
}

} // verus!
