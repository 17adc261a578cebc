//! RV archives as published by the DWD: 25 frames of 1100 x 1200
//! little-endian cells, stored bottom row first.
use crate::archive::{
    bzip2_decompress, bzip2_decompressed, civil_seconds, tar_member_contents, tar_members,
    utc_seconds,
};
use crate::cross_product::{cross, cross_product, lemma_cross_bounded, Range};
use crate::rain_radar_values::{
    in_grid, slot_of, time_slot, valid_cell, RainRadarValues, TimeInformation,
    GRID_HEIGHT, GRID_WIDTH, LAST_FIRST_TIME, MAX_INTENSITY, TIME_SLOTS,
};
use crate::rv_format::{
    lemma_header_year, header_time, parse_header_time, parse_records, records, DecodeError, WallTime, FRAME_BYTES,
    RECORDS_START,
};
use vstd::prelude::*;

verus! {

/// Number of cells of a frame.
pub const FRAME_CELLS: usize = 1320000;

/// The raw value that marks an absent cell.
pub const ABSENT: u16 = 0x29c4;

/// The contents of byte buffers.
pub open spec fn views(v: Seq<Vec<u8>>) -> Seq<Seq<u8>> {
    v.map_values(|m: Vec<u8>| m@)
}

/// The little-endian word `w` of a frame body.
pub open spec fn word(f: Seq<u8>, w: int) -> int {
    f[2 * w] + 256 * f[2 * w + 1]
}

/// A raw word is the absent marker or an intensity below 4096.
pub open spec fn word_valid(v: int) -> bool {
    v == ABSENT || v <= MAX_INTENSITY
}

pub open spec fn frame_valid(f: Seq<u8>) -> bool {
    &&& f.len() == FRAME_BYTES
    &&& forall|w: int| 0 <= w < FRAME_CELLS ==> word_valid(#[trigger] word(f, w))
}

/// The word that holds cell `(x, y)`: rows are stored bottom-up.
pub open spec fn cell_word(x: int, y: int) -> int {
    GRID_WIDTH * (GRID_HEIGHT - 1 - y) + x
}

/// The cell `(x, y)` of a frame body.
pub open spec fn raw_cell(f: Seq<u8>, x: int, y: int) -> Option<u16> {
    let v = word(f, cell_word(x, y));
    if v == ABSENT {
        None
    } else {
        Some(v as u16)
    }
}

/// The base time that the first frame's wall time gives; its year counts from 2000.
pub open spec fn first_time_of(t: WallTime) -> Result<i64, DecodeError> {
    match civil_seconds(2000 + t.year, t.month as int, t.day as int, t.hour as int, t.minute as int) {
        Some(s) => if s <= LAST_FIRST_TIME {
            Ok(s as i64)
        } else {
            Err(DecodeError::InvalidTime)
        },
        None => Err(DecodeError::InvalidTime),
    }
}

/// The base time for a frame with wall time `t`, given what earlier frames set.
pub open spec fn frame_time(t: WallTime, first: Option<(WallTime, i64)>) -> Result<i64, DecodeError> {
    match first {
        Some(f) => if t == f.0 {
            Ok(f.1)
        } else {
            Err(DecodeError::TimeMismatch)
        },
        None => first_time_of(t),
    }
}

/// Frame `index`, after earlier frames set `first`: its wall time, the base
/// time and where its body starts.
pub open spec fn frame_header(e: Seq<u8>, index: int, first: Option<(WallTime, i64)>) -> Result<
    (WallTime, i64, int),
    DecodeError,
> {
    match header_time(e) {
        Err(x) => Err(x),
        Ok(t) => match frame_time(t, first) {
            Err(x) => Err(x),
            Ok(s) => match records(e, RECORDS_START as int, index) {
                Err(x) => Err(x),
                Ok(p) => if e.len() - p != FRAME_BYTES {
                    Err(DecodeError::WrongBodyLength { length: (e.len() - p) as usize })
                } else {
                    Ok((t, s, p))
                },
            },
        },
    }
}

/// The first `n` members of an archive read as frames: the wall time and base
/// time they set and their bodies, or the first fault.
#[verifier::opaque]
pub open spec fn frames_prefix(entries: Seq<Seq<u8>>, n: int) -> Result<
    (Option<(WallTime, i64)>, Seq<Seq<u8>>),
    DecodeError,
>
    decreases n,
{
    if n <= 0 {
        Ok((None, Seq::empty()))
    } else {
        match frames_prefix(entries, n - 1) {
            Err(x) => Err(x),
            Ok(done) => match frame_header(entries[n - 1], n - 1, done.0) {
                Err(x) => Err(x),
                Ok(h) => Ok((Some((h.0, h.1)), done.1.push(entries[n - 1].skip(h.2)))),
            },
        }
    }
}

/// An archive with members `entries`, decoded: the base time and the 25
/// frame bodies, or the first fault.
pub open spec fn decoded(entries: Seq<Seq<u8>>) -> Result<(i64, Seq<Seq<u8>>), DecodeError> {
    match frames_prefix(entries, entries.len() as int) {
        Err(x) => Err(x),
        Ok(done) => if entries.len() != TIME_SLOTS {
            Err(DecodeError::WrongEntryCount { count: entries.len() as usize })
        } else if exists|k: int| 0 <= k < TIME_SLOTS && !frame_valid(#[trigger] done.1[k]) {
            Err(DecodeError::ValueOutOfRange)
        } else {
            let first = done.0->0;
            Ok((first.1, done.1))
        },
    }
}

/// A decoded archive: the base time and the 25 raw frame bodies.
pub struct DWDRainRadarValues {
    base_time: i64,
    predictions: Vec<Vec<u8>>,
}

/// The base time for a frame with wall time `t`, as `frame_time` says.
fn decode_frame_time(t: WallTime, first: Option<(WallTime, i64)>) -> (r: Result<i64, DecodeError>)
    requires
        t.year <= 99,
    ensures
        r == frame_time(t, first),
        r matches Ok(s) ==> s <= LAST_FIRST_TIME || (first matches Some(f) && s == f.1),
{
    match first {
        Some(f) => if t == f.0 {
            Ok(f.1)
        } else {
            Err(DecodeError::TimeMismatch)
        },
        None => {
            match utc_seconds(2000 + t.year as i32, t.month, t.day, t.hour, t.minute) {
                Some(s) => if s <= LAST_FIRST_TIME {
                    Ok(s)
                } else {
                    Err(DecodeError::InvalidTime)
                },
                None => Err(DecodeError::InvalidTime),
            }
        },
    }
}

/// Frame `index`, after earlier frames set `first`, as `frame_header` says.
fn decode_frame_header(e: &[u8], index: usize, first: Option<(WallTime, i64)>) -> (r: Result<
    (WallTime, i64, usize),
    DecodeError,
>)
    ensures
        match frame_header(e@, index as int, first) {
            Ok(h) => r matches Ok(g) && g.0 == h.0 && g.1 == h.1 && g.2 == h.2 && g.2 <= e@.len(),
            Err(x) => r matches Err(y) && y == x,
        },
        r matches Ok(g) ==> g.1 <= LAST_FIRST_TIME || (first matches Some(f) && g.1 == f.1),
{
    let t = match parse_header_time(e) {
        Ok(t) => t,
        Err(x) => return Err(x),
    };
    proof {
        lemma_header_year(e@);
    }
    let s = match decode_frame_time(t, first) {
        Ok(s) => s,
        Err(x) => return Err(x),
    };
    let p = match parse_records(e, RECORDS_START, index) {
        Ok(p) => p,
        Err(x) => return Err(x),
    };
    if e.len() - p != FRAME_BYTES {
        return Err(DecodeError::WrongBodyLength { length: e.len() - p });
    }
    Ok((t, s, p))
}

/// Whether every word of a frame body is the absent marker or a valid intensity.
fn frame_is_valid(f: &Vec<u8>) -> (r: bool)
    requires
        f@.len() == FRAME_BYTES,
    ensures
        r == frame_valid(f@),
{
    let mut w: usize = 0;
    while w < FRAME_CELLS
        invariant
            f@.len() == FRAME_BYTES,
            w <= FRAME_CELLS,
            forall|v: int| 0 <= v < w ==> word_valid(#[trigger] word(f@, v)),
        decreases FRAME_CELLS - w,
    {
        let v = f[2 * w] as u16 + 256 * (f[2 * w + 1] as u16);
        assert(v == word(f@, w as int));
        if v != ABSENT && v > MAX_INTENSITY {
            assert(!word_valid(word(f@, w as int)));
            return false;
        }
        w = w + 1;
    }
    true
}

/// The cell `(x, y)` of a frame body, as `raw_cell` says.
fn read_cell(f: &Vec<u8>, x: usize, y: usize) -> (r: Option<u16>)
    requires
        f@.len() == FRAME_BYTES,
        x < GRID_WIDTH,
        y < GRID_HEIGHT,
    ensures
        r == raw_cell(f@, x as int, y as int),
{
    let w = GRID_WIDTH * (GRID_HEIGHT - 1 - y) + x;
    assert(w < FRAME_CELLS);
    let v = f[2 * w] as u16 + 256 * (f[2 * w + 1] as u16);
    if v == ABSENT {
        None
    } else {
        Some(v)
    }
}

impl DWDRainRadarValues {
    /// The 25 frame bodies.
    pub closed spec fn frames(&self) -> Seq<Seq<u8>> {
        views(self.predictions@)
    }

    /// Decodes an RV archive: a bzip2-compressed tar of 25 frames.
    pub fn from_archive(data: &[u8]) -> (r: Result<Self, DecodeError>)
        ensures
            match bzip2_decompressed(data@) {
                None => r matches Err(DecodeError::Archive(_)),
                Some(t) => match tar_member_contents(t) {
                    None => r matches Err(DecodeError::Archive(_)),
                    Some(m) => match decoded(m) {
                        Ok(d) => r matches Ok(v) && v.base_time() == d.0 && v.frames() == d.1
                            && v.wf(),
                        Err(x) => r matches Err(y) && y == x,
                    },
                },
            },
    {
        let tarball = match bzip2_decompress(data) {
            Ok(t) => t,
            Err(e) => return Err(DecodeError::Archive(e)),
        };
        let members = match tar_members(tarball.as_slice()) {
            Ok(m) => m,
            Err(e) => return Err(DecodeError::Archive(e)),
        };
        Self::from_entries(members)
    }

    /// Decodes an archive from the contents of its members, in archive order.
    pub fn from_entries(entries: Vec<Vec<u8>>) -> (r: Result<Self, DecodeError>)
        ensures
            match decoded(views(entries@)) {
                Ok(d) => r matches Ok(v) && v.base_time() == d.0 && v.frames() == d.1 && v.wf(),
                Err(x) => r matches Err(y) && y == x,
            },
    {
        let ghost all = views(entries@);
        let n = entries.len();
        let (first, frames) = match decode_frames(entries) {
            Ok(d) => d,
            Err(x) => return Err(x),
        };
        if n != TIME_SLOTS {
            return Err(DecodeError::WrongEntryCount { count: n });
        }
        let ghost bodies = views(frames@);
        assert(forall|k: int| 0 <= k < TIME_SLOTS ==> bodies[k] == (#[trigger] frames@[k])@);
        if !frames_are_valid(&frames) {
            return Err(DecodeError::ValueOutOfRange);
        }
        let base_time = match first {
            Some(f) => f.1,
            None => 0,
        };
        let r = DWDRainRadarValues { base_time, predictions: frames };
        assert(r.frames() == views(frames@));
        Ok(r)
    }
}

/// One more member read as a frame.
proof fn lemma_prefix_step(entries: Seq<Seq<u8>>, i: int)
    requires
        0 <= i,
    ensures
        frames_prefix(entries, i + 1) == match frames_prefix(entries, i) {
            Err(x) => Err(x),
            Ok(done) => match frame_header(entries[i], i, done.0) {
                Err(x) => Err(x),
                Ok(h) => Ok((Some((h.0, h.1)), done.1.push(entries[i].skip(h.2)))),
            },
        },
{
    reveal(frames_prefix);
}

/// Once a member fails, every longer prefix fails the same way.
proof fn lemma_prefix_fault_stays(entries: Seq<Seq<u8>>, i: int, n: int)
    requires
        0 < i <= n,
        frames_prefix(entries, i) is Err,
    ensures
        frames_prefix(entries, n) == frames_prefix(entries, i),
    decreases n - i,
{
    if i < n {
        lemma_prefix_fault_stays(entries, i, n - 1);
        lemma_prefix_step(entries, n - 1);
    }
}

/// Member `index` read as a frame: its wall time, the base time and its body.
fn decode_member(e: Vec<u8>, index: usize, first: Option<(WallTime, i64)>) -> (r: Result<
    (WallTime, i64, Vec<u8>),
    DecodeError,
>)
    ensures
        match frame_header(e@, index as int, first) {
            Ok(h) => r matches Ok(g) && g.0 == h.0 && g.1 == h.1 && g.2@ == e@.skip(h.2)
                && g.2@.len() == FRAME_BYTES,
            Err(x) => r matches Err(y) && y == x,
        },
        r matches Ok(g) ==> g.1 <= LAST_FIRST_TIME || (first matches Some(f) && g.1 == f.1),
{
    let h = match decode_frame_header(e.as_slice(), index, first) {
        Ok(h) => h,
        Err(x) => return Err(x),
    };
    let mut e = e;
    let body = e.split_off(h.2);
    Ok((h.0, h.1, body))
}

/// The members of an archive read as frames, as `frames_prefix` says.
fn decode_frames(entries: Vec<Vec<u8>>) -> (r: Result<
    (Option<(WallTime, i64)>, Vec<Vec<u8>>),
    DecodeError,
>)
    ensures
        ({
            let all = views(entries@);
            match frames_prefix(all, all.len() as int) {
                Ok(d) => r matches Ok(v) && v.0 == d.0 && views(v.1@) == d.1
                    && v.1@.len() == all.len() && (forall|k: int|
                    0 <= k < all.len() ==> (#[trigger] v.1@[k])@.len() == FRAME_BYTES) && (all.len()
                    > 0 ==> (v.0 matches Some(f) && f.1 <= LAST_FIRST_TIME)),
                Err(x) => r matches Err(y) && y == x,
            }
        }),
{
    let ghost all = views(entries@);
    let n = entries.len();
    let mut rest = entries;
    let mut frames: Vec<Vec<u8>> = Vec::new();
    let mut first: Option<(WallTime, i64)> = None;
    let mut index: usize = 0;
    proof {
        reveal(frames_prefix);
    }
    assert(views(frames@) =~= Seq::<Seq<u8>>::empty());
    while index < n
        invariant
            index <= n,
            all == views(entries@),
            n == all.len(),
            rest@.len() == n - index,
            views(rest@) == all.skip(index as int),
            frames_prefix(all, index as int) == Ok::<_, DecodeError>((first, views(frames@))),
            frames@.len() == index,
            forall|k: int| 0 <= k < index ==> (#[trigger] frames@[k])@.len() == FRAME_BYTES,
            index > 0 ==> (first matches Some(f) && f.1 <= LAST_FIRST_TIME),
            index == 0 ==> first is None,
        decreases n - index,
    {
        assert(views(rest@)[0] == all[index as int]);
        let ghost before = rest@;
        let e = rest.remove(0);
        assert(e@ == all[index as int]);
        assert(views(rest@) =~= all.skip(index + 1)) by {
            assert(rest@ =~= before.subrange(1, before.len() as int));
            assert forall|j: int| 0 <= j < rest@.len() implies #[trigger] views(rest@)[j] == all.skip(
                index + 1,
            )[j] by {
                assert(views(before)[j + 1] == all.skip(index as int)[j + 1]);
            }
        }
        proof {
            lemma_prefix_step(all, index as int);
        }
        let m = match decode_member(e, index, first) {
            Ok(m) => m,
            Err(x) => {
                assert(frame_header(all[index as int], index as int, first) == Err::<
                    (WallTime, i64, int),
                    DecodeError,
                >(x));
                assert(frames_prefix(all, index + 1) == Err::<
                    (Option<(WallTime, i64)>, Seq<Seq<u8>>),
                    DecodeError,
                >(x));
                proof {
                    lemma_prefix_fault_stays(all, index + 1, n as int);
                }
                return Err(x);
            },
        };
        let ghost old_frames = frames@;
        frames.push(m.2);
        first = Some((m.0, m.1));
        index = index + 1;
        assert(views(frames@) =~= views(old_frames).push(m.2@));
    }
    Ok((first, frames))
}

/// Whether all 25 frame bodies are valid.
fn frames_are_valid(frames: &Vec<Vec<u8>>) -> (r: bool)
    requires
        frames@.len() == TIME_SLOTS,
        forall|k: int| 0 <= k < TIME_SLOTS ==> (#[trigger] frames@[k])@.len() == FRAME_BYTES,
    ensures
        r == forall|k: int| 0 <= k < TIME_SLOTS ==> frame_valid((#[trigger] frames@[k])@),
{
    let mut k: usize = 0;
    while k < TIME_SLOTS
        invariant
            k <= TIME_SLOTS,
            frames@.len() == TIME_SLOTS,
            forall|j: int| 0 <= j < TIME_SLOTS ==> (#[trigger] frames@[j])@.len() == FRAME_BYTES,
            forall|j: int| 0 <= j < k ==> frame_valid((#[trigger] frames@[j])@),
        decreases TIME_SLOTS - k,
    {
        if !frame_is_valid(&frames[k]) {
            return false;
        }
        k = k + 1;
    }
    true
}

impl RainRadarValues for DWDRainRadarValues {
    closed spec fn wf(&self) -> bool {
        &&& self.predictions@.len() == TIME_SLOTS
        &&& forall|k: int| 0 <= k < TIME_SLOTS ==> frame_valid(#[trigger] self.frames()[k])
        &&& self.base_time <= LAST_FIRST_TIME
    }

    closed spec fn base_time(&self) -> i64 {
        self.base_time
    }

    open spec fn cell(&self, slot: int, x: int, y: int) -> Option<u16> {
        raw_cell(self.frames()[slot], x, y)
    }

    proof fn lemma_wf(&self) {
        assert forall|k: int, x: int, y: int| in_grid(k, x, y) implies valid_cell(
            #[trigger] self.cell(k, x, y),
        ) by {
            assert(frame_valid(self.frames()[k]));
            assert(0 <= cell_word(x, y) < FRAME_CELLS);
            assert(word_valid(word(self.frames()[k], cell_word(x, y))));
        }
    }

    fn time_information(&self) -> (r: TimeInformation) {
        TimeInformation { first_time: self.base_time, available_time_slots: 25 }
    }

    fn for_area<X: Range, Y: Range>(&self, time: i64, x: X, y: Y) -> (r: Vec<Option<u16>>) {
        let k = time_slot(self.base_time, time).unwrap();
        assert(slot_of(self.base_time(), time) == Some(k as int));
        let frame = &self.predictions[k];
        proof {
            self.lemma_wf();
            assert(frame@ == self.frames()[k as int]);
        }
        let ghost xs = x.indices();
        let ghost ys = y.indices();
        let ghost all = cross(xs, ys);
        let mut pairs = cross_product(x, y);
        let mut r: Vec<Option<u16>> = Vec::new();
        loop
            invariant
                self.wf(),
                all == cross(xs, ys),
                k < TIME_SLOTS,
                frame@ == self.frames()[k as int],
                frame@.len() == FRAME_BYTES,
                forall|j: int| 0 <= j < xs.len() ==> #[trigger] xs[j] < GRID_WIDTH,
                forall|j: int| 0 <= j < ys.len() ==> #[trigger] ys[j] < GRID_HEIGHT,
                forall|s: int, cx: int, cy: int|
                    in_grid(s, cx, cy) ==> valid_cell(#[trigger] self.cell(s, cx, cy)),
                pairs.wf(),
                pairs.xs() == xs,
                pairs.ys() == ys,
                r@.len() == pairs.position(),
                pairs.position() <= all.len(),
                forall|i: int|
                    0 <= i < r@.len() ==> #[trigger] r@[i] == self.cell(
                        k as int,
                        all[i].0 as int,
                        all[i].1 as int,
                    ),
            ensures
                r@.len() == all.len(),
                forall|i: int|
                    0 <= i < r@.len() ==> #[trigger] r@[i] == self.cell(
                        k as int,
                        all[i].0 as int,
                        all[i].1 as int,
                    ),
            decreases all.len() - pairs.position(),
        {
            proof {
                pairs.lemma_position_bounds();
            }
            let ghost i = pairs.position();
            let ghost before = pairs;
            assert(before.pairs() == all);
            let next = pairs.next();
            match next {
                Some(p) => {
                    assert(i < all.len());
                    assert(next == Some(before.pairs()[i]));
                    assert(pairs.position() == i + 1);
                    assert(p == all[i]);
                    proof {
                        lemma_cross_bounded(xs, ys, GRID_WIDTH as int, GRID_HEIGHT as int, i);
                    }
                    r.push(read_cell(frame, p.0, p.1));
                },
                None => {
                    break ;
                },
            }
        }
        assert forall|i: int| 0 <= i < r@.len() implies valid_cell(#[trigger] r@[i]) by {
            lemma_cross_bounded(xs, ys, GRID_WIDTH as int, GRID_HEIGHT as int, i);
        }
        assert forall|i: int| 0 <= i < r@.len() implies r@[i] == all.map_values(
            |p: (usize, usize)| self.cell(slot_of(self.base_time(), time)->0, p.0 as int, p.1 as int),
        )[i] by {}
        assert(r@ =~= all.map_values(
            |p: (usize, usize)| self.cell(slot_of(self.base_time(), time)->0, p.0 as int, p.1 as int),
        ));
        r
    }
}

} // verus!
