//! A grid in the block-sparse layout, read in place.
use crate::block_sparse::{
    block_cells, directory, encoded, kind_of, layout_valid, le_bytes, le_value,
    lemma_block_number, lemma_block_parts, lemma_encoded_cell, lemma_encoded_layout,
    lemma_encoded_parts, lemma_time_round_trip, lemma_units_before_bounds, narrow_byte,
    payload_of, payloads, pow256, stored_cell, stored_first_time, tag_in_bounds, tag_of,
    units_before, unsigned, wide_word, word_byte, BlockKind, BLOCKS, DIRECTORY_START,
    PAYLOAD_START, PAYLOAD_UNIT, TAG_ABSENT, TAG_WIDE, TAG_ZERO,
};
use crate::cross_product::{cross, cross_product, lemma_cross_bounded, Range};
use crate::rain_radar_values::{
    in_grid, slot_of, time_slot, valid_cell, RainRadarValues, TimeInformation, GRID_HEIGHT,
    GRID_WIDTH, LAST_FIRST_TIME, SLOT_SECONDS, TIME_SLOTS,
};
use vstd::prelude::*;

verus! {

/// A grid of 25 slots kept in the block-sparse layout, one byte buffer that
/// a dictionary compressor can take as it is.
pub struct CompressedRainRadarValues {
    data: Vec<u8>,
}

/// The cells of block `b` of a grid.
pub(crate) fn block_of<T: RainRadarValues>(g: &T, first_time: i64, b: usize) -> (r: Vec<Option<u16>>)
    requires
        g.wf(),
        first_time == g.base_time(),
        b < BLOCKS,
    ensures
        r@ == block_cells(g, b as int),
{
    proof {
        g.lemma_wf();
        lemma_block_parts(b as int);
    }
    let k = b / 132;
    let xb = (b % 132) / 12;
    let yb = b % 12;
    let time = first_time + SLOT_SECONDS * (k as i64);
    proof {
        vstd::arithmetic::div_mod::lemma_fundamental_div_mod_converse(
            SLOT_SECONDS * k,
            SLOT_SECONDS as int,
            k as int,
            0,
        );
    }
    assert(slot_of(g.base_time(), time) == Some(k as int));
    let xs = (xb * 100)..(xb * 100 + 100);
    let ys = (yb * 100)..(yb * 100 + 100);
    let ghost xi = xs.indices();
    let ghost yi = ys.indices();
    let ghost all = cross(xi, yi);
    assert(xi.len() == 100 && yi.len() == 100);
    assert(xi.len() * yi.len() == 10000) by (nonlinear_arith)
        requires
            xi.len() == 100,
            yi.len() == 100,
    ;
    assert(all.len() == 10000);
    let r = g.for_area(time, xs, ys);
    assert forall|i: int| 0 <= i < 10000 implies #[trigger] all[i] == (
        (100 * xb + i % 100) as usize,
        (100 * yb + i / 100) as usize,
    ) by {
        vstd::arithmetic::div_mod::lemma_fundamental_div_mod(i, 100);
        vstd::arithmetic::div_mod::lemma_mod_bound(i, 100);
        vstd::arithmetic::div_mod::lemma_div_pos_is_pos(i, 100);
        assert(i / 100 < 100);
        assert(xi[i % 100] == (100 * xb + i % 100) as usize);
        assert(yi[i / 100] == (100 * yb + i / 100) as usize);
    }
    assert(r@ =~= block_cells(g, b as int));
    r
}

/// How the block with cells `c` is stored.
pub(crate) fn classify(c: &Vec<Option<u16>>) -> (r: BlockKind)
    ensures
        r == kind_of(c@),
{
    let mut all_absent = true;
    let mut all_zero = true;
    let mut any_wide = false;
    let mut i: usize = 0;
    while i < c.len()
        invariant
            i <= c@.len(),
            all_absent == forall|j: int| 0 <= j < i ==> #[trigger] c@[j] is None,
            all_zero == forall|j: int| 0 <= j < i ==> #[trigger] c@[j] == Some(0u16),
            any_wide == exists|j: int| 0 <= j < i && (#[trigger] c@[j] matches Some(v) && v > 254),
        decreases c@.len() - i,
    {
        match c[i] {
            None => {
                all_zero = false;
            },
            Some(v) => {
                all_absent = false;
                if v != 0 {
                    all_zero = false;
                }
                if v > 254 {
                    any_wide = true;
                }
            },
        }
        i = i + 1;
    }
    if all_absent {
        BlockKind::Absent
    } else if all_zero {
        BlockKind::Zero
    } else if any_wide {
        BlockKind::Wide
    } else {
        BlockKind::Narrow
    }
}

/// Appends the cells as one byte each, `0xff` for absent.
fn append_narrow(payload: &mut Vec<u8>, c: &Vec<Option<u16>>)
    ensures
        final(payload)@ == old(payload)@ + Seq::new(c@.len(), |i: int| narrow_byte(c@[i])),
{
    let ghost start = payload@;
    let mut i: usize = 0;
    while i < c.len()
        invariant
            i <= c@.len(),
            payload@ == start + Seq::new(i as nat, |j: int| narrow_byte(c@[j])),
        decreases c@.len() - i,
    {
        let byte: u8 = match c[i] {
            None => 0xff,
            Some(w) => w as u8,
        };
        payload.push(byte);
        i = i + 1;
        assert(payload@ =~= start + Seq::new(i as nat, |j: int| narrow_byte(c@[j])));
    }
}

/// Appends the cells as two little-endian bytes each, `0xffff` for absent.
fn append_wide(payload: &mut Vec<u8>, c: &Vec<Option<u16>>)
    ensures
        final(payload)@ == old(payload)@ + Seq::new(
            2 * c@.len(),
            |i: int| word_byte(wide_word(c@[i / 2]) as int, i),
        ),
{
    let ghost start = payload@;
    let mut i: usize = 0;
    while i < c.len()
        invariant
            i <= c@.len(),
            payload@ == start + Seq::new(2 * i as nat, |j: int| word_byte(wide_word(c@[j / 2]) as int, j)),
        decreases c@.len() - i,
    {
        let word: u16 = match c[i] {
            None => 0xffff,
            Some(w) => w,
        };
        payload.push((word % 256) as u8);
        payload.push((word / 256) as u8);
        proof {
            vstd::arithmetic::div_mod::lemma_fundamental_div_mod_converse(2 * i, 2, i as int, 0);
            vstd::arithmetic::div_mod::lemma_fundamental_div_mod_converse(2 * i + 1, 2, i as int, 1);
        }
        i = i + 1;
        assert(payload@ =~= start + Seq::new(2 * i as nat, |j: int| word_byte(wide_word(c@[j / 2]) as int, j)));
    }
}

/// The 8 little-endian bytes of `t` in two's complement.
fn time_bytes(t: i64) -> (r: Vec<u8>)
    ensures
        r@ == le_bytes(unsigned(t), 8),
{
    let mut u: u64 = if t >= 0 {
        t as u64
    } else {
        (t as i128 + 0x1_0000_0000_0000_0000i128) as u64
    };
    let mut r: Vec<u8> = Vec::new();
    let mut n: usize = 8;
    while n > 0
        invariant
            n <= 8,
            r@ + le_bytes(u as nat, n as nat) == le_bytes(unsigned(t), 8),
        decreases n,
    {
        let ghost before = r@;
        r.push((u % 256) as u8);
        assert(before + le_bytes(u as nat, n as nat) =~= r@ + le_bytes((u / 256) as nat, (n - 1) as nat));
        u = u / 256;
        n = n - 1;
    }
    assert(r@ =~= r@ + le_bytes(u as nat, 0));
    r
}

/// The base time that an encoding holds.
fn read_first_time(d: &Vec<u8>) -> (r: i64)
    requires
        d@.len() >= 8,
    ensures
        r == stored_first_time(d@),
{
    let mut u: u64 = 0;
    let mut i: usize = 8;
    while i > 0
        invariant
            i <= 8,
            d@.len() >= 8,
            u == le_value(d@.subrange(i as int, 8)),
            u < pow256((8 - i) as nat),
        decreases i,
    {
        i = i - 1;
        assert(d@.subrange(i as int, 8).drop_first() =~= d@.subrange(i + 1, 8));
        assert(pow256((8 - i) as nat) == 256 * pow256((8 - i - 1) as nat));
        assert(pow256(7) == 72057594037927936) by {
            assert(pow256(0) == 1);
            assert(pow256(1) == 256);
            assert(pow256(2) == 65536);
            assert(pow256(3) == 16777216);
            assert(pow256(4) == 4294967296);
            assert(pow256(5) == 1099511627776);
            assert(pow256(6) == 281474976710656);
        }
        proof {
            lemma_pow256_grows((8 - i - 1) as nat, 7);
        }
        assert(u * 256 + d@[i as int] < 256 * pow256((8 - i - 1) as nat)) by (nonlinear_arith)
            requires
                u < pow256((8 - i - 1) as nat),
                d@[i as int] < 256,
        ;
        u = u * 256 + d[i] as u64;
    }
    if u < 0x8000_0000_0000_0000 {
        u as i64
    } else {
        (u as i128 - 0x1_0000_0000_0000_0000i128) as i64
    }
}

proof fn lemma_pow256_grows(a: nat, b: nat)
    requires
        a <= b,
    ensures
        pow256(a) <= pow256(b),
    decreases b,
{
    if a < b {
        lemma_pow256_grows(a, (b - 1) as nat);
    }
}

/// The cell `(x, y)` of slot `k` of an encoding, as `stored_cell` says.
fn read_stored_cell(d: &Vec<u8>, k: usize, x: usize, y: usize) -> (r: Option<u16>)
    requires
        layout_valid(d@),
        in_grid(k as int, x as int, y as int),
    ensures
        r == stored_cell(d@, k as int, x as int, y as int),
{
    let xb = x / 100;
    let yb = y / 100;
    proof {
        lemma_block_number(k as int, xb as int, yb as int);
    }
    let b = 132 * k + 12 * xb + yb;
    assert(tag_in_bounds(d@, b as int));
    let at = DIRECTORY_START + 2 * b;
    let t: u16 = d[at] as u16 + 256 * (d[at + 1] as u16);
    let i = 100 * (y % 100) + x % 100;
    if t == TAG_ABSENT {
        None
    } else if t == TAG_ZERO {
        Some(0)
    } else if t >= TAG_WIDE {
        let base = PAYLOAD_START + PAYLOAD_UNIT * ((t % 0x8000) as usize);
        let w: u16 = d[base + 2 * i] as u16 + 256 * (d[base + 2 * i + 1] as u16);
        if w == 0xffff {
            None
        } else {
            Some(w)
        }
    } else {
        let base = PAYLOAD_START + PAYLOAD_UNIT * ((t % 0x8000) as usize);
        let v = d[base + i];
        if v == 0xff {
            None
        } else {
            Some(v as u16)
        }
    }
}

impl CompressedRainRadarValues {
    /// The encoded bytes.
    pub closed spec fn bytes(&self) -> Seq<u8> {
        self.data@
    }

    /// Encodes the 25 slots of a grid in the block-sparse layout.
    pub fn from_rain_radar_values<T: RainRadarValues>(from: &T) -> (r: Self)
        requires
            from.wf(),
        ensures
            r.bytes() == encoded(from),
            r.bytes().len() == PAYLOAD_START + PAYLOAD_UNIT * units_before(from, BLOCKS as int),
            layout_valid(r.bytes()),
            r.wf(),
            r.base_time() == from.base_time(),
            forall|k: int, x: int, y: int|
                in_grid(k, x, y) ==> #[trigger] r.cell(k, x, y) == from.cell(k, x, y),
    {
        let information = from.time_information();
        let first_time = information.first_time;
        let mut tags: Vec<u8> = Vec::new();
        let mut payload: Vec<u8> = Vec::new();
        let mut next: u16 = 0;
        let mut b: usize = 0;
        while b < BLOCKS
            invariant
                from.wf(),
                first_time == from.base_time(),
                b <= BLOCKS,
                next as int == units_before(from, b as int),
                tags@ == directory(from).subrange(0, 2 * b),
                payload@ == payloads(from, b as int),
            decreases BLOCKS - b,
        {
            let cells = block_of(from, first_time, b);
            let kind = classify(&cells);
            proof {
                lemma_units_before_bounds(from, b as int, b as int);
                reveal(payload_of);
            }
            let ghost before = payload@;
            let tag: u16 = match kind {
                BlockKind::Absent => TAG_ABSENT,
                BlockKind::Zero => TAG_ZERO,
                BlockKind::Narrow => {
                    append_narrow(&mut payload, &cells);
                    let t = next;
                    next = next + 1;
                    t
                },
                BlockKind::Wide => {
                    append_wide(&mut payload, &cells);
                    let t = next + TAG_WIDE;
                    next = next + 2;
                    t
                },
            };
            assert(tag as int == tag_of(from, b as int));
            assert(payload@ =~= before + payload_of(block_cells(from, b as int)));
            let ghost tags_before = tags@;
            tags.push((tag % 256) as u8);
            tags.push((tag / 256) as u8);
            proof {
                vstd::arithmetic::div_mod::lemma_fundamental_div_mod_converse(2 * b, 2, b as int, 0);
                vstd::arithmetic::div_mod::lemma_fundamental_div_mod_converse(
                    2 * b + 1,
                    2,
                    b as int,
                    1,
                );
            }
            b = b + 1;
            assert(tags@ =~= directory(from).subrange(0, 2 * b));
        }
        let mut data = time_bytes(first_time);
        data.append(&mut tags);
        data.append(&mut payload);
        assert(directory(from).subrange(0, 6600) =~= directory(from));
        let r = CompressedRainRadarValues { data };
        assert(r.bytes() =~= encoded(from));
        proof {
            from.lemma_wf();
            lemma_encoded_layout(from);
            lemma_encoded_parts(from);
            lemma_time_round_trip(from.base_time());
            assert forall|k: int, x: int, y: int| in_grid(k, x, y) implies #[trigger] r.cell(
                k,
                x,
                y,
            ) == from.cell(k, x, y) by {
                lemma_encoded_cell(from, k, x, y);
            }
            assert forall|k: int, x: int, y: int| in_grid(k, x, y) implies valid_cell(
                #[trigger] stored_cell(r.data@, k, x, y),
            ) by {
                lemma_encoded_cell(from, k, x, y);
            }
            assert(stored_first_time(r.data@) == from.base_time());
        }
        r
    }

    /// The encoded bytes, for a dictionary trainer or a compressor.
    pub fn data(&self) -> (r: &[u8])
        ensures
            r@ == self.bytes(),
    {
        self.data.as_slice()
    }
}

impl RainRadarValues for CompressedRainRadarValues {
    closed spec fn wf(&self) -> bool {
        &&& layout_valid(self.data@)
        &&& stored_first_time(self.data@) <= LAST_FIRST_TIME
        &&& forall|k: int, x: int, y: int|
            in_grid(k, x, y) ==> valid_cell(#[trigger] stored_cell(self.data@, k, x, y))
    }

    /// The base time is what the first 8 bytes of the encoding hold.
    open spec fn base_time(&self) -> i64 {
        stored_first_time(self.bytes()) as i64
    }

    open spec fn cell(&self, slot: int, x: int, y: int) -> Option<u16> {
        stored_cell(self.bytes(), slot, x, y)
    }

    proof fn lemma_wf(&self) {
        assert forall|k: int, x: int, y: int| in_grid(k, x, y) implies valid_cell(
            #[trigger] self.cell(k, x, y),
        ) by {
            assert(valid_cell(stored_cell(self.data@, k, x, y)));
        }
    }

    fn time_information(&self) -> (r: TimeInformation) {
        TimeInformation { first_time: read_first_time(&self.data), available_time_slots: 25 }
    }

    fn for_area<X: Range, Y: Range>(&self, time: i64, x: X, y: Y) -> (r: Vec<Option<u16>>) {
        let first_time = read_first_time(&self.data);
        let k = time_slot(first_time, time).unwrap();
        assert(slot_of(self.base_time(), time) == Some(k as int));
        let ghost xs = x.indices();
        let ghost ys = y.indices();
        let ghost all = cross(xs, ys);
        let mut pairs = cross_product(x, y);
        let mut r: Vec<Option<u16>> = Vec::new();
        loop
            invariant
                self.wf(),
                all == cross(xs, ys),
                k < TIME_SLOTS,
                forall|j: int| 0 <= j < xs.len() ==> #[trigger] xs[j] < GRID_WIDTH,
                forall|j: int| 0 <= j < ys.len() ==> #[trigger] ys[j] < GRID_HEIGHT,
                pairs.wf(),
                pairs.xs() == xs,
                pairs.ys() == ys,
                r@.len() == pairs.position(),
                pairs.position() <= all.len(),
                forall|i: int|
                    0 <= i < r@.len() ==> #[trigger] r@[i] == self.cell(
                        k as int,
                        all[i].0 as int,
                        all[i].1 as int,
                    ),
            ensures
                r@.len() == all.len(),
                forall|i: int|
                    0 <= i < r@.len() ==> #[trigger] r@[i] == self.cell(
                        k as int,
                        all[i].0 as int,
                        all[i].1 as int,
                    ),
            decreases all.len() - pairs.position(),
        {
            proof {
                pairs.lemma_position_bounds();
            }
            let ghost i = pairs.position();
            let ghost before = pairs;
            assert(before.pairs() == all);
            let next = pairs.next();
            match next {
                Some(p) => {
                    assert(next == Some(before.pairs()[i]));
                    proof {
                        lemma_cross_bounded(xs, ys, GRID_WIDTH as int, GRID_HEIGHT as int, i);
                    }
                    r.push(read_stored_cell(&self.data, k, p.0, p.1));
                },
                None => {
                    break ;
                },
            }
        }
        assert forall|i: int| 0 <= i < r@.len() implies valid_cell(#[trigger] r@[i]) by {
            lemma_cross_bounded(xs, ys, GRID_WIDTH as int, GRID_HEIGHT as int, i);
        }
        assert forall|i: int| 0 <= i < r@.len() implies r@[i] == all.map_values(
            |p: (usize, usize)| self.cell(slot_of(self.base_time(), time)->0, p.0 as int, p.1 as int),
        )[i] by {}
        assert(r@ =~= all.map_values(
            |p: (usize, usize)| self.cell(slot_of(self.base_time(), time)->0, p.0 as int, p.1 as int),
        ));
        r
    }
}

/// Law of the round trip: where a compressed grid holds the encoding of a
/// well-formed grid, it has the same slot times, and each cell read from it
/// at any of those times is the grid's cell.
pub proof fn lemma_round_trip<T: RainRadarValues>(
    g: &T,
    c: &CompressedRainRadarValues,
    time: i64,
    x: int,
    y: int,
)
    requires
        g.wf(),
        c.bytes() == encoded(g),
        slot_of(g.base_time(), time) is Some,
        0 <= x < GRID_WIDTH,
        0 <= y < GRID_HEIGHT,
    ensures
        c.base_time() == g.base_time(),
        slot_of(c.base_time(), time) == slot_of(g.base_time(), time),
        c.cell(slot_of(c.base_time(), time)->0, x, y) == g.cell(
            slot_of(g.base_time(), time)->0,
            x,
            y,
        ),
{
    lemma_encoded_parts(g);
    lemma_time_round_trip(g.base_time());
    lemma_encoded_cell(g, slot_of(g.base_time(), time)->0, x, y);
}

} // verus!
