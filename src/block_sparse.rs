//! The block-sparse layout: an 8-byte base time, a directory of 3300 block
//! tags and the payload blocks, all little-endian.
//!
//! Each frame is cut into 11 x 12 blocks of 100 x 100 cells. A block with no
//! present cell, or with only zeros, is a tag alone; any other block stores
//! its cells in one byte each, or in two bytes each where a value above 254
//! occurs.
use crate::rain_radar_values::{in_grid, valid_cell, RainRadarValues, TIME_SLOTS};
use vstd::prelude::*;

verus! {

/// Number of blocks: 25 slots of 11 x 12 blocks.
pub const BLOCKS: usize = 3300;

/// Offset of the block directory.
pub const DIRECTORY_START: usize = 8;

/// Offset of the first payload block, right after the directory.
pub const PAYLOAD_START: usize = 6608;

/// Size of one payload unit; a one-byte block takes one unit, a two-byte block two.
pub const PAYLOAD_UNIT: usize = 10000;

/// Tag of a block without any present cell.
pub const TAG_ABSENT: u16 = 0xffff;

/// Tag of a block whose cells are all present and zero.
pub const TAG_ZERO: u16 = 0x7fff;

/// Flag of a tag whose payload holds two bytes per cell.
pub const TAG_WIDE: u16 = 0x8000;

/// How a block is stored.
#[derive(Clone, Copy, Debug, PartialEq, Eq, Structural)]
pub enum BlockKind {
    /// No present cell: a tag, no payload.
    Absent,
    /// All cells present and zero: a tag, no payload.
    Zero,
    /// One byte per cell, `0xff` for absent.
    Narrow,
    /// Two little-endian bytes per cell, `0xffff` for absent.
    Wide,
}

/// The directory position of the block of slot `k`, x-block `xb`, y-block `yb`.
pub open spec fn block_number(k: int, xb: int, yb: int) -> int {
    132 * k + 12 * xb + yb
}

pub open spec fn block_slot(b: int) -> int {
    b / 132
}

pub open spec fn block_x(b: int) -> int {
    (b % 132) / 12
}

pub open spec fn block_y(b: int) -> int {
    b % 12
}

/// The cells of block `b` of a grid, in cross product order over its
/// 100 columns and 100 rows.
pub open spec fn block_cells<T: RainRadarValues>(g: &T, b: int) -> Seq<Option<u16>> {
    Seq::new(
        10000,
        |i: int| g.cell(block_slot(b), 100 * block_x(b) + i % 100, 100 * block_y(b) + i / 100),
    )
}

pub open spec fn kind_of(c: Seq<Option<u16>>) -> BlockKind {
    if forall|i: int| 0 <= i < c.len() ==> #[trigger] c[i] is None {
        BlockKind::Absent
    } else if forall|i: int| 0 <= i < c.len() ==> #[trigger] c[i] == Some(0u16) {
        BlockKind::Zero
    } else if exists|i: int| 0 <= i < c.len() && (#[trigger] c[i] matches Some(v) && v > 254) {
        BlockKind::Wide
    } else {
        BlockKind::Narrow
    }
}

/// Payload units that a block of this kind takes.
pub open spec fn units(kind: BlockKind) -> int {
    match kind {
        BlockKind::Narrow => 1,
        BlockKind::Wide => 2,
        _ => 0,
    }
}

/// Payload units taken by the blocks before block `b`.
pub open spec fn units_before<T: RainRadarValues>(g: &T, b: int) -> int
    decreases b,
{
    if b <= 0 {
        0
    } else {
        units_before(g, b - 1) + units(kind_of(block_cells(g, b - 1)))
    }
}

/// The directory tag of block `b`.
pub open spec fn tag_of<T: RainRadarValues>(g: &T, b: int) -> int {
    match kind_of(block_cells(g, b)) {
        BlockKind::Absent => TAG_ABSENT as int,
        BlockKind::Zero => TAG_ZERO as int,
        BlockKind::Narrow => units_before(g, b),
        BlockKind::Wide => units_before(g, b) + TAG_WIDE,
    }
}

pub open spec fn narrow_byte(v: Option<u16>) -> u8 {
    match v {
        None => 0xff,
        Some(w) => w as u8,
    }
}

pub open spec fn wide_word(v: Option<u16>) -> u16 {
    match v {
        None => 0xffff,
        Some(w) => w,
    }
}

/// Byte `i` of the little-endian 16-bit words `w(0), w(1), ...`.
pub open spec fn word_byte(w: int, i: int) -> u8 {
    if i % 2 == 0 {
        (w % 256) as u8
    } else {
        (w / 256) as u8
    }
}

/// The payload of a block with cells `c`.
#[verifier::opaque]
pub open spec fn payload_of(c: Seq<Option<u16>>) -> Seq<u8> {
    match kind_of(c) {
        BlockKind::Narrow => Seq::new(10000, |i: int| narrow_byte(c[i])),
        BlockKind::Wide => Seq::new(20000, |i: int| word_byte(wide_word(c[i / 2]) as int, i)),
        _ => Seq::empty(),
    }
}

/// The payloads of the first `n` blocks, one after the other.
pub open spec fn payloads<T: RainRadarValues>(g: &T, n: int) -> Seq<u8>
    decreases n,
{
    if n <= 0 {
        Seq::empty()
    } else {
        payloads(g, n - 1) + payload_of(block_cells(g, n - 1))
    }
}

/// The directory: the tags of all blocks as little-endian words.
pub open spec fn directory<T: RainRadarValues>(g: &T) -> Seq<u8> {
    Seq::new(6600, |i: int| word_byte(tag_of(g, i / 2), i))
}

/// The `n` little-endian bytes of `u`.
pub open spec fn le_bytes(u: nat, n: nat) -> Seq<u8>
    decreases n,
{
    if n == 0 {
        Seq::empty()
    } else {
        seq![(u % 256) as u8] + le_bytes(u / 256, (n - 1) as nat)
    }
}

/// The number that little-endian bytes spell.
pub open spec fn le_value(s: Seq<u8>) -> nat
    decreases s.len(),
{
    if s.len() == 0 {
        0
    } else {
        (s[0] + 256 * le_value(s.drop_first())) as nat
    }
}

/// Two's complement: the 64-bit pattern of `t`.
pub open spec fn unsigned(t: i64) -> nat {
    if t >= 0 {
        t as nat
    } else {
        (t + 0x1_0000_0000_0000_0000) as nat
    }
}

/// Two's complement: the `i64` that the 64-bit pattern `u` stands for.
pub open spec fn signed(u: nat) -> int {
    if u < 0x8000_0000_0000_0000 {
        u as int
    } else {
        u - 0x1_0000_0000_0000_0000
    }
}

/// The block-sparse encoding of a grid.
pub open spec fn encoded<T: RainRadarValues>(g: &T) -> Seq<u8> {
    le_bytes(unsigned(g.base_time()), 8) + directory(g) + payloads(g, BLOCKS as int)
}

/// The little-endian word at `at`.
pub open spec fn le16(d: Seq<u8>, at: int) -> int {
    d[at] + 256 * d[at + 1]
}

/// The base time that an encoding holds.
pub open spec fn stored_first_time(d: Seq<u8>) -> int {
    signed(le_value(d.subrange(0, 8)))
}

/// The tag of block `b` that an encoding holds.
pub open spec fn stored_tag(d: Seq<u8>, b: int) -> int {
    le16(d, DIRECTORY_START + 2 * b)
}

/// Where the payload of a block with tag `t` starts.
pub open spec fn payload_base(t: int) -> int {
    PAYLOAD_START + PAYLOAD_UNIT * (t % 0x8000)
}

/// The cell `(x, y)` of slot `k` that an encoding holds.
pub open spec fn stored_cell(d: Seq<u8>, k: int, x: int, y: int) -> Option<u16> {
    let t = stored_tag(d, block_number(k, x / 100, y / 100));
    let i = 100 * (y % 100) + x % 100;
    if t == TAG_ABSENT {
        None
    } else if t == TAG_ZERO {
        Some(0)
    } else if t >= TAG_WIDE {
        let w = le16(d, payload_base(t) + 2 * i);
        if w == 0xffff {
            None
        } else {
            Some(w as u16)
        }
    } else {
        let v = d[payload_base(t) + i];
        if v == 0xff {
            None
        } else {
            Some(v as u16)
        }
    }
}

/// The payload that the tag of block `b` names lies within the encoding.
pub open spec fn tag_in_bounds(d: Seq<u8>, b: int) -> bool {
    let t = stored_tag(d, b);
    ||| t == TAG_ABSENT
    ||| t == TAG_ZERO
    ||| (t < TAG_WIDE && payload_base(t) + PAYLOAD_UNIT <= d.len())
    ||| (TAG_WIDE <= t && payload_base(t) + 2 * PAYLOAD_UNIT <= d.len())
}

/// An encoding has its header and directory, and every tag names a payload
/// within it.
pub open spec fn layout_valid(d: Seq<u8>) -> bool {
    &&& d.len() >= PAYLOAD_START
    &&& forall|b: int| 0 <= b < BLOCKS ==> #[trigger] tag_in_bounds(d, b)
}

/// `256` to the power `n`.
pub open spec fn pow256(n: nat) -> nat
    decreases n,
{
    if n == 0 {
        1
    } else {
        256 * pow256((n - 1) as nat)
    }
}

/// Reading back the little-endian bytes of a number gives the number.
pub proof fn lemma_le_round_trip(u: nat, n: nat)
    requires
        u < pow256(n),
    ensures
        le_bytes(u, n).len() == n,
        le_value(le_bytes(u, n)) == u,
    decreases n,
{
    if n > 0 {
        let p = pow256((n - 1) as nat);
        assert(u / 256 < p) by (nonlinear_arith)
            requires
                u < 256 * p,
        ;
        lemma_le_round_trip(u / 256, (n - 1) as nat);
        let s = le_bytes(u, n);
        assert(s.drop_first() =~= le_bytes(u / 256, (n - 1) as nat));
        assert(u == u % 256 + 256 * (u / 256)) by (nonlinear_arith);
    }
}

/// The 8 header bytes read back as the base time.
pub proof fn lemma_time_round_trip(t: i64)
    ensures
        le_bytes(unsigned(t), 8).len() == 8,
        signed(le_value(le_bytes(unsigned(t), 8))) == t,
{
    assert(pow256(8) == 0x1_0000_0000_0000_0000) by {
        assert(pow256(0) == 1);
        assert(pow256(1) == 256);
        assert(pow256(2) == 65536);
        assert(pow256(3) == 16777216);
        assert(pow256(4) == 4294967296);
        assert(pow256(5) == 1099511627776);
        assert(pow256(6) == 281474976710656);
        assert(pow256(7) == 72057594037927936);
    }
    lemma_le_round_trip(unsigned(t), 8);
}

/// Each block takes at most two payload units, and units only add up.
pub proof fn lemma_units_before_bounds<T: RainRadarValues>(g: &T, a: int, b: int)
    requires
        0 <= a <= b,
    ensures
        0 <= units_before(g, a) <= units_before(g, b) <= 2 * b,
    decreases b,
{
    if b > 0 {
        if a < b {
            lemma_units_before_bounds(g, a, b - 1);
        } else {
            lemma_units_before_bounds(g, b - 1, b - 1);
        }
    }
}

pub proof fn lemma_payload_len(c: Seq<Option<u16>>)
    ensures
        payload_of(c).len() == PAYLOAD_UNIT * units(kind_of(c)),
{
    reveal(payload_of);
}

/// The payloads of the first `n` blocks fill `n`'s units.
pub proof fn lemma_payloads_len<T: RainRadarValues>(g: &T, n: int)
    requires
        0 <= n,
    ensures
        payloads(g, n).len() == PAYLOAD_UNIT * units_before(g, n),
    decreases n,
{
    if n > 0 {
        lemma_payloads_len(g, n - 1);
        lemma_payload_len(block_cells(g, n - 1));
    }
}

proof fn lemma_concat_index(a: Seq<u8>, c: Seq<u8>, i: int)
    requires
        0 <= i < a.len() + c.len(),
    ensures
        (a + c)[i] == if i < a.len() {
            a[i]
        } else {
            c[i - a.len()]
        },
{
}

/// The payload of block `b` starts at its units before it.
pub proof fn lemma_payload_at<T: RainRadarValues>(g: &T, b: int, n: int, j: int)
    requires
        0 <= b < n,
        0 <= j < payload_of(block_cells(g, b)).len(),
    ensures
        PAYLOAD_UNIT * units_before(g, b) + j < payloads(g, n).len(),
        payloads(g, n)[PAYLOAD_UNIT * units_before(g, b) + j] == payload_of(block_cells(g, b))[j],
    decreases n,
{
    lemma_payloads_len(g, n - 1);
    lemma_payloads_len(g, n);
    lemma_payload_len(block_cells(g, b));
    lemma_units_before_bounds(g, b, b);
    let at = PAYLOAD_UNIT * units_before(g, b) + j;
    let front = payloads(g, n - 1);
    let last = payload_of(block_cells(g, n - 1));
    assert(payloads(g, n) == front + last);
    if n == b + 1 {
        lemma_payloads_len(g, b);
        lemma_concat_index(front, last, at);
    } else {
        lemma_payload_at(g, b, n - 1, j);
        lemma_concat_index(front, last, at);
    }
}

/// Where block `(k, xb, yb)` stands in the directory, and back.
pub proof fn lemma_block_number(k: int, xb: int, yb: int)
    requires
        0 <= k < TIME_SLOTS,
        0 <= xb < 11,
        0 <= yb < 12,
    ensures
        0 <= block_number(k, xb, yb) < BLOCKS,
        block_slot(block_number(k, xb, yb)) == k,
        block_x(block_number(k, xb, yb)) == xb,
        block_y(block_number(k, xb, yb)) == yb,
{
    let b = block_number(k, xb, yb);
    vstd::arithmetic::div_mod::lemma_fundamental_div_mod_converse(b, 132, k, 12 * xb + yb);
    vstd::arithmetic::div_mod::lemma_fundamental_div_mod_converse(12 * xb + yb, 12, xb, yb);
    vstd::arithmetic::div_mod::lemma_fundamental_div_mod_converse(b, 12, 11 * k + xb, yb);
}

/// Every block number names a slot, an x-block and a y-block.
pub proof fn lemma_block_parts(b: int)
    requires
        0 <= b < BLOCKS,
    ensures
        0 <= block_slot(b) < TIME_SLOTS,
        0 <= block_x(b) < 11,
        0 <= block_y(b) < 12,
        block_number(block_slot(b), block_x(b), block_y(b)) == b,
{
    vstd::arithmetic::div_mod::lemma_fundamental_div_mod(b, 132);
    vstd::arithmetic::div_mod::lemma_fundamental_div_mod(b % 132, 12);
    vstd::arithmetic::div_mod::lemma_mod_mod(b, 12, 11);
}

/// A tag's two bytes read back as the tag.
proof fn lemma_word_bytes(w: int)
    requires
        0 <= w < 0x10000,
    ensures
        word_byte(w, 0) + 256 * word_byte(w, 1) == w,
{
}

/// The bytes of an encoding: header, directory, payloads.
pub proof fn lemma_encoded_parts<T: RainRadarValues>(g: &T)
    ensures
        ({
            let d = encoded(g);
            &&& d.len() == PAYLOAD_START + PAYLOAD_UNIT * units_before(g, BLOCKS as int)
            &&& d.subrange(0, 8) == le_bytes(unsigned(g.base_time()), 8)
            &&& forall|i: int|
                0 <= i < 6600 ==> #[trigger] d[DIRECTORY_START + i] == directory(g)[i]
            &&& forall|i: int|
                0 <= i < payloads(g, BLOCKS as int).len() ==> #[trigger] d[PAYLOAD_START + i]
                    == payloads(g, BLOCKS as int)[i]
        }),
{
    lemma_time_round_trip(g.base_time());
    lemma_payloads_len(g, BLOCKS as int);
    let d = encoded(g);
    let h = le_bytes(unsigned(g.base_time()), 8);
    assert(d.subrange(0, 8) =~= h);
}

/// The tag that an encoding holds for block `b` is the block's tag, and it
/// names a payload within the encoding.
pub proof fn lemma_encoded_tag<T: RainRadarValues>(g: &T, b: int)
    requires
        0 <= b < BLOCKS,
    ensures
        stored_tag(encoded(g), b) == tag_of(g, b),
        tag_in_bounds(encoded(g), b),
        0 <= units_before(g, b) <= 6598,
{
    lemma_encoded_parts(g);
    lemma_units_before_bounds(g, b, b);
    lemma_units_before_bounds(g, b, b + 1);
    lemma_units_before_bounds(g, b + 1, BLOCKS as int);
    let d = encoded(g);
    let t = tag_of(g, b);
    assert(d[DIRECTORY_START + 2 * b] == directory(g)[2 * b]);
    assert(d[DIRECTORY_START + 2 * b + 1] == directory(g)[2 * b + 1]);
    vstd::arithmetic::div_mod::lemma_fundamental_div_mod_converse(2 * b, 2, b, 0);
    vstd::arithmetic::div_mod::lemma_fundamental_div_mod_converse(2 * b + 1, 2, b, 1);
    assert(0 <= t < 0x10000);
    lemma_word_bytes(t);
    assert(t % 0x8000 == units_before(g, b) || t == TAG_ABSENT || t == TAG_ZERO);
}

/// Reading a cell of the encoding of a grid gives the grid's cell.
pub proof fn lemma_encoded_cell<T: RainRadarValues>(g: &T, k: int, x: int, y: int)
    requires
        g.wf(),
        in_grid(k, x, y),
    ensures
        stored_cell(encoded(g), k, x, y) == g.cell(k, x, y),
{
    g.lemma_wf();
    let xb = x / 100;
    let yb = y / 100;
    let b = block_number(k, xb, yb);
    let i = 100 * (y % 100) + x % 100;
    lemma_block_number(k, xb, yb);
    vstd::arithmetic::div_mod::lemma_fundamental_div_mod_converse(i, 100, y % 100, x % 100);
    let c = block_cells(g, b);
    assert(c[i] == g.cell(k, x, y));
    lemma_encoded_tag(g, b);
    lemma_encoded_parts(g);
    let d = encoded(g);
    let t = stored_tag(d, b);
    assert(valid_cell(g.cell(k, x, y)));
    reveal(payload_of);
    match kind_of(c) {
        BlockKind::Absent => {},
        BlockKind::Zero => {},
        BlockKind::Narrow => {
            let u = units_before(g, b);
            assert(t == u);
            lemma_payload_at(g, b, BLOCKS as int, i);
            assert(d[payload_base(t) + i] == payload_of(c)[i]);
            assert(payload_of(c)[i] == narrow_byte(c[i]));
            if let Some(w) = c[i] {
                assert(w <= 254);
            }
        },
        BlockKind::Wide => {
            let u = units_before(g, b);
            assert(t == u + TAG_WIDE);
            assert(t % 0x8000 == u);
            lemma_payload_at(g, b, BLOCKS as int, 2 * i);
            lemma_payload_at(g, b, BLOCKS as int, 2 * i + 1);
            vstd::arithmetic::div_mod::lemma_fundamental_div_mod_converse(2 * i, 2, i, 0);
            vstd::arithmetic::div_mod::lemma_fundamental_div_mod_converse(2 * i + 1, 2, i, 1);
            let w = wide_word(c[i]) as int;
            assert(payload_of(c)[2 * i] == word_byte(w, 2 * i));
            assert(payload_of(c)[2 * i + 1] == word_byte(w, 2 * i + 1));
            lemma_word_bytes(w);
        },
    }
}

/// Law of the layout: an encoding is 6608 bytes plus 10,000 for each payload
/// unit, and every tag names a payload that lies within it.
pub proof fn lemma_encoded_layout<T: RainRadarValues>(g: &T)
    ensures
        encoded(g).len() == PAYLOAD_START + PAYLOAD_UNIT * units_before(g, BLOCKS as int),
        layout_valid(encoded(g)),
        units_before(g, BLOCKS as int) <= 2 * BLOCKS,
{
    lemma_encoded_parts(g);
    lemma_units_before_bounds(g, BLOCKS as int, BLOCKS as int);
    assert forall|b: int| 0 <= b < BLOCKS implies #[trigger] tag_in_bounds(encoded(g), b) by {
        lemma_encoded_tag(g, b);
    }
}

} // verus!
