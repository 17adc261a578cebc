//! The header of one RV frame: a product code, an ASCII wall time, a run of
//! self-identifying records and an ETX byte, followed by the binary body.
use vstd::prelude::*;

verus! {

/// Length of a frame body: 1100 x 1200 cells of two bytes.
pub const FRAME_BYTES: usize = 2640000;

/// Offset of the first record, right after the wall time fields.
pub const RECORDS_START: usize = 17;

/// Why an archive could not be decoded.
#[derive(Debug)]
pub enum DecodeError {
    /// The bzip2 or tar framing could not be read.
    Archive(std::io::Error),
    /// A frame ends inside its header.
    Truncated,
    /// An ASCII integer field does not hold an integer.
    NotAnInteger,
    /// A record misses the space that follows its identifier.
    MissingSpace,
    /// The product code is not `RV`.
    WrongProductCode,
    UnsupportedVersion { version: u32 },
    UnsupportedPrecision,
    UnsupportedResolution,
    /// The prediction time of frame `index` is not `5 * index`.
    WrongPredictionTime { index: usize, prediction_time: u32 },
    WrongInterval { interval: u32 },
    UnknownRecord,
    /// The wall time of the first frame does not exist.
    InvalidTime,
    /// A frame's wall time differs from the first frame's.
    TimeMismatch,
    /// A frame body is not 2,640,000 bytes long.
    WrongBodyLength { length: usize },
    /// The archive does not hold 25 frames.
    WrongEntryCount { count: usize },
    /// A present cell holds a value above 4095.
    ValueOutOfRange,
}

/// The wall time that a frame header declares; the year has two digits.
#[derive(Clone, Copy, Debug, PartialEq, Eq, Structural)]
pub struct WallTime {
    pub year: u32,
    pub month: u32,
    pub day: u32,
    pub hour: u32,
    pub minute: u32,
}

/// ASCII white space: space, tab, line feed, vertical tab, form feed, carriage return.
pub open spec fn is_space(b: u8) -> bool {
    b == 0x20 || (0x09 <= b && b <= 0x0d)
}

pub open spec fn is_digit(b: u8) -> bool {
    0x30 <= b && b <= 0x39
}

/// Whether `a b c` is the UTF-8 encoding of a three-byte white space
/// character: U+1680, U+2000 to U+200A, U+2028, U+2029, U+202F, U+205F or U+3000.
pub open spec fn is_wide_space(a: u8, b: u8, c: u8) -> bool {
    ||| (a == 0xe1 && b == 0x9a && c == 0x80)
    ||| (a == 0xe2 && b == 0x80 && ((0x80 <= c && c <= 0x8a) || c == 0xa8 || c == 0xa9 || c
        == 0xaf))
    ||| (a == 0xe2 && b == 0x81 && c == 0x9f)
    ||| (a == 0xe3 && b == 0x80 && c == 0x80)
}

/// Whether `a b` is the UTF-8 encoding of U+0085 or U+00A0.
pub open spec fn is_narrow_space(a: u8, b: u8) -> bool {
    a == 0xc2 && (b == 0x85 || b == 0xa0)
}

/// Length of the UTF-8 encoded white space character that starts at `i`
/// and ends by `hi`, or 0 where there is none.
pub open spec fn space_len_at(s: Seq<u8>, i: int, hi: int) -> int {
    if i < hi && is_space(s[i]) {
        1
    } else if i + 2 <= hi && is_narrow_space(s[i], s[i + 1]) {
        2
    } else if i + 3 <= hi && is_wide_space(s[i], s[i + 1], s[i + 2]) {
        3
    } else {
        0
    }
}

/// Length of the UTF-8 encoded white space character that ends at `j` and
/// starts at `lo` or later, or 0 where there is none.
pub open spec fn space_len_before(s: Seq<u8>, lo: int, j: int) -> int {
    if lo < j && is_space(s[j - 1]) {
        1
    } else if lo + 2 <= j && is_narrow_space(s[j - 2], s[j - 1]) {
        2
    } else if lo + 3 <= j && is_wide_space(s[j - 3], s[j - 2], s[j - 1]) {
        3
    } else {
        0
    }
}

/// The first position from `i` on, before `hi`, that starts no white space
/// character.
pub open spec fn skip_spaces(s: Seq<u8>, i: int, hi: int) -> int
    decreases hi - i,
{
    if i < hi && space_len_at(s, i, hi) > 0 {
        skip_spaces(s, i + space_len_at(s, i, hi), hi)
    } else {
        i
    }
}

/// `hi` moved left past white space characters, not below `lo`.
pub open spec fn trim_end(s: Seq<u8>, lo: int, hi: int) -> int
    decreases hi - lo,
{
    if lo < hi && space_len_before(s, lo, hi) > 0 {
        trim_end(s, lo, hi - space_len_before(s, lo, hi))
    } else {
        hi
    }
}

/// The value of the decimal digits `s[lo..hi]`.
pub open spec fn digits_value(s: Seq<u8>, lo: int, hi: int) -> int
    decreases hi - lo,
{
    if lo < hi {
        digits_value(s, lo, hi - 1) * 10 + (s[hi - 1] - 0x30)
    } else {
        0
    }
}

pub open spec fn all_digits(s: Seq<u8>, lo: int, hi: int) -> bool {
    forall|k: int| lo <= k < hi ==> is_digit(#[trigger] s[k])
}

/// The unsigned 32-bit number that `s[lo..hi]` spells: Unicode white space
/// (UTF-8 encoded) around, an optional `+`, then at least one decimal digit.
/// These are exactly the fields that are UTF-8, and read as a `u32` once
/// trimmed of white space.
pub open spec fn trimmed_number(s: Seq<u8>, lo: int, hi: int) -> Option<u32> {
    let a = skip_spaces(s, lo, hi);
    let b = trim_end(s, a, hi);
    let d = if a < b && s[a] == 0x2b {
        a + 1
    } else {
        a
    };
    if d < b && all_digits(s, d, b) && digits_value(s, d, b) <= u32::MAX {
        Some(digits_value(s, d, b) as u32)
    } else {
        None
    }
}

/// The integer field of `len` bytes at `pos`.
pub open spec fn field(e: Seq<u8>, pos: int, len: int) -> Result<u32, DecodeError> {
    if pos + len > e.len() {
        Err(DecodeError::Truncated)
    } else {
        match trimmed_number(e, pos, pos + len) {
            Some(v) => Ok(v),
            None => Err(DecodeError::NotAnInteger),
        }
    }
}

/// The check that `e[pos]` is a space.
pub open spec fn space_at(e: Seq<u8>, pos: int) -> Result<(), DecodeError> {
    if pos >= e.len() {
        Err(DecodeError::Truncated)
    } else if e[pos] != 0x20 {
        Err(DecodeError::MissingSpace)
    } else {
        Ok(())
    }
}

/// The product code and the wall time at the start of a frame.
pub open spec fn header_time(e: Seq<u8>) -> Result<WallTime, DecodeError> {
    if e.len() < 2 {
        Err(DecodeError::Truncated)
    } else if e[0] != 0x52 || e[1] != 0x56 {
        Err(DecodeError::WrongProductCode)
    } else {
        match field(e, 2, 2) {
            Err(x) => Err(x),
            Ok(day) => match field(e, 4, 2) {
                Err(x) => Err(x),
                Ok(hour) => match field(e, 6, 2) {
                    Err(x) => Err(x),
                    Ok(minute) => match field(e, 8, 5) {
                        Err(x) => Err(x),
                        Ok(_) => match field(e, 13, 2) {
                            Err(x) => Err(x),
                            Ok(month) => match field(e, 15, 2) {
                                Err(x) => Err(x),
                                Ok(year) => Ok(WallTime { year, month, day, hour, minute }),
                            },
                        },
                    },
                },
            },
        }
    }
}

pub open spec fn precision_text() -> Seq<u8> {
    seq![0x45u8, 0x2d, 0x30, 0x32]
}

pub open spec fn resolution_text() -> Seq<u8> {
    seq![0x31u8, 0x32, 0x30, 0x30, 0x78, 0x31, 0x31, 0x30, 0x30]
}

/// Whether `e` holds the two-letter identifier `a b` at `pos`.
pub open spec fn tag2(e: Seq<u8>, pos: int, a: u8, b: u8) -> bool {
    e[pos] == a && e[pos + 1] == b
}

/// A field of `len` bytes at `pos + offset` that only has to be an integer;
/// the record ends right after it.
pub open spec fn plain_field_record(e: Seq<u8>, pos: int, offset: int, len: int) -> Result<
    int,
    DecodeError,
> {
    match field(e, pos + offset, len) {
        Err(x) => Err(x),
        Ok(_) => Ok(pos + offset + len),
    }
}

/// `VS`: a space and a one-digit format version, which must be 3.
pub open spec fn version_record(e: Seq<u8>, pos: int) -> Result<int, DecodeError> {
    match space_at(e, pos + 2) {
        Err(x) => Err(x),
        Ok(_) => match field(e, pos + 3, 1) {
            Err(x) => Err(x),
            Ok(v) => if v != 3 {
                Err(DecodeError::UnsupportedVersion { version: v })
            } else {
                Ok(pos + 4)
            },
        },
    }
}

/// `SW`: nine bytes of software version, not read.
pub open spec fn software_record(e: Seq<u8>, pos: int) -> Result<int, DecodeError> {
    if pos + 11 > e.len() {
        Err(DecodeError::Truncated)
    } else {
        Ok(pos + 11)
    }
}

/// `PR`: a space and the precision, which must be `E-02`.
pub open spec fn precision_record(e: Seq<u8>, pos: int) -> Result<int, DecodeError> {
    match space_at(e, pos + 2) {
        Err(x) => Err(x),
        Ok(_) => if pos + 7 > e.len() {
            Err(DecodeError::Truncated)
        } else if e.subrange(pos + 3, pos + 7) != precision_text() {
            Err(DecodeError::UnsupportedPrecision)
        } else {
            Ok(pos + 7)
        },
    }
}

/// `GP`: the resolution, which must be `1200x1100`.
pub open spec fn resolution_record(e: Seq<u8>, pos: int) -> Result<int, DecodeError> {
    if pos + 11 > e.len() {
        Err(DecodeError::Truncated)
    } else if e.subrange(pos + 2, pos + 11) != resolution_text() {
        Err(DecodeError::UnsupportedResolution)
    } else {
        Ok(pos + 11)
    }
}

/// `VV`: a space and the prediction time, which must be `5 * index`.
pub open spec fn prediction_record(e: Seq<u8>, pos: int, index: int) -> Result<int, DecodeError> {
    match space_at(e, pos + 2) {
        Err(x) => Err(x),
        Ok(_) => match field(e, pos + 3, 3) {
            Err(x) => Err(x),
            Ok(v) => if v != 5 * index {
                Err(DecodeError::WrongPredictionTime { index: index as usize, prediction_time: v })
            } else {
                Ok(pos + 6)
            },
        },
    }
}

/// `MF`: a space and eight digits of module flags.
pub open spec fn flags_record(e: Seq<u8>, pos: int) -> Result<int, DecodeError> {
    match space_at(e, pos + 2) {
        Err(x) => Err(x),
        Ok(_) => plain_field_record(e, pos, 3, 8),
    }
}

/// `MS`: a three-digit length and a text of that length.
pub open spec fn text_record(e: Seq<u8>, pos: int) -> Result<int, DecodeError> {
    match field(e, pos + 2, 3) {
        Err(x) => Err(x),
        Ok(n) => if pos + 5 + n > e.len() {
            Err(DecodeError::Truncated)
        } else {
            Ok(pos + 5 + n)
        },
    }
}

/// `INT`: the interval in minutes, which must be 5.
pub open spec fn interval_record(e: Seq<u8>, pos: int) -> Result<int, DecodeError> {
    match field(e, pos + 3, 4) {
        Err(x) => Err(x),
        Ok(v) => if v != 5 {
            Err(DecodeError::WrongInterval { interval: v })
        } else {
            Ok(pos + 7)
        },
    }
}

/// The record at `pos`, which is not ETX, for the frame at `index`: the
/// position right after it, or its fault. Two identifier bytes are matched
/// first; only when they name no record is a third one read.
pub open spec fn record_end(e: Seq<u8>, pos: int, index: int) -> Result<int, DecodeError> {
    if pos + 1 >= e.len() {
        Err(DecodeError::Truncated)
    } else if tag2(e, pos, 0x42, 0x59) {
        // BY: product length
        plain_field_record(e, pos, 2, 7)
    } else if tag2(e, pos, 0x56, 0x53) {
        version_record(e, pos)
    } else if tag2(e, pos, 0x53, 0x57) {
        software_record(e, pos)
    } else if tag2(e, pos, 0x50, 0x52) {
        precision_record(e, pos)
    } else if tag2(e, pos, 0x47, 0x50) {
        resolution_record(e, pos)
    } else if tag2(e, pos, 0x56, 0x56) {
        prediction_record(e, pos, index)
    } else if tag2(e, pos, 0x4d, 0x46) {
        flags_record(e, pos)
    } else if tag2(e, pos, 0x4d, 0x53) {
        text_record(e, pos)
    } else if pos + 2 >= e.len() {
        Err(DecodeError::Truncated)
    } else if tag2(e, pos, 0x49, 0x4e) && e[pos + 2] == 0x54 {
        interval_record(e, pos)
    } else {
        Err(DecodeError::UnknownRecord)
    }
}

/// The records from `pos` up to and including ETX, for the frame at `index`:
/// the position of the body, or the first fault.
pub open spec fn records(e: Seq<u8>, pos: int, index: int) -> Result<int, DecodeError>
    decreases e.len() - pos,
{
    if pos < 0 || pos >= e.len() {
        Err(DecodeError::Truncated)
    } else if e[pos] == 0x03 {
        Ok(pos + 1)
    } else {
        match record_end(e, pos, index) {
            Err(x) => Err(x),
            Ok(p) => if pos < p {
                records(e, p, index)
            } else {
                Err(DecodeError::Truncated)
            },
        }
    }
}

/// Length of the white space character at `i`, as `space_len_at` says.
fn white_space_at(s: &[u8], i: usize, hi: usize) -> (r: usize)
    requires
        i <= hi <= s@.len(),
    ensures
        r == space_len_at(s@, i as int, hi as int),
{
    if i < hi && (s[i] == 0x20 || (0x09 <= s[i] && s[i] <= 0x0d)) {
        1
    } else if hi - i >= 2 && s[i] == 0xc2 && (s[i + 1] == 0x85 || s[i + 1] == 0xa0) {
        2
    } else if hi - i >= 3 && wide_space(s[i], s[i + 1], s[i + 2]) {
        3
    } else {
        0
    }
}

/// Length of the white space character that ends at `j`, as `space_len_before` says.
fn white_space_before(s: &[u8], lo: usize, j: usize) -> (r: usize)
    requires
        lo <= j <= s@.len(),
    ensures
        r == space_len_before(s@, lo as int, j as int),
{
    if lo < j && (s[j - 1] == 0x20 || (0x09 <= s[j - 1] && s[j - 1] <= 0x0d)) {
        1
    } else if j - lo >= 2 && s[j - 2] == 0xc2 && (s[j - 1] == 0x85 || s[j - 1] == 0xa0) {
        2
    } else if j - lo >= 3 && wide_space(s[j - 3], s[j - 2], s[j - 1]) {
        3
    } else {
        0
    }
}

fn wide_space(a: u8, b: u8, c: u8) -> (r: bool)
    ensures
        r == is_wide_space(a, b, c),
{
    (a == 0xe1 && b == 0x9a && c == 0x80) || (a == 0xe2 && b == 0x80 && ((0x80 <= c && c <= 0x8a)
        || c == 0xa8 || c == 0xa9 || c == 0xaf)) || (a == 0xe2 && b == 0x81 && c == 0x9f) || (a
        == 0xe3 && b == 0x80 && c == 0x80)
}

/// The number that `s[lo..hi]` spells, as `trimmed_number` says.
pub fn parse_number(s: &[u8], lo: usize, hi: usize) -> (r: Option<u32>)
    requires
        lo <= hi <= s@.len(),
    ensures
        r == trimmed_number(s@, lo as int, hi as int),
{
    let mut a = lo;
    loop
        invariant
            lo <= a <= hi <= s@.len(),
            skip_spaces(s@, a as int, hi as int) == skip_spaces(s@, lo as int, hi as int),
        ensures
            lo <= a <= hi,
            skip_spaces(s@, lo as int, hi as int) == a,
        decreases hi - a,
    {
        let n = white_space_at(s, a, hi);
        if n == 0 {
            break;
        }
        a = a + n;
    }
    let mut b = hi;
    loop
        invariant
            a <= b <= hi <= s@.len(),
            trim_end(s@, a as int, b as int) == trim_end(s@, a as int, hi as int),
        ensures
            a <= b <= hi,
            trim_end(s@, a as int, hi as int) == b,
        decreases b - a,
    {
        let n = white_space_before(s, a, b);
        if n == 0 {
            break;
        }
        b = b - n;
    }
    let d = if a < b && s[a] == 0x2b {
        a + 1
    } else {
        a
    };
    if d >= b {
        return None;
    }
    let mut value: u32 = 0;
    let mut k = d;
    while k < b
        invariant
            lo <= hi <= s@.len(),
            skip_spaces(s@, lo as int, hi as int) == a,
            trim_end(s@, a as int, hi as int) == b,
            d == (if a < b && s@[a as int] == 0x2b {
                a + 1
            } else {
                a as int
            }),
            d <= k <= b <= s@.len(),
            all_digits(s@, d as int, k as int),
            value == digits_value(s@, d as int, k as int),
        decreases b - k,
    {
        let c = s[k];
        if c < 0x30 || c > 0x39 {
            assert(!all_digits(s@, d as int, b as int));
            return None;
        }
        let digit = (c - 0x30) as u32;
        if value > (u32::MAX - digit) / 10 {
            assert(value * 10 + digit > u32::MAX) by (nonlinear_arith)
                requires
                    value > (u32::MAX - digit) / 10,
                    digit <= 9,
            ;
            assert(digits_value(s@, d as int, k + 1) == value * 10 + digit);
            proof {
                if all_digits(s@, d as int, b as int) {
                    lemma_digits_value_grows(s@, d as int, k as int + 1, b as int);
                }
            }
            return None;
        }
        value = value * 10 + digit;
        k = k + 1;
    }
    Some(value)
}

proof fn lemma_skip_spaces_bounds(s: Seq<u8>, i: int, hi: int)
    requires
        i <= hi,
    ensures
        i <= skip_spaces(s, i, hi) <= hi,
    decreases hi - i,
{
    if i < hi && space_len_at(s, i, hi) > 0 {
        lemma_skip_spaces_bounds(s, i + space_len_at(s, i, hi), hi);
    }
}

proof fn lemma_trim_end_bounds(s: Seq<u8>, lo: int, hi: int)
    requires
        lo <= hi,
    ensures
        lo <= trim_end(s, lo, hi) <= hi,
    decreases hi - lo,
{
    if lo < hi && space_len_before(s, lo, hi) > 0 {
        lemma_trim_end_bounds(s, lo, hi - space_len_before(s, lo, hi));
    }
}

/// A field of two bytes holds a number below 100.
pub proof fn lemma_two_digit_field(e: Seq<u8>, pos: int)
    requires
        0 <= pos,
        field(e, pos, 2) is Ok,
    ensures
        field(e, pos, 2)->Ok_0 <= 99,
{
    let a = skip_spaces(e, pos, pos + 2);
    lemma_skip_spaces_bounds(e, pos, pos + 2);
    let b = trim_end(e, a, pos + 2);
    lemma_trim_end_bounds(e, a, pos + 2);
    let d = if a < b && e[a] == 0x2b {
        a + 1
    } else {
        a
    };
    assert(all_digits(e, d, b));
    if b - d == 2 {
        assert(digits_value(e, d, b) == digits_value(e, d, b - 1) * 10 + (e[b - 1] - 0x30));
        assert(digits_value(e, d, b - 1) == digits_value(e, d, d) * 10 + (e[d] - 0x30));
    } else {
        assert(digits_value(e, d, b) == digits_value(e, d, b - 1) * 10 + (e[b - 1] - 0x30));
    }
}

/// A frame's header gives a two-digit year.
pub proof fn lemma_header_year(e: Seq<u8>)
    requires
        header_time(e) is Ok,
    ensures
        header_time(e)->Ok_0.year <= 99,
{
    lemma_two_digit_field(e, 15);
}

/// Appending digits never makes a value smaller.
proof fn lemma_digits_value_grows(s: Seq<u8>, lo: int, mid: int, hi: int)
    requires
        lo <= mid <= hi,
        all_digits(s, lo, hi),
    ensures
        digits_value(s, lo, mid) <= digits_value(s, lo, hi),
    decreases hi - mid,
{
    if mid < hi {
        lemma_digits_value_grows(s, lo, mid, hi - 1);
        lemma_digits_value_nonnegative(s, lo, hi - 1);
    }
}

proof fn lemma_digits_value_nonnegative(s: Seq<u8>, lo: int, hi: int)
    requires
        all_digits(s, lo, hi),
    ensures
        0 <= digits_value(s, lo, hi),
    decreases hi - lo,
{
    if lo < hi {
        lemma_digits_value_nonnegative(s, lo, hi - 1);
    }
}

/// The integer field of `len` bytes at `pos + offset`, as `field` says.
fn read_field(e: &[u8], pos: usize, offset: usize, len: usize) -> (r: Result<u32, DecodeError>)
    requires
        pos <= e@.len(),
        offset + len <= 32,
    ensures
        r == field(e@, pos + offset, len as int),
        r is Ok ==> pos + offset + len <= e@.len() <= usize::MAX,
{
    if e.len() - pos < offset + len {
        Err(DecodeError::Truncated)
    } else {
        match parse_number(e, pos + offset, pos + offset + len) {
            Some(v) => Ok(v),
            None => Err(DecodeError::NotAnInteger),
        }
    }
}

fn expect_space(e: &[u8], pos: usize, offset: usize) -> (r: Result<(), DecodeError>)
    requires
        pos <= e@.len(),
        offset <= 16,
    ensures
        r == space_at(e@, pos + offset),
        r is Ok ==> pos + offset < e@.len() <= usize::MAX,
{
    if e.len() - pos <= offset {
        return Err(DecodeError::Truncated);
    }
    let b = e[pos + offset];
    if b != 0x20 {
        assert(e@[pos + offset] != 0x20);
        Err(DecodeError::MissingSpace)
    } else {
        Ok(())
    }
}

/// The product code and wall time at the start of frame `e`.
pub fn parse_header_time(e: &[u8]) -> (r: Result<WallTime, DecodeError>)
    ensures
        r == header_time(e@),
{
    if e.len() < 2 {
        return Err(DecodeError::Truncated);
    }
    if e[0] != 0x52 || e[1] != 0x56 {
        return Err(DecodeError::WrongProductCode);
    }
    let day = match read_field(e, 0, 2, 2) {
        Ok(v) => v,
        Err(x) => return Err(x),
    };
    let hour = read_field(e, 0, 4, 2)?;
    let minute = match read_field(e, 0, 6, 2) {
        Ok(v) => v,
        Err(x) => return Err(x),
    };
    let _station = read_field(e, 0, 8, 5)?;
    let month = match read_field(e, 0, 13, 2) {
        Ok(v) => v,
        Err(x) => return Err(x),
    };
    let year = read_field(e, 0, 15, 2)?;
    Ok(WallTime { year, month, day, hour, minute })
}

/// Whether `e` holds `expected` at `pos`.
fn holds_at(e: &[u8], pos: usize, expected: &[u8]) -> (r: bool)
    requires
        pos + expected@.len() <= e@.len(),
    ensures
        r == (e@.subrange(pos as int, pos + expected@.len()) == expected@),
{
    let n = e.len();
    let mut k: usize = 0;
    while k < expected.len()
        invariant
            n == e@.len(),
            k <= expected@.len(),
            pos + expected@.len() <= e@.len(),
            e@.subrange(pos as int, pos + k) == expected@.subrange(0, k as int),
        decreases expected@.len() - k,
    {
        if e[pos + k] != expected[k] {
            assert(e@.subrange(pos as int, pos + expected@.len())[k as int] != expected@[k as int]);
            return false;
        }
        assert(e@.subrange(pos as int, pos + k + 1) =~= expected@.subrange(0, k + 1));
        k = k + 1;
    }
    assert(expected@.subrange(0, k as int) =~= expected@);
    true
}

/// How a record ends, as an exec value: `Ok(p)` stands for `Ok(p as int)`.
pub open spec fn same_end(r: Result<usize, DecodeError>, s: Result<int, DecodeError>) -> bool {
    match s {
        Ok(p) => r == Ok::<usize, DecodeError>(p as usize),
        Err(x) => r == Err::<usize, DecodeError>(x),
    }
}

fn parse_plain_field(e: &[u8], pos: usize, offset: usize, len: usize) -> (r: Result<
    usize,
    DecodeError,
>)
    requires
        pos < e@.len(),
        offset + len <= 16,
    ensures
        same_end(r, plain_field_record(e@, pos as int, offset as int, len as int)),
{
    if let Err(x) = read_field(e, pos, offset, len) {
        return Err(x);
    }
    Ok(pos + offset + len)
}

fn parse_version(e: &[u8], pos: usize) -> (r: Result<usize, DecodeError>)
    requires
        pos < e@.len(),
    ensures
        same_end(r, version_record(e@, pos as int)),
{
    if let Err(x) = expect_space(e, pos, 2) {
        return Err(x);
    }
    let v = match read_field(e, pos, 3, 1) {
        Ok(v) => v,
        Err(x) => return Err(x),
    };
    if v != 3 {
        return Err(DecodeError::UnsupportedVersion { version: v });
    }
    Ok(pos + 4)
}

fn parse_software(e: &[u8], pos: usize) -> (r: Result<usize, DecodeError>)
    requires
        pos < e@.len(),
    ensures
        same_end(r, software_record(e@, pos as int)),
{
    if e.len() - pos < 11 {
        return Err(DecodeError::Truncated);
    }
    Ok(pos + 11)
}

fn parse_precision(e: &[u8], pos: usize) -> (r: Result<usize, DecodeError>)
    requires
        pos < e@.len(),
    ensures
        same_end(r, precision_record(e@, pos as int)),
{
    if let Err(x) = expect_space(e, pos, 2) {
        return Err(x);
    }
    if e.len() - pos < 7 {
        return Err(DecodeError::Truncated);
    }
    let precision: [u8; 4] = [0x45, 0x2d, 0x30, 0x32];
    assert(precision@ == precision_text());
    if !holds_at(e, pos + 3, &precision) {
        return Err(DecodeError::UnsupportedPrecision);
    }
    Ok(pos + 7)
}

fn parse_resolution(e: &[u8], pos: usize) -> (r: Result<usize, DecodeError>)
    requires
        pos < e@.len(),
    ensures
        same_end(r, resolution_record(e@, pos as int)),
{
    if e.len() - pos < 11 {
        return Err(DecodeError::Truncated);
    }
    let resolution: [u8; 9] = [0x31, 0x32, 0x30, 0x30, 0x78, 0x31, 0x31, 0x30, 0x30];
    assert(resolution@ == resolution_text());
    if !holds_at(e, pos + 2, &resolution) {
        return Err(DecodeError::UnsupportedResolution);
    }
    Ok(pos + 11)
}

fn parse_prediction(e: &[u8], pos: usize, index: usize) -> (r: Result<usize, DecodeError>)
    requires
        pos < e@.len(),
    ensures
        same_end(r, prediction_record(e@, pos as int, index as int)),
{
    if let Err(x) = expect_space(e, pos, 2) {
        return Err(x);
    }
    let v = match read_field(e, pos, 3, 3) {
        Ok(v) => v,
        Err(x) => return Err(x),
    };
    if v % 5 != 0 || (v / 5) as usize != index {
        return Err(DecodeError::WrongPredictionTime { index, prediction_time: v });
    }
    Ok(pos + 6)
}

fn parse_flags(e: &[u8], pos: usize) -> (r: Result<usize, DecodeError>)
    requires
        pos < e@.len(),
    ensures
        same_end(r, flags_record(e@, pos as int)),
{
    if let Err(x) = expect_space(e, pos, 2) {
        return Err(x);
    }
    parse_plain_field(e, pos, 3, 8)
}

fn parse_text(e: &[u8], pos: usize) -> (r: Result<usize, DecodeError>)
    requires
        pos < e@.len(),
    ensures
        same_end(r, text_record(e@, pos as int)),
{
    let n = match read_field(e, pos, 2, 3) {
        Ok(v) => v,
        Err(x) => return Err(x),
    };
    if n as usize > e.len() - pos - 5 {
        return Err(DecodeError::Truncated);
    }
    Ok(pos + 5 + n as usize)
}

fn parse_interval(e: &[u8], pos: usize) -> (r: Result<usize, DecodeError>)
    requires
        pos < e@.len(),
    ensures
        same_end(r, interval_record(e@, pos as int)),
{
    let v = match read_field(e, pos, 3, 4) {
        Ok(v) => v,
        Err(x) => return Err(x),
    };
    if v != 5 {
        return Err(DecodeError::WrongInterval { interval: v });
    }
    Ok(pos + 7)
}

/// The record at `pos`, which is not ETX: the position of the next one.
fn parse_record(e: &[u8], pos: usize, index: usize) -> (r: Result<usize, DecodeError>)
    requires
        pos < e@.len(),
    ensures
        same_end(r, record_end(e@, pos as int, index as int)),
        r matches Ok(p) ==> pos < p <= e@.len(),
{
    if e.len() - pos < 2 {
        return Err(DecodeError::Truncated);
    }
    let a = e[pos];
    let b = e[pos + 1];
    if a == 0x42 && b == 0x59 {
        parse_plain_field(e, pos, 2, 7)
    } else if a == 0x56 && b == 0x53 {
        parse_version(e, pos)
    } else if a == 0x53 && b == 0x57 {
        parse_software(e, pos)
    } else if a == 0x50 && b == 0x52 {
        parse_precision(e, pos)
    } else if a == 0x47 && b == 0x50 {
        parse_resolution(e, pos)
    } else if a == 0x56 && b == 0x56 {
        parse_prediction(e, pos, index)
    } else if a == 0x4d && b == 0x46 {
        parse_flags(e, pos)
    } else if a == 0x4d && b == 0x53 {
        parse_text(e, pos)
    } else if e.len() - pos < 3 {
        Err(DecodeError::Truncated)
    } else if a == 0x49 && b == 0x4e && e[pos + 2] == 0x54 {
        parse_interval(e, pos)
    } else {
        Err(DecodeError::UnknownRecord)
    }
}

/// The records of frame `e` from `start` up to and including ETX, for the
/// frame at `index`: the position of the body, as `records` says.
pub fn parse_records(e: &[u8], start: usize, index: usize) -> (r: Result<usize, DecodeError>)
    ensures
        match records(e@, start as int, index as int) {
            Ok(p) => r == Ok::<usize, DecodeError>(p as usize) && start < p <= e@.len(),
            Err(x) => r == Err::<usize, DecodeError>(x),
        },
{
    let mut pos = start;
    loop
        invariant
            start <= pos,
            pos <= e@.len() || pos == start,
            records(e@, pos as int, index as int) == records(e@, start as int, index as int),
        decreases e@.len() - pos,
    {
        if pos >= e.len() {
            return Err(DecodeError::Truncated);
        }
        if e[pos] == 0x03 {
            return Ok(pos + 1);
        }
        pos = parse_record(e, pos, index)?;
    }
}

} // verus!
