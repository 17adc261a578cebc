//! What the decoder takes from outside crates: bzip2 decompression, tar
//! member extraction and calendar arithmetic.
use vstd::prelude::*;

verus! {

#[verifier::external_type_specification]
#[verifier::external_body]
pub struct ExIoError(std::io::Error);

/// The contents of the first bzip2 stream of `data`, or `None` where `data`
/// does not start with a whole bzip2 stream.
pub uninterp spec fn bzip2_decompressed(data: Seq<u8>) -> Option<Seq<u8>>;

/// The contents of the members of the tar archive `data`, one per header
/// block, in archive order, or `None` where `data` is no well-formed tar
/// archive. The headers are taken as they stand: GNU long-name, PAX and
/// sparse headers are not interpreted, and count as members of their own.
pub uninterp spec fn tar_member_contents(data: Seq<u8>) -> Option<Seq<Seq<u8>>>;

/// Whether `year` is a leap year of the proleptic Gregorian calendar.
pub open spec fn is_leap_year(year: int) -> bool {
    (year % 4 == 0 && year % 100 != 0) || year % 400 == 0
}

/// Number of days of month `month` of `year`.
pub open spec fn days_in_month(year: int, month: int) -> int {
    if month == 2 {
        if is_leap_year(year) {
            29
        } else {
            28
        }
    } else if month == 4 || month == 6 || month == 9 || month == 11 {
        30
    } else {
        31
    }
}

/// Days from 1970-01-01 to `year-month-day` in the proleptic Gregorian
/// calendar: whole 400-year eras of 146,097 days, then the days of the era
/// counted from March.
pub open spec fn days_from_civil(year: int, month: int, day: int) -> int {
    let y = if month <= 2 {
        year - 1
    } else {
        year
    };
    let era = y / 400;
    let year_of_era = y - era * 400;
    let month_from_march = if month > 2 {
        month - 3
    } else {
        month + 9
    };
    let day_of_year = (153 * month_from_march + 2) / 5 + day - 1;
    let day_of_era = year_of_era * 365 + year_of_era / 4 - year_of_era / 100 + day_of_year;
    era * 146097 + day_of_era - 719468
}

/// UNIX seconds of the naive UTC wall-clock time `year-month-day
/// hour:minute:00`, or `None` where no such time exists in the years that
/// chrono's `NaiveDate` covers (-262143 to 262142).
pub open spec fn civil_seconds(year: int, month: int, day: int, hour: int, minute: int) -> Option<
    int,
> {
    if -262143 <= year <= 262142 && 1 <= month <= 12 && 1 <= day <= days_in_month(year, month)
        && 0 <= hour < 24 && 0 <= minute < 60 {
        Some(days_from_civil(year, month, day) * 86400 + hour * 3600 + minute * 60)
    } else {
        None
    }
}

/// Relies on bzip2::bufread::BzDecoder, read to its end: it decompresses the
/// first bzip2 stream of `data`. Whether it succeeds, and what it returns,
/// depends on the bytes alone.
#[verifier::external_body]
pub(crate) fn bzip2_decompress(data: &[u8]) -> (r: Result<Vec<u8>, std::io::Error>)
    ensures
        match bzip2_decompressed(data@) {
            Some(c) => r matches Ok(contents) && contents@ == c,
            None => r is Err,
        },
{
    let mut contents = Vec::new();
    std::io::Read::read_to_end(&mut bzip2::bufread::BzDecoder::new(data), &mut contents)?;
    Ok(contents)
}

/// Relies on tar::Archive::entries with Entries::raw, each entry read to its
/// end: the contents of the members of the archive in `data`, in archive
/// order, one per header. Raw iteration keeps every offset computation
/// checked, so a malformed size field gives an error, not an overflow.
/// Whether it succeeds, and what it returns, depends on the bytes alone.
#[verifier::external_body]
pub(crate) fn tar_members(data: &[u8]) -> (r: Result<Vec<Vec<u8>>, std::io::Error>)
    ensures
        match tar_member_contents(data@) {
            Some(m) => r matches Ok(members) && members@.map_values(|v: Vec<u8>| v@) == m,
            None => r is Err,
        },
{
    let mut archive = tar::Archive::new(data);
    let mut members = Vec::new();
    for entry in archive.entries()?.raw(true) {
        let mut contents = Vec::new();
        std::io::Read::read_to_end(&mut entry?, &mut contents)?;
        members.push(contents);
    }
    Ok(members)
}

/// Relies on chrono's NaiveDate::from_ymd_opt, NaiveDate::and_hms_opt and
/// DateTime::<Utc>::timestamp: the UNIX seconds of a wall-clock time read as
/// UTC, `None` for a day or time that does not exist or a year out of
/// chrono's range.
#[verifier::external_body]
pub(crate) fn utc_seconds(year: i32, month: u32, day: u32, hour: u32, minute: u32) -> (r: Option<
    i64,
>)
    ensures
        match civil_seconds(year as int, month as int, day as int, hour as int, minute as int) {
            Some(t) => r matches Some(v) && v == t,
            None => r is None,
        },
{
    Some(
        chrono::NaiveDate::from_ymd_opt(year, month, day)?.and_hms_opt(hour, minute, 0)?.and_utc().timestamp(),
    )
}

} // verus!
