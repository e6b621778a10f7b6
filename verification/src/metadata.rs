//! Capture-date resolution for images.
//!
//! A capture date is read from the date fields a caller extracted from the
//! image's EXIF data, tried in priority order — original, digitized, plain —
//! each as a `"YYYY:MM:DD HH:MM:SS"` string; when none parses as a real
//! calendar date, the filesystem modification date stands in.

use vstd::prelude::*;
use vstd::string::StrSliceExecFns;

verus! {

/// A capture date and time, as plain values.
#[derive(Debug, Clone, Copy, PartialEq, Eq, Structural)]
pub struct CaptureDate {
    pub year: u32,
    pub month: u32,
    pub day: u32,
    pub hour: u32,
    pub minute: u32,
    pub second: u32,
}

/// Whether a character is an ASCII decimal digit.
pub open spec fn is_digit_char(c: char) -> bool {
    48 <= c as u32 && c as u32 <= 57
}

/// The value of an ASCII decimal digit.
pub open spec fn digit_val(c: char) -> int {
    c as u32 - 48
}

/// The value of the `len` digits of `s` starting at `start`.
pub open spec fn num_at(s: Seq<char>, start: int, len: int) -> int
    decreases len,
{
    if len <= 0 {
        0
    } else {
        num_at(s, start, len - 1) * 10 + digit_val(s[start + len - 1])
    }
}

/// Whether position `i` holds a digit in the EXIF date-time layout
/// `"YYYY:MM:DD HH:MM:SS"`.
pub open spec fn exif_digit_position(i: int) -> bool {
    (0 <= i <= 3) || (5 <= i <= 6) || (8 <= i <= 9) || (11 <= i <= 12) || (14 <= i <= 15) || (17
        <= i <= 18)
}

/// Whether a string has the EXIF date-time layout: nineteen characters,
/// digits in the date and time fields, the fields separated as
/// `"YYYY:MM:DD HH:MM:SS"`.
pub open spec fn exif_datetime_shape(s: Seq<char>) -> bool {
    &&& s.len() == 19
    &&& forall|i: int| 0 <= i < 19 && exif_digit_position(i) ==> is_digit_char(#[trigger] s[i])
    &&& s[4] == ':'
    &&& s[7] == ':'
    &&& s[10] == ' '
    &&& s[13] == ':'
    &&& s[16] == ':'
}

/// Whether a year is a leap year in the Gregorian calendar.
pub open spec fn is_leap_year(y: int) -> bool {
    y % 4 == 0 && (y % 100 != 0 || y % 400 == 0)
}

/// The number of days in a month.
pub open spec fn days_in_month(y: int, m: int) -> int {
    if m == 2 {
        if is_leap_year(y) {
            29
        } else {
            28
        }
    } else if m == 4 || m == 6 || m == 9 || m == 11 {
        30
    } else {
        31
    }
}

/// Whether year, month and day name a real calendar date.
pub open spec fn valid_date(y: int, m: int, d: int) -> bool {
    1 <= m <= 12 && 1 <= d <= days_in_month(y, m)
}

/// Whether hour, minute and second name a time of day.
pub open spec fn valid_time(h: int, mi: int, s: int) -> bool {
    0 <= h <= 23 && 0 <= mi <= 59 && 0 <= s <= 59
}

/// Whether a string is a well-formed EXIF date-time naming a real calendar
/// date and time of day.
pub open spec fn valid_exif_datetime(s: Seq<char>) -> bool {
    &&& exif_datetime_shape(s)
    &&& valid_date(num_at(s, 0, 4), num_at(s, 5, 2), num_at(s, 8, 2))
    &&& valid_time(num_at(s, 11, 2), num_at(s, 14, 2), num_at(s, 17, 2))
}

/// The date a well-formed EXIF date-time string names.
pub open spec fn exif_datetime_value(s: Seq<char>) -> CaptureDate {
    CaptureDate {
        year: num_at(s, 0, 4) as u32,
        month: num_at(s, 5, 2) as u32,
        day: num_at(s, 8, 2) as u32,
        hour: num_at(s, 11, 2) as u32,
        minute: num_at(s, 14, 2) as u32,
        second: num_at(s, 17, 2) as u32,
    }
}

/// Digits are bounded by their count.
proof fn lemma_num_at_bound(s: Seq<char>, start: int, len: int)
    requires
        0 <= start,
        start + len <= s.len(),
        forall|j: int| start <= j < start + len ==> is_digit_char(#[trigger] s[j]),
    ensures
        0 <= num_at(s, start, len),
        len <= 1 ==> num_at(s, start, len) <= 9,
        len <= 2 ==> num_at(s, start, len) <= 99,
        len <= 3 ==> num_at(s, start, len) <= 999,
        len <= 4 ==> num_at(s, start, len) <= 9999,
    decreases len,
{
    if len > 0 {
        lemma_num_at_bound(s, start, len - 1);
    }
}

/// Reads the `len`-digit decimal number of `s` at `start`.
#[verifier::loop_isolation(false)]
fn read_num(s: &str, start: usize, len: usize) -> (r: u32)
    requires
        start + len <= s@.len(),
        start + len <= usize::MAX,
        len <= 4,
        forall|j: int| start <= j < start + len ==> is_digit_char(#[trigger] s@[j]),
    ensures
        r as int == num_at(s@, start as int, len as int),
{
    let mut r: u32 = 0;
    let mut j: usize = 0;
    while j < len
        invariant
            0 <= j <= len,
            len <= 4,
            start + len <= s@.len(),
            forall|k: int| start <= k < start + len ==> is_digit_char(#[trigger] s@[k]),
            r as int == num_at(s@, start as int, j as int),
            r <= 9999,
        decreases len - j,
    {
        proof {
            lemma_num_at_bound(s@, start as int, j as int);
            if j + 1 < len {
                lemma_num_at_bound(s@, start as int, j + 1);
            }
        }
        let c: char = s.get_char(start + j);
        let d: u32 = c as u32 - 48;
        r = r * 10 + d;
        j = j + 1;
        proof {
            lemma_num_at_bound(s@, start as int, j as int);
        }
    }
    r
}

/// Decides whether a year is a leap year.
pub fn is_leap_year_exec(y: u32) -> (r: bool)
    ensures
        r == is_leap_year(y as int),
{
    y % 4 == 0 && (y % 100 != 0 || y % 400 == 0)
}

/// The number of days in a month.
pub fn days_in_month_exec(y: u32, m: u32) -> (r: u32)
    ensures
        r as int == days_in_month(y as int, m as int),
{
    if m == 2 {
        if is_leap_year_exec(y) {
            29
        } else {
            28
        }
    } else if m == 4 || m == 6 || m == 9 || m == 11 {
        30
    } else {
        31
    }
}

/// Parses an EXIF `"YYYY:MM:DD HH:MM:SS"` date-time; only a well-formed
/// string naming a real calendar date and time of day is accepted.
pub fn parse_exif_datetime(s: &str) -> (r: Option<CaptureDate>)
    ensures
        r is Some <==> valid_exif_datetime(s@),
        r matches Some(d) ==> d == exif_datetime_value(s@),
{
    let n: usize = s.unicode_len();
    if n != 19 {
        return None;
    }
    let mut i: usize = 0;
    while i < 19
        invariant
            0 <= i <= 19,
            s@.len() == 19,
            forall|j: int|
                0 <= j < i && exif_digit_position(j) ==> is_digit_char(#[trigger] s@[j]),
        decreases 19 - i,
    {
        if i == 4 || i == 7 || i == 13 || i == 16 {
            if s.get_char(i) != ':' {
                return None;
            }
        } else if i == 10 {
            if s.get_char(i) != ' ' {
                return None;
            }
        } else {
            let c: u32 = s.get_char(i) as u32;
            if !(48 <= c && c <= 57) {
                return None;
            }
        }
        i = i + 1;
    }
    if s.get_char(4) != ':' || s.get_char(7) != ':' || s.get_char(10) != ' ' || s.get_char(13)
        != ':' || s.get_char(16) != ':' {
        return None;
    }
    let year = read_num(s, 0, 4);
    let month = read_num(s, 5, 2);
    let day = read_num(s, 8, 2);
    let hour = read_num(s, 11, 2);
    let minute = read_num(s, 14, 2);
    let second = read_num(s, 17, 2);
    if month < 1 || month > 12 {
        return None;
    }
    if day < 1 || day > days_in_month_exec(year, month) {
        return None;
    }
    if hour > 23 || minute > 59 || second > 59 {
        return None;
    }
    Some(CaptureDate { year, month, day, hour, minute, second })
}

/// What resolving a capture date yields: the first of the EXIF fields, in
/// priority order, that names a real date; the modification date when none
/// does.
pub open spec fn creation_date_of(
    original: Option<Seq<char>>,
    digitized: Option<Seq<char>>,
    plain: Option<Seq<char>>,
    mtime_date: Option<CaptureDate>,
) -> Option<CaptureDate> {
    if original matches Some(s) && valid_exif_datetime(s) {
        Some(exif_datetime_value(original->0))
    } else if digitized matches Some(s) && valid_exif_datetime(s) {
        Some(exif_datetime_value(digitized->0))
    } else if plain matches Some(s) && valid_exif_datetime(s) {
        Some(exif_datetime_value(plain->0))
    } else {
        mtime_date
    }
}

/// The view of an optional string.
pub open spec fn opt_view(s: Option<String>) -> Option<Seq<char>> {
    match s {
        Some(x) => Some(x@),
        None => None,
    }
}

/// Resolves the capture date of an image: the EXIF date fields are tried
/// in priority order — original, then digitized, then plain — and the
/// first that names a real calendar date wins; with no usable EXIF date
/// the filesystem modification date stands in.
pub fn read_creation_date(
    date_time_original: &Option<String>,
    date_time_digitized: &Option<String>,
    date_time: &Option<String>,
    mtime_date: Option<CaptureDate>,
) -> (r: Option<CaptureDate>)
    ensures
        r == creation_date_of(
            opt_view(*date_time_original),
            opt_view(*date_time_digitized),
            opt_view(*date_time),
            mtime_date,
        ),
{
    if let Some(s) = date_time_original {
        if let Some(d) = parse_exif_datetime(s.as_str()) {
            return Some(d);
        }
    }
    if let Some(s) = date_time_digitized {
        if let Some(d) = parse_exif_datetime(s.as_str()) {
            return Some(d);
        }
    }
    if let Some(s) = date_time {
        if let Some(d) = parse_exif_datetime(s.as_str()) {
            return Some(d);
        }
    }
    mtime_date
}

} // verus!
