//! Moments in time as the images record them.

use crate::bytes::{le16, ru16};
use crate::text::{digit, is_graphic, without_trailing};
use vstd::prelude::*;

verus! {

/// A local date and time together with its distance from UTC.
#[derive(Debug, Clone, Copy, PartialEq, Eq, Structural)]
pub struct Timestamp {
    pub year: i32,
    pub month: u8,
    pub day: u8,
    pub hour: u8,
    pub minute: u8,
    pub second: u8,
    pub nanosecond: u32,
    /// Seconds east of UTC.
    pub offset_seconds: i32,
}

// ---------------------------------------------------------------------------------------------
// The calendar
// ---------------------------------------------------------------------------------------------

/// Whether `year` has a 29th of February in the Gregorian calendar.
pub open spec fn is_leap_year(year: int) -> bool {
    year % 4 == 0 && (year % 100 != 0 || year % 400 == 0)
}

/// The number of days of a month, January being 1.
pub open spec fn days_in_month(year: int, month: int) -> int {
    if month == 2 {
        if is_leap_year(year) {
            29
        } else {
            28
        }
    } else if month == 4 || month == 6 || month == 9 || month == 11 {
        30
    } else {
        31
    }
}

/// Whether there is such a date, in a year of at most four digits.
pub open spec fn valid_date(year: int, month: int, day: int) -> bool {
    &&& -9999 <= year <= 9999
    &&& 1 <= month <= 12
    &&& 1 <= day <= days_in_month(year, month)
}

/// Whether a clock shows such a time.
pub open spec fn valid_clock(hour: int, minute: int, second: int) -> bool {
    0 <= hour < 24 && 0 <= minute < 60 && 0 <= second < 60
}

/// Whether an offset from UTC lies within 25:59:59 on either side.
pub open spec fn valid_offset(seconds: int) -> bool {
    -93599 <= seconds <= 93599
}

/// `time::Date::from_calendar_date`, with the month given by its number as `time::Month::try_from`
/// takes it: a date comes back, with the components it was made from, exactly where the calendar
/// has that date and the year lies between -9999 and 9999.
#[verifier::external_body]
fn calendar_date(year: i32, month: u8, day: u8) -> (r: Option<(i32, u8, u8)>)
    ensures
        r == if valid_date(year as int, month as int, day as int) {
            Some((year, month, day))
        } else {
            None
        },
{
    let month = time::Month::try_from(month).ok()?;
    let date = time::Date::from_calendar_date(year, month, day).ok()?;
    let (y, m, d) = date.to_calendar_date();
    Some((y, u8::from(m), d))
}

/// `time::Time::from_hms`: a time comes back, with the components it was made from, exactly where
/// the hour is under 24 and the minute and the second are under 60.
#[verifier::external_body]
fn clock_time(hour: u8, minute: u8, second: u8) -> (r: Option<(u8, u8, u8)>)
    ensures
        r == if valid_clock(hour as int, minute as int, second as int) {
            Some((hour, minute, second))
        } else {
            None
        },
{
    let clock = time::Time::from_hms(hour, minute, second).ok()?;
    Some(clock.as_hms())
}

/// `time::UtcOffset::from_whole_seconds`: an offset comes back, of as many seconds as were given,
/// exactly where they lie within 25:59:59 on either side of UTC.
#[verifier::external_body]
fn utc_offset(seconds: i32) -> (r: Option<i32>)
    ensures
        r == if valid_offset(seconds as int) {
            Some(seconds)
        } else {
            None
        },
{
    let offset = time::UtcOffset::from_whole_seconds(seconds).ok()?;
    Some(offset.whole_seconds())
}

// ---------------------------------------------------------------------------------------------
// Timestamps on disc
// ---------------------------------------------------------------------------------------------

/// The offset from UTC, in minutes, that the low twelve bits of a type-and-time-zone word hold as
/// a signed number.
pub open spec fn zone_minutes(word: u16) -> int {
    let low = word % 0x1000;
    if low >= 0x800 {
        low - 0x1000
    } else {
        low as int
    }
}

/// The offset from UTC, in seconds, that a type-and-time-zone word stands for: only a word of
/// type 1 carries one, and one that no clock uses counts as none.
pub open spec fn zone_seconds(word: u16) -> int {
    if word / 0x1000 == 1 && valid_offset(zone_minutes(word) * 60) {
        zone_minutes(word) * 60
    } else {
        0
    }
}

/// The moment that twelve bytes of an image record: a type-and-time-zone word, the year, and one
/// byte each for month, day, hour, minute and second. None where the bytes are too few, the date
/// is blank, or there is no such date or time.
pub open spec fn recorded_time(b: Seq<u8>) -> Option<Timestamp> {
    if b.len() < 12 {
        None
    } else if le16(b, 2) == 0 && b[4] == 0 && b[5] == 0 {
        None
    } else if valid_date(le16(b, 2) as int, b[4] as int, b[5] as int) && valid_clock(
        b[6] as int,
        b[7] as int,
        b[8] as int,
    ) {
        Some(
            Timestamp {
                year: le16(b, 2) as i32,
                month: b[4],
                day: b[5],
                hour: b[6],
                minute: b[7],
                second: b[8],
                nanosecond: 0,
                offset_seconds: zone_seconds(le16(b, 0)) as i32,
            },
        )
    } else {
        None
    }
}

/// Reads the moment that the first twelve bytes of `b` record.
pub fn read_timestamp(b: &[u8]) -> (r: Option<Timestamp>)
    ensures
        r == recorded_time(b@),
{
    if b.len() < 12 {
        return None;
    }
    let word: u16 = ru16(b, 0);
    let year: i32 = ru16(b, 2) as i32;
    let month: u8 = b[4];
    let day: u8 = b[5];
    if year == 0 && month == 0 && day == 0 {
        return None;
    }
    let (year, month, day) = match calendar_date(year, month, day) {
        Some(date) => date,
        None => return None,
    };
    let (hour, minute, second) = match clock_time(b[6], b[7], b[8]) {
        Some(clock) => clock,
        None => return None,
    };
    let offset_seconds: i32 = if word / 0x1000 == 1 {
        let low: i32 = (word % 0x1000) as i32;
        let minutes: i32 = if low >= 0x800 {
            low - 0x1000
        } else {
            low
        };
        match utc_offset(minutes * 60) {
            Some(seconds) => seconds,
            None => 0,
        }
    } else {
        0
    };
    Some(Timestamp { year, month, day, hour, minute, second, nanosecond: 0, offset_seconds })
}

// ---------------------------------------------------------------------------------------------
// Timestamps in writing
// ---------------------------------------------------------------------------------------------

/// `n` in decimal digits, `width` of them.
pub open spec fn fixed_digits(n: nat, width: nat) -> Seq<char>
    decreases width,
{
    if width == 0 {
        seq![]
    } else {
        fixed_digits(n / 10, (width - 1) as nat).push(digit(n % 10))
    }
}

/// The fraction of a second, with its point and without trailing zeros; nothing for none.
pub open spec fn fraction_text(nanosecond: nat) -> Seq<char> {
    if nanosecond == 0 {
        seq![]
    } else {
        "."@ + without_trailing(fixed_digits(nanosecond, 9), '0')
    }
}

/// An offset from UTC: `Z` for none, else a sign, hours and minutes.
pub open spec fn offset_text(seconds: int) -> Seq<char> {
    let distance = if seconds < 0 {
        -seconds
    } else {
        seconds
    };
    if seconds == 0 {
        "Z"@
    } else {
        (if seconds < 0 {
            "-"@
        } else {
            "+"@
        }) + fixed_digits((distance / 3600) as nat, 2) + ":"@ + fixed_digits(
            (distance % 3600 / 60) as nat,
            2,
        )
    }
}

/// Whether RFC 3339 can express a moment: it is one, its year is not negative, and its offset is
/// under a day and made of whole minutes.
pub open spec fn has_rfc3339_text(t: Timestamp) -> bool {
    &&& valid_date(t.year as int, t.month as int, t.day as int)
    &&& valid_clock(t.hour as int, t.minute as int, t.second as int)
    &&& t.nanosecond < 1_000_000_000
    &&& t.year >= 0
    &&& -86400 < t.offset_seconds < 86400
    &&& t.offset_seconds as int % 60 == 0
}

/// A moment as RFC 3339 writes it.
pub open spec fn rfc3339_text(t: Timestamp) -> Seq<char> {
    fixed_digits(t.year as nat, 4) + "-"@ + fixed_digits(t.month as nat, 2) + "-"@ + fixed_digits(
        t.day as nat,
        2,
    ) + "T"@ + fixed_digits(t.hour as nat, 2) + ":"@ + fixed_digits(t.minute as nat, 2) + ":"@
        + fixed_digits(t.second as nat, 2) + fraction_text(t.nanosecond as nat) + offset_text(
        t.offset_seconds as int,
    )
}

/// `time::OffsetDateTime::format` with the description `Rfc3339`, on the moment that `t` holds as
/// plain numbers: the text of that moment comes back exactly where RFC 3339 can express it.
#[verifier::external_body]
fn format_rfc3339(t: &Timestamp) -> (r: Option<String>)
    ensures
        r is Some <==> has_rfc3339_text(*t),
        r matches Some(s) ==> s@ == rfc3339_text(*t),
{
    let month = time::Month::try_from(t.month).ok()?;
    let date = time::Date::from_calendar_date(t.year, month, t.day).ok()?;
    let clock = time::Time::from_hms_nano(t.hour, t.minute, t.second, t.nanosecond).ok()?;
    let offset = time::UtcOffset::from_whole_seconds(t.offset_seconds).ok()?;
    let moment = time::PrimitiveDateTime::new(date, clock).assume_offset(offset);
    moment.format(&time::format_description::well_known::Rfc3339).ok()
}

/// A moment in writing, and `-` for one that RFC 3339 cannot express.
pub open spec fn time_text(t: Timestamp) -> Seq<char> {
    if has_rfc3339_text(t) {
        rfc3339_text(t)
    } else {
        "-"@
    }
}

/// Writes a moment as RFC 3339 has it, or `-` where it cannot be written so.
pub fn format_time(t: Timestamp) -> (r: String)
    ensures
        r@ == time_text(t),
{
    match format_rfc3339(&t) {
        Some(text) => text,
        None => String::from_str("-"),
    }
}

// ---------------------------------------------------------------------------------------------
// Laws
// ---------------------------------------------------------------------------------------------

/// A moment that an image records can be written, unless its offset from UTC is a day or more.
pub proof fn law_recorded_times_can_be_written(b: Seq<u8>)
    ensures
        recorded_time(b) matches Some(t) ==> (has_rfc3339_text(t) <==> -86400 < t.offset_seconds
            < 86400),
{
}

/// A moment in writing has neither spaces nor control characters, so that it takes up one field of
/// a line.
pub proof fn law_time_text_is_graphic(t: Timestamp)
    ensures
        is_graphic(time_text(t)),
{
    reveal_strlit("-");
    if has_rfc3339_text(t) {
        reveal_strlit("T");
        reveal_strlit(":");
        reveal_strlit("Z");
        reveal_strlit("+");
        reveal_strlit(".");
        lemma_digits_are_graphic(t.year as nat, 4);
        lemma_digits_are_graphic(t.month as nat, 2);
        lemma_digits_are_graphic(t.day as nat, 2);
        lemma_digits_are_graphic(t.hour as nat, 2);
        lemma_digits_are_graphic(t.minute as nat, 2);
        lemma_digits_are_graphic(t.second as nat, 2);
        assert(is_graphic(fraction_text(t.nanosecond as nat))) by {
            let digits = fixed_digits(t.nanosecond as nat, 9);
            lemma_digits_are_graphic(t.nanosecond as nat, 9);
            lemma_trimmed_is_graphic(digits, '0');
        }
        assert(is_graphic(offset_text(t.offset_seconds as int))) by {
            let seconds = t.offset_seconds as int;
            let distance = if seconds < 0 {
                -seconds
            } else {
                seconds
            };
            lemma_digits_are_graphic((distance / 3600) as nat, 2);
            lemma_digits_are_graphic((distance % 3600 / 60) as nat, 2);
        }
    }
}

proof fn lemma_digits_are_graphic(n: nat, width: nat)
    ensures
        is_graphic(fixed_digits(n, width)),
    decreases width,
{
    if width > 0 {
        lemma_digits_are_graphic(n / 10, (width - 1) as nat);
    }
}

proof fn lemma_trimmed_is_graphic(s: Seq<char>, c: char)
    requires
        is_graphic(s),
    ensures
        is_graphic(without_trailing(s, c)),
    decreases s.len(),
{
    if s.len() > 0 && s.last() == c {
        lemma_trimmed_is_graphic(s.drop_last(), c);
    }
}

} // verus!
