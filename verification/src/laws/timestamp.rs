//! Laws of moments as images record them and in writing.

use crate::bytes::le16;
use crate::laws::text::value_of;
use crate::text::without_trailing;
use crate::timestamp::{
    days_in_month, fixed_digits, fraction_text, has_rfc3339_text, offset_text, recorded_time,
    time_text, zone_seconds, Timestamp,
};
use vstd::prelude::*;

verus! {

// ---------------------------------------------------------------------------------------------
// On disc
// ---------------------------------------------------------------------------------------------

/// The twelve bytes in which an image records a moment: a word for the time zone, the year, both
/// with the lower byte first, one byte each for the rest, and three for fractions of a second.
pub open spec fn recorded_as(
    zone: u16,
    year: u16,
    month: u8,
    day: u8,
    hour: u8,
    minute: u8,
    second: u8,
    fractions: (u8, u8, u8),
) -> Seq<u8> {
    seq![
        (zone % 256) as u8,
        (zone / 256) as u8,
        (year % 256) as u8,
        (year / 256) as u8,
        month,
        day,
        hour,
        minute,
        second,
        fractions.0,
        fractions.1,
        fractions.2,
    ]
}

/// Whether a month has such a day, in words of the calendar.
pub open spec fn month_has_day(year: int, month: int, day: int) -> bool {
    &&& 1 <= month <= 12
    &&& 1 <= day <= 31
    &&& day == 31 ==> month != 2 && month != 4 && month != 6 && month != 9 && month != 11
    &&& day == 30 ==> month != 2
    &&& day == 29 && month == 2 ==> (if year % 100 == 0 {
        year % 400 == 0
    } else {
        year % 4 == 0
    })
}

/// A moment that is recorded is read back, whatever follows it, where there is such a date and time;
/// and where there is not, or where nothing is recorded, none is.
pub proof fn law_moments_are_read_back(
    zone: u16,
    year: u16,
    month: u8,
    day: u8,
    hour: u8,
    minute: u8,
    second: u8,
    fractions: (u8, u8, u8),
    rest: Seq<u8>,
)
    ensures
        ({
            let bytes = recorded_as(zone, year, month, day, hour, minute, second, fractions) + rest;
            let read = recorded_time(bytes);
            &&& read is Some <==> year <= 9999 && month_has_day(
                year as int,
                month as int,
                day as int,
            ) && hour <= 23 && minute <= 59 && second <= 59
            &&& read matches Some(t) ==> {
                &&& t.year == year
                &&& t.month == month
                &&& t.day == day
                &&& t.hour == hour
                &&& t.minute == minute
                &&& t.second == second
                &&& t.nanosecond == 0
                &&& t.offset_seconds == zone_seconds(zone)
            }
        }),
{
    let b = recorded_as(zone, year, month, day, hour, minute, second, fractions) + rest;
    assert(b[0] == (zone % 256) as u8 && b[1] == (zone / 256) as u8);
    assert(b[2] == (year % 256) as u8 && b[3] == (year / 256) as u8);
    assert(b[4] == month && b[5] == day);
    assert(b[6] == hour && b[7] == minute && b[8] == second);
    assert(le16(b, 0) == zone);
    assert(le16(b, 2) == year);
}

/// Fewer than twelve bytes record no moment.
pub proof fn law_moments_take_twelve_bytes(b: Seq<u8>)
    requires
        b.len() < 12,
    ensures
        recorded_time(b) is None,
{
}

/// A time zone of type 1 is read as the number of minutes that its twelve lower bits hold, a
/// negative one as 4096 less, where it is within 25 hours and 59 minutes on either side; any other,
/// and any time zone of another type, counts as none.
pub proof fn law_time_zones_are_minutes(kind: int, minutes: int)
    requires
        0 <= kind < 16,
        -2048 <= minutes < 2048,
    ensures
        ({
            let low = if minutes < 0 {
                minutes + 4096
            } else {
                minutes
            };
            zone_seconds((4096 * kind + low) as u16) == if kind == 1 && -1559 <= minutes <= 1559 {
                60 * minutes
            } else {
                0
            }
        }),
{
}

/// A year has 365 days, or 366 where it is a leap year, and the calendar comes back after 400 years.
pub proof fn law_years_have_their_days(year: int)
    ensures
        days_in_month(year, 1) + days_in_month(year, 2) + days_in_month(year, 3) + days_in_month(
            year,
            4,
        ) + days_in_month(year, 5) + days_in_month(year, 6) + days_in_month(year, 7)
            + days_in_month(year, 8) + days_in_month(year, 9) + days_in_month(year, 10)
            + days_in_month(year, 11) + days_in_month(year, 12) == if year % 4 == 0 && (year % 100
            != 0 || year % 400 == 0) {
            366int
        } else {
            365int
        },
        forall|month: int| #[trigger]
            days_in_month(year + 400, month) == days_in_month(year, month),
{
}

// ---------------------------------------------------------------------------------------------
// In writing
// ---------------------------------------------------------------------------------------------

proof fn lemma_fixed_digits(n: nat, width: nat)
    ensures
        fixed_digits(n, width).len() == width,
        width == 2 && n < 100 ==> value_of(fixed_digits(n, width), 10) == n,
        width == 4 && n < 10000 ==> value_of(fixed_digits(n, width), 10) == n,
{
    reveal_with_fuel(fixed_digits, 5);
    reveal_with_fuel(value_of, 5);
    if width == 2 {
        let s = fixed_digits(n, 2);
        assert(s.drop_last() == fixed_digits(n / 10, 1));
        assert(s.drop_last().drop_last() == Seq::<char>::empty());
    } else if width == 4 {
        let s = fixed_digits(n, 4);
        assert(s.drop_last() == fixed_digits(n / 10, 3));
        assert(s.drop_last().drop_last() == fixed_digits(n / 10 / 10, 2));
        assert(s.drop_last().drop_last().drop_last() == fixed_digits(n / 10 / 10 / 10, 1));
        assert(s.drop_last().drop_last().drop_last().drop_last() == Seq::<char>::empty());
    }
    lemma_fixed_len(n, width);
}

proof fn lemma_fixed_len(n: nat, width: nat)
    ensures
        fixed_digits(n, width).len() == width,
    decreases width,
{
    if width > 0 {
        lemma_fixed_len(n / 10, (width - 1) as nat);
    }
}

/// A moment in writing has its date and its time in fixed places: four digits of the year, two each
/// of month, day, hour, minute and second, with dashes, a `T` and colons between them.
pub proof fn law_written_moments_have_their_fields(t: Timestamp)
    requires
        has_rfc3339_text(t),
    ensures
        ({
            let s = time_text(t);
            &&& s.len() >= 20
            &&& value_of(s.subrange(0, 4), 10) == t.year
            &&& s[4] == '-'
            &&& value_of(s.subrange(5, 7), 10) == t.month
            &&& s[7] == '-'
            &&& value_of(s.subrange(8, 10), 10) == t.day
            &&& s[10] == 'T'
            &&& value_of(s.subrange(11, 13), 10) == t.hour
            &&& s[13] == ':'
            &&& value_of(s.subrange(14, 16), 10) == t.minute
            &&& s[16] == ':'
            &&& value_of(s.subrange(17, 19), 10) == t.second
            &&& s.skip(19) == fraction_text(t.nanosecond as nat) + offset_text(
                t.offset_seconds as int,
            )
        }),
{
    reveal_strlit("-");
    reveal_strlit("T");
    reveal_strlit(":");
    let year = fixed_digits(t.year as nat, 4);
    let month = fixed_digits(t.month as nat, 2);
    let day = fixed_digits(t.day as nat, 2);
    let hour = fixed_digits(t.hour as nat, 2);
    let minute = fixed_digits(t.minute as nat, 2);
    let second = fixed_digits(t.second as nat, 2);
    lemma_fixed_digits(t.year as nat, 4);
    lemma_fixed_digits(t.month as nat, 2);
    lemma_fixed_digits(t.day as nat, 2);
    lemma_fixed_digits(t.hour as nat, 2);
    lemma_fixed_digits(t.minute as nat, 2);
    lemma_fixed_digits(t.second as nat, 2);
    let s = time_text(t);
    law_offsets_are_written(t.offset_seconds as int);
    let tail = fraction_text(t.nanosecond as nat) + offset_text(t.offset_seconds as int);
    let head = year + "-"@ + month + "-"@ + day + "T"@ + hour + ":"@ + minute + ":"@ + second;
    assert(s == head + tail);
    assert(head.len() == 19);
    assert(s.subrange(0, 4) == year);
    assert(s.subrange(5, 7) == month);
    assert(s.subrange(8, 10) == day);
    assert(s.subrange(11, 13) == hour);
    assert(s.subrange(14, 16) == minute);
    assert(s.subrange(17, 19) == second);
    assert(s.skip(19) == tail);
}

/// An offset from UTC is written as `Z` where there is none, and else as a sign, two digits of hours,
/// a colon, and two digits of minutes.
pub proof fn law_offsets_are_written(seconds: int)
    requires
        -86400 < seconds < 86400,
    ensures
        offset_text(seconds).len() >= 1,
        seconds == 0 ==> offset_text(seconds) == seq!['Z'],
        seconds != 0 ==> {
            let s = offset_text(seconds);
            let distance = if seconds < 0 {
                -seconds
            } else {
                seconds
            };
            &&& s.len() == 6
            &&& s[0] == if seconds < 0 {
                '-'
            } else {
                '+'
            }
            &&& s[3] == ':'
            &&& seconds % 60 == 0 ==> 3600 * value_of(s.subrange(1, 3), 10) + 60 * value_of(
                s.subrange(4, 6),
                10,
            ) == distance
        },
{
    reveal_strlit("Z");
    reveal_strlit("-");
    reveal_strlit("+");
    reveal_strlit(":");
    if seconds == 0 {
        assert("Z"@ == seq!['Z']);
    } else {
        let distance = if seconds < 0 {
            -seconds
        } else {
            seconds
        };
        let hours = fixed_digits((distance / 3600) as nat, 2);
        let minutes = fixed_digits((distance % 3600 / 60) as nat, 2);
        lemma_fixed_digits((distance / 3600) as nat, 2);
        lemma_fixed_digits((distance % 3600 / 60) as nat, 2);
        let s = offset_text(seconds);
        assert(s.subrange(1, 3) == hours);
        assert(s.subrange(4, 6) == minutes);
    }
}

/// A moment is written as a dash exactly where its date or its time is none, its year is negative, or
/// its offset is a day or more or not made of whole minutes.
pub proof fn law_other_moments_are_a_dash(t: Timestamp)
    ensures
        time_text(t) == seq!['-'] <==> !(0 <= t.year <= 9999 && month_has_day(
            t.year as int,
            t.month as int,
            t.day as int,
        ) && t.hour <= 23 && t.minute <= 59 && t.second <= 59 && t.nanosecond <= 999_999_999
            && -86400 < t.offset_seconds < 86400 && t.offset_seconds as int % 60 == 0),
{
    reveal_strlit("-");
    assert("-"@ == seq!['-']);
    if has_rfc3339_text(t) {
        law_written_moments_have_their_fields(t);
    }
}

/// Ten, multiplied by itself `n` times.
pub open spec fn power_of_ten(n: nat) -> nat
    decreases n,
{
    if n == 0 {
        1
    } else {
        10 * power_of_ten((n - 1) as nat)
    }
}

proof fn lemma_fixed_value(n: nat, width: nat)
    requires
        n < power_of_ten(width),
    ensures
        fixed_digits(n, width).len() == width,
        value_of(fixed_digits(n, width), 10) == n,
    decreases width,
{
    if width > 0 {
        let s = fixed_digits(n, width);
        lemma_fixed_value(n / 10, (width - 1) as nat);
        assert(s.drop_last() == fixed_digits(n / 10, (width - 1) as nat));
    }
}

proof fn lemma_without_zeros(s: Seq<char>)
    ensures
        ({
            let kept = without_trailing(s, '0');
            &&& kept.len() <= s.len()
            &&& value_of(kept, 10) * power_of_ten((s.len() - kept.len()) as nat) == value_of(s, 10)
            &&& kept.len() > 0 ==> kept.last() != '0'
        }),
    decreases s.len(),
{
    if s.len() > 0 && s.last() == '0' {
        let front = s.drop_last();
        lemma_without_zeros(front);
        let kept = without_trailing(front, '0');
        let zeros = (front.len() - kept.len()) as nat;
        assert(value_of(s, 10) == value_of(front, 10) * 10);
        assert(power_of_ten(zeros + 1) == 10 * power_of_ten(zeros));
        let a = value_of(kept, 10);
        let p = power_of_ten(zeros) as int;
        assert(a * (10 * p) == a * p * 10) by (nonlinear_arith);
    } else {
        assert(value_of(s, 10) * 1 == value_of(s, 10));
    }
}

/// A fraction of a second is written as a point and digits of billionths without the zeros at their
/// end, and not at all where there is none.
pub proof fn law_fractions_are_written(nanosecond: nat)
    requires
        nanosecond < 1_000_000_000,
    ensures
        nanosecond == 0 ==> fraction_text(nanosecond).len() == 0,
        nanosecond > 0 ==> {
            let s = fraction_text(nanosecond);
            &&& 2 <= s.len() <= 10
            &&& s[0] == '.'
            &&& s.last() != '0'
            &&& value_of(s.skip(1), 10) * power_of_ten((10 - s.len()) as nat) == nanosecond
        },
{
    reveal_strlit(".");
    if nanosecond > 0 {
        reveal_with_fuel(power_of_ten, 10);
        let digits = fixed_digits(nanosecond, 9);
        lemma_fixed_value(nanosecond, 9);
        lemma_without_zeros(digits);
        let kept = without_trailing(digits, '0');
        let s = fraction_text(nanosecond);
        assert(s.skip(1) == kept);
        if kept.len() == 0 {
            assert(value_of(kept, 10) == 0);
        } else {
            assert(s.last() == kept.last());
        }
    }
}

} // verus!
