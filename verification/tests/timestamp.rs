use iso_ripper::timestamp::{format_time, read_timestamp, Timestamp};

fn stamp(zone: u16, year: u16, rest: [u8; 5]) -> Vec<u8> {
    let mut b = Vec::new();
    b.extend_from_slice(&zone.to_le_bytes());
    b.extend_from_slice(&year.to_le_bytes());
    b.extend_from_slice(&rest);
    b.extend_from_slice(&[0, 0, 0]);
    b
}

fn moment(year: i32, month: u8, day: u8, clock: (u8, u8, u8), offset_seconds: i32) -> Timestamp {
    Timestamp {
        year,
        month,
        day,
        hour: clock.0,
        minute: clock.1,
        second: clock.2,
        nanosecond: 0,
        offset_seconds,
    }
}

#[test]
fn a_recorded_moment_is_read_and_written() {
    let t = read_timestamp(&stamp(0x1000 | 120, 2021, [3, 4, 5, 6, 7])).unwrap();
    assert_eq!(t, moment(2021, 3, 4, (5, 6, 7), 7200));
    assert_eq!(format_time(t), "2021-03-04T05:06:07+02:00");
}

#[test]
fn offsets_are_signed_numbers_of_twelve_bits() {
    let west = read_timestamp(&stamp(0x1000 | (0x1000 - 330), 1999, [12, 31, 23, 59, 59])).unwrap();
    assert_eq!(west.offset_seconds, -330 * 60);
    assert_eq!(format_time(west), "1999-12-31T23:59:59-05:30");
    // The value for "no offset given", and one that no clock uses, count as UTC.
    let none = read_timestamp(&stamp(0x1801, 2000, [1, 1, 0, 0, 0])).unwrap();
    assert_eq!(none.offset_seconds, 0);
    assert_eq!(format_time(none), "2000-01-01T00:00:00Z");
    let far = read_timestamp(&stamp(0x17ff, 2000, [1, 1, 0, 0, 0])).unwrap();
    assert_eq!(far.offset_seconds, 0);
    // Only type 1 carries an offset.
    let utc = read_timestamp(&stamp(0x0078, 2000, [1, 1, 0, 0, 0])).unwrap();
    assert_eq!(utc.offset_seconds, 0);
    let agreed = read_timestamp(&stamp(0x2078, 2000, [1, 1, 0, 0, 0])).unwrap();
    assert_eq!(agreed.offset_seconds, 0);
}

#[test]
fn an_offset_of_a_day_or_more_cannot_be_written() {
    let t = read_timestamp(&stamp(0x1000 | 1559, 2000, [1, 1, 0, 0, 0])).unwrap();
    assert_eq!(t.offset_seconds, 93540);
    assert_eq!(format_time(t), "-");
    let t = read_timestamp(&stamp(0x1000 | 1440, 2000, [1, 1, 0, 0, 0])).unwrap();
    assert_eq!(t.offset_seconds, 86400);
    assert_eq!(format_time(t), "-");
    let t = read_timestamp(&stamp(0x1000 | 1439, 2000, [1, 1, 0, 0, 0])).unwrap();
    assert_eq!(format_time(t), "2000-01-01T00:00:00+23:59");
    let beyond = read_timestamp(&stamp(0x1000 | 1560, 2000, [1, 1, 0, 0, 0])).unwrap();
    assert_eq!(beyond.offset_seconds, 0);
}

#[test]
fn what_is_no_moment_is_not_read() {
    assert_eq!(read_timestamp(&[]), None);
    assert_eq!(read_timestamp(&stamp(0, 2000, [1, 1, 0, 0, 0])[..11]), None);
    assert_eq!(read_timestamp(&stamp(0, 0, [0, 0, 5, 5, 5])), None);
    assert_eq!(read_timestamp(&stamp(0, 2000, [0, 1, 0, 0, 0])), None);
    assert_eq!(read_timestamp(&stamp(0, 2000, [13, 1, 0, 0, 0])), None);
    assert_eq!(read_timestamp(&stamp(0, 2000, [1, 0, 0, 0, 0])), None);
    assert_eq!(read_timestamp(&stamp(0, 2000, [4, 31, 0, 0, 0])), None);
    assert_eq!(read_timestamp(&stamp(0, 2000, [1, 1, 24, 0, 0])), None);
    assert_eq!(read_timestamp(&stamp(0, 2000, [1, 1, 0, 60, 0])), None);
    assert_eq!(read_timestamp(&stamp(0, 2000, [1, 1, 0, 0, 60])), None);
    assert_eq!(read_timestamp(&stamp(0, 10000, [1, 1, 0, 0, 0])), None);
    assert!(read_timestamp(&stamp(0, 9999, [1, 1, 0, 0, 0])).is_some());
    assert!(read_timestamp(&stamp(0, 0, [1, 1, 0, 0, 0])).is_some());
}

#[test]
fn leap_days_follow_the_calendar() {
    assert!(read_timestamp(&stamp(0, 2000, [2, 29, 0, 0, 0])).is_some());
    assert!(read_timestamp(&stamp(0, 2004, [2, 29, 0, 0, 0])).is_some());
    assert!(read_timestamp(&stamp(0, 1900, [2, 29, 0, 0, 0])).is_none());
    assert!(read_timestamp(&stamp(0, 2001, [2, 29, 0, 0, 0])).is_none());
}

#[test]
fn moments_that_cannot_be_written_are_a_dash() {
    assert_eq!(format_time(moment(-1, 1, 1, (0, 0, 0), 0)), "-");
    assert_eq!(format_time(moment(2000, 2, 30, (0, 0, 0), 0)), "-");
    assert_eq!(format_time(moment(2000, 1, 1, (25, 0, 0), 0)), "-");
    assert_eq!(format_time(moment(2000, 1, 1, (0, 0, 0), 30)), "-");
    assert_eq!(format_time(moment(0, 1, 1, (0, 0, 0), -60)), "0000-01-01T00:00:00-00:01");
}

#[test]
fn fractions_lose_their_trailing_zeros() {
    let mut t = moment(2024, 2, 29, (1, 2, 3), 0);
    t.nanosecond = 120_000_000;
    assert_eq!(format_time(t), "2024-02-29T01:02:03.12Z");
    t.nanosecond = 1;
    assert_eq!(format_time(t), "2024-02-29T01:02:03.000000001Z");
    t.nanosecond = 1_000_000_000;
    assert_eq!(format_time(t), "-");
}
