use iso_ripper::bytes::{bytes_have_text, ru16, ru32, ru64};
use iso_ripper::text::{
    chars_of, ends_with, join, join_path, push_decimal, push_hex, push_padded_left,
    push_padded_right, same_text, string_of, trim, trim_end_char, trim_start_char,
};

#[test]
fn integers_are_little_endian() {
    let b = [0xff, 0x01, 0x02, 0x03, 0x04, 0x05, 0x06, 0x07, 0x08];
    assert_eq!(ru16(&b, 1), 0x0201);
    assert_eq!(ru32(&b, 1), 0x0403_0201);
    assert_eq!(ru64(&b, 1), 0x0807_0605_0403_0201);
    assert_eq!(ru16(&[0xff, 0xff], 0), u16::MAX);
    assert_eq!(ru64(&[0xff; 8], 0), u64::MAX);
}

#[test]
fn marks_are_found_at_their_offset() {
    let b = b"\x01CD001\x01";
    assert!(bytes_have_text(b, 1, "CD001"));
    assert!(!bytes_have_text(b, 0, "CD001"));
    assert!(!bytes_have_text(b, 3, "CD001"));
    assert!(bytes_have_text(b, 7, ""));
    assert!(!bytes_have_text(b, 8, ""));
}

#[test]
fn numbers_in_decimal_and_hexadecimal() {
    let mut out = String::from("n=");
    push_decimal(&mut out, 0);
    out.push(' ');
    push_decimal(&mut out, 10);
    out.push(' ');
    push_decimal(&mut out, u64::MAX);
    assert_eq!(out, "n=0 10 18446744073709551615");
    let mut out = String::new();
    push_hex(&mut out, 0);
    out.push(' ');
    push_hex(&mut out, 0x1af);
    assert_eq!(out, "0x0 0x1af");
    assert_eq!(format!("{:#x}", 0x1afu16), "0x1af");
}

#[test]
fn padding_counts_characters() {
    let mut out = String::new();
    push_padded_right(&mut out, "äb", 4);
    out.push('|');
    push_padded_left(&mut out, "äb", 4);
    out.push('|');
    push_padded_right(&mut out, "longer", 3);
    push_padded_left(&mut out, "longer", 3);
    assert_eq!(out, "äb  |  äb|longerlonger");
    assert_eq!(out, format!("{:<4}|{:>4}|{:<3}{:>3}", "äb", "äb", "longer", "longer"));
}

#[test]
fn trimming_knows_unicode_white_space() {
    assert_eq!(trim("\u{2003} a b\t\n\u{a0}"), "a b");
    assert_eq!(trim(" \t "), "");
    assert_eq!(trim("\0x\0"), "\0x\0");
    assert_eq!(trim_end_char("a..b...", '.'), "a..b");
    assert_eq!(trim_end_char("...", '.'), "");
    assert_eq!(trim_start_char("//a/b/", '/'), "a/b/");
}

#[test]
fn white_space_is_what_the_property_has() {
    let mut found: Vec<u32> = Vec::new();
    for c in '\0'..=char::MAX {
        if trim(&c.to_string()).is_empty() {
            found.push(c as u32);
        }
    }
    let mut expected: Vec<u32> = (0x09..=0x0d).collect();
    expected.extend([0x20, 0x85, 0xa0, 0x1680]);
    expected.extend(0x2000..=0x200a);
    expected.extend([0x2028, 0x2029, 0x202f, 0x205f, 0x3000]);
    assert_eq!(found, expected);
}

#[test]
fn comparing_and_joining() {
    assert!(same_text("iso", "iso"));
    assert!(!same_text("iso", "is"));
    assert!(!same_text("iso", "isq"));
    assert!(ends_with("/a/b.mp3", ".mp3"));
    assert!(!ends_with("mp3", ".mp3"));
    assert!(!ends_with("/a/b.mp4", ".mp3"));
    assert!(ends_with("x", ""));
    assert_eq!(join(&vec!["a", "b", "c"], "+"), "a+b+c");
    assert_eq!(join(&vec!["a"], "+"), "a");
    assert_eq!(join(&vec![], "+"), "");
    assert_eq!(join_path("", "a"), "/a");
    assert_eq!(join_path("/a", "b"), "/a/b");
    let chars = chars_of("häuser");
    assert_eq!(chars.len(), 6);
    assert_eq!(string_of(&chars, 1, 4), "äus");
}
