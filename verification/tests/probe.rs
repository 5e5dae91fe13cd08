use iso_ripper::probe::{probe_iso, sectors_to_scan, ProbeResult, MIN_IMAGE};
use iso_ripper::udf::descriptor::is_udf;

fn sector(first: u8, mark: &[u8]) -> Vec<u8> {
    let mut s = vec![0u8; 2048];
    s[0] = first;
    s[1..1 + mark.len()].copy_from_slice(mark);
    s
}

fn joliet(escape: &[u8]) -> Vec<u8> {
    let mut s = sector(2, b"CD001");
    s[88..91].copy_from_slice(escape);
    s
}

fn el_torito() -> Vec<u8> {
    let mut s = sector(0, b"CD001");
    s[7..30].copy_from_slice(b"EL TORITO SPECIFICATION");
    s
}

const BIG: u64 = 32 * 2048;

fn probe(sectors: Vec<Vec<u8>>) -> ProbeResult {
    let primary = sectors[0].clone();
    probe_iso(BIG, &primary, &sectors)
}

fn flags(r: &ProbeResult) -> (bool, bool, bool, bool, bool) {
    (r.has_iso9660, r.has_joliet, r.has_rock_ridge, r.has_udf, r.has_el_torito)
}

#[test]
fn small_images_hold_nothing() {
    assert_eq!(MIN_IMAGE, 0x8000 + 2048);
    let all = vec![sector(1, b"CD001"), joliet(b"%/E"), sector(0, b"NSR02")];
    let r = probe_iso(0x8000 + 2047, &all[0], &all);
    assert_eq!(r.file_size, 0x8000 + 2047);
    assert_eq!(flags(&r), (false, false, false, false, false));
    assert_eq!(r.format_label(), "Unknown");
    assert!(!r.is_supported());
    let r = probe_iso(0x8000 + 2048, &all[0], &all);
    assert_eq!(flags(&r), (true, false, false, false, false));
}

#[test]
fn sectors_to_scan_lie_within_the_image() {
    assert_eq!(sectors_to_scan(0), 0);
    assert_eq!(sectors_to_scan(MIN_IMAGE - 1), 0);
    assert_eq!(sectors_to_scan(MIN_IMAGE), 1);
    assert_eq!(sectors_to_scan(MIN_IMAGE + 2047), 1);
    assert_eq!(sectors_to_scan(MIN_IMAGE + 2048), 2);
    assert_eq!(sectors_to_scan(31 * 2048), 15);
    assert_eq!(sectors_to_scan(32 * 2048), 16);
    assert_eq!(sectors_to_scan(u64::MAX), 16);
}

#[test]
fn formats_are_recognised() {
    let r = probe(vec![sector(1, b"CD001"), el_torito(), joliet(b"%/@"), sector(255, b"CD001")]);
    assert_eq!(flags(&r), (true, true, false, false, true));
    assert_eq!(r.format_label(), "ISO9660+Joliet+ElTorito");
    assert!(r.is_supported());
    for mark in [b"BEA01", b"NSR02", b"NSR03"] {
        let r = probe(vec![sector(0, mark)]);
        assert_eq!(flags(&r), (false, false, false, true, false));
        assert_eq!(r.format_label(), "UDF");
        assert!(!r.is_supported());
    }
    for escape in [b"%/@", b"%/C", b"%/E"] {
        assert!(probe(vec![sector(1, b"CD001"), joliet(escape)]).has_joliet);
    }
    assert!(!probe(vec![sector(1, b"CD001"), joliet(b"%/F")]).has_joliet);
    assert!(!probe(vec![sector(1, b"CD001"), sector(0, b"CD001")]).has_el_torito);
    assert!(!probe(vec![sector(2, b"CD001")]).has_iso9660);
    assert!(!probe(vec![sector(1, b"CD002")]).has_iso9660);
}

#[test]
fn the_scan_stops_behind_the_terminator() {
    let head = vec![sector(1, b"CD001"), sector(255, b"CD001")];
    let mut with_udf = head.clone();
    with_udf.push(sector(0, b"NSR02"));
    assert!(!probe(with_udf).has_udf);
    let before = vec![sector(1, b"CD001"), sector(0, b"NSR02"), sector(255, b"CD001")];
    let r = probe(before);
    assert!(r.has_udf);
    assert_eq!(r.format_label(), "ISO9660+UDF");
}

#[test]
fn no_more_than_sixteen_sectors_count() {
    let mut sectors = vec![sector(1, b"CD001")];
    for _ in 0..14 {
        sectors.push(vec![0u8; 2048]);
    }
    sectors.push(sector(0, b"BEA01"));
    assert!(probe(sectors.clone()).has_udf);
    sectors.insert(1, vec![0u8; 2048]);
    assert!(!probe(sectors).has_udf);
}

#[test]
fn rock_ridge_needs_an_iso_file_system() {
    let mut r = probe(vec![sector(1, b"CD001")]);
    r.note_rock_ridge(true);
    assert_eq!(r.format_label(), "ISO9660+RockRidge");
    r.note_rock_ridge(false);
    assert!(!r.has_rock_ridge);
    let mut r = probe(vec![sector(0, b"BEA01")]);
    r.note_rock_ridge(true);
    assert!(!r.has_rock_ridge);
}

#[test]
fn labels_name_all_that_was_found() {
    let r = ProbeResult {
        file_size: 1,
        has_iso9660: true,
        has_joliet: true,
        has_rock_ridge: true,
        has_udf: true,
        has_el_torito: true,
    };
    assert_eq!(r.format_label(), "ISO9660+Joliet+RockRidge+UDF+ElTorito");
    let r = ProbeResult { has_iso9660: false, has_udf: false, ..r };
    assert_eq!(r.format_label(), "Unknown");
}

#[test]
fn what_announces_udf_is_found() {
    for i in 0..16 {
        let mut sectors = vec![vec![0u8; 2048]; 16];
        sectors[i] = sector(0, b"NSR03");
        assert!(is_udf(&sectors));
        assert!(probe(sectors).has_udf);
    }
    // A terminator of the ISO 9660 descriptors ends the scan, but not the search for UDF.
    let sectors = vec![sector(255, b"CD001"), sector(0, b"NSR03")];
    assert!(is_udf(&sectors));
    assert!(!probe(sectors).has_udf);
}
