use std::collections::BTreeMap;

use iso_ripper::iso::WalkStats;
use iso_ripper::udf::copy::CHUNK_SIZE;
use iso_ripper::udf::descriptor::{
    is_udf, parse_file_entry, read_dstring, unpad, AllocDesc, TAG_EXTENDED_FILE_ENTRY,
    TAG_FILE_ENTRY,
};
use iso_ripper::udf::open::{OpenStep, UdfError, UdfReader};
use iso_ripper::udf::tree::UdfEntry;
use iso_ripper::udf::walk::WalkStep;

/// An image of `size` sectors; those that were not written hold zeros.
struct Image {
    sectors: BTreeMap<u64, Vec<u8>>,
    size: u64,
}

impl Image {
    fn new(size: u64) -> Image {
        Image { sectors: BTreeMap::new(), size }
    }

    fn at(&mut self, n: u64) -> &mut Vec<u8> {
        self.sectors.entry(n).or_insert_with(|| vec![0u8; 2048])
    }

    fn read(&self, n: u64) -> Option<Vec<u8>> {
        if n >= self.size {
            return None;
        }
        Some(self.sectors.get(&n).cloned().unwrap_or_else(|| vec![0u8; 2048]))
    }

    fn put(&mut self, n: u64, at: usize, bytes: &[u8]) {
        self.at(n)[at..at + bytes.len()].copy_from_slice(bytes);
    }

    fn put16(&mut self, n: u64, at: usize, value: u16) {
        self.put(n, at, &value.to_le_bytes());
    }

    fn put32(&mut self, n: u64, at: usize, value: u32) {
        self.put(n, at, &value.to_le_bytes());
    }
}

const PART: u64 = 300;

/// An image with a volume whose root directory is in block 1.
fn volume() -> Image {
    let mut image = Image::new(400);
    image.put16(256, 0, 2);
    image.put32(256, 16, 4 * 2048);
    image.put32(256, 20, 32);
    image.put16(32, 0, 5);
    image.put32(32, 188, PART as u32);
    logical_volume(&mut image, 33, 0, b"\x08My Disc\0\0");
    image.put16(34, 0, 8);
    image.put16(PART, 0, 0x100);
    image.put32(PART, 404, 1);
    image
}

fn logical_volume(image: &mut Image, n: u64, file_set: u32, name: &[u8]) {
    image.put16(n, 0, 6);
    image.put32(n, 212, 2048);
    image.put32(n, 252, file_set);
    image.put(n, 84, name);
}

/// Writes a file entry with these extents, each a length and a block.
fn file_entry(image: &mut Image, block: u64, size: u64, extents: &[(u32, u32)]) {
    let n = PART + block;
    image.put16(n, 0, 0x105);
    image.put(n, 56, &size.to_le_bytes());
    image.put32(n, 168, 0);
    image.put32(n, 172, 8 * extents.len() as u32);
    for (i, (length, location)) in extents.iter().enumerate() {
        image.put32(n, 176 + 8 * i, *length);
        image.put32(n, 180 + 8 * i, *location);
    }
}

/// A file identifier descriptor, filled up to a multiple of four bytes.
fn identifier(characteristics: u8, block: u32, name: &[u8], extra: usize) -> Vec<u8> {
    let mut fid = vec![0u8; 38 + extra];
    fid[0] = 0x01;
    fid[1] = 0x01;
    fid[18] = characteristics;
    fid[19] = name.len() as u8;
    fid[24..28].copy_from_slice(&block.to_le_bytes());
    fid[36..38].copy_from_slice(&(extra as u16).to_le_bytes());
    fid.extend_from_slice(name);
    while fid.len() % 4 != 0 {
        fid.push(0);
    }
    fid
}

/// Writes a directory whose file entry is in `block` and whose identifiers are in `content`.
fn directory(image: &mut Image, block: u64, content: u32, identifiers: &[Vec<u8>]) {
    let data: Vec<u8> = identifiers.concat();
    // The length leaves room behind the last identifier.
    file_entry(image, block, data.len() as u64, &[(data.len() as u32 + 40, content)]);
    for (i, chunk) in data.chunks(2048).enumerate() {
        image.put(PART + content as u64 + i as u64, 0, chunk);
    }
}

fn open(image: &Image) -> (Result<UdfReader, UdfError>, Vec<u64>) {
    let mut reads = Vec::new();
    let mut opening = UdfReader::new();
    loop {
        let n = opening.sector();
        reads.push(n);
        match opening.supply(image.read(n)) {
            OpenStep::Read(next) => opening = next,
            OpenStep::Opened(volume) => return (Ok(volume), reads),
            OpenStep::Refused(error) => return (Err(error), reads),
        }
    }
}

fn refused(image: &Image) -> UdfError {
    match open(image).0 {
        Ok(_) => panic!("opened"),
        Err(error) => error,
    }
}

type Walked = Result<(Vec<UdfEntry>, WalkStats), UdfError>;

fn walk(image: &Image, volume: &UdfReader) -> (Walked, Vec<u64>) {
    let mut reads = Vec::new();
    let mut walk = volume.walk();
    loop {
        let n = walk.sector();
        reads.push(n);
        match walk.supply(image.read(n)) {
            WalkStep::Read(next) => walk = next,
            WalkStep::Done { entries, stats } => return (Ok((entries, stats)), reads),
            WalkStep::Failed { error, .. } => return (Err(error), reads),
        }
    }
}

fn listed(image: &Image) -> (Vec<String>, WalkStats) {
    let volume = open(image).0.ok().unwrap();
    let (entries, stats) = walk(image, &volume).0.ok().unwrap();
    (entries.into_iter().map(|e| e.path).collect(), stats)
}

#[test]
fn texts_are_decoded_as_their_first_byte_says() {
    assert_eq!(read_dstring(&[]), "");
    assert_eq!(read_dstring(&[0, 65]), "");
    assert_eq!(read_dstring(b"\x08 Name \0\0"), "Name");
    assert_eq!(read_dstring(b"\x08h\xc3\xa4"), "hä");
    assert_eq!(read_dstring(b"\x08a\xffb"), "a\u{fffd}b");
    assert_eq!(read_dstring(&[16, 0x00, 0x41, 0x30, 0x42, 0, 0]), "A\u{3042}");
    assert_eq!(read_dstring(&[16, 0xd8, 0x3d, 0xde, 0x00]), "\u{1f600}");
    assert_eq!(read_dstring(&[16, 0xd8, 0x3d]), "\u{fffd}");
    assert_eq!(read_dstring(&[16, 0x00, 0x41, 0x42]), "A");
    assert_eq!(read_dstring(b"\x09 odd "), "odd");
    assert_eq!(read_dstring(b"\x09x\0"), "x\0");
    assert_eq!(unpad(" a \0\0"), "a");
    assert_eq!(unpad(" a \0 \0"), "a \0");
}

#[test]
fn a_volume_is_announced_in_sixteen_sectors() {
    let mut sectors = vec![vec![0u8; 2048]; 20];
    assert!(!is_udf(&sectors));
    sectors[3][1..6].copy_from_slice(b"BEA01");
    assert!(!is_udf(&sectors));
    sectors[16][1..6].copy_from_slice(b"NSR02");
    assert!(!is_udf(&sectors));
    sectors[15][1..6].copy_from_slice(b"NSR03");
    assert!(is_udf(&sectors));
    assert!(!is_udf(&sectors[..15].to_vec()));
    sectors[0][1..6].copy_from_slice(b"NSR02");
    assert!(is_udf(&sectors[..1].to_vec()));
    assert!(!is_udf(&vec![]));
}

#[test]
fn file_entries_give_extents_length_and_time() {
    let mut image = Image::new(400);
    file_entry(&mut image, 0, 5000, &[(0x8000_0000 | 2048, 9), (2952, 20), (0, 7), (5, 6)]);
    image.put(PART, 84, &[0, 0x10, 0xe4, 0x07, 1, 2, 3, 4, 5, 0, 0, 0]);
    let buf = image.read(PART).unwrap();
    let entry = parse_file_entry(&buf, TAG_FILE_ENTRY);
    assert_eq!(
        entry.alloc_descs,
        vec![
            AllocDesc { length: 2048, location: 9 },
            AllocDesc { length: 2952, location: 20 }
        ]
    );
    assert_eq!(entry.info_len, 5000);
    let t = entry.modified.unwrap();
    assert_eq!((t.year, t.month, t.day, t.hour, t.minute, t.second), (2020, 1, 2, 3, 4, 5));
}

#[test]
fn extended_file_entries_have_a_longer_fixed_part() {
    let mut image = Image::new(400);
    image.put(PART, 56, &77u64.to_le_bytes());
    image.put32(PART, 208, 4);
    image.put32(PART, 212, 15);
    image.put32(PART, 220, 100);
    image.put32(PART, 224, 3);
    image.put32(PART, 228, 50);
    let buf = image.read(PART).unwrap();
    let entry = parse_file_entry(&buf, TAG_EXTENDED_FILE_ENTRY);
    // Fifteen bytes hold one descriptor of eight.
    assert_eq!(entry.alloc_descs, vec![AllocDesc { length: 100, location: 3 }]);
    assert_eq!(entry.info_len, 77);
    assert_eq!(entry.modified, None);
}

#[test]
fn descriptors_beyond_the_sector_are_left_out() {
    let mut image = Image::new(400);
    image.put32(PART, 168, 2048 - 176 - 12);
    image.put32(PART, 172, u32::MAX);
    image.put32(PART, 2036, 8);
    image.put32(PART, 2040, 9);
    let buf = image.read(PART).unwrap();
    let entry = parse_file_entry(&buf, TAG_FILE_ENTRY);
    assert_eq!(entry.alloc_descs, vec![AllocDesc { length: 8, location: 9 }]);
    image.put32(PART, 168, u32::MAX);
    let buf = image.read(PART).unwrap();
    assert!(parse_file_entry(&buf, TAG_FILE_ENTRY).alloc_descs.is_empty());
}

#[test]
fn opening_reads_anchor_sequence_and_file_set() {
    let image = volume();
    let (volume, reads) = open(&image);
    let volume = volume.ok().unwrap();
    assert_eq!(reads, vec![256, 32, 33, 34, 300]);
    assert_eq!(volume.volume_id, "My Disc");
    assert_eq!(volume.partition_start(), 300);
    assert_eq!(volume.block_size(), 2048);
}

#[test]
fn opening_goes_by_the_last_logical_volume() {
    let mut image = volume();
    logical_volume(&mut image, 34, 7, b"\x08Second");
    image.put16(307, 0, 0x100);
    let (volume, reads) = open(&image);
    assert_eq!(reads, vec![256, 32, 33, 34, 35, 307]);
    assert_eq!(volume.ok().unwrap().volume_id, "Second");
}

#[test]
fn each_error_of_opening() {
    let mut image = volume();
    image.put16(256, 0, 0x1af);
    assert_eq!(refused(&image), UdfError::NoAnchor { tag: 0x1af });
    assert_eq!(
        refused(&image).message(),
        "No Anchor Volume Descriptor at sector 256 (tag=0x1af)"
    );

    let mut image = volume();
    image.size = 256;
    assert_eq!(refused(&image), UdfError::Unreadable { sector: 256 });
    assert_eq!(refused(&image).message(), "UDF: cannot read sector 256");

    let mut image = volume();
    image.put32(256, 20, 500);
    assert_eq!(refused(&image), UdfError::Unreadable { sector: 500 });

    let mut image = volume();
    image.put16(32, 0, 9);
    assert_eq!(refused(&image), UdfError::NoPartition);
    assert_eq!(refused(&image).message(), "UDF: no Partition Descriptor found");

    let mut image = volume();
    image.put16(33, 0, 9);
    assert_eq!(refused(&image), UdfError::NoLogicalVolume);
    assert_eq!(refused(&image).message(), "UDF: no Logical Volume Descriptor found");

    let mut image = volume();
    image.put16(300, 0, 0x20);
    assert_eq!(refused(&image), UdfError::NoFileSet { sector: 300, tag: 0x20 });
    assert_eq!(
        refused(&image).message(),
        "Expected File Set Descriptor at sector 300, got tag 0x20"
    );

    let mut image = volume();
    image.put32(33, 252, 200);
    assert_eq!(refused(&image), UdfError::Unreadable { sector: 500 });
}

#[test]
fn no_more_than_64_descriptors_are_read() {
    let mut image = volume();
    image.put32(256, 16, u32::MAX - 2047);
    image.put32(256, 20, 100);
    let (result, reads) = open(&image);
    assert_eq!(result.err(), Some(UdfError::NoPartition));
    assert_eq!(reads.len(), 65);
    assert_eq!(reads[1..], (100..164).collect::<Vec<u64>>());
}

#[test]
fn sequence_lengths_and_sectors_have_32_bits() {
    // The length rounded up to sectors wraps around to nothing.
    let mut image = volume();
    image.put32(256, 16, u32::MAX);
    let (result, reads) = open(&image);
    assert_eq!(result.err(), Some(UdfError::NoPartition));
    assert_eq!(reads, vec![256]);

    let mut image = volume();
    image.size = u64::MAX;
    image.put32(256, 16, 2049);
    image.put32(256, 20, u32::MAX);
    let (_, reads) = open(&image);
    assert_eq!(reads, vec![256, u32::MAX as u64, 0]);
}

#[test]
fn a_walk_lists_files_below_directories() {
    let mut image = volume();
    directory(
        &mut image,
        1,
        2,
        &[
            identifier(0x0a, 1, b"", 0),
            identifier(0x00, 10, b"\x08a.txt", 0),
            identifier(0x02, 4, b"\x08sub", 3),
            identifier(0x20, 10, b"\x08gone", 0),
            identifier(0x00, 11, b"\x10\0b\0.\0c", 0),
        ],
    );
    directory(
        &mut image,
        4,
        5,
        &[identifier(0x0a, 1, b"", 0), identifier(0x00, 12, b"\x08deep.mp3", 0)],
    );
    file_entry(&mut image, 10, 100, &[(100, 50)]);
    file_entry(&mut image, 11, 0, &[]);
    file_entry(&mut image, 12, 70000, &[(70000, 20)]);
    image.put(PART + 12, 84, &[0, 0x10, 0xe4, 0x07, 1, 2, 3, 4, 5, 0, 0, 0]);

    let volume = open(&image).0.ok().unwrap();
    let (result, reads) = walk(&image, &volume);
    let (entries, stats) = result.ok().unwrap();
    assert_eq!(stats, WalkStats { files: 3, dirs: 1, total_size: 70100 });
    let plain: Vec<(&str, u64, bool, u64)> = entries
        .iter()
        .map(|e| (e.path.as_str(), e.size, e.is_dir, e.data_offset))
        .collect();
    assert_eq!(
        plain,
        vec![
            ("/a.txt", 100, false, 350 * 2048),
            ("/sub/deep.mp3", 70000, false, 320 * 2048),
            ("/b.c", 0, false, 0),
        ]
    );
    assert_eq!(entries[0].modified, None);
    assert_eq!(entries[1].modified.unwrap().year, 2020);
    assert_eq!(reads, vec![256, 32, 33, 300, 301, 302, 310, 304, 305, 312, 311]);
}

#[test]
fn files_without_a_file_entry_are_passed_over() {
    let mut image = volume();
    directory(
        &mut image,
        1,
        2,
        &[
            identifier(0x00, 10, b"\x08blank", 0),
            identifier(0x00, 5000, b"\x08unreadable", 0),
            identifier(0x00, 11, b"\x08good", 0),
            identifier(0x00, 11, b"\x08  ", 0),
        ],
    );
    file_entry(&mut image, 11, 3, &[(3, 40)]);
    assert_eq!(
        listed(&image),
        (vec!["/good".to_string()], WalkStats { files: 1, dirs: 0, total_size: 3 })
    );
}

#[test]
fn directories_without_contents_are_empty() {
    let mut image = volume();
    directory(
        &mut image,
        1,
        2,
        &[identifier(0x02, 20, b"\x08none", 0), identifier(0x02, 21, b"\x08empty", 0)],
    );
    file_entry(&mut image, 21, 0, &[]);
    assert_eq!(listed(&image), (vec![], WalkStats { files: 0, dirs: 2, total_size: 0 }));
}

#[test]
fn a_directory_that_cannot_be_read_ends_the_walk() {
    let mut image = volume();
    directory(&mut image, 1, 2, &[identifier(0x02, 5000, b"\x08far", 0)]);
    let volume = open(&image).0.ok().unwrap();
    let (result, _) = walk(&image, &volume);
    assert_eq!(result.err(), Some(UdfError::Unreadable { sector: 5300 }));

    file_entry(&mut image, 1, 0, &[(2048, 2), (4097, 98)]);
    let (result, reads) = walk(&image, &volume);
    assert_eq!(result.err(), Some(UdfError::Unreadable { sector: 400 }));
    assert_eq!(reads, vec![256, 32, 33, 300, 301, 302, 398, 399, 400]);
}

#[test]
fn a_walk_that_fails_has_counted_what_it_met() {
    let mut image = volume();
    directory(
        &mut image,
        1,
        2,
        &[
            identifier(0x00, 10, b"\x08one", 0),
            identifier(0x02, 4, b"\x08sub", 0),
            identifier(0x00, 10, b"\x08never", 0),
        ],
    );
    directory(
        &mut image,
        4,
        5,
        &[identifier(0x00, 10, b"\x08two", 0), identifier(0x02, 5000, b"\x08far", 0)],
    );
    file_entry(&mut image, 10, 7, &[(7, 40)]);
    let volume = open(&image).0.ok().unwrap();
    let mut walk = volume.walk();
    let mut met = None;
    while met.is_none() {
        let n = walk.sector();
        match walk.supply(image.read(n)) {
            WalkStep::Read(next) => walk = next,
            WalkStep::Done { .. } => panic!("done"),
            WalkStep::Failed { error, entries, stats } => {
                assert_eq!(error, UdfError::Unreadable { sector: 5300 });
                met = Some((entries, stats));
                walk = volume.walk();
            }
        }
    }
    let (entries, stats) = met.unwrap();
    let paths: Vec<&str> = entries.iter().map(|e| e.path.as_str()).collect();
    assert_eq!(paths, vec!["/one", "/sub/two"]);
    assert!(entries.iter().all(|e| !e.is_dir));
    assert_eq!(stats, WalkStats { files: 2, dirs: 2, total_size: 14 });
}

#[test]
fn names_are_read_back_in_both_forms() {
    for text in ["", "a", "Häuser", "\u{3042}\u{3044}", "x\u{1f600}y", "a b", "\u{ffff}"] {
        let mut narrow = vec![8u8];
        narrow.extend_from_slice(text.as_bytes());
        assert_eq!(read_dstring(&narrow), text);
        let mut wide = vec![16u8];
        for unit in text.encode_utf16() {
            wide.extend_from_slice(&unit.to_be_bytes());
        }
        assert_eq!(read_dstring(&wide), text);
        wide.extend_from_slice(&[0, 0x20, 0, 0]);
        assert_eq!(read_dstring(&wide), text);
    }
}

#[test]
fn surrogates_without_a_partner_are_replaced_one_by_one() {
    // A high one before another character, two high ones, a low one first, and a pair.
    assert_eq!(read_dstring(&[16, 0xd8, 0x00, 0, 0x41]), "\u{fffd}A");
    assert_eq!(read_dstring(&[16, 0xd8, 0x00, 0xdb, 0xff, 0, 0x41]), "\u{fffd}\u{fffd}A");
    assert_eq!(read_dstring(&[16, 0xdc, 0x00, 0xd8, 0x00, 0xdc, 0x00]), "\u{fffd}\u{10000}");
    assert_eq!(read_dstring(&[16, 0xdb, 0xff, 0xdf, 0xff]), "\u{10ffff}");
}

#[test]
fn identifiers_end_with_the_first_extent() {
    let mut image = volume();
    let first = identifier(0x00, 10, b"\x08one", 0);
    let second = identifier(0x00, 10, b"\x08two", 0);
    let data = [first.clone(), second.clone()].concat();
    image.put(PART + 2, 0, &data);
    file_entry(&mut image, 10, 1, &[(1, 40)]);
    // The fixed part of the second identifier has to lie before the end, with something behind it.
    file_entry(&mut image, 1, 0, &[(first.len() as u32 + 38, 2), (2048, 3)]);
    assert_eq!(listed(&image).0, vec!["/one".to_string()]);
    file_entry(&mut image, 1, 0, &[(first.len() as u32 + 39, 2), (2048, 3)]);
    assert_eq!(listed(&image).0, vec!["/one".to_string(), "/two".to_string()]);
}

#[test]
fn names_may_cross_sectors() {
    let mut image = volume();
    let mut identifiers = Vec::new();
    let mut expected = Vec::new();
    for i in 0..60 {
        let name = format!("file number {:03}", i);
        let mut coded = vec![8u8];
        coded.extend_from_slice(name.as_bytes());
        identifiers.push(identifier(0x00, 10, &coded, 0));
        expected.push(format!("/{}", name));
    }
    directory(&mut image, 1, 60, &identifiers);
    file_entry(&mut image, 10, 1, &[(1, 40)]);
    let (paths, stats) = listed(&image);
    assert_eq!(paths, expected);
    assert_eq!(stats, WalkStats { files: 60, dirs: 0, total_size: 60 });
}

#[test]
fn a_walk_goes_by_the_first_logical_volume() {
    let mut image = volume();
    directory(&mut image, 1, 2, &[identifier(0x00, 10, b"\x08first", 0)]);
    file_entry(&mut image, 10, 1, &[(1, 40)]);
    logical_volume(&mut image, 34, 7, b"\x08Second");
    image.put16(307, 0, 0x100);
    image.put32(307, 404, 90);
    assert_eq!(listed(&image).0, vec!["/first".to_string()]);
}

#[test]
fn without_a_logical_volume_the_file_set_is_at_the_start() {
    let mut image = volume();
    directory(&mut image, 1, 2, &[identifier(0x00, 10, b"\x08x", 0)]);
    file_entry(&mut image, 10, 1, &[(1, 40)]);
    let volume = open(&image).0.ok().unwrap();
    image.put16(33, 0, 8);
    let (result, reads) = walk(&image, &volume);
    assert_eq!(result.ok().unwrap().0[0].path, "/x");
    assert_eq!(reads, vec![256, 32, 33, 300, 301, 302, 310]);
}

#[test]
fn a_file_is_copied_in_chunks() {
    let image = volume();
    let volume = open(&image).0.ok().unwrap();
    let mut entry = UdfEntry {
        path: "/f".to_string(),
        size: 2 * CHUNK_SIZE as u64 + 10,
        is_dir: false,
        modified: None,
        data_offset: 4096,
    };
    let mut copy = volume.read_file_to(&entry);
    assert_eq!(copy.offset(), 4096);
    let mut lengths = Vec::new();
    while !copy.is_over() {
        lengths.push(copy.next_len());
        copy.advance(copy.next_len());
    }
    assert_eq!(lengths, vec![65536, 65536, 10]);
    assert_eq!(copy.written(), entry.size);

    // Short reads are made up for, and one that gives nothing ends the copy.
    let mut copy = volume.read_file_to(&entry);
    copy.advance(100);
    assert_eq!(copy.next_len(), CHUNK_SIZE);
    copy.advance(0);
    assert!(copy.is_over());
    assert_eq!(copy.next_len(), 0);
    assert_eq!(copy.written(), 100);

    entry.data_offset = 0;
    assert!(volume.read_file_to(&entry).is_over());
    entry.data_offset = 4096;
    entry.size = 0;
    let copy = volume.read_file_to(&entry);
    assert!(copy.is_over());
    assert_eq!(copy.written(), 0);
}

#[test]
fn a_copy_of_a_cut_image_has_what_is_there() {
    let image = volume();
    let volume = open(&image).0.ok().unwrap();
    let entry = UdfEntry {
        path: "/f".to_string(),
        size: 100_000,
        is_dir: false,
        modified: None,
        data_offset: 2048,
    };
    let image_size: u64 = 2048 + 70_000;
    let mut copy = volume.read_file_to(&entry);
    while !copy.is_over() {
        let left = image_size - (copy.offset() + copy.written());
        copy.advance(copy.next_len().min(left as usize));
    }
    assert_eq!(copy.written(), 70_000);
}

#[test]
fn a_walk_begins_at_the_file_set_that_opening_checked() {
    let mut image = volume();
    image.put32(33, 252, 9);
    image.put16(PART + 9, 0, 0x100);
    image.put32(PART + 9, 404, 1);
    directory(&mut image, 1, 2, &[identifier(0x00, 10, b"\x08x", 0)]);
    let (volume, opening_reads) = open(&image);
    let (_, walk_reads) = walk(&image, &volume.ok().unwrap());
    assert_eq!(opening_reads.last(), Some(&309));
    assert_eq!(walk_reads[..4], [256, 32, 33, 309]);
}

#[test]
fn deep_directories_are_walked_to_the_end() {
    let mut image = volume();
    image.size = 1000;
    // A chain of directories, each with one file before and one behind the next directory.
    let levels: u32 = 40;
    let mut expected = Vec::new();
    let mut path = String::new();
    for i in 0..levels {
        let block = 1 + 2 * i;
        let mut identifiers = vec![identifier(0x00, 200, b"\x08a", 0)];
        if i + 1 < levels {
            identifiers.push(identifier(0x02, block + 2, b"\x08d", 0));
        }
        identifiers.push(identifier(0x00, 200, b"\x08z", 0));
        directory(&mut image, block as u64, block + 1, &identifiers);
        expected.push(format!("{}/a", path));
        path.push_str("/d");
    }
    file_entry(&mut image, 200, 2, &[(2, 40)]);
    for i in (0..levels).rev() {
        expected.push(format!("{}/z", "/d".repeat(i as usize)));
    }
    let (paths, stats) = listed(&image);
    assert_eq!(paths, expected);
    assert_eq!(stats, WalkStats { files: 80, dirs: 39, total_size: 160 });
}
