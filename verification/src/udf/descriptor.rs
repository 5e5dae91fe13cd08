//! The on-disc structures of a UDF volume (ECMA-167) that listing its files needs.

use crate::bytes::{be16, bytes_have_text, has_text, le16, le32, le64, ru32, ru64};
use crate::text::{
    encode_utf16, is_surrogate, law_utf16_can_be_read_back, lemma_utf16_without_surrogates,
    lossy_utf16, lossy_utf8, trim, trim_end_char, trimmed, trimmed_start, utf16_text, utf8_text,
    white_space, without_trailing,
};
use crate::timestamp::{read_timestamp, recorded_time, Timestamp};
use vstd::prelude::*;
use vstd::slice::slice_subrange;
use vstd::utf8::{
    decode_utf8, encode_utf8, encode_utf8_decode_utf8, encode_utf8_valid_utf8, valid_utf8,
};

verus! {

/// The size of a sector in bytes.
pub const SECTOR_SIZE: u64 = 2048;

/// The sector that holds the anchor volume descriptor pointer.
pub const ANCHOR_SECTOR: u64 = 256;

/// The most sectors of a volume descriptor sequence that are looked at.
pub const MAX_SEQUENCE: u32 = 64;

pub const TAG_ANCHOR: u16 = 0x0002;

pub const TAG_PARTITION: u16 = 0x0005;

pub const TAG_LOGICAL_VOLUME: u16 = 0x0006;

pub const TAG_TERMINATING: u16 = 0x0008;

pub const TAG_FILE_SET: u16 = 0x0100;

pub const TAG_FILE_IDENTIFIER: u16 = 0x0101;

pub const TAG_FILE_ENTRY: u16 = 0x0105;

pub const TAG_EXTENDED_FILE_ENTRY: u16 = 0x010A;

/// The bytes of a file identifier descriptor before its variable part.
pub const IDENTIFIER_HEAD: usize = 38;

/// What reading each sector of a disc gives: its bytes, or nothing where it cannot be read.
pub type Disk = spec_fn(u64) -> Option<Seq<u8>>;

/// The view of an optional block of bytes.
pub open spec fn block_view(block: Option<Vec<u8>>) -> Option<Seq<u8>> {
    match block {
        Some(bytes) => Some(bytes@),
        None => None,
    }
}

/// The tag that names what a descriptor is.
pub open spec fn tag(sector: Seq<u8>) -> u16 {
    le16(sector, 0)
}

// ---------------------------------------------------------------------------------------------
// Text
// ---------------------------------------------------------------------------------------------

/// The 16-bit units that bytes hold, high byte first; an odd byte at the end is left out.
pub open spec fn big_endian_units(b: Seq<u8>) -> Seq<u16> {
    Seq::new(b.len() / 2, |i: int| be16(b, 2 * i))
}

/// Whether no unit is half of a surrogate pair.
pub open spec fn has_no_surrogates(units: Seq<u16>) -> bool {
    forall|i: int| 0 <= i < units.len() ==> !is_surrogate(#[trigger] units[i])
}

/// Text without the zero characters that fill its field and without white space at its ends.
pub open spec fn unpadded(text: Seq<char>) -> Seq<char> {
    trimmed(without_trailing(text, '\0'))
}

/// The text of a `dstring` field: its first byte says how the others encode it.
pub open spec fn dstring(b: Seq<u8>) -> Seq<char> {
    if b.len() == 0 || b[0] == 0 {
        seq![]
    } else if b[0] == 8 {
        unpadded(lossy_utf8(b.skip(1)))
    } else if b[0] == 16 {
        unpadded(lossy_utf16(big_endian_units(b.skip(1))))
    } else {
        trimmed(lossy_utf8(b.skip(1)))
    }
}

/// Takes the zero characters that fill a field off the end of its text, and then the white space
/// off both ends.
pub fn unpad(text: &str) -> (r: String)
    ensures
        r@ == unpadded(text@),
{
    let stripped: String = trim_end_char(text, '\0');
    trim(&stripped)
}

/// Reads the 16-bit units that bytes hold, high byte first.
fn read_units(b: &[u8]) -> (r: Vec<u16>)
    ensures
        r@ == big_endian_units(b@),
{
    let count: usize = b.len() / 2;
    let mut r: Vec<u16> = Vec::new();
    let mut i: usize = 0;
    while i < count
        invariant
            i <= count,
            count == b.len() / 2,
            r@ == big_endian_units(b@).take(i as int),
        decreases count - i,
    {
        r.push(0x100 * (b[2 * i] as u16) + b[2 * i + 1] as u16);
        i = i + 1;
        assert(r@ == big_endian_units(b@).take(i as int));
    }
    assert(big_endian_units(b@).take(count as int) == big_endian_units(b@));
    r
}

/// Reads the text of a `dstring` field.
pub fn read_dstring(b: &[u8]) -> (r: String)
    ensures
        r@ == dstring(b@),
        b.len() > 0 && b[0] == 8 && valid_utf8(b@.skip(1)) ==> r@ == unpadded(
            decode_utf8(b@.skip(1)),
        ),
        b.len() > 0 && b[0] == 16 && has_no_surrogates(big_endian_units(b@.skip(1))) ==> r@
            == unpadded(big_endian_units(b@.skip(1)).map_values(|u: u16| u as char)),
{
    proof {
        if b.len() > 0 && has_no_surrogates(big_endian_units(b@.skip(1))) {
            lemma_utf16_without_surrogates(big_endian_units(b@.skip(1)));
        }
    }
    if b.len() == 0 || b[0] == 0 {
        return String::new();
    }
    let body: &[u8] = slice_subrange(b, 1, b.len());
    assert(body@ == b@.skip(1));
    if b[0] == 8 {
        unpad(&utf8_text(body))
    } else if b[0] == 16 {
        let units: Vec<u16> = read_units(body);
        unpad(&utf16_text(&units))
    } else {
        trim(&utf8_text(body))
    }
}

// ---------------------------------------------------------------------------------------------
// Recognising a volume
// ---------------------------------------------------------------------------------------------

/// Whether a sector of the volume recognition area announces a UDF file system.
pub open spec fn announces_udf(sector: Seq<u8>) -> bool {
    has_text(sector, 1, "NSR02"@) || has_text(sector, 1, "NSR03"@)
}

/// Whether one of the first sixteen sectors announces a UDF file system.
pub open spec fn holds_udf(sectors: Seq<Vec<u8>>) -> bool {
    exists|i: int| 0 <= i < sectors.len() && i < 16 && announces_udf(#[trigger] sectors[i]@)
}

/// Whether an image holds a UDF file system, going by the sectors of its volume recognition area:
/// those from 16 to 31, as far as they could be read one after the other.
pub fn is_udf(sectors: &Vec<Vec<u8>>) -> (r: bool)
    ensures
        r == holds_udf(sectors@),
{
    let mut i: usize = 0;
    while i < sectors.len() && i < 16
        invariant
            i <= sectors.len(),
            i <= 16,
            forall|j: int| 0 <= j < i ==> !announces_udf(#[trigger] sectors@[j]@),
        decreases sectors.len() - i,
    {
        let sector: &[u8] = sectors[i].as_slice();
        if bytes_have_text(sector, 1, "NSR02") || bytes_have_text(sector, 1, "NSR03") {
            assert(announces_udf(sectors@[i as int]@));
            return true;
        }
        i = i + 1;
    }
    false
}

// ---------------------------------------------------------------------------------------------
// File entries
// ---------------------------------------------------------------------------------------------

/// A short allocation descriptor: `length` bytes from block `location` of the partition on.
#[derive(Debug, Clone, Copy, PartialEq, Eq, Structural)]
pub struct AllocDesc {
    pub length: u32,
    pub location: u32,
}

/// What a file entry tells of its file.
pub struct FileEntry {
    pub alloc_descs: Vec<AllocDesc>,
    pub info_len: u64,
    pub modified: Option<Timestamp>,
}

/// Whether a sector holds a file entry, plain or extended.
pub open spec fn is_file_entry(sector: Seq<u8>) -> bool {
    tag(sector) == TAG_FILE_ENTRY || tag(sector) == TAG_EXTENDED_FILE_ENTRY
}

/// Where the fixed part of a file entry with tag `entry_tag` ends. Its last eight bytes are the
/// length of the extended attributes and that of the allocation descriptors.
pub open spec fn fixed_part(entry_tag: u16) -> int {
    if entry_tag == TAG_FILE_ENTRY {
        176
    } else {
        216
    }
}

/// The allocation descriptor at `at`. The two high bits of its length word tell the kind of the
/// extent and do not count.
pub open spec fn desc_at(entry: Seq<u8>, at: int) -> AllocDesc {
    AllocDesc {
        length: (le32(entry, at) % 0x4000_0000) as u32,
        location: le32(entry, at + 4),
    }
}

/// The allocation descriptors from `at` on: as many as fit before `end` and in the sector, up to
/// the first of length zero.
pub open spec fn descs_from(entry: Seq<u8>, at: int, end: int) -> Seq<AllocDesc>
    decreases entry.len() - at,
{
    if at + 8 <= end && at + 8 <= entry.len() && desc_at(entry, at).length != 0 {
        seq![desc_at(entry, at)] + descs_from(entry, at + 8, end)
    } else {
        seq![]
    }
}

/// The allocation descriptors of a file entry with tag `entry_tag`; they stand behind its
/// extended attributes.
pub open spec fn alloc_descs(entry: Seq<u8>, entry_tag: u16) -> Seq<AllocDesc> {
    let start = fixed_part(entry_tag) + le32(entry, fixed_part(entry_tag) - 8);
    descs_from(entry, start, start + le32(entry, fixed_part(entry_tag) - 4))
}

/// The length of the file that a file entry describes.
pub open spec fn entry_length(entry: Seq<u8>) -> u64 {
    le64(entry, 56)
}

/// When the file that a file entry describes was last changed.
pub open spec fn entry_modified(entry: Seq<u8>) -> Option<Timestamp> {
    recorded_time(entry.skip(84))
}

/// No allocation descriptor of a file entry is empty or longer than 30 bits can say.
pub proof fn lemma_descs_in_range(entry: Seq<u8>, at: int, end: int)
    ensures
        forall|i: int|
            0 <= i < descs_from(entry, at, end).len() ==> 0 < (#[trigger] descs_from(
                entry,
                at,
                end,
            )[i]).length < 0x4000_0000,
    decreases entry.len() - at,
{
    if at + 8 <= end && at + 8 <= entry.len() && desc_at(entry, at).length != 0 {
        let rest = descs_from(entry, at + 8, end);
        lemma_descs_in_range(entry, at + 8, end);
        assert forall|i: int| 0 <= i < descs_from(entry, at, end).len() implies 0 < (
        #[trigger] descs_from(entry, at, end)[i]).length < 0x4000_0000 by {
            if i > 0 {
                assert(descs_from(entry, at, end)[i] == rest[i - 1]);
            }
        }
    }
}

/// Reads what a file entry tells of its file. `entry_tag` says whether the entry is an extended one.
pub fn parse_file_entry(buf: &[u8], entry_tag: u16) -> (r: FileEntry)
    requires
        fixed_part(entry_tag) <= buf.len(),
    ensures
        r.alloc_descs@ == alloc_descs(buf@, entry_tag),
        r.info_len == entry_length(buf@),
        r.modified == entry_modified(buf@),
{
    let fixed: usize = if entry_tag == TAG_FILE_ENTRY {
        176
    } else {
        216
    };
    let info_len: u64 = ru64(buf, 56);
    let stamp: &[u8] = slice_subrange(buf, 84, buf.len());
    assert(stamp@ == buf@.skip(84));
    let modified: Option<Timestamp> = read_timestamp(stamp);
    let start: u64 = fixed as u64 + ru32(buf, fixed - 8) as u64;
    let end: u64 = start + ru32(buf, fixed - 4) as u64;
    let size: u64 = buf.len() as u64;

    let mut descs: Vec<AllocDesc> = Vec::new();
    let mut at: u64 = start;
    let mut more: bool = true;
    while more && at + 8 <= end && at + 8 <= size
        invariant
            start <= at <= end || at == start,
            end <= start + 0xffff_ffff,
            start <= 216 + 0xffff_ffff,
            size == buf.len(),
            more ==> descs@ + descs_from(buf@, at as int, end as int) == descs_from(
                buf@,
                start as int,
                end as int,
            ),
            !more ==> descs@ == descs_from(buf@, start as int, end as int),
        decreases size - at + (if more { 1int } else { 0 }),
    {
        let word: u32 = ru32(buf, at as usize);
        let length: u32 = word & 0x3fff_ffff;
        assert(word & 0x3fff_ffff == word % 0x4000_0000) by (bit_vector);
        let location: u32 = ru32(buf, at as usize + 4);
        let ghost desc: AllocDesc = AllocDesc { length, location };
        assert(desc == desc_at(buf@, at as int));
        if length == 0 {
            more = false;
        } else {
            let ghost rest: Seq<AllocDesc> = descs_from(buf@, at + 8, end as int);
            assert(descs@ + (seq![desc] + rest) == descs@.push(desc) + rest);
            descs.push(AllocDesc { length, location });
            at = at + 8;
        }
    }
    FileEntry { alloc_descs: descs, info_len, modified }
}

// ---------------------------------------------------------------------------------------------
// Laws
// ---------------------------------------------------------------------------------------------

/// The bytes that hold 16-bit units, high byte first.
pub open spec fn big_endian_bytes(units: Seq<u16>) -> Seq<u8> {
    Seq::new(
        2 * units.len(),
        |i: int|
            if i % 2 == 0 {
                (units[i / 2] / 0x100) as u8
            } else {
                (units[i / 2] % 0x100) as u8
            },
    )
}

/// A text that is stored in a `dstring` field is read back, in 8-bit and in 16-bit form alike,
/// without the zero characters at its end and the white space around it.
pub proof fn law_texts_can_be_read_back(s: Seq<char>)
    ensures
        dstring(seq![8u8] + encode_utf8(s)) == unpadded(s),
        dstring(seq![16u8] + big_endian_bytes(encode_utf16(s))) == unpadded(s),
{
    let narrow = seq![8u8] + encode_utf8(s);
    encode_utf8_valid_utf8(s);
    encode_utf8_decode_utf8(s);
    assert(narrow.skip(1) == encode_utf8(s));
    let units = encode_utf16(s);
    let wide = seq![16u8] + big_endian_bytes(units);
    assert(wide.skip(1) == big_endian_bytes(units));
    assert(big_endian_units(big_endian_bytes(units)) == units);
    law_utf16_can_be_read_back(s);
}

/// A text that neither ends in a zero character nor has white space at its ends is read back as it
/// is.
pub proof fn law_plain_texts_are_kept(s: Seq<char>)
    requires
        s.len() > 0 ==> s.last() != '\0' && !white_space(s[0]) && !white_space(s.last()),
    ensures
        unpadded(s) == s,
{
    assert(without_trailing(s, '\0') == s);
    assert(trimmed_start(s) == s);
}

} // verus!
