//! Laws of the on-disc structures of UDF, over the bytes of sectors.

use crate::bytes::{le32, le64};
use crate::laws::text::{
    has_firm_ends, is_blank, law_trailing_runs_are_dropped, law_white_space_is_trimmed, run_of,
};
use crate::text::{encode_utf16, trimmed, white_space};
use crate::timestamp::recorded_time;
use crate::udf::descriptor::{
    alloc_descs, big_endian_bytes, big_endian_units, desc_at, descs_from, dstring, entry_length,
    entry_modified, is_file_entry, law_texts_can_be_read_back, unpadded, AllocDesc,
};
use vstd::prelude::*;
use vstd::utf8::{encode_utf8, encode_utf8_decode_utf8, encode_utf8_valid_utf8};

verus! {

// ---------------------------------------------------------------------------------------------
// Texts
// ---------------------------------------------------------------------------------------------

/// Whether a text, with `behind` behind it, neither loses a zero character nor white space of its
/// own.
pub open spec fn stands_firm(s: Seq<char>, behind: Seq<char>) -> bool {
    has_firm_ends(s) && (s.len() > 0 && behind.len() == 0 ==> s.last() != '\0')
}

/// Of a field, the zero characters at its end are dropped first, and then the white space around
/// the text; the text itself is kept.
pub proof fn law_padding_is_dropped(
    before: Seq<char>,
    s: Seq<char>,
    behind: Seq<char>,
    zeros: nat,
)
    requires
        is_blank(before),
        is_blank(behind),
        stands_firm(s, behind),
    ensures
        unpadded(before + s + behind + run_of('\0', zeros)) == s,
{
    let text = before + s + behind;
    assert(text.len() > 0 ==> text.last() != '\0') by {
        if behind.len() > 0 {
            assert(white_space(behind[behind.len() - 1]));
        } else if s.len() == 0 && before.len() > 0 {
            assert(white_space(before[before.len() - 1]));
        }
    }
    law_trailing_runs_are_dropped(text, '\0', zeros);
    law_white_space_is_trimmed(before, s, behind);
}

/// A text is read back from a field in which it stands with padding around it, in 8-bit and in
/// 16-bit form alike; an odd byte at the end of the latter does not count.
pub proof fn law_padded_texts_can_be_read_back(
    before: Seq<char>,
    s: Seq<char>,
    behind: Seq<char>,
    zeros: nat,
    odd: u8,
)
    requires
        is_blank(before),
        is_blank(behind),
        stands_firm(s, behind),
    ensures
        ({
            let field = before + s + behind + run_of('\0', zeros);
            let wide = seq![16u8] + big_endian_bytes(encode_utf16(field));
            &&& dstring(seq![8u8] + encode_utf8(field)) == s
            &&& dstring(wide) == s
            &&& dstring(wide.push(odd)) == s
        }),
{
    let field = before + s + behind + run_of('\0', zeros);
    law_texts_can_be_read_back(field);
    law_padding_is_dropped(before, s, behind, zeros);
    let body = big_endian_bytes(encode_utf16(field));
    let wide = seq![16u8] + body;
    assert(wide.skip(1) == body);
    assert(wide.push(odd).skip(1) == body.push(odd));
    assert(big_endian_units(body.push(odd)) == big_endian_units(body));
}

/// A field that is empty or begins with a zero has no text, and of one that begins with any other
/// number than 8 and 16 the bytes are taken for UTF-8, with zero characters kept.
pub proof fn law_other_fields(b: Seq<u8>, form: u8, s: Seq<char>)
    requires
        form != 0,
        form != 8,
        form != 16,
    ensures
        dstring(seq![]).len() == 0,
        b.len() > 0 && b[0] == 0 ==> dstring(b).len() == 0,
        dstring(seq![form] + encode_utf8(s)) == trimmed(s),
{
    let field = seq![form] + encode_utf8(s);
    encode_utf8_valid_utf8(s);
    encode_utf8_decode_utf8(s);
    assert(field.skip(1) == encode_utf8(s));
}

// ---------------------------------------------------------------------------------------------
// File entries
// ---------------------------------------------------------------------------------------------

/// A sector holds a file entry exactly where its first two bytes are the number 0x0105 or the number
/// 0x010A, the lower byte first.
pub proof fn law_file_entries_have_two_tags(sector: Seq<u8>)
    ensures
        is_file_entry(sector) <==> (sector[0] == 0x05 || sector[0] == 0x0a) && sector[1] == 0x01,
{
}

/// The length of a file stands at byte 56 of its entry, and the moment of its last change at byte
/// 84.
pub proof fn law_entries_tell_length_and_time(entry: Seq<u8>)
    ensures
        entry_length(entry) == le64(entry, 56),
        entry_modified(entry) == recorded_time(entry.skip(84)),
{
}

/// Where the extents of an entry with this tag begin: behind the fixed part of 176 bytes, or of 216
/// in an extended entry, and the extended attributes, whose length stands eight bytes before the
/// end of that part.
pub open spec fn extents_start(entry: Seq<u8>, entry_tag: u16) -> int {
    if entry_tag == 0x0105 {
        176 + le32(entry, 168)
    } else {
        216 + le32(entry, 208)
    }
}

/// How many bytes the extents of an entry with this tag take up.
pub open spec fn extents_size(entry: Seq<u8>, entry_tag: u16) -> int {
    if entry_tag == 0x0105 {
        le32(entry, 172) as int
    } else {
        le32(entry, 212) as int
    }
}

/// Whether the extent at `at` stands whole before `end` and within the entry.
pub open spec fn has_place(entry: Seq<u8>, at: int, end: int) -> bool {
    at + 8 <= end && at + 8 <= entry.len()
}

/// Whether `desc` is the extent at `at`: a length, of which the two highest bits do not count, and a
/// block.
pub open spec fn is_extent(entry: Seq<u8>, at: int, desc: AllocDesc) -> bool {
    desc.length == le32(entry, at) as int % 0x4000_0000 && desc.location == le32(entry, at + 4)
}

/// Whether `desc` is the extent at `at`, which stands whole before `end` and is not empty.
pub open spec fn is_read(entry: Seq<u8>, at: int, end: int, desc: AllocDesc) -> bool {
    has_place(entry, at, end) && is_extent(entry, at, desc) && desc.length > 0
}

/// The extents of a file entry are read one behind the other, eight bytes each. They end where the
/// next has no place or a length of zero, and nowhere before.
pub proof fn law_extents_are_read(entry: Seq<u8>, entry_tag: u16)
    ensures
        ({
            let descs = alloc_descs(entry, entry_tag);
            let start = extents_start(entry, entry_tag);
            let end = start + extents_size(entry, entry_tag);
            let next = start + 8 * descs.len();
            &&& forall|i: int|
                0 <= i < descs.len() ==> is_read(entry, start + 8 * i, end, #[trigger] descs[i])
            &&& has_place(entry, next, end) ==> le32(entry, next) as int % 0x4000_0000 == 0
        }),
{
    let start = extents_start(entry, entry_tag);
    lemma_extents_from(entry, start, start + extents_size(entry, entry_tag));
}

proof fn lemma_extents_from(entry: Seq<u8>, at: int, end: int)
    ensures
        ({
            let descs = descs_from(entry, at, end);
            let next = at + 8 * descs.len();
            &&& forall|i: int|
                0 <= i < descs.len() ==> is_read(entry, at + 8 * i, end, #[trigger] descs[i])
            &&& has_place(entry, next, end) ==> le32(entry, next) as int % 0x4000_0000 == 0
        }),
    decreases entry.len() - at,
{
    let descs = descs_from(entry, at, end);
    if has_place(entry, at, end) && desc_at(entry, at).length != 0 {
        let rest = descs_from(entry, at + 8, end);
        lemma_extents_from(entry, at + 8, end);
        assert(descs == seq![desc_at(entry, at)] + rest);
        assert(at + 8 + 8 * rest.len() == at + 8 * descs.len());
        assert forall|i: int| 0 <= i < descs.len() implies is_read(
            entry,
            at + 8 * i,
            end,
            #[trigger] descs[i],
        ) by {
            if i > 0 {
                assert(descs[i] == rest[i - 1]);
                assert(is_read(entry, at + 8 + 8 * (i - 1), end, rest[i - 1]));
                assert(at + 8 + 8 * (i - 1) == at + 8 * i);
            } else {
                assert(at + 8 * i == at);
            }
        }
    } else {
        assert(descs.len() == 0);
        let next = at + 8 * descs.len();
        assert(next == at);
        if has_place(entry, next, end) {
            assert(desc_at(entry, next).length == 0);
            assert(le32(entry, next) as int % 0x4000_0000 == desc_at(entry, next).length);
        }
    }
}

} // verus!
