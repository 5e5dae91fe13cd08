//! Laws of telling what an image holds, over the bytes of its sectors.

use crate::bytes::has_text;
use crate::laws::bytes::{ascii_bytes, is_narrow, law_marks_are_found, law_marks_are_there};
use crate::laws::text::{law_joined_texts_are_its_parts, lemma_split_whole, split};
use crate::probe::{
    finds_el_torito, finds_iso9660, finds_joliet, finds_udf, is_descriptor, is_el_torito, is_joliet,
    is_scanned, is_terminator, is_udf_mark, label, label_parts, scan_limit, ProbeResult,
    FIRST_DESCRIPTOR,
};
use crate::udf::descriptor::{announces_udf, holds_udf};
use vstd::prelude::*;

verus! {

// ---------------------------------------------------------------------------------------------
// Sectors
// ---------------------------------------------------------------------------------------------

/// Whether these bytes stand at `at`.
pub open spec fn bytes_at(b: Seq<u8>, at: int, bytes: Seq<u8>) -> bool {
    at + bytes.len() <= b.len() && b.subrange(at, at + bytes.len()) == bytes
}

proof fn lemma_mark(b: Seq<u8>, at: int, text: Seq<char>, bytes: Seq<u8>)
    requires
        0 <= at,
        is_narrow(text),
        ascii_bytes(text) == bytes,
    ensures
        has_text(b, at, text) <==> bytes_at(b, at, bytes),
{
    if has_text(b, at, text) {
        law_marks_are_there(b, at, text);
        assert(b.subrange(at, at + bytes.len()) == bytes);
    }
    if bytes_at(b, at, bytes) {
        let before = b.take(at);
        let behind = b.skip(at + bytes.len());
        assert(b == before + bytes + behind) by {
            assert forall|i: int| 0 <= i < bytes.len() implies b[at + i] == bytes[i] by {
                assert(b.subrange(at, at + bytes.len())[i] == bytes[i]);
            }
        }
        law_marks_are_found(before, text, behind);
    }
}

/// Whether a sector is a volume descriptor of ISO 9660 with this type: the type, and `CD001`.
pub open spec fn has_type(sector: Seq<u8>, kind: u8) -> bool {
    sector[0] == kind && bytes_at(sector, 1, seq![0x43u8, 0x44, 0x30, 0x30, 0x31])
}

proof fn lemma_has_type(sector: Seq<u8>, kind: u8)
    ensures
        is_descriptor(sector, kind) <==> has_type(sector, kind),
{
    reveal_strlit("CD001");
    let bytes = seq![0x43u8, 0x44, 0x30, 0x30, 0x31];
    assert(ascii_bytes("CD001"@) == bytes);
    lemma_mark(sector, 1, "CD001"@, bytes);
}

/// Whether sector `i` from the first descriptor on counts: it is one of sixteen, it lies within an
/// image of this size, it could be read, and no sector before it has the type 255.
pub open spec fn counts(file_size: u64, sectors: Seq<Vec<u8>>, i: int) -> bool {
    &&& 0 <= i < 16
    &&& i < sectors.len()
    &&& (16 + i + 1) * 2048 <= file_size
    &&& forall|j: int| 0 <= j < i ==> !has_type(#[trigger] sectors[j]@, 255)
}

proof fn lemma_counts(file_size: u64, sectors: Seq<Vec<u8>>, i: int)
    ensures
        is_scanned(file_size, sectors, i) <==> counts(file_size, sectors, i),
{
    assert forall|j: int| is_terminator(#[trigger] sectors[j]@) <==> has_type(sectors[j]@, 255) by {
        lemma_has_type(sectors[j]@, 255);
    }
}

/// An image has an ISO 9660 file system exactly where it is large enough for one descriptor and its
/// first descriptor has the type 1.
pub proof fn law_iso9660_is_type_one(file_size: u64, primary: Seq<u8>)
    ensures
        finds_iso9660(file_size, primary) <==> file_size >= 17 * 2048 && has_type(primary, 1),
{
    lemma_has_type(primary, 1);
}

/// An image has Joliet exactly where a sector that counts has the type 2 and one of the three escape
/// sequences of UCS-2 at byte 88.
pub proof fn law_joliet_is_type_two(file_size: u64, sectors: Seq<Vec<u8>>)
    ensures
        finds_joliet(file_size, sectors) <==> exists|i: int|
            {
                &&& counts(file_size, sectors, i)
                &&& has_type(#[trigger] sectors[i]@, 2)
                &&& bytes_at(sectors[i]@, 88, seq![0x25u8, 0x2f, 0x40]) || bytes_at(
                    sectors[i]@,
                    88,
                    seq![0x25u8, 0x2f, 0x43],
                ) || bytes_at(sectors[i]@, 88, seq![0x25u8, 0x2f, 0x45])
            },
{
    reveal_strlit("%/@");
    reveal_strlit("%/C");
    reveal_strlit("%/E");
    assert(ascii_bytes("%/@"@) == seq![0x25u8, 0x2f, 0x40]);
    assert(ascii_bytes("%/C"@) == seq![0x25u8, 0x2f, 0x43]);
    assert(ascii_bytes("%/E"@) == seq![0x25u8, 0x2f, 0x45]);
    assert forall|i: int| is_joliet(#[trigger] sectors[i]@) <==> has_type(sectors[i]@, 2) && (
    bytes_at(sectors[i]@, 88, seq![0x25u8, 0x2f, 0x40]) || bytes_at(
        sectors[i]@,
        88,
        seq![0x25u8, 0x2f, 0x43],
    ) || bytes_at(sectors[i]@, 88, seq![0x25u8, 0x2f, 0x45])) by {
        lemma_has_type(sectors[i]@, 2);
        lemma_mark(sectors[i]@, 88, "%/@"@, seq![0x25u8, 0x2f, 0x40]);
        lemma_mark(sectors[i]@, 88, "%/C"@, seq![0x25u8, 0x2f, 0x43]);
        lemma_mark(sectors[i]@, 88, "%/E"@, seq![0x25u8, 0x2f, 0x45]);
    }
    assert forall|i: int|
        is_scanned(file_size, sectors, i) <==> #[trigger] counts(file_size, sectors, i) by {
        lemma_counts(file_size, sectors, i);
    }
    if finds_joliet(file_size, sectors) {
        let i = choose|i: int|
            is_scanned(file_size, sectors, i) && is_joliet(#[trigger] sectors[i]@);
        assert(counts(file_size, sectors, i) && has_type(sectors[i]@, 2));
    }
}

/// An image can be booted exactly where a sector that counts has the type 0 and says so at byte 7.
pub proof fn law_el_torito_is_type_zero(file_size: u64, sectors: Seq<Vec<u8>>)
    ensures
        finds_el_torito(file_size, sectors) <==> exists|i: int|
            {
                &&& counts(file_size, sectors, i)
                &&& has_type(#[trigger] sectors[i]@, 0)
                &&& bytes_at(sectors[i]@, 7, el_torito_bytes())
            },
{
    reveal_strlit("EL TORITO SPECIFICATION");
    assert(ascii_bytes("EL TORITO SPECIFICATION"@) == el_torito_bytes());
    assert forall|i: int| is_el_torito(#[trigger] sectors[i]@) <==> has_type(sectors[i]@, 0)
        && bytes_at(sectors[i]@, 7, el_torito_bytes()) by {
        lemma_has_type(sectors[i]@, 0);
        lemma_mark(sectors[i]@, 7, "EL TORITO SPECIFICATION"@, el_torito_bytes());
    }
    assert forall|i: int|
        is_scanned(file_size, sectors, i) <==> #[trigger] counts(file_size, sectors, i) by {
        lemma_counts(file_size, sectors, i);
    }
    if finds_el_torito(file_size, sectors) {
        let i = choose|i: int|
            is_scanned(file_size, sectors, i) && is_el_torito(#[trigger] sectors[i]@);
        assert(counts(file_size, sectors, i) && has_type(sectors[i]@, 0));
    }
}

/// The bytes of the words that a boot record of El Torito has.
pub open spec fn el_torito_bytes() -> Seq<u8> {
    seq![
        0x45u8, 0x4c, 0x20, 0x54, 0x4f, 0x52, 0x49, 0x54, 0x4f, 0x20, 0x53, 0x50, 0x45, 0x43, 0x49,
        0x46, 0x49, 0x43, 0x41, 0x54, 0x49, 0x4f, 0x4e,
    ]
}

/// Whether a sector has the mark `NSR02` or `NSR03` behind its first byte.
pub open spec fn has_nsr(sector: Seq<u8>) -> bool {
    bytes_at(sector, 1, seq![0x4eu8, 0x53, 0x52, 0x30, 0x32]) || bytes_at(
        sector,
        1,
        seq![0x4eu8, 0x53, 0x52, 0x30, 0x33],
    )
}

proof fn lemma_nsr(sector: Seq<u8>)
    ensures
        announces_udf(sector) <==> has_nsr(sector),
{
    reveal_strlit("NSR02");
    reveal_strlit("NSR03");
    assert(ascii_bytes("NSR02"@) == seq![0x4eu8, 0x53, 0x52, 0x30, 0x32]);
    assert(ascii_bytes("NSR03"@) == seq![0x4eu8, 0x53, 0x52, 0x30, 0x33]);
    lemma_mark(sector, 1, "NSR02"@, seq![0x4eu8, 0x53, 0x52, 0x30, 0x32]);
    lemma_mark(sector, 1, "NSR03"@, seq![0x4eu8, 0x53, 0x52, 0x30, 0x33]);
}

/// An image has a UDF file system, going by its descriptors, exactly where a sector that counts has
/// the mark `BEA01`, `NSR02` or `NSR03` behind its first byte.
pub proof fn law_udf_has_a_mark(file_size: u64, sectors: Seq<Vec<u8>>)
    ensures
        finds_udf(file_size, sectors) <==> exists|i: int|
            {
                &&& counts(file_size, sectors, i)
                &&& has_nsr(#[trigger] sectors[i]@) || bytes_at(
                    sectors[i]@,
                    1,
                    seq![0x42u8, 0x45, 0x41, 0x30, 0x31],
                )
            },
{
    reveal_strlit("BEA01");
    reveal_strlit("NSR02");
    reveal_strlit("NSR03");
    assert(ascii_bytes("BEA01"@) == seq![0x42u8, 0x45, 0x41, 0x30, 0x31]);
    assert forall|i: int| is_udf_mark(#[trigger] sectors[i]@) <==> has_nsr(sectors[i]@) || bytes_at(
        sectors[i]@,
        1,
        seq![0x42u8, 0x45, 0x41, 0x30, 0x31],
    ) by {
        lemma_nsr(sectors[i]@);
        lemma_mark(sectors[i]@, 1, "BEA01"@, seq![0x42u8, 0x45, 0x41, 0x30, 0x31]);
    }
    assert forall|i: int|
        is_scanned(file_size, sectors, i) <==> #[trigger] counts(file_size, sectors, i) by {
        lemma_counts(file_size, sectors, i);
    }
    if finds_udf(file_size, sectors) {
        let i = choose|i: int|
            is_scanned(file_size, sectors, i) && is_udf_mark(#[trigger] sectors[i]@);
        assert(counts(file_size, sectors, i));
        assert(is_udf_mark(sectors[i]@));
    }
}

/// An image holds a UDF volume exactly where one of its sixteen sectors from the first descriptor on
/// has the mark `NSR02` or `NSR03`, wherever that is among them.
pub proof fn law_udf_volumes_have_nsr(sectors: Seq<Vec<u8>>)
    ensures
        holds_udf(sectors) <==> exists|i: int|
            0 <= i < 16 && i < sectors.len() && has_nsr(#[trigger] sectors[i]@),
{
    assert forall|i: int| announces_udf(#[trigger] sectors[i]@) <==> has_nsr(sectors[i]@) by {
        lemma_nsr(sectors[i]@);
    }
}

/// From byte 0x8000 on, as many sectors are to be looked at as lie whole within the image, up to
/// sixteen; none where not even one does.
pub proof fn law_scan_stays_within_the_image(file_size: u64, i: int)
    requires
        0 <= i,
    ensures
        FIRST_DESCRIPTOR * 2048 == 0x8000,
        0 <= scan_limit(file_size) <= 16,
        i < scan_limit(file_size) <==> i < 16 && (16 + i + 1) * 2048 <= file_size,
{
}

// ---------------------------------------------------------------------------------------------
// Labels
// ---------------------------------------------------------------------------------------------

/// The place of a name in a label.
pub open spec fn rank(name: Seq<char>) -> int {
    if name == "ISO9660"@ {
        0
    } else if name == "Joliet"@ {
        1
    } else if name == "RockRidge"@ {
        2
    } else if name == "UDF"@ {
        3
    } else if name == "ElTorito"@ {
        4
    } else {
        5
    }
}

/// Of an image with an ISO 9660 or a UDF file system, the label has each of the five names for a
/// part, which plus signs keep apart, exactly where that was found, whatever else was found, and has
/// no other parts; they stand in a fixed order.
pub proof fn law_labels_name_what_was_found(r: ProbeResult)
    requires
        r.has_iso9660 || r.has_udf,
    ensures
        ({
            let parts = split(label(r), '+');
            &&& parts.contains("ISO9660"@) <==> r.has_iso9660
            &&& parts.contains("Joliet"@) <==> r.has_joliet
            &&& parts.contains("RockRidge"@) <==> r.has_rock_ridge
            &&& parts.contains("UDF"@) <==> r.has_udf
            &&& parts.contains("ElTorito"@) <==> r.has_el_torito
            &&& forall|i: int| 0 <= i < parts.len() ==> rank(#[trigger] parts[i]) < 5
            &&& forall|i: int, j: int|
                0 <= i < j < parts.len() ==> rank(#[trigger] parts[i]) < rank(#[trigger] parts[j])
        }),
{
    reveal_strlit("ISO9660");
    reveal_strlit("Joliet");
    reveal_strlit("RockRidge");
    reveal_strlit("UDF");
    reveal_strlit("ElTorito");
    reveal_strlit("+");
    lemma_names_differ();
    assert("+"@ == seq!['+']);
    let parts = label_parts(r);
    assert forall|i: int| 0 <= i < parts.len() implies !(#[trigger] parts[i]).contains('+') by {
        lemma_parts_are_names(r, i);
    }
    assert(parts.len() > 0);
    law_joined_texts_are_its_parts(parts, '+');
    assert(split(label(r), '+') == parts);
    lemma_parts_in_order(r);
}

proof fn lemma_names_differ()
    ensures
        rank("ISO9660"@) == 0,
        rank("Joliet"@) == 1,
        rank("RockRidge"@) == 2,
        rank("UDF"@) == 3,
        rank("ElTorito"@) == 4,
{
    reveal_strlit("ISO9660");
    reveal_strlit("Joliet");
    reveal_strlit("RockRidge");
    reveal_strlit("UDF");
    reveal_strlit("ElTorito");
    assert("ISO9660"@[0] == 'I');
    assert("Joliet"@[0] == 'J');
    assert("RockRidge"@[0] == 'R');
    assert("UDF"@[0] == 'U');
    assert("ElTorito"@[0] == 'E');
}

proof fn lemma_parts_are_names(r: ProbeResult, i: int)
    requires
        0 <= i < label_parts(r).len(),
    ensures
        rank(label_parts(r)[i]) < 5,
{
    lemma_names_differ();
}

/// How many of the first `n` things were found.
spec fn found_before(r: ProbeResult, n: int) -> int {
    (if n > 0 && r.has_iso9660 {
        1int
    } else {
        0
    }) + (if n > 1 && r.has_joliet {
        1int
    } else {
        0
    }) + (if n > 2 && r.has_rock_ridge {
        1int
    } else {
        0
    }) + (if n > 3 && r.has_udf {
        1int
    } else {
        0
    }) + (if n > 4 && r.has_el_torito {
        1int
    } else {
        0
    })
}

proof fn lemma_parts_in_order(r: ProbeResult)
    ensures
        label_parts(r).contains("ISO9660"@) <==> r.has_iso9660,
        label_parts(r).contains("Joliet"@) <==> r.has_joliet,
        label_parts(r).contains("RockRidge"@) <==> r.has_rock_ridge,
        label_parts(r).contains("UDF"@) <==> r.has_udf,
        label_parts(r).contains("ElTorito"@) <==> r.has_el_torito,
        forall|i: int| 0 <= i < label_parts(r).len() ==> rank(#[trigger] label_parts(r)[i]) < 5,
        forall|i: int, j: int|
            0 <= i < j < label_parts(r).len() ==> rank(#[trigger] label_parts(r)[i]) < rank(
                #[trigger] label_parts(r)[j],
            ),
{
    lemma_names_differ();
    let parts = label_parts(r);
    assert(parts.len() == found_before(r, 5));
    assert(r.has_iso9660 ==> parts[found_before(r, 0)] == "ISO9660"@);
    assert(r.has_joliet ==> parts[found_before(r, 1)] == "Joliet"@);
    assert(r.has_rock_ridge ==> parts[found_before(r, 2)] == "RockRidge"@);
    assert(r.has_udf ==> parts[found_before(r, 3)] == "UDF"@);
    assert(r.has_el_torito ==> parts[found_before(r, 4)] == "ElTorito"@);
}

/// Images with a file system and equal labels were found to hold the same.
pub proof fn law_labels_tell_formats_apart(a: ProbeResult, b: ProbeResult)
    requires
        a.has_iso9660 || a.has_udf,
        b.has_iso9660 || b.has_udf,
        label(a) == label(b),
    ensures
        a.has_iso9660 == b.has_iso9660,
        a.has_joliet == b.has_joliet,
        a.has_rock_ridge == b.has_rock_ridge,
        a.has_udf == b.has_udf,
        a.has_el_torito == b.has_el_torito,
{
    law_labels_name_what_was_found(a);
    law_labels_name_what_was_found(b);
}

/// An image without a file system is labelled unknown, whatever else was found, and no other image.
pub proof fn law_unknown_images_have_no_file_system(r: ProbeResult)
    ensures
        label(r) == seq!['U', 'n', 'k', 'n', 'o', 'w', 'n'] <==> !r.has_iso9660 && !r.has_udf,
{
    reveal_strlit("Unknown");
    let unknown = seq!['U', 'n', 'k', 'n', 'o', 'w', 'n'];
    assert("Unknown"@ == unknown);
    if r.has_iso9660 || r.has_udf {
        law_labels_name_what_was_found(r);
        if label(r) == unknown {
            lemma_split_whole(unknown, '+');
            let parts = split(label(r), '+');
            assert(parts == seq![unknown]);
            reveal_strlit("ISO9660");
            reveal_strlit("UDF");
            let name = if r.has_iso9660 {
                "ISO9660"@
            } else {
                "UDF"@
            };
            assert(parts.contains(name));
            assert(parts[0] == unknown);
            assert(name[1] != 'n');
        }
    }
}

} // verus!
