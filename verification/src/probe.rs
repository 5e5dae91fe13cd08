//! Telling what file systems an image holds from its volume descriptors.

use crate::bytes::{bytes_have_text, has_text};
use crate::text::{join, joined, texts};
use crate::udf::descriptor::announces_udf;
use vstd::prelude::*;

verus! {

/// What an image was found to hold.
#[derive(Debug, Clone, Copy, PartialEq, Eq, Structural)]
pub struct ProbeResult {
    pub file_size: u64,
    pub has_iso9660: bool,
    pub has_joliet: bool,
    pub has_rock_ridge: bool,
    pub has_udf: bool,
    pub has_el_torito: bool,
}

// ---------------------------------------------------------------------------------------------
// Labels
// ---------------------------------------------------------------------------------------------

/// The names of what an image holds, in a fixed order.
pub open spec fn label_parts(r: ProbeResult) -> Seq<Seq<char>> {
    (if r.has_iso9660 {
        seq!["ISO9660"@]
    } else {
        seq![]
    }) + (if r.has_joliet {
        seq!["Joliet"@]
    } else {
        seq![]
    }) + (if r.has_rock_ridge {
        seq!["RockRidge"@]
    } else {
        seq![]
    }) + (if r.has_udf {
        seq!["UDF"@]
    } else {
        seq![]
    }) + (if r.has_el_torito {
        seq!["ElTorito"@]
    } else {
        seq![]
    })
}

/// The label of an image: what it holds, with `+` between; `Unknown` where there is neither an
/// ISO 9660 nor a UDF file system.
pub open spec fn label(r: ProbeResult) -> Seq<char> {
    if !r.has_iso9660 && !r.has_udf {
        "Unknown"@
    } else {
        joined(label_parts(r), "+"@)
    }
}

impl ProbeResult {
    /// Names what the image holds.
    pub fn format_label(&self) -> (r: String)
        ensures
            r@ == label(*self),
    {
        if !self.has_iso9660 && !self.has_udf {
            return String::from_str("Unknown");
        }
        let mut parts: Vec<&str> = Vec::new();
        if self.has_iso9660 {
            parts.push("ISO9660");
        }
        if self.has_joliet {
            parts.push("Joliet");
        }
        if self.has_rock_ridge {
            parts.push("RockRidge");
        }
        if self.has_udf {
            parts.push("UDF");
        }
        if self.has_el_torito {
            parts.push("ElTorito");
        }
        assert(texts(parts@) == label_parts(*self));
        join(&parts, "+")
    }

    /// Whether the image has a file system that its files can be listed from directly.
    pub fn is_supported(&self) -> (r: bool)
        ensures
            r == self.has_iso9660,
    {
        self.has_iso9660
    }

    /// Records what opening the ISO 9660 file system told about Rock Ridge; an image without such
    /// a file system has none.
    pub fn note_rock_ridge(&mut self, found: bool)
        ensures
            *final(self) == (ProbeResult {
                has_rock_ridge: old(self).has_iso9660 && found,
                ..*old(self)
            }),
    {
        self.has_rock_ridge = self.has_iso9660 && found;
    }
}

// ---------------------------------------------------------------------------------------------
// Volume descriptors
// ---------------------------------------------------------------------------------------------

/// The first sector that can hold a volume descriptor.
pub const FIRST_DESCRIPTOR: u64 = 16;

/// The size of the smallest image that can hold a volume descriptor.
pub const MIN_IMAGE: u64 = 0x8800;

/// Whether a sector holds an ISO 9660 volume descriptor of the given type.
pub open spec fn is_descriptor(sector: Seq<u8>, kind: u8) -> bool {
    sector[0] == kind && has_text(sector, 1, "CD001"@)
}

/// Whether a sector holds a supplementary volume descriptor for Joliet, going by its escape
/// sequence for UCS-2.
pub open spec fn is_joliet(sector: Seq<u8>) -> bool {
    is_descriptor(sector, 2) && (has_text(sector, 88, "%/@"@) || has_text(sector, 88, "%/C"@)
        || has_text(sector, 88, "%/E"@))
}

/// Whether a sector holds the boot record of El Torito.
pub open spec fn is_el_torito(sector: Seq<u8>) -> bool {
    is_descriptor(sector, 0) && has_text(sector, 7, "EL TORITO SPECIFICATION"@)
}

/// Whether a sector holds a descriptor that UDF file systems have.
pub open spec fn is_udf_mark(sector: Seq<u8>) -> bool {
    has_text(sector, 1, "BEA01"@) || has_text(sector, 1, "NSR02"@) || has_text(
        sector,
        1,
        "NSR03"@,
    )
}

/// Whether a sector ends the volume descriptors.
pub open spec fn is_terminator(sector: Seq<u8>) -> bool {
    is_descriptor(sector, 255)
}

/// How many sectors from the first descriptor on can be looked at in an image of this size: those
/// that lie whole within it, and no more than sixteen.
pub open spec fn scan_limit(file_size: u64) -> int {
    let whole = file_size / 2048 - 16;
    if file_size < MIN_IMAGE {
        0
    } else if whole < 16 {
        whole
    } else {
        16
    }
}

/// Whether sector `i` is looked at: it lies within the limit, it could be read, and no terminator
/// stands before it.
pub open spec fn is_scanned(file_size: u64, sectors: Seq<Vec<u8>>, i: int) -> bool {
    &&& 0 <= i < sectors.len()
    &&& i < scan_limit(file_size)
    &&& forall|j: int| 0 <= j < i ==> !is_terminator(#[trigger] sectors[j]@)
}

/// Whether the first descriptor sector of an image is that of an ISO 9660 file system.
pub open spec fn finds_iso9660(file_size: u64, primary: Seq<u8>) -> bool {
    file_size >= MIN_IMAGE && is_descriptor(primary, 1)
}

/// Whether some sector that is looked at is a descriptor for Joliet.
pub open spec fn finds_joliet(file_size: u64, sectors: Seq<Vec<u8>>) -> bool {
    exists|i: int| is_scanned(file_size, sectors, i) && is_joliet(#[trigger] sectors[i]@)
}

/// Whether some sector that is looked at is the boot record of El Torito.
pub open spec fn finds_el_torito(file_size: u64, sectors: Seq<Vec<u8>>) -> bool {
    exists|i: int| is_scanned(file_size, sectors, i) && is_el_torito(#[trigger] sectors[i]@)
}

/// Whether some sector that is looked at has a mark of a UDF file system.
pub open spec fn finds_udf(file_size: u64, sectors: Seq<Vec<u8>>) -> bool {
    exists|i: int| is_scanned(file_size, sectors, i) && is_udf_mark(#[trigger] sectors[i]@)
}

/// Tells how many sectors to read, from the first descriptor on, to find out what an image of this
/// size holds.
pub fn sectors_to_scan(file_size: u64) -> (r: u64)
    ensures
        r == scan_limit(file_size),
{
    if file_size < MIN_IMAGE {
        0
    } else {
        let whole: u64 = file_size / 2048 - 16;
        if whole < 16 {
            whole
        } else {
            16
        }
    }
}

/// Whether a sector holds an ISO 9660 volume descriptor of the given type.
fn has_descriptor(sector: &Vec<u8>, kind: u8) -> (r: bool)
    requires
        sector.len() == 2048,
    ensures
        r == is_descriptor(sector@, kind),
{
    sector[0] == kind && bytes_have_text(sector, 1, "CD001")
}

/// Finds out what an image holds. `primary` is the first descriptor sector, and `sectors` are the
/// sectors from there on as far as they could be read one after the other. About Rock Ridge
/// nothing is known yet.
pub fn probe_iso(file_size: u64, primary: &Vec<u8>, sectors: &Vec<Vec<u8>>) -> (r: ProbeResult)
    requires
        file_size >= MIN_IMAGE ==> primary.len() == 2048,
        forall|i: int| 0 <= i < sectors@.len() ==> (#[trigger] sectors@[i]).len() == 2048,
    ensures
        r.file_size == file_size,
        r.has_iso9660 == finds_iso9660(file_size, primary@),
        r.has_joliet == finds_joliet(file_size, sectors@),
        r.has_udf == finds_udf(file_size, sectors@),
        r.has_el_torito == finds_el_torito(file_size, sectors@),
        !r.has_rock_ridge,
{
    let mut r = ProbeResult {
        file_size,
        has_iso9660: false,
        has_joliet: false,
        has_rock_ridge: false,
        has_udf: false,
        has_el_torito: false,
    };
    if file_size < MIN_IMAGE {
        return r;
    }
    r.has_iso9660 = has_descriptor(primary, 1);
    let limit: u64 = sectors_to_scan(file_size);
    let mut i: usize = 0;
    let mut over: bool = false;
    while !over && i < sectors.len() && (i as u64) < limit
        invariant
            forall|j: int| 0 <= j < sectors@.len() ==> (#[trigger] sectors@[j]).len() == 2048,
            limit == scan_limit(file_size),
            i <= sectors.len(),
            i <= limit,
            over ==> i > 0 && is_terminator(sectors@[i - 1]@),
            forall|j: int| 0 <= j < i ==> is_scanned(file_size, sectors@, j),
            !over ==> forall|j: int| 0 <= j < i ==> !is_terminator(#[trigger] sectors@[j]@),
            r.file_size == file_size,
            r.has_iso9660 == is_descriptor(primary@, 1),
            r.has_joliet == exists|j: int| 0 <= j < i && is_joliet(#[trigger] sectors@[j]@),
            r.has_udf == exists|j: int| 0 <= j < i && is_udf_mark(#[trigger] sectors@[j]@),
            r.has_el_torito == exists|j: int| 0 <= j < i && is_el_torito(#[trigger] sectors@[j]@),
            !r.has_rock_ridge,
        decreases sectors.len() - i,
    {
        let sector: &Vec<u8> = &sectors[i];
        assert(sector.len() == 2048);
        if has_descriptor(sector, 2) && (bytes_have_text(sector, 88, "%/@") || bytes_have_text(
            sector,
            88,
            "%/C",
        ) || bytes_have_text(sector, 88, "%/E")) {
            r.has_joliet = true;
            assert(is_joliet(sectors@[i as int]@));
        }
        if has_descriptor(sector, 0) && bytes_have_text(sector, 7, "EL TORITO SPECIFICATION") {
            r.has_el_torito = true;
            assert(is_el_torito(sectors@[i as int]@));
        }
        if bytes_have_text(sector, 1, "BEA01") || bytes_have_text(sector, 1, "NSR02")
            || bytes_have_text(sector, 1, "NSR03") {
            r.has_udf = true;
            assert(is_udf_mark(sectors@[i as int]@));
        }
        if has_descriptor(sector, 255) {
            over = true;
            assert(is_terminator(sectors@[i as int]@));
        }
        assert(is_scanned(file_size, sectors@, i as int));
        i = i + 1;
    }
    assert forall|j: int| is_scanned(file_size, sectors@, j) implies j < i by {
        if over && j >= i {
            assert(is_terminator(sectors@[i - 1]@));
        }
    }
    r
}

// ---------------------------------------------------------------------------------------------
// Laws
// ---------------------------------------------------------------------------------------------

/// An image that announces a UDF file system is found to hold one, where no terminator of the ISO
/// 9660 descriptors keeps the scan from getting there.
pub proof fn law_announced_udf_is_found(file_size: u64, sectors: Seq<Vec<u8>>, i: int)
    requires
        is_scanned(file_size, sectors, i),
        announces_udf(sectors[i]@),
    ensures
        finds_udf(file_size, sectors),
{
    assert(is_udf_mark(sectors[i]@));
}

/// Sectors behind the first terminator make no difference.
pub proof fn law_scan_stops_at_terminator(
    file_size: u64,
    sectors: Seq<Vec<u8>>,
    others: Seq<Vec<u8>>,
    stop: int,
)
    requires
        0 <= stop < sectors.len(),
        stop < others.len(),
        is_terminator(sectors[stop]@),
        forall|i: int| 0 <= i <= stop ==> sectors[i] == others[i],
    ensures
        forall|i: int|
            is_scanned(file_size, sectors, i) <==> #[trigger] is_scanned(file_size, others, i),
        finds_udf(file_size, sectors) == finds_udf(file_size, others),
{
    assert forall|i: int|
        is_scanned(file_size, sectors, i) <==> #[trigger] is_scanned(file_size, others, i) by {
        assert(is_terminator(others[stop]@));
    }
    if finds_udf(file_size, sectors) {
        let i = choose|i: int|
            is_scanned(file_size, sectors, i) && is_udf_mark(#[trigger] sectors[i]@);
        assert(is_udf_mark(others[i]@) && is_scanned(file_size, others, i));
    }
    if finds_udf(file_size, others) {
        let i = choose|i: int|
            is_scanned(file_size, others, i) && is_udf_mark(#[trigger] others[i]@);
        assert(is_udf_mark(sectors[i]@) && is_scanned(file_size, sectors, i));
    }
}

} // verus!
