//! What walking through a UDF volume comes to: the files below its root directory, and the sectors
//! that have to be read to find them.

use super::descriptor::{
    alloc_descs, dstring, entry_length, entry_modified, is_file_entry, tag, AllocDesc, Disk,
    ANCHOR_SECTOR, IDENTIFIER_HEAD, SECTOR_SIZE, TAG_FILE_IDENTIFIER, TAG_LOGICAL_VOLUME,
    TAG_TERMINATING,
};
use super::open::{sequence_count, sequence_sector, sequence_start, UdfError};
use crate::bytes::{le16, le32};
use crate::iso::WalkStats;
use crate::text::child_path;
use crate::timestamp::Timestamp;
use vstd::prelude::*;

verus! {

// ---------------------------------------------------------------------------------------------
// Files
// ---------------------------------------------------------------------------------------------

/// A file of a volume.
pub struct UdfEntry {
    pub path: String,
    pub size: u64,
    pub is_dir: bool,
    pub modified: Option<Timestamp>,
    /// Absolute byte offset of file data on disk
    pub data_offset: u64,
}

/// A file of a volume, with its path as a sequence of characters.
#[verifier::ext_equal]
pub struct EntryModel {
    pub path: Seq<char>,
    pub size: u64,
    pub is_dir: bool,
    pub modified: Option<Timestamp>,
    pub data_offset: u64,
}

impl View for UdfEntry {
    type V = EntryModel;

    open spec fn view(&self) -> EntryModel {
        EntryModel {
            path: self.path@,
            size: self.size,
            is_dir: self.is_dir,
            modified: self.modified,
            data_offset: self.data_offset,
        }
    }
}

/// The models of files.
pub open spec fn entries_view(entries: Seq<UdfEntry>) -> Seq<EntryModel> {
    entries.map_values(|e: UdfEntry| e@)
}

/// The files met so far, and how many directories were met below the root. The count has 64 bits
/// and starts over behind the last.
#[verifier::ext_equal]
pub struct Tally {
    pub entries: Seq<EntryModel>,
    pub dirs: u64,
}

/// The sum of the lengths of files.
pub open spec fn content_size(entries: Seq<EntryModel>) -> nat
    decreases entries.len(),
{
    if entries.len() == 0 {
        0
    } else {
        content_size(entries.drop_last()) + entries.last().size as nat
    }
}

/// Whether `stats` sums up `tally`. The total size has 64 bits and starts over behind the last.
pub open spec fn sums_up(stats: WalkStats, tally: Tally) -> bool {
    &&& stats.files == tally.entries.len()
    &&& stats.dirs == tally.dirs
    &&& stats.total_size as int == content_size(tally.entries) as int % 0x1_0000_0000_0000_0000
}

/// How a walk ends: what it has met, the error that cut it short, if any, and the sectors that it
/// reads on the way, in order.
#[verifier::ext_equal]
pub struct WalkOutcome {
    pub met: Tally,
    pub error: Option<UdfError>,
    pub reads: Seq<u64>,
}

/// What a walk has met at its beginning.
pub open spec fn nothing_met() -> Tally {
    Tally { entries: seq![], dirs: 0 }
}

/// The outcome of reading `reads` first and going on as `outcome` says.
pub open spec fn after(reads: Seq<u64>, outcome: Option<WalkOutcome>) -> Option<WalkOutcome> {
    match outcome {
        Some(o) => Some(WalkOutcome { met: o.met, error: o.error, reads: reads + o.reads }),
        None => None,
    }
}

/// Sectors read first and then others are sectors in a row.
pub proof fn lemma_after_after(a: Seq<u64>, b: Seq<u64>, o: Option<WalkOutcome>)
    ensures
        after(a, after(b, o)) == after(a + b, o),
        after(seq![], o) == o,
{
    if o is Some {
        assert(a + (b + o->0.reads) == (a + b) + o->0.reads);
        assert(Seq::<u64>::empty() + o->0.reads == o->0.reads);
    }
}

/// The outcome of ending at once with `tally`.
pub open spec fn done(tally: Tally) -> Option<WalkOutcome> {
    Some(WalkOutcome { met: tally, error: None, reads: seq![] })
}

/// The outcome of ending, with `tally`, because `sector` cannot be read.
pub open spec fn unreadable(tally: Tally, sector: u64) -> Option<WalkOutcome> {
    Some(
        WalkOutcome {
            met: tally,
            error: Some(UdfError::Unreadable { sector }),
            reads: seq![sector],
        },
    )
}

// ---------------------------------------------------------------------------------------------
// What a walk comes to
// ---------------------------------------------------------------------------------------------

/// The sector of a block of the partition that begins at sector `part`.
pub open spec fn partition_sector(part: u32, block: u32) -> u64 {
    (part + block) as u64
}

/// How many sectors an extent takes up.
pub open spec fn extent_sectors(desc: AllocDesc) -> int {
    (desc.length + 2047) / 2048
}

/// How reading a run of extents ends, and the sectors read on the way.
#[verifier::ext_equal]
pub struct Gathered {
    pub result: Result<Seq<u8>, UdfError>,
    pub reads: Seq<u64>,
}

/// Reading the sectors of `descs` from sector `s` of extent `k` on, one after the other.
pub open spec fn gathered(disk: Disk, part: u32, descs: Seq<AllocDesc>, k: int, s: int) -> Gathered
    decreases descs.len() - k, extent_sectors(descs[k]) - s,
{
    if k >= descs.len() {
        Gathered { result: Ok(seq![]), reads: seq![] }
    } else if s >= extent_sectors(descs[k]) {
        gathered(disk, part, descs, k + 1, 0)
    } else {
        let n = (partition_sector(part, descs[k].location) + s) as u64;
        match disk(n) {
            None => Gathered { result: Err(UdfError::Unreadable { sector: n }), reads: seq![n] },
            Some(sector) => {
                let rest = gathered(disk, part, descs, k, s + 1);
                Gathered {
                    result: match rest.result {
                        Ok(data) => Ok(sector + data),
                        Err(e) => Err(e),
                    },
                    reads: seq![n] + rest.reads,
                }
            },
        }
    }
}

/// Where the identifiers of a directory end in its data: at the length of its first extent, or
/// where the data ends.
pub open spec fn listing_end(descs: Seq<AllocDesc>, data: Seq<u8>) -> int {
    if descs[0].length <= data.len() {
        descs[0].length as int
    } else {
        data.len() as int
    }
}

/// Whether an identifier stands at `at`, with the fixed part of it before `end`.
pub open spec fn has_identifier(data: Seq<u8>, end: int, at: int) -> bool {
    at + IDENTIFIER_HEAD < end && le16(data, at) == TAG_FILE_IDENTIFIER
}

/// Where the name of the identifier at `at` begins.
pub open spec fn name_start(data: Seq<u8>, at: int) -> int {
    at + IDENTIFIER_HEAD + le16(data, at + 36)
}

/// Where the name of the identifier at `at` ends.
pub open spec fn name_end(data: Seq<u8>, at: int) -> int {
    name_start(data, at) + data[at + 19]
}

/// Where the identifier behind the one at `at` begins: each is filled up to a multiple of four
/// bytes.
pub open spec fn next_identifier(data: Seq<u8>, at: int) -> int {
    at + (name_end(data, at) - at + 3) / 4 * 4
}

/// The name of the identifier at `at`.
pub open spec fn identifier_name(data: Seq<u8>, at: int) -> Seq<char> {
    dstring(data.subrange(name_start(data, at), name_end(data, at)))
}

/// Whether the identifier at `at` is listed: it is not the one for the parent directory, it is not
/// deleted, its name lies within the data, and the name is not empty.
pub open spec fn is_listed(data: Seq<u8>, at: int) -> bool {
    &&& data[at + 18] & 0x08 == 0
    &&& data[at + 18] & 0x20 == 0
    &&& name_end(data, at) <= data.len()
    &&& identifier_name(data, at).len() > 0
}

/// Whether the identifier at `at` is that of a directory.
pub open spec fn is_directory(data: Seq<u8>, at: int) -> bool {
    data[at + 18] & 0x02 != 0
}

/// The block of the file entry that the identifier at `at` points to.
pub open spec fn identifier_block(data: Seq<u8>, at: int) -> u32 {
    le32(data, at + 24)
}

/// The file at `path` that a file entry describes.
pub open spec fn described_file(part: u32, path: Seq<char>, entry: Seq<u8>) -> EntryModel {
    let descs = alloc_descs(entry, tag(entry));
    EntryModel {
        path,
        size: entry_length(entry),
        is_dir: false,
        modified: entry_modified(entry),
        data_offset: if descs.len() > 0 {
            (partition_sector(part, descs[0].location) * SECTOR_SIZE) as u64
        } else {
            0
        },
    }
}

/// The files met once the file at `path` has been looked at: one whose file entry cannot be read,
/// or is none, is passed over.
pub open spec fn with_file(
    tally: Tally,
    part: u32,
    path: Seq<char>,
    entry: Option<Seq<u8>>,
) -> Tally {
    match entry {
        Some(entry) => if is_file_entry(entry) {
            Tally {
                entries: tally.entries.push(described_file(part, path, entry)),
                dirs: tally.dirs,
            }
        } else {
            tally
        },
        None => tally,
    }
}

/// Walking through the directory at `path` whose file entry is in block `block`, with `tally` met
/// before. There is no outcome where directories are nested more than `depth` deep.
#[verifier::opaque]
pub open spec fn walk_directory(
    disk: Disk,
    part: u32,
    block: u32,
    path: Seq<char>,
    tally: Tally,
    depth: nat,
) -> Option<WalkOutcome>
    decreases depth, 0int, 0int,
{
    if depth == 0 {
        None
    } else {
        let n = partition_sector(part, block);
        match disk(n) {
            None => unreadable(tally, n),
            Some(entry) => {
                let descs = alloc_descs(entry, tag(entry));
                if !is_file_entry(entry) || descs.len() == 0 {
                    after(seq![n], done(tally))
                } else {
                    let content = gathered(disk, part, descs, 0, 0);
                    match content.result {
                        Err(e) => Some(
                            WalkOutcome {
                                met: tally,
                                error: Some(e),
                                reads: seq![n] + content.reads,
                            },
                        ),
                        Ok(data) => after(
                            seq![n] + content.reads,
                            walk_identifiers(
                                disk,
                                part,
                                data,
                                listing_end(descs, data),
                                0,
                                path,
                                tally,
                                (depth - 1) as nat,
                            ),
                        ),
                    }
                }
            },
        }
    }
}

/// Walking through the identifiers of the directory at `path` from `at` on.
#[verifier::opaque]
pub open spec fn walk_identifiers(
    disk: Disk,
    part: u32,
    data: Seq<u8>,
    end: int,
    at: int,
    path: Seq<char>,
    tally: Tally,
    depth: nat,
) -> Option<WalkOutcome>
    decreases depth, 1int, if at < end { end - at } else { 0 },
{
    if !has_identifier(data, end, at) {
        done(tally)
    } else {
        let next = next_identifier(data, at);
        let child = child_path(path, identifier_name(data, at));
        if !is_listed(data, at) {
            walk_identifiers(disk, part, data, end, next, path, tally, depth)
        } else if is_directory(data, at) {
            let inner = walk_directory(
                disk,
                part,
                identifier_block(data, at),
                child,
                Tally { entries: tally.entries, dirs: tally.dirs.wrapping_add(1) },
                depth,
            );
            match inner {
                None => None,
                Some(o) => if o.error is Some {
                    inner
                } else {
                    after(
                        o.reads,
                        walk_identifiers(disk, part, data, end, next, path, o.met, depth),
                    )
                },
            }
        } else {
            let n = partition_sector(part, identifier_block(data, at));
            after(
                seq![n],
                walk_identifiers(
                    disk,
                    part,
                    data,
                    end,
                    next,
                    path,
                    with_file(tally, part, child, disk(n)),
                    depth,
                ),
            )
        }
    }
}

/// Walking through a volume whose file set descriptor is in sector `n`.
pub open spec fn walk_file_set(disk: Disk, part: u32, n: u64, depth: nat) -> Option<WalkOutcome> {
    match disk(n) {
        None => unreadable(nothing_met(), n),
        Some(sector) => after(
            seq![n],
            walk_directory(disk, part, le32(sector, 404), seq![], nothing_met(), depth),
        ),
    }
}

/// Walking through a volume from descriptor `next` of its descriptor sequence on: the first
/// logical volume descriptor tells where the file set is, and without one it is at the start of
/// the partition.
pub open spec fn walk_sequence(
    disk: Disk,
    part: u32,
    start: u32,
    count: u32,
    next: int,
    depth: nat,
) -> Option<WalkOutcome>
    decreases count - next,
{
    if next >= count {
        walk_file_set(disk, part, part as u64, depth)
    } else {
        let n = sequence_sector(start, next);
        match disk(n) {
            None => unreadable(nothing_met(), n),
            Some(sector) => after(
                seq![n],
                if tag(sector) == TAG_LOGICAL_VOLUME {
                    walk_file_set(disk, part, partition_sector(part, le32(sector, 252)), depth)
                } else if tag(sector) == TAG_TERMINATING {
                    walk_file_set(disk, part, part as u64, depth)
                } else {
                    walk_sequence(disk, part, start, count, next + 1, depth)
                },
            ),
        }
    }
}

/// Walking through the volume whose partition begins at sector `part`. There is no outcome where
/// its directories are nested more than `depth` deep.
pub open spec fn walk_volume(disk: Disk, part: u32, depth: nat) -> Option<WalkOutcome> {
    match disk(ANCHOR_SECTOR) {
        None => unreadable(nothing_met(), ANCHOR_SECTOR),
        Some(anchor) => after(
            seq![ANCHOR_SECTOR],
            walk_sequence(disk, part, sequence_start(anchor), sequence_count(anchor), 0, depth),
        ),
    }
}

} // verus!
