//! Laws of listing the files of a UDF volume, over the bytes of its sectors.

use crate::bytes::{le16, le32, le64};
use crate::laws::open::{nth, room_for};
use crate::text::child_path;
use crate::timestamp::recorded_time;
use crate::udf::descriptor::{alloc_descs, dstring, is_file_entry, tag, AllocDesc, Disk};
use crate::udf::open::{sequence_count, sequence_sector, sequence_start, UdfError};
use crate::udf::tree::{
    after, described_file, extent_sectors, gathered, has_identifier, identifier_block,
    identifier_name, is_directory, is_listed, listing_end, next_identifier, nothing_met,
    partition_sector, walk_directory, walk_file_set, walk_identifiers, walk_sequence, walk_volume,
    with_file, EntryModel, Tally, WalkOutcome,
};
use vstd::prelude::*;

verus! {

// ---------------------------------------------------------------------------------------------
// The contents of a directory
// ---------------------------------------------------------------------------------------------

/// How many sectors hold this many bytes.
pub open spec fn sectors_for(length: int) -> nat {
    (if length % 2048 == 0 {
        length / 2048
    } else {
        length / 2048 + 1
    }) as nat
}

/// The sectors of an extent in the partition that begins at sector `part`.
pub open spec fn extent_run(part: u32, desc: AllocDesc) -> Seq<u64> {
    Seq::new(sectors_for(desc.length as int), |s: int| (part + desc.location + s) as u64)
}

/// The sectors of extents, one extent behind the other.
pub open spec fn extent_runs(part: u32, descs: Seq<AllocDesc>) -> Seq<u64>
    decreases descs.len(),
{
    if descs.len() == 0 {
        seq![]
    } else {
        extent_run(part, descs[0]) + extent_runs(part, descs.skip(1))
    }
}

/// What sectors hold, one behind the other.
pub open spec fn contents(disk: Disk, sectors: Seq<u64>) -> Seq<u8>
    decreases sectors.len(),
{
    if sectors.len() == 0 {
        seq![]
    } else {
        disk(sectors[0])->0 + contents(disk, sectors.skip(1))
    }
}

/// Whether all of the sectors can be read.
pub open spec fn are_readable(disk: Disk, sectors: Seq<u64>) -> bool {
    forall|i: int| 0 <= i < sectors.len() ==> disk(#[trigger] sectors[i]) is Some
}

/// The data of a directory is what the sectors of its extents hold, one behind the other.
pub proof fn law_data_is_what_the_extents_hold(disk: Disk, part: u32, descs: Seq<AllocDesc>)
    ensures
        gathered(disk, part, descs, 0, 0).result is Ok <==> are_readable(
            disk,
            extent_runs(part, descs),
        ),
        gathered(disk, part, descs, 0, 0).result matches Ok(data) ==> data == contents(
            disk,
            extent_runs(part, descs),
        ) && gathered(disk, part, descs, 0, 0).reads == extent_runs(part, descs),
{
    lemma_gathered(disk, part, descs, 0, 0);
    if descs.len() > 0 {
        assert(extent_run(part, descs[0]).skip(0) == extent_run(part, descs[0]));
    }
}

/// The sectors from sector `s` of extent `k` on.
spec fn runs_from(part: u32, descs: Seq<AllocDesc>, k: int, s: int) -> Seq<u64> {
    if k >= descs.len() {
        seq![]
    } else {
        extent_run(part, descs[k]).skip(s) + extent_runs(part, descs.skip(k + 1))
    }
}

proof fn lemma_gathered(disk: Disk, part: u32, descs: Seq<AllocDesc>, k: int, s: int)
    requires
        0 <= k,
        0 <= s,
        k < descs.len() ==> s <= extent_sectors(descs[k]),
    ensures
        ({
            let got = gathered(disk, part, descs, k, s);
            let sectors = runs_from(part, descs, k, s);
            &&& got.result is Ok <==> are_readable(disk, sectors)
            &&& got.result matches Ok(data) ==> data == contents(disk, sectors) && got.reads
                == sectors
        }),
    decreases descs.len() - k, if k < descs.len() { extent_sectors(descs[k]) - s } else { 0 },
{
    let sectors = runs_from(part, descs, k, s);
    if k < descs.len() {
        let run = extent_run(part, descs[k]);
        assert(run.len() == extent_sectors(descs[k]));
        if s >= extent_sectors(descs[k]) {
            lemma_gathered(disk, part, descs, k + 1, 0);
            assert(run.skip(s) == Seq::<u64>::empty());
            if k + 1 < descs.len() {
                assert(descs.skip(k + 1)[0] == descs[k + 1]);
                assert(descs.skip(k + 1).skip(1) == descs.skip(k + 2));
                assert(extent_run(part, descs[k + 1]).skip(0) == extent_run(part, descs[k + 1]));
            }
            assert(sectors == runs_from(part, descs, k + 1, 0));
        } else {
            lemma_gathered(disk, part, descs, k, s + 1);
            let rest = runs_from(part, descs, k, s + 1);
            let n = (partition_sector(part, descs[k].location) + s) as u64;
            assert(run.skip(s) == seq![n] + run.skip(s + 1));
            assert(sectors == seq![n] + rest);
            assert(sectors.skip(1) == rest);
            assert(sectors[0] == n);
            if disk(n) is Some {
                assert(are_readable(disk, sectors) <==> are_readable(disk, rest)) by {
                    if are_readable(disk, sectors) {
                        assert forall|i: int| 0 <= i < rest.len() implies disk(
                            #[trigger] rest[i],
                        ) is Some by {
                            assert(sectors[i + 1] == rest[i]);
                        }
                    }
                    if are_readable(disk, rest) {
                        assert forall|i: int| 0 <= i < sectors.len() implies disk(
                            #[trigger] sectors[i],
                        ) is Some by {
                            if i > 0 {
                                assert(sectors[i] == rest[i - 1]);
                            }
                        }
                    }
                }
            }
        }
    }
}

// ---------------------------------------------------------------------------------------------
// Identifiers
// ---------------------------------------------------------------------------------------------

/// Whether an identifier stands at `at`: its first two bytes are the number 0x0101, and more than 38
/// bytes are left before `end`.
pub open spec fn stands_at(data: Seq<u8>, end: int, at: int) -> bool {
    at + 38 < end && data[at] == 1 && data[at + 1] == 1
}

/// How many bytes the identifier at `at` has: 38, those for the use of the implementation, whose
/// number stands in its bytes 36 and 37, and those of its name, whose number stands in its byte 19.
pub open spec fn identifier_size(data: Seq<u8>, at: int) -> int {
    38 + data[at + 36] + 256 * data[at + 37] + data[at + 19]
}

/// The name of the identifier at `at`, which stands at its end.
pub open spec fn name_at(data: Seq<u8>, at: int) -> Seq<char> {
    dstring(
        data.subrange(
            at + identifier_size(data, at) - data[at + 19],
            at + identifier_size(data, at),
        ),
    )
}

/// Whether the identifier at `at` names something: it has neither the bit 8 for a parent nor the bit
/// 32 for something deleted, it lies whole within the data, and its name is not empty.
pub open spec fn names_something(data: Seq<u8>, at: int) -> bool {
    &&& data[at + 18] / 8 % 2 == 0
    &&& data[at + 18] / 32 % 2 == 0
    &&& at + identifier_size(data, at) <= data.len()
    &&& name_at(data, at).len() > 0
}

/// Whether the identifier at `at` has the bit 2 for a directory.
pub open spec fn names_directory(data: Seq<u8>, at: int) -> bool {
    data[at + 18] / 2 % 2 == 1
}

/// Whether `next` is where the identifier behind the one at `at` begins: at the first multiple of
/// four bytes.
pub open spec fn is_next(data: Seq<u8>, at: int, next: int) -> bool {
    &&& (next - at) % 4 == 0
    &&& at + identifier_size(data, at) <= next < at + identifier_size(data, at) + 4
}

/// Whether a sector holds a file entry: its first two bytes are the number 0x0105 or the number
/// 0x010A.
pub open spec fn holds_entry(sector: Seq<u8>) -> bool {
    (sector[0] == 0x05 || sector[0] == 0x0a) && sector[1] == 0x01
}

/// The number of the tag of a sector.
pub open spec fn tag_number(sector: Seq<u8>) -> u16 {
    (sector[0] + 256 * sector[1]) as u16
}

/// The file at `path` that a sector describes.
pub open spec fn file_at(part: u32, path: Seq<char>, sector: Seq<u8>) -> EntryModel {
    let descs = alloc_descs(sector, tag_number(sector));
    EntryModel {
        path,
        size: le64(sector, 56),
        is_dir: false,
        modified: recorded_time(sector.skip(84)),
        data_offset: if descs.len() > 0 {
            ((part + descs[0].location) * 2048) as u64
        } else {
            0
        },
    }
}

proof fn lemma_identifier(data: Seq<u8>, end: int, at: int)
    ensures
        has_identifier(data, end, at) <==> stands_at(data, end, at),
        is_listed(data, at) <==> names_something(data, at),
        is_directory(data, at) <==> names_directory(data, at),
        is_next(data, at, next_identifier(data, at)),
        identifier_name(data, at) == name_at(data, at),
        forall|next: int| is_next(data, at, next) ==> next == next_identifier(data, at),
{
    let flags: u8 = data[at + 18];
    lemma_bits(flags);
}

proof fn lemma_bits(flags: u8)
    ensures
        flags & 0x08 == 0 <==> flags / 8 % 2 == 0,
        flags & 0x20 == 0 <==> flags / 32 % 2 == 0,
        flags & 0x02 != 0 <==> flags / 2 % 2 == 1,
{
    assert(flags & 0x08 == 0 <==> flags / 8 % 2 == 0) by (bit_vector);
    assert(flags & 0x20 == 0 <==> flags / 32 % 2 == 0) by (bit_vector);
    assert(flags & 0x02 != 0 <==> flags / 2 % 2 == 1) by (bit_vector);
}

proof fn lemma_described(part: u32, path: Seq<char>, sector: Seq<u8>)
    ensures
        is_file_entry(sector) <==> holds_entry(sector),
        described_file(part, path, sector) == file_at(part, path, sector),
{
}

// ---------------------------------------------------------------------------------------------
// What was met before
// ---------------------------------------------------------------------------------------------

/// The sum of two counts, as far as 64 bits hold it.
#[verifier::opaque]
pub open spec fn count_sum(a: u64, b: u64) -> u64 {
    ((a + b) % 0x1_0000_0000_0000_0000) as u64
}

proof fn lemma_one_sum(a: u64, b: u64)
    ensures
        a + b < 0x1_0000_0000_0000_0000 ==> count_sum(a, b) == a + b,
        a + b >= 0x1_0000_0000_0000_0000 ==> count_sum(a, b) == a + b - 0x1_0000_0000_0000_0000,
{
    reveal(count_sum);
}

proof fn lemma_count_sum(a: u64, b: u64, c: u64)
    ensures
        count_sum(a, count_sum(b, c)) == count_sum(count_sum(a, b), c),
        count_sum(a, 0) == a,
        count_sum(a, 1) == a.wrapping_add(1),
{
    lemma_one_sum(b, c);
    lemma_one_sum(a, count_sum(b, c));
    lemma_one_sum(a, b);
    lemma_one_sum(count_sum(a, b), c);
    lemma_one_sum(a, 0);
    lemma_one_sum(a, 1);
}

/// What was met first and what was met then.
pub open spec fn both_met(first: Tally, then: Tally) -> Tally {
    Tally { entries: first.entries + then.entries, dirs: count_sum(first.dirs, then.dirs) }
}

proof fn lemma_both_met(a: Tally, b: Tally, c: Tally)
    ensures
        both_met(a, both_met(b, c)) == both_met(both_met(a, b), c),
        both_met(a, nothing_met()) == a,
{
    lemma_count_sum(a.dirs, b.dirs, c.dirs);
    assert(a.entries + (b.entries + c.entries) == a.entries + b.entries + c.entries);
    assert(a.entries + nothing_met().entries == a.entries);
}

/// An outcome with `tally` put before what it has met.
pub open spec fn behind(tally: Tally, outcome: Option<WalkOutcome>) -> Option<WalkOutcome> {
    match outcome {
        None => None,
        Some(o) => Some(
            WalkOutcome {
                met: both_met(tally, o.met),
                error: o.error,
                reads: o.reads,
            },
        ),
    }
}

/// What was met before a directory makes no difference to walking through it: the same is met, and
/// put behind the rest.
pub proof fn law_what_was_met_makes_no_difference(
    disk: Disk,
    part: u32,
    block: u32,
    path: Seq<char>,
    tally: Tally,
    depth: nat,
)
    ensures
        walk_directory(disk, part, block, path, tally, depth) == behind(
            tally,
            walk_directory(disk, part, block, path, nothing_met(), depth),
        ),
    decreases depth, 0int, 0int,
{
    reveal(walk_directory);
    reveal(walk_identifiers);
    lemma_both_met(tally, nothing_met(), nothing_met());
    if depth > 0 {
        if let Some(entry) = disk(partition_sector(part, block)) {
            let descs = alloc_descs(entry, tag(entry));
            if is_file_entry(entry) && descs.len() > 0 {
                if let Ok(data) = gathered(disk, part, descs, 0, 0).result {
                    let end = listing_end(descs, data);
                    lemma_row_behind(disk, part, data, end, 0, path, tally, (depth - 1) as nat);
                }
            }
        }
    }
}

proof fn lemma_behind(a: Tally, b: Tally, o: Option<WalkOutcome>, reads: Seq<u64>)
    ensures
        behind(a, behind(b, o)) == behind(both_met(a, b), o),
        behind(a, after(reads, o)) == after(reads, behind(a, o)),
{
    if let Some(x) = o {
        lemma_both_met(a, b, x.met);
    }
}

proof fn lemma_row_behind(
    disk: Disk,
    part: u32,
    data: Seq<u8>,
    end: int,
    at: int,
    path: Seq<char>,
    tally: Tally,
    depth: nat,
)
    ensures
        walk_identifiers(disk, part, data, end, at, path, tally, depth) == behind(
            tally,
            walk_identifiers(disk, part, data, end, at, path, nothing_met(), depth),
        ),
    decreases depth, 1int, if at < end { end - at } else { 0 },
{
    lemma_both_met(tally, nothing_met(), nothing_met());
    if !has_identifier(data, end, at) {
        reveal(walk_identifiers);
    } else {
        let next = next_identifier(data, at);
        let child = child_path(path, identifier_name(data, at));
        let block = identifier_block(data, at);
        let rest = walk_identifiers(disk, part, data, end, next, path, nothing_met(), depth);
        if !is_listed(data, at) {
            reveal(walk_identifiers);
            lemma_row_behind(disk, part, data, end, next, path, tally, depth);
        } else if is_directory(data, at) {
            let more = Tally { entries: tally.entries, dirs: tally.dirs.wrapping_add(1) };
            let one = Tally { entries: nothing_met().entries, dirs: 1 };
            let fresh = walk_directory(disk, part, block, child, nothing_met(), depth);
            law_what_was_met_makes_no_difference(disk, part, block, child, more, depth);
            law_what_was_met_makes_no_difference(disk, part, block, child, one, depth);
            lemma_count_sum(tally.dirs, 1, 0);
            assert(both_met(tally, one) == more) by {
                assert(tally.entries + one.entries == tally.entries);
            }
            lemma_behind(tally, one, fresh, seq![]);
            let inner = walk_directory(disk, part, block, child, more, depth);
            let alone = walk_directory(disk, part, block, child, one, depth);
            assert(inner == behind(tally, alone));
            if fresh is Some && fresh->0.error is None {
                lemma_row_behind(disk, part, data, end, next, path, inner->0.met, depth);
                lemma_row_behind(disk, part, data, end, next, path, alone->0.met, depth);
                lemma_behind(tally, alone->0.met, rest, seq![]);
                lemma_behind(tally, tally, behind(alone->0.met, rest), fresh->0.reads);
            }
            lemma_directory_step(disk, part, data, end, at, path, tally, depth);
            lemma_directory_step(disk, part, data, end, at, path, nothing_met(), depth);
        } else {
            let n = partition_sector(part, block);
            let met = with_file(tally, part, child, disk(n));
            let alone = with_file(nothing_met(), part, child, disk(n));
            lemma_row_behind(disk, part, data, end, next, path, met, depth);
            lemma_row_behind(disk, part, data, end, next, path, alone, depth);
            assert(both_met(tally, alone) == met) by {
                lemma_count_sum(tally.dirs, 0, 0);
                assert(tally.entries + alone.entries == met.entries);
            }
            lemma_behind(tally, alone, rest, seq![]);
            lemma_behind(tally, tally, behind(alone, rest), seq![n]);
            reveal(walk_identifiers);
        }
    }
}

/// What an identifier of a directory leads to.
proof fn lemma_directory_step(
    disk: Disk,
    part: u32,
    data: Seq<u8>,
    end: int,
    at: int,
    path: Seq<char>,
    tally: Tally,
    depth: nat,
)
    requires
        has_identifier(data, end, at),
        is_listed(data, at),
        is_directory(data, at),
    ensures
        ({
            let inner = walk_directory(
                disk,
                part,
                identifier_block(data, at),
                child_path(path, identifier_name(data, at)),
                Tally { entries: tally.entries, dirs: tally.dirs.wrapping_add(1) },
                depth,
            );
            walk_identifiers(disk, part, data, end, at, path, tally, depth) == match inner {
                None => None,
                Some(o) => if o.error is Some {
                    inner
                } else {
                    after(
                        o.reads,
                        walk_identifiers(
                            disk,
                            part,
                            data,
                            end,
                            next_identifier(data, at),
                            path,
                            o.met,
                            depth,
                        ),
                    )
                },
            }
        }),
{
    reveal(walk_directory);
    reveal(walk_identifiers);
}

// ---------------------------------------------------------------------------------------------
// Directories
// ---------------------------------------------------------------------------------------------

/// Whether `places` are those of all identifiers of a directory, and behind them that where there is
/// none any more: the first stands at the front, and each other behind the one before it.
pub open spec fn is_row(data: Seq<u8>, end: int, places: Seq<int>) -> bool {
    &&& places.len() > 0
    &&& places[0] == 0
    &&& forall|i: int, j: int|
        0 <= i && j == i + 1 && j < places.len() ==> stands_at(data, end, #[trigger] places[i])
            && is_next(data, places[i], #[trigger] places[j])
    &&& !stands_at(data, end, places.last())
}

/// What is met by walking through the directory that the identifier at `at` names, alone.
pub open spec fn inner_walk(
    disk: Disk,
    part: u32,
    data: Seq<u8>,
    at: int,
    path: Seq<char>,
    depth: nat,
) -> Option<WalkOutcome> {
    walk_directory(
        disk,
        part,
        le32(data, at + 24),
        path + seq!['/'] + name_at(data, at),
        nothing_met(),
        depth,
    )
}

/// What the identifier at `at` adds to the files: nothing where it names nothing, the files of a
/// directory where it names one, and else the file whose entry is in the block that it gives, where
/// that block can be read and holds an entry.
pub open spec fn files_of(
    disk: Disk,
    part: u32,
    data: Seq<u8>,
    at: int,
    path: Seq<char>,
    depth: nat,
) -> Seq<EntryModel> {
    if !names_something(data, at) {
        seq![]
    } else if names_directory(data, at) {
        inner_walk(disk, part, data, at, path, depth)->0.met.entries
    } else {
        match disk((part + le32(data, at + 24)) as u64) {
            Some(sector) => if holds_entry(sector) {
                seq![file_at(part, path + seq!['/'] + name_at(data, at), sector)]
            } else {
                seq![]
            },
            None => seq![],
        }
    }
}

/// How many directories the identifier at `at` adds: itself where it names one, and those inside.
pub open spec fn dirs_of(
    disk: Disk,
    part: u32,
    data: Seq<u8>,
    at: int,
    path: Seq<char>,
    depth: nat,
) -> nat {
    if names_something(data, at) && names_directory(data, at) {
        1 + inner_walk(disk, part, data, at, path, depth)->0.met.dirs as nat
    } else {
        0
    }
}

/// The files that the identifiers from place `i` on add, one behind the other.
pub open spec fn row_files(
    disk: Disk,
    part: u32,
    data: Seq<u8>,
    places: Seq<int>,
    i: int,
    path: Seq<char>,
    depth: nat,
) -> Seq<EntryModel>
    decreases places.len() - i,
{
    if i >= places.len() - 1 {
        seq![]
    } else {
        files_of(disk, part, data, places[i], path, depth) + row_files(
            disk,
            part,
            data,
            places,
            i + 1,
            path,
            depth,
        )
    }
}

/// How many directories the identifiers from place `i` on add.
pub open spec fn row_dirs(
    disk: Disk,
    part: u32,
    data: Seq<u8>,
    places: Seq<int>,
    i: int,
    path: Seq<char>,
    depth: nat,
) -> nat
    decreases places.len() - i,
{
    if i >= places.len() - 1 {
        0
    } else {
        dirs_of(disk, part, data, places[i], path, depth) + row_dirs(
            disk,
            part,
            data,
            places,
            i + 1,
            path,
            depth,
        )
    }
}

/// Whether a walk has come to its end without an error.
pub open spec fn goes_well(outcome: Option<WalkOutcome>) -> bool {
    outcome is Some && outcome->0.error is None
}

/// Whether walking through each directory that identifiers from place `i` on name goes well.
pub open spec fn rows_go_well(
    disk: Disk,
    part: u32,
    data: Seq<u8>,
    places: Seq<int>,
    i: int,
    path: Seq<char>,
    depth: nat,
) -> bool {
    forall|j: int|
        i <= j < places.len() - 1 && names_something(data, #[trigger] places[j])
            && names_directory(data, places[j]) ==> goes_well(
            inner_walk(disk, part, data, places[j], path, depth),
        )
}

/// Where the identifiers of a directory end: at the length of its first extent, or where its data
/// ends.
pub open spec fn row_end(descs: Seq<AllocDesc>, data: Seq<u8>) -> int {
    if descs[0].length < data.len() {
        descs[0].length as int
    } else {
        data.len() as int
    }
}

/// Walking through a directory whose entry has the tag 0x0105 or the tag 0x010A adds what each of
/// its identifiers adds, one behind the other: every file that one names, with its path, its size,
/// its time and the place of its contents, and all that is inside each directory that one names. It
/// goes well exactly where all of the directory can be read and walking through each directory in
/// it goes well; a file whose entry cannot be read is no obstacle.
pub proof fn law_directories_list_their_identifiers(
    disk: Disk,
    part: u32,
    block: u32,
    path: Seq<char>,
    depth: nat,
    places: Seq<int>,
)
    requires
        disk((part + block) as u64) is Some,
        holds_entry(disk((part + block) as u64)->0),
        ({
            let entry = disk((part + block) as u64)->0;
            let descs = alloc_descs(entry, tag_number(entry));
            let data = contents(disk, extent_runs(part, descs));
            &&& descs.len() > 0
            &&& are_readable(disk, extent_runs(part, descs))
            &&& is_row(data, row_end(descs, data), places)
        }),
    ensures
        ({
            let entry = disk((part + block) as u64)->0;
            let descs = alloc_descs(entry, tag_number(entry));
            let data = contents(disk, extent_runs(part, descs));
            let walk = walk_directory(disk, part, block, path, nothing_met(), depth + 1);
            &&& goes_well(walk) <==> rows_go_well(disk, part, data, places, 0, path, depth)
            &&& goes_well(walk) ==> {
                &&& walk->0.met.entries == row_files(disk, part, data, places, 0, path, depth)
                &&& walk->0.met.dirs as int == row_dirs(
                    disk,
                    part,
                    data,
                    places,
                    0,
                    path,
                    depth,
                ) as int % 0x1_0000_0000_0000_0000
            }
        }),
{
    reveal(walk_directory);
    reveal(walk_identifiers);
    let entry = disk((part + block) as u64)->0;
    let descs = alloc_descs(entry, tag_number(entry));
    let data = contents(disk, extent_runs(part, descs));
    lemma_described(part, path, entry);
    law_data_is_what_the_extents_hold(disk, part, descs);
    lemma_row(disk, part, data, row_end(descs, data), places, 0, path, depth);
}

proof fn lemma_row(
    disk: Disk,
    part: u32,
    data: Seq<u8>,
    end: int,
    places: Seq<int>,
    i: int,
    path: Seq<char>,
    depth: nat,
)
    requires
        is_row(data, end, places),
        0 <= i < places.len(),
    ensures
        ({
            let walk = walk_identifiers(
                disk,
                part,
                data,
                end,
                places[i],
                path,
                nothing_met(),
                depth,
            );
            &&& goes_well(walk) <==> rows_go_well(disk, part, data, places, i, path, depth)
            &&& goes_well(walk) ==> {
                &&& walk->0.met.entries == row_files(disk, part, data, places, i, path, depth)
                &&& walk->0.met.dirs as int == row_dirs(
                    disk,
                    part,
                    data,
                    places,
                    i,
                    path,
                    depth,
                ) as int % 0x1_0000_0000_0000_0000
            }
        }),
    decreases places.len() - i,
{
    let at = places[i];
    let walk = walk_identifiers(disk, part, data, end, at, path, nothing_met(), depth);
    lemma_identifier(data, end, at);
    if i == places.len() - 1 {
        reveal(walk_directory);
        reveal(walk_identifiers);
        assert(row_files(disk, part, data, places, i, path, depth) == Seq::<EntryModel>::empty());
    } else {
        let next = places[i + 1];
        assert(stands_at(data, end, at) && is_next(data, at, next));
        assert(next == next_identifier(data, at));
        let rest = walk_identifiers(disk, part, data, end, next, path, nothing_met(), depth);
        lemma_row(disk, part, data, end, places, i + 1, path, depth);
        let name = name_at(data, at);
        let child = path + seq!['/'] + name;
        assert(child_path(path, name) == child) by {
            reveal_strlit("/");
            assert("/"@ == seq!['/']);
        }
        assert(rows_go_well(disk, part, data, places, i, path, depth) <==> rows_go_well(
            disk,
            part,
            data,
            places,
            i + 1,
            path,
            depth,
        ) && (names_something(data, at) && names_directory(data, at) ==> goes_well(
            inner_walk(disk, part, data, at, path, depth),
        )));
        let files = files_of(disk, part, data, at, path, depth);
        let more = row_dirs(disk, part, data, places, i + 1, path, depth);
        if names_something(data, at) && names_directory(data, at) {
            let block = identifier_block(data, at);
            let one = Tally { entries: nothing_met().entries, dirs: 1 };
            let fresh = inner_walk(disk, part, data, at, path, depth);
            law_what_was_met_makes_no_difference(disk, part, block, child, one, depth);
            lemma_directory_step(disk, part, data, end, at, path, nothing_met(), depth);
            if goes_well(fresh) {
                let met = both_met(one, fresh->0.met);
                lemma_row_behind(disk, part, data, end, next, path, met, depth);
                assert(walk == after(fresh->0.reads, behind(met, rest)));
                if goes_well(rest) {
                    lemma_counts_follow(1, fresh->0.met.dirs, rest->0.met.dirs, more);
                    assert(met.entries == files);
                    assert(walk->0.met.entries == files + rest->0.met.entries);
                }
            }
        } else {
            let met = Tally { entries: files, dirs: 0 };
            lemma_row_behind(disk, part, data, end, next, path, met, depth);
            assert(goes_well(walk) <==> goes_well(rest)) by {
                lemma_plain_step(disk, part, data, end, at, path, depth);
            }
            if goes_well(rest) {
                lemma_plain_step(disk, part, data, end, at, path, depth);
                lemma_counts_follow(0, 0, rest->0.met.dirs, more);
                assert(count_sum(0, 0) == 0) by {
                    reveal(count_sum);
                }
                assert(walk->0.met == both_met(met, rest->0.met));
            }
        }
    }
}

/// What an identifier leads to that names no directory.
proof fn lemma_plain_step(
    disk: Disk,
    part: u32,
    data: Seq<u8>,
    end: int,
    at: int,
    path: Seq<char>,
    depth: nat,
)
    requires
        stands_at(data, end, at),
        !(names_something(data, at) && names_directory(data, at)),
    ensures
        ({
            let files = files_of(disk, part, data, at, path, depth);
            let then = walk_identifiers(
                disk,
                part,
                data,
                end,
                next_identifier(data, at),
                path,
                Tally { entries: files, dirs: 0 },
                depth,
            );
            let walk = walk_identifiers(disk, part, data, end, at, path, nothing_met(), depth);
            &&& walk is Some <==> then is Some
            &&& walk is Some ==> walk->0.met == then->0.met && walk->0.error == then->0.error
        }),
{
    reveal(walk_directory);
    reveal(walk_identifiers);
    reveal_strlit("/");
    lemma_identifier(data, end, at);
    let files = files_of(disk, part, data, at, path, depth);
    let child = path + seq!['/'] + name_at(data, at);
    assert("/"@ == seq!['/']);
    assert(child_path(path, name_at(data, at)) == child);
    let n = partition_sector(part, identifier_block(data, at));
    if names_something(data, at) {
        if let Some(sector) = disk(n) {
            lemma_described(part, child, sector);
        }
        assert(with_file(nothing_met(), part, child, disk(n)).entries == files);
    } else {
        assert(nothing_met() == Tally { entries: files, dirs: 0 });
    }
}

proof fn lemma_counts_follow(one: u64, inner: u64, rest: u64, more: nat)
    requires
        rest as int == more as int % 0x1_0000_0000_0000_0000,
    ensures
        count_sum(count_sum(one, inner), rest) as int == (one + inner + more)
            % 0x1_0000_0000_0000_0000,
{
    reveal(count_sum);
}

/// What a place in a row adds is part of what the row adds.
proof fn lemma_part_of_row(
    disk: Disk,
    part: u32,
    data: Seq<u8>,
    places: Seq<int>,
    i: int,
    j: int,
    path: Seq<char>,
    depth: nat,
    entry: EntryModel,
)
    requires
        0 <= i <= j < places.len() - 1,
        files_of(disk, part, data, places[j], path, depth).contains(entry),
    ensures
        row_files(disk, part, data, places, i, path, depth).contains(entry),
    decreases j - i,
{
    let files = files_of(disk, part, data, places[i], path, depth);
    let rest = row_files(disk, part, data, places, i + 1, path, depth);
    let all = row_files(disk, part, data, places, i, path, depth);
    assert(all == files + rest);
    if i < j {
        lemma_part_of_row(disk, part, data, places, i + 1, j, path, depth, entry);
        let n = choose|n: int| 0 <= n < rest.len() && rest[n] == entry;
        assert(all[files.len() + n] == entry);
    } else {
        let n = choose|n: int| 0 <= n < files.len() && files[n] == entry;
        assert(all[n] == entry);
    }
}

/// Whether a directory can be walked through: the block of its entry can be read and begins with the
/// number 0x0105 or the number 0x010A, it has extents, all of which can be read, and `places` are
/// those of its identifiers.
pub open spec fn is_directory_with(disk: Disk, part: u32, block: u32, places: Seq<int>) -> bool {
    &&& disk((part + block) as u64) matches Some(entry)
    &&& (entry[0] == 0x05 && entry[1] == 0x01) || (entry[0] == 0x0a && entry[1] == 0x01)
    &&& alloc_descs(entry, tag_number(entry)).len() > 0
    &&& are_readable(disk, extent_runs(part, alloc_descs(entry, tag_number(entry))))
    &&& is_row(
        directory_data(disk, part, block),
        row_end(alloc_descs(entry, tag_number(entry)), directory_data(disk, part, block)),
        places,
    )
}

/// The data of a directory.
pub open spec fn directory_data(disk: Disk, part: u32, block: u32) -> Seq<u8> {
    let entry = disk((part + block) as u64)->0;
    contents(disk, extent_runs(part, alloc_descs(entry, tag_number(entry))))
}

/// A file that a directory names is listed wherever the block of its entry can be read and begins
/// with the number 0x0105 or the number 0x010A, the lower byte first, in a directory whose own entry
/// begins with either.
pub proof fn law_named_files_are_listed(
    disk: Disk,
    part: u32,
    block: u32,
    path: Seq<char>,
    depth: nat,
    places: Seq<int>,
    i: int,
)
    requires
        is_directory_with(disk, part, block, places),
        goes_well(walk_directory(disk, part, block, path, nothing_met(), depth + 1)),
        0 <= i < places.len() - 1,
        names_something(directory_data(disk, part, block), places[i]),
        !names_directory(directory_data(disk, part, block), places[i]),
        disk((part + le32(directory_data(disk, part, block), places[i] + 24)) as u64) matches Some(
            sector,
        ) && ((sector[0] == 0x05 && sector[1] == 0x01) || (sector[0] == 0x0a && sector[1] == 0x01)),
    ensures
        ({
            let data = directory_data(disk, part, block);
            let sector = disk((part + le32(data, places[i] + 24)) as u64)->0;
            walk_directory(disk, part, block, path, nothing_met(), depth + 1)->0.met.entries.contains(
                file_at(part, path + seq!['/'] + name_at(data, places[i]), sector),
            )
        }),
{
    let data = directory_data(disk, part, block);
    let sector = disk((part + le32(data, places[i] + 24)) as u64)->0;
    let file = file_at(part, path + seq!['/'] + name_at(data, places[i]), sector);
    law_directories_list_their_identifiers(disk, part, block, path, depth, places);
    assert(files_of(disk, part, data, places[i], path, depth) == seq![file]);
    assert(seq![file][0] == file);
    lemma_part_of_row(disk, part, data, places, 0, i, path, depth, file);
}

/// All that is listed inside a directory that a directory names is listed inside the latter.
pub proof fn law_inner_files_are_listed(
    disk: Disk,
    part: u32,
    block: u32,
    path: Seq<char>,
    depth: nat,
    places: Seq<int>,
    i: int,
    entry: EntryModel,
)
    requires
        is_directory_with(disk, part, block, places),
        goes_well(walk_directory(disk, part, block, path, nothing_met(), depth + 1)),
        0 <= i < places.len() - 1,
        names_something(directory_data(disk, part, block), places[i]),
        names_directory(directory_data(disk, part, block), places[i]),
    ensures
        ({
            let data = directory_data(disk, part, block);
            let inner = inner_walk(disk, part, data, places[i], path, depth);
            &&& goes_well(inner)
            &&& inner->0.met.entries.contains(entry) ==> walk_directory(
                disk,
                part,
                block,
                path,
                nothing_met(),
                depth + 1,
            )->0.met.entries.contains(entry)
        }),
{
    let data = directory_data(disk, part, block);
    law_directories_list_their_identifiers(disk, part, block, path, depth, places);
    assert(names_something(data, places[i]) && names_directory(data, places[i]));
    if inner_walk(disk, part, data, places[i], path, depth)->0.met.entries.contains(entry) {
        lemma_part_of_row(disk, part, data, places, 0, i, path, depth, entry);
    }
}

/// A directory whose entry cannot be read, or one of whose sectors cannot be read, ends the walk with
/// that sector as the error. One whose block holds something else than an entry, or that has no
/// extents, holds nothing, and that is no error.
pub proof fn law_other_directories(
    disk: Disk,
    part: u32,
    block: u32,
    path: Seq<char>,
    tally: Tally,
    depth: nat,
)
    requires
        depth > 0,
    ensures
        ({
            let n = (part + block) as u64;
            let walk = walk_directory(disk, part, block, path, tally, depth);
            match disk(n) {
                None => walk is Some && walk->0.error == Some(UdfError::Unreadable { sector: n })
                    && walk->0.met == tally,
                Some(entry) => {
                    let descs = alloc_descs(entry, tag_number(entry));
                    if !holds_entry(entry) || descs.len() == 0 {
                        goes_well(walk) && walk->0.met == tally
                    } else {
                        !are_readable(disk, extent_runs(part, descs)) ==> walk is Some
                            && walk->0.error is Some && walk->0.met == tally
                    }
                },
            }
        }),
{
    reveal(walk_directory);
    reveal(walk_identifiers);
    if let Some(entry) = disk((part + block) as u64) {
        lemma_described(part, path, entry);
        law_data_is_what_the_extents_hold(disk, part, alloc_descs(entry, tag_number(entry)));
    }
}

// ---------------------------------------------------------------------------------------------
// Volumes
// ---------------------------------------------------------------------------------------------

/// Whether the first `k` descriptors of a sequence can be read and have neither the tag 6, of a
/// logical volume, nor the tag 8, of an end.
pub open spec fn leads_on(disk: Disk, start: u32, k: int) -> bool {
    forall|i: int|
        0 <= i < k ==> (#[trigger] nth(disk, start, i)) is Some && le16(nth(disk, start, i)->0, 0)
            != 6 && le16(nth(disk, start, i)->0, 0) != 8
}

/// Whether `n` is the sector of the file set that a walk goes by: where the first logical volume
/// descriptor has it, counted from the start of the partition, or at that start where there is no
/// such descriptor.
pub open spec fn is_file_set_sector(disk: Disk, part: u32, anchor: Seq<u8>, k: int, n: u64) -> bool {
    let start = le32(anchor, 20);
    let room = room_for(le32(anchor, 16) as int);
    &&& 0 <= k <= room
    &&& leads_on(disk, start, k)
    &&& if k == room {
        n == part
    } else {
        &&& nth(disk, start, k) matches Some(sector)
        &&& (le16(sector, 0) == 6 && n == part + le32(sector, 252)) || (le16(sector, 0) == 8 && n
            == part)
    }
}

/// Walking through a volume is walking through its root directory, the block of whose entry stands
/// at byte 404 of the file set descriptor, and whose path is empty.
pub proof fn law_volumes_are_their_root(
    disk: Disk,
    part: u32,
    depth: nat,
    anchor: Seq<u8>,
    k: int,
    n: u64,
)
    requires
        disk(256) == Some(anchor),
        is_file_set_sector(disk, part, anchor, k, n),
    ensures
        ({
            let walk = walk_volume(disk, part, depth);
            match disk(n) {
                None => walk is Some && walk->0.error == Some(UdfError::Unreadable { sector: n }),
                Some(set) => {
                    let root = walk_directory(
                        disk,
                        part,
                        le32(set, 404),
                        seq![],
                        nothing_met(),
                        depth,
                    );
                    &&& walk is Some <==> root is Some
                    &&& walk is Some ==> walk->0.met == root->0.met && walk->0.error
                        == root->0.error
                },
            }
        }),
{
    lemma_leads_to(
        disk,
        part,
        depth,
        sequence_start(anchor),
        sequence_count(anchor),
        k,
        0,
        n,
    );
}

proof fn lemma_leads_to(
    disk: Disk,
    part: u32,
    depth: nat,
    start: u32,
    count: u32,
    k: int,
    next: int,
    n: u64,
)
    requires
        0 <= next <= k <= count,
        leads_on(disk, start, k),
        if k == count {
            n == part
        } else {
            &&& nth(disk, start, k) matches Some(sector)
            &&& (le16(sector, 0) == 6 && n == part + le32(sector, 252)) || (le16(sector, 0) == 8
                && n == part)
        },
    ensures
        ({
            let walk = walk_sequence(disk, part, start, count, next, depth);
            let inner = walk_file_set(disk, part, n, depth);
            &&& walk is Some <==> inner is Some
            &&& walk is Some ==> walk->0.met == inner->0.met && walk->0.error == inner->0.error
        }),
    decreases k - next,
{
    assert(nth(disk, start, next) == disk(sequence_sector(start, next)));
    if next < k {
        lemma_leads_to(disk, part, depth, start, count, k, next + 1, n);
    }
}

/// A file that the root directory of a volume names is listed under a slash and its name, with its
/// size, its time and the place of its contents, wherever the block of its entry can be read and
/// begins with the number 0x0105 or the number 0x010A.
pub proof fn law_root_files_are_listed(
    disk: Disk,
    part: u32,
    depth: nat,
    anchor: Seq<u8>,
    k: int,
    n: u64,
    places: Seq<int>,
    i: int,
)
    requires
        disk(256) == Some(anchor),
        is_file_set_sector(disk, part, anchor, k, n),
        disk(n) is Some,
        goes_well(walk_volume(disk, part, depth + 1)),
        is_directory_with(disk, part, le32(disk(n)->0, 404), places),
        0 <= i < places.len() - 1,
        ({
            let data = directory_data(disk, part, le32(disk(n)->0, 404));
            &&& names_something(data, places[i])
            &&& !names_directory(data, places[i])
            &&& disk((part + le32(data, places[i] + 24)) as u64) matches Some(sector) && ((sector[0]
                == 0x05 && sector[1] == 0x01) || (sector[0] == 0x0a && sector[1] == 0x01))
        }),
    ensures
        ({
            let data = directory_data(disk, part, le32(disk(n)->0, 404));
            let sector = disk((part + le32(data, places[i] + 24)) as u64)->0;
            walk_volume(disk, part, depth + 1)->0.met.entries.contains(
                file_at(part, seq!['/'] + name_at(data, places[i]), sector),
            )
        }),
{
    let block = le32(disk(n)->0, 404);
    let data = directory_data(disk, part, block);
    law_volumes_are_their_root(disk, part, depth + 1, anchor, k, n);
    law_named_files_are_listed(disk, part, block, seq![], depth, places, i);
    assert(Seq::<char>::empty() + seq!['/'] + name_at(data, places[i]) == seq!['/'] + name_at(
        data,
        places[i],
    ));
}

/// Sector 256 is needed for a walk.
pub proof fn law_walks_need_the_anchor(disk: Disk, part: u32, depth: nat)
    requires
        disk(256) is None,
    ensures
        walk_volume(disk, part, depth) is Some,
        walk_volume(disk, part, depth)->0.error == Some(UdfError::Unreadable { sector: 256 }),
{
}

} // verus!
