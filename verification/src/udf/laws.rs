//! Laws of listing the files of a UDF volume.

use super::descriptor::{
    alloc_descs, is_file_entry, tag, Disk, ANCHOR_SECTOR, TAG_FILE_SET, TAG_LOGICAL_VOLUME,
    TAG_TERMINATING,
};
use super::open::{
    learned, nothing_known, open_sequence, open_volume, sequence_count, sequence_sector,
    sequence_start, SequenceModel, UdfError,
};
use super::tree::{
    after, content_size, described_file, entries_view, gathered, has_identifier, identifier_block,
    identifier_name, is_directory, is_listed, lemma_after_after, listing_end, next_identifier,
    nothing_met, partition_sector, sums_up, walk_directory, walk_file_set, walk_identifiers,
    walk_sequence, walk_volume, with_file, EntryModel, Tally, WalkOutcome,
};
use super::walk::{lemma_walk_reads_what_it_wants, WalkStep};
use crate::bytes::le32;
use crate::iso::WalkStats;
use crate::text::child_path;
use vstd::prelude::*;

verus! {

// ---------------------------------------------------------------------------------------------
// Walking sector by sector
// ---------------------------------------------------------------------------------------------

/// Whether `steps` come about one after the other when each sector that is waited for is read from
/// `disk`, from the beginning of a walk on through the volume whose partition begins at `part`.
pub open spec fn is_walk_run(disk: Disk, part: u32, depth: nat, steps: Seq<WalkStep>) -> bool {
    &&& steps.len() > 0
    &&& steps[0] is Read
    &&& steps[0].outcome(disk, depth) == walk_volume(disk, part, depth)
    &&& forall|i: int| 0 <= i < steps.len() ==> (#[trigger] steps[i]).wf()
    &&& forall|i: int|
        0 <= i < steps.len() - 1 ==> {
            &&& (#[trigger] steps[i]) is Read
            &&& steps[i]->Read_0.goes_on(disk(steps[i]->Read_0.wanted()), steps[i + 1])
        }
}

/// A walk that goes sector by sector reads the sectors that the walk is said to read, in order, and
/// no others, and ends as it is said to end. So it ends at all wherever directories are nested no
/// deeper than some `depth`.
pub proof fn law_walk_follows_the_disc(disk: Disk, part: u32, depth: nat, steps: Seq<WalkStep>)
    requires
        walk_volume(disk, part, depth) is Some,
        is_walk_run(disk, part, depth, steps),
    ensures
        steps.len() <= walk_volume(disk, part, depth)->0.reads.len() + 1,
        forall|i: int|
            0 <= i < steps.len() ==> ((#[trigger] steps[i]) matches WalkStep::Read(walk) ==> i
                < walk_volume(disk, part, depth)->0.reads.len() && walk.wanted() == walk_volume(
                disk,
                part,
                depth,
            )->0.reads[i]),
        steps.last() !is Read ==> steps.len() == walk_volume(disk, part, depth)->0.reads.len() + 1,
        steps.last() matches WalkStep::Done { entries, stats } ==> {
            &&& walk_volume(disk, part, depth)->0.error is None
            &&& walk_volume(disk, part, depth)->0.met == Tally {
                entries: entries_view(entries@),
                dirs: stats.dirs,
            }
        },
        steps.last() matches WalkStep::Failed { error, entries, stats } ==> {
            &&& walk_volume(disk, part, depth)->0.error == Some(error)
            &&& walk_volume(disk, part, depth)->0.met == Tally {
                entries: entries_view(entries@),
                dirs: stats.dirs,
            }
        },
{
    let whole = walk_volume(disk, part, depth)->0;
    assert forall|i: int| 0 <= i < steps.len() implies i <= whole.reads.len() && (
    #[trigger] steps[i]).outcome(disk, depth) == Some(
        WalkOutcome { met: whole.met, error: whole.error, reads: whole.reads.skip(i) },
    ) by {
        lemma_walk_run_at(disk, part, depth, steps, i);
    }
    assert forall|i: int| 0 <= i < steps.len() implies ((
    #[trigger] steps[i]) matches WalkStep::Read(walk) ==> i < whole.reads.len() && walk.wanted()
        == whole.reads[i]) by {
        if let WalkStep::Read(walk) = steps[i] {
            lemma_walk_reads_what_it_wants(walk, disk, depth);
        }
    }
    let last = steps.len() - 1;
    assert(steps[last].outcome(disk, depth)->0.reads == whole.reads.skip(last));
}

proof fn lemma_walk_run_at(disk: Disk, part: u32, depth: nat, steps: Seq<WalkStep>, i: int)
    requires
        walk_volume(disk, part, depth) is Some,
        is_walk_run(disk, part, depth, steps),
        0 <= i < steps.len(),
    ensures
        i <= walk_volume(disk, part, depth)->0.reads.len(),
        steps[i].outcome(disk, depth) == Some(
            WalkOutcome {
                met: walk_volume(disk, part, depth)->0.met,
                error: walk_volume(disk, part, depth)->0.error,
                reads: walk_volume(disk, part, depth)->0.reads.skip(i),
            },
        ),
    decreases i,
{
    let whole = walk_volume(disk, part, depth)->0;
    if i == 0 {
        assert(whole.reads.skip(0) == whole.reads);
    } else {
        lemma_walk_run_at(disk, part, depth, steps, i - 1);
        let walk = steps[i - 1]->Read_0;
        assert(steps[i - 1].wf());
        lemma_walk_reads_what_it_wants(walk, disk, depth);
        let now = steps[i].outcome(disk, depth);
        assert(walk.outcome(disk, depth) == after(seq![walk.wanted()], now));
        assert(now->0.reads == (seq![walk.wanted()] + now->0.reads).skip(1));
        assert(whole.reads.skip(i - 1).skip(1) == whole.reads.skip(i));
    }
}

// ---------------------------------------------------------------------------------------------
// The depth of directories
// ---------------------------------------------------------------------------------------------

/// A walk that ends where directories are nested at most `depth` deep ends in the same way
/// whatever greater depth is allowed.
pub proof fn law_depth_is_no_matter(disk: Disk, part: u32, depth: nat, deeper: nat)
    requires
        depth <= deeper,
        walk_volume(disk, part, depth) is Some,
    ensures
        walk_volume(disk, part, deeper) == walk_volume(disk, part, depth),
{
    if let Some(anchor) = disk(ANCHOR_SECTOR) {
        lemma_sequence_deeper(
            disk,
            part,
            sequence_start(anchor),
            sequence_count(anchor),
            0,
            depth,
            deeper,
        );
    }
}

proof fn lemma_sequence_deeper(
    disk: Disk,
    part: u32,
    start: u32,
    count: u32,
    next: int,
    depth: nat,
    deeper: nat,
)
    requires
        depth <= deeper,
        walk_sequence(disk, part, start, count, next, depth) is Some,
    ensures
        walk_sequence(disk, part, start, count, next, deeper) == walk_sequence(
            disk,
            part,
            start,
            count,
            next,
            depth,
        ),
    decreases count - next,
{
    if next >= count {
        lemma_file_set_deeper(disk, part, part as u64, depth, deeper);
    } else if let Some(sector) = disk(sequence_sector(start, next)) {
        if tag(sector) == TAG_LOGICAL_VOLUME {
            lemma_file_set_deeper(
                disk,
                part,
                partition_sector(part, le32(sector, 252)),
                depth,
                deeper,
            );
        } else if tag(sector) == TAG_TERMINATING {
            lemma_file_set_deeper(disk, part, part as u64, depth, deeper);
        } else {
            lemma_sequence_deeper(disk, part, start, count, next + 1, depth, deeper);
        }
    }
}

proof fn lemma_file_set_deeper(disk: Disk, part: u32, n: u64, depth: nat, deeper: nat)
    requires
        depth <= deeper,
        walk_file_set(disk, part, n, depth) is Some,
    ensures
        walk_file_set(disk, part, n, deeper) == walk_file_set(disk, part, n, depth),
{
    if let Some(sector) = disk(n) {
        lemma_directory_deeper(
            disk,
            part,
            le32(sector, 404),
            seq![],
            nothing_met(),
            depth,
            deeper,
        );
    }
}

proof fn lemma_directory_deeper(
    disk: Disk,
    part: u32,
    block: u32,
    path: Seq<char>,
    tally: Tally,
    depth: nat,
    deeper: nat,
)
    requires
        depth <= deeper,
        walk_directory(disk, part, block, path, tally, depth) is Some,
    ensures
        walk_directory(disk, part, block, path, tally, deeper) == walk_directory(
            disk,
            part,
            block,
            path,
            tally,
            depth,
        ),
    decreases depth, 0int, 0int,
{
    reveal(walk_directory);
    reveal(walk_identifiers);
    if let Some(entry) = disk(partition_sector(part, block)) {
        let descs = alloc_descs(entry, tag(entry));
        if is_file_entry(entry) && descs.len() > 0 {
            if let Ok(data) = gathered(disk, part, descs, 0, 0).result {
                lemma_identifiers_deeper(
                    disk,
                    part,
                    data,
                    listing_end(descs, data),
                    0,
                    path,
                    tally,
                    (depth - 1) as nat,
                    (deeper - 1) as nat,
                );
            }
        }
    }
}

proof fn lemma_identifiers_deeper(
    disk: Disk,
    part: u32,
    data: Seq<u8>,
    end: int,
    at: int,
    path: Seq<char>,
    tally: Tally,
    depth: nat,
    deeper: nat,
)
    requires
        depth <= deeper,
        walk_identifiers(disk, part, data, end, at, path, tally, depth) is Some,
    ensures
        walk_identifiers(disk, part, data, end, at, path, tally, deeper) == walk_identifiers(
            disk,
            part,
            data,
            end,
            at,
            path,
            tally,
            depth,
        ),
    decreases depth, 1int, if at < end { end - at } else { 0 },
{
    reveal(walk_directory);
    reveal(walk_identifiers);
    if has_identifier(data, end, at) {
        let next = next_identifier(data, at);
        let child = child_path(path, identifier_name(data, at));
        let block = identifier_block(data, at);
        if !is_listed(data, at) {
            lemma_identifiers_deeper(disk, part, data, end, next, path, tally, depth, deeper);
        } else if is_directory(data, at) {
            let more = Tally { entries: tally.entries, dirs: tally.dirs.wrapping_add(1) };
            lemma_directory_deeper(disk, part, block, child, more, depth, deeper);
            let inner = walk_directory(disk, part, block, child, more, depth)->0;
            if inner.error is None {
                let met = inner.met;
                lemma_identifiers_deeper(disk, part, data, end, next, path, met, depth, deeper);
            }
        } else {
            let met = with_file(tally, part, child, disk(partition_sector(part, block)));
            lemma_identifiers_deeper(disk, part, data, end, next, path, met, depth, deeper);
        }
    }
}

// ---------------------------------------------------------------------------------------------
// What is listed
// ---------------------------------------------------------------------------------------------

/// Whether a file lies below the directory at `path` and is a plain file whose data begins on a
/// sector.
pub open spec fn is_file_below(entry: EntryModel, path: Seq<char>) -> bool {
    &&& (path + "/"@).is_prefix_of(entry.path)
    &&& !entry.is_dir
    &&& entry.data_offset % 2048 == 0
}

/// Whether `met` is `tally` with files below the directory at `path` added behind the others, and
/// with at most `most` directories counted on top, as long as the count fits into 64 bits.
pub open spec fn adds_below(tally: Tally, met: Tally, path: Seq<char>, most: int) -> bool {
    &&& tally.entries.is_prefix_of(met.entries)
    &&& forall|i: int|
        tally.entries.len() <= i < met.entries.len() ==> is_file_below(
            #[trigger] met.entries[i],
            path,
        )
    &&& tally.dirs + most <= u64::MAX ==> tally.dirs <= met.dirs <= tally.dirs + most
}

/// Every file that a walk lists has a path from the root on, is a plain file, and has its data
/// begin on a sector. It makes no difference whether the walk goes well or is cut short.
pub proof fn law_walk_lists_files(disk: Disk, part: u32, depth: nat)
    requires
        walk_volume(disk, part, depth) is Some,
    ensures
        forall|i: int|
            0 <= i < walk_volume(disk, part, depth)->0.met.entries.len() ==> is_file_below(
                #[trigger] walk_volume(disk, part, depth)->0.met.entries[i],
                seq![],
            ),
{
    if let Some(anchor) = disk(ANCHOR_SECTOR) {
        lemma_sequence_adds(
            disk,
            part,
            sequence_start(anchor),
            sequence_count(anchor),
            0,
            depth,
        );
    }
}

/// Walking through a directory keeps the counts in step with the files, whether it goes well or is
/// cut short: where the statistics sum up the files before, and none of these is a directory, the
/// same holds of the files afterwards. The files before stay in their places, with the others
/// behind them, and no count goes down. The counts are taken to fit into 64 bits.
pub proof fn law_walk_keeps_count(
    disk: Disk,
    part: u32,
    block: u32,
    path: Seq<char>,
    tally: Tally,
    depth: nat,
    before: WalkStats,
    now: WalkStats,
)
    requires
        walk_directory(disk, part, block, path, tally, depth) is Some,
        sums_up(before, tally),
        sums_up(now, walk_directory(disk, part, block, path, tally, depth)->0.met),
        forall|i: int| 0 <= i < tally.entries.len() ==> !(#[trigger] tally.entries[i]).is_dir,
        content_size(walk_directory(disk, part, block, path, tally, depth)->0.met.entries)
            <= u64::MAX,
        tally.dirs + walk_directory(disk, part, block, path, tally, depth)->0.reads.len()
            <= u64::MAX,
    ensures
        ({
            let met = walk_directory(disk, part, block, path, tally, depth)->0.met;
            &&& now.files == met.entries.len()
            &&& now.total_size == content_size(met.entries)
            &&& forall|i: int| 0 <= i < met.entries.len() ==> !(#[trigger] met.entries[i]).is_dir
            &&& tally.entries.is_prefix_of(met.entries)
            &&& before.files <= now.files
            &&& before.dirs <= now.dirs
            &&& before.total_size <= now.total_size
        }),
{
    let outcome = walk_directory(disk, part, block, path, tally, depth)->0;
    let met = outcome.met;
    lemma_directory_adds(disk, part, block, path, tally, depth);
    lemma_content_size_grows(tally.entries, met.entries);
    assert forall|i: int| 0 <= i < met.entries.len() implies !(#[trigger] met.entries[i]).is_dir by {
        if i < tally.entries.len() {
            assert(met.entries[i] == tally.entries[i]);
        } else {
            assert(is_file_below(met.entries[i], path));
        }
    }
}

proof fn lemma_content_size_grows(first: Seq<EntryModel>, more: Seq<EntryModel>)
    requires
        first.is_prefix_of(more),
    ensures
        content_size(first) <= content_size(more),
    decreases more.len(),
{
    if first.len() < more.len() {
        assert(first.is_prefix_of(more.drop_last()));
        lemma_content_size_grows(first, more.drop_last());
    } else {
        assert(first == more);
    }
}

proof fn lemma_sequence_adds(
    disk: Disk,
    part: u32,
    start: u32,
    count: u32,
    next: int,
    depth: nat,
)
    requires
        walk_sequence(disk, part, start, count, next, depth) is Some,
    ensures
        ({
            let outcome = walk_sequence(disk, part, start, count, next, depth)->0;
            adds_below(nothing_met(), outcome.met, seq![], outcome.reads.len() as int)
        }),
    decreases count - next,
{
    if next >= count {
        lemma_file_set_adds(disk, part, part as u64, depth);
    } else if let Some(sector) = disk(sequence_sector(start, next)) {
        if tag(sector) == TAG_LOGICAL_VOLUME {
            let n = partition_sector(part, le32(sector, 252));
            lemma_file_set_adds(disk, part, n, depth);
        } else if tag(sector) == TAG_TERMINATING {
            lemma_file_set_adds(disk, part, part as u64, depth);
        } else {
            lemma_sequence_adds(disk, part, start, count, next + 1, depth);
        }
    }
}

proof fn lemma_file_set_adds(disk: Disk, part: u32, n: u64, depth: nat)
    requires
        walk_file_set(disk, part, n, depth) is Some,
    ensures
        ({
            let outcome = walk_file_set(disk, part, n, depth)->0;
            adds_below(nothing_met(), outcome.met, seq![], outcome.reads.len() as int)
        }),
{
    if let Some(sector) = disk(n) {
        lemma_directory_adds(disk, part, le32(sector, 404), seq![], nothing_met(), depth);
    }
}

proof fn lemma_directory_adds(
    disk: Disk,
    part: u32,
    block: u32,
    path: Seq<char>,
    tally: Tally,
    depth: nat,
)
    requires
        walk_directory(disk, part, block, path, tally, depth) is Some,
    ensures
        ({
            let outcome = walk_directory(disk, part, block, path, tally, depth)->0;
            &&& outcome.reads.len() > 0
            &&& adds_below(tally, outcome.met, path, outcome.reads.len() - 1)
        }),
    decreases depth, 0int, 0int,
{
    reveal(walk_directory);
    reveal(walk_identifiers);
    if let Some(entry) = disk(partition_sector(part, block)) {
        let descs = alloc_descs(entry, tag(entry));
        if is_file_entry(entry) && descs.len() > 0 {
            if let Ok(data) = gathered(disk, part, descs, 0, 0).result {
                lemma_identifiers_add(
                    disk,
                    part,
                    data,
                    listing_end(descs, data),
                    0,
                    path,
                    tally,
                    (depth - 1) as nat,
                );
            }
        }
    }
}

proof fn lemma_identifiers_add(
    disk: Disk,
    part: u32,
    data: Seq<u8>,
    end: int,
    at: int,
    path: Seq<char>,
    tally: Tally,
    depth: nat,
)
    requires
        walk_identifiers(disk, part, data, end, at, path, tally, depth) is Some,
    ensures
        ({
            let outcome = walk_identifiers(disk, part, data, end, at, path, tally, depth)->0;
            adds_below(tally, outcome.met, path, outcome.reads.len() as int)
        }),
    decreases depth, 1int, if at < end { end - at } else { 0 },
{
    reveal(walk_directory);
    reveal(walk_identifiers);
    if has_identifier(data, end, at) {
        let next = next_identifier(data, at);
        let child = child_path(path, identifier_name(data, at));
        let block = identifier_block(data, at);
        assert((path + "/"@).is_prefix_of(child));
        if !is_listed(data, at) {
            lemma_identifiers_add(disk, part, data, end, next, path, tally, depth);
        } else if is_directory(data, at) {
            let more = Tally { entries: tally.entries, dirs: tally.dirs.wrapping_add(1) };
            let inner = walk_directory(disk, part, block, child, more, depth)->0;
            lemma_directory_adds(disk, part, block, child, more, depth);
            lemma_below_child(more, inner.met, path, child, inner.reads.len() - 1);
            if inner.error is None {
                lemma_identifiers_add(disk, part, data, end, next, path, inner.met, depth);
                let whole = walk_identifiers(disk, part, data, end, at, path, tally, depth)->0;
                lemma_added_behind(tally, inner.met, whole.met, path);
            }
        } else {
            let n = partition_sector(part, block);
            let met = with_file(tally, part, child, disk(n));
            lemma_identifiers_add(disk, part, data, end, next, path, met, depth);
            let whole = walk_identifiers(disk, part, data, end, at, path, tally, depth)->0;
            lemma_added_behind(tally, met, whole.met, path);
        }
    }
}

/// What lies below a directory lies below the directory that it is in.
proof fn lemma_below_child(
    tally: Tally,
    met: Tally,
    path: Seq<char>,
    child: Seq<char>,
    most: int,
)
    requires
        adds_below(tally, met, child, most),
        (path + "/"@).is_prefix_of(child),
    ensures
        adds_below(tally, met, path, most),
{
    assert forall|i: int| tally.entries.len() <= i < met.entries.len() implies is_file_below(
        #[trigger] met.entries[i],
        path,
    ) by {
        assert((child + "/"@).is_prefix_of(met.entries[i].path));
    }
}

/// Files added behind added files are added files.
proof fn lemma_added_behind(tally: Tally, met: Tally, all: Tally, path: Seq<char>)
    requires
        tally.entries.is_prefix_of(met.entries),
        met.entries.is_prefix_of(all.entries),
        forall|i: int|
            tally.entries.len() <= i < met.entries.len() ==> is_file_below(
                #[trigger] met.entries[i],
                path,
            ),
        forall|i: int|
            met.entries.len() <= i < all.entries.len() ==> is_file_below(
                #[trigger] all.entries[i],
                path,
            ),
    ensures
        tally.entries.is_prefix_of(all.entries),
        forall|i: int|
            tally.entries.len() <= i < all.entries.len() ==> is_file_below(
                #[trigger] all.entries[i],
                path,
            ),
{
    assert forall|i: int| tally.entries.len() <= i < all.entries.len() implies is_file_below(
        #[trigger] all.entries[i],
        path,
    ) by {
        if i < met.entries.len() {
            assert(all.entries[i] == met.entries[i]);
        }
    }
}

// ---------------------------------------------------------------------------------------------
// Every file is listed
// ---------------------------------------------------------------------------------------------

/// Whether an identifier stands at `at` in the row of identifiers that begins at `from`.
pub open spec fn stands_in_row(data: Seq<u8>, end: int, from: int, at: int) -> bool
    decreases if from < end { end - from } else { 0 },
{
    has_identifier(data, end, from) && (at == from || stands_in_row(
        data,
        end,
        next_identifier(data, from),
        at,
    ))
}

/// Whether `entry` is the file that the identifier at `at` of the directory at `path` names, or a
/// file inside the directory that it names.
pub open spec fn is_file_named(
    disk: Disk,
    part: u32,
    data: Seq<u8>,
    at: int,
    path: Seq<char>,
    entry: EntryModel,
    depth: nat,
) -> bool
    decreases depth, 1int,
{
    let child = child_path(path, identifier_name(data, at));
    if is_directory(data, at) {
        is_file_inside(disk, part, identifier_block(data, at), child, entry, depth)
    } else {
        disk(partition_sector(part, identifier_block(data, at))) matches Some(described)
            && is_file_entry(described) && entry == described_file(part, child, described)
    }
}

/// Whether `entry` is a file, at any depth, inside the directory at `path` whose file entry is in
/// block `block`: one that an identifier of the directory names that is listed, or a file inside a
/// directory that such an identifier names.
pub open spec fn is_file_inside(
    disk: Disk,
    part: u32,
    block: u32,
    path: Seq<char>,
    entry: EntryModel,
    depth: nat,
) -> bool
    decreases depth, 0int,
{
    &&& depth > 0
    &&& disk(partition_sector(part, block)) matches Some(described)
    &&& is_file_entry(described)
    &&& gathered(disk, part, alloc_descs(described, tag(described)), 0, 0).result matches Ok(data)
    &&& exists|at: int|
        #![trigger is_listed(data, at)]
        {
            &&& stands_in_row(
                data,
                listing_end(alloc_descs(described, tag(described)), data),
                0,
                at,
            )
            &&& is_listed(data, at)
            &&& is_file_named(disk, part, data, at, path, entry, (depth - 1) as nat)
        }
}

/// The sector of the file set descriptor that a walk goes by.
pub open spec fn file_set_sector(disk: Disk, part: u32) -> u64 {
    match disk(ANCHOR_SECTOR) {
        Some(anchor) => match first_location(
            disk,
            sequence_start(anchor),
            sequence_count(anchor),
            0,
        ) {
            Some(location) => partition_sector(part, location),
            None => part as u64,
        },
        None => part as u64,
    }
}

/// A walk that goes well lists the files that are inside the root directory, at any depth, all of
/// them and no others.
pub proof fn law_walk_lists_every_file(disk: Disk, part: u32, depth: nat, entry: EntryModel)
    requires
        walk_volume(disk, part, depth) matches Some(o) && o.error is None,
    ensures
        disk(file_set_sector(disk, part)) is Some,
        walk_volume(disk, part, depth)->0.met.entries.contains(entry) <==> is_file_inside(
            disk,
            part,
            le32(disk(file_set_sector(disk, part))->0, 404),
            seq![],
            entry,
            depth,
        ),
{
    let anchor = disk(ANCHOR_SECTOR)->0;
    lemma_sequence_ends(
        disk,
        part,
        sequence_start(anchor),
        sequence_count(anchor),
        0,
        depth,
    );
    let n = file_set_sector(disk, part);
    lemma_directory_members(
        disk,
        part,
        le32(disk(n)->0, 404),
        seq![],
        nothing_met(),
        depth,
        entry,
    );
}

proof fn lemma_sequence_ends(
    disk: Disk,
    part: u32,
    start: u32,
    count: u32,
    next: int,
    depth: nat,
)
    requires
        walk_sequence(disk, part, start, count, next, depth) matches Some(o) && o.error is None,
    ensures
        ({
            let n = match first_location(disk, start, count, next) {
                Some(location) => partition_sector(part, location),
                None => part as u64,
            };
            let inner = walk_file_set(disk, part, n, depth);
            &&& inner is Some
            &&& inner->0.error is None
            &&& inner->0.met == walk_sequence(disk, part, start, count, next, depth)->0.met
        }),
    decreases count - next,
{
    if next < count {
        let sector = disk(sequence_sector(start, next))->0;
        if tag(sector) != TAG_LOGICAL_VOLUME && tag(sector) != TAG_TERMINATING {
            lemma_sequence_ends(disk, part, start, count, next + 1, depth);
        }
    }
}

proof fn lemma_directory_members(
    disk: Disk,
    part: u32,
    block: u32,
    path: Seq<char>,
    tally: Tally,
    depth: nat,
    entry: EntryModel,
)
    requires
        walk_directory(disk, part, block, path, tally, depth) matches Some(o) && o.error is None,
    ensures
        walk_directory(disk, part, block, path, tally, depth)->0.met.entries.contains(entry)
            <==> tally.entries.contains(entry) || is_file_inside(
            disk,
            part,
            block,
            path,
            entry,
            depth,
        ),
    decreases depth, 0int, 0int,
{
    reveal(walk_directory);
    reveal(walk_identifiers);
    let described = disk(partition_sector(part, block))->0;
    let descs = alloc_descs(described, tag(described));
    if is_file_entry(described) {
        if descs.len() > 0 {
            let data = gathered(disk, part, descs, 0, 0).result->Ok_0;
            let end = listing_end(descs, data);
            lemma_row_members(disk, part, data, end, 0, path, tally, (depth - 1) as nat, entry);
        } else {
            let data = Seq::<u8>::empty();
            assert(gathered(disk, part, descs, 0, 0).result == Ok::<Seq<u8>, UdfError>(data));
            assert(listing_end(descs, data) <= 0);
        }
    }
}

/// Whether `entry` is a file that an identifier names, from `from` on, or one inside a directory
/// that such an identifier names.
spec fn is_file_in_row(
    disk: Disk,
    part: u32,
    data: Seq<u8>,
    end: int,
    from: int,
    path: Seq<char>,
    entry: EntryModel,
    depth: nat,
) -> bool {
    exists|at: int|
        #![trigger is_listed(data, at)]
        {
            &&& stands_in_row(data, end, from, at)
            &&& is_listed(data, at)
            &&& is_file_named(disk, part, data, at, path, entry, depth)
        }
}

/// A file of a row is one that the first identifier leads to, or one of the row behind it.
proof fn lemma_row_unfolds(
    disk: Disk,
    part: u32,
    data: Seq<u8>,
    end: int,
    from: int,
    path: Seq<char>,
    entry: EntryModel,
    depth: nat,
)
    requires
        has_identifier(data, end, from),
    ensures
        is_file_in_row(disk, part, data, end, from, path, entry, depth) <==> (is_listed(data, from)
            && is_file_named(disk, part, data, from, path, entry, depth)) || is_file_in_row(
            disk,
            part,
            data,
            end,
            next_identifier(data, from),
            path,
            entry,
            depth,
        ),
{
    let next = next_identifier(data, from);
    if is_file_in_row(disk, part, data, end, from, path, entry, depth) {
        let at = choose|at: int|
            #![trigger is_listed(data, at)]
            {
                &&& stands_in_row(data, end, from, at)
                &&& is_listed(data, at)
                &&& is_file_named(disk, part, data, at, path, entry, depth)
            };
        if at != from {
            assert(stands_in_row(data, end, next, at));
        }
    }
    if is_file_in_row(disk, part, data, end, next, path, entry, depth) {
        let at = choose|at: int|
            #![trigger is_listed(data, at)]
            {
                &&& stands_in_row(data, end, next, at)
                &&& is_listed(data, at)
                &&& is_file_named(disk, part, data, at, path, entry, depth)
            };
        assert(stands_in_row(data, end, from, at) && is_listed(data, at));
    }
    if is_listed(data, from) && is_file_named(disk, part, data, from, path, entry, depth) {
        assert(stands_in_row(data, end, from, from));
    }
}

proof fn lemma_row_members(
    disk: Disk,
    part: u32,
    data: Seq<u8>,
    end: int,
    at: int,
    path: Seq<char>,
    tally: Tally,
    depth: nat,
    entry: EntryModel,
)
    requires
        walk_identifiers(disk, part, data, end, at, path, tally, depth) matches Some(o)
            && o.error is None,
    ensures
        walk_identifiers(
            disk,
            part,
            data,
            end,
            at,
            path,
            tally,
            depth,
        )->0.met.entries.contains(entry) <==> tally.entries.contains(entry)
            || is_file_in_row(disk, part, data, end, at, path, entry, depth),
    decreases depth, 1int, if at < end { end - at } else { 0 },
{
    reveal(walk_directory);
    reveal(walk_identifiers);
    if has_identifier(data, end, at) {
        let next = next_identifier(data, at);
        let child = child_path(path, identifier_name(data, at));
        let block = identifier_block(data, at);
        lemma_row_unfolds(disk, part, data, end, at, path, entry, depth);
        if !is_listed(data, at) {
            lemma_row_members(disk, part, data, end, next, path, tally, depth, entry);
        } else if is_directory(data, at) {
            let more = Tally { entries: tally.entries, dirs: tally.dirs.wrapping_add(1) };
            lemma_directory_members(disk, part, block, child, more, depth, entry);
            let met = walk_directory(disk, part, block, child, more, depth)->0.met;
            lemma_row_members(disk, part, data, end, next, path, met, depth, entry);
        } else {
            let answer = disk(partition_sector(part, block));
            let met = with_file(tally, part, child, answer);
            lemma_row_members(disk, part, data, end, next, path, met, depth, entry);
            if answer is Some && is_file_entry(answer->0) {
                let file = described_file(part, child, answer->0);
                assert(met.entries.contains(entry) <==> tally.entries.contains(entry) || entry
                    == file) by {
                    if tally.entries.contains(entry) {
                        let i = choose|i: int|
                            0 <= i < tally.entries.len() && tally.entries[i] == entry;
                        assert(met.entries[i] == entry);
                    }
                    assert(met.entries[tally.entries.len() as int] == file);
                }
            }
        }
    }
}

// ---------------------------------------------------------------------------------------------
// Opening and walking
// ---------------------------------------------------------------------------------------------

/// The block of the file set descriptor that the first logical volume descriptor gives, from
/// descriptor `next` of a sequence on.
pub open spec fn first_location(disk: Disk, start: u32, count: u32, next: int) -> Option<u32>
    decreases count - next,
{
    if next >= count {
        None
    } else {
        match disk(sequence_sector(start, next)) {
            None => None,
            Some(sector) => if tag(sector) == TAG_LOGICAL_VOLUME {
                Some(le32(sector, 252))
            } else if tag(sector) == TAG_TERMINATING {
                None
            } else {
                first_location(disk, start, count, next + 1)
            },
        }
    }
}

/// The block of the file set descriptor that the last logical volume descriptor gives, from
/// descriptor `next` of a sequence on; `before` where there is none.
pub open spec fn last_location(
    disk: Disk,
    start: u32,
    count: u32,
    next: int,
    before: Option<u32>,
) -> Option<u32>
    decreases count - next,
{
    if next >= count {
        before
    } else {
        match disk(sequence_sector(start, next)) {
            None => before,
            Some(sector) => if tag(sector) == TAG_LOGICAL_VOLUME {
                last_location(disk, start, count, next + 1, Some(le32(sector, 252)))
            } else if tag(sector) == TAG_TERMINATING {
                before
            } else {
                last_location(disk, start, count, next + 1, before)
            },
        }
    }
}

/// Whether the first logical volume descriptor of a disc, which a walk goes by, and the last, which
/// opening goes by, name the same file set.
pub open spec fn has_one_file_set(disk: Disk) -> bool {
    disk(ANCHOR_SECTOR) matches Some(anchor) && first_location(
        disk,
        sequence_start(anchor),
        sequence_count(anchor),
        0,
    ) == last_location(disk, sequence_start(anchor), sequence_count(anchor), 0, None)
}

/// A walk through an opened volume goes on from the very file set descriptor that opening has
/// checked, where the first and the last logical volume descriptor name the same one.
pub proof fn law_walk_begins_where_opening_ended(disk: Disk, depth: nat)
    requires
        open_volume(disk).result is Ok,
        has_one_file_set(disk),
    ensures
        ({
            let part = open_volume(disk).result->Ok_0.partition_start;
            let checked = open_volume(disk).reads.last();
            &&& disk(checked) is Some
            &&& tag(disk(checked)->0) == TAG_FILE_SET
            &&& exists|reads: Seq<u64>|
                walk_volume(disk, part, depth) == #[trigger] after(
                    reads,
                    walk_file_set(disk, part, checked, depth),
                )
        }),
{
    let anchor = disk(ANCHOR_SECTOR)->0;
    let start = sequence_start(anchor);
    let count = sequence_count(anchor);
    let rest = open_sequence(disk, start, count, 0, nothing_known());
    let part = open_volume(disk).result->Ok_0.partition_start;
    lemma_opened_location(disk, start, count, 0, nothing_known());
    let location = last_location(disk, start, count, 0, None)->0;
    let checked = partition_sector(part, location);
    assert(open_volume(disk).reads.last() == rest.reads.last());
    lemma_walked_location(disk, part, start, count, 0, depth);
    let inner = walk_file_set(disk, part, checked, depth);
    let reads = choose|reads: Seq<u64>|
        walk_sequence(disk, part, start, count, 0, depth) == #[trigger] after(reads, inner);
    lemma_after_after(seq![ANCHOR_SECTOR], reads, inner);
    assert(walk_volume(disk, part, depth) == after(seq![ANCHOR_SECTOR] + reads, inner));
}

proof fn lemma_opened_location(
    disk: Disk,
    start: u32,
    count: u32,
    next: int,
    known: SequenceModel,
)
    requires
        open_sequence(disk, start, count, next, known).result is Ok,
    ensures
        ({
            let outcome = open_sequence(disk, start, count, next, known);
            let location = last_location(disk, start, count, next, known.fsd_location);
            &&& location is Some
            &&& outcome.reads.len() > 0
            &&& outcome.reads.last() == partition_sector(
                outcome.result->Ok_0.partition_start,
                location->0,
            )
            &&& disk(outcome.reads.last()) is Some
            &&& tag(disk(outcome.reads.last())->0) == TAG_FILE_SET
        }),
    decreases count - next,
{
    if next < count {
        let sector = disk(sequence_sector(start, next))->0;
        if tag(sector) != TAG_TERMINATING {
            lemma_opened_location(disk, start, count, next + 1, learned(known, sector));
        }
    }
}

proof fn lemma_walked_location(
    disk: Disk,
    part: u32,
    start: u32,
    count: u32,
    next: int,
    depth: nat,
)
    requires
        first_location(disk, start, count, next) is Some,
    ensures
        ({
            let location = first_location(disk, start, count, next)->0;
            exists|reads: Seq<u64>|
                walk_sequence(disk, part, start, count, next, depth) == #[trigger] after(
                    reads,
                    walk_file_set(disk, part, partition_sector(part, location), depth),
                )
        }),
    decreases count - next,
{
    let n = sequence_sector(start, next);
    let sector = disk(n)->0;
    let location = first_location(disk, start, count, next)->0;
    let inner = walk_file_set(disk, part, partition_sector(part, location), depth);
    if tag(sector) == TAG_LOGICAL_VOLUME {
        assert(walk_sequence(disk, part, start, count, next, depth) == after(seq![n], inner));
    } else {
        lemma_walked_location(disk, part, start, count, next + 1, depth);
        let reads = choose|reads: Seq<u64>|
            walk_sequence(disk, part, start, count, next + 1, depth) == #[trigger] after(
                reads,
                inner,
            );
        lemma_after_after(seq![n], reads, inner);
        assert(walk_sequence(disk, part, start, count, next, depth) == after(
            seq![n] + reads,
            inner,
        ));
    }
}

} // verus!
