//! Listing the files of a UDF volume.
//!
//! A walk goes through the directories of the volume from the root on. Like opening, it is split:
//! [`UdfWalk`] decides which sector comes next and what its contents mean, and whoever holds the
//! image reads.

use super::descriptor::{
    alloc_descs, block_view, fixed_part, is_file_entry, lemma_descs_in_range, parse_file_entry,
    read_dstring, tag, AllocDesc, Disk, FileEntry, ANCHOR_SECTOR, IDENTIFIER_HEAD, MAX_SEQUENCE,
    SECTOR_SIZE, TAG_EXTENDED_FILE_ENTRY, TAG_FILE_ENTRY, TAG_FILE_IDENTIFIER, TAG_LOGICAL_VOLUME,
    TAG_TERMINATING,
};
use super::open::{sector_in_sequence, sequence_extent, sequence_sector, UdfError, UdfReader};
use super::tree::{
    after, described_file, done, entries_view, extent_sectors, gathered, has_identifier,
    identifier_block, identifier_name, is_directory, is_listed, lemma_after_after, listing_end,
    name_end, next_identifier, nothing_met, partition_sector, sums_up, unreadable, walk_directory,
    walk_file_set, walk_identifiers, walk_sequence, walk_volume, with_file, EntryModel, Gathered,
    Tally, UdfEntry, WalkOutcome,
};
use crate::bytes::{le32, ru16, ru32};
use crate::iso::WalkStats;
use crate::text::{child_path, join_path};
use vstd::prelude::*;
use vstd::slice::slice_subrange;

verus! {

/// A directory that the walk is in the middle of.
struct Frame {
    path: String,
    data: Vec<u8>,
    /// Where the identifiers end in the data.
    end: usize,
    /// The identifier that comes next.
    at: usize,
}

/// What a walk keeps between sectors.
struct Listing {
    part: u32,
    /// The open directories, the root first.
    frames: Vec<Frame>,
    entries: Vec<UdfEntry>,
    stats: WalkStats,
}

/// What the sector that a walk waits for is.
enum WalkPhase {
    Anchor,
    Sequence { start: u32, count: u32, next: u32 },
    FileSet { sector: u64 },
    /// The file entry of a directory.
    Directory { block: u32, path: String },
    /// Sector `s` of extent `k` of a directory.
    Content { path: String, descs: Vec<AllocDesc>, k: usize, s: u32, data: Vec<u8> },
    /// The file entry of a file.
    File { block: u32, path: String },
}

/// A walk that waits for a sector.
pub struct UdfWalk {
    listing: Listing,
    phase: WalkPhase,
}

/// What comes of handing a sector to a walk.
pub enum WalkStep {
    /// Another sector is needed.
    Read(UdfWalk),
    /// The walk is over.
    Done { entries: Vec<UdfEntry>, stats: WalkStats },
    /// The walk cannot go on; this is what it has met until here.
    Failed { error: UdfError, entries: Vec<UdfEntry>, stats: WalkStats },
}

/// What the next identifier of a directory leads to.
enum Move {
    /// There is none.
    Leave,
    /// It is not listed.
    Pass,
    /// It is a directory.
    Enter { block: u32, path: String },
    /// It is a file.
    Visit { block: u32, path: String },
}

/// Walking through what is left of open directories, the innermost first. The outermost may hold
/// directories nested `depth` deep, counting itself.
spec fn walk_frames(
    disk: Disk,
    part: u32,
    frames: Seq<Frame>,
    tally: Tally,
    depth: nat,
) -> Option<WalkOutcome>
    decreases frames.len(),
{
    if frames.len() == 0 {
        done(tally)
    } else if depth < frames.len() {
        None
    } else {
        let top = frames.last();
        let inner = walk_identifiers(
            disk,
            part,
            top.data@,
            top.end as int,
            top.at as int,
            top.path@,
            tally,
            (depth - frames.len()) as nat,
        );
        match inner {
            None => None,
            Some(o) => if o.error is Some {
                inner
            } else {
                after(o.reads, walk_frames(disk, part, frames.drop_last(), o.met, depth))
            },
        }
    }
}

/// Going on with what is left of open directories where `inner` ends.
spec fn then_frames(
    disk: Disk,
    part: u32,
    frames: Seq<Frame>,
    inner: Option<WalkOutcome>,
    depth: nat,
) -> Option<WalkOutcome> {
    match inner {
        None => None,
        Some(o) => if o.error is Some {
            inner
        } else {
            after(o.reads, walk_frames(disk, part, frames, o.met, depth))
        },
    }
}

proof fn lemma_then_frames_after(
    disk: Disk,
    part: u32,
    frames: Seq<Frame>,
    reads: Seq<u64>,
    inner: Option<WalkOutcome>,
    depth: nat,
)
    ensures
        then_frames(disk, part, frames, after(reads, inner), depth) == after(
            reads,
            then_frames(disk, part, frames, inner, depth),
        ),
{
    if inner is Some && inner->0.error is None {
        let met = inner->0.met;
        lemma_after_after(
            reads,
            inner->0.reads,
            walk_frames(disk, part, frames, met, depth),
        );
    }
}

impl Listing {
    spec fn tally(self) -> Tally {
        Tally { entries: entries_view(self.entries@), dirs: self.stats.dirs }
    }

    spec fn wf(self) -> bool {
        &&& sums_up(self.stats, self.tally())
        &&& forall|i: int|
            0 <= i < self.frames@.len() ==> (#[trigger] self.frames@[i]).end
                <= self.frames@[i].data.len()
    }

    /// What is left to walk.
    spec fn rest(self, disk: Disk, depth: nat) -> Option<WalkOutcome> {
        walk_frames(disk, self.part, self.frames@, self.tally(), depth)
    }
}

/// Whether `now` is `before` with the innermost directory moved on behind its next identifier.
spec fn moved_on(before: Listing, now: Listing) -> bool {
    let was = before.frames@.last();
    let is = now.frames@.last();
    &&& before.frames@.len() > 0
    &&& now.part == before.part
    &&& now.entries == before.entries
    &&& now.frames@.len() == before.frames@.len()
    &&& now.frames@.drop_last() == before.frames@.drop_last()
    &&& is.data@ == was.data@
    &&& is.path@ == was.path@
    &&& is.end == was.end
    &&& was.at < is.at
    &&& was.at < was.end
    &&& has_identifier(was.data@, was.end as int, was.at as int)
    &&& is.at == next_identifier(was.data@, was.at as int) || {
        &&& is.at >= is.end
        &&& next_identifier(was.data@, was.at as int) >= is.end
    }
}

/// Whether `before` and `now` have the same left to walk.
#[verifier::opaque]
spec fn same_rest(before: Listing, now: Listing) -> bool {
    forall|disk: Disk, depth: nat|
        (#[trigger] before.rest(disk, depth)) is Some ==> before.rest(disk, depth) == now.rest(
            disk,
            depth,
        )
}

/// Whether what `before` has left to walk is the directory at `path` and then the rest of `now`.
#[verifier::opaque]
spec fn enters(before: Listing, now: Listing, block: u32, path: Seq<char>) -> bool {
    forall|disk: Disk, depth: nat|
        (#[trigger] before.rest(disk, depth)) is Some ==> depth >= now.frames@.len()
            && before.rest(disk, depth) == then_frames(
            disk,
            now.part,
            now.frames@,
            walk_directory(
                disk,
                now.part,
                block,
                path,
                now.tally(),
                (depth - now.frames@.len()) as nat,
            ),
            depth,
        )
}

/// Whether what `before` has left to walk is the file at `path` and then the rest of `now`.
#[verifier::opaque]
spec fn visits(before: Listing, now: Listing, block: u32, path: Seq<char>) -> bool {
    forall|disk: Disk, depth: nat|
        (#[trigger] before.rest(disk, depth)) is Some ==> before.rest(disk, depth) == after(
            seq![partition_sector(now.part, block)],
            walk_frames(
                disk,
                now.part,
                now.frames@,
                with_file(
                    now.tally(),
                    now.part,
                    path,
                    disk(partition_sector(now.part, block)),
                ),
                depth,
            ),
        )
}

proof fn lemma_same_place(before: Listing, now: Listing, disk: Disk, tally: Tally, depth: nat)
    requires
        moved_on(before, now),
    ensures
        ({
            let was = before.frames@.last();
            let is = now.frames@.last();
            walk_identifiers(
                disk,
                now.part,
                is.data@,
                is.end as int,
                is.at as int,
                is.path@,
                tally,
                depth,
            ) == walk_identifiers(
                disk,
                before.part,
                was.data@,
                was.end as int,
                next_identifier(was.data@, was.at as int),
                was.path@,
                tally,
                depth,
            )
        }),
{
    reveal(walk_identifiers);
}

proof fn lemma_leave(before: Listing, now: Listing)
    requires
        before.frames@.len() > 0,
        now.part == before.part,
        now.tally() == before.tally(),
        now.frames@ == before.frames@.drop_last(),
        !has_identifier(
            before.frames@.last().data@,
            before.frames@.last().end as int,
            before.frames@.last().at as int,
        ),
    ensures
        same_rest(before, now),
{
    reveal(same_rest);
    reveal(walk_identifiers);
    assert forall|disk: Disk, depth: nat|
        (#[trigger] before.rest(disk, depth)) is Some implies before.rest(disk, depth) == now.rest(
        disk,
        depth,
    ) by {
        lemma_after_after(seq![], seq![], now.rest(disk, depth));
    }
}

proof fn lemma_pass(before: Listing, now: Listing)
    requires
        moved_on(before, now),
        now.tally() == before.tally(),
        !is_listed(before.frames@.last().data@, before.frames@.last().at as int),
    ensures
        same_rest(before, now),
{
    reveal(same_rest);
    reveal(walk_identifiers);
    assert forall|disk: Disk, depth: nat|
        (#[trigger] before.rest(disk, depth)) is Some implies before.rest(disk, depth) == now.rest(
        disk,
        depth,
    ) by {
        lemma_same_place(
            before,
            now,
            disk,
            before.tally(),
            (depth - before.frames@.len()) as nat,
        );
    }
}

proof fn lemma_enter(before: Listing, now: Listing)
    requires
        moved_on(before, now),
        now.tally() == (Tally {
            entries: before.tally().entries,
            dirs: before.tally().dirs.wrapping_add(1),
        }),
        is_listed(before.frames@.last().data@, before.frames@.last().at as int),
        is_directory(before.frames@.last().data@, before.frames@.last().at as int),
    ensures
        enters(
            before,
            now,
            identifier_block(before.frames@.last().data@, before.frames@.last().at as int),
            child_path(
                before.frames@.last().path@,
                identifier_name(before.frames@.last().data@, before.frames@.last().at as int),
            ),
        ),
{
    reveal(enters);
    reveal(walk_identifiers);
    reveal(walk_directory);
    let was = before.frames@.last();
    let block = identifier_block(was.data@, was.at as int);
    let path = child_path(was.path@, identifier_name(was.data@, was.at as int));
    assert forall|disk: Disk, depth: nat| (#[trigger] before.rest(disk, depth)) is Some implies depth
        >= now.frames@.len() && before.rest(disk, depth) == then_frames(
        disk,
        now.part,
        now.frames@,
        walk_directory(
            disk,
            now.part,
            block,
            path,
            now.tally(),
            (depth - now.frames@.len()) as nat,
        ),
        depth,
    ) by {
        let d = (depth - before.frames@.len()) as nat;
        let inner = walk_directory(disk, now.part, block, path, now.tally(), d);
        if inner is Some && inner->0.error is None {
            let met = inner->0.met;
            lemma_same_place(before, now, disk, met, d);
            let rest = walk_identifiers(
                disk,
                before.part,
                was.data@,
                was.end as int,
                next_identifier(was.data@, was.at as int),
                was.path@,
                met,
                d,
            );
            lemma_then_frames_after(
                disk,
                now.part,
                now.frames@.drop_last(),
                inner->0.reads,
                rest,
                depth,
            );
        }
    }
}

proof fn lemma_visit(before: Listing, now: Listing)
    requires
        moved_on(before, now),
        now.tally() == before.tally(),
        is_listed(before.frames@.last().data@, before.frames@.last().at as int),
        !is_directory(before.frames@.last().data@, before.frames@.last().at as int),
    ensures
        visits(
            before,
            now,
            identifier_block(before.frames@.last().data@, before.frames@.last().at as int),
            child_path(
                before.frames@.last().path@,
                identifier_name(before.frames@.last().data@, before.frames@.last().at as int),
            ),
        ),
{
    reveal(visits);
    reveal(walk_identifiers);
    let was = before.frames@.last();
    let block = identifier_block(was.data@, was.at as int);
    let path = child_path(was.path@, identifier_name(was.data@, was.at as int));
    let n = partition_sector(now.part, block);
    assert forall|disk: Disk, depth: nat|
        (#[trigger] before.rest(disk, depth)) is Some implies before.rest(disk, depth) == after(
        seq![n],
        walk_frames(
            disk,
            now.part,
            now.frames@,
            with_file(now.tally(), now.part, path, disk(n)),
            depth,
        ),
    ) by {
        let d = (depth - before.frames@.len()) as nat;
        let met = with_file(now.tally(), now.part, path, disk(n));
        lemma_same_place(before, now, disk, met, d);
        let rest = walk_identifiers(
            disk,
            before.part,
            was.data@,
            was.end as int,
            next_identifier(was.data@, was.at as int),
            was.path@,
            met,
            d,
        );
        lemma_then_frames_after(disk, now.part, now.frames@.drop_last(), seq![n], rest, depth);
    }
}

impl Listing {
    /// Looks at the next identifier of the innermost directory.
    fn advance(&mut self) -> (m: Move)
        requires
            old(self).wf(),
            old(self).frames@.len() > 0,
        ensures
            final(self).wf(),
            final(self).part == old(self).part,
            match m {
                Move::Leave => {
                    &&& final(self).frames@ == old(self).frames@.drop_last()
                    &&& same_rest(*old(self), *final(self))
                },
                Move::Pass => {
                    &&& moved_on(*old(self), *final(self))
                    &&& same_rest(*old(self), *final(self))
                },
                Move::Enter { block, path } => enters(*old(self), *final(self), block, path@),
                Move::Visit { block, path } => visits(*old(self), *final(self), block, path@),
            },
    {
        let ghost before = *self;
        let mut top: Frame = match self.frames.pop() {
            Some(frame) => frame,
            None => {
                return Move::Leave;
            },
        };
        assert(self.frames@ == before.frames@.drop_last());
        assert(top == before.frames@.last());
        let ghost data = top.data@;
        let at: usize = top.at;
        let end: usize = top.end;
        if end <= IDENTIFIER_HEAD || at >= end - IDENTIFIER_HEAD || ru16(&top.data, at)
            != TAG_FILE_IDENTIFIER {
            proof {
                lemma_leave(before, *self);
            }
            return Move::Leave;
        }
        let flags: u8 = top.data[at + 18];
        let name_len: usize = top.data[at + 19] as usize;
        let use_len: usize = ru16(&top.data, at + 36) as usize;
        let rest_len: usize = top.data.len() - at;
        let size: usize = IDENTIFIER_HEAD + use_len + name_len;
        let padded: usize = (size + 3) / 4 * 4;
        let listed: bool = flags & 0x08 == 0 && flags & 0x20 == 0 && size <= rest_len;
        let name: String = if listed {
            read_dstring(slice_subrange(&top.data, at + IDENTIFIER_HEAD + use_len, at + size))
        } else {
            String::new()
        };
        let block: u32 = ru32(&top.data, at + 24);
        let child: String = join_path(&top.path, &name);
        assert(name_end(data, at as int) == at + size);
        assert(next_identifier(data, at as int) == at + padded);
        top.at = if padded < end - at {
            at + padded
        } else {
            end
        };
        self.frames.push(top);
        assert(self.frames@.drop_last() == before.frames@.drop_last());
        if name.as_str().is_empty() {
            proof {
                lemma_pass(before, *self);
            }
            Move::Pass
        } else if flags & 0x02 != 0 {
            self.stats.dirs = self.stats.dirs.wrapping_add(1);
            proof {
                lemma_enter(before, *self);
            }
            Move::Enter { block, path: child }
        } else {
            proof {
                lemma_visit(before, *self);
            }
            Move::Visit { block, path: child }
        }
    }
}

impl WalkStep {
    /// How the walk ends from here on, where each sector reads as `disk` has it and directories
    /// are nested at most `depth` deep.
    pub open spec fn outcome(self, disk: Disk, depth: nat) -> Option<WalkOutcome> {
        match self {
            WalkStep::Read(walk) => walk.outcome(disk, depth),
            WalkStep::Done { entries, stats } => done(
                Tally { entries: entries_view(entries@), dirs: stats.dirs },
            ),
            WalkStep::Failed { error, entries, stats } => Some(
                WalkOutcome {
                    met: Tally { entries: entries_view(entries@), dirs: stats.dirs },
                    error: Some(error),
                    reads: seq![],
                },
            ),
        }
    }

    /// Whether a walk that goes on has a sector to wait for, and one that is over sums up the files
    /// that it met.
    pub open spec fn wf(self) -> bool {
        match self {
            WalkStep::Read(walk) => walk.wf(),
            WalkStep::Done { entries, stats } => sums_up(
                stats,
                Tally { entries: entries_view(entries@), dirs: stats.dirs },
            ),
            WalkStep::Failed { entries, stats, .. } => sums_up(
                stats,
                Tally { entries: entries_view(entries@), dirs: stats.dirs },
            ),
        }
    }
}

impl UdfWalk {
    /// How the walk ends from here on, where each sector reads as `disk` has it and directories
    /// are nested at most `depth` deep.
    pub closed spec fn outcome(self, disk: Disk, depth: nat) -> Option<WalkOutcome> {
        let part = self.listing.part;
        let frames = self.listing.frames@;
        let tally = self.listing.tally();
        match self.phase {
            WalkPhase::Anchor => walk_volume(disk, part, depth),
            WalkPhase::Sequence { start, count, next } => walk_sequence(
                disk,
                part,
                start,
                count,
                next as int,
                depth,
            ),
            WalkPhase::FileSet { sector } => walk_file_set(disk, part, sector, depth),
            WalkPhase::Directory { block, path } => if depth < frames.len() {
                None
            } else {
                then_frames(
                    disk,
                    part,
                    frames,
                    walk_directory(
                        disk,
                        part,
                        block,
                        path@,
                        tally,
                        (depth - frames.len()) as nat,
                    ),
                    depth,
                )
            },
            WalkPhase::Content { path, descs, k, s, data } => if depth <= frames.len() {
                None
            } else {
                then_frames(
                    disk,
                    part,
                    frames,
                    walk_content(
                        disk,
                        part,
                        descs@,
                        gathered(disk, part, descs@, k as int, s as int),
                        data@,
                        path@,
                        tally,
                        (depth - frames.len() - 1) as nat,
                    ),
                    depth,
                )
            },
            WalkPhase::File { block, path } => after(
                seq![partition_sector(part, block)],
                walk_frames(
                    disk,
                    part,
                    frames,
                    with_file(tally, part, path@, disk(partition_sector(part, block))),
                    depth,
                ),
            ),
        }
    }

    /// Whether there is a sector to wait for.
    #[verifier::type_invariant]
    pub closed spec fn wf(self) -> bool {
        &&& self.listing.wf()
        &&& match self.phase {
            WalkPhase::Sequence { count, next, .. } => next < count <= MAX_SEQUENCE
                && self.listing.is_fresh(),
            WalkPhase::Anchor => self.listing.is_fresh(),
            WalkPhase::FileSet { .. } => self.listing.is_fresh(),
            WalkPhase::Content { descs, k, s, .. } => {
                &&& k < descs@.len()
                &&& s < extent_sectors(descs@[k as int])
                &&& forall|i: int|
                    0 <= i < descs@.len() ==> 0 < (#[trigger] descs@[i]).length < 0x4000_0000
            },
            _ => true,
        }
    }

    /// The sector that is waited for.
    pub closed spec fn wanted(self) -> u64 {
        let part = self.listing.part;
        match self.phase {
            WalkPhase::Anchor => ANCHOR_SECTOR,
            WalkPhase::Sequence { start, next, .. } => sequence_sector(start, next as int),
            WalkPhase::FileSet { sector } => sector,
            WalkPhase::Directory { block, .. } => partition_sector(part, block),
            WalkPhase::Content { descs, k, s, .. } => (partition_sector(
                part,
                descs@[k as int].location,
            ) + s) as u64,
            WalkPhase::File { block, .. } => partition_sector(part, block),
        }
    }

    /// Whether `step` is what the walk comes to when the sector it waits for reads as `answer`:
    /// on any disc where that is so, and where the walk ends, the sector is the next to be read
    /// and all that follows is as it was bound to be.
    pub open spec fn goes_on(self, answer: Option<Seq<u8>>, step: WalkStep) -> bool {
        forall|disk: Disk, depth: nat|
            disk(self.wanted()) == answer && (#[trigger] self.outcome(disk, depth)) is Some
                ==> self.outcome(disk, depth) == after(
                seq![self.wanted()],
                step.outcome(disk, depth),
            )
    }

    /// Tells which sector to read next.
    pub fn sector(&self) -> (r: u64)
        ensures
            r == self.wanted(),
            forall|disk: Disk, depth: nat|
                (#[trigger] self.outcome(disk, depth)) matches Some(o) ==> o.reads.len() > 0
                    && o.reads[0] == r,
    {
        proof {
            use_type_invariant(self);
            assert forall|disk: Disk, depth: nat|
                (#[trigger] self.outcome(disk, depth)) is Some implies self.outcome(
                disk,
                depth,
            )->0.reads.len() > 0 && self.outcome(disk, depth)->0.reads[0] == self.wanted() by {
                lemma_walk_reads_what_it_wants(*self, disk, depth);
            }
        }
        let part: u64 = self.listing.part as u64;
        match &self.phase {
            WalkPhase::Anchor => ANCHOR_SECTOR,
            WalkPhase::Sequence { start, next, .. } => sector_in_sequence(*start, *next),
            WalkPhase::FileSet { sector } => *sector,
            WalkPhase::Directory { block, .. } => part + *block as u64,
            WalkPhase::Content { descs, k, s, .. } => part + descs[*k].location as u64 + *s as u64,
            WalkPhase::File { block, .. } => part + *block as u64,
        }
    }
}

/// Walking through the directory at `path` whose data is `data` and what `content` adds to it.
spec fn walk_content(
    disk: Disk,
    part: u32,
    descs: Seq<AllocDesc>,
    content: Gathered,
    data: Seq<u8>,
    path: Seq<char>,
    tally: Tally,
    depth: nat,
) -> Option<WalkOutcome> {
    match content.result {
        Err(e) => Some(WalkOutcome { met: tally, error: Some(e), reads: content.reads }),
        Ok(more) => after(
            content.reads,
            walk_identifiers(
                disk,
                part,
                data + more,
                listing_end(descs, data + more),
                0,
                path,
                tally,
                depth,
            ),
        ),
    }
}

/// Whether `step` is what going on with `listing` comes to.
#[verifier::opaque]
spec fn resumes_as(listing: Listing, step: WalkStep) -> bool {
    forall|disk: Disk, depth: nat|
        (#[trigger] listing.rest(disk, depth)) is Some ==> listing.rest(disk, depth)
            == step.outcome(disk, depth)
}

proof fn lemma_same_rest_chain(first: Listing, second: Listing, third: Listing)
    requires
        same_rest(first, second),
        same_rest(second, third),
    ensures
        same_rest(first, third),
{
    reveal(same_rest);
}

proof fn lemma_resumes_in_directory(start: Listing, before: Listing, walk: UdfWalk)
    requires
        same_rest(start, before),
        walk.phase matches WalkPhase::Directory { block, path } && enters(
            before,
            walk.listing,
            block,
            path@,
        ),
    ensures
        resumes_as(start, WalkStep::Read(walk)),
{
    reveal(same_rest);
    reveal(enters);
    reveal(resumes_as);
}

proof fn lemma_resumes_at_file(start: Listing, before: Listing, walk: UdfWalk)
    requires
        same_rest(start, before),
        walk.phase matches WalkPhase::File { block, path } && visits(
            before,
            walk.listing,
            block,
            path@,
        ),
    ensures
        resumes_as(start, WalkStep::Read(walk)),
{
    reveal(same_rest);
    reveal(visits);
    reveal(resumes_as);
}

impl Listing {
    /// Whether nothing has been met yet.
    spec fn is_fresh(self) -> bool {
        &&& self.frames@.len() == 0
        &&& self.tally() == nothing_met()
    }

    /// Goes on until a sector is needed.
    fn resume(self) -> (step: WalkStep)
        requires
            self.wf(),
        ensures
            step.wf(),
            resumes_as(self, step),
    {
        let ghost start = self;
        let mut listing: Listing = self;
        assert(same_rest(start, listing)) by {
            reveal(same_rest);
        }
        while listing.frames.len() > 0
            invariant
                start == self,
                listing.wf(),
                same_rest(start, listing),
            decreases
                    listing.frames@.len(),
                    (if listing.frames@.last().at < listing.frames@.last().end {
                        listing.frames@.last().end - listing.frames@.last().at
                    } else {
                        0
                    }),
        {
            let ghost before = listing;
            match listing.advance() {
                Move::Leave => {
                    proof {
                        lemma_same_rest_chain(start, before, listing);
                    }
                },
                Move::Pass => {
                    proof {
                        lemma_same_rest_chain(start, before, listing);
                    }
                },
                Move::Enter { block, path } => {
                    let walk = UdfWalk { listing, phase: WalkPhase::Directory { block, path } };
                    proof {
                        lemma_resumes_in_directory(start, before, walk);
                    }
                    return WalkStep::Read(walk);
                },
                Move::Visit { block, path } => {
                    let walk = UdfWalk { listing, phase: WalkPhase::File { block, path } };
                    proof {
                        lemma_resumes_at_file(start, before, walk);
                    }
                    return WalkStep::Read(walk);
                },
            }
        }
        proof {
            reveal(same_rest);
            reveal(resumes_as);
        }
        WalkStep::Done { entries: listing.entries, stats: listing.stats }
    }
}

impl UdfReader {
    /// Begins to walk through the files of the volume.
    pub fn walk(&self) -> (walk: UdfWalk)
        ensures
            walk.wf(),
            walk.wanted() == ANCHOR_SECTOR,
            forall|disk: Disk, depth: nat| #[trigger]
                walk.outcome(disk, depth) == walk_volume(disk, self@.partition_start, depth),
    {
        let listing = Listing {
            part: self.partition_start(),
            frames: Vec::new(),
            entries: Vec::new(),
            stats: WalkStats::default(),
        };
        assert(listing.tally().entries == Seq::<EntryModel>::empty());
        UdfWalk { listing, phase: WalkPhase::Anchor }
    }
}

impl UdfWalk {
    /// Takes the sector that was waited for, or none where it cannot be read, and goes on.
    pub fn supply(self, block: Option<Vec<u8>>) -> (step: WalkStep)
        requires
            block matches Some(bytes) ==> bytes.len() == 2048,
        ensures
            step.wf(),
            self.goes_on(block_view(block), step),
    {
        proof {
            use_type_invariant(&self);
        }
        match self.phase {
            WalkPhase::Anchor => self.listing.take_anchor(block),
            WalkPhase::Sequence { start, count, next } => self.listing.take_sequence(
                block,
                start,
                count,
                next,
            ),
            WalkPhase::FileSet { sector } => self.listing.take_file_set(block, sector),
            WalkPhase::Directory { block: b, path } => self.listing.take_directory(block, b, path),
            WalkPhase::Content { path, descs, k, s, data } => self.listing.take_content(
                block,
                path,
                descs,
                k,
                s,
                data,
            ),
            WalkPhase::File { block: b, path } => self.listing.take_file(block, b, path),
        }
    }
}

impl Listing {
    /// Ends because `sector` cannot be read.
    fn fail(self, sector: u64) -> (step: WalkStep)
        requires
            self.wf(),
        ensures
            step.wf(),
            forall|disk: Disk, depth: nat|
                after(seq![sector], #[trigger] step.outcome(disk, depth)) == unreadable(
                    self.tally(),
                    sector,
                ),
    {
        let error = UdfError::Unreadable { sector };
        assert(seq![sector] + Seq::<u64>::empty() == seq![sector]);
        WalkStep::Failed { error, entries: self.entries, stats: self.stats }
    }

    /// Goes on from the anchor.
    fn take_anchor(self, block: Option<Vec<u8>>) -> (step: WalkStep)
        requires
            self.wf(),
            self.is_fresh(),
            block matches Some(bytes) ==> bytes.len() == 2048,
        ensures
            step.wf(),
            (UdfWalk { listing: self, phase: WalkPhase::Anchor }).goes_on(block_view(block), step),
    {
        let ghost before = UdfWalk { listing: self, phase: WalkPhase::Anchor };
        let anchor: Vec<u8> = match block {
            Some(bytes) => bytes,
            None => {
                return self.fail(ANCHOR_SECTOR);
            },
        };
        let (start, count) = sequence_extent(&anchor);
        let phase: WalkPhase = if count == 0 {
            WalkPhase::FileSet { sector: self.part as u64 }
        } else {
            WalkPhase::Sequence { start, count, next: 0 }
        };
        let walk = UdfWalk { listing: self, phase };
        assert forall|disk: Disk, depth: nat|
            disk(ANCHOR_SECTOR) == Some(anchor@) implies (#[trigger] before.outcome(disk, depth))
            == after(seq![ANCHOR_SECTOR], walk.outcome(disk, depth)) by {
            assert(walk.outcome(disk, depth) == walk_sequence(
                disk,
                self.part,
                start,
                count,
                0,
                depth,
            ));
        }
        WalkStep::Read(walk)
    }

    /// Goes on from a descriptor of the descriptor sequence.
    fn take_sequence(self, block: Option<Vec<u8>>, start: u32, count: u32, next: u32) -> (step:
        WalkStep)
        requires
            self.wf(),
            self.is_fresh(),
            next < count <= MAX_SEQUENCE,
            block matches Some(bytes) ==> bytes.len() == 2048,
        ensures
            step.wf(),
            (UdfWalk {
                listing: self,
                phase: WalkPhase::Sequence { start, count, next },
            }).goes_on(block_view(block), step),
    {
        let ghost before = UdfWalk {
            listing: self,
            phase: WalkPhase::Sequence { start, count, next },
        };
        let wanted: u64 = sector_in_sequence(start, next);
        let descriptor: Vec<u8> = match block {
            Some(bytes) => bytes,
            None => {
                return self.fail(wanted);
            },
        };
        let kind: u16 = ru16(&descriptor, 0);
        if kind == TAG_LOGICAL_VOLUME {
            let sector: u64 = self.part as u64 + ru32(&descriptor, 252) as u64;
            WalkStep::Read(UdfWalk { listing: self, phase: WalkPhase::FileSet { sector } })
        } else if kind == TAG_TERMINATING {
            let sector: u64 = self.part as u64;
            WalkStep::Read(UdfWalk { listing: self, phase: WalkPhase::FileSet { sector } })
        } else if next + 1 < count {
            WalkStep::Read(
                UdfWalk {
                    listing: self,
                    phase: WalkPhase::Sequence { start, count, next: next + 1 },
                },
            )
        } else {
            let sector: u64 = self.part as u64;
            let step = WalkStep::Read(
                UdfWalk { listing: self, phase: WalkPhase::FileSet { sector } },
            );
            assert forall|disk: Disk, depth: nat|
                disk(wanted) == Some(descriptor@) implies (#[trigger] before.outcome(disk, depth))
                == after(seq![wanted], step.outcome(disk, depth)) by {
                assert(walk_sequence(disk, before.listing.part, start, count, next + 1, depth)
                    == walk_file_set(disk, before.listing.part, sector, depth));
            }
            step
        }
    }

    /// Goes on from the file set descriptor.
    fn take_file_set(self, block: Option<Vec<u8>>, sector: u64) -> (step: WalkStep)
        requires
            self.wf(),
            self.is_fresh(),
            block matches Some(bytes) ==> bytes.len() == 2048,
        ensures
            step.wf(),
            (UdfWalk { listing: self, phase: WalkPhase::FileSet { sector } }).goes_on(
                block_view(block),
                step,
            ),
    {
        let ghost before = UdfWalk { listing: self, phase: WalkPhase::FileSet { sector } };
        let descriptor: Vec<u8> = match block {
            Some(bytes) => bytes,
            None => {
                return self.fail(sector);
            },
        };
        let root: u32 = ru32(&descriptor, 404);
        let step = WalkStep::Read(
            UdfWalk {
                listing: self,
                phase: WalkPhase::Directory { block: root, path: String::new() },
            },
        );
        assert forall|disk: Disk, depth: nat|
            disk(sector) == Some(descriptor@) implies (#[trigger] before.outcome(disk, depth))
            == after(seq![sector], step.outcome(disk, depth)) by {
            let inner = walk_directory(
                disk,
                self.part,
                root,
                seq![],
                nothing_met(),
                depth,
            );
            lemma_then_no_frames(disk, self.part, self.frames@, inner, depth);
        }
        step
    }

    /// Goes on from the file entry of a directory.
    fn take_directory(self, block: Option<Vec<u8>>, at: u32, path: String) -> (step: WalkStep)
        requires
            self.wf(),
            block matches Some(bytes) ==> bytes.len() == 2048,
        ensures
            step.wf(),
            (UdfWalk { listing: self, phase: WalkPhase::Directory { block: at, path } }).goes_on(
                block_view(block),
                step,
            ),
    {
        let ghost before = UdfWalk {
            listing: self,
            phase: WalkPhase::Directory { block: at, path },
        };
        let ghost frames = self.frames@;
        let sector: u64 = self.part as u64 + at as u64;
        let entry: Vec<u8> = match block {
            Some(bytes) => bytes,
            None => {
                let step = self.fail(sector);
                assert(before.goes_on(None, step)) by {
                    reveal(walk_directory);
                }
                return step;
            },
        };
        let kind: u16 = ru16(&entry, 0);
        let descs: Vec<AllocDesc> = if kind == TAG_FILE_ENTRY || kind == TAG_EXTENDED_FILE_ENTRY {
            parse_file_entry(&entry, kind).alloc_descs
        } else {
            Vec::new()
        };
        if descs.len() == 0 {
            let step = self.resume();
            assert forall|disk: Disk, depth: nat|
                disk(sector) == Some(entry@) && (#[trigger] before.outcome(disk, depth)) is Some
                implies before.outcome(disk, depth) == after(
                seq![sector],
                step.outcome(disk, depth),
            ) by {
                reveal(walk_directory);
                reveal(resumes_as);
                assert(self.rest(disk, depth) is Some);
                assert(seq![sector] + Seq::<u64>::empty() == seq![sector]);
            }
            return step;
        }
        proof {
            let start = fixed_part(kind) + le32(
                entry@,
                fixed_part(kind) - 8,
            );
            lemma_descs_in_range(
                entry@,
                start,
                start + le32(entry@, fixed_part(kind) - 4),
            );
        }
        let walk = UdfWalk {
            listing: self,
            phase: WalkPhase::Content { path, descs, k: 0, s: 0, data: Vec::new() },
        };
        assert forall|disk: Disk, depth: nat|
            disk(sector) == Some(entry@) && (#[trigger] before.outcome(disk, depth)) is Some
            implies before.outcome(disk, depth) == after(
            seq![sector],
            walk.outcome(disk, depth),
        ) by {
            lemma_directory_content(
                disk,
                self.part,
                at,
                path@,
                self.tally(),
                (depth - frames.len()) as nat,
                entry@,
            );
            lemma_then_frames_after(
                disk,
                self.part,
                frames,
                seq![sector],
                walk_content(
                    disk,
                    self.part,
                    descs@,
                    gathered(disk, self.part, descs@, 0, 0),
                    seq![],
                    path@,
                    self.tally(),
                    (depth - frames.len() - 1) as nat,
                ),
                depth,
            );
        }
        WalkStep::Read(walk)
    }

    /// Goes on from a sector of a directory.
    fn take_content(
        self,
        block: Option<Vec<u8>>,
        path: String,
        descs: Vec<AllocDesc>,
        k: usize,
        s: u32,
        data: Vec<u8>,
    ) -> (step: WalkStep)
        requires
            (UdfWalk {
                listing: self,
                phase: WalkPhase::Content { path, descs, k, s, data },
            }).wf(),
            block matches Some(bytes) ==> bytes.len() == 2048,
        ensures
            step.wf(),
            (UdfWalk {
                listing: self,
                phase: WalkPhase::Content { path, descs, k, s, data },
            }).goes_on(block_view(block), step),
    {
        let ghost before = UdfWalk {
            listing: self,
            phase: WalkPhase::Content { path, descs, k, s, data },
        };
        let sector: u64 = self.part as u64 + descs[k].location as u64 + s as u64;
        let mut bytes: Vec<u8> = match block {
            Some(bytes) => bytes,
            None => {
                return self.fail(sector);
            },
        };
        let ghost added = bytes@;
        let mut data: Vec<u8> = data;
        data.append(&mut bytes);
        let extent: u32 = (descs[k].length + 2047) / 2048;
        assert(k < descs.len());
        let (next_k, next_s): (usize, u32) = if s + 1 < extent {
            (k, s + 1)
        } else {
            (k + 1, 0)
        };
        if next_k < descs.len() {
            let walk = UdfWalk {
                listing: self,
                phase: WalkPhase::Content { path, descs, k: next_k, s: next_s, data },
            };
            proof {
                lemma_content_continued(before, added, walk);
            }
            return WalkStep::Read(walk);
        }
        let length: usize = descs[0].length as usize;
        let end: usize = if length <= data.len() {
            length
        } else {
            data.len()
        };
        let mut listing: Listing = self;
        listing.frames.push(Frame { path, data, end, at: 0 });
        let ghost inside = listing;
        assert(inside.frames@.drop_last() == before.listing.frames@);
        let step = listing.resume();
        proof {
            lemma_content_read(before, added, data@, inside, step);
        }
        step
    }

    /// Goes on from the file entry of a file.
    fn take_file(self, block: Option<Vec<u8>>, at: u32, path: String) -> (step: WalkStep)
        requires
            self.wf(),
            block matches Some(bytes) ==> bytes.len() == 2048,
        ensures
            step.wf(),
            (UdfWalk { listing: self, phase: WalkPhase::File { block: at, path } }).goes_on(
                block_view(block),
                step,
            ),
    {
        let ghost before = UdfWalk { listing: self, phase: WalkPhase::File { block: at, path } };
        let ghost answer = block_view(block);
        let mut listing: Listing = self;
        if let Some(entry) = block {
            let kind: u16 = ru16(&entry, 0);
            if kind == TAG_FILE_ENTRY || kind == TAG_EXTENDED_FILE_ENTRY {
                listing.add_file(path, &entry, kind);
            }
        }
        let ghost now = listing;
        let step = listing.resume();
        proof {
            lemma_file_looked_at(before, answer, now, step);
        }
        step
    }

    /// Takes in a file.
    fn add_file(&mut self, path: String, entry: &[u8], kind: u16)
        requires
            old(self).wf(),
            entry.len() == 2048,
            kind == tag(entry@),
        ensures
            final(self).wf(),
            final(self).part == old(self).part,
            final(self).frames == old(self).frames,
            final(self).tally() == (Tally {
                entries: old(self).tally().entries.push(
                    described_file(old(self).part, path@, entry@),
                ),
                dirs: old(self).tally().dirs,
            }),
    {
        let described: FileEntry = parse_file_entry(entry, kind);
        let data_offset: u64 = if described.alloc_descs.len() > 0 {
            (self.part as u64 + described.alloc_descs[0].location as u64) * SECTOR_SIZE
        } else {
            0
        };
        let file = UdfEntry {
            path,
            size: described.info_len,
            is_dir: false,
            modified: described.modified,
            data_offset,
        };
        let ghost met = entries_view(self.entries@);
        assert(entries_view(self.entries@.push(file)) == met.push(file@));
        assert(met.push(file@).drop_last() == met);
        self.entries.push(file);
        assert(self.entries@.len() == self.entries.len());
        self.stats.files = self.stats.files.wrapping_add(1);
        self.stats.total_size = self.stats.total_size.wrapping_add(described.info_len);
    }
}

proof fn lemma_file_looked_at(
    before: UdfWalk,
    answer: Option<Seq<u8>>,
    now: Listing,
    step: WalkStep,
)
    requires
        before.phase matches WalkPhase::File { path, .. } && now.tally() == with_file(
            before.listing.tally(),
            before.listing.part,
            path@,
            answer,
        ),
        now.part == before.listing.part,
        now.frames@ == before.listing.frames@,
        resumes_as(now, step),
    ensures
        before.goes_on(answer, step),
{
    reveal(resumes_as);
    assert forall|disk: Disk, depth: nat|
        disk(before.wanted()) == answer && (#[trigger] before.outcome(disk, depth)) is Some
        implies before.outcome(disk, depth) == after(
        seq![before.wanted()],
        step.outcome(disk, depth),
    ) by {
        assert(now.rest(disk, depth) is Some);
    }
}

/// What is left of a walk in the middle of reading a directory.
spec fn content_rest(
    listing: Listing,
    disk: Disk,
    descs: Seq<AllocDesc>,
    k: int,
    s: int,
    data: Seq<u8>,
    path: Seq<char>,
    depth: nat,
) -> Option<WalkOutcome> {
    then_frames(
        disk,
        listing.part,
        listing.frames@,
        walk_content(
            disk,
            listing.part,
            descs,
            gathered(disk, listing.part, descs, k, s),
            data,
            path,
            listing.tally(),
            (depth - listing.frames@.len() - 1) as nat,
        ),
        depth,
    )
}

proof fn lemma_content_rest(
    listing: Listing,
    disk: Disk,
    descs: Seq<AllocDesc>,
    k: int,
    s: int,
    next_k: int,
    next_s: int,
    data: Seq<u8>,
    sector: Seq<u8>,
    path: Seq<char>,
    depth: nat,
)
    requires
        0 <= k < descs.len(),
        0 <= s < extent_sectors(descs[k]),
        disk((partition_sector(listing.part, descs[k].location) + s) as u64) == Some(sector),
        (next_k, next_s) == if s + 1 < extent_sectors(descs[k]) {
            (k, s + 1)
        } else {
            (k + 1, 0int)
        },
    ensures
        content_rest(listing, disk, descs, k, s, data, path, depth) == after(
            seq![(partition_sector(listing.part, descs[k].location) + s) as u64],
            content_rest(listing, disk, descs, next_k, next_s, data + sector, path, depth),
        ),
{
    let d = (depth - listing.frames@.len() - 1) as nat;
    lemma_content_step(
        disk,
        listing.part,
        descs,
        k,
        s,
        next_k,
        next_s,
        data,
        sector,
        path,
        listing.tally(),
        d,
    );
    lemma_then_frames_after(
        disk,
        listing.part,
        listing.frames@,
        seq![(partition_sector(listing.part, descs[k].location) + s) as u64],
        walk_content(
            disk,
            listing.part,
            descs,
            gathered(disk, listing.part, descs, next_k, next_s),
            data + sector,
            path,
            listing.tally(),
            d,
        ),
        depth,
    );
}

proof fn lemma_content_continued(before: UdfWalk, sector: Seq<u8>, walk: UdfWalk)
    requires
        before.wf(),
        before.phase is Content,
        walk.phase is Content,
        walk.listing == before.listing,
        walk.phase->Content_path@ == before.phase->Content_path@,
        walk.phase->descs@ == before.phase->descs@,
        walk.phase->data@ == before.phase->data@ + sector,
        (walk.phase->k as int, walk.phase->s as int) == if before.phase->s + 1 < extent_sectors(
            before.phase->descs@[before.phase->k as int],
        ) {
            (before.phase->k as int, before.phase->s + 1)
        } else {
            (before.phase->k + 1, 0int)
        },
    ensures
        before.goes_on(Some(sector), WalkStep::Read(walk)),
{
    assert forall|disk: Disk, depth: nat|
        disk(before.wanted()) == Some(sector) && (#[trigger] before.outcome(disk, depth)) is Some
        implies before.outcome(disk, depth) == after(
        seq![before.wanted()],
        walk.outcome(disk, depth),
    ) by {
        lemma_content_rest(
            before.listing,
            disk,
            before.phase->descs@,
            before.phase->k as int,
            before.phase->s as int,
            walk.phase->k as int,
            walk.phase->s as int,
            before.phase->data@,
            sector,
            before.phase->Content_path@,
            depth,
        );
    }
}

proof fn lemma_content_read(
    before: UdfWalk,
    sector: Seq<u8>,
    data: Seq<u8>,
    inside: Listing,
    step: WalkStep,
)
    requires
        before.wf(),
        before.phase is Content,
        data == before.phase->data@ + sector,
        before.phase->k + 1 == before.phase->descs@.len(),
        before.phase->s + 1 >= extent_sectors(before.phase->descs@[before.phase->k as int]),
        inside.part == before.listing.part,
        inside.tally() == before.listing.tally(),
        inside.frames@.len() == before.listing.frames@.len() + 1,
        inside.frames@.drop_last() == before.listing.frames@,
        inside.frames@.last().data@ == data,
        inside.frames@.last().path@ == before.phase->Content_path@,
        inside.frames@.last().end == listing_end(before.phase->descs@, data),
        inside.frames@.last().at == 0,
        resumes_as(inside, step),
    ensures
        before.goes_on(Some(sector), step),
{
    reveal(resumes_as);
    let descs = before.phase->descs@;
    let k = before.phase->k as int;
    let path = before.phase->Content_path@;
    assert forall|disk: Disk, depth: nat|
        disk(before.wanted()) == Some(sector) && (#[trigger] before.outcome(disk, depth)) is Some
        implies before.outcome(disk, depth) == after(
        seq![before.wanted()],
        step.outcome(disk, depth),
    ) by {
        lemma_content_rest(
            before.listing,
            disk,
            descs,
            k,
            before.phase->s as int,
            k + 1,
            0,
            before.phase->data@,
            sector,
            path,
            depth,
        );
        lemma_content_whole(
            disk,
            before.listing.part,
            descs,
            k + 1,
            0,
            data,
            path,
            before.listing.tally(),
            (depth - before.listing.frames@.len() - 1) as nat,
        );
        assert(inside.rest(disk, depth) == content_rest(
            before.listing,
            disk,
            descs,
            k + 1,
            0,
            data,
            path,
            depth,
        ));
        assert(inside.rest(disk, depth) is Some);
    }
}

/// Reading one more sector of a directory.
proof fn lemma_content_step(
    disk: Disk,
    part: u32,
    descs: Seq<AllocDesc>,
    k: int,
    s: int,
    next_k: int,
    next_s: int,
    data: Seq<u8>,
    sector: Seq<u8>,
    path: Seq<char>,
    tally: Tally,
    depth: nat,
)
    requires
        0 <= k < descs.len(),
        0 <= s < extent_sectors(descs[k]),
        disk((partition_sector(part, descs[k].location) + s) as u64) == Some(sector),
        (next_k, next_s) == if s + 1 < extent_sectors(descs[k]) {
            (k, s + 1)
        } else {
            (k + 1, 0int)
        },
    ensures
        walk_content(
            disk,
            part,
            descs,
            gathered(disk, part, descs, k, s),
            data,
            path,
            tally,
            depth,
        ) == after(
            seq![(partition_sector(part, descs[k].location) + s) as u64],
            walk_content(
                disk,
                part,
                descs,
                gathered(disk, part, descs, next_k, next_s),
                data + sector,
                path,
                tally,
                depth,
            ),
        ),
{
    let n = (partition_sector(part, descs[k].location) + s) as u64;
    let rest = gathered(disk, part, descs, k, s + 1);
    assert(rest == gathered(disk, part, descs, next_k, next_s));
    match rest.result {
        Ok(more) => {
            assert(data + (sector + more) == (data + sector) + more);
            lemma_after_after(
                seq![n],
                rest.reads,
                walk_identifiers(
                    disk,
                    part,
                    (data + sector) + more,
                    listing_end(descs, (data + sector) + more),
                    0,
                    path,
                    tally,
                    depth,
                ),
            );
        },
        Err(e) => {},
    }
}

/// Having read all of a directory.
proof fn lemma_content_whole(
    disk: Disk,
    part: u32,
    descs: Seq<AllocDesc>,
    k: int,
    s: int,
    data: Seq<u8>,
    path: Seq<char>,
    tally: Tally,
    depth: nat,
)
    requires
        k >= descs.len(),
    ensures
        walk_content(
            disk,
            part,
            descs,
            gathered(disk, part, descs, k, s),
            data,
            path,
            tally,
            depth,
        ) == walk_identifiers(
            disk,
            part,
            data,
            listing_end(descs, data),
            0,
            path,
            tally,
            depth,
        ),
{
    assert(data + Seq::<u8>::empty() == data);
    lemma_after_after(
        seq![],
        seq![],
        walk_identifiers(disk, part, data, listing_end(descs, data), 0, path, tally, depth),
    );
}

proof fn lemma_directory_content(
    disk: Disk,
    part: u32,
    block: u32,
    path: Seq<char>,
    tally: Tally,
    depth: nat,
    entry: Seq<u8>,
)
    requires
        disk(partition_sector(part, block)) == Some(entry),
        is_file_entry(entry),
        alloc_descs(entry, tag(entry)).len() > 0,
        walk_directory(disk, part, block, path, tally, depth) is Some,
    ensures
        depth > 0,
        walk_directory(disk, part, block, path, tally, depth) == after(
            seq![partition_sector(part, block)],
            walk_content(
                disk,
                part,
                alloc_descs(entry, tag(entry)),
                gathered(disk, part, alloc_descs(entry, tag(entry)), 0, 0),
                seq![],
                path,
                tally,
                (depth - 1) as nat,
            ),
        ),
{
    reveal(walk_directory);
    reveal(walk_identifiers);
    let n = partition_sector(part, block);
    let descs = alloc_descs(entry, tag(entry));
    let content = gathered(disk, part, descs, 0, 0);
    match content.result {
        Ok(data) => {
            assert(Seq::<u8>::empty() + data == data);
            lemma_after_after(
                seq![n],
                content.reads,
                walk_identifiers(
                    disk,
                    part,
                    data,
                    listing_end(descs, data),
                    0,
                    path,
                    tally,
                    (depth - 1) as nat,
                ),
            );
        },
        Err(e) => {},
    }
}

proof fn lemma_then_no_frames(
    disk: Disk,
    part: u32,
    frames: Seq<Frame>,
    inner: Option<WalkOutcome>,
    depth: nat,
)
    requires
        frames.len() == 0,
    ensures
        then_frames(disk, part, frames, inner, depth) == inner,
{
    if inner is Some && inner->0.error is None {
        assert(inner->0.reads + Seq::<u64>::empty() == inner->0.reads);
    }
}

/// The sector that a walk waits for is the first of those that are still to be read.
pub proof fn lemma_walk_reads_what_it_wants(walk: UdfWalk, disk: Disk, depth: nat)
    requires
        walk.wf(),
        walk.outcome(disk, depth) is Some,
    ensures
        walk.outcome(disk, depth)->0.reads.len() > 0,
        walk.outcome(disk, depth)->0.reads[0] == walk.wanted(),
{
    reveal(walk_directory);
}

} // verus!
