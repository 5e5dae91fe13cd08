//! Laws of what the contracts see of the values that functions take and return.

use crate::extract::{ExtractAction, ExtractModel};
use crate::index::{line_views, IndexHeader, IsoListed, ListedModel};
use crate::iso::{ActionModel, IsoAction};
use crate::text::texts;
use crate::udf::descriptor::{block_view, Disk};
use crate::udf::open::{OpenStep, UdfError, VolumeModel};
use crate::udf::tree::{content_size, entries_view, EntryModel, UdfEntry};
use crate::udf::walk::WalkStep;
use vstd::prelude::*;

verus! {

/// Files of a volume are seen as they are, one by one and in their order.
pub proof fn law_entries_are_seen_as_they_are(entries: Seq<UdfEntry>, i: int)
    ensures
        entries_view(entries).len() == entries.len(),
        0 <= i < entries.len() ==> {
            let seen = entries_view(entries)[i];
            &&& seen.path == entries[i].path@
            &&& seen.size == entries[i].size
            &&& seen.is_dir == entries[i].is_dir
            &&& seen.modified == entries[i].modified
            &&& seen.data_offset == entries[i].data_offset
        },
{
}

/// What is decided about a file or an entry is seen as it is.
pub proof fn law_actions_are_seen_as_they_are(extract: ExtractAction, iso: IsoAction)
    ensures
        extract is Skip <==> extract@ is Skip,
        extract is Refuse <==> extract@ is Refuse,
        extract matches ExtractAction::Write { relative, make_dir } ==> extract@
            == (ExtractModel::Write { relative: relative@, make_dir }),
        iso is Pass <==> iso@ is Pass,
        iso matches IsoAction::Enter(path) ==> iso@ == ActionModel::Enter(path@),
        iso matches IsoAction::Visit(path) ==> iso@ == ActionModel::Visit(path@),
{
}

/// What goes into an index is seen as it is.
pub proof fn law_index_parts_are_seen_as_they_are(
    header: IndexHeader,
    listed: IsoListed,
    lines: Seq<String>,
    parts: Seq<&str>,
    i: int,
)
    ensures
        header@.source == header.source@,
        header@.volume == header.volume@,
        header@.format == header.format@,
        header@.iso_size == header.iso_size,
        listed matches IsoListed::File { size } ==> listed@ == (ListedModel::File { size }),
        listed matches IsoListed::Symlink { target: None } ==> listed@ == (ListedModel::Symlink {
            target: None,
        }),
        listed matches IsoListed::Symlink { target: Some(target) } ==> listed@
            == (ListedModel::Symlink { target: Some(target@) }),
        line_views(lines).len() == lines.len(),
        0 <= i < lines.len() ==> line_views(lines)[i] == lines[i]@,
        texts(parts).len() == parts.len(),
        0 <= i < parts.len() ==> texts(parts)[i] == parts[i]@,
{
}

/// A block that was read is seen as its bytes, and one that could not be read as none.
pub proof fn law_blocks_are_seen_as_they_are(bytes: Vec<u8>)
    ensures
        block_view(Some(bytes)) == Some(bytes@),
        block_view(None) is None,
{
}

/// A step that ends a walk or an opening ends it with what it carries, and nothing more is read.
pub proof fn law_last_steps_end_with_what_they_carry(
    disk: Disk,
    depth: nat,
    walk: WalkStep,
    opening: OpenStep,
)
    ensures
        walk matches WalkStep::Done { entries, stats } ==> {
            let o = walk.outcome(disk, depth);
            &&& o is Some
            &&& o->0.error is None
            &&& o->0.met.entries == entries_view(entries@)
            &&& o->0.met.dirs == stats.dirs
            &&& o->0.reads.len() == 0
        },
        walk matches WalkStep::Failed { error, entries, stats } ==> {
            let o = walk.outcome(disk, depth);
            &&& o is Some
            &&& o->0.error == Some(error)
            &&& o->0.met.entries == entries_view(entries@)
            &&& o->0.met.dirs == stats.dirs
            &&& o->0.reads.len() == 0
        },
        opening matches OpenStep::Opened(volume) ==> opening.outcome(disk).result == Ok::<
            VolumeModel,
            UdfError,
        >(volume@) && opening.outcome(disk).reads.len() == 0,
        opening matches OpenStep::Refused(error) ==> opening.outcome(disk).result == Err::<
            VolumeModel,
            UdfError,
        >(error) && opening.outcome(disk).reads.len() == 0,
{
}

/// Sizes of files add up, in whatever groups they are taken.
pub proof fn law_file_sizes_add_up(
    first: Seq<EntryModel>,
    second: Seq<EntryModel>,
    entry: EntryModel,
)
    ensures
        content_size(first + second) == content_size(first) + content_size(second),
        content_size(seq![entry]) == entry.size,
        content_size(seq![]) == 0,
    decreases second.len(),
{
    assert(seq![entry].drop_last() == Seq::<EntryModel>::empty());
    assert(content_size(Seq::<EntryModel>::empty()) == 0);
    if second.len() == 0 {
        assert(first + second == first);
    } else {
        law_file_sizes_add_up(first, second.drop_last(), entry);
        assert((first + second).drop_last() == first + second.drop_last());
        assert((first + second).last() == second.last());
    }
}

/// The statistics of a walk that is over are the number of its files, the number of directories met,
/// and the sum of the sizes of the files, as far as 64 bits hold it; this holds of every walk that
/// ends, well or not.
pub proof fn law_statistics_are_of_the_files(step: WalkStep)
    requires
        step.wf(),
    ensures
        step matches WalkStep::Done { entries, stats } ==> stats.files == entries@.len()
            && stats.total_size as int == content_size(entries_view(entries@)) as int
            % 0x1_0000_0000_0000_0000,
        step matches WalkStep::Failed { entries, stats, .. } ==> stats.files == entries@.len()
            && stats.total_size as int == content_size(entries_view(entries@)) as int
            % 0x1_0000_0000_0000_0000,
{
}

} // verus!
