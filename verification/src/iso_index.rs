//! How the index of an ISO 9660 file system follows the walk through it.

use crate::index::{iso_text, ListedModel};
use crate::iso::{
    action_on, after_event, after_events, counted, is_listed_name, law_walk_visits_the_tree,
    lemma_events_chain, lemma_one_event, lemma_tree_walked, node_events,
    node_files, node_stats, plain_name, tree_events, tree_files, tree_stats, walk_start,
    ActionModel, IsoEvent, IsoKind, IsoNode, IsoNote, WalkModel, WalkStats,
};
use crate::text::child_path;
use crate::timestamp::Timestamp;
use vstd::prelude::*;

verus! {

/// A file or a link that an index has a line for.
#[verifier::ext_equal]
pub struct ListedEntry {
    pub path: Seq<char>,
    pub listed: ListedModel,
    pub modified: Timestamp,
}

/// The line of a file or a link.
pub open spec fn listed_text(entry: ListedEntry) -> Seq<char> {
    iso_text(entry.path, entry.listed, entry.modified)
}

/// The lines of files and links, in their order.
pub open spec fn listed_texts(entries: Seq<ListedEntry>) -> Seq<Seq<char>> {
    entries.map_values(|entry: ListedEntry| listed_text(entry))
}

/// The paths of files and links, in their order.
pub open spec fn listed_paths(entries: Seq<ListedEntry>) -> Seq<Seq<char>> {
    entries.map_values(|entry: ListedEntry| entry.path)
}

/// How many of the lines are those of files.
pub open spec fn file_lines(entries: Seq<ListedEntry>) -> nat
    decreases entries.len(),
{
    if entries.len() == 0 {
        0
    } else {
        file_lines(entries.drop_last()) + if entries.last().listed is File {
            1nat
        } else {
            0nat
        }
    }
}

/// The sum of the sizes in the lines of files.
pub open spec fn file_sizes(entries: Seq<ListedEntry>) -> nat
    decreases entries.len(),
{
    if entries.len() == 0 {
        0
    } else {
        file_sizes(entries.drop_last()) + match entries.last().listed {
            ListedModel::File { size } => size as nat,
            ListedModel::Symlink { .. } => 0nat,
        }
    }
}

// ---------------------------------------------------------------------------------------------
// What is listed on a walk
// ---------------------------------------------------------------------------------------------

/// What an index says that an entry is which is no directory.
pub open spec fn listed_as(kind: IsoKind, note: IsoNote) -> ListedModel {
    match kind {
        IsoKind::File { size } => ListedModel::File { size },
        _ => ListedModel::Symlink { target: note.target },
    }
}

/// What is listed on an event: an entry that the walk says to visit, under the path that it gives.
pub open spec fn listed_on(at: WalkModel, event: IsoEvent) -> Seq<ListedEntry> {
    match event {
        IsoEvent::Meet { name, note, kind } => match action_on(at, name, kind) {
            ActionModel::Visit(path) => seq![
                ListedEntry { path, listed: listed_as(kind, note), modified: note.modified },
            ],
            _ => seq![],
        },
        IsoEvent::Leave => seq![],
    }
}

/// What is listed on events, one after the other.
pub open spec fn listing_on(at: WalkModel, events: Seq<IsoEvent>) -> Seq<ListedEntry>
    decreases events.len(),
{
    if events.len() == 0 {
        seq![]
    } else {
        listing_on(at, events.drop_last()) + listed_on(
            after_events(at, events.drop_last()),
            events.last(),
        )
    }
}

// ---------------------------------------------------------------------------------------------
// What a file system holds
// ---------------------------------------------------------------------------------------------

/// The file or link that an entry of the directory at `parent` is, where it counts.
pub open spec fn leaf_listing(
    name: Seq<char>,
    listed: ListedModel,
    modified: Timestamp,
    parent: Seq<char>,
) -> Seq<ListedEntry> {
    if is_listed_name(name) {
        seq![ListedEntry { path: child_path(parent, plain_name(name)), listed, modified }]
    } else {
        seq![]
    }
}

/// The files and links that an entry of the directory at `parent` holds.
pub open spec fn node_listing(node: IsoNode, parent: Seq<char>) -> Seq<ListedEntry>
    decreases node, 0int,
{
    match node {
        IsoNode::Directory { name, children, .. } => if is_listed_name(name) {
            tree_listing(children, children.len(), child_path(parent, plain_name(name)))
        } else {
            seq![]
        },
        IsoNode::File { name, note, size } => leaf_listing(
            name,
            ListedModel::File { size },
            note.modified,
            parent,
        ),
        IsoNode::Symlink { name, note } => leaf_listing(
            name,
            ListedModel::Symlink { target: note.target },
            note.modified,
            parent,
        ),
    }
}

/// The files and links that the first `n` entries of the directory at `parent` hold.
pub open spec fn tree_listing(nodes: Seq<IsoNode>, n: nat, parent: Seq<char>) -> Seq<ListedEntry>
    decreases nodes, n,
{
    if n == 0 || n > nodes.len() {
        seq![]
    } else {
        tree_listing(nodes, (n - 1) as nat, parent) + node_listing(nodes[n - 1], parent)
    }
}

// ---------------------------------------------------------------------------------------------
// Laws
// ---------------------------------------------------------------------------------------------

/// The lines that an index gets on a walk through a file system are one for each file and link that
/// counts, in the order of the directories, and nothing else. Their paths are those that the walk
/// visits, and the counts that go into the header are the number of the lines of files and the sum
/// of their sizes, as far as 64 bits hold them.
pub proof fn law_iso_index_lists_the_tree(root: Seq<IsoNode>)
    ensures
        ({
            let events = tree_events(root, root.len());
            let listing = listing_on(walk_start(), events);
            let files = tree_files(root, root.len(), seq![]);
            let stats = after_events(walk_start(), events).stats;
            &&& listing == tree_listing(root, root.len(), seq![])
            &&& listed_paths(listing) == files
            &&& listed_texts(listing).len() == files.len()
            &&& forall|i: int|
                0 <= i < files.len() ==> #[trigger] listed_texts(listing)[i] == iso_text(
                    files[i],
                    listing[i].listed,
                    listing[i].modified,
                )
            &&& stats == tree_stats(root, root.len(), walk_start().stats)
            &&& stats.files as int == file_lines(listing) as int % 0x1_0000_0000_0000_0000
            &&& stats.total_size as int == file_sizes(listing) as int % 0x1_0000_0000_0000_0000
        }),
{
    law_walk_visits_the_tree(root);
    lemma_tree_listed(walk_start(), root, root.len());
    lemma_tree_counted(root, root.len(), seq![], walk_start().stats);
    reveal(counts_listing);
    let listing = listing_on(walk_start(), tree_events(root, root.len()));
    let files = tree_files(root, root.len(), seq![]);
    assert forall|i: int| 0 <= i < files.len() implies #[trigger] listed_texts(listing)[i]
        == iso_text(files[i], listing[i].listed, listing[i].modified) by {
        assert(listed_paths(listing)[i] == listing[i].path);
    }
}

proof fn lemma_listing_chain(at: WalkModel, first: Seq<IsoEvent>, second: Seq<IsoEvent>)
    ensures
        listing_on(at, first + second) == listing_on(at, first) + listing_on(
            after_events(at, first),
            second,
        ),
    decreases second.len(),
{
    if second.len() == 0 {
        assert(first + second == first);
    } else {
        lemma_listing_chain(at, first, second.drop_last());
        lemma_events_chain(at, first, second.drop_last());
        assert((first + second).drop_last() == first + second.drop_last());
        assert((first + second).last() == second.last());
    }
}

proof fn lemma_one_listed(at: WalkModel, event: IsoEvent)
    ensures
        listing_on(at, seq![event]) == listed_on(at, event),
{
    let events = seq![event];
    assert(events.drop_last() == Seq::<IsoEvent>::empty());
    assert(after_events(at, events.drop_last()) == at);
    assert(listing_on(at, events.drop_last()) == Seq::<ListedEntry>::empty());
}

proof fn lemma_node_listed(at: WalkModel, node: IsoNode)
    requires
        at.dirs.len() > 0,
    ensures
        listing_on(at, node_events(node)) == node_listing(node, at.dirs.last()),
    decreases node, 0int,
{
    match node {
        IsoNode::Directory { name, note, children } => {
            let meet = IsoEvent::Meet { name, note, kind: IsoKind::Directory };
            lemma_one_event(at, meet);
            lemma_one_listed(at, meet);
            if is_listed_name(name) {
                let inside = after_event(at, meet);
                let events = tree_events(children, children.len());
                lemma_tree_listed(inside, children, children.len());
                let done = after_events(inside, events);
                lemma_one_listed(done, IsoEvent::Leave);
                lemma_listing_chain(at, seq![meet], events);
                lemma_events_chain(at, seq![meet], events);
                lemma_listing_chain(at, seq![meet] + events, seq![IsoEvent::Leave]);
            }
        },
        IsoNode::File { name, note, size } => {
            lemma_one_listed(at, IsoEvent::Meet { name, note, kind: IsoKind::File { size } });
        },
        IsoNode::Symlink { name, note } => {
            lemma_one_listed(at, IsoEvent::Meet { name, note, kind: IsoKind::Symlink });
        },
    }
}

proof fn lemma_tree_listed(at: WalkModel, nodes: Seq<IsoNode>, n: nat)
    requires
        at.dirs.len() > 0,
        n <= nodes.len(),
    ensures
        listing_on(at, tree_events(nodes, n)) == tree_listing(nodes, n, at.dirs.last()),
    decreases nodes, n,
{
    if n > 0 {
        let first = tree_events(nodes, (n - 1) as nat);
        lemma_tree_listed(at, nodes, (n - 1) as nat);
        lemma_tree_walked(at, nodes, (n - 1) as nat);
        lemma_node_listed(after_events(at, first), nodes[n - 1]);
        lemma_listing_chain(at, first, node_events(nodes[n - 1]));
    }
}

/// Whether `now` is `stats` with the files of a listing counted.
#[verifier::opaque]
spec fn counts_listing(stats: WalkStats, now: WalkStats, listing: Seq<ListedEntry>) -> bool {
    &&& now.files as int == (stats.files + file_lines(listing)) % 0x1_0000_0000_0000_0000
    &&& now.total_size as int == (stats.total_size + file_sizes(listing))
        % 0x1_0000_0000_0000_0000
}

proof fn lemma_counts_chain(first: Seq<ListedEntry>, second: Seq<ListedEntry>)
    ensures
        file_lines(first + second) == file_lines(first) + file_lines(second),
        file_sizes(first + second) == file_sizes(first) + file_sizes(second),
        listed_paths(first + second) == listed_paths(first) + listed_paths(second),
    decreases second.len(),
{
    if second.len() == 0 {
        assert(first + second == first);
    } else {
        lemma_counts_chain(first, second.drop_last());
        assert((first + second).drop_last() == first + second.drop_last());
        assert((first + second).last() == second.last());
    }
}

proof fn lemma_counted_in_turn(
    stats: WalkStats,
    then: WalkStats,
    now: WalkStats,
    first: Seq<ListedEntry>,
    second: Seq<ListedEntry>,
)
    requires
        counts_listing(stats, then, first),
        counts_listing(then, now, second),
    ensures
        counts_listing(stats, now, first + second),
{
    reveal(counts_listing);
    lemma_counts_chain(first, second);
}

proof fn lemma_one_counted(entry: ListedEntry)
    ensures
        file_lines(seq![entry]) == if entry.listed is File {
            1nat
        } else {
            0nat
        },
        file_sizes(seq![entry]) == match entry.listed {
            ListedModel::File { size } => size as nat,
            ListedModel::Symlink { .. } => 0nat,
        },
{
    assert(seq![entry].drop_last() == Seq::<ListedEntry>::empty());
    assert(file_lines(Seq::<ListedEntry>::empty()) == 0);
    assert(file_sizes(Seq::<ListedEntry>::empty()) == 0);
}

proof fn lemma_node_counted(node: IsoNode, parent: Seq<char>, stats: WalkStats)
    ensures
        counts_listing(stats, node_stats(node, stats), node_listing(node, parent)),
        listed_paths(node_listing(node, parent)) == node_files(node, parent),
    decreases node, 0int,
{
    reveal(counts_listing);
    match node {
        IsoNode::Directory { name, children, .. } => {
            if is_listed_name(name) {
                lemma_tree_counted(
                    children,
                    children.len(),
                    child_path(parent, plain_name(name)),
                    counted(stats, IsoKind::Directory),
                );
            }
        },
        _ => {
            let listing = node_listing(node, parent);
            if listing.len() > 0 {
                lemma_one_counted(listing[0]);
                assert(listing == seq![listing[0]]);
            }
        },
    }
}

proof fn lemma_tree_counted(nodes: Seq<IsoNode>, n: nat, parent: Seq<char>, stats: WalkStats)
    requires
        n <= nodes.len(),
    ensures
        counts_listing(stats, tree_stats(nodes, n, stats), tree_listing(nodes, n, parent)),
        listed_paths(tree_listing(nodes, n, parent)) == tree_files(nodes, n, parent),
    decreases nodes, n,
{
    if n == 0 {
        reveal(counts_listing);
    } else {
        let then = tree_stats(nodes, (n - 1) as nat, stats);
        let first = tree_listing(nodes, (n - 1) as nat, parent);
        let second = node_listing(nodes[n - 1], parent);
        lemma_tree_counted(nodes, (n - 1) as nat, parent, stats);
        lemma_node_counted(nodes[n - 1], parent, then);
        lemma_counts_chain(first, second);
        lemma_counted_in_turn(stats, then, node_stats(nodes[n - 1], then), first, second);
    }
}

} // verus!
