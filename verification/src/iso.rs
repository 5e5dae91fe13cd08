//! Walking through ISO 9660 file systems.
//!
//! Whoever holds the image reads the directories and reports each entry it meets, and the end of
//! each directory. [`IsoWalk`] says which entries count, what their paths are, and which
//! directories to go into.

use crate::text::{
    chars_of, child_path, join_path, same_text, string_of, trim_end_char, without_trailing,
};
use crate::timestamp::Timestamp;
use vstd::prelude::*;

verus! {

/// What a walk over a file system has met. The counters have 64 bits and start over behind the
/// last.
#[derive(Debug, Clone, Copy, PartialEq, Eq, Structural)]
pub struct WalkStats {
    pub files: u64,
    pub dirs: u64,
    pub total_size: u64,
}

impl Default for WalkStats {
    fn default() -> (r: Self)
        ensures
            r == (WalkStats { files: 0, dirs: 0, total_size: 0 }),
    {
        WalkStats { files: 0, dirs: 0, total_size: 0 }
    }
}

// ---------------------------------------------------------------------------------------------
// Names
// ---------------------------------------------------------------------------------------------

/// `s` up to its first `c`; all of it where there is none.
pub open spec fn up_to(s: Seq<char>, c: char) -> Seq<char>
    decreases s.len(),
{
    if s.len() == 0 || s[0] == c {
        seq![]
    } else {
        seq![s[0]] + up_to(s.drop_first(), c)
    }
}

/// Whether an identifier stands for a directory itself or for its parent.
pub open spec fn is_dot_entry(raw: Seq<char>) -> bool {
    raw == "\0"@ || raw == "\x01"@ || raw == "."@ || raw == ".."@
}

/// The name of a file: its identifier without the version and without the dots before it.
pub open spec fn plain_name(raw: Seq<char>) -> Seq<char> {
    without_trailing(up_to(raw, ';'), '.')
}

/// Whether an entry counts: it is not a dot entry, and something is left of its name.
pub open spec fn is_listed_name(raw: Seq<char>) -> bool {
    !is_dot_entry(raw) && plain_name(raw).len() > 0
}

/// `s` up to its first `c`.
fn text_up_to(s: &str, c: char) -> (r: String)
    ensures
        r@ == up_to(s@, c),
{
    let x: Vec<char> = chars_of(s);
    let mut end: usize = 0;
    assert(s@.skip(0) == s@);
    assert(s@.take(0) + up_to(s@, c) == up_to(s@, c));
    while end < x.len() && x[end] != c
        invariant
            end <= x.len(),
            x@ == s@,
            up_to(s@, c) == s@.take(end as int) + up_to(s@.skip(end as int), c),
        decreases x.len() - end,
    {
        let ghost rest = s@.skip(end as int);
        assert(rest.drop_first() == s@.skip(end + 1));
        assert(s@.take(end as int) + (seq![rest[0]] + up_to(s@.skip(end + 1), c)) == s@.take(
            end + 1,
        ) + up_to(s@.skip(end + 1), c));
        end = end + 1;
    }
    assert(s@.take(end as int) + Seq::<char>::empty() == s@.take(end as int));
    assert(x@.subrange(0, end as int) == s@.take(end as int));
    string_of(&x, 0, end)
}

/// The name under which an entry is listed; none where the entry does not count.
pub fn entry_name(raw: &str) -> (r: Option<String>)
    ensures
        r is Some <==> is_listed_name(raw@),
        r matches Some(name) ==> name@ == plain_name(raw@),
{
    if same_text(raw, "\0") || same_text(raw, "\x01") || same_text(raw, ".") || same_text(
        raw,
        "..",
    ) {
        return None;
    }
    let unversioned: String = text_up_to(raw, ';');
    let name: String = trim_end_char(&unversioned, '.');
    if name.as_str().is_empty() {
        None
    } else {
        Some(name)
    }
}

// ---------------------------------------------------------------------------------------------
// The walk
// ---------------------------------------------------------------------------------------------

/// What an entry of a directory is.
#[derive(Debug, Clone, Copy, PartialEq, Eq, Structural)]
pub enum IsoKind {
    Directory,
    File { size: u64 },
    Symlink,
}

/// What to do about an entry.
pub enum IsoAction {
    /// The entry does not count.
    Pass,
    /// The entry is a directory, at this path, to go into.
    Enter(String),
    /// The entry is a file or a link, at this path.
    Visit(String),
}

/// What to do about an entry, with its path as a sequence of characters.
#[verifier::ext_equal]
pub enum ActionModel {
    Pass,
    Enter(Seq<char>),
    Visit(Seq<char>),
}

impl View for IsoAction {
    type V = ActionModel;

    open spec fn view(&self) -> ActionModel {
        match self {
            IsoAction::Pass => ActionModel::Pass,
            IsoAction::Enter(path) => ActionModel::Enter(path@),
            IsoAction::Visit(path) => ActionModel::Visit(path@),
        }
    }
}

/// A walk through a file system.
pub struct IsoWalk {
    /// The paths of the directories below the root that the walk is in.
    below_root: Vec<String>,
    stats: WalkStats,
}

/// Where a walk is: the paths of the directories that it is in, the root first, and what it has
/// met.
#[verifier::ext_equal]
pub struct WalkModel {
    pub dirs: Seq<Seq<char>>,
    pub stats: WalkStats,
}

impl View for IsoWalk {
    type V = WalkModel;

    closed spec fn view(&self) -> WalkModel {
        WalkModel {
            dirs: seq![seq![]] + self.below_root@.map_values(|s: String| s@),
            stats: self.stats,
        }
    }
}

/// Where a walk begins: in the root, whose path is empty.
pub open spec fn walk_start() -> WalkModel {
    WalkModel {
        dirs: seq![seq![]],
        stats: WalkStats { files: 0, dirs: 0, total_size: 0 },
    }
}

/// What is counted once an entry of the given kind has been met.
pub open spec fn counted(stats: WalkStats, kind: IsoKind) -> WalkStats {
    match kind {
        IsoKind::Directory => WalkStats { dirs: stats.dirs.wrapping_add(1), ..stats },
        IsoKind::File { size } => WalkStats {
            files: stats.files.wrapping_add(1),
            total_size: stats.total_size.wrapping_add(size),
            ..stats
        },
        IsoKind::Symlink => stats,
    }
}

/// What to do about an entry of the directory that a walk is in.
pub open spec fn action_on(at: WalkModel, raw: Seq<char>, kind: IsoKind) -> ActionModel {
    let path = child_path(at.dirs.last(), plain_name(raw));
    if !is_listed_name(raw) {
        ActionModel::Pass
    } else if kind == IsoKind::Directory {
        ActionModel::Enter(path)
    } else {
        ActionModel::Visit(path)
    }
}

/// Where a walk is once it has met an entry of the directory that it is in.
pub open spec fn met(at: WalkModel, raw: Seq<char>, kind: IsoKind) -> WalkModel {
    if !is_listed_name(raw) {
        at
    } else if kind == IsoKind::Directory {
        WalkModel {
            dirs: at.dirs.push(child_path(at.dirs.last(), plain_name(raw))),
            stats: counted(at.stats, kind),
        }
    } else {
        WalkModel { dirs: at.dirs, stats: counted(at.stats, kind) }
    }
}

/// Where a walk is once it has left the directory that it is in; the root is never left.
pub open spec fn left(at: WalkModel) -> WalkModel {
    if at.dirs.len() > 1 {
        WalkModel { dirs: at.dirs.drop_last(), stats: at.stats }
    } else {
        at
    }
}

impl IsoWalk {
    /// Begins a walk in the root directory.
    pub fn new() -> (r: IsoWalk)
        ensures
            r@ == walk_start(),
    {
        let r = IsoWalk { below_root: Vec::new(), stats: WalkStats::default() };
        assert(r@.dirs == walk_start().dirs);
        r
    }

    /// Takes in an entry of the directory that the walk is in, under its identifier as the image
    /// has it.
    pub fn meet(&mut self, raw: &str, kind: IsoKind) -> (r: IsoAction)
        ensures
            r@ == action_on(old(self)@, raw@, kind),
            final(self)@ == met(old(self)@, raw@, kind),
    {
        let name: String = match entry_name(raw) {
            Some(name) => name,
            None => {
                return IsoAction::Pass;
            },
        };
        let path: String = join_path(self.directory(), &name);
        match kind {
            IsoKind::Directory => {
                self.stats.dirs = self.stats.dirs.wrapping_add(1);
                self.below_root.push(path.clone());
                assert(self@.dirs == met(old(self)@, raw@, kind).dirs);
                IsoAction::Enter(path)
            },
            IsoKind::File { size } => {
                self.stats.files = self.stats.files.wrapping_add(1);
                self.stats.total_size = self.stats.total_size.wrapping_add(size);
                IsoAction::Visit(path)
            },
            IsoKind::Symlink => IsoAction::Visit(path),
        }
    }

    /// Leaves the directory that the walk is in.
    pub fn leave(&mut self)
        ensures
            final(self)@ == left(old(self)@),
    {
        let _ = self.below_root.pop();
        assert(self@.dirs == left(old(self)@).dirs);
    }

    /// The path of the directory that the walk is in.
    pub fn directory(&self) -> (r: &str)
        ensures
            r@ == self@.dirs.last(),
    {
        if self.below_root.len() == 0 {
            assert(self@.dirs.last() == ""@) by {
                reveal_strlit("");
            }
            ""
        } else {
            self.below_root[self.below_root.len() - 1].as_str()
        }
    }

    /// What the walk has met.
    pub fn stats(&self) -> (r: WalkStats)
        ensures
            r == self@.stats,
    {
        self.stats
    }
}

// ---------------------------------------------------------------------------------------------
// Laws
// ---------------------------------------------------------------------------------------------

/// The name under which an entry is listed is not empty, has no version, and does not end in a dot.
pub proof fn law_listed_names_are_plain(raw: Seq<char>)
    requires
        is_listed_name(raw),
    ensures
        plain_name(raw).len() > 0,
        !plain_name(raw).contains(';'),
        plain_name(raw).last() != '.',
{
    lemma_up_to_is_before(raw, ';');
    lemma_without_trailing(up_to(raw, ';'), '.');
}

proof fn lemma_up_to_is_before(s: Seq<char>, c: char)
    ensures
        !up_to(s, c).contains(c),
    decreases s.len(),
{
    if s.len() > 0 && s[0] != c {
        lemma_up_to_is_before(s.drop_first(), c);
        let rest = up_to(s.drop_first(), c);
        assert forall|i: int| 0 <= i < up_to(s, c).len() implies up_to(s, c)[i] != c by {
            if i > 0 {
                assert(up_to(s, c)[i] == rest[i - 1]);
            }
        }
    }
}

proof fn lemma_without_trailing(s: Seq<char>, c: char)
    ensures
        without_trailing(s, c).is_prefix_of(s),
        without_trailing(s, c).len() > 0 ==> without_trailing(s, c).last() != c,
    decreases s.len(),
{
    if s.len() > 0 && s.last() == c {
        lemma_without_trailing(s.drop_last(), c);
    }
}

/// What an image tells of a file or a link besides its name and its size: when it was modified, and
/// what it points to, where it is a link and that is known.
pub struct IsoNote {
    pub modified: Timestamp,
    pub target: Option<Seq<char>>,
}

/// An entry of a directory, with all that is below it.
pub enum IsoNode {
    Directory { name: Seq<char>, note: IsoNote, children: Seq<IsoNode> },
    File { name: Seq<char>, note: IsoNote, size: u64 },
    Symlink { name: Seq<char>, note: IsoNote },
}

/// What is reported on a walk.
pub enum IsoEvent {
    Meet { name: Seq<char>, note: IsoNote, kind: IsoKind },
    Leave,
}

/// Where a walk is after an event.
pub open spec fn after_event(at: WalkModel, event: IsoEvent) -> WalkModel {
    match event {
        IsoEvent::Meet { name, kind, .. } => met(at, name, kind),
        IsoEvent::Leave => left(at),
    }
}

/// Where a walk is after events, one after the other.
pub open spec fn after_events(at: WalkModel, events: Seq<IsoEvent>) -> WalkModel
    decreases events.len(),
{
    if events.len() == 0 {
        at
    } else {
        after_event(after_events(at, events.drop_last()), events.last())
    }
}

/// The path that an event has a walk visit, if any.
pub open spec fn visit_on(at: WalkModel, event: IsoEvent) -> Seq<Seq<char>> {
    match event {
        IsoEvent::Meet { name, kind, .. } => match action_on(at, name, kind) {
            ActionModel::Visit(path) => seq![path],
            _ => seq![],
        },
        IsoEvent::Leave => seq![],
    }
}

/// The paths that events have a walk visit, in order.
pub open spec fn visits_on(at: WalkModel, events: Seq<IsoEvent>) -> Seq<Seq<char>>
    decreases events.len(),
{
    if events.len() == 0 {
        seq![]
    } else {
        visits_on(at, events.drop_last()) + visit_on(
            after_events(at, events.drop_last()),
            events.last(),
        )
    }
}

/// What is reported of an entry: a directory that counts is gone into and left again.
pub open spec fn node_events(node: IsoNode) -> Seq<IsoEvent>
    decreases node, 0int,
{
    match node {
        IsoNode::Directory { name, note, children } => {
            let meet = IsoEvent::Meet { name, note, kind: IsoKind::Directory };
            if is_listed_name(name) {
                seq![meet] + tree_events(children, children.len()) + seq![IsoEvent::Leave]
            } else {
                seq![meet]
            }
        },
        IsoNode::File { name, note, size } => seq![
            IsoEvent::Meet { name, note, kind: IsoKind::File { size } },
        ],
        IsoNode::Symlink { name, note } => seq![
            IsoEvent::Meet { name, note, kind: IsoKind::Symlink },
        ],
    }
}

/// What is reported of the first `n` entries of a directory.
pub open spec fn tree_events(nodes: Seq<IsoNode>, n: nat) -> Seq<IsoEvent>
    decreases nodes, n,
{
    if n == 0 || n > nodes.len() {
        seq![]
    } else {
        tree_events(nodes, (n - 1) as nat) + node_events(nodes[n - 1])
    }
}

/// What an entry counts for, with all that is below it, on top of `stats`.
pub open spec fn node_stats(node: IsoNode, stats: WalkStats) -> WalkStats
    decreases node, 0int,
{
    match node {
        IsoNode::Directory { name, children, .. } => if is_listed_name(name) {
            tree_stats(children, children.len(), counted(stats, IsoKind::Directory))
        } else {
            stats
        },
        IsoNode::File { name, size, .. } => if is_listed_name(name) {
            counted(stats, IsoKind::File { size })
        } else {
            stats
        },
        IsoNode::Symlink { .. } => stats,
    }
}

/// What the first `n` entries of a directory count for, on top of `stats`.
pub open spec fn tree_stats(nodes: Seq<IsoNode>, n: nat, stats: WalkStats) -> WalkStats
    decreases nodes, n,
{
    if n == 0 || n > nodes.len() {
        stats
    } else {
        node_stats(nodes[n - 1], tree_stats(nodes, (n - 1) as nat, stats))
    }
}

/// The paths of the files and links that an entry of the directory at `parent` holds.
pub open spec fn node_files(node: IsoNode, parent: Seq<char>) -> Seq<Seq<char>>
    decreases node, 0int,
{
    match node {
        IsoNode::Directory { name, children, .. } => if is_listed_name(name) {
            tree_files(children, children.len(), child_path(parent, plain_name(name)))
        } else {
            seq![]
        },
        IsoNode::File { name, .. } => if is_listed_name(name) {
            seq![child_path(parent, plain_name(name))]
        } else {
            seq![]
        },
        IsoNode::Symlink { name, .. } => if is_listed_name(name) {
            seq![child_path(parent, plain_name(name))]
        } else {
            seq![]
        },
    }
}

/// The paths of the files and links that the first `n` entries of the directory at `parent` hold.
pub open spec fn tree_files(nodes: Seq<IsoNode>, n: nat, parent: Seq<char>) -> Seq<Seq<char>>
    decreases nodes, n,
{
    if n == 0 || n > nodes.len() {
        seq![]
    } else {
        tree_files(nodes, (n - 1) as nat, parent) + node_files(nodes[n - 1], parent)
    }
}

/// Events in a row are taken in one after the other.
pub proof fn lemma_events_chain(at: WalkModel, first: Seq<IsoEvent>, second: Seq<IsoEvent>)
    ensures
        after_events(at, first + second) == after_events(after_events(at, first), second),
        visits_on(at, first + second) == visits_on(at, first) + visits_on(
            after_events(at, first),
            second,
        ),
    decreases second.len(),
{
    if second.len() == 0 {
        assert(first + second == first);
        assert(visits_on(at, first) + Seq::<Seq<char>>::empty() == visits_on(at, first));
    } else {
        lemma_events_chain(at, first, second.drop_last());
        assert((first + second).drop_last() == first + second.drop_last());
        assert((first + second).last() == second.last());
        let mid = after_events(at, first);
        assert(visits_on(at, first) + (visits_on(mid, second.drop_last()) + visit_on(
            after_events(mid, second.drop_last()),
            second.last(),
        )) == (visits_on(at, first) + visits_on(mid, second.drop_last())) + visit_on(
            after_events(mid, second.drop_last()),
            second.last(),
        ));
    }
}

/// A row of one event is that event.
pub proof fn lemma_one_event(at: WalkModel, event: IsoEvent)
    ensures
        after_events(at, seq![event]) == after_event(at, event),
        visits_on(at, seq![event]) == visit_on(at, event),
{
    let events = seq![event];
    assert(events.drop_last() == Seq::<IsoEvent>::empty());
    assert(after_events(at, events.drop_last()) == at);
    assert(visits_on(at, events.drop_last()) == Seq::<Seq<char>>::empty());
    assert(Seq::<Seq<char>>::empty() + visit_on(at, event) == visit_on(at, event));
}

proof fn lemma_node_walked(at: WalkModel, node: IsoNode)
    requires
        at.dirs.len() > 0,
    ensures
        after_events(at, node_events(node)) == (WalkModel {
            dirs: at.dirs,
            stats: node_stats(node, at.stats),
        }),
        visits_on(at, node_events(node)) == node_files(node, at.dirs.last()),
    decreases node, 0int,
{
    match node {
        IsoNode::Directory { name, note, children } => {
            let meet = IsoEvent::Meet { name, note, kind: IsoKind::Directory };
            lemma_one_event(at, meet);
            if is_listed_name(name) {
                let inside = after_event(at, meet);
                let path = child_path(at.dirs.last(), plain_name(name));
                let events = tree_events(children, children.len());
                assert(inside.dirs.last() == path);
                lemma_tree_walked(inside, children, children.len());
                let done = after_events(inside, events);
                lemma_one_event(done, IsoEvent::Leave);
                lemma_events_chain(at, seq![meet], events);
                lemma_events_chain(at, seq![meet] + events, seq![IsoEvent::Leave]);
                assert(done.dirs.drop_last() == at.dirs);
                assert(Seq::<Seq<char>>::empty() + tree_files(children, children.len(), path)
                    + Seq::<Seq<char>>::empty() == tree_files(children, children.len(), path));
            }
        },
        IsoNode::File { name, note, size } => {
            lemma_one_event(at, IsoEvent::Meet { name, note, kind: IsoKind::File { size } });
        },
        IsoNode::Symlink { name, note } => {
            lemma_one_event(at, IsoEvent::Meet { name, note, kind: IsoKind::Symlink });
        },
    }
}

/// A walk through the first `n` entries of a directory comes back to the directory.
pub proof fn lemma_tree_walked(at: WalkModel, nodes: Seq<IsoNode>, n: nat)
    requires
        at.dirs.len() > 0,
        n <= nodes.len(),
    ensures
        after_events(at, tree_events(nodes, n)) == (WalkModel {
            dirs: at.dirs,
            stats: tree_stats(nodes, n, at.stats),
        }),
        visits_on(at, tree_events(nodes, n)) == tree_files(nodes, n, at.dirs.last()),
    decreases nodes, n,
{
    if n > 0 {
        let first = tree_events(nodes, (n - 1) as nat);
        lemma_tree_walked(at, nodes, (n - 1) as nat);
        lemma_node_walked(after_events(at, first), nodes[n - 1]);
        lemma_events_chain(at, first, node_events(nodes[n - 1]));
    }
}

/// A walk that is told of all entries of a file system, each directory being gone into where the
/// walk says so and left again, visits every file and every link that counts, in the order of the
/// directories, each under the path that leads to it, and counts what it has met; at the end it is
/// back in the root.
pub proof fn law_walk_visits_the_tree(root: Seq<IsoNode>)
    ensures
        after_events(walk_start(), tree_events(root, root.len())) == (WalkModel {
            dirs: walk_start().dirs,
            stats: tree_stats(root, root.len(), walk_start().stats),
        }),
        visits_on(walk_start(), tree_events(root, root.len())) == tree_files(
            root,
            root.len(),
            seq![],
        ),
{
    lemma_tree_walked(walk_start(), root, root.len());
}

} // verus!
