//! Laws of names and counts on a walk through an ISO 9660 file system.

use crate::iso::{
    action_on, after_events, counted, is_dot_entry, is_listed_name, left, lemma_tree_walked, met,
    node_stats, plain_name, tree_events, tree_stats, up_to, walk_start, ActionModel, IsoKind,
    IsoNode, WalkModel, WalkStats,
};
use crate::laws::text::{law_trailing_runs_are_dropped, run_of};
use vstd::prelude::*;

verus! {

// ---------------------------------------------------------------------------------------------
// Names
// ---------------------------------------------------------------------------------------------

proof fn lemma_up_to_all(s: Seq<char>, c: char)
    requires
        !s.contains(c),
    ensures
        up_to(s, c) == s,
    decreases s.len(),
{
    if s.len() > 0 {
        assert(s.contains(s[0]));
        let rest = s.drop_first();
        assert forall|i: int| 0 <= i < rest.len() implies rest[i] != c by {
            assert(s.contains(s[i + 1]));
        }
        lemma_up_to_all(rest, c);
        assert(seq![s[0]] + rest == s);
    }
}

proof fn lemma_up_to_first(s: Seq<char>, c: char, t: Seq<char>)
    requires
        !s.contains(c),
    ensures
        up_to(s + seq![c] + t, c) == s,
    decreases s.len(),
{
    let whole = s + seq![c] + t;
    if s.len() > 0 {
        assert(s.contains(s[0]));
        let rest = s.drop_first();
        assert forall|i: int| 0 <= i < rest.len() implies rest[i] != c by {
            assert(s.contains(s[i + 1]));
        }
        lemma_up_to_first(rest, c, t);
        assert(whole.drop_first() == rest + seq![c] + t);
        assert(seq![s[0]] + rest == s);
    } else {
        assert(whole[0] == c);
        assert(s == Seq::<char>::empty());
    }
}

/// What stands behind the first semicolon makes no difference to a name.
pub proof fn law_versions_make_no_difference(s: Seq<char>, version: Seq<char>)
    requires
        !s.contains(';'),
    ensures
        plain_name(s + seq![';'] + version) == plain_name(s),
{
    lemma_up_to_all(s, ';');
    lemma_up_to_first(s, ';', version);
}

/// A name is kept as it is, whatever its characters, but for a version and the dots at its end.
pub proof fn law_names_are_kept(name: Seq<char>, dots: nat, version: Seq<char>)
    requires
        name.len() > 0,
        !name.contains(';'),
        name.last() != '.',
    ensures
        plain_name(name) == name,
        plain_name(name + run_of('.', dots)) == name,
        plain_name(name + run_of('.', dots) + seq![';'] + version) == name,
        is_listed_name(name + run_of('.', dots) + seq![';'] + version),
        is_listed_name(name + run_of('.', dots)) <==> dots > 0 || !(name.len() == 1 && (
        name[0] as u32) <= 1),
{
    let s = name + run_of('.', dots);
    assert forall|i: int| 0 <= i < s.len() implies s[i] != ';' by {
        if i < name.len() {
            assert(name.contains(name[i]));
        }
    }
    lemma_up_to_all(s, ';');
    lemma_up_to_all(name, ';');
    lemma_up_to_first(s, ';', version);
    law_trailing_runs_are_dropped(name, '.', dots);
    law_trailing_runs_are_dropped(name, '.', 0);
    assert(name + run_of('.', 0) == name);
    lemma_dot_entries(s);
    let long = s + seq![';'] + version;
    lemma_dot_entries(long);
    assert(long[s.len() as int] == ';');
    assert(s[0] == name[0]);
    if dots > 0 {
        assert(s[s.len() - 1] == '.');
        assert(s[name.len() - 1] != '.');
    }
}

/// An identifier of dots alone is no name, with or without a version.
pub proof fn law_dots_are_no_names(dots: nat, version: Seq<char>)
    ensures
        !is_listed_name(run_of('.', dots)),
        !is_listed_name(run_of('.', dots) + seq![';'] + version),
{
    let s = run_of('.', dots);
    lemma_up_to_all(s, ';');
    lemma_up_to_first(s, ';', version);
    law_trailing_runs_are_dropped(Seq::empty(), '.', dots);
    assert(Seq::<char>::empty() + s == s);
}

proof fn lemma_dot_entries(raw: Seq<char>)
    ensures
        is_dot_entry(raw) <==> (raw.len() == 1 && ((raw[0] as u32) <= 1 || raw[0] == '.')) || (
        raw.len() == 2 && raw[0] == '.' && raw[1] == '.'),
{
    reveal_strlit("\0");
    reveal_strlit("\x01");
    reveal_strlit(".");
    reveal_strlit("..");
    if raw.len() == 1 {
        lemma_low_chars(raw[0]);
        assert(raw == seq![raw[0]]);
        assert("\0"@ == seq!['\0']);
        assert("\x01"@ == seq!['\x01']);
        assert("."@ == seq!['.']);
    } else if raw.len() == 2 {
        assert(raw == seq![raw[0], raw[1]]);
        assert(".."@ == seq!['.', '.']);
    }
}

proof fn lemma_low_chars(c: char)
    ensures
        (c as u32) <= 1 <==> c == '\0' || c == '\x01',
{
}

/// The identifiers that a directory has for itself and for its parent are not listed.
pub proof fn law_dot_entries_are_passed_over(raw: Seq<char>)
    requires
        raw.len() == 1,
        (raw[0] as u32) <= 1,
    ensures
        !is_listed_name(raw),
{
    lemma_dot_entries(raw);
}

// ---------------------------------------------------------------------------------------------
// Steps
// ---------------------------------------------------------------------------------------------

/// A file or a link with a name is visited under the path of the directory that the walk is in, a
/// slash, and the name, and the walk stays where it is; a directory with a name is gone into, under
/// such a path, and leaving it leads back. What has no name makes no difference.
pub proof fn law_steps_of_a_walk(at: WalkModel, raw: Seq<char>, kind: IsoKind)
    requires
        at.dirs.len() > 0,
    ensures
        ({
            let path = at.dirs.last() + seq!['/'] + plain_name(raw);
            let now = met(at, raw, kind);
            if !is_listed_name(raw) {
                &&& action_on(at, raw, kind) is Pass
                &&& now == at
            } else {
                match kind {
                    IsoKind::Directory => {
                        &&& action_on(at, raw, kind) == ActionModel::Enter(path)
                        &&& now.dirs == at.dirs.push(path)
                        &&& left(now).dirs == at.dirs
                        &&& left(now).stats == now.stats
                        &&& now.stats.files == at.stats.files
                        &&& now.stats.total_size == at.stats.total_size
                        &&& at.stats.dirs < u64::MAX ==> now.stats.dirs - at.stats.dirs == 1
                    },
                    IsoKind::File { size } => {
                        &&& action_on(at, raw, kind) == ActionModel::Visit(path)
                        &&& now.dirs == at.dirs
                        &&& now.stats.dirs == at.stats.dirs
                        &&& at.stats.files < u64::MAX ==> now.stats.files - at.stats.files == 1
                        &&& at.stats.total_size + size <= u64::MAX ==> now.stats.total_size
                            - at.stats.total_size == size
                    },
                    IsoKind::Symlink => {
                        &&& action_on(at, raw, kind) == ActionModel::Visit(path)
                        &&& now == at
                    },
                }
            }
        }),
{
    reveal_strlit("/");
    assert("/"@ == seq!['/']);
    let path = at.dirs.last() + seq!['/'] + plain_name(raw);
    assert(at.dirs.push(path).drop_last() == at.dirs);
}

/// A walk begins in the root, whose path is empty, with nothing counted, and cannot leave it.
pub proof fn law_walks_begin_in_the_root()
    ensures
        walk_start().dirs.len() == 1,
        walk_start().dirs[0].len() == 0,
        walk_start().stats.files == 0,
        walk_start().stats.dirs == 0,
        walk_start().stats.total_size == 0,
        left(walk_start()) == walk_start(),
{
}

// ---------------------------------------------------------------------------------------------
// Counts
// ---------------------------------------------------------------------------------------------

/// How many directories with a name an entry is or holds.
pub open spec fn node_dirs(node: IsoNode) -> nat
    decreases node, 0int,
{
    match node {
        IsoNode::Directory { name, children, .. } => if is_listed_name(name) {
            1 + tree_dirs(children, children.len())
        } else {
            0
        },
        _ => 0,
    }
}

/// How many directories with a name the first `n` entries of a directory are or hold.
pub open spec fn tree_dirs(nodes: Seq<IsoNode>, n: nat) -> nat
    decreases nodes, n,
{
    if n == 0 || n > nodes.len() {
        0
    } else {
        tree_dirs(nodes, (n - 1) as nat) + node_dirs(nodes[n - 1])
    }
}

/// A walk through a file system counts its directories, all that have a name and are reached through
/// such, as far as 64 bits hold the number.
pub proof fn law_walk_counts_the_directories(root: Seq<IsoNode>)
    ensures
        after_events(walk_start(), tree_events(root, root.len())).stats.dirs as int == tree_dirs(
            root,
            root.len(),
        ) as int % 0x1_0000_0000_0000_0000,
{
    lemma_tree_walked(walk_start(), root, root.len());
    lemma_tree_dirs(root, root.len(), walk_start().stats);
}

proof fn lemma_node_dirs(node: IsoNode, stats: WalkStats)
    ensures
        node_stats(node, stats).dirs as int == (stats.dirs + node_dirs(node))
            % 0x1_0000_0000_0000_0000,
    decreases node, 0int,
{
    match node {
        IsoNode::Directory { name, children, .. } => {
            if is_listed_name(name) {
                lemma_tree_dirs(children, children.len(), counted(stats, IsoKind::Directory));
            }
        },
        _ => {},
    }
}

proof fn lemma_tree_dirs(nodes: Seq<IsoNode>, n: nat, stats: WalkStats)
    requires
        n <= nodes.len(),
    ensures
        tree_stats(nodes, n, stats).dirs as int == (stats.dirs + tree_dirs(nodes, n))
            % 0x1_0000_0000_0000_0000,
    decreases nodes, n,
{
    if n > 0 {
        let then = tree_stats(nodes, (n - 1) as nat, stats);
        lemma_tree_dirs(nodes, (n - 1) as nat, stats);
        lemma_node_dirs(nodes[n - 1], then);
    }
}

} // verus!
