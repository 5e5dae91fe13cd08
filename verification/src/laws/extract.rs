//! Laws of choosing files to extract.

use crate::extract::{
    action_for, action_on_offer, before_offer, decided, extraction_of, names_parent, piece_end,
    pieces_from, relative_path, with_bytes, with_file, ExtractModel, ExtractReport,
    ExtractionModel,
};
use crate::laws::text::{
    law_endings_are_suffixes, law_leading_runs_are_dropped, lemma_split_push, lemma_split_whole,
    run_of, split,
};
use vstd::prelude::*;

verus! {

// ---------------------------------------------------------------------------------------------
// Paths
// ---------------------------------------------------------------------------------------------

/// A part before the first `c` is the first part.
proof fn lemma_split_front(part: Seq<char>, c: char, rest: Seq<char>)
    requires
        !part.contains(c),
    ensures
        split(part + seq![c] + rest, c) == seq![part] + split(rest, c),
    decreases rest.len(),
{
    let whole = part + seq![c] + rest;
    if rest.len() == 0 {
        lemma_split_whole(part, c);
        assert(whole.drop_last() == part);
        assert(whole.last() == c);
        assert(split(rest, c) == seq![Seq::<char>::empty()]);
    } else {
        let shorter = rest.drop_last();
        lemma_split_front(part, c, shorter);
        assert(whole.drop_last() == part + seq![c] + shorter);
        assert(whole.last() == rest.last());
        let tail = split(shorter, c);
        lemma_split_is_some(shorter, c);
        assert((seq![part] + tail).last() == tail.last());
        assert((seq![part] + tail).drop_last() == seq![part] + tail.drop_last());
    }
}

proof fn lemma_split_is_some(s: Seq<char>, c: char)
    ensures
        split(s, c).len() > 0,
    decreases s.len(),
{
    if s.len() > 0 {
        lemma_split_is_some(s.drop_last(), c);
    }
}

proof fn lemma_no_slash_before(path: Seq<char>, from: int)
    requires
        0 <= from <= path.len(),
    ensures
        from <= piece_end(path, from) <= path.len(),
        !path.subrange(from, piece_end(path, from)).contains('/'),
        piece_end(path, from) < path.len() ==> path[piece_end(path, from)] == '/',
    decreases path.len() - from,
{
    if from < path.len() && path[from] != '/' {
        lemma_no_slash_before(path, from + 1);
        let end = piece_end(path, from);
        let piece = path.subrange(from, end);
        let behind = path.subrange(from + 1, end);
        assert forall|i: int| 0 <= i < piece.len() implies piece[i] != '/' by {
            if i > 0 {
                assert(behind[i - 1] == piece[i]);
                assert(behind.contains(behind[i - 1]));
            }
        }
    }
}

proof fn lemma_pieces_are_parts(path: Seq<char>, from: int)
    requires
        0 <= from <= path.len(),
    ensures
        pieces_from(path, from) == split(path.skip(from), '/'),
    decreases path.len() - from,
{
    lemma_no_slash_before(path, from);
    let end = piece_end(path, from);
    let piece = path.subrange(from, end);
    if end >= path.len() {
        assert(path.skip(from) == piece);
        lemma_split_whole(piece, '/');
    } else {
        lemma_pieces_are_parts(path, end + 1);
        assert(path.skip(from) == piece + seq!['/'] + path.skip(end + 1));
        lemma_split_front(piece, '/', path.skip(end + 1));
    }
}

/// A path names a parent directory exactly where one of its parts, which slashes keep apart, is two
/// dots.
pub proof fn law_parents_are_two_dots(path: Seq<char>)
    ensures
        names_parent(path) <==> split(path, '/').contains(seq!['.', '.']),
{
    reveal_strlit("..");
    lemma_pieces_are_parts(path, 0);
    assert(path.skip(0) == path);
    assert(".."@ == seq!['.', '.']);
}

/// A path is safe wherever it is put together, with slashes between, from names none of which is
/// two dots, and unsafe wherever one of them is.
pub proof fn law_safe_paths_are_made_of_safe_names(path: Seq<char>, name: Seq<char>)
    requires
        !name.contains('/'),
    ensures
        names_parent(path + seq!['/'] + name) <==> names_parent(path) || name == seq!['.', '.'],
        names_parent(name) <==> name == seq!['.', '.'],
{
    law_parents_are_two_dots(path);
    law_parents_are_two_dots(name);
    law_parents_are_two_dots(path + seq!['/'] + name);
    lemma_split_push(path, '/', name);
    lemma_split_whole(name, '/');
    let dots = seq!['.', '.'];
    let parts = split(path, '/');
    let more = parts.push(name);
    if parts.contains(dots) {
        let i = choose|i: int| 0 <= i < parts.len() && parts[i] == dots;
        assert(more[i] == dots);
    }
    if more.contains(dots) {
        let i = choose|i: int| 0 <= i < more.len() && more[i] == dots;
        if i < parts.len() {
            assert(parts[i] == dots);
        }
    }
    if name == dots {
        assert(more[parts.len() as int] == dots);
        assert(seq![name][0] == dots);
    }
    if seq![name].contains(dots) {
        let i = choose|i: int| 0 <= i < seq![name].len() && seq![name][i] == dots;
        assert(i == 0);
    }
}

/// A path inside an image becomes relative by losing the slashes at its front and nothing else.
pub proof fn law_relative_paths_lose_only_slashes(path: Seq<char>, slashes: nat)
    requires
        path.len() > 0 ==> path[0] != '/',
    ensures
        relative_path(run_of('/', slashes) + path) == path,
{
    law_leading_runs_are_dropped(path, '/', slashes);
}

// ---------------------------------------------------------------------------------------------
// Files
// ---------------------------------------------------------------------------------------------

/// Whether a path in lowercase is some stem, a dot, and the extension.
pub open spec fn has_extension(lowered: Seq<char>, extension: Seq<char>) -> bool {
    exists|stem: Seq<char>| lowered == #[trigger] (stem + (seq!['.'] + extension))
}

/// Whether one of the parts of a path, which slashes keep apart, is two dots.
pub open spec fn has_two_dots(path: Seq<char>) -> bool {
    split(path, '/').contains(seq!['.', '.'])
}

/// Of the files that an extraction is offered, whatever they are and in whatever order, exactly
/// those are skipped whose path in lowercase is no stem with a dot and the extension behind it. Of
/// the others those are refused that have two dots for a part of their path without the slashes at
/// its front, and all others are written, to that path.
pub proof fn law_files_with_the_extension_are_written(
    extension: Seq<char>,
    files: Seq<(Seq<char>, Seq<char>)>,
    i: int,
    path: Seq<char>,
    slashes: nat,
)
    requires
        0 <= i < files.len(),
        files[i].0 == run_of('/', slashes) + path,
        path.len() > 0 ==> path[0] != '/',
    ensures
        ({
            let action = action_on_offer(extraction_of(extension), files, i);
            if !has_extension(files[i].1, extension) {
                action is Skip
            } else if has_two_dots(path) {
                action is Refuse
            } else {
                action matches ExtractModel::Write { relative, .. } && relative == path
            }
        }),
{
    reveal_strlit(".");
    let suffix = seq!['.'] + extension;
    assert("."@ + extension == suffix);
    lemma_same_suffix(extraction_of(extension), files, i);
    law_endings_are_suffixes(files[i].1, suffix);
    law_relative_paths_lose_only_slashes(path, slashes);
    law_parents_are_two_dots(path);
}

proof fn lemma_same_suffix(at: ExtractionModel, files: Seq<(Seq<char>, Seq<char>)>, i: int)
    ensures
        before_offer(at, files, i).suffix == at.suffix,
    decreases i,
{
    if i > 0 {
        lemma_same_suffix(at, files, i - 1);
    }
}

/// A file whose path in lowercase is any stem with a dot and the extension behind it, and whose path
/// has no part of two dots, is written.
pub proof fn law_stem_and_extension_are_written(
    stem: Seq<char>,
    extension: Seq<char>,
    path: Seq<char>,
)
    requires
        path.len() > 0 ==> path[0] != '/',
        !has_two_dots(path),
    ensures
        action_for(extraction_of(extension), path, stem + seq!['.'] + extension)
            == (ExtractModel::Write { relative: path, make_dir: true }),
{
    let lowered = stem + seq!['.'] + extension;
    let files = seq![(path, lowered)];
    assert(lowered == stem + (seq!['.'] + extension));
    assert(run_of('/', 0) + path == path);
    assert(before_offer(extraction_of(extension), files, 0) == extraction_of(extension));
    law_files_with_the_extension_are_written(extension, files, 0, path, 0);
}

/// Deciding about a file and writing it leave all else as it is: only a file that is written has the
/// output directory made, bytes count as bytes, and a file counts as one file.
pub proof fn law_counts_are_kept_apart(at: ExtractionModel, action: ExtractModel, bytes: u64)
    ensures
        decided(at, action).suffix == at.suffix,
        decided(at, action).report == at.report,
        decided(at, action).dir_made <==> at.dir_made || action is Write,
        with_bytes(at, bytes).suffix == at.suffix,
        with_bytes(at, bytes).dir_made == at.dir_made,
        with_bytes(at, bytes).report.files_extracted == at.report.files_extracted,
        at.report.bytes_written + bytes <= u64::MAX ==> with_bytes(at, bytes).report.bytes_written
            - at.report.bytes_written == bytes,
        with_file(at).suffix == at.suffix,
        with_file(at).dir_made == at.dir_made,
        with_file(at).report.bytes_written == at.report.bytes_written,
        at.report.files_extracted < u64::MAX ==> with_file(at).report.files_extracted
            - at.report.files_extracted == 1,
        !extraction_of(seq![]).dir_made,
        extraction_of(seq![]).report == (ExtractReport { files_extracted: 0, bytes_written: 0 }),
{
}

} // verus!
