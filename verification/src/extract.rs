//! Choosing the files of an image to extract, and keeping count of them.

use crate::text::{
    chars_of, ends_with, lowercase, lowercase_text, text_ends_with, trim_start_char,
    without_leading,
};
use crate::udf::tree::UdfEntry;
use vstd::prelude::*;

verus! {

/// What an extraction came to. The counters have 64 bits and start over behind the last.
#[derive(Debug, Clone, Copy, PartialEq, Eq, Structural)]
pub struct ExtractReport {
    pub files_extracted: u64,
    pub bytes_written: u64,
}

// ---------------------------------------------------------------------------------------------
// Paths
// ---------------------------------------------------------------------------------------------

/// Where the piece of a path that begins at `from` ends: at the next slash, or at the end.
pub open spec fn piece_end(path: Seq<char>, from: int) -> int
    decreases path.len() - from,
{
    if from >= path.len() || path[from] == '/' {
        from
    } else {
        piece_end(path, from + 1)
    }
}

/// The pieces of a path from `from` on, which slashes keep apart.
pub open spec fn pieces_from(path: Seq<char>, from: int) -> Seq<Seq<char>>
    decreases path.len() - from,
    via pieces_from_decreases
{
    let end = piece_end(path, from);
    if end >= path.len() {
        seq![path.skip(from)]
    } else {
        seq![path.subrange(from, end)] + pieces_from(path, end + 1)
    }
}

#[via_fn]
proof fn pieces_from_decreases(path: Seq<char>, from: int) {
    lemma_piece_end(path, from);
}

proof fn lemma_piece_end(path: Seq<char>, from: int)
    ensures
        from <= piece_end(path, from),
        from <= path.len() ==> piece_end(path, from) <= path.len(),
    decreases path.len() - from,
{
    if from < path.len() && path[from] != '/' {
        lemma_piece_end(path, from + 1);
    }
}

/// The pieces of a path, which slashes keep apart.
pub open spec fn pieces(path: Seq<char>) -> Seq<Seq<char>> {
    pieces_from(path, 0)
}

/// Whether a path names a parent directory somewhere.
pub open spec fn names_parent(path: Seq<char>) -> bool {
    pieces(path).contains(".."@)
}

/// A path inside an image as a path relative to some directory: without the slashes at its front.
pub open spec fn relative_path(internal: Seq<char>) -> Seq<char> {
    without_leading(internal, '/')
}

/// Makes a path inside an image relative, so that it can be put below an output directory. There
/// is none for a path that names a parent directory, since it could lead out again.
pub fn sanitize_path(internal_path: &str) -> (r: Option<String>)
    ensures
        r is Some <==> !names_parent(relative_path(internal_path@)),
        r matches Some(path) ==> path@ == relative_path(internal_path@),
{
    let path: String = trim_start_char(internal_path, '/');
    if has_parent_piece(&path) {
        None
    } else {
        Some(path)
    }
}

/// Whether a path names a parent directory somewhere.
fn has_parent_piece(path: &str) -> (r: bool)
    ensures
        r == names_parent(path@),
{
    let x: Vec<char> = chars_of(path);
    let mut from: usize = 0;
    proof {
        reveal_strlit("..");
    }
    loop
        invariant
            x@ == path@,
            from <= x.len(),
            names_parent(path@) == pieces_from(path@, from as int).contains(".."@),
            ".."@.len() == 2,
            ".."@[0] == '.',
            ".."@[1] == '.',
        decreases x.len() - from,
    {
        let mut end: usize = from;
        while end < x.len() && x[end] != '/'
            invariant
                x@ == path@,
                from <= end <= x.len(),
                piece_end(path@, from as int) == piece_end(path@, end as int),
            decreases x.len() - end,
        {
            end = end + 1;
        }
        assert(piece_end(path@, from as int) == end);
        let ghost piece = path@.subrange(from as int, end as int);
        let ghost rest = pieces_from(path@, end + 1);
        let found: bool = end - from == 2 && x[from] == '.' && x[from + 1] == '.';
        assert(found == (piece == ".."@)) by {
            if found {
                assert(piece =~= ".."@);
            }
        }
        if end == x.len() {
            assert(path@.skip(from as int) == piece);
            assert(pieces_from(path@, from as int)[0] == piece);
            return found;
        }
        assert(pieces_from(path@, from as int) == seq![piece] + rest);
        if found {
            assert(pieces_from(path@, from as int)[0] == piece);
            return true;
        }
        assert(pieces_from(path@, from as int).contains(".."@) == rest.contains(".."@)) by {
            if rest.contains(".."@) {
                let i = choose|i: int| 0 <= i < rest.len() && rest[i] == ".."@;
                assert(pieces_from(path@, from as int)[i + 1] == ".."@);
            }
            if pieces_from(path@, from as int).contains(".."@) {
                let all = pieces_from(path@, from as int);
                let i = choose|i: int| 0 <= i < all.len() && all[i] == ".."@;
                assert(i > 0);
                assert(rest[i - 1] == ".."@);
            }
        }
        from = end + 1;
    }
}

// ---------------------------------------------------------------------------------------------
// The extraction
// ---------------------------------------------------------------------------------------------

/// What to do about a file.
pub enum ExtractAction {
    /// The file has another extension.
    Skip,
    /// The file has a path that could lead out of the output directory.
    Refuse,
    /// The file is to be written to this path below the output directory, which has to be made
    /// first where `make_dir` says so.
    Write { relative: String, make_dir: bool },
}

/// What to do about a file, with its path as a sequence of characters.
#[verifier::ext_equal]
pub enum ExtractModel {
    Skip,
    Refuse,
    Write { relative: Seq<char>, make_dir: bool },
}

impl View for ExtractAction {
    type V = ExtractModel;

    open spec fn view(&self) -> ExtractModel {
        match self {
            ExtractAction::Skip => ExtractModel::Skip,
            ExtractAction::Refuse => ExtractModel::Refuse,
            ExtractAction::Write { relative, make_dir } => ExtractModel::Write {
                relative: relative@,
                make_dir: *make_dir,
            },
        }
    }
}

/// An extraction that goes on.
pub struct Extraction {
    suffix: String,
    dir_made: bool,
    report: ExtractReport,
}

/// How an extraction stands: the ending, in lowercase, of the paths that it takes, whether the
/// output directory has been made, and what it came to so far.
#[verifier::ext_equal]
pub struct ExtractionModel {
    pub suffix: Seq<char>,
    pub dir_made: bool,
    pub report: ExtractReport,
}

impl View for Extraction {
    type V = ExtractionModel;

    closed spec fn view(&self) -> ExtractionModel {
        ExtractionModel { suffix: self.suffix@, dir_made: self.dir_made, report: self.report }
    }
}

/// How an extraction of the files with an extension begins, given the extension in lowercase.
pub open spec fn extraction_of(extension: Seq<char>) -> ExtractionModel {
    ExtractionModel {
        suffix: "."@ + extension,
        dir_made: false,
        report: ExtractReport { files_extracted: 0, bytes_written: 0 },
    }
}

/// What to do about the file at `path`, given its path in lowercase too.
pub open spec fn action_for(
    at: ExtractionModel,
    path: Seq<char>,
    lowered: Seq<char>,
) -> ExtractModel {
    if !text_ends_with(lowered, at.suffix) {
        ExtractModel::Skip
    } else if names_parent(relative_path(path)) {
        ExtractModel::Refuse
    } else {
        ExtractModel::Write { relative: relative_path(path), make_dir: !at.dir_made }
    }
}

/// How an extraction stands once something has been decided about a file.
pub open spec fn decided(at: ExtractionModel, action: ExtractModel) -> ExtractionModel {
    ExtractionModel { dir_made: at.dir_made || action is Write, ..at }
}

/// How an extraction stands once bytes have been written.
pub open spec fn with_bytes(at: ExtractionModel, bytes: u64) -> ExtractionModel {
    ExtractionModel {
        report: ExtractReport {
            bytes_written: at.report.bytes_written.wrapping_add(bytes),
            ..at.report
        },
        ..at
    }
}

/// How an extraction stands once a file has been written to its end.
pub open spec fn with_file(at: ExtractionModel) -> ExtractionModel {
    ExtractionModel {
        report: ExtractReport {
            files_extracted: at.report.files_extracted.wrapping_add(1),
            ..at.report
        },
        ..at
    }
}

impl Extraction {
    /// Begins to extract the files with an extension, given without its dot.
    pub fn new(extension: &str) -> (r: Extraction)
        ensures
            r@ == extraction_of(lowercase(extension@)),
    {
        Extraction::of_lowercase(&lowercase_text(extension))
    }

    /// Begins to extract the files with an extension, given in lowercase and without its dot.
    pub fn of_lowercase(extension: &str) -> (r: Extraction)
        ensures
            r@ == extraction_of(extension@),
    {
        let mut suffix: String = String::from_str(".");
        suffix.append(extension);
        Extraction {
            suffix,
            dir_made: false,
            report: ExtractReport { files_extracted: 0, bytes_written: 0 },
        }
    }

    /// Decides about the file at `path`.
    pub fn offer(&mut self, path: &str) -> (r: ExtractAction)
        ensures
            r@ == action_for(old(self)@, path@, lowercase(path@)),
            final(self)@ == decided(old(self)@, r@),
    {
        self.offer_lowered(path, &lowercase_text(path))
    }

    /// Decides about the file at `path`, whose path in lowercase is `lowered`.
    pub fn offer_lowered(&mut self, path: &str, lowered: &str) -> (r: ExtractAction)
        ensures
            r@ == action_for(old(self)@, path@, lowered@),
            final(self)@ == decided(old(self)@, r@),
    {
        if !ends_with(lowered, &self.suffix) {
            return ExtractAction::Skip;
        }
        match sanitize_path(path) {
            None => ExtractAction::Refuse,
            Some(relative) => {
                let make_dir: bool = !self.dir_made;
                self.dir_made = true;
                ExtractAction::Write { relative, make_dir }
            },
        }
    }

    /// Decides about an entry of a UDF volume: directories are not extracted.
    pub fn offer_entry(&mut self, entry: &UdfEntry) -> (r: ExtractAction)
        ensures
            r@ == if entry.is_dir {
                ExtractModel::Skip
            } else {
                action_for(old(self)@, entry.path@, lowercase(entry.path@))
            },
            final(self)@ == decided(old(self)@, r@),
    {
        if entry.is_dir {
            ExtractAction::Skip
        } else {
            self.offer(&entry.path)
        }
    }

    /// Counts bytes that have been written.
    pub fn wrote(&mut self, bytes: u64)
        ensures
            final(self)@ == with_bytes(old(self)@, bytes),
    {
        self.report.bytes_written = self.report.bytes_written.wrapping_add(bytes);
    }

    /// Counts a file that has been written to its end.
    pub fn finished_file(&mut self)
        ensures
            final(self)@ == with_file(old(self)@),
    {
        self.report.files_extracted = self.report.files_extracted.wrapping_add(1);
    }

    /// What the extraction came to so far.
    pub fn report(&self) -> (r: ExtractReport)
        ensures
            r == self@.report,
    {
        self.report
    }
}

// ---------------------------------------------------------------------------------------------
// Laws
// ---------------------------------------------------------------------------------------------

/// How far below its beginning a path leads after these pieces: `..` goes up, an empty piece and
/// `.` stay, and any other piece goes down.
pub open spec fn level(pieces: Seq<Seq<char>>) -> int
    decreases pieces.len(),
{
    if pieces.len() == 0 {
        0
    } else {
        level(pieces.drop_last()) + if pieces.last() == ".."@ {
            -1int
        } else if pieces.last() == "."@ || pieces.last().len() == 0 {
            0
        } else {
            1
        }
    }
}

/// A path that a file is written to is relative and leads, at none of its pieces, above the output
/// directory.
pub proof fn law_extraction_stays_inside(
    at: ExtractionModel,
    path: Seq<char>,
    lowered: Seq<char>,
)
    ensures
        action_for(at, path, lowered) matches ExtractModel::Write { relative, .. } ==> {
            &&& relative.len() > 0 ==> relative[0] != '/'
            &&& forall|k: int|
                0 <= k <= pieces(relative).len() ==> level(#[trigger] pieces(relative).take(k)) >= 0
        },
{
    if let ExtractModel::Write { relative, .. } = action_for(at, path, lowered) {
        lemma_without_leading(path, '/');
        let all = pieces(relative);
        assert forall|k: int| 0 <= k <= all.len() implies level(#[trigger] all.take(k)) >= 0 by {
            lemma_no_parent_no_climb(all, k);
        }
    }
}

proof fn lemma_without_leading(s: Seq<char>, c: char)
    ensures
        without_leading(s, c).len() > 0 ==> without_leading(s, c)[0] != c,
    decreases s.len(),
{
    if s.len() > 0 && s[0] == c {
        lemma_without_leading(s.drop_first(), c);
    }
}

proof fn lemma_no_parent_no_climb(all: Seq<Seq<char>>, k: int)
    requires
        !all.contains(".."@),
        0 <= k <= all.len(),
    ensures
        level(all.take(k)) >= 0,
    decreases k,
{
    if k > 0 {
        lemma_no_parent_no_climb(all, k - 1);
        assert(all.take(k).drop_last() == all.take(k - 1));
        assert(all.contains(all[k - 1]));
    }
}

/// How an extraction stands before the `i`-th of the files that it is offered, each given by its
/// path and its path in lowercase.
pub open spec fn before_offer(
    at: ExtractionModel,
    files: Seq<(Seq<char>, Seq<char>)>,
    i: int,
) -> ExtractionModel
    decreases i, 0int,
{
    if i <= 0 {
        at
    } else {
        decided(before_offer(at, files, i - 1), action_on_offer(at, files, i - 1))
    }
}

/// What is decided about the `i`-th of the files that an extraction is offered.
pub open spec fn action_on_offer(
    at: ExtractionModel,
    files: Seq<(Seq<char>, Seq<char>)>,
    i: int,
) -> ExtractModel
    decreases i, 1int,
{
    action_for(before_offer(at, files, i), files[i].0, files[i].1)
}

/// An extraction writes exactly the files whose paths end, in lowercase, in the extension behind a
/// dot, each to its own path below the output directory, except for those whose paths name a parent
/// directory, which it refuses. What came before makes no difference to this.
pub proof fn law_extraction_takes_matching_files(
    extension: Seq<char>,
    files: Seq<(Seq<char>, Seq<char>)>,
    i: int,
)
    requires
        0 <= i < files.len(),
    ensures
        ({
            let action = action_on_offer(extraction_of(extension), files, i);
            let matches_extension = text_ends_with(files[i].1, "."@ + extension);
            let relative_to = relative_path(files[i].0);
            &&& action is Skip <==> !matches_extension
            &&& action is Refuse <==> matches_extension && names_parent(relative_to)
            &&& action matches ExtractModel::Write { relative, .. } ==> relative == relative_to
        }),
{
    lemma_suffix_stays(extraction_of(extension), files, i);
}

proof fn lemma_suffix_stays(at: ExtractionModel, files: Seq<(Seq<char>, Seq<char>)>, i: int)
    ensures
        before_offer(at, files, i).suffix == at.suffix,
    decreases i,
{
    if i > 0 {
        lemma_suffix_stays(at, files, i - 1);
    }
}

/// The output directory is made for the first file that is written and for no other.
pub proof fn law_directory_is_made_once(
    extension: Seq<char>,
    files: Seq<(Seq<char>, Seq<char>)>,
    i: int,
)
    requires
        0 <= i < files.len(),
    ensures
        action_on_offer(extraction_of(extension), files, i) matches ExtractModel::Write {
            make_dir,
            ..
        } ==> (make_dir <==> forall|j: int|
            0 <= j < i ==> (#[trigger] action_on_offer(extraction_of(extension), files, j)) !is Write),
{
    lemma_dir_made(extraction_of(extension), files, i);
}

proof fn lemma_dir_made(at: ExtractionModel, files: Seq<(Seq<char>, Seq<char>)>, i: int)
    requires
        0 <= i <= files.len(),
        !at.dir_made,
    ensures
        before_offer(at, files, i).dir_made <==> exists|j: int|
            0 <= j < i && (#[trigger] action_on_offer(at, files, j)) is Write,
    decreases i,
{
    if i > 0 {
        lemma_dir_made(at, files, i - 1);
        assert(before_offer(at, files, i) == decided(
            before_offer(at, files, i - 1),
            action_on_offer(at, files, i - 1),
        ));
    }
}

/// A file that an extraction is offered: its path, its path in lowercase, and the sizes of the
/// pieces that its contents are written in.
pub struct OfferedFile {
    pub path: Seq<char>,
    pub lowered: Seq<char>,
    pub pieces: Seq<u64>,
}

impl OfferedFile {
    /// Whether the file is written: it has the extension, and its path names no parent directory.
    pub open spec fn is_taken(self, extension: Seq<char>) -> bool {
        text_ends_with(self.lowered, "."@ + extension) && !names_parent(relative_path(self.path))
    }
}

/// How an extraction stands once pieces of these sizes have been written.
pub open spec fn with_pieces(at: ExtractionModel, pieces: Seq<u64>) -> ExtractionModel
    decreases pieces.len(),
{
    if pieces.len() == 0 {
        at
    } else {
        with_bytes(with_pieces(at, pieces.drop_last()), pieces.last())
    }
}

/// How an extraction stands once it has been offered files, one after the other, each that is to
/// be written having been written, piece by piece and to its end.
pub open spec fn after_files(at: ExtractionModel, files: Seq<OfferedFile>) -> ExtractionModel
    decreases files.len(),
{
    if files.len() == 0 {
        at
    } else {
        let before = after_files(at, files.drop_last());
        let file = files.last();
        let action = action_for(before, file.path, file.lowered);
        let then = decided(before, action);
        if action is Write {
            with_file(with_pieces(then, file.pieces))
        } else {
            then
        }
    }
}

/// The sum of sizes.
pub open spec fn sum_of(sizes: Seq<u64>) -> nat
    decreases sizes.len(),
{
    if sizes.len() == 0 {
        0
    } else {
        sum_of(sizes.drop_last()) + sizes.last() as nat
    }
}

/// How many of the files are written.
pub open spec fn files_taken(extension: Seq<char>, files: Seq<OfferedFile>) -> nat
    decreases files.len(),
{
    if files.len() == 0 {
        0
    } else {
        files_taken(extension, files.drop_last()) + if files.last().is_taken(extension) {
            1nat
        } else {
            0nat
        }
    }
}

/// How many bytes the files that are written have together.
pub open spec fn bytes_taken(extension: Seq<char>, files: Seq<OfferedFile>) -> nat
    decreases files.len(),
{
    if files.len() == 0 {
        0
    } else {
        bytes_taken(extension, files.drop_last()) + if files.last().is_taken(extension) {
            sum_of(files.last().pieces)
        } else {
            0nat
        }
    }
}

/// The report of a whole extraction tells how many files had the extension and a path that names
/// no parent directory, and how many bytes these had together, as far as 64 bits hold the numbers.
pub proof fn law_report_tells_what_was_written(extension: Seq<char>, files: Seq<OfferedFile>)
    ensures
        ({
            let report = after_files(extraction_of(extension), files).report;
            &&& report.files_extracted as int == files_taken(extension, files) as int
                % 0x1_0000_0000_0000_0000
            &&& report.bytes_written as int == bytes_taken(extension, files) as int
                % 0x1_0000_0000_0000_0000
        }),
    decreases files.len(),
{
    if files.len() > 0 {
        law_report_tells_what_was_written(extension, files.drop_last());
        lemma_suffix_kept(extraction_of(extension), files.drop_last());
        let before = after_files(extraction_of(extension), files.drop_last());
        let file = files.last();
        let then = decided(before, action_for(before, file.path, file.lowered));
        lemma_pieces_add_up(then, file.pieces);
    }
}

proof fn lemma_pieces_add_up(at: ExtractionModel, pieces: Seq<u64>)
    ensures
        with_pieces(at, pieces).suffix == at.suffix,
        with_pieces(at, pieces).dir_made == at.dir_made,
        with_pieces(at, pieces).report.files_extracted == at.report.files_extracted,
        with_pieces(at, pieces).report.bytes_written as int == (at.report.bytes_written + sum_of(
            pieces,
        )) % 0x1_0000_0000_0000_0000,
    decreases pieces.len(),
{
    if pieces.len() > 0 {
        lemma_pieces_add_up(at, pieces.drop_last());
    }
}

proof fn lemma_suffix_kept(at: ExtractionModel, files: Seq<OfferedFile>)
    ensures
        after_files(at, files).suffix == at.suffix,
    decreases files.len(),
{
    if files.len() > 0 {
        lemma_suffix_kept(at, files.drop_last());
        let before = after_files(at, files.drop_last());
        let file = files.last();
        let then = decided(before, action_for(before, file.path, file.lowered));
        lemma_pieces_add_up(then, file.pieces);
    }
}

} // verus!
