//! Indexes: one line of text for each file of an image, behind a header.

use crate::iso::WalkStats;
use crate::text::{
    decimal, law_numerals_tell_numbers_apart, lemma_numeral_is_digits, lemma_split_at, push_decimal,
    trim, trimmed,
};
use crate::timestamp::{format_time, law_time_text_is_graphic, time_text, Timestamp};
use crate::udf::descriptor::Disk;
use crate::udf::laws::{is_walk_run, law_walk_follows_the_disc};
use crate::udf::open::{is_opening_run, law_opening_follows_the_disc, open_volume, OpenStep};
use crate::udf::tree::{
    content_size, entries_view, sums_up, walk_volume, EntryModel, Tally, UdfEntry,
};
use crate::udf::walk::WalkStep;
use vstd::prelude::*;

verus! {

// ---------------------------------------------------------------------------------------------
// Lines
// ---------------------------------------------------------------------------------------------

/// The line of a file.
pub open spec fn file_text(path: Seq<char>, size: nat, modified: Seq<char>) -> Seq<char> {
    path + "\t"@ + decimal(size) + "\t"@ + modified + "\tfile"@
}

/// The line of a symbolic link.
pub open spec fn symlink_text(
    path: Seq<char>,
    modified: Seq<char>,
    target: Seq<char>,
) -> Seq<char> {
    path + "\t0\t"@ + modified + "\tsymlink->"@ + target
}

/// The line of a file of a UDF volume; one without a time has `-` in its place.
pub open spec fn entry_text(entry: EntryModel) -> Seq<char> {
    file_text(
        entry.path,
        entry.size as nat,
        match entry.modified {
            Some(t) => time_text(t),
            None => "-"@,
        },
    )
}

/// An entry of an ISO 9660 file system that an index has a line for.
pub enum IsoListed {
    File { size: u64 },
    /// A symbolic link, with what it points to where that is known.
    Symlink { target: Option<String> },
}

/// An entry of an ISO 9660 file system that an index has a line for, with what a link points to as
/// a sequence of characters.
#[verifier::ext_equal]
pub enum ListedModel {
    File { size: u64 },
    Symlink { target: Option<Seq<char>> },
}

impl View for IsoListed {
    type V = ListedModel;

    open spec fn view(&self) -> ListedModel {
        match self {
            IsoListed::File { size } => ListedModel::File { size: *size },
            IsoListed::Symlink { target } => ListedModel::Symlink {
                target: match target {
                    Some(target) => Some(target@),
                    None => None,
                },
            },
        }
    }
}

/// The line of an entry of an ISO 9660 file system.
pub open spec fn iso_text(path: Seq<char>, listed: ListedModel, modified: Timestamp) -> Seq<char> {
    match listed {
        ListedModel::File { size } => file_text(path, size as nat, time_text(modified)),
        ListedModel::Symlink { target } => symlink_text(
            path,
            time_text(modified),
            match target {
                Some(target) => target,
                None => "?"@,
            },
        ),
    }
}

/// The line of a file.
fn file_line(path: &str, size: u64, modified: &str) -> (line: String)
    ensures
        line@ == file_text(path@, size as nat, modified@),
{
    let mut line: String = String::from_str(path);
    line.append("\t");
    push_decimal(&mut line, size);
    line.append("\t");
    line.append(modified);
    line.append("\tfile");
    line
}

/// The line of an entry of an ISO 9660 file system.
pub fn iso_line(path: &str, listed: &IsoListed, modified: Timestamp) -> (line: String)
    ensures
        line@ == iso_text(path@, listed@, modified),
{
    let time: String = format_time(modified);
    match listed {
        IsoListed::File { size } => file_line(path, *size, &time),
        IsoListed::Symlink { target } => {
            let mut line: String = String::from_str(path);
            line.append("\t0\t");
            line.append(&time);
            line.append("\tsymlink->");
            match target {
                Some(target) => line.append(target),
                None => line.append("?"),
            }
            line
        },
    }
}

/// The line of a file of a UDF volume.
pub fn entry_line(entry: &UdfEntry) -> (line: String)
    ensures
        line@ == entry_text(entry@),
{
    let modified: String = match entry.modified {
        Some(t) => format_time(t),
        None => String::from_str("-"),
    };
    file_line(&entry.path, entry.size, &modified)
}

/// The contents of lines.
pub open spec fn line_views(lines: Seq<String>) -> Seq<Seq<char>> {
    lines.map_values(|line: String| line@)
}

/// The lines of the files of a UDF volume.
pub open spec fn entry_texts(entries: Seq<EntryModel>) -> Seq<Seq<char>> {
    entries.map_values(|entry: EntryModel| entry_text(entry))
}

/// The lines of the files of a UDF volume, in their order.
pub fn entry_lines(entries: &Vec<UdfEntry>) -> (lines: Vec<String>)
    ensures
        line_views(lines@) == entry_texts(entries_view(entries@)),
{
    let mut lines: Vec<String> = Vec::new();
    let mut i: usize = 0;
    while i < entries.len()
        invariant
            i <= entries.len(),
            lines@.len() == i,
            forall|j: int| 0 <= j < i ==> (#[trigger] lines@[j])@ == entry_text(entries@[j]@),
        decreases entries.len() - i,
    {
        lines.push(entry_line(&entries[i]));
        i = i + 1;
    }
    lines
}

// ---------------------------------------------------------------------------------------------
// The whole index
// ---------------------------------------------------------------------------------------------

/// What the header of an index tells of its image.
pub struct IndexHeader {
    pub source: String,
    pub volume: String,
    pub format: String,
    pub iso_size: u64,
}

/// What the header of an index tells of its image, with texts as sequences of characters.
#[verifier::ext_equal]
pub struct HeaderModel {
    pub source: Seq<char>,
    pub volume: Seq<char>,
    pub format: Seq<char>,
    pub iso_size: u64,
}

impl View for IndexHeader {
    type V = HeaderModel;

    open spec fn view(&self) -> HeaderModel {
        HeaderModel {
            source: self.source@,
            volume: self.volume@,
            format: self.format@,
            iso_size: self.iso_size,
        }
    }
}

/// The lines of the header of an index.
pub open spec fn header_texts(header: HeaderModel, stats: WalkStats) -> Seq<Seq<char>> {
    seq![
        "# iso-ripper index"@,
        "# source: "@ + header.source,
        "# volume: "@ + header.volume,
        "# format: "@ + header.format,
        "# iso_size: "@ + decimal(header.iso_size as nat),
        "# files: "@ + decimal(stats.files as nat),
        "# dirs: "@ + decimal(stats.dirs as nat),
        "# total_content_size: "@ + decimal(stats.total_size as nat),
        "#"@,
        "# PATH\tSIZE\tMODIFIED\tTYPE"@,
    ]
}

/// Lines in a row, each with a line feed behind it.
pub open spec fn terminated(lines: Seq<Seq<char>>) -> Seq<char>
    decreases lines.len(),
{
    if lines.len() == 0 {
        seq![]
    } else {
        terminated(lines.drop_last()) + lines.last() + "\n"@
    }
}

/// The text of an index.
pub open spec fn index_text(
    header: HeaderModel,
    stats: WalkStats,
    lines: Seq<Seq<char>>,
) -> Seq<char> {
    terminated(header_texts(header, stats) + lines)
}

/// A label with a text behind it.
fn labelled(label: &str, text: &str) -> (line: String)
    ensures
        line@ == label@ + text@,
{
    let mut line: String = String::from_str(label);
    line.append(text);
    line
}

/// A label with a number behind it.
fn labelled_number(label: &str, n: u64) -> (line: String)
    ensures
        line@ == label@ + decimal(n as nat),
{
    let mut line: String = String::from_str(label);
    push_decimal(&mut line, n);
    line
}

/// Appends lines, each with a line feed behind it.
fn push_lines(out: &mut String, lines: &Vec<String>)
    ensures
        final(out)@ == old(out)@ + terminated(line_views(lines@)),
{
    let ghost all = line_views(lines@);
    let mut i: usize = 0;
    assert(out@ == old(out)@ + terminated(all.take(0)));
    while i < lines.len()
        invariant
            i <= lines.len(),
            all == line_views(lines@),
            out@ == old(out)@ + terminated(all.take(i as int)),
        decreases lines.len() - i,
    {
        out.append(&lines[i]);
        out.append("\n");
        assert(all.take(i + 1).drop_last() == all.take(i as int));
        assert(out@ == old(out)@ + (terminated(all.take(i as int)) + all[i as int] + "\n"@));
        i = i + 1;
    }
    assert(all.take(i as int) == all);
}

proof fn lemma_terminated_chain(first: Seq<Seq<char>>, second: Seq<Seq<char>>)
    ensures
        terminated(first + second) == terminated(first) + terminated(second),
    decreases second.len(),
{
    if second.len() == 0 {
        assert(first + second == first);
    } else {
        lemma_terminated_chain(first, second.drop_last());
        assert((first + second).drop_last() == first + second.drop_last());
    }
}

/// Writes the index of an image.
pub fn write_index(header: &IndexHeader, stats: &WalkStats, lines: &Vec<String>) -> (text: String)
    ensures
        text@ == index_text(header@, *stats, line_views(lines@)),
{
    let mut head: Vec<String> = Vec::new();
    head.push(String::from_str("# iso-ripper index"));
    head.push(labelled("# source: ", &header.source));
    head.push(labelled("# volume: ", &header.volume));
    head.push(labelled("# format: ", &header.format));
    head.push(labelled_number("# iso_size: ", header.iso_size));
    head.push(labelled_number("# files: ", stats.files));
    head.push(labelled_number("# dirs: ", stats.dirs));
    head.push(labelled_number("# total_content_size: ", stats.total_size));
    head.push(String::from_str("#"));
    head.push(String::from_str("# PATH\tSIZE\tMODIFIED\tTYPE"));
    assert(line_views(head@) == header_texts(header@, *stats));
    let mut text: String = String::new();
    push_lines(&mut text, &head);
    push_lines(&mut text, lines);
    proof {
        lemma_terminated_chain(line_views(head@), line_views(lines@));
    }
    text
}

/// The name of an ISO 9660 file system with its extensions.
pub open spec fn iso_format(has_joliet: bool, has_rock_ridge: bool) -> Seq<char> {
    "ISO9660"@ + (if has_joliet {
        "+Joliet"@
    } else {
        seq![]
    }) + (if has_rock_ridge {
        "+RockRidge"@
    } else {
        seq![]
    })
}

/// Writes the index of an image with an ISO 9660 file system, given the lines of its files. The
/// volume set identifier counts without the white space around it.
pub fn index_iso9660(
    source: &str,
    volume_set_identifier: &str,
    has_joliet: bool,
    has_rock_ridge: bool,
    iso_size: u64,
    stats: &WalkStats,
    lines: &Vec<String>,
) -> (text: String)
    ensures
        text@ == index_text(
            (HeaderModel {
                source: source@,
                volume: trimmed(volume_set_identifier@),
                format: iso_format(has_joliet, has_rock_ridge),
                iso_size,
            }),
            *stats,
            line_views(lines@),
        ),
{
    let mut format: String = String::from_str("ISO9660");
    if has_joliet {
        format.append("+Joliet");
    }
    if has_rock_ridge {
        format.append("+RockRidge");
    }
    assert(format@ == iso_format(has_joliet, has_rock_ridge));
    let header = IndexHeader {
        source: String::from_str(source),
        volume: trim(volume_set_identifier),
        format,
        iso_size,
    };
    write_index(&header, stats, lines)
}

/// Writes the index of an image with a UDF volume, given what a walk through the volume came to.
pub fn index_udf(
    source: &str,
    volume_id: &str,
    iso_size: u64,
    stats: &WalkStats,
    entries: &Vec<UdfEntry>,
) -> (text: String)
    ensures
        text@ == index_text(
            (HeaderModel { source: source@, volume: volume_id@, format: "UDF"@, iso_size }),
            *stats,
            entry_texts(entries_view(entries@)),
        ),
{
    let header = IndexHeader {
        source: String::from_str(source),
        volume: String::from_str(volume_id),
        format: String::from_str("UDF"),
        iso_size,
    };
    write_index(&header, stats, &entry_lines(entries))
}

/// The name of the file that the index of an image goes to, given the name of the image without
/// its extension.
pub fn index_file_name(stem: &str) -> (r: String)
    ensures
        r@ == stem@ + ".txt"@,
{
    labelled(stem, ".txt")
}

// ---------------------------------------------------------------------------------------------
// Laws
// ---------------------------------------------------------------------------------------------

/// The index of a UDF volume has a line for each file that its header counts, and the header gives
/// the sum of the sizes in the lines, as far as 64 bits hold it.
pub proof fn law_udf_index_counts_its_lines(stats: WalkStats, tally: Tally)
    requires
        sums_up(stats, tally),
    ensures
        entry_texts(tally.entries).len() == stats.files,
        content_size(tally.entries) <= u64::MAX ==> stats.total_size == content_size(tally.entries),
{
}

/// The index of a UDF volume tells what is on the disc: where opening the volume sector by sector
/// and then walking through it go well, its header has the identifier of the volume, its lines are
/// those of the files of the volume, in their order, and its counts are those of the files.
pub proof fn law_udf_index_tells_the_disc(
    disk: Disk,
    depth: nat,
    opening: Seq<OpenStep>,
    walking: Seq<WalkStep>,
    source: Seq<char>,
    iso_size: u64,
)
    requires
        is_opening_run(disk, opening),
        opening.last() is Opened,
        walk_volume(disk, opening.last()->Opened_0@.partition_start, depth) is Some,
        is_walk_run(disk, opening.last()->Opened_0@.partition_start, depth, walking),
        walking.last() is Done,
    ensures
        ({
            let volume = opening.last()->Opened_0;
            let stats = walking.last()->Done_stats;
            let entries = entries_view(walking.last()->Done_entries@);
            let found = open_volume(disk).result;
            let listed = walk_volume(disk, volume@.partition_start, depth)->0;
            &&& found is Ok
            &&& listed.error is None
            &&& sums_up(stats, listed.met)
            &&& index_text(
                HeaderModel { source, volume: volume@.volume_id, format: "UDF"@, iso_size },
                stats,
                entry_texts(entries),
            ) == index_text(
                HeaderModel { source, volume: found->Ok_0.volume_id, format: "UDF"@, iso_size },
                stats,
                entry_texts(listed.met.entries),
            )
        }),
{
    let volume = opening.last()->Opened_0;
    law_opening_follows_the_disc(disk, opening);
    law_walk_follows_the_disc(disk, volume@.partition_start, depth, walking);
    assert(walking[walking.len() - 1].wf());
}

/// The line of a file whose path has no tab in it tells its path, its size and its time.
pub proof fn law_file_line_can_be_read_back(
    path: Seq<char>,
    size: nat,
    modified: Seq<char>,
    other_path: Seq<char>,
    other_size: nat,
    other_modified: Seq<char>,
)
    requires
        file_text(path, size, modified) == file_text(other_path, other_size, other_modified),
        !path.contains('\t'),
        !other_path.contains('\t'),
    ensures
        path == other_path,
        size == other_size,
        modified == other_modified,
{
    reveal_strlit("\t");
    let rest = decimal(size) + "\t"@ + modified + "\tfile"@;
    let other_rest = decimal(other_size) + "\t"@ + other_modified + "\tfile"@;
    assert(file_text(path, size, modified) == path + seq!['\t'] + rest);
    assert(file_text(other_path, other_size, other_modified) == other_path + seq!['\t']
        + other_rest);
    lemma_split_at(path, rest, other_path, other_rest, '\t');
    lemma_numeral_is_digits(size, 10);
    lemma_numeral_is_digits(other_size, 10);
    let tail = modified + "\tfile"@;
    let other_tail = other_modified + "\tfile"@;
    assert(rest == decimal(size) + seq!['\t'] + tail);
    assert(other_rest == decimal(other_size) + seq!['\t'] + other_tail);
    lemma_split_at(decimal(size), tail, decimal(other_size), other_tail, '\t');
    law_numerals_tell_numbers_apart(size, other_size, 10);
    assert(modified == tail.take(modified.len() as int));
    assert(other_modified == other_tail.take(other_modified.len() as int));
}

/// What the line of an entry of an ISO 9660 file system says that the entry is: a file of some
/// size, or a link to some place.
pub open spec fn said_of(listed: ListedModel) -> Result<u64, Seq<char>> {
    match listed {
        ListedModel::File { size } => Ok(size),
        ListedModel::Symlink { target } => Err(
            match target {
                Some(target) => target,
                None => "?"@,
            },
        ),
    }
}

/// The line of an entry of an ISO 9660 file system tells its path, its time, and what it is, where
/// the path has no tab in it.
pub proof fn law_iso_line_can_be_read_back(
    path: Seq<char>,
    listed: ListedModel,
    modified: Timestamp,
    other_path: Seq<char>,
    other_listed: ListedModel,
    other_modified: Timestamp,
)
    requires
        iso_text(path, listed, modified) == iso_text(other_path, other_listed, other_modified),
        !path.contains('\t'),
        !other_path.contains('\t'),
    ensures
        path == other_path,
        time_text(modified) == time_text(other_modified),
        said_of(listed) == said_of(other_listed),
{
    lemma_iso_fields(path, listed, modified);
    lemma_iso_fields(other_path, other_listed, other_modified);
    let (size, time, kind) = iso_fields(listed, modified);
    let (other_size, other_time, other_kind) = iso_fields(other_listed, other_modified);
    let tail = time + seq!['\t'] + kind;
    let other_tail = other_time + seq!['\t'] + other_kind;
    let rest = decimal(size) + seq!['\t'] + tail;
    let other_rest = decimal(other_size) + seq!['\t'] + other_tail;
    lemma_split_at(path, rest, other_path, other_rest, '\t');
    lemma_numeral_is_digits(size, 10);
    lemma_numeral_is_digits(other_size, 10);
    lemma_split_at(decimal(size), tail, decimal(other_size), other_tail, '\t');
    law_numerals_tell_numbers_apart(size, other_size, 10);
    law_time_text_is_graphic(modified);
    law_time_text_is_graphic(other_modified);
    lemma_split_at(time, kind, other_time, other_kind, '\t');
    reveal_strlit("file");
    reveal_strlit("symlink->");
    match (listed, other_listed) {
        (ListedModel::Symlink { .. }, ListedModel::Symlink { .. }) => {
            let n = "symlink->"@.len() as int;
            assert(said_of(listed)->Err_0 == kind.skip(n));
            assert(said_of(other_listed)->Err_0 == other_kind.skip(n));
        },
        (ListedModel::File { .. }, ListedModel::File { .. }) => {},
        _ => {
            assert(kind[0] == other_kind[0]);
        },
    }
}

/// The fields of the line of an entry of an ISO 9660 file system behind its path.
spec fn iso_fields(listed: ListedModel, modified: Timestamp) -> (nat, Seq<char>, Seq<char>) {
    match said_of(listed) {
        Ok(size) => (size as nat, time_text(modified), "file"@),
        Err(target) => (0, time_text(modified), "symlink->"@ + target),
    }
}

proof fn lemma_iso_fields(path: Seq<char>, listed: ListedModel, modified: Timestamp)
    ensures
        ({
            let (size, time, kind) = iso_fields(listed, modified);
            iso_text(path, listed, modified) == path + seq!['\t'] + (decimal(size) + seq!['\t'] + (
            time + seq!['\t'] + kind))
        }),
{
    reveal_strlit("\t");
    reveal_strlit("\t0\t");
    reveal_strlit("file");
    reveal_strlit("\tfile");
    reveal_strlit("symlink->");
    reveal_strlit("\tsymlink->");
    let (size, time, kind) = iso_fields(listed, modified);
    let whole = path + seq!['\t'] + (decimal(size) + seq!['\t'] + (time + seq!['\t'] + kind));
    match listed {
        ListedModel::File { .. } => {
            assert("\tfile"@ == seq!['\t'] + "file"@);
            assert(iso_text(path, listed, modified) == whole);
        },
        ListedModel::Symlink { .. } => {
            assert("\tsymlink->"@ == seq!['\t'] + "symlink->"@);
            assert("\t0\t"@ == seq!['\t'] + decimal(0) + seq!['\t']);
            assert(iso_text(path, listed, modified) == whole);
        },
    }
}

/// Whether a text stays on one line.
pub open spec fn is_one_line(s: Seq<char>) -> bool {
    !s.contains('\n')
}

/// Texts that each stay on one line can be told from the lines in a row.
pub proof fn law_lines_can_be_told_apart(lines: Seq<Seq<char>>, others: Seq<Seq<char>>)
    requires
        terminated(lines) == terminated(others),
        forall|i: int| 0 <= i < lines.len() ==> is_one_line(#[trigger] lines[i]),
        forall|i: int| 0 <= i < others.len() ==> is_one_line(#[trigger] others[i]),
    ensures
        lines == others,
    decreases lines.len(),
{
    reveal_strlit("\n");
    if lines.len() == 0 {
        if others.len() > 0 {
            assert(terminated(others).len() > 0);
        }
    } else {
        assert(terminated(lines).len() > 0);
        assert(others.len() > 0);
        let front = terminated(lines.drop_last());
        let other_front = terminated(others.drop_last());
        let x = front + lines.last();
        let y = other_front + others.last();
        assert(x == terminated(lines).drop_last());
        assert(y == terminated(others).drop_last());
        lemma_terminated_ends(lines.drop_last());
        lemma_terminated_ends(others.drop_last());
        if front.len() < other_front.len() {
            let i = other_front.len() - 1;
            assert(y[i] == '\n');
            assert(x[i] == lines.last()[i - front.len()]);
        } else if other_front.len() < front.len() {
            let i = front.len() - 1;
            assert(x[i] == '\n');
            assert(y[i] == others.last()[i - other_front.len()]);
        }
        assert(front == x.take(front.len() as int));
        assert(other_front == y.take(other_front.len() as int));
        assert(lines.last() == x.skip(front.len() as int));
        assert(others.last() == y.skip(other_front.len() as int));
        law_lines_can_be_told_apart(lines.drop_last(), others.drop_last());
        assert(lines == lines.drop_last().push(lines.last()));
        assert(others == others.drop_last().push(others.last()));
    }
}

proof fn lemma_terminated_ends(lines: Seq<Seq<char>>)
    ensures
        terminated(lines).len() > 0 ==> terminated(lines).last() == '\n',
{
    reveal_strlit("\n");
}

/// Whether what a header tells of its image stays on one line each.
pub open spec fn has_plain_texts(header: HeaderModel) -> bool {
    is_one_line(header.source) && is_one_line(header.volume) && is_one_line(header.format)
}

/// An index tells all that went into it: the source, the volume, the format and the size of the
/// image, the counts, and the lines of the files, where none of these texts has a line feed in it.
pub proof fn law_index_can_be_read_back(
    header: HeaderModel,
    stats: WalkStats,
    lines: Seq<Seq<char>>,
    other_header: HeaderModel,
    other_stats: WalkStats,
    other_lines: Seq<Seq<char>>,
)
    requires
        index_text(header, stats, lines) == index_text(other_header, other_stats, other_lines),
        has_plain_texts(header),
        has_plain_texts(other_header),
        forall|i: int| 0 <= i < lines.len() ==> is_one_line(#[trigger] lines[i]),
        forall|i: int| 0 <= i < other_lines.len() ==> is_one_line(#[trigger] other_lines[i]),
    ensures
        header == other_header,
        stats == other_stats,
        lines == other_lines,
{
    let head = header_texts(header, stats);
    let other_head = header_texts(other_header, other_stats);
    lemma_header_lines(header, stats);
    lemma_header_lines(other_header, other_stats);
    law_lines_can_be_told_apart(head + lines, other_head + other_lines);
    assert(head == (head + lines).take(10));
    assert(other_head == (other_head + other_lines).take(10));
    assert(lines == (head + lines).skip(10));
    assert(other_lines == (other_head + other_lines).skip(10));
    assert(head[1] == other_head[1] && head[2] == other_head[2] && head[3] == other_head[3]);
    lemma_same_behind("# source: "@, header.source, other_header.source);
    lemma_same_behind("# volume: "@, header.volume, other_header.volume);
    lemma_same_behind("# format: "@, header.format, other_header.format);
    assert(head[4] == other_head[4] && head[5] == other_head[5] && head[6] == other_head[6]
        && head[7] == other_head[7]);
    lemma_same_number_behind("# iso_size: "@, header.iso_size, other_header.iso_size);
    lemma_same_number_behind("# files: "@, stats.files, other_stats.files);
    lemma_same_number_behind("# dirs: "@, stats.dirs, other_stats.dirs);
    lemma_same_number_behind("# total_content_size: "@, stats.total_size, other_stats.total_size);
}

proof fn lemma_same_behind(label: Seq<char>, a: Seq<char>, b: Seq<char>)
    requires
        label + a == label + b,
    ensures
        a == b,
{
    assert(a == (label + a).skip(label.len() as int));
    assert(b == (label + b).skip(label.len() as int));
}

proof fn lemma_same_number_behind(label: Seq<char>, a: u64, b: u64)
    requires
        label + decimal(a as nat) == label + decimal(b as nat),
    ensures
        a == b,
{
    lemma_same_behind(label, decimal(a as nat), decimal(b as nat));
    law_numerals_tell_numbers_apart(a as nat, b as nat, 10);
}

proof fn lemma_header_lines(header: HeaderModel, stats: WalkStats)
    requires
        has_plain_texts(header),
    ensures
        forall|i: int| 0 <= i < 10 ==> is_one_line(#[trigger] header_texts(header, stats)[i]),
{
    reveal_strlit("# iso-ripper index");
    reveal_strlit("# source: ");
    reveal_strlit("# volume: ");
    reveal_strlit("# format: ");
    reveal_strlit("# iso_size: ");
    reveal_strlit("# files: ");
    reveal_strlit("# dirs: ");
    reveal_strlit("# total_content_size: ");
    reveal_strlit("#");
    reveal_strlit("# PATH\tSIZE\tMODIFIED\tTYPE");
    lemma_numeral_is_digits(header.iso_size as nat, 10);
    lemma_numeral_is_digits(stats.files as nat, 10);
    lemma_numeral_is_digits(stats.dirs as nat, 10);
    lemma_numeral_is_digits(stats.total_size as nat, 10);
    lemma_one_line_behind("# source: "@, header.source);
    lemma_one_line_behind("# volume: "@, header.volume);
    lemma_one_line_behind("# format: "@, header.format);
    lemma_one_line_behind("# iso_size: "@, decimal(header.iso_size as nat));
    lemma_one_line_behind("# files: "@, decimal(stats.files as nat));
    lemma_one_line_behind("# dirs: "@, decimal(stats.dirs as nat));
    lemma_one_line_behind("# total_content_size: "@, decimal(stats.total_size as nat));
}

proof fn lemma_one_line_behind(label: Seq<char>, text: Seq<char>)
    requires
        is_one_line(label),
        is_one_line(text),
    ensures
        is_one_line(label + text),
{
    assert forall|i: int| 0 <= i < (label + text).len() implies (label + text)[i] != '\n' by {
        if i < label.len() {
            assert(label.contains(label[i]));
        } else {
            assert(text.contains(text[i - label.len()]));
        }
    }
}

} // verus!
