//! Laws of the text of an index: what its lines and fields are.

use crate::index::{
    entry_text, entry_texts, file_text, header_texts, index_text, is_one_line, iso_format, iso_text,
    symlink_text, terminated, HeaderModel, ListedModel,
};
use crate::iso::WalkStats;
use crate::iso_index::{listed_texts, ListedEntry};
use crate::laws::text::{
    law_decimals_have_their_value, lemma_split_push, lemma_split_whole, split, value_of,
};
use crate::text::decimal;
use crate::timestamp::{law_time_text_is_graphic, time_text, Timestamp};
use crate::udf::tree::EntryModel;
use vstd::prelude::*;

verus! {

// ---------------------------------------------------------------------------------------------
// Fields of a line
// ---------------------------------------------------------------------------------------------

proof fn lemma_decimal_has_no_tab(n: nat)
    ensures
        !decimal(n).contains('\t'),
        !decimal(n).contains('\n'),
{
    law_decimals_have_their_value(n);
}

proof fn lemma_four_fields(a: Seq<char>, b: Seq<char>, c: Seq<char>, d: Seq<char>)
    requires
        !a.contains('\t'),
        !b.contains('\t'),
        !c.contains('\t'),
        !d.contains('\t'),
    ensures
        split(a + seq!['\t'] + b + seq!['\t'] + c + seq!['\t'] + d, '\t') == seq![a, b, c, d],
{
    lemma_split_whole(a, '\t');
    lemma_split_push(a, '\t', b);
    lemma_split_push(a + seq!['\t'] + b, '\t', c);
    lemma_split_push(a + seq!['\t'] + b + seq!['\t'] + c, '\t', d);
    assert(seq![a].push(b).push(c).push(d) == seq![a, b, c, d]);
}

/// The line of a file has four fields, which tabs keep apart: its path, its size in decimal, its
/// time, and the word `file`.
pub proof fn law_file_lines_have_four_fields(path: Seq<char>, size: nat, modified: Seq<char>)
    requires
        !path.contains('\t'),
        !modified.contains('\t'),
    ensures
        ({
            let fields = split(file_text(path, size, modified), '\t');
            &&& fields.len() == 4
            &&& fields[0] == path
            &&& value_of(fields[1], 10) == size
            &&& fields[1] == decimal(size)
            &&& fields[2] == modified
            &&& fields[3] == seq!['f', 'i', 'l', 'e']
        }),
{
    reveal_strlit("\t");
    reveal_strlit("\tfile");
    let word = seq!['f', 'i', 'l', 'e'];
    assert("\t"@ == seq!['\t']);
    assert("\tfile"@ == seq!['\t'] + word);
    lemma_decimal_has_no_tab(size);
    law_decimals_have_their_value(size);
    lemma_four_fields(path, decimal(size), modified, word);
    assert(file_text(path, size, modified) == path + seq!['\t'] + decimal(size) + seq!['\t']
        + modified + seq!['\t'] + word);
}

/// The line of a link has four fields too: its path, a zero, its time, and behind the word `symlink`
/// and an arrow what it points to.
pub proof fn law_link_lines_have_four_fields(
    path: Seq<char>,
    modified: Seq<char>,
    target: Seq<char>,
)
    requires
        !path.contains('\t'),
        !modified.contains('\t'),
        !target.contains('\t'),
    ensures
        ({
            let fields = split(symlink_text(path, modified, target), '\t');
            &&& fields.len() == 4
            &&& fields[0] == path
            &&& fields[1] == seq!['0']
            &&& fields[2] == modified
            &&& fields[3] == seq!['s', 'y', 'm', 'l', 'i', 'n', 'k', '-', '>'] + target
        }),
{
    reveal_strlit("\t0\t");
    reveal_strlit("\tsymlink->");
    let arrow = seq!['s', 'y', 'm', 'l', 'i', 'n', 'k', '-', '>'];
    assert("\t0\t"@ == seq!['\t'] + seq!['0'] + seq!['\t']);
    assert("\tsymlink->"@ == seq!['\t'] + arrow);
    let last = arrow + target;
    assert forall|i: int| 0 <= i < last.len() implies last[i] != '\t' by {
        if i >= arrow.len() {
            assert(target.contains(target[i - arrow.len()]));
        }
    }
    lemma_four_fields(path, seq!['0'], modified, last);
    assert(symlink_text(path, modified, target) == path + seq!['\t'] + seq!['0'] + seq!['\t']
        + modified + seq!['\t'] + last);
}

/// The line of a file of a UDF volume has the path, the size and the time of the file, or a dash
/// where it has no time.
pub proof fn law_entry_lines_tell_the_entry(entry: EntryModel)
    requires
        !entry.path.contains('\t'),
    ensures
        ({
            let fields = split(entry_text(entry), '\t');
            &&& fields.len() == 4
            &&& fields[0] == entry.path
            &&& value_of(fields[1], 10) == entry.size
            &&& fields[2] == match entry.modified {
                Some(t) => time_text(t),
                None => seq!['-'],
            }
            &&& fields[3] == seq!['f', 'i', 'l', 'e']
        }),
{
    reveal_strlit("-");
    assert("-"@ == seq!['-']);
    let modified = match entry.modified {
        Some(t) => time_text(t),
        None => "-"@,
    };
    if let Some(t) = entry.modified {
        law_time_text_is_graphic(t);
    }
    law_file_lines_have_four_fields(entry.path, entry.size as nat, modified);
}

/// The line of an entry of an ISO 9660 file system says what the entry is: a file with its size, or
/// a link with what it points to, and a question mark where that is not known.
pub proof fn law_iso_lines_tell_the_entry(
    path: Seq<char>,
    listed: ListedModel,
    modified: Timestamp,
)
    requires
        !path.contains('\t'),
        listed matches ListedModel::Symlink { target: Some(target) } ==> !target.contains('\t'),
    ensures
        ({
            let fields = split(iso_text(path, listed, modified), '\t');
            &&& fields.len() == 4
            &&& fields[0] == path
            &&& fields[2] == time_text(modified)
            &&& match listed {
                ListedModel::File { size } => value_of(fields[1], 10) == size && fields[3] == seq![
                    'f',
                    'i',
                    'l',
                    'e',
                ],
                ListedModel::Symlink { target } => fields[1] == seq!['0'] && fields[3] == seq![
                    's',
                    'y',
                    'm',
                    'l',
                    'i',
                    'n',
                    'k',
                    '-',
                    '>',
                ] + match target {
                    Some(target) => target,
                    None => seq!['?'],
                },
            }
        }),
{
    reveal_strlit("?");
    assert("?"@ == seq!['?']);
    law_time_text_is_graphic(modified);
    match listed {
        ListedModel::File { size } => {
            law_file_lines_have_four_fields(path, size as nat, time_text(modified));
        },
        ListedModel::Symlink { target } => {
            let to = match target {
                Some(target) => target,
                None => "?"@,
            };
            law_link_lines_have_four_fields(path, time_text(modified), to);
        },
    }
}

/// There is a line for each file of a UDF volume, in the order of the files, and for each entry of a
/// listing of an ISO 9660 file system, in the order of these.
pub proof fn law_lines_follow_the_entries(
    entries: Seq<EntryModel>,
    listing: Seq<ListedEntry>,
    i: int,
)
    ensures
        entry_texts(entries).len() == entries.len(),
        0 <= i < entries.len() ==> entry_texts(entries)[i] == entry_text(entries[i]),
        listed_texts(listing).len() == listing.len(),
        0 <= i < listing.len() ==> listed_texts(listing)[i] == iso_text(
            listing[i].path,
            listing[i].listed,
            listing[i].modified,
        ),
{
}

// ---------------------------------------------------------------------------------------------
// Lines of an index
// ---------------------------------------------------------------------------------------------

/// Lines in a row, each with a line feed behind it, are taken apart at the line feeds.
pub proof fn law_lines_are_its_parts(lines: Seq<Seq<char>>)
    requires
        forall|i: int| 0 <= i < lines.len() ==> is_one_line(#[trigger] lines[i]),
    ensures
        split(terminated(lines), '\n') == lines.push(seq![]),
    decreases lines.len(),
{
    reveal_strlit("\n");
    assert("\n"@ == seq!['\n']);
    if lines.len() > 0 {
        let front = lines.drop_last();
        law_lines_are_its_parts(front);
        let t = terminated(front);
        let line = lines.last();
        lemma_split_line(t, line);
        assert(terminated(lines) == t + line + seq!['\n']);
        let parts = split(t, '\n');
        assert(parts.drop_last() == front);
        assert(parts.last() + line == line);
        let whole = t + line + seq!['\n'];
        lemma_split_push(t + line, '\n', Seq::empty());
        assert(t + line + seq!['\n'] + Seq::<char>::empty() == whole);
        assert(front.push(line) == lines);
    } else {
        assert(lines.push(Seq::<char>::empty()) == seq![Seq::<char>::empty()]);
    }
}

/// A text without line feeds goes on the last line.
proof fn lemma_split_line(t: Seq<char>, line: Seq<char>)
    requires
        is_one_line(line),
    ensures
        split(t, '\n').len() > 0,
        split(t + line, '\n') == split(t, '\n').drop_last().push(split(t, '\n').last() + line),
    decreases line.len(), t.len(),
{
    lemma_some_parts(t);
    let parts = split(t, '\n');
    if line.len() == 0 {
        assert(t + line == t);
        assert(parts.last() + line == parts.last());
        assert(parts.drop_last().push(parts.last()) == parts);
    } else {
        let shorter = line.drop_last();
        assert forall|i: int| 0 <= i < shorter.len() implies shorter[i] != '\n' by {
            assert(line.contains(line[i]));
        }
        lemma_split_line(t, shorter);
        assert((t + line).drop_last() == t + shorter);
        assert(line.contains(line.last()));
        let before = parts.drop_last().push(parts.last() + shorter);
        assert(before.drop_last() == parts.drop_last());
        assert((parts.last() + shorter).push(line.last()) == parts.last() + line);
    }
}

proof fn lemma_some_parts(s: Seq<char>)
    ensures
        split(s, '\n').len() > 0,
    decreases s.len(),
{
    if s.len() > 0 {
        lemma_some_parts(s.drop_last());
    }
}

/// An index has ten lines of a header, and behind these its lines as they are. The header tells the source, the volume, the format and the size of the image and the
/// counts of its files.
pub proof fn law_indexes_have_a_header(
    header: HeaderModel,
    stats: WalkStats,
    lines: Seq<Seq<char>>,
)
    requires
        is_one_line(header.source),
        is_one_line(header.volume),
        is_one_line(header.format),
        forall|i: int| 0 <= i < lines.len() ==> is_one_line(#[trigger] lines[i]),
    ensures
        ({
            let parts = split(index_text(header, stats, lines), '\n');
            &&& parts.len() == 10 + lines.len() + 1
            &&& forall|i: int| 0 <= i < lines.len() ==> parts[10 + i] == #[trigger] lines[i]
            &&& parts.last().len() == 0
            &&& parts[0] == "# iso-ripper index"@
            &&& parts[1] == "# source: "@ + header.source
            &&& parts[2] == "# volume: "@ + header.volume
            &&& parts[3] == "# format: "@ + header.format
            &&& parts[4].take(12) == "# iso_size: "@
            &&& value_of(parts[4].skip(12), 10) == header.iso_size
            &&& parts[5].take(9) == "# files: "@
            &&& value_of(parts[5].skip(9), 10) == stats.files
            &&& parts[6].take(8) == "# dirs: "@
            &&& value_of(parts[6].skip(8), 10) == stats.dirs
            &&& parts[7].take(22) == "# total_content_size: "@
            &&& value_of(parts[7].skip(22), 10) == stats.total_size
            &&& parts[8] == "#"@
            &&& parts[9] == "# PATH\tSIZE\tMODIFIED\tTYPE"@
        }),
{
    reveal_strlit("# iso-ripper index");
    reveal_strlit("# source: ");
    reveal_strlit("# volume: ");
    reveal_strlit("# format: ");
    reveal_strlit("# iso_size: ");
    reveal_strlit("# files: ");
    reveal_strlit("# dirs: ");
    reveal_strlit("# total_content_size: ");
    reveal_strlit("#");
    reveal_strlit("# PATH\tSIZE\tMODIFIED\tTYPE");
    let head = header_texts(header, stats);
    law_decimals_have_their_value(header.iso_size as nat);
    law_decimals_have_their_value(stats.files as nat);
    law_decimals_have_their_value(stats.dirs as nat);
    law_decimals_have_their_value(stats.total_size as nat);
    lemma_decimal_has_no_tab(header.iso_size as nat);
    lemma_decimal_has_no_tab(stats.files as nat);
    lemma_decimal_has_no_tab(stats.dirs as nat);
    lemma_decimal_has_no_tab(stats.total_size as nat);
    lemma_one_line("# source: "@, header.source);
    lemma_one_line("# volume: "@, header.volume);
    lemma_one_line("# format: "@, header.format);
    lemma_one_line("# iso_size: "@, decimal(header.iso_size as nat));
    lemma_one_line("# files: "@, decimal(stats.files as nat));
    lemma_one_line("# dirs: "@, decimal(stats.dirs as nat));
    lemma_one_line("# total_content_size: "@, decimal(stats.total_size as nat));
    let all = head + lines;
    assert forall|i: int| 0 <= i < all.len() implies is_one_line(#[trigger] all[i]) by {
        if i >= 10 {
            assert(all[i] == lines[i - 10]);
        }
    }
    law_lines_are_its_parts(all);
    let parts = all.push(Seq::<char>::empty());
    assert(parts[4].take(12) == "# iso_size: "@);
    assert(parts[4].skip(12) == decimal(header.iso_size as nat));
    assert(parts[5].take(9) == "# files: "@);
    assert(parts[5].skip(9) == decimal(stats.files as nat));
    assert(parts[6].take(8) == "# dirs: "@);
    assert(parts[6].skip(8) == decimal(stats.dirs as nat));
    assert(parts[7].take(22) == "# total_content_size: "@);
    assert(parts[7].skip(22) == decimal(stats.total_size as nat));
}

proof fn lemma_one_line(label: Seq<char>, text: Seq<char>)
    requires
        is_one_line(label),
        is_one_line(text),
    ensures
        is_one_line(label + text),
{
    assert forall|i: int| 0 <= i < (label + text).len() implies (label + text)[i] != '\n' by {
        if i < label.len() {
            assert(label.contains(label[i]));
        } else {
            assert(text.contains(text[i - label.len()]));
        }
    }
}

/// The format of an ISO 9660 file system is named with its extensions, each exactly where it is
/// there.
pub proof fn law_iso_formats_name_their_extensions(has_joliet: bool, has_rock_ridge: bool)
    ensures
        ({
            let parts = split(iso_format(has_joliet, has_rock_ridge), '+');
            let joliet = seq!['J', 'o', 'l', 'i', 'e', 't'];
            let rock_ridge = seq!['R', 'o', 'c', 'k', 'R', 'i', 'd', 'g', 'e'];
            &&& parts == seq![seq!['I', 'S', 'O', '9', '6', '6', '0']] + (if has_joliet {
                seq![joliet]
            } else {
                seq![]
            }) + (if has_rock_ridge {
                seq![rock_ridge]
            } else {
                seq![]
            })
        }),
{
    reveal_strlit("ISO9660");
    reveal_strlit("+Joliet");
    reveal_strlit("+RockRidge");
    let iso = seq!['I', 'S', 'O', '9', '6', '6', '0'];
    let joliet = seq!['J', 'o', 'l', 'i', 'e', 't'];
    let rock_ridge = seq!['R', 'o', 'c', 'k', 'R', 'i', 'd', 'g', 'e'];
    assert("ISO9660"@ == iso);
    assert("+Joliet"@ == seq!['+'] + joliet);
    assert("+RockRidge"@ == seq!['+'] + rock_ridge);
    lemma_split_whole(iso, '+');
    lemma_split_push(iso, '+', joliet);
    let first = if has_joliet {
        iso + seq!['+'] + joliet
    } else {
        iso
    };
    lemma_split_push(first, '+', rock_ridge);
    let text = iso_format(has_joliet, has_rock_ridge);
    if has_joliet {
        assert(iso + "+Joliet"@ == first);
    }
    if has_rock_ridge {
        assert(text == first + seq!['+'] + rock_ridge);
    } else {
        assert(text == first);
    }
}

} // verus!
