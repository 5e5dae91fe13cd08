//! Laws of the table and the summary of a directory of images.

use crate::probe::{label, ProbeResult};
use crate::report::{
    counts_formats, is_ranked, labels_of, note_on, occurrences, probe_row_text, row_text,
    size_of_all, FormatCount, ProbeOutcome, ProbeRow,
};
use vstd::prelude::*;

verus! {

// ---------------------------------------------------------------------------------------------
// Rows
// ---------------------------------------------------------------------------------------------

/// The width of a column with this text in it: that of the column, or more where the text is longer.
pub open spec fn width_with(text: Seq<char>, width: int) -> int {
    if text.len() < width {
        width
    } else {
        text.len() as int
    }
}

/// A row has its texts whole: the name at the front of a column of 60, the size at the end of one of
/// 10, the format at the front of one of 30, and the notes last. Columns are wider where a text is
/// longer, a space keeps them apart, and there is nothing else in the row but spaces.
pub proof fn law_rows_have_columns(
    name: Seq<char>,
    size: Seq<char>,
    format: Seq<char>,
    notes: Seq<char>,
)
    ensures
        ({
            let row = row_text(name, size, format, notes);
            let second = width_with(name, 60) + 1;
            let third = second + width_with(size, 10) + 1;
            let fourth = third + width_with(format, 30) + 1;
            &&& row.len() == fourth + notes.len()
            &&& row.take(name.len() as int) == name
            &&& row.subrange(third - 1 - size.len(), third - 1) == size
            &&& row.subrange(third, third + format.len()) == format
            &&& row.skip(fourth) == notes
            &&& forall|i: int|
                name.len() <= i < third - 1 - size.len() ==> #[trigger] row[i] == ' '
            &&& row[third - 1] == ' '
            &&& forall|i: int| third + format.len() <= i < fourth ==> #[trigger] row[i] == ' '
        }),
{
    reveal_strlit(" ");
    let row = row_text(name, size, format, notes);
    let second = width_with(name, 60) + 1;
    let third = second + width_with(size, 10) + 1;
    let fourth = third + width_with(format, 30) + 1;
    assert(row.take(name.len() as int) == name);
    assert(row.subrange(third - 1 - size.len(), third - 1) == size);
    assert(row.subrange(third, third + format.len()) == format);
    assert(row.skip(fourth) == notes);
}

/// The row of an image that could be probed has its name, its size, its label, and a note; that of
/// another has a question mark, the word `ERROR`, and why.
pub proof fn law_rows_tell_the_image(row: ProbeRow)
    ensures
        match row.outcome {
            ProbeOutcome::Probed { result, size } => probe_row_text(row) == row_text(
                row.name@,
                size@,
                label(result),
                note_on(result),
            ),
            ProbeOutcome::Failed { error } => probe_row_text(row) == row_text(
                row.name@,
                seq!['?'],
                seq!['E', 'R', 'R', 'O', 'R'],
                error@,
            ),
        },
{
    reveal_strlit("?");
    reveal_strlit("ERROR");
    assert("?"@ == seq!['?']);
    assert("ERROR"@ == seq!['E', 'R', 'R', 'O', 'R']);
}

/// There is nothing to note exactly where there is an ISO 9660 file system, and what is noted of
/// other images tells those with a UDF file system from those without any.
pub proof fn law_notes_tell_what_is_missing(r: ProbeResult)
    ensures
        note_on(r).len() == 0 <==> r.has_iso9660,
        note_on(r) == "*** UDF-only, will be skipped ***"@ <==> !r.has_iso9660 && r.has_udf,
        note_on(r) == "*** Unknown format ***"@ <==> !r.has_iso9660 && !r.has_udf,
{
    reveal_strlit("*** UDF-only, will be skipped ***");
    reveal_strlit("*** Unknown format ***");
    assert("*** UDF-only, will be skipped ***"@.len() != "*** Unknown format ***"@.len());
}

// ---------------------------------------------------------------------------------------------
// Counts
// ---------------------------------------------------------------------------------------------

/// Whether an image could be probed and has this label.
pub open spec fn is_labelled(row: ProbeRow, format: Seq<char>) -> bool {
    row.outcome matches ProbeOutcome::Probed { result, .. } && label(result) == format
}

/// How many of the rows are those of images with this label.
pub open spec fn rows_labelled(rows: Seq<ProbeRow>, format: Seq<char>) -> nat {
    rows.filter(|row: ProbeRow| is_labelled(row, format)).len()
}

/// The counts of formats are how many images have each label: every label of an image that could be
/// probed has a count, no other has, none has two, and the greatest count comes first.
pub proof fn law_counts_are_of_rows(rows: Seq<ProbeRow>, counts: Seq<FormatCount>)
    requires
        counts_formats(counts, labels_of(rows)),
        is_ranked(counts),
    ensures
        forall|i: int|
            0 <= i < counts.len() ==> (#[trigger] counts[i]).count == rows_labelled(
                rows,
                counts[i].format@,
            ) && counts[i].count > 0,
        forall|i: int, j: int|
            0 <= i < j < counts.len() ==> (#[trigger] counts[i]).format@ != (
            #[trigger] counts[j]).format@ && counts[i].count >= counts[j].count,
        forall|k: int|
            0 <= k < rows.len() && (#[trigger] rows[k]).outcome is Probed ==> exists|i: int|
                0 <= i < counts.len() && (#[trigger] counts[i]).format@ == label(
                    rows[k].outcome->result,
                ),
{
    assert forall|i: int| 0 <= i < counts.len() implies (#[trigger] counts[i]).count
        == rows_labelled(rows, counts[i].format@) && counts[i].count > 0 by {
        lemma_occurrences_are_rows(rows, counts[i].format@);
    }
    assert forall|k: int|
        0 <= k < rows.len() && (#[trigger] rows[k]).outcome is Probed implies exists|i: int|
        0 <= i < counts.len() && (#[trigger] counts[i]).format@ == label(
            rows[k].outcome->result,
        ) by {
        lemma_label_is_there(rows, k);
        let labels = labels_of(rows);
        let n = choose|n: int|
            0 <= n < labels.len() && #[trigger] labels[n] == label(rows[k].outcome->result);
        let i = choose|i: int| 0 <= i < counts.len() && (#[trigger] counts[i]).format@ == labels[n];
        assert(counts[i].format@ == label(rows[k].outcome->result));
    }
}

proof fn lemma_occurrences_are_rows(rows: Seq<ProbeRow>, format: Seq<char>)
    ensures
        occurrences(labels_of(rows), format) == rows_labelled(rows, format),
    decreases rows.len(),
{
    let test = |row: ProbeRow| is_labelled(row, format);
    reveal(Seq::filter);
    if rows.len() > 0 {
        lemma_occurrences_are_rows(rows.drop_last(), format);
        let before = labels_of(rows.drop_last());
        match rows.last().outcome {
            ProbeOutcome::Probed { result, .. } => {
                assert(before.push(label(result)).drop_last() == before);
            },
            ProbeOutcome::Failed { .. } => {},
        }
    }
}

proof fn lemma_label_is_there(rows: Seq<ProbeRow>, k: int)
    requires
        0 <= k < rows.len(),
        rows[k].outcome is Probed,
    ensures
        exists|n: int|
            0 <= n < labels_of(rows).len() && #[trigger] labels_of(rows)[n] == label(
                rows[k].outcome->result,
            ),
    decreases rows.len(),
{
    let labels = labels_of(rows);
    if k == rows.len() - 1 {
        assert(labels[labels.len() - 1] == label(rows[k].outcome->result));
    } else {
        let front = rows.drop_last();
        lemma_label_is_there(front, k);
        let n = choose|n: int|
            0 <= n < labels_of(front).len() && #[trigger] labels_of(front)[n] == label(
                rows[k].outcome->result,
            );
        assert(labels[n] == labels_of(front)[n]);
    }
}

/// The sizes of images add up, in whatever groups they are taken, and those that could not be probed
/// count for nothing.
pub proof fn law_sizes_add_up(first: Seq<ProbeRow>, second: Seq<ProbeRow>, row: ProbeRow)
    ensures
        size_of_all(first + second) == size_of_all(first) + size_of_all(second),
        size_of_all(seq![row]) == match row.outcome {
            ProbeOutcome::Probed { result, .. } => result.file_size as nat,
            ProbeOutcome::Failed { .. } => 0nat,
        },
    decreases second.len(),
{
    assert(seq![row].drop_last() == Seq::<ProbeRow>::empty());
    assert(size_of_all(Seq::<ProbeRow>::empty()) == 0);
    if second.len() == 0 {
        assert(first + second == first);
    } else {
        law_sizes_add_up(first, second.drop_last(), row);
        assert((first + second).drop_last() == first + second.drop_last());
        assert((first + second).last() == second.last());
    }
}

} // verus!
