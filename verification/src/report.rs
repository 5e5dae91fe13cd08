//! Telling what a directory of images holds: which files are images, a table with one row for
//! each, and how many there are of each kind.

use crate::extract::ExtractReport;
use crate::probe::{label, ProbeResult};
use crate::text::{
    decimal, lowercase, lowercase_text, padded_left, padded_right, push_decimal, push_padded_left,
    push_padded_right, same_text,
};
use vstd::prelude::*;

verus! {

// ---------------------------------------------------------------------------------------------
// Which files are images
// ---------------------------------------------------------------------------------------------

/// Whether a file is an image, going by its extension.
pub fn is_image_extension(extension: &str) -> (r: bool)
    ensures
        r == (lowercase(extension@) == "iso"@),
{
    is_lowered_image_extension(&lowercase_text(extension))
}

/// Whether a file is an image, going by its extension in lowercase.
pub fn is_lowered_image_extension(lowered: &str) -> (r: bool)
    ensures
        r == (lowered@ == "iso"@),
{
    same_text(lowered, "iso")
}

// ---------------------------------------------------------------------------------------------
// The table
// ---------------------------------------------------------------------------------------------

/// An image that has been probed.
pub struct ProbeRow {
    pub name: String,
    pub outcome: ProbeOutcome,
}

/// What probing an image came to.
pub enum ProbeOutcome {
    /// What the image holds, and its size in words.
    Probed { result: ProbeResult, size: String },
    /// Why the image could not be probed.
    Failed { error: String },
}

/// What there is to note about an image, next to its format.
pub open spec fn note_on(result: ProbeResult) -> Seq<char> {
    if result.has_iso9660 {
        seq![]
    } else if result.has_udf {
        "*** UDF-only, will be skipped ***"@
    } else {
        "*** Unknown format ***"@
    }
}

/// A row of the table: three columns filled up with spaces, and a last one as it is.
pub open spec fn row_text(
    name: Seq<char>,
    size: Seq<char>,
    format: Seq<char>,
    notes: Seq<char>,
) -> Seq<char> {
    padded_right(name, 60) + " "@ + padded_left(size, 10) + " "@ + padded_right(format, 30) + " "@
        + notes
}

/// The row of an image.
pub open spec fn probe_row_text(row: ProbeRow) -> Seq<char> {
    match row.outcome {
        ProbeOutcome::Probed { result, size } => row_text(
            row.name@,
            size@,
            label(result),
            note_on(result),
        ),
        ProbeOutcome::Failed { error } => row_text(row.name@, "?"@, "ERROR"@, error@),
    }
}

/// A row of the table.
fn table_row(name: &str, size: &str, format: &str, notes: &str) -> (line: String)
    ensures
        line@ == row_text(name@, size@, format@, notes@),
{
    let mut line: String = String::new();
    push_padded_right(&mut line, name, 60);
    line.append(" ");
    push_padded_left(&mut line, size, 10);
    line.append(" ");
    push_padded_right(&mut line, format, 30);
    line.append(" ");
    line.append(notes);
    assert(line@ == row_text(name@, size@, format@, notes@));
    line
}

/// The heading of the table.
pub fn table_heading() -> (line: String)
    ensures
        line@ == row_text("FILENAME"@, "SIZE"@, "FORMAT"@, "NOTES"@),
{
    table_row("FILENAME", "SIZE", "FORMAT", "NOTES")
}

/// The rule below the heading of the table.
pub fn table_rule() -> (line: String)
    ensures
        line@ == Seq::new(110, |i: int| '-'),
{
    let mut line: String = String::new();
    let mut i: usize = 0;
    while i < 110
        invariant
            i <= 110,
            line@ == Seq::new(i as nat, |j: int| '-'),
        decreases 110 - i,
    {
        line.push('-');
        assert(line@ == Seq::new((i + 1) as nat, |j: int| '-'));
        i = i + 1;
    }
    line
}

/// What there is to note about an image.
pub fn probe_note(result: &ProbeResult) -> (r: String)
    ensures
        r@ == note_on(*result),
{
    if result.has_udf && !result.has_iso9660 {
        String::from_str("*** UDF-only, will be skipped ***")
    } else if !result.has_iso9660 {
        String::from_str("*** Unknown format ***")
    } else {
        String::new()
    }
}

/// The row of an image.
pub fn probe_row(row: &ProbeRow) -> (line: String)
    ensures
        line@ == probe_row_text(*row),
{
    match &row.outcome {
        ProbeOutcome::Probed { result, size } => table_row(
            &row.name,
            size,
            &result.format_label(),
            &probe_note(result),
        ),
        ProbeOutcome::Failed { error } => table_row(&row.name, "?", "ERROR", error),
    }
}

// ---------------------------------------------------------------------------------------------
// The summary
// ---------------------------------------------------------------------------------------------

/// The formats of the images that could be probed, in order.
pub open spec fn labels_of(rows: Seq<ProbeRow>) -> Seq<Seq<char>>
    decreases rows.len(),
{
    if rows.len() == 0 {
        seq![]
    } else {
        match rows.last().outcome {
            ProbeOutcome::Probed { result, .. } => labels_of(rows.drop_last()).push(label(result)),
            ProbeOutcome::Failed { .. } => labels_of(rows.drop_last()),
        }
    }
}

/// How often a format occurs among formats.
pub open spec fn occurrences(labels: Seq<Seq<char>>, format: Seq<char>) -> nat
    decreases labels.len(),
{
    if labels.len() == 0 {
        0
    } else {
        occurrences(labels.drop_last(), format) + if labels.last() == format {
            1nat
        } else {
            0nat
        }
    }
}

/// How many images have a format.
pub struct FormatCount {
    pub format: String,
    pub count: u64,
}

/// Whether `counts` has each format that occurs among `labels`, once, with the number of times that
/// it occurs.
pub open spec fn counts_formats(counts: Seq<FormatCount>, labels: Seq<Seq<char>>) -> bool {
    &&& forall|i: int, j: int|
        0 <= i < j < counts.len() ==> (#[trigger] counts[i]).format@ != (
        #[trigger] counts[j]).format@
    &&& forall|i: int|
        0 <= i < counts.len() ==> (#[trigger] counts[i]).count == occurrences(
            labels,
            counts[i].format@,
        ) && counts[i].count > 0
    &&& forall|k: int|
        0 <= k < labels.len() ==> exists|i: int|
            0 <= i < counts.len() && (#[trigger] counts[i]).format@ == #[trigger] labels[k]
}

/// Whether formats stand in the order of their counts, the greatest first.
pub open spec fn is_ranked(counts: Seq<FormatCount>) -> bool {
    forall|i: int, j: int|
        0 <= i <= j < counts.len() ==> (#[trigger] counts[i]).count >= (#[trigger] counts[j]).count
}

/// Counts how many of the images that could be probed have each format. The formats that most
/// images have come first; the order among formats with equal counts is left open.
pub fn count_formats(rows: &Vec<ProbeRow>) -> (counts: Vec<FormatCount>)
    ensures
        counts_formats(counts@, labels_of(rows@)),
        is_ranked(counts@),
{
    let mut counts: Vec<FormatCount> = Vec::new();
    let mut i: usize = 0;
    while i < rows.len()
        invariant
            i <= rows.len(),
            counts_formats(counts@, labels_of(rows@.take(i as int))),
            is_ranked(counts@),
        decreases rows.len() - i,
    {
        let ghost before = rows@.take(i as int);
        assert(rows@.take(i + 1).drop_last() == before);
        proof {
            lemma_labels_len(before);
        }
        match &rows[i].outcome {
            ProbeOutcome::Probed { result, .. } => {
                count_one(&mut counts, result.format_label(), Ghost(labels_of(before)));
            },
            ProbeOutcome::Failed { .. } => {},
        }
        i = i + 1;
    }
    assert(rows@.take(i as int) == rows@);
    counts
}

proof fn lemma_labels_len(rows: Seq<ProbeRow>)
    ensures
        labels_of(rows).len() <= rows.len(),
    decreases rows.len(),
{
    if rows.len() > 0 {
        lemma_labels_len(rows.drop_last());
    }
}

proof fn lemma_occurrences_len(labels: Seq<Seq<char>>, format: Seq<char>)
    ensures
        occurrences(labels, format) <= labels.len(),
    decreases labels.len(),
{
    if labels.len() > 0 {
        lemma_occurrences_len(labels.drop_last(), format);
    }
}

/// Counts one more image of a format, and keeps the order.
fn count_one(counts: &mut Vec<FormatCount>, format: String, Ghost(labels): Ghost<Seq<Seq<char>>>)
    requires
        labels.len() < u64::MAX,
        counts_formats(old(counts)@, labels),
        is_ranked(old(counts)@),
    ensures
        counts_formats(final(counts)@, labels.push(format@)),
        is_ranked(final(counts)@),
{
    let mut i: usize = 0;
    while i < counts.len() && !same_text(&counts[i].format, &format)
        invariant
            i <= counts.len(),
            counts@ == old(counts)@,
            forall|j: int| 0 <= j < i ==> (#[trigger] counts@[j]).format@ != format@,
        decreases counts.len() - i,
    {
        i = i + 1;
    }
    let ghost start = counts@;
    let count: u64 = if i < counts.len() {
        proof {
            lemma_occurrences_len(labels, format@);
        }
        counts.remove(i).count + 1
    } else {
        1
    };
    let ghost others = counts@;
    let mut place: usize = 0;
    while place < counts.len() && counts[place].count >= count
        invariant
            place <= counts.len(),
            counts@ == others,
            forall|j: int| 0 <= j < place ==> (#[trigger] counts@[j]).count >= count,
        decreases counts.len() - place,
    {
        place = place + 1;
    }
    counts.insert(place, FormatCount { format, count });
    proof {
        lemma_counted(start, counts@[place as int], labels, i as int, place as int);
    }
}

/// `counts` without the one at `i`, or all of them where there is none.
spec fn other_counts(counts: Seq<FormatCount>, i: int) -> Seq<FormatCount> {
    if i < counts.len() {
        counts.remove(i)
    } else {
        counts
    }
}

proof fn lemma_counted(
    start: Seq<FormatCount>,
    item: FormatCount,
    labels: Seq<Seq<char>>,
    i: int,
    place: int,
)
    requires
        counts_formats(start, labels),
        0 <= i <= start.len(),
        i < start.len() ==> start[i].format@ == item.format@ && item.count == start[i].count + 1,
        i == start.len() ==> item.count == 1 && forall|j: int|
            0 <= j < start.len() ==> (#[trigger] start[j]).format@ != item.format@,
        0 <= place <= other_counts(start, i).len(),
    ensures
        counts_formats(other_counts(start, i).insert(place, item), labels.push(item.format@)),
{
    let others = other_counts(start, i);
    let now = others.insert(place, item);
    let more = labels.push(item.format@);
    assert(more.drop_last() == labels);
    assert forall|m: int| 0 <= m < others.len() implies {
        &&& (#[trigger] others[m]).format@ != item.format@
        &&& others[m].count > 0
        &&& others[m].count == occurrences(more, others[m].format@)
    } by {
        let k = if m < i {
            m
        } else {
            m + 1
        };
        assert(others[m] == start[k]);
        if i < start.len() {
            assert(start[k].format@ != start[i].format@);
        }
    }
    assert forall|m: int, n: int| 0 <= m < n < others.len() implies (
    #[trigger] others[m]).format@ != (#[trigger] others[n]).format@ by {
        let k = if m < i {
            m
        } else {
            m + 1
        };
        let l = if n < i {
            n
        } else {
            n + 1
        };
        assert(others[m] == start[k] && others[n] == start[l]);
    }
    if i == start.len() {
        if occurrences(labels, item.format@) > 0 {
            lemma_occurs(labels, item.format@);
            let k = choose|k: int| 0 <= k < labels.len() && #[trigger] labels[k] == item.format@;
            assert(exists|j: int| 0 <= j < start.len() && (#[trigger] start[j]).format@ == labels[k]);
        }
    }
    assert(item.count == occurrences(more, item.format@));
    assert forall|a: int| 0 <= a < now.len() implies (#[trigger] now[a]).count == occurrences(
        more,
        now[a].format@,
    ) && now[a].count > 0 by {
        if a < place {
            assert(now[a] == others[a]);
        } else if a > place {
            assert(now[a] == others[a - 1]);
        }
    }
    assert forall|a: int, b: int| 0 <= a < b < now.len() implies (#[trigger] now[a]).format@ != (
    #[trigger] now[b]).format@ by {
        let m = if a < place {
            a
        } else {
            a - 1
        };
        let n = if b < place {
            b
        } else {
            b - 1
        };
        assert(a == place || now[a] == others[m]);
        assert(b == place || now[b] == others[n]);
    }
    assert forall|k: int| 0 <= k < more.len() implies exists|a: int|
        0 <= a < now.len() && (#[trigger] now[a]).format@ == #[trigger] more[k] by {
        assert(now[place] == item);
        if more[k] != item.format@ {
            assert(more[k] == labels[k]);
            let j = choose|j: int|
                0 <= j < start.len() && (#[trigger] start[j]).format@ == labels[k];
            let m = if j < i {
                j
            } else {
                j - 1
            };
            assert(others[m] == start[j]);
            let a = if m < place {
                m
            } else {
                m + 1
            };
            assert(now[a] == others[m]);
        }
    }
}

proof fn lemma_occurs(labels: Seq<Seq<char>>, format: Seq<char>)
    requires
        occurrences(labels, format) > 0,
    ensures
        exists|k: int| 0 <= k < labels.len() && #[trigger] labels[k] == format,
    decreases labels.len(),
{
    if labels.last() != format {
        lemma_occurs(labels.drop_last(), format);
        let k = choose|k: int|
            0 <= k < labels.len() - 1 && #[trigger] labels.drop_last()[k] == format;
        assert(labels[k] == format);
    } else {
        assert(labels[labels.len() - 1] == format);
    }
}

/// The line that tells how many images have a format.
pub fn count_line(count: &FormatCount) -> (line: String)
    ensures
        line@ == "  "@ + count.format@ + ": "@ + decimal(count.count as nat),
{
    let mut line: String = String::from_str("  ");
    line.append(&count.format);
    line.append(": ");
    push_decimal(&mut line, count.count);
    line
}

/// The sizes of the images that could be probed, taken together.
pub open spec fn size_of_all(rows: Seq<ProbeRow>) -> nat
    decreases rows.len(),
{
    if rows.len() == 0 {
        0
    } else {
        size_of_all(rows.drop_last()) + match rows.last().outcome {
            ProbeOutcome::Probed { result, .. } => result.file_size as nat,
            ProbeOutcome::Failed { .. } => 0nat,
        }
    }
}

/// Adds up the sizes of the images that could be probed. The sum has 64 bits and starts over behind
/// the last.
pub fn total_size(rows: &Vec<ProbeRow>) -> (r: u64)
    ensures
        r as int == size_of_all(rows@) as int % 0x1_0000_0000_0000_0000,
{
    let mut total: u64 = 0;
    let mut i: usize = 0;
    while i < rows.len()
        invariant
            i <= rows.len(),
            total as int == size_of_all(rows@.take(i as int)) as int % 0x1_0000_0000_0000_0000,
        decreases rows.len() - i,
    {
        assert(rows@.take(i + 1).drop_last() == rows@.take(i as int));
        if let ProbeOutcome::Probed { result, .. } = &rows[i].outcome {
            total = total.wrapping_add(result.file_size);
        }
        i = i + 1;
    }
    assert(rows@.take(i as int) == rows@);
    total
}

/// The line that tells how many images there are and, in words, how large they are together.
pub fn total_line(images: u64, size: &str) -> (line: String)
    ensures
        line@ == "  Total: "@ + decimal(images as nat) + " ISOs, "@ + size@,
{
    let mut line: String = String::from_str("  Total: ");
    push_decimal(&mut line, images);
    line.append(" ISOs, ");
    line.append(size);
    line
}

// ---------------------------------------------------------------------------------------------
// Details of reports
// ---------------------------------------------------------------------------------------------

/// What is said of an image that has been indexed.
pub fn index_detail(files: u64) -> (r: String)
    ensures
        r@ == "("@ + decimal(files as nat) + " files)"@,
{
    let mut r: String = String::from_str("(");
    push_decimal(&mut r, files);
    r.append(" files)");
    r
}

/// What is said of an image that has been extracted from, given how much was written in words.
pub fn extract_detail(report: &ExtractReport, size: &str) -> (r: String)
    ensures
        r@ == "("@ + decimal(report.files_extracted as nat) + " files, "@ + size@ + ")"@,
{
    let mut r: String = String::from_str("(");
    push_decimal(&mut r, report.files_extracted);
    r.append(" files, ");
    r.append(size);
    r.append(")");
    r
}

// ---------------------------------------------------------------------------------------------
// Laws
// ---------------------------------------------------------------------------------------------

/// The sum of the counts of formats.
pub open spec fn sum_of(counts: Seq<FormatCount>) -> nat
    decreases counts.len(),
{
    if counts.len() == 0 {
        0
    } else {
        sum_of(counts.drop_last()) + counts.last().count as nat
    }
}

/// The counts of the formats add up to the number of images that could be probed: each of these is
/// counted, and none twice.
pub proof fn law_counts_add_up(counts: Seq<FormatCount>, labels: Seq<Seq<char>>)
    requires
        counts_formats(counts, labels),
    ensures
        sum_of(counts) == labels.len(),
{
    lemma_sum_of_occurrences(counts, labels);
    assert forall|k: int| 0 <= k < labels.len() implies is_counted(
        counts,
        #[trigger] labels[k],
    ) by {
        let i = choose|i: int|
            0 <= i < counts.len() && (#[trigger] counts[i]).format@ == labels[k];
        assert(counts[i].format@ == labels[k]);
    }
    lemma_all_counted(counts, labels);
}

/// Whether a format has a count.
spec fn is_counted(counts: Seq<FormatCount>, format: Seq<char>) -> bool {
    exists|i: int| 0 <= i < counts.len() && (#[trigger] counts[i]).format@ == format
}

/// How many of `labels` have a count.
spec fn counted_among(counts: Seq<FormatCount>, labels: Seq<Seq<char>>) -> nat
    decreases labels.len(),
{
    if labels.len() == 0 {
        0
    } else {
        counted_among(counts, labels.drop_last()) + if is_counted(counts, labels.last()) {
            1nat
        } else {
            0nat
        }
    }
}

proof fn lemma_all_counted(counts: Seq<FormatCount>, labels: Seq<Seq<char>>)
    requires
        forall|k: int| 0 <= k < labels.len() ==> is_counted(counts, #[trigger] labels[k]),
    ensures
        counted_among(counts, labels) == labels.len(),
    decreases labels.len(),
{
    if labels.len() > 0 {
        assert(is_counted(counts, labels[labels.len() - 1]));
        assert forall|k: int| 0 <= k < labels.drop_last().len() implies is_counted(
            counts,
            #[trigger] labels.drop_last()[k],
        ) by {
            assert(is_counted(counts, labels[k]));
        }
        lemma_all_counted(counts, labels.drop_last());
    }
}

proof fn lemma_sum_of_occurrences(counts: Seq<FormatCount>, labels: Seq<Seq<char>>)
    requires
        counts_formats(counts, labels),
    ensures
        sum_of(counts) == counted_among(counts, labels),
{
    lemma_sum_among(counts, labels, counts.len() as int);
    assert(counts.take(counts.len() as int) == counts);
}

proof fn lemma_sum_among(counts: Seq<FormatCount>, labels: Seq<Seq<char>>, n: int)
    requires
        counts_formats(counts, labels),
        0 <= n <= counts.len(),
    ensures
        sum_of(counts.take(n)) == counted_among(counts.take(n), labels),
    decreases n,
{
    if n == 0 {
        lemma_none_counted(labels);
        assert(counts.take(0) == Seq::<FormatCount>::empty());
    } else {
        lemma_sum_among(counts, labels, n - 1);
        assert(counts.take(n).drop_last() == counts.take(n - 1));
        assert forall|j: int| 0 <= j < n - 1 implies (
        #[trigger] counts.take(n - 1)[j]).format@ != counts[n - 1].format@ by {
            assert(counts[j].format@ != counts[n - 1].format@);
        }
        lemma_one_more_counted(counts.take(n - 1), counts[n - 1], labels);
        assert(counts.take(n) == counts.take(n - 1).push(counts[n - 1]));
    }
}

proof fn lemma_none_counted(labels: Seq<Seq<char>>)
    ensures
        counted_among(seq![], labels) == 0,
    decreases labels.len(),
{
    if labels.len() > 0 {
        lemma_none_counted(labels.drop_last());
    }
}

proof fn lemma_one_more_counted(
    counts: Seq<FormatCount>,
    item: FormatCount,
    labels: Seq<Seq<char>>,
)
    requires
        forall|j: int| 0 <= j < counts.len() ==> (#[trigger] counts[j]).format@ != item.format@,
    ensures
        counted_among(counts.push(item), labels) == counted_among(counts, labels) + occurrences(
            labels,
            item.format@,
        ),
    decreases labels.len(),
{
    if labels.len() > 0 {
        lemma_one_more_counted(counts, item, labels.drop_last());
        let more = counts.push(item);
        let last = labels.last();
        if last == item.format@ {
            assert(more[counts.len() as int].format@ == last);
            assert(is_counted(more, last));
            assert(!is_counted(counts, last));
        } else if is_counted(counts, last) {
            let i = choose|i: int| 0 <= i < counts.len() && (#[trigger] counts[i]).format@ == last;
            assert(more[i].format@ == last);
        } else if is_counted(more, last) {
            let i = choose|i: int| 0 <= i < more.len() && (#[trigger] more[i]).format@ == last;
            assert(i < counts.len());
            assert(counts[i].format@ == last);
        }
    }
}

} // verus!
