//! Laws of text: taking it apart again, trimming, numbers and columns.

use crate::text::{
    child_path, decimal, hex, joined, numeral, padded_left, padded_right, text_ends_with, trimmed,
    trimmed_end, trimmed_start, white_space, without_leading, without_trailing,
};
use vstd::prelude::*;

verus! {

// ---------------------------------------------------------------------------------------------
// Taking texts apart
// ---------------------------------------------------------------------------------------------

/// The parts of a text that `c` keeps apart.
pub open spec fn split(s: Seq<char>, c: char) -> Seq<Seq<char>>
    decreases s.len(),
{
    if s.len() == 0 {
        seq![seq![]]
    } else {
        let front = split(s.drop_last(), c);
        if s.last() == c {
            front.push(seq![])
        } else {
            front.drop_last().push(front.last().push(s.last()))
        }
    }
}

/// A text without `c` is one part.
pub proof fn lemma_split_whole(s: Seq<char>, c: char)
    requires
        !s.contains(c),
    ensures
        split(s, c) == seq![s],
    decreases s.len(),
{
    if s.len() > 0 {
        assert forall|i: int| 0 <= i < s.drop_last().len() implies s.drop_last()[i] != c by {
            assert(s.contains(s[i]));
        }
        lemma_split_whole(s.drop_last(), c);
        assert(s.contains(s.last()));
        assert(s.drop_last().push(s.last()) == s);
        assert(seq![s.drop_last()].drop_last() == Seq::<Seq<char>>::empty());
    } else {
        assert(s == Seq::<char>::empty());
    }
}

/// Putting `c` and a text without `c` behind another text adds one part.
pub proof fn lemma_split_push(s: Seq<char>, c: char, part: Seq<char>)
    requires
        !part.contains(c),
    ensures
        split(s + seq![c] + part, c) == split(s, c).push(part),
    decreases part.len(),
{
    let whole = s + seq![c] + part;
    if part.len() == 0 {
        assert(whole.drop_last() == s);
        assert(whole.last() == c);
        assert(part == Seq::<char>::empty());
    } else {
        let shorter = part.drop_last();
        assert forall|i: int| 0 <= i < shorter.len() implies shorter[i] != c by {
            assert(part.contains(part[i]));
        }
        lemma_split_push(s, c, shorter);
        assert(whole.drop_last() == s + seq![c] + shorter);
        assert(whole.last() == part.last());
        assert(part.contains(part.last()));
        let front = split(s, c).push(shorter);
        assert(front.drop_last() == split(s, c));
        assert(shorter.push(part.last()) == part);
    }
}

/// Texts in a row with a character between them are its parts, where none has the character in it.
pub proof fn law_joined_texts_are_its_parts(parts: Seq<Seq<char>>, c: char)
    requires
        parts.len() > 0,
        forall|i: int| 0 <= i < parts.len() ==> !(#[trigger] parts[i]).contains(c),
    ensures
        split(joined(parts, seq![c]), c) == parts,
    decreases parts.len(),
{
    if parts.len() == 1 {
        lemma_split_whole(parts[0], c);
        assert(parts == seq![parts[0]]);
    } else {
        law_joined_texts_are_its_parts(parts.drop_last(), c);
        lemma_split_push(joined(parts.drop_last(), seq![c]), c, parts.last());
        assert(parts.drop_last().push(parts.last()) == parts);
    }
}

/// Rows of texts are put together in turn, with one separator between them.
pub proof fn law_rows_are_joined_in_turn(
    first: Seq<Seq<char>>,
    second: Seq<Seq<char>>,
    separator: Seq<char>,
)
    requires
        first.len() > 0,
        second.len() > 0,
    ensures
        joined(first + second, separator) == joined(first, separator) + separator + joined(
            second,
            separator,
        ),
        joined(seq![], separator) == Seq::<char>::empty(),
    decreases second.len(),
{
    let all = first + second;
    assert(all.drop_last() == first + second.drop_last());
    assert(all.last() == second.last());
    if second.len() == 1 {
        assert(first + second.drop_last() == first);
    } else {
        law_rows_are_joined_in_turn(first, second.drop_last(), separator);
        assert(joined(all, separator) == joined(first + second.drop_last(), separator) + separator
            + second.last());
        assert(joined(first, separator) + separator + joined(second.drop_last(), separator)
            + separator + second.last() == joined(first, separator) + separator + (joined(
            second.drop_last(),
            separator,
        ) + separator + second.last()));
    }
}

// ---------------------------------------------------------------------------------------------
// Endings and paths
// ---------------------------------------------------------------------------------------------

/// A text ends in a suffix exactly where it is some stem with the suffix behind it.
pub proof fn law_endings_are_suffixes(s: Seq<char>, suffix: Seq<char>)
    ensures
        text_ends_with(s, suffix) <==> exists|stem: Seq<char>| s == #[trigger] (stem + suffix),
{
    if text_ends_with(s, suffix) {
        let stem = s.take(s.len() - suffix.len());
        assert(s == stem + suffix);
    }
    if exists|stem: Seq<char>| s == #[trigger] (stem + suffix) {
        let stem = choose|stem: Seq<char>| s == #[trigger] (stem + suffix);
        assert(s.skip(stem.len() as int) == suffix);
    }
}

/// The path of an entry is that of its directory, a slash, and its name.
pub proof fn law_paths_have_a_slash(parent: Seq<char>, name: Seq<char>)
    ensures
        child_path(parent, name).len() == parent.len() + 1 + name.len(),
        child_path(parent, name).take(parent.len() as int) == parent,
        child_path(parent, name)[parent.len() as int] == '/',
        child_path(parent, name).skip(parent.len() as int + 1) == name,
{
    reveal_strlit("/");
}

// ---------------------------------------------------------------------------------------------
// Trimming
// ---------------------------------------------------------------------------------------------

/// `c`, `n` times.
pub open spec fn run_of(c: char, n: nat) -> Seq<char> {
    Seq::new(n, |i: int| c)
}

/// Whether a text is nothing but white space.
pub open spec fn is_blank(s: Seq<char>) -> bool {
    forall|i: int| 0 <= i < s.len() ==> white_space(#[trigger] s[i])
}

/// Whether a text has no white space at its ends.
pub open spec fn has_firm_ends(s: Seq<char>) -> bool {
    s.len() > 0 ==> !white_space(s[0]) && !white_space(s.last())
}

/// What is left without the run of `c` at the end of a text is the text before the run.
pub proof fn law_trailing_runs_are_dropped(s: Seq<char>, c: char, n: nat)
    requires
        s.len() > 0 ==> s.last() != c,
    ensures
        without_trailing(s + run_of(c, n), c) == s,
    decreases n,
{
    let whole = s + run_of(c, n);
    if n == 0 {
        assert(whole == s);
    } else {
        assert(whole.drop_last() == s + run_of(c, (n - 1) as nat));
        law_trailing_runs_are_dropped(s, c, (n - 1) as nat);
    }
}

/// What is left without the run of `c` at the front of a text is the text behind the run.
pub proof fn law_leading_runs_are_dropped(s: Seq<char>, c: char, n: nat)
    requires
        s.len() > 0 ==> s[0] != c,
    ensures
        without_leading(run_of(c, n) + s, c) == s,
    decreases n,
{
    let whole = run_of(c, n) + s;
    if n == 0 {
        assert(whole == s);
    } else {
        assert(whole.drop_first() == run_of(c, (n - 1) as nat) + s);
        law_leading_runs_are_dropped(s, c, (n - 1) as nat);
    }
}

/// White space at both ends of a text is dropped, and nothing else.
pub proof fn law_white_space_is_trimmed(before: Seq<char>, s: Seq<char>, behind: Seq<char>)
    requires
        is_blank(before),
        is_blank(behind),
        has_firm_ends(s),
    ensures
        trimmed(before + s + behind) == s,
{
    if s.len() > 0 {
        lemma_start_trimmed(before, s + behind);
        assert(before + (s + behind) == before + s + behind);
        lemma_end_trimmed(s, behind);
    } else {
        let all = before + behind;
        assert(before + s + behind == all);
        lemma_start_trimmed(all, Seq::empty());
        assert(all + Seq::<char>::empty() == all);
        assert(s == Seq::<char>::empty());
    }
}

proof fn lemma_start_trimmed(before: Seq<char>, s: Seq<char>)
    requires
        is_blank(before),
        s.len() > 0 ==> !white_space(s[0]),
    ensures
        trimmed_start(before + s) == s,
    decreases before.len(),
{
    if before.len() == 0 {
        assert(before + s == s);
    } else {
        assert(white_space(before[0]));
        assert((before + s).drop_first() == before.drop_first() + s);
        assert forall|i: int| 0 <= i < before.drop_first().len() implies white_space(
            #[trigger] before.drop_first()[i],
        ) by {
            assert(white_space(before[i + 1]));
        }
        lemma_start_trimmed(before.drop_first(), s);
    }
}

proof fn lemma_end_trimmed(s: Seq<char>, behind: Seq<char>)
    requires
        is_blank(behind),
        s.len() > 0 ==> !white_space(s.last()),
    ensures
        trimmed_end(s + behind) == s,
    decreases behind.len(),
{
    if behind.len() == 0 {
        assert(s + behind == s);
    } else {
        assert(white_space(behind[behind.len() - 1]));
        assert((s + behind).drop_last() == s + behind.drop_last());
        assert forall|i: int| 0 <= i < behind.drop_last().len() implies white_space(
            #[trigger] behind.drop_last()[i],
        ) by {
            assert(white_space(behind[i]));
        }
        lemma_end_trimmed(s, behind.drop_last());
    }
}

// ---------------------------------------------------------------------------------------------
// Numbers
// ---------------------------------------------------------------------------------------------

/// The value of a digit.
pub open spec fn digit_value(c: char) -> int {
    if '0' <= c <= '9' {
        c as int - '0' as int
    } else {
        c as int - 'a' as int + 10
    }
}

/// The number that digits stand for.
pub open spec fn value_of(digits: Seq<char>, base: int) -> int
    decreases digits.len(),
{
    if digits.len() == 0 {
        0
    } else {
        value_of(digits.drop_last(), base) * base + digit_value(digits.last())
    }
}

/// Whether a text is a number in decimal: at least one digit, and no needless zero before others.
pub open spec fn is_decimal(s: Seq<char>) -> bool {
    &&& s.len() > 0
    &&& forall|i: int| 0 <= i < s.len() ==> '0' <= #[trigger] s[i] <= '9'
    &&& s.len() > 1 ==> s[0] != '0'
}

/// A number in decimal has the value of the number.
pub proof fn law_decimals_have_their_value(n: nat)
    ensures
        value_of(decimal(n), 10) == n,
        is_decimal(decimal(n)),
    decreases n,
{
    let s = decimal(n);
    if n < 10 {
        assert(s.drop_last() == Seq::<char>::empty());
        assert(value_of(s.drop_last(), 10) == 0);
    } else {
        let front = decimal(n / 10);
        law_decimals_have_their_value(n / 10);
        assert(s.drop_last() == front);
        assert(s[0] == front[0]);
        if front.len() == 1 {
            assert(front.drop_last() == Seq::<char>::empty());
            assert(value_of(front.drop_last(), 10) == 0);
            assert(front[0] != '0');
        }
        assert forall|i: int| 0 <= i < s.len() implies '0' <= #[trigger] s[i] <= '9' by {
            if i < front.len() {
                assert(s[i] == front[i]);
            }
        }
    }
}

/// A number in hexadecimal has `0x` before digits that have the value of the number.
pub proof fn law_hexadecimals_have_their_value(n: nat)
    ensures
        hex(n).len() > 2,
        hex(n)[0] == '0',
        hex(n)[1] == 'x',
        value_of(hex(n).skip(2), 16) == n,
        forall|i: int|
            2 <= i < hex(n).len() ==> '0' <= #[trigger] hex(n)[i] <= '9' || 'a' <= hex(n)[i] <= 'f',
        hex(n).len() > 3 ==> hex(n)[2] != '0',
{
    reveal_strlit("0x");
    lemma_hex_digits(n);
    assert(hex(n).skip(2) == numeral(n, 16));
    assert forall|i: int| 2 <= i < hex(n).len() implies '0' <= #[trigger] hex(n)[i] <= '9' || 'a'
        <= hex(n)[i] <= 'f' by {
        assert(hex(n)[i] == numeral(n, 16)[i - 2]);
    }
}

proof fn lemma_hex_digits(n: nat)
    ensures
        numeral(n, 16).len() > 0,
        value_of(numeral(n, 16), 16) == n,
        forall|i: int|
            0 <= i < numeral(n, 16).len() ==> '0' <= #[trigger] numeral(n, 16)[i] <= '9' || 'a'
                <= numeral(n, 16)[i] <= 'f',
        numeral(n, 16).len() > 1 ==> numeral(n, 16)[0] != '0',
    decreases n,
{
    let s = numeral(n, 16);
    if n < 16 {
        assert(s.drop_last() == Seq::<char>::empty());
        assert(value_of(s.drop_last(), 16) == 0);
    } else {
        let front = numeral(n / 16, 16);
        lemma_hex_digits(n / 16);
        assert(s.drop_last() == front);
        assert(s[0] == front[0]);
        if front.len() == 1 {
            assert(front.drop_last() == Seq::<char>::empty());
            assert(value_of(front.drop_last(), 16) == 0);
            assert(front[0] != '0');
        }
        assert forall|i: int| 0 <= i < s.len() implies '0' <= #[trigger] s[i] <= '9' || 'a' <= s[i]
            <= 'f' by {
            if i < front.len() {
                assert(s[i] == front[i]);
            }
        }
    }
}

// ---------------------------------------------------------------------------------------------
// Columns
// ---------------------------------------------------------------------------------------------

/// A text that is filled up on the right stands first, with nothing but spaces behind it, and takes
/// up the width of the column, or more where it is longer.
pub proof fn law_left_column(s: Seq<char>, width: nat)
    ensures
        padded_right(s, width).len() == if s.len() < width {
            width
        } else {
            s.len()
        },
        padded_right(s, width).take(s.len() as int) == s,
        forall|i: int|
            s.len() <= i < padded_right(s, width).len() ==> #[trigger] padded_right(s, width)[i]
                == ' ',
{
}

/// A text that is filled up on the left stands last, with nothing but spaces before it, and takes up
/// the width of the column, or more where it is longer.
pub proof fn law_right_column(s: Seq<char>, width: nat)
    ensures
        ({
            let column = padded_left(s, width);
            &&& column.len() == if s.len() < width {
                width
            } else {
                s.len()
            }
            &&& column.skip(column.len() - s.len()) == s
            &&& forall|i: int| 0 <= i < column.len() - s.len() ==> #[trigger] column[i] == ' '
        }),
{
}

} // verus!
