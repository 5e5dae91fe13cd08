//! Text as sequences of characters: trimming, padding, numbers in decimal and hexadecimal, and
//! the few Unicode operations that are left to the standard library.

use vstd::prelude::*;
use vstd::utf8::{decode_utf8, is_ascii_chars, valid_utf8};

verus! {

// ---------------------------------------------------------------------------------------------
// What the standard library decides
// ---------------------------------------------------------------------------------------------

/// `String::push` appends one character.
pub assume_specification[ String::push ](s: &mut String, c: char)
    ensures
        final(s)@ == old(s)@.push(c),
;

/// The characters with the Unicode property `White_Space`.
pub open spec fn white_space(c: char) -> bool {
    let n = c as u32;
    ||| 0x09 <= n <= 0x0d
    ||| n == 0x20
    ||| n == 0x85
    ||| n == 0xa0
    ||| n == 0x1680
    ||| 0x2000 <= n <= 0x200a
    ||| n == 0x2028
    ||| n == 0x2029
    ||| n == 0x202f
    ||| n == 0x205f
    ||| n == 0x3000
}

/// `char::is_whitespace` tells whether a character has the Unicode property `White_Space`.
pub assume_specification[ char::is_whitespace ](c: char) -> (r: bool)
    ensures
        r == white_space(c),
;

/// The text that malformed bytes decode to as UTF-8, with U+FFFD in place of what is malformed.
pub uninterp spec fn mended_utf8(bytes: Seq<u8>) -> Seq<char>;

/// The text that a byte sequence decodes to as UTF-8: well-formed input as it stands, and else with
/// U+FFFD in place of what is malformed.
pub open spec fn lossy_utf8(bytes: Seq<u8>) -> Seq<char> {
    if valid_utf8(bytes) {
        decode_utf8(bytes)
    } else {
        mended_utf8(bytes)
    }
}

/// `String::from_utf8_lossy` decodes UTF-8. Well-formed input is decoded as it stands; where the
/// input is malformed, nothing is claimed but that equal bytes give equal text.
#[verifier::external_body]
pub(crate) fn utf8_text(bytes: &[u8]) -> (r: String)
    ensures
        r@ == if valid_utf8(bytes@) {
            decode_utf8(bytes@)
        } else {
            mended_utf8(bytes@)
        },
{
    String::from_utf8_lossy(bytes).into_owned()
}

/// The text that a sequence of 16-bit units decodes to as UTF-16: a unit that is no surrogate is a
/// character by itself, a high surrogate and a low one behind it are a character together, and any
/// other surrogate is replaced by U+FFFD.
pub open spec fn lossy_utf16(units: Seq<u16>) -> Seq<char>
    decreases units.len(),
{
    if units.len() == 0 {
        seq![]
    } else if !is_surrogate(units[0]) {
        seq![units[0] as char] + lossy_utf16(units.skip(1))
    } else if units.len() > 1 && is_high_surrogate(units[0]) && is_low_surrogate(units[1]) {
        seq![surrogate_pair(units[0], units[1])] + lossy_utf16(units.skip(2))
    } else {
        seq!['\u{fffd}'] + lossy_utf16(units.skip(1))
    }
}

/// `String::from_utf16_lossy` decodes UTF-16, with U+FFFD in place of each surrogate that is not
/// half of a pair.
#[verifier::external_body]
pub(crate) fn utf16_text(units: &[u16]) -> (r: String)
    ensures
        r@ == lossy_utf16(units@),
{
    String::from_utf16_lossy(units)
}

/// The lowercase form of a text that is not ASCII.
pub uninterp spec fn unicode_lowercase(s: Seq<char>) -> Seq<char>;

/// The lowercase form of a text. Of ASCII text it has the letters from `A` to `Z` changed and
/// nothing else.
pub open spec fn lowercase(s: Seq<char>) -> Seq<char> {
    if is_ascii_chars(s) {
        s.map_values(|c: char| ascii_lower(c))
    } else {
        unicode_lowercase(s)
    }
}

/// `str::to_lowercase` gives the lowercase form of a text. On ASCII text it changes the letters
/// from `A` to `Z` and nothing else; elsewhere nothing is claimed but that equal texts have equal
/// lowercase forms.
#[verifier::external_body]
pub(crate) fn lowercase_text(s: &str) -> (r: String)
    ensures
        r@ == if is_ascii_chars(s@) {
            s@.map_values(|c: char| ascii_lower(c))
        } else {
            unicode_lowercase(s@)
        },
{
    s.to_lowercase()
}

/// Whether a 16-bit unit is half of a surrogate pair.
pub open spec fn is_surrogate(u: u16) -> bool {
    0xd800 <= u <= 0xdfff
}

/// Whether a 16-bit unit is the first half of a surrogate pair.
pub open spec fn is_high_surrogate(u: u16) -> bool {
    0xd800 <= u <= 0xdbff
}

/// Whether a 16-bit unit is the second half of a surrogate pair.
pub open spec fn is_low_surrogate(u: u16) -> bool {
    0xdc00 <= u <= 0xdfff
}

/// The character that a surrogate pair stands for.
pub open spec fn surrogate_pair(high: u16, low: u16) -> char {
    (0x1_0000 + (high - 0xd800) * 0x400 + (low - 0xdc00)) as char
}

/// The lowercase form of an ASCII character.
pub open spec fn ascii_lower(c: char) -> char {
    if 'A' <= c <= 'Z' {
        (c as u32 + 0x20) as char
    } else {
        c
    }
}

// ---------------------------------------------------------------------------------------------
// Between strings and characters
// ---------------------------------------------------------------------------------------------

/// The characters of `s`.
pub fn chars_of(s: &str) -> (r: Vec<char>)
    ensures
        r@ == s@,
{
    let mut r: Vec<char> = Vec::new();
    for c in it: s.chars()
        invariant
            it.seq() == s@,
            r@ == s@.take(it.index() as int),
    {
        r.push(c);
        assert(s@.take(it.index() as int + 1) == s@.take(it.index() as int).push(c));
    }
    assert(s@.take(s@.len() as int) == s@);
    r
}

/// The string of the characters from `from` up to `to`.
pub fn string_of(chars: &[char], from: usize, to: usize) -> (r: String)
    requires
        from <= to <= chars.len(),
    ensures
        r@ == chars@.subrange(from as int, to as int),
{
    let mut r: String = String::new();
    let mut i: usize = from;
    while i < to
        invariant
            from <= i <= to <= chars.len(),
            r@ == chars@.subrange(from as int, i as int),
        decreases to - i,
    {
        r.push(chars[i]);
        assert(chars@.subrange(from as int, i + 1) == chars@.subrange(from as int, i as int).push(
            chars@[i as int],
        ));
        i = i + 1;
    }
    r
}

/// Whether two texts are the same.
pub fn same_text(a: &str, b: &str) -> (r: bool)
    ensures
        r == (a@ == b@),
{
    let x: Vec<char> = chars_of(a);
    let y: Vec<char> = chars_of(b);
    if x.len() != y.len() {
        return false;
    }
    let mut i: usize = 0;
    while i < x.len()
        invariant
            i <= x.len(),
            x@ == a@,
            y@ == b@,
            x.len() == y.len(),
            forall|j: int| 0 <= j < i ==> x@[j] == y@[j],
        decreases x.len() - i,
    {
        if x[i] != y[i] {
            return false;
        }
        i = i + 1;
    }
    assert(x@ == y@);
    true
}

/// Whether `s` ends in `suffix`.
pub open spec fn text_ends_with(s: Seq<char>, suffix: Seq<char>) -> bool {
    suffix.len() <= s.len() && s.skip(s.len() - suffix.len()) == suffix
}

/// Whether `s` ends in `suffix`.
pub fn ends_with(s: &str, suffix: &str) -> (r: bool)
    ensures
        r == text_ends_with(s@, suffix@),
{
    let x: Vec<char> = chars_of(s);
    let y: Vec<char> = chars_of(suffix);
    if y.len() > x.len() {
        return false;
    }
    let skip: usize = x.len() - y.len();
    let mut i: usize = 0;
    while i < y.len()
        invariant
            i <= y.len(),
            skip + y.len() == x.len(),
            x@ == s@,
            y@ == suffix@,
            forall|j: int| 0 <= j < i ==> #[trigger] s@.skip(skip as int)[j] == suffix@[j],
        decreases y.len() - i,
    {
        assert(s@.skip(skip as int)[i as int] == x@[skip + i]);
        if x[skip + i] != y[i] {
            return false;
        }
        i = i + 1;
    }
    assert(s@.skip(skip as int) == suffix@);
    true
}

/// Texts in a row with `separator` between them.
pub open spec fn joined(parts: Seq<Seq<char>>, separator: Seq<char>) -> Seq<char>
    decreases parts.len(),
{
    if parts.len() == 0 {
        seq![]
    } else if parts.len() == 1 {
        parts[0]
    } else {
        joined(parts.drop_last(), separator) + separator + parts.last()
    }
}

/// The contents of texts.
pub open spec fn texts(parts: Seq<&str>) -> Seq<Seq<char>> {
    parts.map_values(|s: &str| s@)
}

/// Puts texts in a row with `separator` between them.
pub fn join(parts: &Vec<&str>, separator: &str) -> (r: String)
    ensures
        r@ == joined(texts(parts@), separator@),
{
    let mut r: String = String::new();
    let mut i: usize = 0;
    while i < parts.len()
        invariant
            i <= parts.len(),
            r@ == joined(texts(parts@).take(i as int), separator@),
        decreases parts.len() - i,
    {
        if i > 0 {
            r.append(separator);
        }
        r.append(parts[i]);
        assert(texts(parts@).take(i + 1).drop_last() == texts(parts@).take(i as int));
        i = i + 1;
    }
    assert(texts(parts@).take(i as int) == texts(parts@));
    r
}

/// The path of `name` inside the directory at `parent`; the root directory is the empty path.
pub open spec fn child_path(parent: Seq<char>, name: Seq<char>) -> Seq<char> {
    parent + "/"@ + name
}

/// The path of `name` inside the directory at `parent`.
pub fn join_path(parent: &str, name: &str) -> (r: String)
    ensures
        r@ == child_path(parent@, name@),
{
    let mut r: String = String::from_str(parent);
    r.append("/");
    r.append(name);
    r
}

// ---------------------------------------------------------------------------------------------
// Trimming
// ---------------------------------------------------------------------------------------------

/// `s` without the run of `c` at its end.
pub open spec fn without_trailing(s: Seq<char>, c: char) -> Seq<char>
    decreases s.len(),
{
    if s.len() > 0 && s.last() == c {
        without_trailing(s.drop_last(), c)
    } else {
        s
    }
}

/// `s` without the run of `c` at its front.
pub open spec fn without_leading(s: Seq<char>, c: char) -> Seq<char>
    decreases s.len(),
{
    if s.len() > 0 && s[0] == c {
        without_leading(s.drop_first(), c)
    } else {
        s
    }
}

/// `s` without the white space at its end.
pub open spec fn trimmed_end(s: Seq<char>) -> Seq<char>
    decreases s.len(),
{
    if s.len() > 0 && white_space(s.last()) {
        trimmed_end(s.drop_last())
    } else {
        s
    }
}

/// `s` without the white space at its front.
pub open spec fn trimmed_start(s: Seq<char>) -> Seq<char>
    decreases s.len(),
{
    if s.len() > 0 && white_space(s[0]) {
        trimmed_start(s.drop_first())
    } else {
        s
    }
}

/// `s` without the white space at both ends.
pub open spec fn trimmed(s: Seq<char>) -> Seq<char> {
    trimmed_end(trimmed_start(s))
}

/// `s` without the run of `c` at its end.
pub fn trim_end_char(s: &str, c: char) -> (r: String)
    ensures
        r@ == without_trailing(s@, c),
{
    let x: Vec<char> = chars_of(s);
    let mut end: usize = x.len();
    assert(s@.take(end as int) == s@);
    while end > 0 && x[end - 1] == c
        invariant
            end <= x.len(),
            x@ == s@,
            without_trailing(s@, c) == without_trailing(s@.take(end as int), c),
        decreases end,
    {
        assert(s@.take(end as int).drop_last() == s@.take(end - 1));
        end = end - 1;
    }
    assert(x@.subrange(0, end as int) == s@.take(end as int));
    string_of(&x, 0, end)
}

/// `s` without the run of `c` at its front.
pub fn trim_start_char(s: &str, c: char) -> (r: String)
    ensures
        r@ == without_leading(s@, c),
{
    let x: Vec<char> = chars_of(s);
    let mut start: usize = 0;
    assert(s@.skip(0) == s@);
    while start < x.len() && x[start] == c
        invariant
            start <= x.len(),
            x@ == s@,
            without_leading(s@, c) == without_leading(s@.skip(start as int), c),
        decreases x.len() - start,
    {
        assert(s@.skip(start as int).drop_first() == s@.skip(start + 1));
        start = start + 1;
    }
    assert(x@.subrange(start as int, x@.len() as int) == s@.skip(start as int));
    string_of(&x, start, x.len())
}

/// `s` without the white space at both ends.
pub fn trim(s: &str) -> (r: String)
    ensures
        r@ == trimmed(s@),
{
    let x: Vec<char> = chars_of(s);
    let mut start: usize = 0;
    assert(s@.skip(0) == s@);
    while start < x.len() && x[start].is_whitespace()
        invariant
            start <= x.len(),
            x@ == s@,
            trimmed_start(s@) == trimmed_start(s@.skip(start as int)),
        decreases x.len() - start,
    {
        assert(s@.skip(start as int).drop_first() == s@.skip(start + 1));
        start = start + 1;
    }
    let ghost front: Seq<char> = s@.skip(start as int);
    assert(trimmed_start(s@) == front);
    let mut end: usize = x.len();
    assert(s@.subrange(start as int, end as int) == front);
    while end > start && x[end - 1].is_whitespace()
        invariant
            start <= end <= x.len(),
            x@ == s@,
            front == s@.skip(start as int),
            trimmed_end(front) == trimmed_end(s@.subrange(start as int, end as int)),
        decreases end - start,
    {
        assert(s@.subrange(start as int, end as int).drop_last() == s@.subrange(
            start as int,
            end - 1,
        ));
        end = end - 1;
    }
    string_of(&x, start, end)
}

// ---------------------------------------------------------------------------------------------
// Numbers
// ---------------------------------------------------------------------------------------------

/// The digit for a value under sixteen, in lowercase.
pub open spec fn digit(d: nat) -> char {
    if d < 10 {
        ('0' as u32 + d) as char
    } else {
        ('a' as u32 + d - 10) as char
    }
}

/// `n` written in base `base` without leading zeros.
pub open spec fn numeral(n: nat, base: nat) -> Seq<char>
    recommends
        2 <= base <= 16,
    decreases n,
{
    if base < 2 || n < base {
        seq![digit(n)]
    } else {
        proof {
            assert(n / base < n) by (nonlinear_arith)
                requires
                    n >= base,
                    base >= 2,
            ;
        }
        numeral(n / base, base).push(digit(n % base))
    }
}

/// `n` in decimal.
pub open spec fn decimal(n: nat) -> Seq<char> {
    numeral(n, 10)
}

/// `n` in hexadecimal, behind `0x`.
pub open spec fn hex(n: nat) -> Seq<char> {
    "0x"@ + numeral(n, 16)
}

/// The digit for `d`.
fn digit_char(d: u64) -> (c: char)
    requires
        d < 16,
    ensures
        c == digit(d as nat),
{
    if d < 10 {
        (0x30 + d as u8) as char
    } else {
        (0x61 + (d as u8 - 10)) as char
    }
}

/// Appends `n` in base `base`.
fn push_numeral(out: &mut String, n: u64, base: u64)
    requires
        2 <= base <= 16,
    ensures
        final(out)@ == old(out)@ + numeral(n as nat, base as nat),
    decreases n,
{
    if n < base {
        out.push(digit_char(n));
        assert(out@ == old(out)@ + seq![digit(n as nat)]);
    } else {
        assert(n / base < n) by (nonlinear_arith)
            requires
                n >= base,
                base >= 2,
        ;
        assert(n % base < base);
        push_numeral(out, n / base, base);
        out.push(digit_char(n % base));
        assert(out@ == old(out)@ + numeral((n / base) as nat, base as nat).push(
            digit((n % base) as nat),
        ));
    }
}

/// Appends `n` in decimal.
pub fn push_decimal(out: &mut String, n: u64)
    ensures
        final(out)@ == old(out)@ + decimal(n as nat),
{
    push_numeral(out, n, 10);
}

/// Appends `n` in hexadecimal, behind `0x`.
pub fn push_hex(out: &mut String, n: u64)
    ensures
        final(out)@ == old(out)@ + hex(n as nat),
{
    out.append("0x");
    push_numeral(out, n, 16);
    assert(out@ == old(out)@ + hex(n as nat));
}

// ---------------------------------------------------------------------------------------------
// Padding
// ---------------------------------------------------------------------------------------------

/// `n` spaces.
pub open spec fn spaces(n: int) -> Seq<char> {
    Seq::new(if n > 0 { n as nat } else { 0 }, |i: int| ' ')
}

/// `s` with spaces behind it up to `width` characters; a longer text stays whole.
pub open spec fn padded_right(s: Seq<char>, width: nat) -> Seq<char> {
    s + spaces(width - s.len())
}

/// `s` with spaces before it up to `width` characters; a longer text stays whole.
pub open spec fn padded_left(s: Seq<char>, width: nat) -> Seq<char> {
    spaces(width - s.len()) + s
}

/// Appends the spaces that bring `s` to `width` characters.
fn push_padding(out: &mut String, s: &str, width: usize)
    ensures
        final(out)@ == old(out)@ + spaces(width - s@.len()),
{
    let len: usize = chars_of(s).len();
    let mut i: usize = len;
    while i < width
        invariant
            len == s@.len(),
            len <= i,
            i <= width || i == len,
            out@ == old(out)@ + spaces(i - len),
        decreases width - i,
    {
        out.push(' ');
        assert(spaces(i + 1 - len) == spaces(i - len).push(' '));
        assert(out@ == old(out)@ + spaces(i + 1 - len));
        i = i + 1;
    }
    assert(spaces(i - len) == spaces(width - s@.len()));
}

/// Appends `s` with spaces behind it up to `width` characters.
pub fn push_padded_right(out: &mut String, s: &str, width: usize)
    ensures
        final(out)@ == old(out)@ + padded_right(s@, width as nat),
{
    out.append(s);
    push_padding(out, s, width);
    assert(out@ == old(out)@ + padded_right(s@, width as nat));
}

/// Appends `s` with spaces before it up to `width` characters.
pub fn push_padded_left(out: &mut String, s: &str, width: usize)
    ensures
        final(out)@ == old(out)@ + padded_left(s@, width as nat),
{
    push_padding(out, s, width);
    out.append(s);
    assert(out@ == old(out)@ + padded_left(s@, width as nat));
}

// ---------------------------------------------------------------------------------------------
// Laws
// ---------------------------------------------------------------------------------------------

/// The 16-bit units that UTF-16 has for a character.
pub open spec fn utf16_units_of(c: char) -> Seq<u16> {
    let n = c as u32;
    if n < 0x1_0000 {
        seq![n as u16]
    } else {
        seq![(0xd800 + (n - 0x1_0000) / 0x400) as u16, (0xdc00 + (n - 0x1_0000) % 0x400) as u16]
    }
}

/// A text in UTF-16.
pub open spec fn encode_utf16(s: Seq<char>) -> Seq<u16>
    decreases s.len(),
{
    if s.len() == 0 {
        seq![]
    } else {
        utf16_units_of(s[0]) + encode_utf16(s.skip(1))
    }
}

/// A text in UTF-16 decodes to the text.
pub proof fn law_utf16_can_be_read_back(s: Seq<char>)
    ensures
        lossy_utf16(encode_utf16(s)) == s,
    decreases s.len(),
{
    if s.len() > 0 {
        let rest = s.skip(1);
        let units = encode_utf16(s);
        let first = utf16_units_of(s[0]);
        law_utf16_can_be_read_back(rest);
        lemma_utf16_units_of(s[0]);
        assert(units[0] == first[0]);
        if first.len() == 2 {
            assert(units[1] == first[1]);
        }
        assert(units.skip(first.len() as int) == encode_utf16(rest));
        assert(seq![s[0]] + rest == s);
    }
}

proof fn lemma_utf16_units_of(c: char)
    ensures
        ({
            let units = utf16_units_of(c);
            ||| units.len() == 1 && !is_surrogate(units[0]) && units[0] as char == c
            ||| units.len() == 2 && is_high_surrogate(units[0]) && is_low_surrogate(units[1])
                && surrogate_pair(units[0], units[1]) == c
        }),
{
}

/// Units that are no surrogates decode to one character each.
pub proof fn lemma_utf16_without_surrogates(units: Seq<u16>)
    requires
        forall|i: int| 0 <= i < units.len() ==> !is_surrogate(#[trigger] units[i]),
    ensures
        lossy_utf16(units) == units.map_values(|u: u16| u as char),
    decreases units.len(),
{
    if units.len() > 0 {
        lemma_utf16_without_surrogates(units.skip(1));
        assert(units.map_values(|u: u16| u as char) == seq![units[0] as char] + units.skip(
            1,
        ).map_values(|u: u16| u as char));
    }
}

/// Numbers that are written alike are the same.
pub proof fn law_numerals_tell_numbers_apart(n: nat, m: nat, base: nat)
    requires
        2 <= base <= 16,
        numeral(n, base) == numeral(m, base),
    ensures
        n == m,
    decreases n,
{
    let a = numeral(n, base);
    let b = numeral(m, base);
    lemma_numeral_len(n, base);
    lemma_numeral_len(m, base);
    if n < base {
        assert(m < base);
        assert(a[0] == digit(n) && b[0] == digit(m));
    } else {
        assert(m >= base);
        assert(n / base < n) by (nonlinear_arith)
            requires
                n >= base,
                base >= 2,
        ;
        assert(a.drop_last() == numeral(n / base, base));
        assert(b.drop_last() == numeral(m / base, base));
        law_numerals_tell_numbers_apart(n / base, m / base, base);
        assert(a.last() == digit(n % base) && b.last() == digit(m % base));
        assert(n % base < base && m % base < base);
        assert(n == n / base * base + n % base) by (nonlinear_arith)
            requires
                base >= 2,
        ;
        assert(m == m / base * base + m % base) by (nonlinear_arith)
            requires
                base >= 2,
        ;
    }
}

proof fn lemma_numeral_len(n: nat, base: nat)
    requires
        2 <= base <= 16,
    ensures
        numeral(n, base).len() >= 1,
        numeral(n, base).len() == 1 <==> n < base,
    decreases n,
{
    if n >= base {
        assert(n / base < n) by (nonlinear_arith)
            requires
                n >= base,
                base >= 2,
        ;
        lemma_numeral_len(n / base, base);
    }
}

/// Whether a character is a digit in a base up to sixteen, in lowercase.
pub open spec fn is_digit(c: char) -> bool {
    '0' <= c <= '9' || 'a' <= c <= 'f'
}

/// Whether a text has neither spaces nor control characters of ASCII.
pub open spec fn is_graphic(s: Seq<char>) -> bool {
    forall|i: int| 0 <= i < s.len() ==> ' ' < #[trigger] s[i]
}

/// A number in writing is made of digits only.
pub proof fn lemma_numeral_is_digits(n: nat, base: nat)
    requires
        2 <= base <= 16,
    ensures
        forall|i: int| 0 <= i < numeral(n, base).len() ==> is_digit(#[trigger] numeral(n, base)[i]),
        is_graphic(numeral(n, base)),
    decreases n,
{
    if n >= base {
        assert(n / base < n) by (nonlinear_arith)
            requires
                n >= base,
                base >= 2,
        ;
        assert(n % base < base);
        lemma_numeral_is_digits(n / base, base);
        let front = numeral(n / base, base);
        assert forall|i: int| 0 <= i < numeral(n, base).len() implies is_digit(
            #[trigger] numeral(n, base)[i],
        ) by {
            if i < front.len() {
                assert(numeral(n, base)[i] == front[i]);
            }
        }
    }
}

/// What stands before and behind the first `c` of a text can be told from the text.
pub proof fn lemma_split_at(
    a: Seq<char>,
    a_rest: Seq<char>,
    b: Seq<char>,
    b_rest: Seq<char>,
    c: char,
)
    requires
        a + seq![c] + a_rest == b + seq![c] + b_rest,
        !a.contains(c),
        !b.contains(c),
    ensures
        a == b,
        a_rest == b_rest,
{
    let x = a + seq![c] + a_rest;
    let y = b + seq![c] + b_rest;
    assert(x[a.len() as int] == c);
    assert(y[b.len() as int] == c);
    if a.len() < b.len() {
        assert(y[a.len() as int] == b[a.len() as int]);
        assert(b.contains(b[a.len() as int]));
    } else if b.len() < a.len() {
        assert(x[b.len() as int] == a[b.len() as int]);
        assert(a.contains(a[b.len() as int]));
    }
    assert(a == x.take(a.len() as int));
    assert(b == y.take(b.len() as int));
    assert(a_rest == x.skip(a.len() as int + 1));
    assert(b_rest == y.skip(b.len() as int + 1));
}

} // verus!
