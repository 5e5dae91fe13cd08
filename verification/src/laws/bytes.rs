//! Laws of integers and marks inside blocks of bytes.

use crate::bytes::{be16, has_text, le16, le32, le64};
use vstd::prelude::*;

verus! {

/// Byte `i` of a number, the lowest being byte 0.
pub open spec fn byte_of(n: int, i: nat) -> int
    decreases i,
{
    if i == 0 {
        n % 256
    } else {
        byte_of(n / 256, (i - 1) as nat)
    }
}

/// A little-endian 16-bit integer has the bytes that it is read from, the lowest first, and a
/// big-endian one has them the other way round.
pub proof fn law_short_integers_hold_their_bytes(b: Seq<u8>, at: int)
    ensures
        le16(b, at) as int % 256 == b[at],
        le16(b, at) as int / 256 == b[at + 1],
        be16(b, at) as int % 256 == b[at + 1],
        be16(b, at) as int / 256 == b[at],
{
}

/// A little-endian 32-bit integer has the bytes that it is read from, the lowest first.
pub proof fn law_long_integers_hold_their_bytes(b: Seq<u8>, at: int)
    ensures
        byte_of(le32(b, at) as int, 0) == b[at],
        byte_of(le32(b, at) as int, 1) == b[at + 1],
        byte_of(le32(b, at) as int, 2) == b[at + 2],
        byte_of(le32(b, at) as int, 3) == b[at + 3],
{
    reveal_with_fuel(byte_of, 4);
    law_short_integers_hold_their_bytes(b, at);
    law_short_integers_hold_their_bytes(b, at + 2);
    let low = le16(b, at) as int;
    let high = le16(b, at + 2) as int;
    let n = le32(b, at) as int;
    assert(n == low + 0x1_0000 * high);
    assert(n / 256 / 256 == high);
    assert(n / 256 % 256 == low / 256);
}

/// A little-endian 64-bit integer is made of two of 32 bits, the lower first.
pub proof fn law_longest_integers_hold_their_halves(b: Seq<u8>, at: int)
    ensures
        le64(b, at) as int % 0x1_0000_0000 == le32(b, at),
        le64(b, at) as int / 0x1_0000_0000 == le32(b, at + 4),
{
}

/// The bytes of an ASCII text.
pub open spec fn ascii_bytes(text: Seq<char>) -> Seq<u8> {
    Seq::new(text.len(), |i: int| text[i] as u8)
}

/// Whether all characters of a text have one byte.
pub open spec fn is_narrow(text: Seq<char>) -> bool {
    forall|i: int| 0 <= i < text.len() ==> (#[trigger] text[i] as u32) < 0x100
}

/// A mark is found where its bytes stand, whatever is before and behind them.
pub proof fn law_marks_are_found(before: Seq<u8>, text: Seq<char>, behind: Seq<u8>)
    requires
        is_narrow(text),
    ensures
        has_text(before + ascii_bytes(text) + behind, before.len() as int, text),
{
    let b = before + ascii_bytes(text) + behind;
    assert forall|i: int| 0 <= i < text.len() implies #[trigger] b[before.len() + i] as char
        == text[i] by {
        lemma_narrow_char(text[i]);
    }
}

proof fn lemma_narrow_char(c: char)
    requires
        (c as u32) < 0x100,
    ensures
        (c as u8) as char == c,
{
}

/// A mark is found only where its bytes stand: they can be taken out of the block as they are.
pub proof fn law_marks_are_there(b: Seq<u8>, at: int, text: Seq<char>)
    requires
        0 <= at,
        is_narrow(text),
        has_text(b, at, text),
    ensures
        at + text.len() <= b.len(),
        b == b.take(at) + ascii_bytes(text) + b.skip(at + text.len()),
{
    assert forall|i: int| 0 <= i < text.len() implies b[at + i] == #[trigger] text[i] as u8 by {
        assert(b[at + i] as char == text[i]);
        lemma_byte_char(b[at + i]);
    }
}

proof fn lemma_byte_char(n: u8)
    ensures
        (n as char) as u8 == n,
{
}

} // verus!
