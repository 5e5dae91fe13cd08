//! Fixed-width integers and short ASCII marks inside a block of bytes.

use vstd::prelude::*;

verus! {

/// The little-endian 16-bit integer at `at`.
pub open spec fn le16(b: Seq<u8>, at: int) -> u16 {
    (b[at] + 0x100 * b[at + 1]) as u16
}

/// The little-endian 32-bit integer at `at`.
pub open spec fn le32(b: Seq<u8>, at: int) -> u32 {
    (le16(b, at) + 0x1_0000 * le16(b, at + 2)) as u32
}

/// The little-endian 64-bit integer at `at`.
pub open spec fn le64(b: Seq<u8>, at: int) -> u64 {
    (le32(b, at) + 0x1_0000_0000 * le32(b, at + 4)) as u64
}

/// The big-endian 16-bit integer at `at`.
pub open spec fn be16(b: Seq<u8>, at: int) -> u16 {
    (0x100 * b[at] + b[at + 1]) as u16
}

/// Whether the bytes from `at` on spell `text`, one byte for each character.
pub open spec fn has_text(b: Seq<u8>, at: int, text: Seq<char>) -> bool {
    &&& at + text.len() <= b.len()
    &&& forall|i: int| 0 <= i < text.len() ==> #[trigger] b[at + i] as char == text[i]
}

/// Reads a little-endian `u16`.
pub fn ru16(b: &[u8], off: usize) -> (r: u16)
    requires
        off + 2 <= b.len(),
    ensures
        r == le16(b@, off as int),
{
    b[off] as u16 + 0x100 * (b[off + 1] as u16)
}

/// Reads a little-endian `u32`.
pub fn ru32(b: &[u8], off: usize) -> (r: u32)
    requires
        off + 4 <= b.len(),
    ensures
        r == le32(b@, off as int),
{
    ru16(b, off) as u32 + 0x1_0000 * (ru16(b, off + 2) as u32)
}

/// Reads a little-endian `u64`.
pub fn ru64(b: &[u8], off: usize) -> (r: u64)
    requires
        off + 8 <= b.len(),
    ensures
        r == le64(b@, off as int),
{
    ru32(b, off) as u64 + 0x1_0000_0000 * (ru32(b, off + 4) as u64)
}

/// Whether `text` stands at offset `at` of `b`, one byte for each character.
pub fn bytes_have_text(b: &[u8], at: usize, text: &str) -> (r: bool)
    ensures
        r == has_text(b@, at as int, text@),
{
    if at > b.len() {
        return false;
    }
    let mut pos: usize = at;
    for c in it: text.chars()
        invariant
            at <= pos <= b@.len(),
            pos - at == it.index(),
            it.seq() == text@,
            forall|i: int| 0 <= i < it.index() ==> #[trigger] b@[at + i] as char == text@[i],
    {
        if pos >= b.len() {
            return false;
        }
        if b[pos] as char != c {
            assert(b@[at + it.index()] as char != text@[it.index() as int]);
            return false;
        }
        pos = pos + 1;
    }
    true
}

} // verus!
