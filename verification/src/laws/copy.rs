//! Laws of copying the contents of a file.

use crate::udf::copy::{
    copied, copy_start, is_copy_run, law_copy_is_whole, may_follow, next_chunk, CopyModel,
};
use vstd::prelude::*;

verus! {

/// A copy of a file that is read to its end has as many bytes as the file is large, or as many of
/// them as the image holds from the offset of the contents on.
pub proof fn law_files_are_copied_whole(
    size: u64,
    data_offset: u64,
    copies: Seq<CopyModel>,
    image_size: nat,
)
    requires
        data_offset != 0,
        copies.len() > 0,
        copies[0] == copy_start(size, data_offset),
        is_copy_run(copies, image_size),
        copies.last().remaining == 0,
    ensures
        copies.last().written == if size <= image_size - data_offset {
            size as int
        } else if data_offset <= image_size {
            image_size - data_offset
        } else {
            0
        },
{
    law_copy_is_whole(copies, image_size);
}

/// At any point of a copy what has been copied and what is still to be copied come to the size of
/// the file, and the contents are read from their offset on, until a read gives nothing.
pub proof fn law_copies_account_for_the_file(
    size: u64,
    data_offset: u64,
    copies: Seq<CopyModel>,
    image_size: nat,
)
    requires
        data_offset != 0,
        copies.len() > 0,
        copies[0] == copy_start(size, data_offset),
        is_copy_run(copies, image_size),
    ensures
        copies.last().offset == data_offset,
        copies.last().remaining > 0 ==> copies.last().written + copies.last().remaining == size,
    decreases copies.len(),
{
    if copies.len() > 1 {
        law_copies_account_for_the_file(size, data_offset, copies.drop_last(), image_size);
        assert(may_follow(copies[copies.len() - 2], copies[copies.len() - 1], image_size));
    }
}

/// A copy that is not over reads something next, no more than is left and no more than 64 KiB, and
/// all of the one or of the other.
pub proof fn law_chunks_are_as_large_as_can_be(copy: CopyModel)
    ensures
        next_chunk(copy) <= copy.remaining,
        next_chunk(copy) <= 65536,
        next_chunk(copy) == copy.remaining || next_chunk(copy) == 65536,
{
}

/// A read counts for the bytes that it gives, and two reads for the bytes of both; one that gives
/// nothing ends the copy and counts for nothing.
pub proof fn law_reads_add_up(copy: CopyModel, n: nat, m: nat)
    requires
        0 < n,
        0 < m,
        n + m <= copy.remaining,
    ensures
        copied(copied(copy, n), m) == copied(copy, n + m),
        copied(copy, n).written == copy.written + n,
        copied(copy, n).remaining + n == copy.remaining,
        copied(copy, n).offset == copy.offset,
        copied(copy, 0).remaining == 0,
        copied(copy, 0).written == copy.written,
{
}

/// A file whose contents have no place, or that is empty, has nothing to copy.
pub proof fn law_nothing_is_copied_from_nowhere(size: u64, data_offset: u64)
    ensures
        copy_start(size, data_offset).written == 0,
        copy_start(size, data_offset).remaining == 0 <==> size == 0 || data_offset == 0,
{
}

} // verus!
