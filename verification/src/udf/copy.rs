//! Copying the contents of a file out of a UDF volume.
//!
//! The contents lie in one run from the data offset of the file on. [`FileCopy`] tells how much to
//! read next and keeps count of what was read; whoever holds the image reads and writes.

use super::open::UdfReader;
use super::tree::UdfEntry;
use vstd::prelude::*;

verus! {

/// The most bytes that are read at once.
pub const CHUNK_SIZE: usize = 65536;

/// How far a copy has come.
pub struct CopyModel {
    /// Where in the image the contents begin.
    pub offset: u64,
    /// How many bytes are still to be copied.
    pub remaining: nat,
    /// How many bytes have been copied.
    pub written: nat,
}

/// The most bytes that are to be read next.
pub open spec fn next_chunk(copy: CopyModel) -> nat {
    if copy.remaining < CHUNK_SIZE {
        copy.remaining
    } else {
        CHUNK_SIZE as nat
    }
}

/// A copy once a read has given `n` bytes; one that gives none ends the copy.
pub open spec fn copied(copy: CopyModel, n: nat) -> CopyModel {
    CopyModel {
        offset: copy.offset,
        remaining: if n == 0 {
            0
        } else {
            (copy.remaining - n) as nat
        },
        written: copy.written + n,
    }
}

/// How many bytes of a file are copied: none where its contents have no place or it is empty.
pub open spec fn copy_length(size: u64, data_offset: u64) -> nat {
    if data_offset == 0 {
        0
    } else {
        size as nat
    }
}

/// How the copy of a file of this size begins whose contents lie at this offset.
pub open spec fn copy_start(size: u64, data_offset: u64) -> CopyModel {
    CopyModel { offset: data_offset, remaining: copy_length(size, data_offset), written: 0 }
}

/// A copy in progress.
pub struct FileCopy {
    offset: u64,
    remaining: u64,
    written: u64,
}

impl View for FileCopy {
    type V = CopyModel;

    closed spec fn view(&self) -> CopyModel {
        CopyModel {
            offset: self.offset,
            remaining: self.remaining as nat,
            written: self.written as nat,
        }
    }
}

impl UdfReader {
    /// Begins to copy the contents of a file.
    pub fn read_file_to(&self, entry: &UdfEntry) -> (copy: FileCopy)
        ensures
            copy@ == copy_start(entry.size, entry.data_offset),
    {
        let remaining: u64 = if entry.data_offset == 0 {
            0
        } else {
            entry.size
        };
        FileCopy { offset: entry.data_offset, remaining, written: 0 }
    }
}

impl FileCopy {
    #[verifier::type_invariant]
    spec fn counts_fit(self) -> bool {
        self.remaining + self.written <= u64::MAX
    }

    /// Where in the image the contents begin.
    pub fn offset(&self) -> (r: u64)
        ensures
            r == self@.offset,
    {
        self.offset
    }

    /// Whether nothing is left to copy.
    pub fn is_over(&self) -> (r: bool)
        ensures
            r == (self@.remaining == 0),
    {
        self.remaining == 0
    }

    /// The most bytes to read next.
    pub fn next_len(&self) -> (r: usize)
        ensures
            r == next_chunk(self@),
    {
        if self.remaining < CHUNK_SIZE as u64 {
            self.remaining as usize
        } else {
            CHUNK_SIZE
        }
    }

    /// Records that a read gave `n` bytes.
    pub fn advance(&mut self, n: usize)
        requires
            n <= next_chunk(old(self)@),
        ensures
            final(self)@ == copied(old(self)@, n as nat),
    {
        proof {
            use_type_invariant(&*self);
        }
        let remaining: u64 = if n == 0 {
            0
        } else {
            self.remaining - n as u64
        };
        *self = FileCopy { offset: self.offset, remaining, written: self.written + n as u64 };
    }

    /// How many bytes have been copied.
    pub fn written(&self) -> (r: u64)
        ensures
            r == self@.written,
    {
        self.written
    }
}

// ---------------------------------------------------------------------------------------------
// Laws
// ---------------------------------------------------------------------------------------------

/// Whether a read of `n` bytes of an image of `image_size` bytes leads from `before` to `now`: it
/// gives some of the bytes that come next, and none only behind the end of the image.
pub open spec fn is_copy_step(
    before: CopyModel,
    now: CopyModel,
    n: nat,
    image_size: nat,
) -> bool {
    let left = image_size - (before.offset + before.written);
    &&& before.remaining > 0
    &&& now == copied(before, n)
    &&& n <= next_chunk(before)
    &&& if n == 0 {
        left <= 0
    } else {
        n <= left
    }
}

/// Whether some read of an image of `image_size` bytes leads from `before` to `now`.
pub open spec fn may_follow(before: CopyModel, now: CopyModel, image_size: nat) -> bool {
    exists|n: nat| is_copy_step(before, now, n, image_size)
}

/// Whether `copies` come about one after the other.
pub open spec fn is_copy_run(copies: Seq<CopyModel>, image_size: nat) -> bool {
    forall|i: int, j: int|
        0 <= i && j == i + 1 && j < copies.len() ==> may_follow(
            #[trigger] copies[i],
            #[trigger] copies[j],
            image_size,
        )
}

/// A copy that is over has copied the whole file, or as much of it as the image holds, and a copy
/// at any point has copied no more.
pub proof fn law_copy_is_whole(copies: Seq<CopyModel>, image_size: nat)
    requires
        copies.len() > 0,
        copies[0].written == 0,
        is_copy_run(copies, image_size),
    ensures
        ({
            let size = copies[0].remaining;
            let left = image_size - copies[0].offset;
            let whole = if size <= left {
                size as int
            } else if left >= 0 {
                left
            } else {
                0
            };
            &&& copies.last().written <= whole
            &&& copies.last().remaining == 0 ==> copies.last().written == whole
        }),
{
    lemma_copy_run_at(copies, image_size, copies.len() - 1);
}

proof fn lemma_copy_run_at(copies: Seq<CopyModel>, image_size: nat, i: int)
    requires
        0 <= i < copies.len(),
        copies[0].written == 0,
        is_copy_run(copies, image_size),
    ensures
        copies[i].offset == copies[0].offset,
        copies[i].written > 0 ==> copies[i].offset + copies[i].written <= image_size,
        copies[i].remaining > 0 ==> copies[i].written + copies[i].remaining == copies[0].remaining,
        copies[i].remaining == 0 ==> copies[i].written == copies[0].remaining || (copies[i].written
            <= copies[0].remaining && copies[i].offset + copies[i].written >= image_size),
    decreases i,
{
    if i > 0 {
        lemma_copy_run_at(copies, image_size, i - 1);
        assert(may_follow(copies[i - 1], copies[i], image_size));
    }
}

/// Each read brings the end of a copy nearer, so that a copy is over after at most as many reads
/// as there are bytes to copy.
pub proof fn law_copy_ends(copies: Seq<CopyModel>, image_size: nat)
    requires
        copies.len() > 0,
        is_copy_run(copies, image_size),
    ensures
        copies.last().remaining + (copies.len() - 1) <= copies[0].remaining,
    decreases copies.len(),
{
    if copies.len() > 1 {
        law_copy_ends(copies.drop_last(), image_size);
        assert(may_follow(copies[copies.len() - 2], copies[copies.len() - 1], image_size));
    }
}

} // verus!
