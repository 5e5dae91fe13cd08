//! Laws of opening a UDF volume, over the bytes of its descriptors.

use crate::bytes::{le16, le32};
use crate::laws::text::{
    law_decimals_have_their_value, law_hexadecimals_have_their_value, value_of,
};
use crate::text::{decimal, hex};
use crate::udf::descriptor::{dstring, Disk};
use crate::udf::open::{
    learned, nothing_known, open_known, open_sequence, open_volume, sequence_count, sequence_sector,
    sequence_start, SequenceModel, UdfError, VolumeModel,
};
use vstd::prelude::*;

verus! {

/// What sector `i` of a run of sectors from `start` on holds; numbers of sectors have 32 bits here.
pub open spec fn nth(disk: Disk, start: u32, i: int) -> Option<Seq<u8>> {
    disk(((start + i) % 0x1_0000_0000) as u64)
}

/// Whether the first `k` sectors of a run can be read and none of them has the tag 8, which ends a
/// sequence.
pub open spec fn goes_on_for(disk: Disk, start: u32, k: int) -> bool {
    forall|i: int|
        0 <= i < k ==> (#[trigger] nth(disk, start, i)) is Some && le16(nth(disk, start, i)->0, 0)
            != 8
}

/// Whether a descriptor sequence has `k` descriptors: as many as the anchor has room for, or as many
/// as stand before one with the tag 8.
pub open spec fn has_descriptors(disk: Disk, anchor: Seq<u8>, k: int) -> bool {
    let start = le32(anchor, 20);
    &&& 0 <= k <= room_for(le32(anchor, 16) as int)
    &&& goes_on_for(disk, start, k)
    &&& k == room_for(le32(anchor, 16) as int) || (nth(disk, start, k) is Some && le16(
        nth(disk, start, k)->0,
        0,
    ) == 8)
}

/// How many sectors a sequence of this many bytes may have: as many as hold the bytes, but no more
/// than 64, and none where the bytes nearly fill 32 bits.
pub open spec fn room_for(length: int) -> int {
    if length > 0xffff_ffff - 2047 {
        0
    } else if length > 63 * 2048 {
        64
    } else if length % 2048 == 0 {
        length / 2048
    } else {
        length / 2048 + 1
    }
}

/// Whether the last of `k` descriptors with this tag is number `p`.
pub open spec fn is_last_with(disk: Disk, start: u32, k: int, tag: int, p: int) -> bool {
    &&& 0 <= p < k
    &&& le16(nth(disk, start, p)->0, 0) == tag
    &&& forall|j: int| p < j < k ==> le16((#[trigger] nth(disk, start, j))->0, 0) != tag
}

/// Whether none of `k` descriptors has this tag.
pub open spec fn has_none_with(disk: Disk, start: u32, k: int, tag: int) -> bool {
    forall|j: int| 0 <= j < k ==> le16((#[trigger] nth(disk, start, j))->0, 0) != tag
}

/// A volume whose anchor, in sector 256, leads to a partition descriptor and a logical volume
/// descriptor is opened where the sector of its file set can be read and has the tag 0x100. The last
/// descriptor of each kind counts: that of the partition says where the partition begins, and that
/// of the logical volume how large a block is, what the volume is called, and where in the
/// partition the file set is.
pub proof fn law_volumes_are_opened(disk: Disk, anchor: Seq<u8>, k: int, p: int, l: int)
    requires
        disk(256) == Some(anchor),
        le16(anchor, 0) == 2,
        has_descriptors(disk, anchor, k),
        is_last_with(disk, le32(anchor, 20), k, 5, p),
        is_last_with(disk, le32(anchor, 20), k, 6, l),
    ensures
        ({
            let partition = nth(disk, le32(anchor, 20), p)->0;
            let volume = nth(disk, le32(anchor, 20), l)->0;
            let n = (le32(partition, 188) + le32(volume, 252)) as u64;
            let result = open_volume(disk).result;
            match disk(n) {
                None => result == Err::<VolumeModel, UdfError>(UdfError::Unreadable { sector: n }),
                Some(set) => if le16(set, 0) == 0x100 {
                    &&& result is Ok
                    &&& result->Ok_0.partition_start == le32(partition, 188)
                    &&& result->Ok_0.block_size == le32(volume, 212)
                    &&& result->Ok_0.volume_id == dstring(volume.subrange(84, 212))
                } else {
                    result == Err::<VolumeModel, UdfError>(
                        UdfError::NoFileSet { sector: n, tag: le16(set, 0) },
                    )
                },
            }
        }),
{
    let start = le32(anchor, 20);
    lemma_room(anchor);
    lemma_run_opens(disk, start, sequence_count(anchor), k, 0, nothing_known());
    lemma_last_partition(disk, start, k, 0, nothing_known(), p);
    lemma_last_volume(disk, start, k, 0, nothing_known(), l);
}

/// A volume without a partition descriptor is refused for that, and one that has a partition
/// descriptor but no logical volume descriptor for that.
pub proof fn law_both_descriptors_are_needed(disk: Disk, anchor: Seq<u8>, k: int, p: int)
    requires
        disk(256) == Some(anchor),
        le16(anchor, 0) == 2,
        has_descriptors(disk, anchor, k),
    ensures
        has_none_with(disk, le32(anchor, 20), k, 5) ==> open_volume(disk).result == Err::<
            VolumeModel,
            UdfError,
        >(UdfError::NoPartition),
        is_last_with(disk, le32(anchor, 20), k, 5, p) && has_none_with(
            disk,
            le32(anchor, 20),
            k,
            6,
        ) ==> open_volume(disk).result == Err::<VolumeModel, UdfError>(UdfError::NoLogicalVolume),
{
    let start = le32(anchor, 20);
    lemma_room(anchor);
    lemma_run_opens(disk, start, sequence_count(anchor), k, 0, nothing_known());
    if has_none_with(disk, start, k, 5) {
        lemma_no_partition(disk, start, k, 0, nothing_known());
    }
    if is_last_with(disk, start, k, 5, p) && has_none_with(disk, start, k, 6) {
        lemma_last_partition(disk, start, k, 0, nothing_known(), p);
        lemma_no_volume(disk, start, k, 0, nothing_known());
    }
}

/// A volume is refused where sector 256 cannot be read, or has another tag than 2, or where a
/// descriptor of its sequence cannot be read.
pub proof fn law_opening_needs_its_sectors(disk: Disk, k: int)
    ensures
        disk(256) is None ==> open_volume(disk).result == Err::<VolumeModel, UdfError>(
            UdfError::Unreadable { sector: 256 },
        ),
        disk(256) matches Some(anchor) ==> le16(anchor, 0) != 2 ==> open_volume(disk).result
            == Err::<VolumeModel, UdfError>(UdfError::NoAnchor { tag: le16(anchor, 0) }),
        disk(256) matches Some(anchor) ==> {
            let start = le32(anchor, 20);
            le16(anchor, 0) == 2 && 0 <= k < room_for(le32(anchor, 16) as int) && goes_on_for(
                disk,
                start,
                k,
            ) && nth(disk, start, k) is None ==> open_volume(disk).result == Err::<
                VolumeModel,
                UdfError,
            >(UdfError::Unreadable { sector: ((start + k) % 0x1_0000_0000) as u64 })
        },
{
    if let Some(anchor) = disk(256) {
        let start = le32(anchor, 20);
        lemma_room(anchor);
        if 0 <= k < room_for(le32(anchor, 16) as int) && goes_on_for(disk, start, k) && nth(
            disk,
            start,
            k,
        ) is None {
            lemma_run_fails(disk, start, sequence_count(anchor), k, 0, nothing_known());
        }
    }
}

/// Opening reads sector 256 first, and then the descriptors of the sequence one after the other.
pub proof fn law_opening_reads_in_order(disk: Disk, anchor: Seq<u8>, k: int, i: int)
    requires
        disk(256) == Some(anchor),
        le16(anchor, 0) == 2,
        0 <= i < k,
        k <= room_for(le32(anchor, 16) as int),
        goes_on_for(disk, le32(anchor, 20), k),
    ensures
        open_volume(disk).reads.len() > i + 1,
        open_volume(disk).reads[0] == 256,
        open_volume(disk).reads[i + 1] == (le32(anchor, 20) + i) % 0x1_0000_0000,
{
    lemma_room(anchor);
    let start = le32(anchor, 20);
    let rest = open_sequence(disk, start, sequence_count(anchor), 0, nothing_known());
    lemma_run_reads(disk, start, sequence_count(anchor), k, 0, nothing_known(), i);
    assert(open_volume(disk).reads == seq![256u64] + rest.reads);
}

proof fn lemma_room(anchor: Seq<u8>)
    ensures
        sequence_count(anchor) == room_for(le32(anchor, 16) as int),
        sequence_start(anchor) == le32(anchor, 20),
{
}

/// What descriptors `next` to `k` add to what is known.
spec fn learned_run(disk: Disk, start: u32, k: int, next: int, known: SequenceModel) -> SequenceModel
    decreases k - next,
{
    if next >= k {
        known
    } else {
        learned_run(disk, start, k, next + 1, learned(known, nth(disk, start, next)->0))
    }
}

proof fn lemma_run_opens(
    disk: Disk,
    start: u32,
    count: u32,
    k: int,
    next: int,
    known: SequenceModel,
)
    requires
        0 <= next <= k <= count,
        goes_on_for(disk, start, k),
        k == count || (nth(disk, start, k) is Some && le16(nth(disk, start, k)->0, 0) == 8),
    ensures
        open_sequence(disk, start, count, next, known).result == open_known(
            disk,
            learned_run(disk, start, k, next, known),
        ).result,
    decreases k - next,
{
    assert(nth(disk, start, next) == disk(sequence_sector(start, next)));
    if next < k {
        lemma_run_opens(
            disk,
            start,
            count,
            k,
            next + 1,
            learned(known, nth(disk, start, next)->0),
        );
    }
}

proof fn lemma_run_fails(
    disk: Disk,
    start: u32,
    count: u32,
    k: int,
    next: int,
    known: SequenceModel,
)
    requires
        0 <= next <= k < count,
        goes_on_for(disk, start, k),
        nth(disk, start, k) is None,
    ensures
        open_sequence(disk, start, count, next, known).result == Err::<VolumeModel, UdfError>(
            UdfError::Unreadable { sector: ((start + k) % 0x1_0000_0000) as u64 },
        ),
    decreases k - next,
{
    assert(nth(disk, start, next) == disk(sequence_sector(start, next)));
    if next < k {
        lemma_run_fails(
            disk,
            start,
            count,
            k,
            next + 1,
            learned(known, nth(disk, start, next)->0),
        );
    }
}

proof fn lemma_run_reads(
    disk: Disk,
    start: u32,
    count: u32,
    k: int,
    next: int,
    known: SequenceModel,
    i: int,
)
    requires
        0 <= next <= i < k <= count,
        goes_on_for(disk, start, k),
    ensures
        open_sequence(disk, start, count, next, known).reads.len() > i - next,
        open_sequence(disk, start, count, next, known).reads[i - next] == (start + i)
            % 0x1_0000_0000,
    decreases i - next,
{
    assert(nth(disk, start, next) == disk(sequence_sector(start, next)));
    let then = learned(known, nth(disk, start, next)->0);
    let rest = open_sequence(disk, start, count, next + 1, then);
    let n = sequence_sector(start, next);
    assert(open_sequence(disk, start, count, next, known) == rest.behind(n));
    if next < i {
        lemma_run_reads(disk, start, count, k, next + 1, then, i);
        assert((seq![n] + rest.reads)[i - next] == rest.reads[i - next - 1]);
    }
}

proof fn lemma_no_partition(disk: Disk, start: u32, k: int, next: int, known: SequenceModel)
    requires
        0 <= next,
        forall|j: int| next <= j < k ==> le16((#[trigger] nth(disk, start, j))->0, 0) != 5,
    ensures
        learned_run(disk, start, k, next, known).partition_start == known.partition_start,
    decreases k - next,
{
    if next < k {
        let sector = nth(disk, start, next)->0;
        lemma_no_partition(disk, start, k, next + 1, learned(known, sector));
    }
}

proof fn lemma_no_volume(disk: Disk, start: u32, k: int, next: int, known: SequenceModel)
    requires
        0 <= next,
        forall|j: int| next <= j < k ==> le16((#[trigger] nth(disk, start, j))->0, 0) != 6,
    ensures
        learned_run(disk, start, k, next, known).fsd_location == known.fsd_location,
        learned_run(disk, start, k, next, known).block_size == known.block_size,
        learned_run(disk, start, k, next, known).volume_id == known.volume_id,
    decreases k - next,
{
    if next < k {
        let sector = nth(disk, start, next)->0;
        lemma_no_volume(disk, start, k, next + 1, learned(known, sector));
    }
}

proof fn lemma_last_partition(
    disk: Disk,
    start: u32,
    k: int,
    next: int,
    known: SequenceModel,
    p: int,
)
    requires
        0 <= next <= p,
        is_last_with(disk, start, k, 5, p),
    ensures
        learned_run(disk, start, k, next, known).partition_start == Some(
            le32(nth(disk, start, p)->0, 188),
        ),
    decreases k - next,
{
    let then = learned(known, nth(disk, start, next)->0);
    if next < p {
        lemma_last_partition(disk, start, k, next + 1, then, p);
    } else {
        lemma_no_partition(disk, start, k, next + 1, then);
    }
}

proof fn lemma_last_volume(
    disk: Disk,
    start: u32,
    k: int,
    next: int,
    known: SequenceModel,
    l: int,
)
    requires
        0 <= next <= l,
        is_last_with(disk, start, k, 6, l),
    ensures
        ({
            let volume = nth(disk, start, l)->0;
            let all = learned_run(disk, start, k, next, known);
            &&& all.fsd_location == Some(le32(volume, 252))
            &&& all.block_size == le32(volume, 212)
            &&& all.volume_id == dstring(volume.subrange(84, 212))
        }),
    decreases k - next,
{
    let then = learned(known, nth(disk, start, next)->0);
    if next < l {
        lemma_last_volume(disk, start, k, next + 1, then, l);
    } else {
        lemma_no_volume(disk, start, k, next + 1, then);
    }
}

// ---------------------------------------------------------------------------------------------
// Messages
// ---------------------------------------------------------------------------------------------

/// A message says what is wrong and gives the numbers that go with it: a sector in decimal, and a tag
/// in hexadecimal.
pub proof fn law_messages_give_the_numbers(sector: u64, tag: u16)
    ensures
        ({
            let s = UdfError::Unreadable { sector }.text();
            &&& s.take(24) == "UDF: cannot read sector "@
            &&& value_of(s.skip(24), 10) == sector
        }),
        ({
            let s = UdfError::NoAnchor { tag }.text();
            &&& s.take(47) == "No Anchor Volume Descriptor at sector 256 (tag="@
            &&& s.subrange(47, 49) == seq!['0', 'x']
            &&& value_of(s.subrange(49, s.len() - 1), 16) == tag
            &&& s.last() == ')'
        }),
        UdfError::NoPartition.text() == "UDF: no Partition Descriptor found"@,
        UdfError::NoLogicalVolume.text() == "UDF: no Logical Volume Descriptor found"@,
        ({
            let s = UdfError::NoFileSet { sector, tag }.text();
            let n = decimal(sector as nat).len() as int;
            &&& s.take(39) == "Expected File Set Descriptor at sector "@
            &&& value_of(s.subrange(39, 39 + n), 10) == sector
            &&& s.subrange(39 + n, 49 + n) == ", got tag "@
            &&& s.subrange(49 + n, 51 + n) == seq!['0', 'x']
            &&& value_of(s.skip(51 + n), 16) == tag
        }),
{
    reveal_strlit("UDF: cannot read sector ");
    reveal_strlit("No Anchor Volume Descriptor at sector 256 (tag=");
    reveal_strlit(")");
    reveal_strlit("Expected File Set Descriptor at sector ");
    reveal_strlit(", got tag ");
    let number = decimal(sector as nat);
    let code = hex(tag as nat);
    let n = number.len() as int;
    law_decimals_have_their_value(sector as nat);
    law_hexadecimals_have_their_value(tag as nat);
    let first = UdfError::Unreadable { sector }.text();
    assert(first.take(24) == "UDF: cannot read sector "@);
    assert(first.skip(24) == number);
    let second = UdfError::NoAnchor { tag }.text();
    assert(second.take(47) == "No Anchor Volume Descriptor at sector 256 (tag="@);
    assert(second.subrange(47, 49) == seq!['0', 'x']);
    assert(second.subrange(49, second.len() - 1) == code.skip(2));
    let third = UdfError::NoFileSet { sector, tag }.text();
    assert(third.take(39) == "Expected File Set Descriptor at sector "@);
    assert(third.subrange(39, 39 + n) == number);
    assert(third.subrange(39 + n, 49 + n) == ", got tag "@);
    assert(third.subrange(49 + n, 51 + n) == seq!['0', 'x']);
    assert(third.skip(51 + n) == code.skip(2));
}

} // verus!
