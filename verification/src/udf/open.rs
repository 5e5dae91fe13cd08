//! Opening a UDF volume.
//!
//! Opening reads a sector, looks at it, and decides which sector to read next. [`UdfOpening`] makes
//! the decisions; whoever holds the image does the reading and hands over what came of it.

use super::descriptor::{
    block_view, dstring, read_dstring, tag, Disk, ANCHOR_SECTOR, MAX_SEQUENCE, TAG_ANCHOR,
    TAG_FILE_SET, TAG_LOGICAL_VOLUME, TAG_PARTITION, TAG_TERMINATING,
};
use crate::bytes::{le32, ru16, ru32};
use crate::text::{decimal, hex, push_decimal, push_hex};
use vstd::prelude::*;
use vstd::slice::slice_subrange;

verus! {

/// Why a volume cannot be opened or listed.
#[derive(Debug, Clone, Copy, PartialEq, Eq, Structural)]
pub enum UdfError {
    /// A sector that is needed cannot be read.
    Unreadable { sector: u64 },
    /// The anchor sector holds something else, with this tag.
    NoAnchor { tag: u16 },
    /// The volume descriptor sequence has no partition descriptor.
    NoPartition,
    /// The volume descriptor sequence has no logical volume descriptor.
    NoLogicalVolume,
    /// The sector where the file set descriptor belongs holds something else, with this tag.
    NoFileSet { sector: u64, tag: u16 },
}

impl UdfError {
    /// The error in words.
    pub open spec fn text(self) -> Seq<char> {
        match self {
            UdfError::Unreadable { sector } => "UDF: cannot read sector "@ + decimal(sector as nat),
            UdfError::NoAnchor { tag } => "No Anchor Volume Descriptor at sector 256 (tag="@ + hex(
                tag as nat,
            ) + ")"@,
            UdfError::NoPartition => "UDF: no Partition Descriptor found"@,
            UdfError::NoLogicalVolume => "UDF: no Logical Volume Descriptor found"@,
            UdfError::NoFileSet { sector, tag } => "Expected File Set Descriptor at sector "@
                + decimal(sector as nat) + ", got tag "@ + hex(tag as nat),
        }
    }

    /// Puts the error in words.
    pub fn message(&self) -> (r: String)
        ensures
            r@ == self.text(),
    {
        match self {
            UdfError::Unreadable { sector } => {
                let mut out: String = String::from_str("UDF: cannot read sector ");
                push_decimal(&mut out, *sector);
                out
            },
            UdfError::NoAnchor { tag } => {
                let mut out: String = String::from_str(
                    "No Anchor Volume Descriptor at sector 256 (tag=",
                );
                push_hex(&mut out, *tag as u64);
                out.append(")");
                out
            },
            UdfError::NoPartition => String::from_str("UDF: no Partition Descriptor found"),
            UdfError::NoLogicalVolume => String::from_str("UDF: no Logical Volume Descriptor found"),
            UdfError::NoFileSet { sector, tag } => {
                let mut out: String = String::from_str("Expected File Set Descriptor at sector ");
                push_decimal(&mut out, *sector);
                out.append(", got tag ");
                push_hex(&mut out, *tag as u64);
                out
            },
        }
    }
}

// ---------------------------------------------------------------------------------------------
// What opening comes to
// ---------------------------------------------------------------------------------------------

/// What is known of an opened volume.
#[verifier::ext_equal]
pub struct VolumeModel {
    /// The sector where the partition begins.
    pub partition_start: u32,
    pub block_size: u32,
    pub volume_id: Seq<char>,
}

/// How opening ends, and the sectors that it reads on the way, in order.
#[verifier::ext_equal]
pub struct OpenOutcome {
    pub result: Result<VolumeModel, UdfError>,
    pub reads: Seq<u64>,
}

impl OpenOutcome {
    /// The outcome of reading `sector` first and going on as `self` does.
    pub open spec fn behind(self, sector: u64) -> OpenOutcome {
        OpenOutcome { result: self.result, reads: seq![sector] + self.reads }
    }

    /// The outcome of ending at once, with nothing more to read.
    pub open spec fn at_once(result: Result<VolumeModel, UdfError>) -> OpenOutcome {
        OpenOutcome { result, reads: seq![] }
    }

    /// The outcome of ending because `sector` cannot be read.
    pub open spec fn unreadable(sector: u64) -> OpenOutcome {
        OpenOutcome { result: Err(UdfError::Unreadable { sector }), reads: seq![sector] }
    }
}

/// What the volume descriptor sequence has told so far.
#[verifier::ext_equal]
pub struct SequenceModel {
    pub partition_start: Option<u32>,
    pub block_size: u32,
    pub fsd_location: Option<u32>,
    pub volume_id: Seq<char>,
}

/// The sector where the main volume descriptor sequence begins, as the anchor gives it.
pub open spec fn sequence_start(anchor: Seq<u8>) -> u32 {
    le32(anchor, 20)
}

/// How many sectors of the main volume descriptor sequence are looked at: as many as its length
/// in bytes takes up, the sum being a 32-bit one, and no more than 64.
pub open spec fn sequence_count(anchor: Seq<u8>) -> u32 {
    let sectors = (le32(anchor, 16) + 2047) % 0x1_0000_0000 / 2048;
    if sectors < MAX_SEQUENCE {
        sectors as u32
    } else {
        MAX_SEQUENCE
    }
}

/// The sector of the `i`-th descriptor of a sequence that begins at `start`. Sector numbers here
/// have 32 bits and start over behind the last.
pub open spec fn sequence_sector(start: u32, i: int) -> u64 {
    ((start + i) % 0x1_0000_0000) as u64
}

/// What is known once nothing of the sequence has been read.
pub open spec fn nothing_known() -> SequenceModel {
    SequenceModel {
        partition_start: None,
        block_size: 2048,
        fsd_location: None,
        volume_id: seq![],
    }
}

/// What is known once one more descriptor has been read. A later descriptor of a kind replaces an
/// earlier one.
pub open spec fn learned(known: SequenceModel, sector: Seq<u8>) -> SequenceModel {
    if tag(sector) == TAG_PARTITION {
        SequenceModel { partition_start: Some(le32(sector, 188)), ..known }
    } else if tag(sector) == TAG_LOGICAL_VOLUME {
        SequenceModel {
            block_size: le32(sector, 212),
            fsd_location: Some(le32(sector, 252)),
            volume_id: dstring(sector.subrange(84, 212)),
            ..known
        }
    } else {
        known
    }
}

/// Opening a volume from its anchor on.
pub open spec fn open_volume(disk: Disk) -> OpenOutcome {
    match disk(ANCHOR_SECTOR) {
        None => OpenOutcome::unreadable(ANCHOR_SECTOR),
        Some(anchor) => if tag(anchor) != TAG_ANCHOR {
            OpenOutcome::at_once(Err(UdfError::NoAnchor { tag: tag(anchor) })).behind(ANCHOR_SECTOR)
        } else {
            open_sequence(
                disk,
                sequence_start(anchor),
                sequence_count(anchor),
                0,
                nothing_known(),
            ).behind(ANCHOR_SECTOR)
        },
    }
}

/// Opening a volume from descriptor `next` of its descriptor sequence on: the sequence is read up
/// to a terminating descriptor, or to its end.
pub open spec fn open_sequence(
    disk: Disk,
    start: u32,
    count: u32,
    next: int,
    known: SequenceModel,
) -> OpenOutcome
    decreases count - next,
{
    if next >= count {
        open_known(disk, known)
    } else {
        let n = sequence_sector(start, next);
        match disk(n) {
            None => OpenOutcome::unreadable(n),
            Some(sector) => if tag(sector) == TAG_TERMINATING {
                open_known(disk, known).behind(n)
            } else {
                open_sequence(disk, start, count, next + 1, learned(known, sector)).behind(n)
            },
        }
    }
}

/// Opening a volume whose descriptor sequence told `known`.
pub open spec fn open_known(disk: Disk, known: SequenceModel) -> OpenOutcome {
    match known.partition_start {
        None => OpenOutcome::at_once(Err(UdfError::NoPartition)),
        Some(partition_start) => match known.fsd_location {
            None => OpenOutcome::at_once(Err(UdfError::NoLogicalVolume)),
            Some(fsd_location) => open_file_set(
                disk,
                VolumeModel {
                    partition_start,
                    block_size: known.block_size,
                    volume_id: known.volume_id,
                },
                (partition_start + fsd_location) as u64,
            ),
        },
    }
}

/// Opening a volume whose file set descriptor is due in sector `n`.
pub open spec fn open_file_set(disk: Disk, volume: VolumeModel, n: u64) -> OpenOutcome {
    match disk(n) {
        None => OpenOutcome::unreadable(n),
        Some(sector) => if tag(sector) != TAG_FILE_SET {
            OpenOutcome::at_once(
                Err(UdfError::NoFileSet { sector: n, tag: tag(sector) }),
            ).behind(n)
        } else {
            OpenOutcome::at_once(Ok(volume)).behind(n)
        },
    }
}

// ---------------------------------------------------------------------------------------------
// Opening, one sector at a time
// ---------------------------------------------------------------------------------------------

/// Reads where the main volume descriptor sequence begins and how many of its sectors to look at.
pub(crate) fn sequence_extent(anchor: &[u8]) -> (r: (u32, u32))
    requires
        anchor.len() == 2048,
    ensures
        r.0 == sequence_start(anchor@),
        r.1 == sequence_count(anchor@),
        r.1 <= MAX_SEQUENCE,
{
    let sectors: u32 = ru32(anchor, 16).wrapping_add(2047) / 2048;
    let count: u32 = if sectors < MAX_SEQUENCE {
        sectors
    } else {
        MAX_SEQUENCE
    };
    (ru32(anchor, 20), count)
}

/// The sector of descriptor `next` of a sequence that begins at `start`.
pub(crate) fn sector_in_sequence(start: u32, next: u32) -> (r: u64)
    ensures
        r == sequence_sector(start, next as int),
{
    start.wrapping_add(next) as u64
}

/// An opened UDF volume.
pub struct UdfReader {
    partition_start: u32,
    block_size: u32,
    pub volume_id: String,
}

impl View for UdfReader {
    type V = VolumeModel;

    closed spec fn view(&self) -> VolumeModel {
        VolumeModel {
            partition_start: self.partition_start,
            block_size: self.block_size,
            volume_id: self.volume_id@,
        }
    }
}

/// What the volume descriptor sequence has told so far.
struct Sequence {
    partition_start: Option<u32>,
    block_size: u32,
    fsd_location: Option<u32>,
    volume_id: String,
}

impl View for Sequence {
    type V = SequenceModel;

    closed spec fn view(&self) -> SequenceModel {
        SequenceModel {
            partition_start: self.partition_start,
            block_size: self.block_size,
            fsd_location: self.fsd_location,
            volume_id: self.volume_id@,
        }
    }
}

enum OpenPhase {
    Anchor,
    Sequence { start: u32, count: u32, next: u32, known: Sequence },
    FileSet { volume: UdfReader, sector: u64 },
}

/// A volume that is being opened and waits for a sector.
pub struct UdfOpening {
    phase: OpenPhase,
}

/// What comes of handing a sector to a volume that is being opened.
pub enum OpenStep {
    /// Another sector is needed.
    Read(UdfOpening),
    /// The volume is open.
    Opened(UdfReader),
    /// The volume cannot be opened.
    Refused(UdfError),
}

impl OpenStep {
    /// How opening ends from here on, where each sector reads as `disk` has it.
    pub open spec fn outcome(self, disk: Disk) -> OpenOutcome {
        match self {
            OpenStep::Read(opening) => opening.outcome(disk),
            OpenStep::Opened(volume) => OpenOutcome::at_once(Ok(volume@)),
            OpenStep::Refused(error) => OpenOutcome::at_once(Err(error)),
        }
    }

    /// Whether a next sector to read, if any, is one that was meant to be read.
    pub open spec fn wf(self) -> bool {
        self matches OpenStep::Read(opening) ==> opening.wf()
    }
}

impl UdfReader {
    /// Begins to open a volume.
    pub fn new() -> (opening: UdfOpening)
        ensures
            opening.wf(),
            opening.wanted() == ANCHOR_SECTOR,
            forall|disk: Disk| #[trigger] opening.outcome(disk) == open_volume(disk),
    {
        UdfOpening { phase: OpenPhase::Anchor }
    }

    /// The sector where the partition begins.
    pub fn partition_start(&self) -> (r: u32)
        ensures
            r == self@.partition_start,
    {
        self.partition_start
    }

    /// The size of a logical block that the volume states.
    pub fn block_size(&self) -> (r: u32)
        ensures
            r == self@.block_size,
    {
        self.block_size
    }
}

impl Sequence {
    /// Takes in one more descriptor.
    fn learn(&mut self, sector: &[u8])
        requires
            sector.len() == 2048,
        ensures
            final(self)@ == learned(old(self)@, sector@),
    {
        let kind: u16 = ru16(sector, 0);
        if kind == TAG_PARTITION {
            self.partition_start = Some(ru32(sector, 188));
        } else if kind == TAG_LOGICAL_VOLUME {
            self.block_size = ru32(sector, 212);
            self.fsd_location = Some(ru32(sector, 252));
            self.volume_id = read_dstring(slice_subrange(sector, 84, 212));
        }
    }

    /// Goes on behind the end of the sequence.
    fn finish(self) -> (step: OpenStep)
        ensures
            step.wf(),
            forall|disk: Disk| #[trigger] step.outcome(disk) == open_known(disk, self@),
    {
        match self.partition_start {
            None => OpenStep::Refused(UdfError::NoPartition),
            Some(partition_start) => match self.fsd_location {
                None => OpenStep::Refused(UdfError::NoLogicalVolume),
                Some(fsd_location) => {
                    let volume = UdfReader {
                        partition_start,
                        block_size: self.block_size,
                        volume_id: self.volume_id,
                    };
                    let sector: u64 = partition_start as u64 + fsd_location as u64;
                    OpenStep::Read(UdfOpening { phase: OpenPhase::FileSet { volume, sector } })
                },
            },
        }
    }
}

impl UdfOpening {
    /// How opening ends from here on, where each sector reads as `disk` has it.
    pub closed spec fn outcome(self, disk: Disk) -> OpenOutcome {
        match self.phase {
            OpenPhase::Anchor => open_volume(disk),
            OpenPhase::Sequence { start, count, next, known } => open_sequence(
                disk,
                start,
                count,
                next as int,
                known@,
            ),
            OpenPhase::FileSet { volume, sector } => open_file_set(disk, volume@, sector),
        }
    }

    /// Whether there is a sector to wait for.
    #[verifier::type_invariant]
    pub closed spec fn wf(self) -> bool {
        self.phase matches OpenPhase::Sequence { count, next, .. } ==> next < count <= MAX_SEQUENCE
    }

    /// The sector that is waited for.
    pub closed spec fn wanted(self) -> u64 {
        match self.phase {
            OpenPhase::Anchor => ANCHOR_SECTOR,
            OpenPhase::Sequence { start, next, .. } => sequence_sector(start, next as int),
            OpenPhase::FileSet { sector, .. } => sector,
        }
    }

    /// Tells which sector to read next.
    pub fn sector(&self) -> (r: u64)
        ensures
            r == self.wanted(),
            forall|disk: Disk|
                (#[trigger] self.outcome(disk)).reads.len() > 0 && self.outcome(disk).reads[0] == r,
    {
        proof {
            use_type_invariant(self);
        }
        match &self.phase {
            OpenPhase::Anchor => ANCHOR_SECTOR,
            OpenPhase::Sequence { start, next, .. } => sector_in_sequence(*start, *next),
            OpenPhase::FileSet { sector, .. } => *sector,
        }
    }

    /// Whether `step` is what opening comes to when the sector it waits for reads as `answer`:
    /// on any disc where that is so, the sector is the next to be read and all that follows is as
    /// it was bound to be.
    pub open spec fn goes_on(self, answer: Option<Seq<u8>>, step: OpenStep) -> bool {
        forall|disk: Disk|
            disk(self.wanted()) == answer ==> #[trigger] self.outcome(disk) == step.outcome(
                disk,
            ).behind(self.wanted())
    }

    /// Takes the sector that was waited for, or none where it cannot be read, and goes on.
    pub fn supply(self, block: Option<Vec<u8>>) -> (step: OpenStep)
        requires
            block matches Some(bytes) ==> bytes.len() == 2048,
        ensures
            step.wf(),
            self.goes_on(block_view(block), step),
    {
        proof {
            use_type_invariant(&self);
        }
        let ghost before = self;
        let wanted: u64 = self.sector();
        let sector: Vec<u8> = match block {
            Some(bytes) => bytes,
            None => {
                return OpenStep::Refused(UdfError::Unreadable { sector: wanted });
            },
        };
        let kind: u16 = ru16(&sector, 0);
        match self.phase {
            OpenPhase::Anchor => {
                if kind != TAG_ANCHOR {
                    return OpenStep::Refused(UdfError::NoAnchor { tag: kind });
                }
                let (start, count) = sequence_extent(&sector);
                let known = Sequence {
                    partition_start: None,
                    block_size: 2048,
                    fsd_location: None,
                    volume_id: String::new(),
                };
                assert(known@ == nothing_known());
                if count == 0 {
                    known.finish()
                } else {
                    OpenStep::Read(
                        UdfOpening { phase: OpenPhase::Sequence { start, count, next: 0, known } },
                    )
                }
            },
            OpenPhase::Sequence { start, count, next, known } => {
                if kind == TAG_TERMINATING {
                    return known.finish();
                }
                let mut known: Sequence = known;
                known.learn(&sector);
                if next + 1 < count {
                    OpenStep::Read(
                        UdfOpening {
                            phase: OpenPhase::Sequence { start, count, next: next + 1, known },
                        },
                    )
                } else {
                    let step: OpenStep = known.finish();
                    assert forall|disk: Disk| disk(wanted) == Some(sector@) implies (
                    #[trigger] before.outcome(disk)) == step.outcome(disk).behind(wanted) by {
                        assert(open_sequence(disk, start, count, next + 1, known@) == open_known(
                            disk,
                            known@,
                        ));
                    }
                    step
                }
            },
            OpenPhase::FileSet { volume, sector: n } => {
                if kind != TAG_FILE_SET {
                    OpenStep::Refused(UdfError::NoFileSet { sector: n, tag: kind })
                } else {
                    OpenStep::Opened(volume)
                }
            },
        }
    }
}

// ---------------------------------------------------------------------------------------------
// Laws
// ---------------------------------------------------------------------------------------------

/// Whether `steps` come about one after the other when each sector that is waited for is read from
/// `disk`, from a volume on that is just beginning to be opened.
pub open spec fn is_opening_run(disk: Disk, steps: Seq<OpenStep>) -> bool {
    &&& steps.len() > 0
    &&& steps[0] is Read
    &&& steps[0].outcome(disk) == open_volume(disk)
    &&& forall|i: int| 0 <= i < steps.len() ==> (#[trigger] steps[i]).wf()
    &&& forall|i: int|
        0 <= i < steps.len() - 1 ==> {
            &&& (#[trigger] steps[i]) is Read
            &&& steps[i]->Read_0.goes_on(disk(steps[i]->Read_0.wanted()), steps[i + 1])
        }
}

/// The sector that is waited for is the first of those that are still to be read.
pub proof fn lemma_opening_reads_what_it_wants(opening: UdfOpening, disk: Disk)
    requires
        opening.wf(),
    ensures
        opening.outcome(disk).reads.len() > 0,
        opening.outcome(disk).reads[0] == opening.wanted(),
{
}

/// Opening a volume sector by sector reads the sectors that opening it is said to read, in order,
/// and no others, and ends as it is said to end.
pub proof fn law_opening_follows_the_disc(disk: Disk, steps: Seq<OpenStep>)
    requires
        is_opening_run(disk, steps),
    ensures
        steps.len() <= open_volume(disk).reads.len() + 1,
        forall|i: int|
            0 <= i < steps.len() ==> ((#[trigger] steps[i]) matches OpenStep::Read(opening) ==> i
                < open_volume(disk).reads.len() && opening.wanted() == open_volume(disk).reads[i]),
        steps.last() !is Read ==> steps.len() == open_volume(disk).reads.len() + 1,
        steps.last() matches OpenStep::Opened(volume) ==> open_volume(disk).result == Ok::<
            VolumeModel,
            UdfError,
        >(volume@),
        steps.last() matches OpenStep::Refused(error) ==> open_volume(disk).result == Err::<
            VolumeModel,
            UdfError,
        >(error),
{
    let whole = open_volume(disk);
    assert forall|i: int| 0 <= i < steps.len() implies i <= whole.reads.len() && (
    #[trigger] steps[i]).outcome(disk) == (OpenOutcome {
        result: whole.result,
        reads: whole.reads.skip(i),
    }) by {
        lemma_opening_run_at(disk, steps, i);
    }
    assert forall|i: int| 0 <= i < steps.len() implies ((
    #[trigger] steps[i]) matches OpenStep::Read(opening) ==> i < whole.reads.len()
        && opening.wanted() == whole.reads[i]) by {
        if let OpenStep::Read(opening) = steps[i] {
            lemma_opening_reads_what_it_wants(opening, disk);
        }
    }
    let last = steps.len() - 1;
    assert(steps[last].outcome(disk).reads == whole.reads.skip(last));
}

proof fn lemma_opening_run_at(disk: Disk, steps: Seq<OpenStep>, i: int)
    requires
        is_opening_run(disk, steps),
        0 <= i < steps.len(),
    ensures
        i <= open_volume(disk).reads.len(),
        steps[i].outcome(disk) == (OpenOutcome {
            result: open_volume(disk).result,
            reads: open_volume(disk).reads.skip(i),
        }),
    decreases i,
{
    let whole = open_volume(disk);
    if i == 0 {
        assert(whole.reads.skip(0) == whole.reads);
    } else {
        lemma_opening_run_at(disk, steps, i - 1);
        let opening = steps[i - 1]->Read_0;
        assert(steps[i - 1].wf());
        lemma_opening_reads_what_it_wants(opening, disk);
        let now = steps[i].outcome(disk);
        assert(opening.outcome(disk) == now.behind(opening.wanted()));
        assert(now.reads == (seq![opening.wanted()] + now.reads).skip(1));
        assert(whole.reads.skip(i - 1).skip(1) == whole.reads.skip(i));
    }
}

/// Opening a volume reads the anchor, no more than 64 descriptors, and a file set descriptor.
pub proof fn law_opening_is_bounded(disk: Disk)
    ensures
        1 <= open_volume(disk).reads.len() <= 66,
        open_volume(disk).reads[0] == ANCHOR_SECTOR,
{
    if let Some(anchor) = disk(ANCHOR_SECTOR) {
        lemma_sequence_is_bounded(
            disk,
            sequence_start(anchor),
            sequence_count(anchor),
            0,
            nothing_known(),
        );
    }
}

proof fn lemma_sequence_is_bounded(
    disk: Disk,
    start: u32,
    count: u32,
    next: int,
    known: SequenceModel,
)
    requires
        0 <= next <= count,
    ensures
        open_sequence(disk, start, count, next, known).reads.len() <= count - next + 1,
    decreases count - next,
{
    if next < count {
        if let Some(sector) = disk(sequence_sector(start, next)) {
            lemma_sequence_is_bounded(disk, start, count, next + 1, learned(known, sector));
        }
    }
}

} // verus!
