//! The handoff protocol around the frame: what the producer stages and
//! notifies, what the consumer decodes and acknowledges, and when the staging
//! file may be deleted.

use vstd::prelude::*;
use vstd::slice::slice_subrange;

use crate::batch::{Batch, BatchModel};
use crate::frame::{
    encode, decode, fits, frame_matches, spec_frame, valid_frame, EncodeError,
};
use crate::staging::{SizedWriterBuffer, StagingError};

verus! {

/// The valid byte range of a staging file, `[start, end)`.
#[derive(Clone, Copy, PartialEq, Eq, Structural, Debug)]
pub struct ByteRange {
    pub start: i32,
    pub end: i32,
}

/// The control message: which staging file holds the frame and, when the
/// file is pre-sized past the payload, which byte range is valid. Without a
/// range the whole file is the frame.
#[derive(Debug)]
pub struct Notification {
    pub file_name: String,
    pub range: Option<ByteRange>,
}

/// The consumer's acknowledgement: did it fully decode the frame?
#[derive(Clone, Copy, PartialEq, Eq, Structural, Debug)]
pub struct IngestResponse {
    pub success: bool,
}

/// Why the producer could not stage or announce a batch.
#[derive(Clone, Copy, PartialEq, Eq, Structural, Debug)]
pub enum ProduceError {
    /// The batch could not be framed.
    Encode(EncodeError),
    /// The frame does not fit the staging region.
    Staging(StagingError),
    /// The frame's end offset does not fit the notification's 32-bit range.
    RangeOverflow,
}

/// Whether a notified range lies within a mapped file of `len` bytes.
pub open spec fn range_valid(len: int, range: Option<ByteRange>) -> bool {
    match range {
        None => true,
        Some(br) => 0 <= br.start && br.start <= br.end && br.end <= len,
    }
}

/// The bytes a notified range selects from the mapped file.
pub open spec fn notified_slice(data: Seq<u8>, range: Option<ByteRange>) -> Seq<u8>
    recommends
        range_valid(data.len() as int, range),
{
    match range {
        None => data,
        Some(br) => data.subrange(br.start as int, br.end as int),
    }
}

/// Frames a batch into a fresh staging region of the given capacity and
/// reports the end offset of the valid range. Succeeds exactly when the batch
/// is well formed, its frame fits the header fields, and the frame fits the
/// region; the region then holds precisely the frame.
pub fn stage_batch(b: &Batch, capacity: usize) -> (r: Result<
    (SizedWriterBuffer, usize),
    ProduceError,
>)
    ensures
        r is Ok <==> b@.wf() && fits(b@) && spec_frame(b@).len() <= capacity,
        r is Ok ==> ({
            let (region, end) = r->Ok_0;
            &&& region.wf()
            &&& region.capacity() == capacity
            &&& region.written() == spec_frame(b@)
            &&& end == spec_frame(b@).len()
        }),
        !b@.wf() ==> r == Result::<(SizedWriterBuffer, usize), ProduceError>::Err(
            ProduceError::Encode(EncodeError::Inconsistent),
        ),
        b@.wf() && !fits(b@) ==> r == Result::<(SizedWriterBuffer, usize), ProduceError>::Err(
            ProduceError::Encode(EncodeError::TooLarge),
        ),
        b@.wf() && fits(b@) && spec_frame(b@).len() > capacity ==> r == Result::<
            (SizedWriterBuffer, usize),
            ProduceError,
        >::Err(ProduceError::Staging(StagingError::RegionFull)),
{
    let frame = match encode(b) {
        Ok(f) => f,
        Err(e) => {
            return Err(ProduceError::Encode(e));
        },
    };
    let mut region = SizedWriterBuffer::new(capacity);
    let end = match region.write(frame.as_slice()) {
        Ok(n) => n,
        Err(e) => {
            return Err(ProduceError::Staging(e));
        },
    };
    region.flush();
    Ok((region, end))
}

/// Builds the notification for a staged frame: the file's name and the valid
/// range `[0, end)`. Refused only when `end` overflows the range's 32-bit
/// field.
pub fn make_notification(file_name: String, end: usize) -> (r: Result<Notification, ProduceError>)
    ensures
        r is Ok <==> end <= i32::MAX,
        r is Ok ==> ({
            let n = r->Ok_0;
            &&& n.file_name@ == file_name@
            &&& n.range == Some(ByteRange { start: 0i32, end: end as i32 })
        }),
        !(end <= i32::MAX) ==> r == Result::<Notification, ProduceError>::Err(
            ProduceError::RangeOverflow,
        ),
{
    if end > 0x7fff_ffffusize {
        return Err(ProduceError::RangeOverflow);
    }
    Ok(Notification { file_name, range: Some(ByteRange { start: 0i32, end: end as i32 }) })
}

/// Decodes the notified byte range of a mapped staging file and acknowledges.
/// The acknowledgement reports success exactly when the range lies within the
/// file and holds a complete, well-formed frame; only then is a batch
/// returned, and it is exactly the framed batch — a malformed or truncated
/// range yields a negative acknowledgement and no batch.
pub fn ingest(data: &[u8], range: Option<ByteRange>) -> (r: (IngestResponse, Option<Batch>))
    ensures
        r.0.success <==> range_valid(data@.len() as int, range) && valid_frame(
            notified_slice(data@, range),
        ),
        r.1 is Some <==> r.0.success,
        r.1 is Some ==> frame_matches(notified_slice(data@, range), r.1->Some_0@),
        forall|bm: BatchModel|
            range_valid(data@.len() as int, range) && #[trigger] frame_matches(
                notified_slice(data@, range),
                bm,
            ) ==> r.1 is Some && r.1->Some_0@ == bm,
{
    let slice: &[u8] = match &range {
        None => data,
        Some(br) => {
            if br.start < 0 || br.start > br.end || (br.end as usize) > data.len() {
                return (IngestResponse { success: false }, None);
            }
            slice_subrange(data, br.start as usize, br.end as usize)
        },
    };
    match decode(slice) {
        Ok(b) => (IngestResponse { success: true }, Some(b)),
        Err(_) => (IngestResponse { success: false }, None),
    }
}

/// How the producer reads an acknowledgement: a positive acknowledgement is
/// the only outcome that permits cleanup.
#[derive(Clone, Copy, PartialEq, Eq, Structural, Debug)]
pub enum AckOutcome {
    /// The consumer decoded the frame.
    Success,
    /// The consumer answered, but could not decode.
    Failure,
    /// The exchange itself failed; no acknowledgement arrived.
    ChannelError,
}

/// The acknowledgement's meaning for cleanup.
pub fn ack_outcome(resp: &IngestResponse) -> (r: AckOutcome)
    ensures
        r == (if resp.success {
            AckOutcome::Success
        } else {
            AckOutcome::Failure
        }),
{
    if resp.success {
        AckOutcome::Success
    } else {
        AckOutcome::Failure
    }
}

/// Where one staging region stands in its life.
#[derive(Clone, Copy, PartialEq, Eq, Structural, Debug)]
pub enum RegionState {
    /// Framed and on disk; nothing announced yet.
    Staged,
    /// The one notification for this region is out.
    Notified,
    /// A positive acknowledgement arrived.
    AckedSuccess,
    /// A negative acknowledgement arrived.
    AckedFailure,
    /// The exchange failed; no acknowledgement arrived.
    ChannelFailed,
    /// The backing file was removed after a positive acknowledgement.
    Deleted,
    /// Kept on disk for diagnosis; terminal.
    Retained,
}

/// One staging region's life, from staging to deletion or retention, with
/// whether its backing file is still on disk.
#[derive(Debug)]
pub struct RegionLifecycle {
    pub state: RegionState,
    pub file_exists: bool,
}

impl RegionLifecycle {
    /// The backing file is on disk in every state but `Deleted`.
    pub open spec fn wf(&self) -> bool {
        self.file_exists <==> self.state != RegionState::Deleted
    }

    /// A region starts its life staged, its file on disk.
    pub fn stage() -> (r: Self)
        ensures
            r.wf(),
            r.state == RegionState::Staged,
            r.file_exists,
    {
        RegionLifecycle { state: RegionState::Staged, file_exists: true }
    }

    /// Records that the notification went out. A region is notified at most
    /// once: sending a second notification for the same file is unsupported,
    /// and the precondition rules it out.
    pub fn mark_notified(&mut self)
        requires
            old(self).wf(),
            old(self).state == RegionState::Staged,
        ensures
            final(self).wf(),
            final(self).state == RegionState::Notified,
            final(self).file_exists,
    {
        self.state = RegionState::Notified;
    }

    /// Records the exchange's outcome. No outcome touches the file.
    pub fn record_ack(&mut self, outcome: AckOutcome)
        requires
            old(self).wf(),
            old(self).state == RegionState::Notified,
        ensures
            final(self).wf(),
            final(self).file_exists,
            final(self).state == (match outcome {
                AckOutcome::Success => RegionState::AckedSuccess,
                AckOutcome::Failure => RegionState::AckedFailure,
                AckOutcome::ChannelError => RegionState::ChannelFailed,
            }),
    {
        self.state = match outcome {
            AckOutcome::Success => RegionState::AckedSuccess,
            AckOutcome::Failure => RegionState::AckedFailure,
            AckOutcome::ChannelError => RegionState::ChannelFailed,
        };
    }

    /// Cleans up after the exchange: the backing file is deleted exactly on a
    /// positive acknowledgement; after a negative or absent acknowledgement
    /// it stays on disk, retained for diagnosis.
    pub fn cleanup(&mut self)
        requires
            old(self).wf(),
            old(self).state == RegionState::AckedSuccess || old(self).state
                == RegionState::AckedFailure || old(self).state == RegionState::ChannelFailed,
        ensures
            final(self).wf(),
            old(self).state == RegionState::AckedSuccess ==> final(self).state
                == RegionState::Deleted && !final(self).file_exists,
            old(self).state != RegionState::AckedSuccess ==> final(self).state
                == RegionState::Retained && final(self).file_exists,
    {
        if matches!(self.state, RegionState::AckedSuccess) {
            self.state = RegionState::Deleted;
            self.file_exists = false;
        } else {
            self.state = RegionState::Retained;
        }
    }
}

/// Cleanup gating: in every well-formed lifecycle state short of `Deleted` —
/// staged, notified, any acknowledgement, retained — the staging file is
/// still on disk; only the transition taken on a positive acknowledgement
/// removes it.
pub proof fn lemma_cleanup_gating(l: RegionLifecycle)
    requires
        l.wf(),
        l.state != RegionState::Deleted,
    ensures
        l.file_exists,
{
}

/// Stages a batch, builds its notification, and opens the region's lifecycle
/// record. Succeeds exactly when the batch frames into the region and the end
/// offset fits the notification; the notification then names precisely the
/// frame's range `[0, end)`, and it exists only once the region holds the
/// whole frame — a frame is announced only after it is fully written.
pub fn produce(b: &Batch, capacity: usize, file_name: String) -> (r: Result<
    (SizedWriterBuffer, Notification, RegionLifecycle),
    ProduceError,
>)
    ensures
        r is Ok <==> b@.wf() && fits(b@) && spec_frame(b@).len() <= capacity && spec_frame(
            b@,
        ).len() <= i32::MAX,
        !b@.wf() ==> r == Result::<
            (SizedWriterBuffer, Notification, RegionLifecycle),
            ProduceError,
        >::Err(ProduceError::Encode(EncodeError::Inconsistent)),
        b@.wf() && !fits(b@) ==> r == Result::<
            (SizedWriterBuffer, Notification, RegionLifecycle),
            ProduceError,
        >::Err(ProduceError::Encode(EncodeError::TooLarge)),
        b@.wf() && fits(b@) && spec_frame(b@).len() > capacity ==> r == Result::<
            (SizedWriterBuffer, Notification, RegionLifecycle),
            ProduceError,
        >::Err(ProduceError::Staging(StagingError::RegionFull)),
        b@.wf() && fits(b@) && spec_frame(b@).len() <= capacity && spec_frame(b@).len() > i32::MAX
            ==> r == Result::<
            (SizedWriterBuffer, Notification, RegionLifecycle),
            ProduceError,
        >::Err(ProduceError::RangeOverflow),
        r is Ok ==> ({
            let (region, n, life) = r->Ok_0;
            &&& region.wf()
            &&& region.capacity() == capacity
            &&& region.written() == spec_frame(b@)
            &&& n.file_name@ == file_name@
            &&& n.range == Some(
                ByteRange { start: 0i32, end: spec_frame(b@).len() as i32 },
            )
            &&& life.wf()
            &&& life.state == RegionState::Notified
            &&& life.file_exists
        }),
{
    let (region, end) = match stage_batch(b, capacity) {
        Ok(re) => re,
        Err(e) => {
            return Err(e);
        },
    };
    let notification = match make_notification(file_name, end) {
        Ok(n) => n,
        Err(e) => {
            return Err(e);
        },
    };
    let mut life = RegionLifecycle::stage();
    life.mark_notified();
    Ok((region, notification, life))
}

} // verus!
