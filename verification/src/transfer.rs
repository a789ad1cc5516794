//! A data request on its way: which bytes it moves next, and what each answer leads to.
//!
//! The worker decides and its caller does the I/O: of a [`DataTransfer`] the worker tells the
//! [`IoAction`] that is due, and the caller hands the [`IoEvent`] that came of it back.

use vstd::prelude::*;

use crate::error::VmdkIoError;
use crate::extent::{holder, lemma_holder_holds, VmdkExtent};

verus! {

/// A run of consecutive bytes of a request that lies within one extent.
#[derive(Clone, Copy, Debug, PartialEq, Eq, Structural)]
pub struct Segment {
    /// The extent that holds the bytes.
    pub extent: usize,
    /// Where the first of them lies in the extent's file.
    pub file_offset: u64,
    /// Where the first of them lies in the request's buffers.
    pub buf_start: usize,
    /// How many bytes there are.
    pub len: usize,
}

/// What a transfer waits for.
#[derive(Clone, Copy, Debug, PartialEq, Eq, Structural)]
pub enum Phase {
    /// One vectored call that moves the request between its own buffers and the file.
    Vectored,
    /// The segment's bytes, copied from the request's buffers to the staging buffer.
    Fetch,
    /// A positioned read or write of what is left of the segment.
    Transfer,
    /// The bytes that were read, copied from the staging buffer to the request's buffers.
    Deliver,
}

/// A data request on its way.
#[derive(Clone, Copy, Debug, PartialEq, Eq, Structural)]
pub struct DataTransfer {
    /// The virtual offset of the request's first byte.
    pub start: u64,
    /// How many bytes the request has.
    pub total: usize,
    /// Whether it reads; else it writes.
    pub is_read: bool,
    /// The segment that is being moved. All bytes before it have been moved.
    pub segment: Segment,
    /// How many bytes of the segment have been moved.
    pub moved: usize,
    /// What the transfer waits for.
    pub phase: Phase,
}

/// What the caller of the worker does next.
#[derive(Clone, Copy, Debug, PartialEq, Eq, Structural)]
pub enum IoAction {
    /// Move the request between its own buffers and the extent's file, at `file_offset`, with a
    /// single vectored call.
    Vectored { extent: usize, file_offset: u64 },
    /// Copy `len` bytes of the request's buffers, from `buf_start` on, to the staging buffer.
    Fetch { buf_start: usize, len: usize },
    /// Read at most `len` bytes of the extent's file, at `file_offset`, to position `from` of the
    /// staging buffer.
    ReadAt { extent: usize, file_offset: u64, from: usize, len: usize },
    /// Write at most `len` bytes from position `from` of the staging buffer to the extent's file,
    /// at `file_offset`.
    WriteAt { extent: usize, file_offset: u64, from: usize, len: usize },
    /// Copy the first `len` bytes of the staging buffer to the request's buffers, from
    /// `buf_start` on.
    Deliver { buf_start: usize, len: usize },
}

/// What came of an action.
#[derive(Clone, Copy, Debug, PartialEq, Eq, Structural)]
pub enum IoEvent {
    /// So many bytes were read or written; none at the end of the file.
    Moved(usize),
    /// The bytes were copied.
    Copied,
    /// The call was interrupted before it moved anything.
    Interrupted,
    /// The call failed.
    Failed,
}

/// What an event does to the segment that is being moved.
#[derive(Clone, Copy, Debug, PartialEq, Eq, Structural)]
pub enum SegmentOutcome {
    /// There is more to do.
    Pending(DataTransfer),
    /// The segment is through, with so many bytes moved.
    Finished(usize),
    /// A call failed.
    Failed,
}

/// Where a request stands.
#[derive(Clone, Copy, Debug, PartialEq, Eq, Structural)]
pub enum Progress {
    /// There is more to do.
    Pending(DataTransfer),
    /// The request is through, with so many bytes moved.
    Finished(usize),
}

/// The next segment of a request of which `done` bytes have been moved: as many bytes as are left,
/// or as the extent that holds the first of them still has.
pub open spec fn segment_at(extents: Seq<VmdkExtent>, start: int, total: int, done: int) -> Result<
    Segment,
    VmdkIoError,
> {
    let v = start + done;
    match holder(extents, v) {
        None => Err(VmdkIoError::OutsideExtents),
        Some(i) => if extents[i].file is None {
            Err(VmdkIoError::NotAccessible)
        } else {
            let room = extents[i].end() - v;
            Ok(
                Segment {
                    extent: i as usize,
                    file_offset: extents[i].file_position(v) as u64,
                    buf_start: done as usize,
                    len: (if total - done <= room {
                        total - done
                    } else {
                        room
                    }) as usize,
                },
            )
        },
    }
}

impl DataTransfer {
    /// The transfer of a segment through the staging buffer, at its beginning. Of an empty segment
    /// there is nothing to read.
    pub open spec fn staged(start: u64, total: usize, is_read: bool, segment: Segment) -> Self {
        DataTransfer {
            start,
            total,
            is_read,
            segment,
            moved: 0,
            phase: if is_read {
                if segment.len > 0 {
                    Phase::Transfer
                } else {
                    Phase::Deliver
                }
            } else {
                Phase::Fetch
            },
        }
    }

    /// The segment lies within the request and within the 64-bit range of its file, and the phase
    /// goes with the bytes that have been moved.
    pub open spec fn sound(self) -> bool {
        let seg = self.segment;
        &&& self.start + self.total <= u64::MAX
        &&& seg.buf_start + seg.len <= self.total
        &&& seg.file_offset + seg.len <= u64::MAX
        &&& match self.phase {
            Phase::Vectored => self.moved == 0 && seg.buf_start == 0 && seg.len == self.total,
            Phase::Fetch => !self.is_read && self.moved == 0,
            Phase::Transfer => self.moved < seg.len,
            Phase::Deliver => self.is_read && self.moved <= seg.len,
        }
    }

    /// The transfer is sound, and its segment is not empty and lies within one extent, at the right
    /// place of the extent's file.
    pub open spec fn wf(self, extents: Seq<VmdkExtent>) -> bool {
        let seg = self.segment;
        let v = self.start + seg.buf_start;
        &&& self.sound()
        &&& seg.len > 0
        &&& holder(extents, v) == Some(seg.extent as int)
        &&& seg.extent < extents.len()
        &&& extents[seg.extent as int].holds(v)
        &&& extents[seg.extent as int].file is Some
        &&& seg.file_offset == extents[seg.extent as int].file_position(v)
        &&& v + seg.len <= extents[seg.extent as int].end()
    }

    /// The event reports no more bytes than a positioned call was asked to move.
    pub open spec fn plausible(self, event: IoEvent) -> bool {
        self.phase == Phase::Transfer ==> (event matches IoEvent::Moved(n) ==> n <= self.segment.len
            - self.moved)
    }

    /// What to do next.
    pub open spec fn spec_action(self) -> IoAction {
        let seg = self.segment;
        match self.phase {
            Phase::Vectored => IoAction::Vectored {
                extent: seg.extent,
                file_offset: seg.file_offset,
            },
            Phase::Fetch => IoAction::Fetch { buf_start: seg.buf_start, len: seg.len },
            Phase::Transfer => {
                let file_offset = (seg.file_offset + self.moved) as u64;
                let len = (seg.len - self.moved) as usize;
                if self.is_read {
                    IoAction::ReadAt { extent: seg.extent, file_offset, from: self.moved, len }
                } else {
                    IoAction::WriteAt { extent: seg.extent, file_offset, from: self.moved, len }
                }
            },
            Phase::Deliver => IoAction::Deliver { buf_start: seg.buf_start, len: self.moved },
        }
    }

    /// What an event does to a staged segment. Short transfers go on where they stopped, and
    /// interrupted ones are tried again; the segment ends once all its bytes have been moved, or
    /// when a call moves none. An empty segment ends without a positioned call. Whatever is no
    /// answer to the action counts as a failure.
    pub open spec fn segment_outcome(self, event: IoEvent) -> SegmentOutcome {
        match (self.phase, event) {
            (Phase::Fetch, IoEvent::Copied) => if self.segment.len > 0 {
                SegmentOutcome::Pending(DataTransfer { phase: Phase::Transfer, ..self })
            } else {
                SegmentOutcome::Finished(0)
            },
            (Phase::Transfer, IoEvent::Interrupted) => SegmentOutcome::Pending(self),
            (Phase::Transfer, IoEvent::Moved(n)) => {
                let moved = (self.moved + n) as usize;
                if n > 0 && moved < self.segment.len {
                    SegmentOutcome::Pending(DataTransfer { moved, ..self })
                } else if self.is_read {
                    SegmentOutcome::Pending(DataTransfer { moved, phase: Phase::Deliver, ..self })
                } else {
                    SegmentOutcome::Finished(moved)
                }
            },
            (Phase::Deliver, IoEvent::Copied) => SegmentOutcome::Finished(self.moved),
            _ => SegmentOutcome::Failed,
        }
    }
}

/// The next segment begins with the first byte that has not been moved, in the extent found there
/// and at that byte's place in the file, and ends with that extent or with the request, whichever
/// comes first. There is none where no extent is found, or the one found has no open file.
pub proof fn law_segment_ends_with_extent_or_request(
    extents: Seq<VmdkExtent>,
    start: int,
    total: int,
    done: int,
    i: int,
)
    requires
        0 <= start,
        0 <= done < total <= usize::MAX,
        extents.len() <= usize::MAX,
    ensures
        holder(extents, start + done) is None ==> segment_at(extents, start, total, done) == Err::<
            Segment,
            VmdkIoError,
        >(VmdkIoError::OutsideExtents),
        holder(extents, start + done) == Some(i) && extents[i].file is None ==> segment_at(
            extents,
            start,
            total,
            done,
        ) == Err::<Segment, VmdkIoError>(VmdkIoError::NotAccessible),
        holder(extents, start + done) == Some(i) && extents[i].file is Some
            && extents[i].file_base_offset + (start + done - extents[i].virtual_start) <= u64::MAX
            ==> (segment_at(extents, start, total, done) matches Ok(segment) && {
            let end = extents[i].virtual_start + extents[i].length;
            &&& segment.extent == i
            &&& segment.buf_start == done
            &&& segment.file_offset == extents[i].file_base_offset + (start + done
                - extents[i].virtual_start)
            &&& start + done + segment.len == if end <= start + total {
                end
            } else {
                start + total
            }
        }),
{
    lemma_holder_holds(extents, start + done);
}

} // verus!
