//! The synchronous, extent-aware I/O worker for flat VMDK images.

use std::collections::VecDeque;

use vstd::prelude::*;

use crate::error::{data_error, wrap_data_error, AsyncIoError, VmdkIoError};
use crate::extent::{
    are_disjoint, check_extents_map, ends_fit, extents_map, find_extent, first_objection, holder,
    lemma_first_objection_disjoint, lemma_holder_holds, permitted, ExtentAccess, VmdkExtent,
};
use crate::transfer::{
    segment_at, DataTransfer, IoAction, IoEvent, Phase, Progress, Segment, SegmentOutcome,
};

verus! {

/// A data request as the worker sees it: where it goes and how long it is. The buffers stay with
/// the caller.
#[derive(Clone, Copy, Debug, PartialEq, Eq, Structural)]
pub struct AsyncIoOperation {
    /// The file offset that the guest asks for.
    pub offset: i64,
    /// How many bytes its buffers hold.
    pub total_len: usize,
    /// Whether it reads; else it writes.
    pub is_read: bool,
}

/// A finished request, with the operation that it came from, if any.
#[derive(Debug)]
pub struct AsyncIoCompletion<Op> {
    /// The caller's tag of the request.
    pub user_data: u64,
    /// The number of bytes that were moved.
    pub result: i32,
    /// The operation and its buffers.
    pub operation: Option<Op>,
}

/// Synchronous, extent-aware I/O worker for flat VMDK images.
///
/// Maps each guest request to one or more backing extents. A request that stays within a single
/// extent -- always true for `monolithicFlat`, and the common case for `twoGbMaxExtentFlat` -- is
/// moved by one vectored call without a copy, unless the extent was opened for direct I/O. A
/// request that straddles an extent boundary is split into segments, one per extent, each copied
/// through a staging buffer; so is one to an extent that was opened for direct I/O.
pub struct FlatVmdkSync<Op> {
    // Opened extents in virtual-disk order.
    extents: Vec<VmdkExtent>,
    // Total virtual disk size; requests beyond this are rejected.
    size: u64,
    completion_list: VecDeque<AsyncIoCompletion<Op>>,
}

/// The extents can take a request, as far as it lies within the disk.
pub open spec fn serves(extents: Seq<VmdkExtent>, size: u64, op: AsyncIoOperation) -> bool {
    let start = op.offset as u64;
    let end = start + op.total_len;
    end <= size && op.total_len > 0 ==> extents_map(extents, start as int, end)
}

/// What becomes of a data request: it is rejected when it leaves the disk, or when an extent that
/// it touches forbids it; an empty one is done at once; one that stays within a buffered extent is
/// moved by one vectored call; any other is moved segment by segment.
pub open spec fn submission(extents: Seq<VmdkExtent>, size: u64, op: AsyncIoOperation) -> Result<
    Progress,
    AsyncIoError,
> {
    let start = op.offset as u64;
    let total = op.total_len;
    let end = start + total;
    if end > size {
        Err(
            data_error(
                VmdkIoError::ExceedsVirtualSize { start, total: total as u64, size },
                op.is_read,
            ),
        )
    } else if total == 0 {
        Ok(Progress::Finished(0))
    } else {
        match first_objection(extents, start as int, end, op.is_read) {
            Some(e) => Err(data_error(e, op.is_read)),
            None => match segment_at(extents, start as int, total as int, 0) {
                Err(e) => Err(data_error(e, op.is_read)),
                Ok(segment) => {
                    let extent = extents[segment.extent as int];
                    let t = DataTransfer::staged(start, total, op.is_read, segment);
                    Ok(
                        Progress::Pending(
                            if end <= extent.end() && extent.file->0.alignment == 0 {
                                DataTransfer { phase: Phase::Vectored, ..t }
                            } else {
                                t
                            },
                        ),
                    )
                },
            },
        }
    }
}

/// Where a request stands once its segment is through with `n` bytes moved: a short segment ends
/// it, and so does the last byte; else the next segment is due.
pub open spec fn after_segment(extents: Seq<VmdkExtent>, t: DataTransfer, n: usize) -> Result<
    Progress,
    VmdkIoError,
> {
    let done = t.segment.buf_start + n;
    if n < t.segment.len || done >= t.total {
        Ok(Progress::Finished(done as usize))
    } else {
        match segment_at(extents, t.start as int, t.total as int, done) {
            Ok(segment) => Ok(
                Progress::Pending(DataTransfer::staged(t.start, t.total, t.is_read, segment)),
            ),
            Err(e) => Err(e),
        }
    }
}

/// Where a request stands after an event.
pub open spec fn resumption(extents: Seq<VmdkExtent>, t: DataTransfer, event: IoEvent) -> Result<
    Progress,
    VmdkIoError,
> {
    if t.phase == Phase::Vectored {
        match event {
            IoEvent::Moved(n) => Ok(Progress::Finished(n)),
            _ => Err(VmdkIoError::TransferFailed),
        }
    } else {
        match t.segment_outcome(event) {
            SegmentOutcome::Pending(next) => Ok(Progress::Pending(next)),
            SegmentOutcome::Finished(n) => after_segment(extents, t, n),
            SegmentOutcome::Failed => Err(VmdkIoError::TransferFailed),
        }
    }
}

/// Where a flush stands.
#[derive(Clone, Copy, Debug, PartialEq, Eq, Structural)]
pub enum FlushProgress {
    /// The file of this extent is to be flushed next.
    Flush(usize),
    /// Every file has been flushed. `notify` tells whether a completion was filed.
    Finished { notify: bool },
}

/// Of the extents from index `from` on, the first that has an open file.
pub open spec fn next_open(extents: Seq<VmdkExtent>, from: int) -> Option<int>
    decreases extents.len() - from,
{
    if from >= extents.len() {
        None
    } else if extents[from].file is Some {
        Some(from)
    } else {
        next_open(extents, from + 1)
    }
}

/// The completions that wait once a flush with the tag `user_data` is through.
pub open spec fn flush_completed<Op>(
    waiting: Seq<AsyncIoCompletion<Op>>,
    user_data: Option<u64>,
) -> Seq<AsyncIoCompletion<Op>> {
    match user_data {
        Some(tag) => waiting.push(
            AsyncIoCompletion { user_data: tag, result: 0, operation: None },
        ),
        None => waiting,
    }
}

/// What `next_open` finds is the lowest index that will do.
pub proof fn lemma_next_open(extents: Seq<VmdkExtent>, from: int)
    requires
        0 <= from,
    ensures
        match next_open(extents, from) {
            Some(i) => {
                &&& from <= i < extents.len()
                &&& extents[i].file is Some
                &&& forall|j: int| from <= j < i ==> (#[trigger] extents[j]).file is None
            },
            None => forall|j: int|
                from <= j < extents.len() ==> (#[trigger] extents[j]).file is None,
        },
    decreases extents.len() - from,
{
    if from < extents.len() && extents[from].file is None {
        lemma_next_open(extents, from + 1);
    }
}

/// Offsets that can be mapped can be looked up, and so can those before them.
proof fn lemma_ends_fit(extents: Seq<VmdkExtent>, start: int, end: int)
    requires
        extents_map(extents, start, end),
    ensures
        forall|limit: int| limit <= end ==> #[trigger] ends_fit(extents, limit),
{
    assert forall|limit: int| limit <= end implies #[trigger] ends_fit(extents, limit) by {
        assert forall|i: int|
            0 <= i < extents.len() && (#[trigger] extents[i]).virtual_start < limit implies
            extents[i].end() <= u64::MAX by {
            assert(extents[i].maps(start, end));
        }
    }
}

impl<Op> FlatVmdkSync<Op> {
    /// The extents, in the order in which they are searched.
    pub closed spec fn extents(&self) -> Seq<VmdkExtent> {
        self.extents@
    }

    /// The size of the virtual disk.
    pub closed spec fn size(&self) -> u64 {
        self.size
    }

    /// The completions that have not been fetched, oldest first.
    pub closed spec fn completions(&self) -> Seq<AsyncIoCompletion<Op>> {
        self.completion_list@
    }

    /// A worker over `extents`, for a virtual disk of `size` bytes.
    pub fn new(extents: Vec<VmdkExtent>, size: u64) -> (res: Self)
        ensures
            res.extents() == extents@,
            res.size() == size,
            res.completions() == Seq::<AsyncIoCompletion<Op>>::empty(),
    {
        FlatVmdkSync { extents, size, completion_list: VecDeque::new() }
    }

    /// The extent containing virtual `offset`, or `None` if out of range.
    pub fn extent_at(&self, offset: u64) -> (res: Option<&VmdkExtent>)
        requires
            ends_fit(self.extents(), offset + 1),
        ensures
            match res {
                Some(e) => holder(self.extents(), offset as int) matches Some(i) && *e
                    == self.extents()[i] && e.holds(offset as int),
                None => holder(self.extents(), offset as int) is None && forall|i: int|
                    0 <= i < self.extents().len() ==> !(#[trigger] self.extents()[i]).holds(
                        offset as int,
                    ),
            },
    {
        proof {
            lemma_holder_holds(self.extents@, offset as int);
        }
        match find_extent(&self.extents, offset) {
            Some(i) => Some(&self.extents[i]),
            None => None,
        }
    }

    /// Validates that every extent the request touches permits the operation.
    ///
    /// Rejects any I/O to an extent without access, and rejects writes to a read-only extent, per
    /// the access mode declared in the descriptor.
    pub fn check_access(&self, start: u64, total: u64, is_read: bool) -> (res: Result<
        (),
        VmdkIoError,
    >)
        requires
            ends_fit(self.extents(), start + total),
            start + total <= u64::MAX,
        ensures
            match res {
                Ok(()) => first_objection(self.extents(), start as int, start + total, is_read)
                    is None,
                Err(e) => first_objection(self.extents(), start as int, start + total, is_read)
                    == Some(e),
            },
            are_disjoint(self.extents()) ==> (res is Ok <==> forall|v: int|
                start <= v < start + total ==> #[trigger] permitted(self.extents(), v, is_read)),
    {
        proof {
            if are_disjoint(self.extents()) {
                lemma_first_objection_disjoint(
                    self.extents(),
                    start as int,
                    start + total,
                    is_read,
                );
            }
        }
        let end: u64 = start + total;
        let mut cur: u64 = start;
        while cur < end
            invariant
                ends_fit(self.extents(), end as int),
                end == start + total,
                first_objection(self.extents(), start as int, end as int, is_read)
                    == first_objection(self.extents(), cur as int, end as int, is_read),
                are_disjoint(self.extents()) ==> (first_objection(
                    self.extents(),
                    start as int,
                    end as int,
                    is_read,
                ) is None <==> forall|v: int|
                    start <= v < end ==> #[trigger] permitted(self.extents(), v, is_read)),
            decreases
                    if cur < end {
                        end - cur
                    } else {
                        0
                    },
        {
            let i: usize = match find_extent(&self.extents, cur) {
                Some(i) => i,
                None => {
                    return Err(VmdkIoError::OutsideExtents);
                },
            };
            let extent = self.extents[i];
            assert(self.extents()[i as int].end() <= u64::MAX);
            match extent.access {
                ExtentAccess::NoAccess => {
                    return Err(VmdkIoError::NoAccess { offset: cur });
                },
                ExtentAccess::ReadOnly => if !is_read {
                    return Err(VmdkIoError::ReadOnly { offset: cur });
                },
                ExtentAccess::ReadWrite => {},
            }
            cur = extent.virtual_start + extent.length;
        }
        Ok(())
    }

    /// What an event does to the segment that `t` moves through the staging buffer.
    ///
    /// Positioned calls may move fewer bytes than they were asked to, so the segment goes on until
    /// all its bytes have been moved. It stops early only when a call moves none (the end of the
    /// file); the number of bytes it ends with is the number that were moved. An empty segment ends
    /// without a positioned call.
    pub fn segment_io(t: &DataTransfer, event: IoEvent) -> (res: SegmentOutcome)
        requires
            t.moved <= t.segment.len,
            t.phase == Phase::Transfer ==> t.moved < t.segment.len,
            t.plausible(event),
        ensures
            res == t.segment_outcome(event),
    {
        match (t.phase, event) {
            (Phase::Fetch, IoEvent::Copied) => if t.segment.len > 0 {
                SegmentOutcome::Pending(DataTransfer { phase: Phase::Transfer, ..*t })
            } else {
                SegmentOutcome::Finished(0)
            },
            (Phase::Transfer, IoEvent::Interrupted) => SegmentOutcome::Pending(*t),
            (Phase::Transfer, IoEvent::Moved(n)) => {
                let moved: usize = t.moved + n;
                if n > 0 && moved < t.segment.len {
                    SegmentOutcome::Pending(DataTransfer { moved, ..*t })
                } else if t.is_read {
                    SegmentOutcome::Pending(DataTransfer { moved, phase: Phase::Deliver, ..*t })
                } else {
                    SegmentOutcome::Finished(moved)
                }
            },
            (Phase::Deliver, IoEvent::Copied) => SegmentOutcome::Finished(t.moved),
            _ => SegmentOutcome::Failed,
        }
    }

    /// Single-extent path: the whole request lives in extent `i`.
    ///
    /// A buffered extent is served by one vectored call on the request's own buffers. Under direct
    /// I/O the buffers and offsets may not be aligned, so the request is staged as one segment; an
    /// empty one then ends without a call on the file.
    pub fn single_extent_io(&self, i: usize, start: u64, total: usize, is_read: bool) -> (res:
        Result<DataTransfer, VmdkIoError>)
        requires
            i < self.extents().len(),
            self.extents()[i as int].virtual_start <= start,
            self.extents()[i as int].file is Some ==> self.extents()[i as int].file_position(
                start as int,
            ) <= u64::MAX,
        ensures
            ({
                let extent = self.extents()[i as int];
                let segment = Segment {
                    extent: i,
                    file_offset: extent.file_position(start as int) as u64,
                    buf_start: 0,
                    len: total,
                };
                let staged = DataTransfer::staged(start, total, is_read, segment);
                &&& res == match extent.file {
                    None => Err::<DataTransfer, VmdkIoError>(VmdkIoError::NotAccessible),
                    Some(file) => Ok(
                        if file.alignment == 0 {
                            DataTransfer { phase: Phase::Vectored, ..staged }
                        } else {
                            staged
                        },
                    ),
                }
                &&& start + total <= u64::MAX && extent.file_position(start + total) <= u64::MAX ==> (
                res matches Ok(t) ==> {
                    &&& t.sound()
                    &&& holder(self.extents(), start as int) == Some(i as int) && extent.holds(
                        start as int,
                    ) && start + total <= extent.end() && total > 0 ==> {
                        &&& segment_at(self.extents(), start as int, total as int, 0) == Ok::<
                            Segment,
                            VmdkIoError,
                        >(segment)
                        &&& t.wf(self.extents())
                    }
                })
            }),
    {
        let extent = self.extents[i];
        match extent.file {
            None => Err(VmdkIoError::NotAccessible),
            Some(file) => {
                let file_offset: u64 = extent.file_base_offset + (start - extent.virtual_start);
                let segment = Segment { extent: i, file_offset, buf_start: 0, len: total };
                let phase = if file.alignment == 0 {
                    Phase::Vectored
                } else if !is_read {
                    Phase::Fetch
                } else if total > 0 {
                    Phase::Transfer
                } else {
                    Phase::Deliver
                };
                Ok(DataTransfer { start, total, is_read, segment, moved: 0, phase })
            },
        }
    }

    /// Spanning path: the next segment of a request that straddles extents, of which `done` bytes
    /// have been moved.
    pub fn spanning_io(&self, start: u64, total: usize, is_read: bool, done: usize) -> (res: Result<
        DataTransfer,
        VmdkIoError,
    >)
        requires
            extents_map(self.extents(), start as int, start + total),
            start + total <= u64::MAX,
            done < total,
        ensures
            match res {
                Err(e) => segment_at(self.extents(), start as int, total as int, done as int)
                    == Err::<Segment, VmdkIoError>(e),
                Ok(t) => {
                    &&& segment_at(self.extents(), start as int, total as int, done as int) == Ok::<
                        Segment,
                        VmdkIoError,
                    >(t.segment)
                    &&& t == DataTransfer::staged(start, total, is_read, t.segment)
                    &&& t.segment.buf_start == done
                    &&& t.wf(self.extents())
                },
            },
    {
        let cur: u64 = start + done as u64;
        assert(ends_fit(self.extents(), cur + 1)) by {
            lemma_ends_fit(self.extents(), start as int, start + total);
        }
        let i: usize = match find_extent(&self.extents, cur) {
            Some(i) => i,
            None => {
                return Err(VmdkIoError::OutsideExtents);
            },
        };
        let extent = self.extents[i];
        assert(self.extents()[i as int].maps(start as int, start + total));
        let extent_end: u64 = extent.virtual_start + extent.length;
        // Bytes handled in this extent before reaching its boundary.
        let left: u64 = (total - done) as u64;
        let room: u64 = extent_end - cur;
        let len: usize = if left <= room {
            total - done
        } else {
            room as usize
        };
        if extent.file.is_none() {
            return Err(VmdkIoError::NotAccessible);
        }
        let file_offset: u64 = extent.file_base_offset + (cur - extent.virtual_start);
        let segment = Segment { extent: i, file_offset, buf_start: done, len };
        let phase = if is_read {
            Phase::Transfer
        } else {
            Phase::Fetch
        };
        Ok(DataTransfer { start, total, is_read, segment, moved: 0, phase })
    }

    /// Whether the extents can take a request, as far as it lies within the disk.
    pub fn can_serve(&self, op: &AsyncIoOperation) -> (res: bool)
        ensures
            res == serves(self.extents(), self.size(), *op),
    {
        let start: u64 = op.offset as u64;
        let total: u64 = op.total_len as u64;
        if start > self.size || total > self.size - start || total == 0 {
            return true;
        }
        check_extents_map(&self.extents, start, start + total)
    }

    /// Takes a data request on: rejects it, or says how its bytes are to be moved.
    ///
    /// A request that leaves the virtual disk is rejected, and so is one to an extent that forbids
    /// it, before anything is moved.
    pub fn submit_data_operation(&self, op: &AsyncIoOperation) -> (res: Result<
        Progress,
        AsyncIoError,
    >)
        requires
            serves(self.extents(), self.size(), *op),
        ensures
            res == submission(self.extents(), self.size(), *op),
            res matches Ok(Progress::Pending(t)) ==> {
                &&& t.wf(self.extents())
                &&& t.start == op.offset as u64
                &&& t.total == op.total_len
                &&& t.is_read == op.is_read
                &&& t.segment.buf_start == 0
                &&& t.moved == 0
            },
    {
        let start: u64 = op.offset as u64;
        let total: u64 = op.total_len as u64;
        let is_read = op.is_read;

        // Bounds check against the virtual disk size (overflow-safe: `start` is checked before
        // subtracting it from `size`).
        if start > self.size || total > self.size - start {
            return Err(
                wrap_data_error(
                    VmdkIoError::ExceedsVirtualSize { start, total, size: self.size },
                    is_read,
                ),
            );
        }
        if total == 0 {
            return Ok(Progress::Finished(0));
        }
        proof {
            lemma_ends_fit(self.extents(), start as int, start + total);
        }
        // Reject the request up front if any extent it touches forbids it.
        if let Err(error) = self.check_access(start, total, is_read) {
            return Err(wrap_data_error(error, is_read));
        }
        let result = match find_extent(&self.extents, start) {
            Some(i) => {
                let extent = self.extents[i];
                assert(self.extents()[i as int].maps(start as int, start + total));
                if start + total <= extent.virtual_start + extent.length {
                    self.single_extent_io(i, start, op.total_len, is_read)
                } else {
                    self.spanning_io(start, op.total_len, is_read, 0)
                }
            },
            None => Err(VmdkIoError::OutsideExtents),
        };
        match result {
            Ok(t) => Ok(Progress::Pending(t)),
            Err(error) => Err(wrap_data_error(error, is_read)),
        }
    }

    /// What is to be done next for `t`.
    pub fn next_action(&self, t: &DataTransfer) -> (res: IoAction)
        requires
            t.sound(),
        ensures
            res == t.spec_action(),
    {
        let segment = t.segment;
        match t.phase {
            Phase::Vectored => IoAction::Vectored {
                extent: segment.extent,
                file_offset: segment.file_offset,
            },
            Phase::Fetch => IoAction::Fetch { buf_start: segment.buf_start, len: segment.len },
            Phase::Transfer => {
                let file_offset: u64 = segment.file_offset + t.moved as u64;
                let len: usize = segment.len - t.moved;
                if t.is_read {
                    IoAction::ReadAt { extent: segment.extent, file_offset, from: t.moved, len }
                } else {
                    IoAction::WriteAt { extent: segment.extent, file_offset, from: t.moved, len }
                }
            },
            Phase::Deliver => IoAction::Deliver { buf_start: segment.buf_start, len: t.moved },
        }
    }

    /// Where the request stands after `event`.
    pub fn resume(&self, t: &DataTransfer, event: IoEvent) -> (res: Result<Progress, AsyncIoError>)
        requires
            t.sound(),
            t.plausible(event),
            t.segment.buf_start + t.segment.len < t.total ==> extents_map(
                self.extents(),
                t.start as int,
                t.start + t.total,
            ),
        ensures
            match res {
                Ok(p) => resumption(self.extents(), *t, event) == Ok::<Progress, VmdkIoError>(p),
                Err(e) => resumption(self.extents(), *t, event) matches Err(cause) && e
                    == data_error(cause, t.is_read),
            },
            res matches Ok(Progress::Pending(next)) ==> {
                &&& next.sound()
                &&& t.wf(self.extents()) ==> next.wf(self.extents())
                &&& next.start == t.start
                &&& next.total == t.total
                &&& next.is_read == t.is_read
            },
    {
        if let Phase::Vectored = t.phase {
            return match event {
                IoEvent::Moved(n) => Ok(Progress::Finished(n)),
                _ => Err(wrap_data_error(VmdkIoError::TransferFailed, t.is_read)),
            };
        }
        match Self::segment_io(t, event) {
            SegmentOutcome::Pending(next) => Ok(Progress::Pending(next)),
            SegmentOutcome::Failed => Err(wrap_data_error(VmdkIoError::TransferFailed, t.is_read)),
            SegmentOutcome::Finished(n) => {
                let done: usize = t.segment.buf_start + n;
                if n < t.segment.len || done >= t.total {
                    return Ok(Progress::Finished(done));
                }
                match self.spanning_io(t.start, t.total, t.is_read, done) {
                    Ok(next) => Ok(Progress::Pending(next)),
                    Err(error) => Err(wrap_data_error(error, t.is_read)),
                }
            },
        }
    }

    /// Files the completion of a data operation with `bytes` bytes moved, behind those that wait.
    pub fn complete_data_operation(&mut self, user_data: u64, operation: Op, bytes: usize)
        ensures
            final(self).extents() == old(self).extents(),
            final(self).size() == old(self).size(),
            final(self).completions() == old(self).completions().push(
                AsyncIoCompletion { user_data, result: bytes as i32, operation: Some(operation) },
            ),
            final(self).completions() == after_step(
                old(self).completions(),
                QueueStep::Completed { user_data, operation, bytes },
            ),
    {
        self.completion_list.push_back(
            AsyncIoCompletion {
                user_data,
                result: bytes as i32,
                operation: Some(operation),
            },
        );
    }

    /// Of the extents from index `from` on, the first that has a file to flush.
    fn next_to_flush(&self, from: usize) -> (res: Option<usize>)
        ensures
            match res {
                Some(i) => next_open(self.extents(), from as int) == Some(i as int),
                None => next_open(self.extents(), from as int) is None,
            },
    {
        let mut i: usize = from;
        while i < self.extents.len()
            invariant
                next_open(self.extents(), from as int) == next_open(self.extents(), i as int),
            decreases self.extents.len() - i,
        {
            if self.extents[i].file.is_some() {
                return Some(i);
            }
            i += 1;
        }
        None
    }

    /// Goes on with a flush at extent `from`: names the next file to flush, or files the
    /// completion when there is none left.
    fn flush_from(&mut self, from: usize, user_data: Option<u64>) -> (res: FlushProgress)
        ensures
            final(self).extents() == old(self).extents(),
            final(self).size() == old(self).size(),
            match next_open(old(self).extents(), from as int) {
                Some(i) => {
                    &&& res == FlushProgress::Flush(i as usize)
                    &&& final(self).completions() == old(self).completions()
                },
                None => {
                    &&& res == FlushProgress::Finished { notify: user_data is Some }
                    &&& final(self).completions() == flush_completed(
                        old(self).completions(),
                        user_data,
                    )
                },
            },
            res matches FlushProgress::Finished { notify } ==> {
                &&& notify <==> user_data is Some
                &&& final(self).completions().len() == old(self).completions().len() + if notify {
                    1int
                } else {
                    0int
                }
                &&& user_data matches Some(tag) ==> final(self).completions().last() == (
                AsyncIoCompletion::<Op> { user_data: tag, result: 0, operation: None })
            },
    {
        proof {
            lemma_next_open(self.extents(), from as int);
        }
        match self.next_to_flush(from) {
            Some(i) => FlushProgress::Flush(i),
            None => match user_data {
                Some(tag) => {
                    self.completion_list.push_back(
                        AsyncIoCompletion { user_data: tag, result: 0, operation: None },
                    );
                    FlushProgress::Finished { notify: true }
                },
                None => FlushProgress::Finished { notify: false },
            },
        }
    }

    /// Starts a flush. A single guest flush is to persist data that may lie in several extent
    /// files, so every extent that has an open file is flushed, one after the other.
    pub fn fsync(&mut self, user_data: Option<u64>) -> (res: FlushProgress)
        ensures
            final(self).extents() == old(self).extents(),
            final(self).size() == old(self).size(),
            match next_open(old(self).extents(), 0) {
                Some(i) => {
                    &&& res == FlushProgress::Flush(i as usize)
                    &&& final(self).completions() == old(self).completions()
                },
                None => {
                    &&& res == FlushProgress::Finished { notify: user_data is Some }
                    &&& final(self).completions() == flush_completed(
                        old(self).completions(),
                        user_data,
                    )
                },
            },
            res matches FlushProgress::Finished { notify } ==> {
                &&& notify <==> user_data is Some
                &&& final(self).completions().len() == old(self).completions().len() + if notify {
                    1int
                } else {
                    0int
                }
                &&& user_data matches Some(tag) ==> final(self).completions().last() == (
                AsyncIoCompletion::<Op> { user_data: tag, result: 0, operation: None })
            },
    {
        self.flush_from(0, user_data)
    }

    /// Goes on with a flush once the file of extent `flushed` was flushed, or could not be:
    /// a failure ends the flush, without a completion.
    pub fn resume_fsync(&mut self, flushed: usize, succeeded: bool, user_data: Option<u64>) -> (res:
        Result<FlushProgress, AsyncIoError>)
        requires
            flushed < old(self).extents().len(),
        ensures
            final(self).extents() == old(self).extents(),
            final(self).size() == old(self).size(),
            res is Err <==> !succeeded,
            match res {
                Err(e) => {
                    &&& e == AsyncIoError::Fsync(VmdkIoError::TransferFailed)
                    &&& final(self).completions() == old(self).completions()
                },
                Ok(p) => match next_open(old(self).extents(), flushed + 1) {
                    Some(i) => {
                        &&& p == FlushProgress::Flush(i as usize)
                        &&& final(self).completions() == old(self).completions()
                    },
                    None => {
                        &&& p == FlushProgress::Finished { notify: user_data is Some }
                        &&& final(self).completions() == flush_completed(
                            old(self).completions(),
                            user_data,
                        )
                    },
                },
            },
            res matches Ok(FlushProgress::Finished { notify }) ==> {
                &&& notify <==> user_data is Some
                &&& final(self).completions().len() == old(self).completions().len() + if notify {
                    1int
                } else {
                    0int
                }
                &&& user_data matches Some(tag) ==> final(self).completions().last() == (
                AsyncIoCompletion::<Op> { user_data: tag, result: 0, operation: None })
            },
    {
        if !succeeded {
            return Err(AsyncIoError::Fsync(VmdkIoError::TransferFailed));
        }
        assert(self.extents.len() == self.extents().len());
        Ok(self.flush_from(flushed + 1, user_data))
    }

    /// Hands out the oldest completion that waits.
    pub fn next_completed_request(&mut self) -> (res: Option<AsyncIoCompletion<Op>>)
        ensures
            final(self).extents() == old(self).extents(),
            final(self).size() == old(self).size(),
            match res {
                Some(c) => {
                    &&& old(self).completions().len() > 0
                    &&& c == old(self).completions()[0]
                    &&& final(self).completions() == old(self).completions().skip(1)
                },
                None => {
                    &&& old(self).completions().len() == 0
                    &&& final(self).completions() == old(self).completions()
                },
            },
            final(self).completions() == after_step(old(self).completions(), QueueStep::Fetched),
    {
        let ghost before = self.completion_list@;
        proof {
            if before.len() > 0 {
                assert(before.subrange(1, before.len() as int) =~= before.skip(1));
            }
        }
        self.completion_list.pop_front()
    }

    /// Flat images are not sparse: holes are not punched.
    pub fn punch_hole(&self, _offset: u64, _length: u64, _user_data: u64) -> (res: Result<
        (),
        AsyncIoError,
    >)
        ensures
            res == Err::<(), AsyncIoError>(AsyncIoError::PunchHole(VmdkIoError::PunchHoleUnsupported)),
    {
        Err(AsyncIoError::PunchHole(VmdkIoError::PunchHoleUnsupported))
    }

    /// Zeroes are not written without data.
    pub fn write_zeroes(&self, _offset: u64, _length: u64, _user_data: u64) -> (res: Result<
        (),
        AsyncIoError,
    >)
        ensures
            res == Err::<(), AsyncIoError>(AsyncIoError::WriteZeroes(VmdkIoError::WriteZeroesUnsupported)),
    {
        Err(AsyncIoError::WriteZeroes(VmdkIoError::WriteZeroesUnsupported))
    }
}

/// The extents whose files a flush goes through from index `from` on, when every one of them
/// succeeds: each step takes it to the next extent that has an open file.
pub open spec fn flush_order(extents: Seq<VmdkExtent>, from: int) -> Seq<int>
    decreases extents.len() - from,
    when 0 <= from
    via flush_order_decreases
{
    match next_open(extents, from) {
        Some(i) => seq![i] + flush_order(extents, i + 1),
        None => Seq::empty(),
    }
}

#[via_fn]
proof fn flush_order_decreases(extents: Seq<VmdkExtent>, from: int) {
    lemma_next_open(extents, from);
}

/// A flush goes through every extent that has an open file, and through no other, each once and
/// in order.
pub proof fn law_flush_reaches_every_open_file(extents: Seq<VmdkExtent>, from: int)
    requires
        0 <= from,
    ensures
        forall|i: int|
            flush_order(extents, from).contains(i) <==> from <= i < extents.len()
                && extents[i].file is Some,
        forall|a: int, b: int|
            0 <= a < b < flush_order(extents, from).len() ==> flush_order(extents, from)[a]
                < flush_order(extents, from)[b],
    decreases extents.len() - from,
{
    lemma_next_open(extents, from);
    let order = flush_order(extents, from);
    match next_open(extents, from) {
        Some(k) => {
            let rest = flush_order(extents, k + 1);
            law_flush_reaches_every_open_file(extents, k + 1);
            assert(order =~= seq![k] + rest);
            assert forall|i: int|
                order.contains(i) <==> from <= i < extents.len() && extents[i].file is Some by {
                if order.contains(i) {
                    let a = order.index_of(i);
                    if a > 0 {
                        assert(rest[a - 1] == i);
                        assert(rest.contains(i));
                    }
                }
                if from <= i < extents.len() && extents[i].file is Some {
                    if i == k {
                        assert(order[0] == i);
                    } else {
                        assert(rest.contains(i));
                        let a = rest.index_of(i);
                        assert(order[a + 1] == i);
                    }
                }
            }
            assert forall|a: int, b: int| 0 <= a < b < order.len() implies order[a] < order[b] by {
                assert(rest[b - 1] == order[b]);
                assert(rest.contains(order[b]));
                if a > 0 {
                    assert(rest[a - 1] == order[a]);
                }
            }
        },
        None => {},
    }
}

/// What can happen to the completions that wait.
pub enum QueueStep<Op> {
    /// A data operation was completed.
    Completed { user_data: u64, operation: Op, bytes: usize },
    /// A flush went through to its end.
    Flushed { tag: Option<u64> },
    /// The next completion was asked for.
    Fetched,
    /// A request failed, or is still on its way.
    Other,
}

/// The completion that a step files, if any.
pub open spec fn step_files<Op>(step: QueueStep<Op>) -> Seq<AsyncIoCompletion<Op>> {
    match step {
        QueueStep::Completed { user_data, operation, bytes } => seq![
            AsyncIoCompletion { user_data, result: bytes as i32, operation: Some(operation) },
        ],
        QueueStep::Flushed { tag } => flush_completed(Seq::empty(), tag),
        QueueStep::Fetched => Seq::empty(),
        QueueStep::Other => Seq::empty(),
    }
}

/// The completions that wait after a step.
pub open spec fn after_step<Op>(
    waiting: Seq<AsyncIoCompletion<Op>>,
    step: QueueStep<Op>,
) -> Seq<AsyncIoCompletion<Op>> {
    match step {
        QueueStep::Completed { user_data, operation, bytes } => waiting.push(
            AsyncIoCompletion { user_data, result: bytes as i32, operation: Some(operation) },
        ),
        QueueStep::Flushed { tag } => flush_completed(waiting, tag),
        QueueStep::Fetched => if waiting.len() > 0 {
            waiting.skip(1)
        } else {
            waiting
        },
        QueueStep::Other => waiting,
    }
}

/// The completion that a step hands out, if any.
pub open spec fn step_hands_out<Op>(
    waiting: Seq<AsyncIoCompletion<Op>>,
    step: QueueStep<Op>,
) -> Seq<AsyncIoCompletion<Op>> {
    if step is Fetched && waiting.len() > 0 {
        seq![waiting[0]]
    } else {
        Seq::empty()
    }
}

/// The completions that a row of steps files, in their order.
pub open spec fn filed<Op>(steps: Seq<QueueStep<Op>>) -> Seq<AsyncIoCompletion<Op>>
    decreases steps.len(),
{
    if steps.len() == 0 {
        Seq::empty()
    } else {
        filed(steps.drop_last()) + step_files(steps.last())
    }
}

/// The completions that wait after a row of steps.
pub open spec fn after_steps<Op>(
    waiting: Seq<AsyncIoCompletion<Op>>,
    steps: Seq<QueueStep<Op>>,
) -> Seq<AsyncIoCompletion<Op>>
    decreases steps.len(),
{
    if steps.len() == 0 {
        waiting
    } else {
        after_step(after_steps(waiting, steps.drop_last()), steps.last())
    }
}

/// The completions that a row of steps hands out, in their order.
pub open spec fn handed_out<Op>(
    waiting: Seq<AsyncIoCompletion<Op>>,
    steps: Seq<QueueStep<Op>>,
) -> Seq<AsyncIoCompletion<Op>>
    decreases steps.len(),
{
    if steps.len() == 0 {
        Seq::empty()
    } else {
        handed_out(waiting, steps.drop_last()) + step_hands_out(
            after_steps(waiting, steps.drop_last()),
            steps.last(),
        )
    }
}

/// Over any row of steps, completions are handed out first in, first out: those handed out and
/// those that still wait are, one behind the other, those that waited at the beginning and those
/// that were filed since.
pub proof fn law_completions_keep_their_order<Op>(
    waiting: Seq<AsyncIoCompletion<Op>>,
    steps: Seq<QueueStep<Op>>,
)
    ensures
        handed_out(waiting, steps) + after_steps(waiting, steps) == waiting + filed(steps),
    decreases steps.len(),
{
    if steps.len() > 0 {
        let before = steps.drop_last();
        let step = steps.last();
        let left = after_steps(waiting, before);
        law_completions_keep_their_order(waiting, before);
        assert(step_hands_out(left, step) + after_step(left, step) =~= left + step_files(step));
        assert(handed_out(waiting, steps) + after_steps(waiting, steps) =~= handed_out(
            waiting,
            before,
        ) + (step_hands_out(left, step) + after_step(left, step)));
        assert(handed_out(waiting, before) + (left + step_files(step)) =~= (handed_out(
            waiting,
            before,
        ) + left) + step_files(step));
        assert(waiting + filed(before) + step_files(step) =~= waiting + filed(steps));
    } else {
        assert(handed_out(waiting, steps) + after_steps(waiting, steps) =~= waiting + filed(steps));
    }
}

/// Of a new worker, the next completion is there if and only if more were filed than were handed
/// out, and it is the first of those filed that was not handed out. Failed requests and flushes
/// without a tag file none.
pub proof fn law_next_completion_is_the_first_left<Op>(steps: Seq<QueueStep<Op>>)
    ensures
        ({
            let none = Seq::<AsyncIoCompletion<Op>>::empty();
            let m = handed_out(none, steps).len();
            let left = after_steps(none, steps);
            &&& m <= filed(steps).len()
            &&& handed_out(none, steps) == filed(steps).take(m as int)
            &&& left == filed(steps).skip(m as int)
            &&& left.len() > 0 <==> m < filed(steps).len()
            &&& left.len() > 0 ==> left[0] == filed(steps)[m as int]
        }),
{
    let none = Seq::<AsyncIoCompletion<Op>>::empty();
    let out = handed_out(none, steps);
    let left = after_steps(none, steps);
    law_completions_keep_their_order(none, steps);
    assert(none + filed(steps) =~= filed(steps));
    assert(out + left == filed(steps));
    assert((out + left).take(out.len() as int) =~= out);
    assert((out + left).skip(out.len() as int) =~= left);
}

/// A flush that is through with the tag `tag`, whatever the tag is, files one completion behind
/// those that wait: with that tag, the result 0 and no operation. Without a tag it files none.
pub proof fn law_flush_files_its_completion<Op>(waiting: Seq<AsyncIoCompletion<Op>>, tag: u64)
    ensures
        flush_completed(waiting, Some(tag)).len() == waiting.len() + 1,
        flush_completed(waiting, Some(tag)).drop_last() == waiting,
        flush_completed(waiting, Some(tag)).last().user_data == tag,
        flush_completed(waiting, Some(tag)).last().result == 0,
        flush_completed(waiting, Some(tag)).last().operation is None,
        flush_completed(waiting, None) == waiting,
{
    assert(flush_completed(waiting, Some(tag)).drop_last() =~= waiting);
}

/// Every completed operation files one completion, with its tag, its operation and its bytes, and
/// every flush that is through files one if it has a tag; nothing else files any.
pub proof fn law_what_each_step_files<Op>(step: QueueStep<Op>)
    ensures
        step_files(step).len() == if step is Completed || (step matches QueueStep::Flushed { tag }
            && tag is Some) {
            1nat
        } else {
            0nat
        },
        step matches QueueStep::Completed { user_data, operation, bytes } ==> {
            &&& step_files(step)[0].user_data == user_data
            &&& step_files(step)[0].operation == Some(operation)
            &&& step_files(step)[0].result == bytes as i32
        },
        step matches QueueStep::Flushed { tag: Some(tag) } ==> {
            &&& step_files(step)[0].user_data == tag
            &&& step_files(step)[0].operation is None
            &&& step_files(step)[0].result == 0
        },
{
}

/// The file that a flush goes to next is the first open one from there on: it is open, and none
/// before it is; there is none only if none is open.
pub proof fn law_next_open_file(extents: Seq<VmdkExtent>, from: int, i: int)
    requires
        0 <= from,
    ensures
        next_open(extents, from) == Some(i) <==> {
            &&& from <= i < extents.len()
            &&& extents[i].file is Some
            &&& forall|j: int| from <= j < i ==> (#[trigger] extents[j]).file is None
        },
        next_open(extents, from) is None <==> forall|j: int|
            from <= j < extents.len() ==> (#[trigger] extents[j]).file is None,
{
    lemma_next_open(extents, from);
    if let Some(k) = next_open(extents, from) {
        assert(extents[k].file is Some);
    }
}

/// A request that is not empty and lies within the disk is rejected with whatever the walk over its
/// range meets first, and with nothing else as long as its first extent has an open file.
pub proof fn law_rejected_as_the_walk_says(
    extents: Seq<VmdkExtent>,
    size: u64,
    op: AsyncIoOperation,
    i: int,
)
    requires
        op.total_len > 0,
        (op.offset as u64) + op.total_len <= size,
    ensures
        ({
            let start = (op.offset as u64) as int;
            let met = first_objection(extents, start, start + op.total_len, op.is_read);
            &&& met matches Some(e) ==> submission(extents, size, op) == Err::<
                Progress,
                AsyncIoError,
            >(
                if op.is_read {
                    AsyncIoError::ReadVectored(e)
                } else {
                    AsyncIoError::WriteVectored(e)
                },
            )
            &&& met is None && holder(extents, start) == Some(i) && extents[i].file is Some ==> (
            submission(extents, size, op) matches Ok(Progress::Pending(_)))
        }),
{
}

/// Every request that is empty or leaves the disk can be taken, and any other can if every extent
/// can take its part of the range.
pub proof fn law_what_can_be_served(extents: Seq<VmdkExtent>, size: u64, op: AsyncIoOperation)
    ensures
        op.total_len == 0 || (op.offset as u64) + op.total_len > size ==> serves(extents, size, op),
        (forall|i: int|
            0 <= i < extents.len() ==> (#[trigger] extents[i]).maps(
                (op.offset as u64) as int,
                (op.offset as u64) + op.total_len,
            )) ==> serves(extents, size, op),
{
}

} // verus!
