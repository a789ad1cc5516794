//! What requests do to the bytes of an image.
//!
//! A [`World`] holds the bytes of the backing files, of a request's buffers and of the staging
//! buffer. [`serve`] follows a request from its submission through any row of events, each with
//! the effect on those bytes of the action that it answers. The laws say what a guest can rely on.

use vstd::prelude::*;

use crate::error::{data_error, AsyncIoError, VmdkIoError};
use crate::extent::{
    are_disjoint, extents_map, first_objection, holder, lemma_first_objection_disjoint,
    lemma_holder_holds, lemma_holder_disjoint, objection, permitted, ExtentAccess, VmdkExtent,
};
use crate::transfer::{
    DataTransfer, IoAction, IoEvent, Phase, Progress, Segment, SegmentOutcome,
};
use crate::worker::{resumption, serves, submission, AsyncIoOperation};

verus! {

/// The bytes that a request can touch.
pub struct World {
    /// The bytes of the backing files, by extent and by position in the extent's file. No two
    /// extents share bytes of a file.
    pub files: spec_fn(int, int) -> u8,
    /// The bytes of the request's buffers.
    pub buffers: Seq<u8>,
    /// The bytes of the staging buffer, as far as it has been filled.
    pub staging: Seq<u8>,
}

/// `bytes` with `data` laid over it from `at` on.
pub open spec fn overlaid(bytes: Seq<u8>, at: int, data: Seq<u8>) -> Seq<u8> {
    Seq::new(
        bytes.len(),
        |i: int|
            if at <= i < at + data.len() {
                data[i - at]
            } else {
                bytes[i]
            },
    )
}

/// The `n` bytes of an extent's file from `offset` on.
pub open spec fn file_range(
    files: spec_fn(int, int) -> u8,
    extent: int,
    offset: int,
    n: nat,
) -> Seq<u8> {
    Seq::new(n, |i: int| files(extent, offset + i))
}

/// The files once `data` was written to an extent's file from `offset` on.
pub open spec fn file_written(
    files: spec_fn(int, int) -> u8,
    extent: int,
    offset: int,
    data: Seq<u8>,
) -> spec_fn(int, int) -> u8 {
    |e: int, p: int|
        if e == extent && offset <= p < offset + data.len() {
            data[p - offset]
        } else {
            files(e, p)
        }
}

/// The smaller of two numbers of bytes.
pub open spec fn at_most(n: usize, len: usize) -> nat {
    if n <= len {
        n as nat
    } else {
        len as nat
    }
}

/// What the action that `t` asks for does, when it is answered by `event`. A positioned call moves
/// no more bytes than the action says.
pub open spec fn effect(t: DataTransfer, w: World, event: IoEvent) -> World {
    match (t.spec_action(), event) {
        (IoAction::Vectored { extent, file_offset }, IoEvent::Moved(n)) => if t.is_read {
            World {
                buffers: overlaid(
                    w.buffers,
                    0,
                    file_range(w.files, extent as int, file_offset as int, n as nat),
                ),
                ..w
            }
        } else {
            World {
                files: file_written(
                    w.files,
                    extent as int,
                    file_offset as int,
                    w.buffers.take(n as int),
                ),
                ..w
            }
        },
        (IoAction::Fetch { buf_start, len }, IoEvent::Copied) => World {
            staging: w.buffers.subrange(buf_start as int, buf_start + len),
            ..w
        },
        (IoAction::ReadAt { extent, file_offset, from, len }, IoEvent::Moved(n)) => World {
            staging: w.staging.take(from as int) + file_range(
                w.files,
                extent as int,
                file_offset as int,
                at_most(n, len),
            ),
            ..w
        },
        (IoAction::WriteAt { extent, file_offset, from, len }, IoEvent::Moved(n)) => World {
            files: file_written(
                w.files,
                extent as int,
                file_offset as int,
                w.staging.subrange(from as int, from + at_most(n, len)),
            ),
            ..w
        },
        (IoAction::Deliver { buf_start, len }, IoEvent::Copied) => World {
            buffers: overlaid(w.buffers, buf_start as int, w.staging.take(len as int)),
            ..w
        },
        _ => w,
    }
}

/// No call moves more bytes than the action that `t` asks for says: a vectored one the bytes of the
/// request, a positioned one its `len`.
pub open spec fn within_bounds(t: DataTransfer, event: IoEvent) -> bool {
    match (t.spec_action(), event) {
        (IoAction::Vectored { .. }, IoEvent::Moved(n)) => n <= t.total,
        (IoAction::ReadAt { len, .. }, IoEvent::Moved(n)) => n <= len,
        (IoAction::WriteAt { len, .. }, IoEvent::Moved(n)) => n <= len,
        _ => true,
    }
}

/// On the way of `t` through `events`, no call moves more bytes than it was asked to.
pub open spec fn credible(
    extents: Seq<VmdkExtent>,
    t: DataTransfer,
    events: Seq<IoEvent>,
) -> bool
    decreases events.len(),
{
    events.len() > 0 ==> {
        &&& within_bounds(t, events[0])
        &&& resumption(extents, t, events[0]) matches Ok(Progress::Pending(next)) ==> credible(
            extents,
            next,
            events.drop_first(),
        )
    }
}

/// Where `t` stands after `events`, and what they did.
pub open spec fn run(
    extents: Seq<VmdkExtent>,
    t: DataTransfer,
    w: World,
    events: Seq<IoEvent>,
) -> (Result<Progress, VmdkIoError>, World)
    decreases events.len(),
{
    if events.len() == 0 {
        (Ok(Progress::Pending(t)), w)
    } else {
        let after = effect(t, w, events[0]);
        match resumption(extents, t, events[0]) {
            Ok(Progress::Pending(next)) => run(extents, next, after, events.drop_first()),
            outcome => (outcome, after),
        }
    }
}

/// Where virtual offset `v` lies: its extent, and its position in the extent's file.
pub open spec fn place(extents: Seq<VmdkExtent>, v: int) -> (int, int) {
    let i = holder(extents, v)->0;
    (i, extents[i].file_position(v))
}

/// The byte of the virtual disk at offset `v`.
pub open spec fn disk_byte(
    extents: Seq<VmdkExtent>,
    files: spec_fn(int, int) -> u8,
    v: int,
) -> u8 {
    let (e, p) = place(extents, v);
    files(e, p)
}

/// Position `(e, p)` of the files is that of one of the `k` bytes of the virtual disk from `start`
/// on.
pub open spec fn is_place_of(extents: Seq<VmdkExtent>, start: int, k: int, e: int, p: int) -> bool {
    exists|v: int| start <= v < start + k && #[trigger] place(extents, v) == (e, p)
}

/// From `before` to `after`, the `data.len()` bytes of the virtual disk from `start` on became
/// `data`, and no other byte of any file changed.
pub open spec fn disk_written(
    extents: Seq<VmdkExtent>,
    start: int,
    data: Seq<u8>,
    before: spec_fn(int, int) -> u8,
    after: spec_fn(int, int) -> u8,
) -> bool {
    &&& forall|v: int|
        start <= v < start + data.len() ==> #[trigger] disk_byte(extents, after, v) == data[v
            - start]
    &&& forall|e: int, p: int|
        !is_place_of(extents, start, data.len() as int, e, p) ==> #[trigger] after(e, p) == before(
            e,
            p,
        )
}

/// From `before` to `after`, the first `k` bytes of the buffers became those of the virtual disk
/// from `start` on, and the others did not change.
pub open spec fn buffers_filled(
    extents: Seq<VmdkExtent>,
    start: int,
    k: int,
    files: spec_fn(int, int) -> u8,
    before: Seq<u8>,
    after: Seq<u8>,
) -> bool {
    &&& after.len() == before.len()
    &&& forall|i: int|
        0 <= i < k ==> #[trigger] after[i] == disk_byte(extents, files, start + i)
    &&& forall|i: int| k <= i < after.len() ==> #[trigger] after[i] == before[i]
}

/// Within a segment, the bytes of the virtual disk lie one behind the other in the extent's file.
proof fn lemma_segment_places(extents: Seq<VmdkExtent>, t: DataTransfer, j: int)
    requires
        are_disjoint(extents),
        t.wf(extents),
        0 <= j < t.segment.len,
    ensures
        place(extents, t.start + t.segment.buf_start + j) == (
            t.segment.extent as int,
            t.segment.file_offset + j,
        ),
{
    lemma_holder_disjoint(
        extents,
        t.segment.extent as int,
        t.start + t.segment.buf_start + j,
    );
}

/// A request goes on where it should, and stays the same request.
proof fn lemma_resumption_wf(extents: Seq<VmdkExtent>, t: DataTransfer, event: IoEvent)
    requires
        extents_map(extents, t.start as int, t.start + t.total),
        extents.len() <= usize::MAX,
        t.wf(extents),
        within_bounds(t, event),
    ensures
        resumption(extents, t, event) matches Ok(Progress::Pending(next)) ==> {
            &&& next.wf(extents)
            &&& next.start == t.start
            &&& next.total == t.total
            &&& next.is_read == t.is_read
        },
{
    if let Ok(Progress::Pending(next)) = resumption(extents, t, event) {
        if let SegmentOutcome::Finished(n) = t.segment_outcome(event) {
            let v = t.start + t.segment.buf_start + n;
            lemma_holder_holds(extents, v);
            assert(extents[holder(extents, v)->0].maps(t.start as int, t.start + t.total));
        }
    }
}

/// What holds of a write on its way.
spec fn writing(extents: Seq<VmdkExtent>, t: DataTransfer, w: World, w0: World) -> bool {
    &&& !t.is_read
    &&& t.wf(extents)
    &&& w.buffers == w0.buffers
    &&& w.buffers.len() == t.total
    &&& disk_written(
        extents,
        t.start as int,
        w.buffers.take(t.segment.buf_start + t.moved),
        w0.files,
        w.files,
    )
    &&& t.phase == Phase::Transfer ==> w.staging == w.buffers.subrange(
        t.segment.buf_start as int,
        t.segment.buf_start + t.segment.len,
    )
}

/// From `w0` to `w`, a write put some first part of its buffers on the virtual disk, from `start`
/// on, and changed no other byte of any file; if it finished with `bytes` bytes, it put exactly the
/// first `bytes` bytes there.
pub open spec fn written<E>(
    extents: Seq<VmdkExtent>,
    start: int,
    w0: World,
    outcome: Result<Progress, E>,
    w: World,
) -> bool {
    &&& w.buffers == w0.buffers
    &&& exists|k: int|
        0 <= k <= w0.buffers.len() && #[trigger] disk_written(
            extents,
            start,
            w0.buffers.take(k),
            w0.files,
            w.files,
        )
    &&& outcome matches Ok(Progress::Finished(bytes)) ==> {
        &&& bytes <= w0.buffers.len()
        &&& disk_written(extents, start, w0.buffers.take(bytes as int), w0.files, w.files)
    }
}

/// Writing to a segment's file what comes next of the data extends what was written.
proof fn lemma_extend_written(
    extents: Seq<VmdkExtent>,
    t: DataTransfer,
    data: Seq<u8>,
    k: int,
    n: int,
    before: spec_fn(int, int) -> u8,
    files: spec_fn(int, int) -> u8,
)
    requires
        are_disjoint(extents),
        t.wf(extents),
        t.segment.buf_start <= k,
        0 <= n,
        k + n <= t.segment.buf_start + t.segment.len,
        data.len() == t.total,
        disk_written(extents, t.start as int, data.take(k), before, files),
    ensures
        disk_written(
            extents,
            t.start as int,
            data.take(k + n),
            before,
            file_written(
                files,
                t.segment.extent as int,
                t.segment.file_offset + (k - t.segment.buf_start),
                data.subrange(k, k + n),
            ),
        ),
{
    let start = t.start as int;
    let base = start + t.segment.buf_start;
    let offset = t.segment.file_offset + (k - t.segment.buf_start);
    let after = file_written(files, t.segment.extent as int, offset, data.subrange(k, k + n));
    assert forall|v: int| start <= v < start + k + n implies #[trigger] disk_byte(
        extents,
        after,
        v,
    ) == data[v - start] by {
        if v >= start + k {
            lemma_segment_places(extents, t, v - base);
        } else {
            assert(disk_byte(extents, files, v) == data.take(k)[v - start]);
            let (e, p) = place(extents, v);
            if e == t.segment.extent && offset <= p < offset + n {
                // The place is also that of an offset behind `v`.
                lemma_segment_places(extents, t, p - t.segment.file_offset);
            }
        }
    }
    assert forall|e: int, p: int| !is_place_of(extents, start, k + n, e, p) implies #[trigger] after(
        e,
        p,
    ) == before(e, p) by {
        if e == t.segment.extent && offset <= p < offset + n {
            let v = base + (p - t.segment.file_offset);
            lemma_segment_places(extents, t, p - t.segment.file_offset);
            assert(place(extents, v) == (e, p));
        }
        if is_place_of(extents, start, k, e, p) {
            let v = choose|v: int| start <= v < start + k && #[trigger] place(extents, v) == (e, p);
            assert(start <= v < start + k + n);
        }
        assert(files(e, p) == before(e, p));
    }
}

/// One step of a write.
proof fn lemma_write_step(
    extents: Seq<VmdkExtent>,
    t: DataTransfer,
    w: World,
    w0: World,
    event: IoEvent,
)
    requires
        extents_map(extents, t.start as int, t.start + t.total),
        extents.len() <= usize::MAX,
        are_disjoint(extents),
        writing(extents, t, w, w0),
        within_bounds(t, event),
    ensures
        match resumption(extents, t, event) {
            Ok(Progress::Pending(next)) => writing(extents, next, effect(t, w, event), w0),
            outcome => written(extents, t.start as int, w0, outcome, effect(t, w, event)),
        },
{
    lemma_resumption_wf(extents, t, event);
    let done = t.segment.buf_start + t.moved;
    let data = w.buffers;
    let after = effect(t, w, event);
    assert(extents[t.segment.extent as int].maps(t.start as int, t.start + t.total));
    match (t.phase, event) {
        (Phase::Vectored, IoEvent::Moved(n)) => {
            lemma_extend_written(extents, t, data, 0, n as int, w0.files, w.files);
            assert(data.subrange(0, n as int) =~= data.take(n as int));
            assert(disk_written(extents, t.start as int, data.take(n as int), w0.files, after.files));
        },
        (Phase::Transfer, IoEvent::Moved(n)) => {
            lemma_extend_written(extents, t, data, done, n as int, w0.files, w.files);
            assert(w.staging.subrange(t.moved as int, t.moved + n) =~= data.subrange(
                done,
                done + n,
            ));
            assert(disk_written(extents, t.start as int, data.take(done + n), w0.files, after.files));
        },
        _ => {
            assert(after.files == w.files);
            assert(after.buffers == w.buffers);
            assert(disk_written(extents, t.start as int, data.take(done), w0.files, after.files));
        },
    }
}

/// A write on its way, followed through any row of events.
proof fn lemma_write_run(
    extents: Seq<VmdkExtent>,
    t: DataTransfer,
    w: World,
    w0: World,
    events: Seq<IoEvent>,
)
    requires
        extents_map(extents, t.start as int, t.start + t.total),
        extents.len() <= usize::MAX,
        are_disjoint(extents),
        writing(extents, t, w, w0),
        credible(extents, t, events),
    ensures
        ({
            let (outcome, after) = run(extents, t, w, events);
            written(extents, t.start as int, w0, outcome, after)
        }),
    decreases events.len(),
{
    if events.len() > 0 {
        lemma_write_step(extents, t, w, w0, events[0]);
        if let Ok(Progress::Pending(next)) = resumption(extents, t, events[0]) {
            lemma_resumption_wf(extents, t, events[0]);
            lemma_write_run(
                extents,
                next,
                effect(t, w, events[0]),
                w0,
                events.drop_first(),
            );
        }
    }
}

/// What holds of a read on its way.
spec fn reading(extents: Seq<VmdkExtent>, t: DataTransfer, w: World, w0: World) -> bool {
    &&& t.is_read
    &&& t.wf(extents)
    &&& w.files == w0.files
    &&& w.buffers.len() == t.total
    &&& buffers_filled(
        extents,
        t.start as int,
        t.segment.buf_start as int,
        w0.files,
        w0.buffers,
        w.buffers,
    )
    &&& t.moved <= w.staging.len() || t.moved == 0
    &&& forall|j: int|
        0 <= j < t.moved ==> #[trigger] w.staging[j] == disk_byte(
            extents,
            w0.files,
            t.start + t.segment.buf_start + j,
        )
}

/// From `w0` to `w`, a read put some first part of the virtual disk's bytes from `start` on at the
/// front of its buffers, left the rest of them alone and changed no file; if it finished with
/// `bytes` bytes, it put exactly `bytes` bytes there.
pub open spec fn filled<E>(
    extents: Seq<VmdkExtent>,
    start: int,
    w0: World,
    outcome: Result<Progress, E>,
    w: World,
) -> bool {
    &&& w.files == w0.files
    &&& exists|k: int|
        0 <= k <= w0.buffers.len() && #[trigger] buffers_filled(
            extents,
            start,
            k,
            w0.files,
            w0.buffers,
            w.buffers,
        )
    &&& outcome matches Ok(Progress::Finished(bytes)) ==> {
        &&& bytes <= w0.buffers.len()
        &&& buffers_filled(extents, start, bytes as int, w0.files, w0.buffers, w.buffers)
    }
}

/// One step of a read.
proof fn lemma_read_step(
    extents: Seq<VmdkExtent>,
    t: DataTransfer,
    w: World,
    w0: World,
    event: IoEvent,
)
    requires
        extents_map(extents, t.start as int, t.start + t.total),
        extents.len() <= usize::MAX,
        are_disjoint(extents),
        reading(extents, t, w, w0),
        within_bounds(t, event),
    ensures
        match resumption(extents, t, event) {
            Ok(Progress::Pending(next)) => reading(extents, next, effect(t, w, event), w0),
            outcome => filled(extents, t.start as int, w0, outcome, effect(t, w, event)),
        },
{
    lemma_resumption_wf(extents, t, event);
    let start = t.start as int;
    let buf_start = t.segment.buf_start as int;
    let after = effect(t, w, event);
    assert(extents[t.segment.extent as int].maps(t.start as int, t.start + t.total));
    match (t.phase, event) {
        (Phase::Vectored, IoEvent::Moved(n)) => {
            assert forall|i: int| 0 <= i < n implies #[trigger] after.buffers[i] == disk_byte(
                extents,
                w0.files,
                start + i,
            ) by {
                lemma_segment_places(extents, t, i);
            }
            assert(buffers_filled(extents, start, n as int, w0.files, w0.buffers, after.buffers));
        },
        (Phase::Transfer, IoEvent::Moved(n)) => {
            assert forall|j: int| 0 <= j < t.moved + n implies #[trigger] after.staging[j]
                == disk_byte(extents, w0.files, start + buf_start + j) by {
                if j < t.moved {
                    assert(after.staging[j] == w.staging[j]);
                } else {
                    lemma_segment_places(extents, t, j);
                }
            }
        },
        (Phase::Deliver, IoEvent::Copied) => {
            let k = buf_start + t.moved;
            assert forall|i: int| 0 <= i < k implies #[trigger] after.buffers[i] == disk_byte(
                extents,
                w0.files,
                start + i,
            ) by {
                if i < buf_start {
                    assert(w.buffers[i] == disk_byte(extents, w0.files, start + i));
                } else {
                    assert(w.staging[i - buf_start] == disk_byte(
                        extents,
                        w0.files,
                        start + buf_start + (i - buf_start),
                    ));
                }
            }
            assert(buffers_filled(extents, start, k, w0.files, w0.buffers, after.buffers));
        },
        _ => {
            assert(after == w);
            assert(buffers_filled(extents, start, buf_start, w0.files, w0.buffers, after.buffers));
        },
    }
}

/// A read on its way, followed through any row of events.
proof fn lemma_read_run(
    extents: Seq<VmdkExtent>,
    t: DataTransfer,
    w: World,
    w0: World,
    events: Seq<IoEvent>,
)
    requires
        extents_map(extents, t.start as int, t.start + t.total),
        extents.len() <= usize::MAX,
        are_disjoint(extents),
        reading(extents, t, w, w0),
        credible(extents, t, events),
    ensures
        ({
            let (outcome, after) = run(extents, t, w, events);
            filled(extents, t.start as int, w0, outcome, after)
        }),
    decreases events.len(),
{
    if events.len() > 0 {
        lemma_read_step(extents, t, w, w0, events[0]);
        if let Ok(Progress::Pending(next)) = resumption(extents, t, events[0]) {
            lemma_resumption_wf(extents, t, events[0]);
            lemma_read_run(extents, next, effect(t, w, events[0]), w0, events.drop_first());
        }
    } else {
        assert(buffers_filled(
            extents,
            t.start as int,
            t.segment.buf_start as int,
            w0.files,
            w0.buffers,
            w.buffers,
        ));
    }
}

/// Where the request `op` stands after its submission and `events`, and what they did.
pub open spec fn serve(
    extents: Seq<VmdkExtent>,
    size: u64,
    op: AsyncIoOperation,
    w: World,
    events: Seq<IoEvent>,
) -> (Result<Progress, AsyncIoError>, World) {
    match submission(extents, size, op) {
        Ok(Progress::Pending(t)) => {
            let (outcome, after) = run(extents, t, w, events);
            (
                match outcome {
                    Ok(progress) => Ok(progress),
                    Err(e) => Err(data_error(e, op.is_read)),
                },
                after,
            )
        },
        outcome => (outcome, w),
    }
}

/// The image and the request are as a worker meets them: the extents are disjoint and can take the
/// request, the buffers hold as many bytes as the request has, and no call moves more bytes than it
/// was asked to.
pub open spec fn well_posed(
    extents: Seq<VmdkExtent>,
    size: u64,
    op: AsyncIoOperation,
    w: World,
    events: Seq<IoEvent>,
) -> bool {
    &&& serves(extents, size, op)
    &&& extents.len() <= usize::MAX
    &&& are_disjoint(extents)
    &&& w.buffers.len() == op.total_len
    &&& submission(extents, size, op) matches Ok(Progress::Pending(t)) ==> credible(
        extents,
        t,
        events,
    )
}

/// The transfer that a submission leads to is well-formed, and stands at the request's first byte.
proof fn lemma_submission_wf(extents: Seq<VmdkExtent>, size: u64, op: AsyncIoOperation)
    requires
        serves(extents, size, op),
        extents.len() <= usize::MAX,
    ensures
        submission(extents, size, op) matches Ok(Progress::Pending(t)) ==> {
            &&& t.wf(extents)
            &&& t.start == op.offset as u64
            &&& t.total == op.total_len
            &&& t.is_read == op.is_read
            &&& t.segment.buf_start == 0
            &&& t.moved == 0
        },
{
    let start = (op.offset as u64) as int;
    lemma_holder_holds(extents, start);
}

/// A write that finishes with `bytes` bytes has put exactly the first `bytes` bytes of its buffers
/// on the virtual disk, from its offset on, and changed no other byte of any file. However else it
/// ends, what it changed is some such first part.
pub proof fn law_write_lands(
    extents: Seq<VmdkExtent>,
    size: u64,
    op: AsyncIoOperation,
    w: World,
    events: Seq<IoEvent>,
)
    requires
        !op.is_read,
        well_posed(extents, size, op, w, events),
    ensures
        ({
            let (outcome, after) = serve(extents, size, op, w, events);
            written(extents, (op.offset as u64) as int, w, outcome, after)
        }),
{
    let start = (op.offset as u64) as int;
    lemma_submission_wf(extents, size, op);
    assert(disk_written(extents, start, w.buffers.take(0), w.files, w.files));
    if let Ok(Progress::Pending(t)) = submission(extents, size, op) {
        lemma_write_run(extents, t, w, w, events);
    }
}

/// A read that finishes with `bytes` bytes has put the `bytes` bytes of the virtual disk from its
/// offset on at the front of its buffers, left the rest of them alone, and changed no file.
/// However else it ends, what it filled is some such first part.
pub proof fn law_read_returns_disk_bytes(
    extents: Seq<VmdkExtent>,
    size: u64,
    op: AsyncIoOperation,
    w: World,
    events: Seq<IoEvent>,
)
    requires
        op.is_read,
        well_posed(extents, size, op, w, events),
    ensures
        ({
            let (outcome, after) = serve(extents, size, op, w, events);
            filled(extents, (op.offset as u64) as int, w, outcome, after)
        }),
{
    let start = (op.offset as u64) as int;
    lemma_submission_wf(extents, size, op);
    assert(buffers_filled(extents, start, 0, w.files, w.buffers, w.buffers));
    if let Ok(Progress::Pending(t)) = submission(extents, size, op) {
        lemma_read_run(extents, t, w, w, events);
    }
}

/// A read gives back what a write of the same range wrote, whichever way the two were cut into
/// segments and short transfers.
pub proof fn law_read_after_write(
    extents: Seq<VmdkExtent>,
    size: u64,
    write: AsyncIoOperation,
    read: AsyncIoOperation,
    w: World,
    write_events: Seq<IoEvent>,
    buffers: Seq<u8>,
    staging: Seq<u8>,
    read_events: Seq<IoEvent>,
)
    requires
        !write.is_read,
        read.is_read,
        read.offset == write.offset,
        read.total_len == write.total_len,
        well_posed(extents, size, write, w, write_events),
        well_posed(extents, size, read, World { buffers, staging, ..w }, read_events),
    ensures
        ({
            let (wrote, written) = serve(extents, size, write, w, write_events);
            let (got, after) = serve(
                extents,
                size,
                read,
                World { files: written.files, buffers, staging },
                read_events,
            );
            wrote == Ok::<Progress, AsyncIoError>(Progress::Finished(write.total_len)) && got == Ok::<
                Progress,
                AsyncIoError,
            >(Progress::Finished(read.total_len)) ==> after.buffers == w.buffers
        }),
{
    let start = (write.offset as u64) as int;
    let total = write.total_len as int;
    let (wrote, written) = serve(extents, size, write, w, write_events);
    let w1 = World { files: written.files, buffers, staging };
    let (got, after) = serve(extents, size, read, w1, read_events);
    law_write_lands(extents, size, write, w, write_events);
    law_read_returns_disk_bytes(extents, size, read, w1, read_events);
    if wrote == Ok::<Progress, AsyncIoError>(Progress::Finished(write.total_len)) && got == Ok::<
        Progress,
        AsyncIoError,
    >(Progress::Finished(read.total_len)) {
        assert forall|i: int| 0 <= i < total implies after.buffers[i] == w.buffers[i] by {
            assert(after.buffers[i] == disk_byte(extents, written.files, start + i));
            assert(disk_byte(extents, written.files, start + i) == w.buffers.take(total)[start + i
                - start]);
        }
        assert(after.buffers =~= w.buffers);
    }
}

/// A write, however it ends, leaves every byte of the virtual disk outside its range as it was.
pub proof fn law_write_leaves_the_rest(
    extents: Seq<VmdkExtent>,
    size: u64,
    op: AsyncIoOperation,
    w: World,
    events: Seq<IoEvent>,
    v: int,
)
    requires
        !op.is_read,
        well_posed(extents, size, op, w, events),
        holder(extents, v) is Some,
        v < op.offset as u64 || v >= (op.offset as u64) + op.total_len,
    ensures
        disk_byte(extents, serve(extents, size, op, w, events).1.files, v) == disk_byte(
            extents,
            w.files,
            v,
        ),
{
    let start = (op.offset as u64) as int;
    let after = serve(extents, size, op, w, events).1;
    law_write_lands(extents, size, op, w, events);
    let k = choose|k: int|
        0 <= k <= w.buffers.len() && #[trigger] disk_written(
            extents,
            start,
            w.buffers.take(k),
            w.files,
            after.files,
        );
    let (e, p) = place(extents, v);
    if submission(extents, size, op) matches Ok(Progress::Pending(_)) {
        lemma_first_objection_disjoint(extents, start, start + op.total_len, false);
        if is_place_of(extents, start, k, e, p) {
            let u = choose|u: int| start <= u < start + k && #[trigger] place(extents, u) == (e, p);
            assert(permitted(extents, u, false));
            law_places_are_distinct(extents, v, u);
        }
        assert((after.files)(e, p) == (w.files)(e, p));
    }
}

/// Two offsets of the virtual disk that lie in extents never share a place.
pub proof fn law_places_are_distinct(extents: Seq<VmdkExtent>, v: int, u: int)
    requires
        holder(extents, v) is Some,
        holder(extents, u) is Some,
        v != u,
    ensures
        place(extents, v) != place(extents, u),
{
}

/// A request that an extent within its range forbids -- any request to one without access, a write
/// to a read-only one -- is rejected, before it changes anything.
pub proof fn law_forbidden_is_rejected(
    extents: Seq<VmdkExtent>,
    size: u64,
    op: AsyncIoOperation,
    w: World,
    events: Seq<IoEvent>,
    v: int,
)
    requires
        are_disjoint(extents),
        op.offset as u64 <= v < (op.offset as u64) + op.total_len,
        holder(extents, v) matches Some(i) && {
            ||| extents[i].access == ExtentAccess::NoAccess
            ||| extents[i].access == ExtentAccess::ReadOnly && !op.is_read
        },
    ensures
        submission(extents, size, op) is Err,
        serve(extents, size, op, w, events) == (submission(extents, size, op), w),
{
    let start = (op.offset as u64) as int;
    lemma_first_objection_disjoint(extents, start, start + op.total_len, op.is_read);
    assert(!permitted(extents, v, op.is_read));
}

/// The rejection names the lowest offset of the request against which there is an objection.
pub proof fn law_rejection_names_lowest_offset(
    extents: Seq<VmdkExtent>,
    size: u64,
    op: AsyncIoOperation,
    v: int,
)
    requires
        are_disjoint(extents),
        (op.offset as u64) + op.total_len <= size,
        op.offset as u64 <= v < (op.offset as u64) + op.total_len,
        objection(extents, v, op.is_read) is Some,
        forall|u: int| op.offset as u64 <= u < v ==> #[trigger] permitted(extents, u, op.is_read),
    ensures
        submission(extents, size, op) == Err::<Progress, AsyncIoError>(
            data_error(objection(extents, v, op.is_read)->0, op.is_read),
        ),
{
    let start = (op.offset as u64) as int;
    let end = start + op.total_len;
    lemma_first_objection_disjoint(extents, start, end, op.is_read);
    assert(!permitted(extents, v, op.is_read));
    let e = first_objection(extents, start, end, op.is_read)->0;
    let u = choose|u: int|
        {
            &&& start <= u < end
            &&& #[trigger] objection(extents, u, op.is_read) == Some(e)
            &&& forall|x: int| start <= x < u ==> #[trigger] permitted(extents, x, op.is_read)
        };
    assert(!permitted(extents, u, op.is_read));
}

/// Of an accepted request, no segment ever touches an extent that forbids the operation.
pub proof fn law_segments_are_permitted(
    extents: Seq<VmdkExtent>,
    size: u64,
    op: AsyncIoOperation,
    t: DataTransfer,
)
    requires
        are_disjoint(extents),
        submission(extents, size, op) is Ok,
        t.wf(extents),
        t.start == op.offset as u64,
        t.total == op.total_len,
        t.is_read == op.is_read,
    ensures
        extents[t.segment.extent as int].permits(op.is_read),
{
    let start = (op.offset as u64) as int;
    lemma_first_objection_disjoint(extents, start, start + op.total_len, op.is_read);
    assert(permitted(extents, start + t.segment.buf_start, op.is_read));
}

/// An accepted request never runs off its extents on its way.
pub proof fn law_accepted_stays_inside(
    extents: Seq<VmdkExtent>,
    size: u64,
    op: AsyncIoOperation,
    t: DataTransfer,
    event: IoEvent,
)
    requires
        are_disjoint(extents),
        submission(extents, size, op) is Ok,
        t.wf(extents),
        within_bounds(t, event),
        t.start == op.offset as u64,
        t.total == op.total_len,
        t.is_read == op.is_read,
    ensures
        resumption(extents, t, event) != Err::<Progress, VmdkIoError>(VmdkIoError::OutsideExtents),
{
    let start = (op.offset as u64) as int;
    lemma_first_objection_disjoint(extents, start, start + op.total_len, op.is_read);
    if let SegmentOutcome::Finished(n) = t.segment_outcome(event) {
        let done = t.segment.buf_start + n;
        if done < op.total_len {
            assert(permitted(extents, start + done, op.is_read));
        }
    }
}

/// On a disk whose extents cover it, a request within the disk is never refused for lying outside
/// the extents.
pub proof fn law_covered_disk_has_no_gaps(
    extents: Seq<VmdkExtent>,
    size: u64,
    op: AsyncIoOperation,
)
    requires
        are_disjoint(extents),
        forall|v: int| 0 <= v < size ==> #[trigger] holder(extents, v) is Some,
    ensures
        submission(extents, size, op) != Err::<Progress, AsyncIoError>(
            data_error(VmdkIoError::OutsideExtents, op.is_read),
        ),
{
    let start = (op.offset as u64) as int;
    let end = start + op.total_len;
    if end <= size && op.total_len > 0 {
        lemma_first_objection_disjoint(extents, start, end, op.is_read);
        if let Some(e) = first_objection(extents, start, end, op.is_read) {
            let v = choose|v: int|
                {
                    &&& start <= v < end
                    &&& #[trigger] objection(extents, v, op.is_read) == Some(e)
                    &&& forall|u: int| start <= u < v ==> #[trigger] permitted(
                        extents,
                        u,
                        op.is_read,
                    )
                };
            assert(holder(extents, v) is Some);
        } else {
            assert(holder(extents, start) is Some);
        }
    }
}

/// With a single extent, as `monolithicFlat` has, no request is ever split: it is moved as one
/// segment, and without a copy where the extent is buffered.
pub proof fn law_single_extent_is_never_split(
    extents: Seq<VmdkExtent>,
    size: u64,
    op: AsyncIoOperation,
)
    requires
        serves(extents, size, op),
        extents.len() == 1,
    ensures
        submission(extents, size, op) matches Ok(Progress::Pending(t)) ==> {
            &&& t.segment.extent == 0
            &&& t.segment.len == op.total_len
            &&& t.phase == Phase::Vectored <==> extents[0].file->0.alignment == 0
        },
{
    let start = (op.offset as u64) as int;
    let end = start + op.total_len;
    lemma_submission_wf(extents, size, op);
    if let Ok(Progress::Pending(t)) = submission(extents, size, op) {
        lemma_first_objection_disjoint(extents, start, end, op.is_read);
        lemma_holder_holds(extents, end - 1);
        assert(permitted(extents, end - 1, op.is_read));
    }
}

/// Every request that does not lie within the virtual disk is rejected and changes nothing.
pub proof fn law_out_of_range_is_rejected(
    extents: Seq<VmdkExtent>,
    size: u64,
    op: AsyncIoOperation,
    w: World,
    events: Seq<IoEvent>,
)
    requires
        (op.offset as u64) + op.total_len > size,
    ensures
        serve(extents, size, op, w, events) == (
            Err::<Progress, AsyncIoError>(
                data_error(
                    VmdkIoError::ExceedsVirtualSize {
                        start: op.offset as u64,
                        total: op.total_len as u64,
                        size,
                    },
                    op.is_read,
                ),
            ),
            w,
        ),
{
}

/// A negative offset lies beyond every disk that a signed offset can address.
pub proof fn law_negative_offset_is_out_of_range(size: u64, op: AsyncIoOperation)
    requires
        op.offset < 0,
        size <= i64::MAX,
    ensures
        (op.offset as u64) + op.total_len > size,
{
    let offset = op.offset;
    assert(offset < 0 ==> offset as u64 > 0x7fff_ffff_ffff_ffff) by (bit_vector);
}

/// A staged request ends short only when a call moved nothing: at the end of a file.
pub proof fn law_short_only_at_end_of_file(
    extents: Seq<VmdkExtent>,
    t: DataTransfer,
    w: World,
    events: Seq<IoEvent>,
)
    requires
        extents_map(extents, t.start as int, t.start + t.total),
        extents.len() <= usize::MAX,
        t.wf(extents),
        credible(extents, t, events),
        t.phase == Phase::Fetch || t.phase == Phase::Transfer || t.phase == Phase::Deliver
            && t.moved == t.segment.len,
    ensures
        run(extents, t, w, events).0 matches Ok(Progress::Finished(bytes)) ==> bytes == t.total
            || events.contains(IoEvent::Moved(0)),
    decreases events.len(),
{
    if events.len() > 0 {
        lemma_resumption_wf(extents, t, events[0]);
        if events[0] == IoEvent::Moved(0) {
            assert(events.contains(IoEvent::Moved(0)));
        } else if let Ok(Progress::Pending(next)) = resumption(extents, t, events[0]) {
            let rest = events.drop_first();
            law_short_only_at_end_of_file(extents, next, effect(t, w, events[0]), rest);
            if rest.contains(IoEvent::Moved(0)) {
                let i = rest.index_of(IoEvent::Moved(0));
                assert(events[i + 1] == IoEvent::Moved(0));
            }
        }
    }
}

/// A request that lies within one extent that lets it through is accepted and moved as a whole: by
/// one vectored call without a copy where the extent's file is buffered, and staged where it was
/// opened for direct I/O.
pub proof fn law_request_within_one_extent(
    extents: Seq<VmdkExtent>,
    size: u64,
    op: AsyncIoOperation,
    i: int,
)
    requires
        extents.len() <= usize::MAX,
        holder(extents, (op.offset as u64) as int) == Some(i),
        (op.offset as u64) + op.total_len <= extents[i].virtual_start + extents[i].length,
        (op.offset as u64) + op.total_len <= size,
        op.total_len > 0,
        extents[i].permits(op.is_read),
        extents[i].file is Some,
    ensures
        ({
            let start = op.offset as u64;
            let segment = Segment {
                extent: i as usize,
                file_offset: (extents[i].file_base_offset + (start - extents[i].virtual_start)) as u64,
                buf_start: 0,
                len: op.total_len,
            };
            let staged = DataTransfer::staged(start, op.total_len, op.is_read, segment);
            submission(extents, size, op) == Ok::<Progress, AsyncIoError>(
                Progress::Pending(
                    if extents[i].file->0.alignment == 0 {
                        DataTransfer { phase: Phase::Vectored, ..staged }
                    } else {
                        staged
                    },
                ),
            )
        }),
{
    let start = (op.offset as u64) as int;
    lemma_holder_holds(extents, start);
    reveal_with_fuel(first_objection, 2);
}

/// How many answers a transfer can still take, interruptions aside.
pub open spec fn answers_left(t: DataTransfer) -> int {
    let bytes_left = t.total - t.segment.buf_start - t.moved;
    3 * bytes_left + match t.phase {
        Phase::Vectored => 0int,
        Phase::Fetch => 2,
        Phase::Transfer => 1,
        Phase::Deliver => if t.moved < t.segment.len {
            0
        } else {
            2
        },
    }
}

/// Every offset in `[start, end)` lies in an extent that lets the operation through and has an open
/// file.
pub open spec fn accessible(
    extents: Seq<VmdkExtent>,
    start: int,
    end: int,
    is_read: bool,
) -> bool {
    forall|v: int|
        start <= v < end ==> #[trigger] permitted(extents, v, is_read) && extents[holder(
            extents,
            v,
        )->0].file is Some
}

/// Nothing goes wrong with the action that `t` asks for: buffers are copied, a vectored call moves
/// the whole request, and a positioned call moves at least one byte where it was asked for any, or
/// is interrupted.
pub open spec fn goes_well(t: DataTransfer, event: IoEvent) -> bool {
    match t.spec_action() {
        IoAction::Vectored { .. } => event == IoEvent::Moved(t.total),
        IoAction::Fetch { .. } => event == IoEvent::Copied,
        IoAction::ReadAt { len, .. } => positioned_call_goes_well(len, event),
        IoAction::WriteAt { len, .. } => positioned_call_goes_well(len, event),
        IoAction::Deliver { .. } => event == IoEvent::Copied,
    }
}

/// A positioned call for at most `len` bytes moves at least one where it was asked for any, or is
/// interrupted.
pub open spec fn positioned_call_goes_well(len: usize, event: IoEvent) -> bool {
    event == IoEvent::Interrupted || (event matches IoEvent::Moved(n) && n <= len && (len > 0 ==> n
        > 0))
}

/// On the way of `t` through `events`, nothing goes wrong.
pub open spec fn unhindered(
    extents: Seq<VmdkExtent>,
    t: DataTransfer,
    events: Seq<IoEvent>,
) -> bool
    decreases events.len(),
{
    events.len() > 0 ==> {
        &&& goes_well(t, events[0])
        &&& resumption(extents, t, events[0]) matches Ok(Progress::Pending(next)) ==> unhindered(
            extents,
            next,
            events.drop_first(),
        )
    }
}

/// How many of the events are no interruptions.
pub open spec fn answers(events: Seq<IoEvent>) -> nat
    decreases events.len(),
{
    if events.len() == 0 {
        0
    } else {
        answers(events.drop_first()) + if events[0] == IoEvent::Interrupted {
            0nat
        } else {
            1nat
        }
    }
}

/// A row of events along which nothing goes wrong is a credible one.
proof fn lemma_unhindered_is_credible(
    extents: Seq<VmdkExtent>,
    t: DataTransfer,
    events: Seq<IoEvent>,
)
    requires
        extents_map(extents, t.start as int, t.start + t.total),
        extents.len() <= usize::MAX,
        t.wf(extents),
        unhindered(extents, t, events),
    ensures
        credible(extents, t, events),
    decreases events.len(),
{
    if events.len() > 0 {
        lemma_resumption_wf(extents, t, events[0]);
        if let Ok(Progress::Pending(next)) = resumption(extents, t, events[0]) {
            lemma_unhindered_is_credible(extents, next, events.drop_first());
        }
    }
}

/// A walk over offsets that are all let through meets no objection.
proof fn lemma_no_objection(extents: Seq<VmdkExtent>, cur: int, end: int, is_read: bool)
    requires
        forall|v: int| cur <= v < end ==> #[trigger] permitted(extents, v, is_read),
    ensures
        first_objection(extents, cur, end, is_read) is None,
    decreases
            if cur < end {
                end - cur
            } else {
                0
            },
{
    if cur < end {
        assert(permitted(extents, cur, is_read));
        lemma_holder_holds(extents, cur);
        lemma_no_objection(extents, extents[holder(extents, cur)->0].end(), end, is_read);
    }
}

/// A transfer along which nothing goes wrong never fails and never ends short, and ends once it has
/// had as many answers as it can take.
proof fn lemma_unhindered_run(
    extents: Seq<VmdkExtent>,
    t: DataTransfer,
    w: World,
    events: Seq<IoEvent>,
)
    requires
        extents_map(extents, t.start as int, t.start + t.total),
        extents.len() <= usize::MAX,
        t.wf(extents),
        t.phase == Phase::Deliver ==> t.moved == t.segment.len,
        accessible(extents, t.start as int, t.start + t.total, t.is_read),
        unhindered(extents, t, events),
    ensures
        match run(extents, t, w, events).0 {
            Ok(Progress::Finished(bytes)) => bytes == t.total,
            Ok(Progress::Pending(_)) => answers(events) < answers_left(t),
            Err(_) => false,
        },
    decreases events.len(),
{
    if events.len() > 0 {
        let event = events[0];
        lemma_resumption_wf(extents, t, event);
        if let SegmentOutcome::Finished(n) = t.segment_outcome(event) {
            let done = t.segment.buf_start + n;
            if done < t.total {
                assert(permitted(extents, t.start + done, t.is_read));
            }
        }
        if let Ok(Progress::Pending(next)) = resumption(extents, t, event) {
            if event != IoEvent::Interrupted {
                law_every_answer_makes_progress(extents, t, event);
            }
            lemma_unhindered_run(extents, next, effect(t, w, event), events.drop_first());
        }
    }
}

/// A request within the disk, to extents that let it through and have open files, along which
/// nothing goes wrong, never fails and never ends short: it ends with all its bytes moved, however
/// it is cut into segments and positioned calls, and it has ended at the latest after three answers
/// for each byte and two more.
pub proof fn law_unhindered_request_ends_whole(
    extents: Seq<VmdkExtent>,
    size: u64,
    op: AsyncIoOperation,
    w: World,
    events: Seq<IoEvent>,
)
    requires
        serves(extents, size, op),
        extents.len() <= usize::MAX,
        (op.offset as u64) + op.total_len <= size,
        accessible(
            extents,
            (op.offset as u64) as int,
            (op.offset as u64) + op.total_len,
            op.is_read,
        ),
        submission(extents, size, op) matches Ok(Progress::Pending(t)) ==> unhindered(
            extents,
            t,
            events,
        ),
    ensures
        match serve(extents, size, op, w, events).0 {
            Ok(Progress::Finished(bytes)) => bytes == op.total_len,
            Ok(Progress::Pending(_)) => answers(events) < 3 * op.total_len + 2,
            Err(_) => false,
        },
        answers(events) >= 3 * op.total_len + 2 ==> serve(extents, size, op, w, events).0 == Ok::<
            Progress,
            AsyncIoError,
        >(Progress::Finished(op.total_len)),
{
    let start = (op.offset as u64) as int;
    lemma_no_objection(extents, start, start + op.total_len, op.is_read);
    lemma_submission_wf(extents, size, op);
    if op.total_len > 0 {
        assert(permitted(extents, start, op.is_read));
    }
    if let Ok(Progress::Pending(t)) = submission(extents, size, op) {
        lemma_unhindered_run(extents, t, w, events);
    }
}

/// A read along which nothing goes wrong ends with all its bytes, and gives back what a write of
/// the same range wrote, whatever extent boundaries the range crosses.
pub proof fn law_unhindered_read_gives_back_the_write(
    extents: Seq<VmdkExtent>,
    size: u64,
    write: AsyncIoOperation,
    read: AsyncIoOperation,
    w: World,
    write_events: Seq<IoEvent>,
    buffers: Seq<u8>,
    staging: Seq<u8>,
    read_events: Seq<IoEvent>,
)
    requires
        !write.is_read,
        read.is_read,
        read.offset == write.offset,
        read.total_len == write.total_len,
        well_posed(extents, size, write, w, write_events),
        serve(extents, size, write, w, write_events).0 == Ok::<Progress, AsyncIoError>(
            Progress::Finished(write.total_len),
        ),
        buffers.len() == read.total_len,
        accessible(
            extents,
            (read.offset as u64) as int,
            (read.offset as u64) + read.total_len,
            true,
        ),
        submission(extents, size, read) matches Ok(Progress::Pending(t)) ==> unhindered(
            extents,
            t,
            read_events,
        ),
        answers(read_events) >= 3 * read.total_len + 2,
    ensures
        ({
            let written = serve(extents, size, write, w, write_events).1;
            let (got, after) = serve(
                extents,
                size,
                read,
                World { files: written.files, buffers, staging },
                read_events,
            );
            &&& got == Ok::<Progress, AsyncIoError>(Progress::Finished(read.total_len))
            &&& after.buffers == w.buffers
            &&& after.files == written.files
        }),
{
    let written = serve(extents, size, write, w, write_events).1;
    let before = World { files: written.files, buffers, staging };
    lemma_submission_wf(extents, size, read);
    if let Ok(Progress::Pending(t)) = submission(extents, size, read) {
        lemma_unhindered_is_credible(extents, t, read_events);
    }
    law_unhindered_request_ends_whole(extents, size, read, before, read_events);
    law_read_returns_disk_bytes(extents, size, read, before, read_events);
    law_read_after_write(
        extents,
        size,
        write,
        read,
        w,
        write_events,
        buffers,
        staging,
        read_events,
    );
}

/// Every answer but an interruption takes a request nearer to its end.
pub proof fn law_every_answer_makes_progress(
    extents: Seq<VmdkExtent>,
    t: DataTransfer,
    event: IoEvent,
)
    requires
        extents_map(extents, t.start as int, t.start + t.total),
        extents.len() <= usize::MAX,
        t.wf(extents),
        within_bounds(t, event),
        event != IoEvent::Interrupted,
    ensures
        resumption(extents, t, event) matches Ok(Progress::Pending(next)) ==> 0 <= answers_left(next)
            < answers_left(t),
{
    lemma_resumption_wf(extents, t, event);
}

/// Where the segment of `t` stands after `events`, and what they did.
pub open spec fn segment_run(t: DataTransfer, w: World, events: Seq<IoEvent>) -> (
    SegmentOutcome,
    World,
)
    decreases events.len(),
{
    if events.len() == 0 {
        (SegmentOutcome::Pending(t), w)
    } else {
        let after = effect(t, w, events[0]);
        match t.segment_outcome(events[0]) {
            SegmentOutcome::Pending(next) => segment_run(next, after, events.drop_first()),
            outcome => (outcome, after),
        }
    }
}

/// On the way of the segment of `t` through `events`, no call moves more bytes than it was asked to.
pub open spec fn segment_credible(t: DataTransfer, events: Seq<IoEvent>) -> bool
    decreases events.len(),
{
    events.len() > 0 ==> {
        &&& within_bounds(t, events[0])
        &&& t.segment_outcome(events[0]) matches SegmentOutcome::Pending(next) ==> segment_credible(
            next,
            events.drop_first(),
        )
    }
}

/// What the write of a segment has done so far.
spec fn segment_writing(t: DataTransfer, w: World, w0: World) -> bool {
    let seg = t.segment;
    let data = w0.buffers.subrange(seg.buf_start as int, seg.buf_start + seg.len);
    &&& !t.is_read
    &&& t.sound()
    &&& t.phase == Phase::Fetch || t.phase == Phase::Transfer
    &&& seg.buf_start + seg.len <= w0.buffers.len()
    &&& w.buffers == w0.buffers
    &&& t.phase == Phase::Transfer ==> w.staging == data
    &&& w.files == file_written(
        w0.files,
        seg.extent as int,
        seg.file_offset as int,
        data.take(t.moved as int),
    )
}

/// What the read of a segment has done so far.
spec fn segment_reading(t: DataTransfer, w: World, w0: World) -> bool {
    let seg = t.segment;
    &&& t.is_read
    &&& t.sound()
    &&& t.phase == Phase::Transfer || t.phase == Phase::Deliver
    &&& w.files == w0.files
    &&& w.buffers == w0.buffers
    &&& w.staging.len() >= t.moved
    &&& w.staging.take(t.moved as int) == file_range(
        w0.files,
        seg.extent as int,
        seg.file_offset as int,
        t.moved as nat,
    )
}

/// The write of a segment, followed through any row of events.
proof fn lemma_segment_write(t: DataTransfer, w: World, w0: World, events: Seq<IoEvent>)
    requires
        segment_writing(t, w, w0),
        segment_credible(t, events),
    ensures
        segment_run(t, w, events).0 matches SegmentOutcome::Finished(n) ==> {
            let seg = t.segment;
            let after = segment_run(t, w, events).1;
            &&& n <= seg.len
            &&& n == seg.len || events.contains(IoEvent::Moved(0))
            &&& after.buffers == w0.buffers
            &&& after.files == file_written(
                w0.files,
                seg.extent as int,
                seg.file_offset as int,
                w0.buffers.subrange(seg.buf_start as int, seg.buf_start + seg.len).take(n as int),
            )
        },
    decreases events.len(),
{
    if events.len() > 0 {
        let seg = t.segment;
        let data = w0.buffers.subrange(seg.buf_start as int, seg.buf_start + seg.len);
        let after = effect(t, w, events[0]);
        if let (Phase::Transfer, IoEvent::Moved(n)) = (t.phase, events[0]) {
            assert(after.files =~= file_written(
                w0.files,
                seg.extent as int,
                seg.file_offset as int,
                data.take(t.moved + n),
            ));
            if n == 0 {
                assert(events.contains(IoEvent::Moved(0)));
            }
        }
        if let SegmentOutcome::Pending(next) = t.segment_outcome(events[0]) {
            let rest = events.drop_first();
            lemma_segment_write(next, after, w0, rest);
            if rest.contains(IoEvent::Moved(0)) {
                assert(events[rest.index_of(IoEvent::Moved(0)) + 1] == IoEvent::Moved(0));
            }
        }
    }
}

/// The read of a segment, followed through any row of events.
proof fn lemma_segment_read(t: DataTransfer, w: World, w0: World, events: Seq<IoEvent>)
    requires
        segment_reading(t, w, w0),
        segment_credible(t, events),
    ensures
        segment_run(t, w, events).0 matches SegmentOutcome::Finished(n) ==> {
            let seg = t.segment;
            let after = segment_run(t, w, events).1;
            &&& n <= seg.len
            &&& n == seg.len || events.contains(IoEvent::Moved(0)) || t.phase == Phase::Deliver
            &&& after.files == w0.files
            &&& after.buffers == overlaid(
                w0.buffers,
                seg.buf_start as int,
                file_range(w0.files, seg.extent as int, seg.file_offset as int, n as nat),
            )
        },
    decreases events.len(),
{
    if events.len() > 0 {
        let seg = t.segment;
        let after = effect(t, w, events[0]);
        if let (Phase::Transfer, IoEvent::Moved(n)) = (t.phase, events[0]) {
            assert(after.staging.take(t.moved + n) =~= file_range(
                w0.files,
                seg.extent as int,
                seg.file_offset as int,
                (t.moved + n) as nat,
            ));
            if n == 0 {
                assert(events.contains(IoEvent::Moved(0)));
            }
        }
        if let SegmentOutcome::Pending(next) = t.segment_outcome(events[0]) {
            let rest = events.drop_first();
            lemma_segment_read(next, after, w0, rest);
            if rest.contains(IoEvent::Moved(0)) {
                assert(events[rest.index_of(IoEvent::Moved(0)) + 1] == IoEvent::Moved(0));
            }
        }
    }
}

/// A staged segment that finishes with `n` bytes has moved the first `n` of its bytes between the
/// request's buffers and the file, and changed nothing else. It ends short only when a call moved
/// nothing.
pub proof fn law_segment_moves_its_bytes(
    start: u64,
    total: usize,
    is_read: bool,
    seg: Segment,
    w: World,
    events: Seq<IoEvent>,
)
    requires
        DataTransfer::staged(start, total, is_read, seg).sound(),
        seg.buf_start + seg.len <= w.buffers.len(),
        segment_credible(DataTransfer::staged(start, total, is_read, seg), events),
    ensures
        ({
            let (outcome, after) = segment_run(
                DataTransfer::staged(start, total, is_read, seg),
                w,
                events,
            );
            let data = w.buffers.subrange(seg.buf_start as int, seg.buf_start + seg.len);
            outcome matches SegmentOutcome::Finished(n) ==> {
                &&& n <= seg.len
                &&& n == seg.len || events.contains(IoEvent::Moved(0))
                &&& is_read ==> after.files == w.files && after.buffers == overlaid(
                    w.buffers,
                    seg.buf_start as int,
                    file_range(w.files, seg.extent as int, seg.file_offset as int, n as nat),
                )
                &&& !is_read ==> after.buffers == w.buffers && after.files == file_written(
                    w.files,
                    seg.extent as int,
                    seg.file_offset as int,
                    data.take(n as int),
                )
            }
        }),
{
    let t = DataTransfer::staged(start, total, is_read, seg);
    if is_read {
        assert(w.staging.take(0) =~= file_range(
            w.files,
            seg.extent as int,
            seg.file_offset as int,
            0,
        ));
        lemma_segment_read(t, w, w, events);
    } else {
        let data = w.buffers.subrange(seg.buf_start as int, seg.buf_start + seg.len);
        assert(w.files =~= file_written(
            w.files,
            seg.extent as int,
            seg.file_offset as int,
            data.take(0),
        ));
        lemma_segment_write(t, w, w, events);
    }
}

/// An empty segment asks for no call on the file, and is through with the first copy.
pub proof fn law_empty_segment_makes_no_call(
    start: u64,
    total: usize,
    is_read: bool,
    seg: Segment,
)
    requires
        seg.len == 0,
    ensures
        ({
            let t = DataTransfer::staged(start, total, is_read, seg);
            &&& t.spec_action() == if is_read {
                IoAction::Deliver { buf_start: seg.buf_start, len: 0 }
            } else {
                IoAction::Fetch { buf_start: seg.buf_start, len: 0 }
            }
            &&& t.segment_outcome(IoEvent::Copied) == SegmentOutcome::Finished(0)
        }),
{
}

/// While a staged segment has bytes left to move, the positioned call that is due asks for exactly
/// those bytes, so for at least one: in the segment's extent, as far behind the segment's place in
/// the file and behind the front of the staging buffer as bytes have been moved. A fetch is for the
/// whole segment, and a delivery for what was read of it.
pub proof fn law_due_action_is_for_all_that_is_left(t: DataTransfer)
    requires
        t.sound(),
    ensures
        match t.spec_action() {
            IoAction::Vectored { extent, file_offset } => {
                &&& t.phase == Phase::Vectored
                &&& extent == t.segment.extent
                &&& file_offset == t.segment.file_offset
            },
            IoAction::Fetch { buf_start, len } => {
                &&& t.phase == Phase::Fetch
                &&& buf_start == t.segment.buf_start
                &&& len == t.segment.len
            },
            IoAction::ReadAt { extent, file_offset, from, len } => {
                &&& t.phase == Phase::Transfer && t.is_read
                &&& extent == t.segment.extent
                &&& file_offset - t.segment.file_offset == t.moved
                &&& from == t.moved
                &&& from + len == t.segment.len
                &&& len > 0
            },
            IoAction::WriteAt { extent, file_offset, from, len } => {
                &&& t.phase == Phase::Transfer && !t.is_read
                &&& extent == t.segment.extent
                &&& file_offset - t.segment.file_offset == t.moved
                &&& from == t.moved
                &&& from + len == t.segment.len
                &&& len > 0
            },
            IoAction::Deliver { buf_start, len } => {
                &&& t.phase == Phase::Deliver
                &&& buf_start == t.segment.buf_start
                &&& len == t.moved
            },
        },
{
}

/// A byte of the virtual disk lies in the file of the extent that includes it, as far behind
/// `file_base_offset` as it lies behind the extent's beginning.
pub proof fn law_disk_bytes_lie_in_their_files(
    extents: Seq<VmdkExtent>,
    files: spec_fn(int, int) -> u8,
    v: int,
    i: int,
)
    requires
        holder(extents, v) == Some(i),
    ensures
        place(extents, v) == (i, extents[i].file_base_offset + (v - extents[i].virtual_start)),
        disk_byte(extents, files, v) == files(
            i,
            extents[i].file_base_offset + (v - extents[i].virtual_start),
        ),
{
}

/// The byte that a finished write has for an offset is found in the file of the extent that includes
/// the offset, and the byte that a finished read has for it is the one found there.
pub proof fn law_requests_meet_the_files(
    extents: Seq<VmdkExtent>,
    size: u64,
    op: AsyncIoOperation,
    w: World,
    events: Seq<IoEvent>,
    k: int,
    i: int,
)
    requires
        well_posed(extents, size, op, w, events),
        serve(extents, size, op, w, events).0 matches Ok(Progress::Finished(bytes)) && 0 <= k
            < bytes,
        holder(extents, (op.offset as u64) + k) == Some(i),
    ensures
        ({
            let after = serve(extents, size, op, w, events).1;
            let p = extents[i].file_base_offset + ((op.offset as u64) + k
                - extents[i].virtual_start);
            &&& op.is_read ==> after.buffers[k] == (w.files)(i, p)
            &&& !op.is_read ==> (after.files)(i, p) == w.buffers[k]
        }),
{
    let start = (op.offset as u64) as int;
    let (outcome, after) = serve(extents, size, op, w, events);
    let bytes = outcome->Ok_0->Finished_0;
    if op.is_read {
        law_read_returns_disk_bytes(extents, size, op, w, events);
        assert(buffers_filled(extents, start, bytes as int, w.files, w.buffers, after.buffers));
        assert(after.buffers[k] == disk_byte(extents, w.files, start + k));
    } else {
        law_write_lands(extents, size, op, w, events);
        let data = w.buffers.take(bytes as int);
        assert(disk_written(extents, start, data, w.files, after.files));
        assert(disk_byte(extents, after.files, start + k) == data[start + k - start]);
    }
}

/// A request of no bytes within the disk is through at once, whatever the extents are.
pub proof fn law_empty_request_is_through_at_once(
    extents: Seq<VmdkExtent>,
    size: u64,
    op: AsyncIoOperation,
    w: World,
    events: Seq<IoEvent>,
)
    requires
        op.total_len == 0,
        op.offset as u64 <= size,
    ensures
        serve(extents, size, op, w, events) == (
            Ok::<Progress, AsyncIoError>(Progress::Finished(0)),
            w,
        ),
{
}

/// A request that the access modes let through, but whose first extent has no open file, is
/// rejected for that.
pub proof fn law_missing_file_is_an_error(
    extents: Seq<VmdkExtent>,
    size: u64,
    op: AsyncIoOperation,
    w: World,
    events: Seq<IoEvent>,
    i: int,
)
    requires
        op.total_len > 0,
        (op.offset as u64) + op.total_len <= size,
        forall|v: int|
            op.offset as u64 <= v < (op.offset as u64) + op.total_len ==> #[trigger] permitted(
                extents,
                v,
                op.is_read,
            ),
        holder(extents, (op.offset as u64) as int) == Some(i),
        extents[i].file is None,
    ensures
        serve(extents, size, op, w, events) == (
            Err::<Progress, AsyncIoError>(data_error(VmdkIoError::NotAccessible, op.is_read)),
            w,
        ),
{
    let start = (op.offset as u64) as int;
    lemma_no_objection(extents, start, start + op.total_len, op.is_read);
}

/// A request that reaches beyond the extent of its first byte, and that the access modes let
/// through, is staged, and its first segment is all that the extent holds of it.
pub proof fn law_straddling_request_begins_with_its_first_extent(
    extents: Seq<VmdkExtent>,
    size: u64,
    op: AsyncIoOperation,
    i: int,
)
    requires
        serves(extents, size, op),
        extents.len() <= usize::MAX,
        (op.offset as u64) + op.total_len <= size,
        forall|v: int|
            op.offset as u64 <= v < (op.offset as u64) + op.total_len ==> #[trigger] permitted(
                extents,
                v,
                op.is_read,
            ),
        holder(extents, (op.offset as u64) as int) == Some(i),
        extents[i].file is Some,
        extents[i].virtual_start + extents[i].length < (op.offset as u64) + op.total_len,
    ensures
        submission(extents, size, op) matches Ok(Progress::Pending(t)) && {
            let start = op.offset as u64;
            &&& t.phase == if op.is_read {
                Phase::Transfer
            } else {
                Phase::Fetch
            }
            &&& t.moved == 0
            &&& t.start == start && t.total == op.total_len && t.is_read == op.is_read
            &&& t.segment.extent == i
            &&& t.segment.buf_start == 0
            &&& t.segment.file_offset == extents[i].file_base_offset + (start
                - extents[i].virtual_start)
            &&& start + t.segment.len == extents[i].virtual_start + extents[i].length
        },
{
    let start = (op.offset as u64) as int;
    lemma_no_objection(extents, start, start + op.total_len, op.is_read);
    lemma_holder_holds(extents, start);
    lemma_submission_wf(extents, size, op);
}

/// Once a segment is through with all its bytes and more of the request is left, the next segment
/// begins at the next byte, in the extent that includes it, and ends with that extent or with the
/// request, whichever comes first. Where no extent includes the byte, or the extent has no open
/// file, the request fails.
pub proof fn law_segments_follow_one_another(
    extents: Seq<VmdkExtent>,
    t: DataTransfer,
    event: IoEvent,
)
    requires
        extents_map(extents, t.start as int, t.start + t.total),
        extents.len() <= usize::MAX,
        t.wf(extents),
        within_bounds(t, event),
        t.phase != Phase::Vectored,
        t.segment_outcome(event) == SegmentOutcome::Finished(t.segment.len),
        t.segment.buf_start + t.segment.len < t.total,
    ensures
        ({
            let done = t.segment.buf_start + t.segment.len;
            match holder(extents, t.start + done) {
                None => resumption(extents, t, event) == Err::<Progress, VmdkIoError>(
                    VmdkIoError::OutsideExtents,
                ),
                Some(i) => if extents[i].file is None {
                    resumption(extents, t, event) == Err::<Progress, VmdkIoError>(
                        VmdkIoError::NotAccessible,
                    )
                } else {
                    resumption(extents, t, event) matches Ok(Progress::Pending(next)) && {
                        let end = extents[i].virtual_start + extents[i].length;
                        &&& next.segment.extent == i
                        &&& next.segment.buf_start == done
                        &&& next.segment.file_offset == extents[i].file_base_offset + (t.start
                            + done - extents[i].virtual_start)
                        &&& t.start + done + next.segment.len == if end <= t.start + t.total {
                            end
                        } else {
                            t.start + t.total
                        }
                        &&& next.moved == 0
                        &&& next.phase == if t.is_read {
                            Phase::Transfer
                        } else {
                            Phase::Fetch
                        }
                        &&& next.start == t.start && next.total == t.total && next.is_read
                            == t.is_read
                    }
                },
            }
        }),
{
    let v = t.start + t.segment.buf_start + t.segment.len;
    lemma_holder_holds(extents, v);
    lemma_resumption_wf(extents, t, event);
    if let Some(i) = holder(extents, v) {
        assert(extents[i].maps(t.start as int, t.start + t.total));
    }
}

/// A call that fails fails the request, whatever it was for.
pub proof fn law_failed_call_fails_the_request(extents: Seq<VmdkExtent>, t: DataTransfer)
    ensures
        resumption(extents, t, IoEvent::Failed) == Err::<Progress, VmdkIoError>(
            VmdkIoError::TransferFailed,
        ),
        t.segment_outcome(IoEvent::Failed) == SegmentOutcome::Failed,
{
}

/// An interrupted positioned call changes nothing of the request: the same call is due again.
pub proof fn law_interrupted_call_is_made_again(extents: Seq<VmdkExtent>, t: DataTransfer)
    requires
        t.phase == Phase::Transfer,
    ensures
        resumption(extents, t, IoEvent::Interrupted) == Ok::<Progress, VmdkIoError>(
            Progress::Pending(t),
        ),
        t.segment_outcome(IoEvent::Interrupted) == SegmentOutcome::Pending(t),
{
}

/// A positioned call that moves some of the bytes, but not all, leaves the others to a further call,
/// and one that moves the last of them ends the segment: of a write at once, of a read once the
/// bytes were delivered.
pub proof fn law_short_calls_add_up(t: DataTransfer, n: usize)
    requires
        t.sound(),
        t.phase == Phase::Transfer,
        0 < n <= t.segment.len - t.moved,
    ensures
        t.moved + n < t.segment.len ==> (t.segment_outcome(IoEvent::Moved(n)) matches
            SegmentOutcome::Pending(next) && next.phase == Phase::Transfer && next.moved == t.moved
            + n && next.segment == t.segment && next.is_read == t.is_read && next.start == t.start
            && next.total == t.total),
        t.moved + n == t.segment.len && !t.is_read ==> t.segment_outcome(IoEvent::Moved(n))
            == SegmentOutcome::Finished(t.segment.len),
        t.moved + n == t.segment.len && t.is_read ==> (t.segment_outcome(IoEvent::Moved(n)) matches
            SegmentOutcome::Pending(next) && next.phase == Phase::Deliver && next.moved
            == t.segment.len && next.segment == t.segment && next.start == t.start && next.total
            == t.total && next.segment_outcome(IoEvent::Copied) == SegmentOutcome::Finished(
            t.segment.len,
        )),
{
}

/// A positioned call that moves nothing ends the request with the bytes moved so far, without an
/// error: a write at once, a read once they were delivered.
pub proof fn law_end_of_file_ends_the_request(extents: Seq<VmdkExtent>, t: DataTransfer)
    requires
        t.sound(),
        t.phase == Phase::Transfer,
    ensures
        ({
            let done = t.segment.buf_start + t.moved;
            &&& !t.is_read ==> resumption(extents, t, IoEvent::Moved(0)) == Ok::<
                Progress,
                VmdkIoError,
            >(Progress::Finished(done as usize))
            &&& t.is_read ==> (resumption(extents, t, IoEvent::Moved(0)) matches Ok(
                Progress::Pending(next),
            ) && next.phase == Phase::Deliver && next.moved == t.moved && next.segment == t.segment
                && resumption(extents, next, IoEvent::Copied) == Ok::<Progress, VmdkIoError>(
                Progress::Finished(done as usize),
            ))
        }),
{
}

/// A vectored call ends its request with the bytes that it moved, however many those are.
pub proof fn law_vectored_call_ends_the_request(
    extents: Seq<VmdkExtent>,
    t: DataTransfer,
    n: usize,
)
    requires
        t.phase == Phase::Vectored,
    ensures
        resumption(extents, t, IoEvent::Moved(n)) == Ok::<Progress, VmdkIoError>(
            Progress::Finished(n),
        ),
        resumption(extents, t, IoEvent::Interrupted) == Err::<Progress, VmdkIoError>(
            VmdkIoError::TransferFailed,
        ),
{
}

/// The bytes of a write that were fetched are written next, and the last delivery of a read, or the
/// last write, ends a request with all its bytes.
pub proof fn law_last_segment_ends_the_request(extents: Seq<VmdkExtent>, t: DataTransfer)
    requires
        t.sound(),
        t.segment.len > 0,
    ensures
        t.phase == Phase::Fetch ==> (resumption(extents, t, IoEvent::Copied) matches Ok(
            Progress::Pending(next),
        ) && next.phase == Phase::Transfer && next.moved == t.moved && next.segment == t.segment
            && next.start == t.start && next.total == t.total && next.is_read == t.is_read),
        t.phase == Phase::Deliver && t.moved == t.segment.len && t.segment.buf_start + t.moved
            == t.total ==> resumption(extents, t, IoEvent::Copied) == Ok::<Progress, VmdkIoError>(
            Progress::Finished(t.total),
        ),
        t.phase == Phase::Transfer && !t.is_read && t.segment.buf_start + t.segment.len == t.total
            ==> resumption(extents, t, IoEvent::Moved((t.segment.len - t.moved) as usize)) == Ok::<
            Progress,
            VmdkIoError,
        >(Progress::Finished(t.total)),
{
}

} // verus!
