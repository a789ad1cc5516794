use vmdk::disk::{BlockError, BlockErrorKind, ErrorOp, VmdkDisk};
use vmdk::error::{AsyncIoError, VmdkErrorKind, VmdkIoError};
use vmdk::extent::{check_extents_map, find_extent, ExtentAccess, ExtentFile, VmdkExtent};
use vmdk::flat::FlatVmdk;
use vmdk::transfer::{DataTransfer, IoAction, IoEvent, Phase, Progress, Segment, SegmentOutcome};
use vmdk::worker::{AsyncIoOperation, FlatVmdkSync, FlushProgress};

fn extent(virtual_start: u64, length: u64, access: ExtentAccess, base: u64) -> VmdkExtent {
    let file = match access {
        ExtentAccess::NoAccess => None,
        _ => Some(ExtentFile { alignment: 0 }),
    };
    VmdkExtent { virtual_start, length, access, file, file_base_offset: base }
}

// Three extents of ten bytes, at offset 0, 100 and 5 of their files.
fn three() -> Vec<VmdkExtent> {
    vec![
        extent(0, 10, ExtentAccess::ReadWrite, 0),
        extent(10, 10, ExtentAccess::ReadWrite, 100),
        extent(20, 10, ExtentAccess::ReadWrite, 5),
    ]
}

fn op(offset: i64, total_len: usize, is_read: bool) -> AsyncIoOperation {
    AsyncIoOperation { offset, total_len, is_read }
}

// The files and buffers of a request, with the most that a single call moves.
struct Host {
    files: Vec<Vec<u8>>,
    staging: Vec<u8>,
    most: usize,
    interrupted: bool,
    vectored: usize,
    calls: usize,
}

impl Host {
    fn new(files: Vec<Vec<u8>>, most: usize) -> Host {
        Host { files, staging: vec![], most, interrupted: false, vectored: 0, calls: 0 }
    }

    fn act(&mut self, action: IoAction, buf: &mut Vec<u8>, is_read: bool) -> IoEvent {
        match action {
            IoAction::Vectored { extent, file_offset } => {
                self.vectored += 1;
                let file = &mut self.files[extent];
                let at = file_offset as usize;
                let n = buf.len().min(self.most).min(file.len().saturating_sub(at));
                if is_read {
                    buf[..n].copy_from_slice(&file[at..at + n]);
                } else {
                    file[at..at + n].copy_from_slice(&buf[..n]);
                }
                IoEvent::Moved(n)
            }
            IoAction::Fetch { buf_start, len } => {
                self.staging = buf[buf_start..buf_start + len].to_vec();
                IoEvent::Copied
            }
            IoAction::ReadAt { extent, file_offset, from, len } => {
                self.calls += 1;
                self.interrupted = !self.interrupted;
                if self.interrupted {
                    return IoEvent::Interrupted;
                }
                let file = &self.files[extent];
                let at = file_offset as usize;
                let n = len.min(self.most).min(file.len().saturating_sub(at));
                self.staging.truncate(from);
                self.staging.extend_from_slice(&file[at..at + n]);
                IoEvent::Moved(n)
            }
            IoAction::WriteAt { extent, file_offset, from, len } => {
                self.calls += 1;
                self.interrupted = !self.interrupted;
                if self.interrupted {
                    return IoEvent::Interrupted;
                }
                let file = &mut self.files[extent];
                let at = file_offset as usize;
                let n = len.min(self.most).min(file.len().saturating_sub(at));
                file[at..at + n].copy_from_slice(&self.staging[from..from + n]);
                IoEvent::Moved(n)
            }
            IoAction::Deliver { buf_start, len } => {
                buf[buf_start..buf_start + len].copy_from_slice(&self.staging[..len]);
                IoEvent::Copied
            }
        }
    }

    fn serve(
        &mut self,
        worker: &FlatVmdkSync<u8>,
        offset: i64,
        buf: &mut Vec<u8>,
        is_read: bool,
    ) -> Result<usize, AsyncIoError> {
        let mut progress = worker.submit_data_operation(&op(offset, buf.len(), is_read))?;
        loop {
            match progress {
                Progress::Finished(bytes) => return Ok(bytes),
                Progress::Pending(t) => {
                    let event = self.act(worker.next_action(&t), buf, is_read);
                    progress = worker.resume(&t, event)?;
                }
            }
        }
    }
}

fn files() -> Vec<Vec<u8>> {
    vec![vec![1; 10], vec![2; 110], vec![3; 15]]
}

#[test]
fn finds_the_extent_of_an_offset() {
    let worker: FlatVmdkSync<u8> = FlatVmdkSync::new(three(), 30);
    assert_eq!(worker.extent_at(0).unwrap().file_base_offset, 0);
    assert_eq!(worker.extent_at(9).unwrap().file_base_offset, 0);
    assert_eq!(worker.extent_at(10).unwrap().file_base_offset, 100);
    assert_eq!(worker.extent_at(29).unwrap().file_base_offset, 5);
    assert!(worker.extent_at(30).is_none());
    assert!(worker.extent_at(u64::MAX).is_none());
    assert_eq!(find_extent(&three(), 15), Some(1));
    assert_eq!(find_extent(&three(), 30), None);
    // The first of two that overlap, and none that is empty.
    let overlapping = vec![
        extent(5, 0, ExtentAccess::NoAccess, 0),
        extent(0, 10, ExtentAccess::ReadOnly, 0),
        extent(0, 20, ExtentAccess::ReadWrite, 0),
    ];
    assert_eq!(find_extent(&overlapping, 5), Some(1));
    assert_eq!(find_extent(&overlapping, 15), Some(2));
}

#[test]
fn tells_extents_that_leave_the_range() {
    assert!(check_extents_map(&three(), 0, u64::MAX));
    let last = extent(u64::MAX, 0, ExtentAccess::ReadWrite, u64::MAX);
    assert!(check_extents_map(&vec![last], 0, u64::MAX));
    // One that ends beyond the range does no harm to what lies before it.
    let mut extents = three();
    extents.push(extent(u64::MAX - 5, 6, ExtentAccess::ReadWrite, 0));
    assert!(check_extents_map(&extents, 0, u64::MAX - 5));
    assert!(!check_extents_map(&extents, 0, u64::MAX - 4));
    // Of a file, only what is touched counts; an extent without a file has no positions.
    let far = extent(0, 10, ExtentAccess::ReadWrite, u64::MAX - 4);
    assert!(check_extents_map(&vec![far], 0, 4));
    assert!(!check_extents_map(&vec![far], 0, 5));
    assert!(check_extents_map(&vec![far], 10, 20));
    assert!(check_extents_map(&vec![VmdkExtent { file: None, ..far }], 0, 10));
}

#[test]
fn a_request_that_is_not_mapped_can_always_be_served() {
    let bad = extent(5, u64::MAX, ExtentAccess::ReadWrite, 0);
    let good = extent(0, 5, ExtentAccess::ReadWrite, 0);
    let worker: FlatVmdkSync<u8> = FlatVmdkSync::new(vec![good, bad], 30);
    assert!(worker.can_serve(&op(0, 5, true)));
    assert!(worker.submit_data_operation(&op(0, 5, true)).is_ok());
    assert!(!worker.can_serve(&op(0, 6, true)));
    assert!(worker.can_serve(&op(7, 0, true)));
    assert_eq!(worker.submit_data_operation(&op(7, 0, true)), Ok(Progress::Finished(0)));
    assert!(worker.can_serve(&op(25, 6, true)));
    assert!(worker.submit_data_operation(&op(25, 6, true)).is_err());
}

#[test]
fn access_is_checked_extent_by_extent() {
    let mut extents = three();
    extents[1] = extent(10, 10, ExtentAccess::ReadOnly, 100);
    extents[2] = extent(20, 10, ExtentAccess::NoAccess, 5);
    let worker: FlatVmdkSync<u8> = FlatVmdkSync::new(extents, 40);
    assert_eq!(worker.check_access(0, 10, false), Ok(()));
    assert_eq!(worker.check_access(0, 20, true), Ok(()));
    assert_eq!(worker.check_access(0, 0, false), Ok(()));
    assert_eq!(worker.check_access(5, 6, false), Err(VmdkIoError::ReadOnly { offset: 10 }));
    assert_eq!(worker.check_access(13, 1, false), Err(VmdkIoError::ReadOnly { offset: 13 }));
    assert_eq!(worker.check_access(19, 2, true), Err(VmdkIoError::NoAccess { offset: 20 }));
    assert_eq!(worker.check_access(25, 1, true), Err(VmdkIoError::NoAccess { offset: 25 }));
    assert_eq!(worker.check_access(30, 1, true), Err(VmdkIoError::OutsideExtents));
}

#[test]
fn requests_beyond_the_disk_are_rejected() {
    let worker: FlatVmdkSync<u8> = FlatVmdkSync::new(three(), 30);
    let exceeds = |start, total| VmdkIoError::ExceedsVirtualSize { start, total, size: 30 };
    assert_eq!(
        worker.submit_data_operation(&op(30, 1, true)),
        Err(AsyncIoError::ReadVectored(exceeds(30, 1)))
    );
    assert_eq!(
        worker.submit_data_operation(&op(0, 31, false)),
        Err(AsyncIoError::WriteVectored(exceeds(0, 31)))
    );
    assert_eq!(
        worker.submit_data_operation(&op(31, 0, true)),
        Err(AsyncIoError::ReadVectored(exceeds(31, 0)))
    );
    assert_eq!(
        worker.submit_data_operation(&op(-1, 1, true)),
        Err(AsyncIoError::ReadVectored(exceeds(u64::MAX, 1)))
    );
    assert_eq!(worker.submit_data_operation(&op(30, 0, true)), Ok(Progress::Finished(0)));
    assert_eq!(worker.submit_data_operation(&op(0, 0, false)), Ok(Progress::Finished(0)));
}

#[test]
fn forbidden_requests_are_rejected() {
    let mut extents = three();
    extents[1] = extent(10, 10, ExtentAccess::ReadOnly, 100);
    extents[2] = extent(20, 10, ExtentAccess::NoAccess, 5);
    let worker: FlatVmdkSync<u8> = FlatVmdkSync::new(extents, 30);
    assert_eq!(
        worker.submit_data_operation(&op(0, 30, false)),
        Err(AsyncIoError::WriteVectored(VmdkIoError::ReadOnly { offset: 10 }))
    );
    assert_eq!(
        worker.submit_data_operation(&op(15, 10, true)),
        Err(AsyncIoError::ReadVectored(VmdkIoError::NoAccess { offset: 20 }))
    );
    assert!(worker.submit_data_operation(&op(12, 8, true)).is_ok());
}

#[test]
fn gaps_and_missing_files_are_errors() {
    let mut extents = three();
    extents.remove(1);
    extents[1].file = None;
    let worker: FlatVmdkSync<u8> = FlatVmdkSync::new(extents, 30);
    assert_eq!(
        worker.submit_data_operation(&op(5, 10, true)),
        Err(AsyncIoError::ReadVectored(VmdkIoError::OutsideExtents))
    );
    assert_eq!(
        worker.submit_data_operation(&op(20, 1, false)),
        Err(AsyncIoError::WriteVectored(VmdkIoError::NotAccessible))
    );
}

#[test]
fn a_file_that_is_missing_further_on_is_met_there() {
    let mut extents = three();
    extents[1].file = None;
    let worker: FlatVmdkSync<u8> = FlatVmdkSync::new(extents, 30);
    let mut host = Host::new(files(), 100);
    let mut buf = vec![9; 20];
    assert_eq!(
        host.serve(&worker, 0, &mut buf, false),
        Err(AsyncIoError::WriteVectored(VmdkIoError::NotAccessible))
    );
    assert_eq!(host.files[0], vec![9; 10]);
}

#[test]
fn a_request_within_an_extent_takes_one_vectored_call() {
    let worker: FlatVmdkSync<u8> = FlatVmdkSync::new(three(), 30);
    let segment = Segment { extent: 1, file_offset: 102, buf_start: 0, len: 8 };
    let t = DataTransfer {
        start: 12,
        total: 8,
        is_read: true,
        segment,
        moved: 0,
        phase: Phase::Vectored,
    };
    assert_eq!(worker.submit_data_operation(&op(12, 8, true)), Ok(Progress::Pending(t)));
    assert_eq!(worker.single_extent_io(1, 12, 8, true), Ok(t));
    assert_eq!(worker.next_action(&t), IoAction::Vectored { extent: 1, file_offset: 102 });
    assert_eq!(worker.resume(&t, IoEvent::Moved(8)), Ok(Progress::Finished(8)));
    assert_eq!(worker.resume(&t, IoEvent::Moved(3)), Ok(Progress::Finished(3)));
    assert_eq!(
        worker.resume(&t, IoEvent::Failed),
        Err(AsyncIoError::ReadVectored(VmdkIoError::TransferFailed))
    );
}

#[test]
fn a_direct_extent_is_staged() {
    let mut extents = three();
    extents[1].file = Some(ExtentFile { alignment: 512 });
    let worker: FlatVmdkSync<u8> = FlatVmdkSync::new(extents, 30);
    let segment = Segment { extent: 1, file_offset: 102, buf_start: 0, len: 8 };
    let t = DataTransfer {
        start: 12,
        total: 8,
        is_read: false,
        segment,
        moved: 0,
        phase: Phase::Fetch,
    };
    assert_eq!(worker.submit_data_operation(&op(12, 8, false)), Ok(Progress::Pending(t)));
    assert_eq!(worker.next_action(&t), IoAction::Fetch { buf_start: 0, len: 8 });
}

#[test]
fn a_spanning_request_is_cut_at_the_extents() {
    let worker: FlatVmdkSync<u8> = FlatVmdkSync::new(three(), 30);
    let first = worker.spanning_io(7, 20, true, 0).unwrap();
    assert_eq!(first.segment, Segment { extent: 0, file_offset: 7, buf_start: 0, len: 3 });
    let second = worker.spanning_io(7, 20, true, 3).unwrap();
    assert_eq!(second.segment, Segment { extent: 1, file_offset: 100, buf_start: 3, len: 10 });
    let third = worker.spanning_io(7, 20, true, 13).unwrap();
    assert_eq!(third.segment, Segment { extent: 2, file_offset: 5, buf_start: 13, len: 7 });
    assert_eq!(worker.spanning_io(25, 20, true, 5), Err(VmdkIoError::OutsideExtents));
}

#[test]
fn a_segment_goes_on_after_short_and_interrupted_calls() {
    let segment = Segment { extent: 0, file_offset: 50, buf_start: 0, len: 6 };
    let t = DataTransfer {
        start: 0,
        total: 6,
        is_read: true,
        segment,
        moved: 0,
        phase: Phase::Transfer,
    };
    let step = |t: &DataTransfer, e| FlatVmdkSync::<u8>::segment_io(t, e);
    assert_eq!(step(&t, IoEvent::Interrupted), SegmentOutcome::Pending(t));
    let after = DataTransfer { moved: 2, ..t };
    assert_eq!(step(&t, IoEvent::Moved(2)), SegmentOutcome::Pending(after));
    let full = DataTransfer { moved: 6, phase: Phase::Deliver, ..t };
    assert_eq!(step(&after, IoEvent::Moved(4)), SegmentOutcome::Pending(full));
    let short = DataTransfer { moved: 2, phase: Phase::Deliver, ..t };
    assert_eq!(step(&after, IoEvent::Moved(0)), SegmentOutcome::Pending(short));
    assert_eq!(step(&full, IoEvent::Copied), SegmentOutcome::Finished(6));
    assert_eq!(step(&short, IoEvent::Copied), SegmentOutcome::Finished(2));
    assert_eq!(step(&after, IoEvent::Failed), SegmentOutcome::Failed);
    assert_eq!(step(&full, IoEvent::Failed), SegmentOutcome::Failed);
    let fetch = DataTransfer { is_read: false, phase: Phase::Fetch, ..t };
    let write = DataTransfer { is_read: false, ..t };
    assert_eq!(step(&fetch, IoEvent::Copied), SegmentOutcome::Pending(write));
    assert_eq!(step(&write, IoEvent::Moved(6)), SegmentOutcome::Finished(6));
    assert_eq!(step(&write, IoEvent::Moved(0)), SegmentOutcome::Finished(0));
}

#[test]
fn reads_give_back_what_was_written() {
    for most in [1, 3, 100] {
        for start in 0..30i64 {
            for len in 1..=(30 - start as usize) {
                let worker: FlatVmdkSync<u8> = FlatVmdkSync::new(three(), 30);
                // A single vectored call moves all it can.
                let mut host = Host::new(files(), if most == 1 { 1 } else { 100 });
                let mut data: Vec<u8> = (0..len).map(|i| 100 + i as u8).collect();
                let single = start as usize % 10 + len <= 10;
                let wrote = host.serve(&worker, start, &mut data, false).unwrap();
                if single {
                    assert_eq!(wrote, len.min(host.most));
                    assert_eq!(host.vectored, 1);
                    continue;
                }
                assert_eq!(wrote, len);
                assert_eq!(host.vectored, 0);
                host.most = most;
                let mut got = vec![0; len];
                assert_eq!(host.serve(&worker, start, &mut got, true), Ok(len));
                assert_eq!(got, data);
                // The rest of the disk is as it was.
                let mut all = vec![0; 30];
                host.most = 100;
                assert_eq!(host.serve(&worker, 0, &mut all, true), Ok(30));
                for v in 0..30usize {
                    let at = v as i64 - start;
                    if at < 0 || at >= len as i64 {
                        assert_eq!(all[v], 1 + (v / 10) as u8);
                    } else {
                        assert_eq!(all[v], data[at as usize]);
                    }
                }
            }
        }
    }
}

#[test]
fn bytes_outside_the_extents_stay() {
    let worker: FlatVmdkSync<u8> = FlatVmdkSync::new(three(), 30);
    let mut host = Host::new(files(), 4);
    let mut data = vec![7; 30];
    assert_eq!(host.serve(&worker, 0, &mut data, false), Ok(30));
    assert_eq!(host.files[0], vec![7; 10]);
    assert_eq!(host.files[1][..100], vec![2; 100][..]);
    assert_eq!(host.files[1][100..], vec![7; 10][..]);
    assert_eq!(host.files[2][..5], vec![3; 5][..]);
    assert_eq!(host.files[2][5..], vec![7; 10][..]);
}

#[test]
fn the_end_of_a_file_ends_a_request_short() {
    let worker: FlatVmdkSync<u8> = FlatVmdkSync::new(three(), 30);
    let mut short = files();
    short[1].truncate(104);
    let mut host = Host::new(short, 3);
    let mut buf = vec![0; 20];
    assert_eq!(host.serve(&worker, 5, &mut buf, true), Ok(9));
    assert_eq!(buf[..5], [1; 5]);
    assert_eq!(buf[5..9], [2; 4]);
    assert_eq!(buf[9..], [0; 11]);
}

#[test]
fn a_single_extent_is_never_split() {
    let one = vec![extent(0, 30, ExtentAccess::ReadWrite, 0)];
    let worker: FlatVmdkSync<u8> = FlatVmdkSync::new(one, 30);
    for start in 0..30i64 {
        for len in 1..=(30 - start as usize) {
            match worker.submit_data_operation(&op(start, len, true)) {
                Ok(Progress::Pending(t)) => {
                    assert_eq!(t.segment.len, len);
                    assert_eq!(t.phase, Phase::Vectored);
                }
                other => panic!("{other:?}"),
            }
        }
    }
}

#[test]
fn a_request_ends_after_a_bounded_number_of_calls() {
    let worker: FlatVmdkSync<u8> = FlatVmdkSync::new(three(), 30);
    let mut host = Host::new(files(), 1);
    let mut buf = vec![0; 30];
    assert_eq!(host.serve(&worker, 0, &mut buf, true), Ok(30));
    // Thirty calls of one byte each, and as many that were interrupted.
    assert_eq!(host.calls, 60);
}

#[test]
fn completions_come_out_in_order() {
    let mut worker: FlatVmdkSync<&str> = FlatVmdkSync::new(three(), 30);
    assert!(worker.next_completed_request().is_none());
    worker.complete_data_operation(11, "first", 20);
    assert_eq!(worker.fsync(None), FlushProgress::Flush(0));
    worker.complete_data_operation(12, "second", 1 << 31);
    let c = worker.next_completed_request().unwrap();
    assert_eq!((c.user_data, c.result, c.operation), (11, 20, Some("first")));
    let c = worker.next_completed_request().unwrap();
    assert_eq!((c.user_data, c.result, c.operation), (12, i32::MIN, Some("second")));
    assert!(worker.next_completed_request().is_none());
}

#[test]
fn a_flush_reaches_every_open_file() {
    let mut extents = three();
    extents[0].file = None;
    extents.push(extent(30, 10, ExtentAccess::NoAccess, 0));
    let mut worker: FlatVmdkSync<u8> = FlatVmdkSync::new(extents, 40);
    assert_eq!(worker.fsync(Some(5)), FlushProgress::Flush(1));
    assert!(worker.next_completed_request().is_none());
    assert_eq!(worker.resume_fsync(1, true, Some(5)), Ok(FlushProgress::Flush(2)));
    assert!(worker.next_completed_request().is_none());
    assert_eq!(
        worker.resume_fsync(2, true, Some(5)),
        Ok(FlushProgress::Finished { notify: true })
    );
    let c = worker.next_completed_request().unwrap();
    assert_eq!((c.user_data, c.result, c.operation), (5, 0, None));
    assert_eq!(
        worker.resume_fsync(2, true, None),
        Ok(FlushProgress::Finished { notify: false })
    );
    assert_eq!(
        worker.resume_fsync(1, false, Some(6)),
        Err(AsyncIoError::Fsync(VmdkIoError::TransferFailed))
    );
    assert!(worker.next_completed_request().is_none());
    let mut empty: FlatVmdkSync<u8> = FlatVmdkSync::new(vec![], 0);
    assert_eq!(empty.fsync(Some(1)), FlushProgress::Finished { notify: true });
}

#[test]
fn sparse_operations_are_unsupported() {
    let worker: FlatVmdkSync<u8> = FlatVmdkSync::new(three(), 30);
    assert_eq!(
        worker.punch_hole(0, 10, 1),
        Err(AsyncIoError::PunchHole(VmdkIoError::PunchHoleUnsupported))
    );
    assert_eq!(
        worker.write_zeroes(0, 10, 1),
        Err(AsyncIoError::WriteZeroes(VmdkIoError::WriteZeroesUnsupported))
    );
}

#[test]
fn io_errors_have_a_kind_and_a_message() {
    let cases = [
        (
            VmdkIoError::ExceedsVirtualSize { start: 5, total: 10, size: 12 },
            VmdkErrorKind::InvalidData,
            "VMDK request [5, 15) exceeds virtual size 12",
        ),
        (
            VmdkIoError::ExceedsVirtualSize { start: u64::MAX, total: 1, size: 0 },
            VmdkErrorKind::InvalidData,
            "VMDK request [18446744073709551615, 18446744073709551616) exceeds virtual size 0",
        ),
        (
            VmdkIoError::OutsideExtents,
            VmdkErrorKind::InvalidData,
            "offset outside any VMDK extent",
        ),
        (
            VmdkIoError::NoAccess { offset: 120 },
            VmdkErrorKind::PermissionDenied,
            "VMDK extent at offset 120 is NOACCESS; request rejected",
        ),
        (
            VmdkIoError::ReadOnly { offset: 0 },
            VmdkErrorKind::PermissionDenied,
            "write to read-only VMDK extent at offset 0 rejected",
        ),
        (
            VmdkIoError::NotAccessible,
            VmdkErrorKind::PermissionDenied,
            "VMDK extent is not accessible",
        ),
        (VmdkIoError::TransferFailed, VmdkErrorKind::Other, "VMDK transfer failed"),
        (
            VmdkIoError::PunchHoleUnsupported,
            VmdkErrorKind::Other,
            "punch_hole not supported for flat VMDK",
        ),
        (
            VmdkIoError::WriteZeroesUnsupported,
            VmdkErrorKind::Other,
            "write_zeroes not supported for flat VMDK",
        ),
    ];
    for (error, kind, message) in cases {
        assert_eq!(error.kind(), kind);
        assert_eq!(error.message(), message);
    }
}

#[test]
fn a_disk_shows_its_image() {
    let mut image = FlatVmdk::new("handle");
    assert_eq!(image.virtual_block_size(), 0);
    assert_eq!(image.physical_block_size(), 0);
    assert!(image.extents().is_empty());
    image.size = 30;
    image.physical_size = 4096;
    image.extents = three();
    let mut disk = VmdkDisk::new(image, true);
    assert_eq!(disk.logical_size(), Ok(30));
    assert_eq!(disk.physical_size(), Ok(4096));
    assert_eq!(
        disk.resize(60),
        Err(BlockError { kind: BlockErrorKind::UnsupportedFeature, op: ErrorOp::Resize })
    );
    assert_eq!(
        disk.resize(60).unwrap_err().message().as_deref(),
        Some("resize not supported for flat VMDK")
    );
    let host = BlockError { kind: BlockErrorKind::Io, op: ErrorOp::Open };
    assert_eq!(host.message(), None);
    assert_eq!(disk.logical_size(), Ok(30));
    let copy = disk.try_clone("other handle");
    assert_eq!(copy.inner.file, "other handle");
    assert_eq!(copy.logical_size(), Ok(30));
    assert_eq!(copy.physical_size(), Ok(4096));
    assert_eq!(copy.inner.extents(), three());
    assert!(copy.use_async_io);
    let worker: FlatVmdkSync<u8> = copy.create_async_io(128);
    assert!(worker.submit_data_operation(&op(0, 30, true)).is_ok());
    assert!(worker.submit_data_operation(&op(0, 31, true)).is_err());
}

#[test]
fn a_covered_disk_has_no_gaps() {
    let worker: FlatVmdkSync<u8> = FlatVmdkSync::new(three(), 30);
    for start in 0..=30i64 {
        for len in 0..=31usize {
            let res = worker.submit_data_operation(&op(start, len, false));
            assert_eq!(res.is_ok(), start as usize + len <= 30);
        }
    }
}

#[test]
fn the_order_of_the_extents_makes_no_difference() {
    let mut extents = three();
    extents.rotate_left(1);
    let mut backing = files();
    backing.rotate_left(1);
    let worker: FlatVmdkSync<u8> = FlatVmdkSync::new(extents, 30);
    let mut host = Host::new(backing, 4);
    let mut data: Vec<u8> = (0..20).map(|i| 50 + i).collect();
    assert_eq!(host.serve(&worker, 5, &mut data, false), Ok(20));
    let mut got = vec![0; 20];
    assert_eq!(host.serve(&worker, 5, &mut got, true), Ok(20));
    assert_eq!(got, data);
    assert_eq!(host.files[2], [vec![1; 5], data[..5].to_vec()].concat());
}

#[test]
fn a_row_of_completions_and_fetches_is_first_in_first_out() {
    let mut worker: FlatVmdkSync<&str> = FlatVmdkSync::new(vec![], 0);
    worker.complete_data_operation(1, "a", 10);
    assert_eq!(worker.fsync(Some(2)), FlushProgress::Finished { notify: true });
    assert_eq!(worker.fsync(None), FlushProgress::Finished { notify: false });
    assert_eq!(worker.next_completed_request().unwrap().user_data, 1);
    worker.complete_data_operation(3, "b", 20);
    assert!(worker.submit_data_operation(&op(0, 1, true)).is_err());
    assert_eq!(worker.next_completed_request().unwrap().user_data, 2);
    assert_eq!(worker.next_completed_request().unwrap().operation, Some("b"));
    assert!(worker.next_completed_request().is_none());
}

#[test]
fn an_extent_is_taken_as_it_is_given() {
    let mut extents = three();
    extents[2].file = None;
    extents[1].file = Some(ExtentFile { alignment: 4096 });
    let worker: FlatVmdkSync<u8> = FlatVmdkSync::new(extents, 30);
    assert_eq!(worker.single_extent_io(2, 20, 5, true), Err(VmdkIoError::NotAccessible));
    let t = worker.single_extent_io(1, 12, 50, true).unwrap();
    assert_eq!(t.phase, Phase::Transfer);
    assert_eq!(t.segment, Segment { extent: 1, file_offset: 102, buf_start: 0, len: 50 });
    assert_eq!(worker.single_extent_io(1, 12, 5, false).unwrap().phase, Phase::Fetch);
    assert_eq!(worker.single_extent_io(0, 12, 5, false).unwrap().phase, Phase::Vectored);
}

#[test]
fn an_empty_segment_makes_no_call_on_the_file() {
    let mut extents = three();
    extents[1].file = Some(ExtentFile { alignment: 512 });
    let worker: FlatVmdkSync<u8> = FlatVmdkSync::new(extents, 30);
    let write = worker.single_extent_io(1, 12, 0, false).unwrap();
    assert_eq!(write.phase, Phase::Fetch);
    assert_eq!(worker.next_action(&write), IoAction::Fetch { buf_start: 0, len: 0 });
    let step = |t: &DataTransfer, e| FlatVmdkSync::<u8>::segment_io(t, e);
    assert_eq!(step(&write, IoEvent::Copied), SegmentOutcome::Finished(0));
    assert_eq!(worker.resume(&write, IoEvent::Copied), Ok(Progress::Finished(0)));
    let read = worker.single_extent_io(1, 12, 0, true).unwrap();
    assert_eq!(read.phase, Phase::Deliver);
    assert_eq!(worker.next_action(&read), IoAction::Deliver { buf_start: 0, len: 0 });
    assert_eq!(step(&read, IoEvent::Copied), SegmentOutcome::Finished(0));
    assert_eq!(worker.resume(&read, IoEvent::Copied), Ok(Progress::Finished(0)));
    assert_eq!(
        worker.resume(&read, IoEvent::Failed),
        Err(AsyncIoError::ReadVectored(VmdkIoError::TransferFailed))
    );
    // A buffered extent gets its one vectored call.
    let buffered = worker.single_extent_io(0, 3, 0, true).unwrap();
    assert_eq!(worker.next_action(&buffered), IoAction::Vectored { extent: 0, file_offset: 3 });
    assert_eq!(worker.resume(&buffered, IoEvent::Moved(0)), Ok(Progress::Finished(0)));
}
