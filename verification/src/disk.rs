//! The disk that a flat VMDK image of type `monolithicFlat` or `twoGbMaxExtentFlat` offers.

use vstd::prelude::*;

use crate::flat::FlatVmdk;
use crate::worker::{AsyncIoCompletion, FlatVmdkSync};

verus! {

/// What kind of failure a disk operation met.
#[derive(Clone, Copy, Debug, PartialEq, Eq, Structural)]
pub enum BlockErrorKind {
    /// The format does not offer the operation.
    UnsupportedFeature,
    /// The host failed.
    Io,
}

/// The operation that failed.
#[derive(Clone, Copy, Debug, PartialEq, Eq, Structural)]
pub enum ErrorOp {
    Open,
    Resize,
}

/// Why a disk operation failed.
#[derive(Clone, Copy, Debug, PartialEq, Eq, Structural)]
pub struct BlockError {
    pub kind: BlockErrorKind,
    pub op: ErrorOp,
}

impl BlockError {
    /// The error in words: resizing is what flat images do not offer. Where the host failed, the
    /// words are the host's.
    pub fn message(&self) -> (res: Option<String>)
        ensures
            match self.kind {
                BlockErrorKind::UnsupportedFeature => res matches Some(text) && text@
                    == "resize not supported for flat VMDK"@,
                BlockErrorKind::Io => res is None,
            },
    {
        match self.kind {
            BlockErrorKind::UnsupportedFeature => Some(
                "resize not supported for flat VMDK".to_owned(),
            ),
            BlockErrorKind::Io => None,
        }
    }
}

/// A disk over a flat image.
///
/// Its I/O goes through the synchronous, extent-aware worker: an asynchronous submission carries
/// one file and one offset, and so cannot express a request that spans two extent files.
#[derive(Debug)]
pub struct VmdkDisk<F> {
    /// The image.
    pub inner: FlatVmdk<F>,
    /// Whether asynchronous I/O was asked for. The worker is the same either way.
    pub use_async_io: bool,
}

impl<F> VmdkDisk<F> {
    /// A disk over an open image.
    pub fn new(inner: FlatVmdk<F>, enable_async_io: bool) -> (res: Self)
        ensures
            res.inner == inner,
            res.use_async_io == enable_async_io,
    {
        VmdkDisk { inner, use_async_io: enable_async_io }
    }

    /// The size that a guest sees.
    pub fn logical_size(&self) -> (res: Result<u64, BlockError>)
        ensures
            res == Ok::<u64, BlockError>(self.inner.size),
    {
        Ok(self.inner.virtual_block_size())
    }

    /// The size that the image takes up on the host.
    pub fn physical_size(&self) -> (res: Result<u64, BlockError>)
        ensures
            res == Ok::<u64, BlockError>(self.inner.physical_size),
    {
        Ok(self.inner.physical_block_size())
    }

    /// Flat images keep their size.
    pub fn resize(&mut self, _size: u64) -> (res: Result<(), BlockError>)
        ensures
            res == Err::<(), BlockError>(
                BlockError { kind: BlockErrorKind::UnsupportedFeature, op: ErrorOp::Resize },
            ),
            *final(self) == *old(self),
    {
        Err(BlockError { kind: BlockErrorKind::UnsupportedFeature, op: ErrorOp::Resize })
    }

    /// The same disk behind `file`, a duplicate of the handle of the descriptor file.
    pub fn try_clone(&self, file: F) -> (res: Self)
        ensures
            res.inner.file == file,
            res.inner.size == self.inner.size,
            res.inner.physical_size == self.inner.physical_size,
            res.inner.extents@ == self.inner.extents@,
            res.use_async_io == self.use_async_io,
    {
        VmdkDisk { inner: self.inner.with_handle(file), use_async_io: self.use_async_io }
    }

    /// A worker for the disk: over its extents, and bounded by its virtual size, so that requests
    /// out of range are rejected. The worker has no ring, so `_ring_depth` does not matter.
    pub fn create_async_io<Op>(&self, _ring_depth: u32) -> (res: FlatVmdkSync<Op>)
        ensures
            res.extents() == self.inner.extents@,
            res.size() == self.inner.size,
            res.completions() == Seq::<AsyncIoCompletion<Op>>::empty(),
    {
        FlatVmdkSync::new(self.inner.extents(), self.inner.virtual_block_size())
    }
}

} // verus!
