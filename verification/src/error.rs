//! What a request to a flat image can fail with.

use vstd::prelude::*;
use vstd::string::StringExecFns;

use crate::text::{decimal, decimal_text, law_decimal_reads_back, number};

verus! {

/// Why a request was not served.
#[derive(Clone, Copy, Debug, PartialEq, Eq, Structural)]
pub enum VmdkIoError {
    /// The request's bytes, `total` of them from `start` on, do not all lie below `size`.
    ExceedsVirtualSize { start: u64, total: u64, size: u64 },
    /// No extent covers an offset of the request.
    OutsideExtents,
    /// The extent at virtual offset `offset` forbids all I/O.
    NoAccess { offset: u64 },
    /// The extent at virtual offset `offset` forbids writes.
    ReadOnly { offset: u64 },
    /// The extent has no open backing file.
    NotAccessible,
    /// A transfer to or from the backing file or the request's buffers failed.
    TransferFailed,
    /// Holes are not punched in flat images.
    PunchHoleUnsupported,
    /// Zeroes are not written to flat images without data.
    WriteZeroesUnsupported,
}

/// The broad class of an error.
#[derive(Clone, Copy, Debug, PartialEq, Eq, Structural)]
pub enum VmdkErrorKind {
    InvalidInput,
    InvalidData,
    PermissionDenied,
    Other,
}

impl VmdkIoError {
    /// The class of the error.
    pub open spec fn spec_kind(self) -> VmdkErrorKind {
        match self {
            VmdkIoError::ExceedsVirtualSize { .. } => VmdkErrorKind::InvalidData,
            VmdkIoError::OutsideExtents => VmdkErrorKind::InvalidData,
            VmdkIoError::NoAccess { .. } => VmdkErrorKind::PermissionDenied,
            VmdkIoError::ReadOnly { .. } => VmdkErrorKind::PermissionDenied,
            VmdkIoError::NotAccessible => VmdkErrorKind::PermissionDenied,
            VmdkIoError::TransferFailed => VmdkErrorKind::Other,
            VmdkIoError::PunchHoleUnsupported => VmdkErrorKind::Other,
            VmdkIoError::WriteZeroesUnsupported => VmdkErrorKind::Other,
        }
    }

    /// The class of the error: a request that leaves the disk or its extents is invalid data,
    /// one that an extent forbids or has no file for is denied.
    pub fn kind(&self) -> (res: VmdkErrorKind)
        ensures
            res == self.spec_kind(),
    {
        match self {
            VmdkIoError::ExceedsVirtualSize { .. } => VmdkErrorKind::InvalidData,
            VmdkIoError::OutsideExtents => VmdkErrorKind::InvalidData,
            VmdkIoError::NoAccess { .. } => VmdkErrorKind::PermissionDenied,
            VmdkIoError::ReadOnly { .. } => VmdkErrorKind::PermissionDenied,
            VmdkIoError::NotAccessible => VmdkErrorKind::PermissionDenied,
            VmdkIoError::TransferFailed => VmdkErrorKind::Other,
            VmdkIoError::PunchHoleUnsupported => VmdkErrorKind::Other,
            VmdkIoError::WriteZeroesUnsupported => VmdkErrorKind::Other,
        }
    }
}

impl VmdkIoError {
    /// The error in words.
    pub open spec fn spec_message(self) -> Seq<char> {
        match self {
            VmdkIoError::ExceedsVirtualSize { start, total, size } => "VMDK request ["@ + decimal(
                start as nat,
            ) + ", "@ + decimal((start + total) as nat) + ") exceeds virtual size "@ + decimal(
                size as nat,
            ),
            VmdkIoError::OutsideExtents => "offset outside any VMDK extent"@,
            VmdkIoError::NoAccess { offset } => "VMDK extent at offset "@ + decimal(offset as nat)
                + " is NOACCESS; request rejected"@,
            VmdkIoError::ReadOnly { offset } => "write to read-only VMDK extent at offset "@
                + decimal(offset as nat) + " rejected"@,
            VmdkIoError::NotAccessible => "VMDK extent is not accessible"@,
            VmdkIoError::TransferFailed => "VMDK transfer failed"@,
            VmdkIoError::PunchHoleUnsupported => "punch_hole not supported for flat VMDK"@,
            VmdkIoError::WriteZeroesUnsupported => "write_zeroes not supported for flat VMDK"@,
        }
    }

    /// The error in words.
    pub fn message(&self) -> (res: String)
        ensures
            res@ == self.spec_message(),
    {
        match self {
            VmdkIoError::ExceedsVirtualSize { start, total, size } => "VMDK request [".to_owned()
                .concat(decimal_text(*start as u128).as_str()).concat(", ")
                .concat(decimal_text(*start as u128 + *total as u128).as_str())
                .concat(") exceeds virtual size ").concat(decimal_text(*size as u128).as_str()),
            VmdkIoError::OutsideExtents => "offset outside any VMDK extent".to_owned(),
            VmdkIoError::NoAccess { offset } => "VMDK extent at offset ".to_owned()
                .concat(decimal_text(*offset as u128).as_str())
                .concat(" is NOACCESS; request rejected"),
            VmdkIoError::ReadOnly { offset } => "write to read-only VMDK extent at offset "
                .to_owned().concat(decimal_text(*offset as u128).as_str()).concat(" rejected"),
            VmdkIoError::NotAccessible => "VMDK extent is not accessible".to_owned(),
            VmdkIoError::TransferFailed => "VMDK transfer failed".to_owned(),
            VmdkIoError::PunchHoleUnsupported
                => "punch_hole not supported for flat VMDK".to_owned(),
            VmdkIoError::WriteZeroesUnsupported
                => "write_zeroes not supported for flat VMDK".to_owned(),
        }
    }
}

/// An error as the operation that met it reports it.
#[derive(Clone, Copy, Debug, PartialEq, Eq, Structural)]
pub enum AsyncIoError {
    /// A read failed.
    ReadVectored(VmdkIoError),
    /// A write failed.
    WriteVectored(VmdkIoError),
    /// A flush failed.
    Fsync(VmdkIoError),
    /// A hole could not be punched.
    PunchHole(VmdkIoError),
    /// Zeroes could not be written.
    WriteZeroes(VmdkIoError),
}

/// `error` as a read, or else a write, reports it.
pub open spec fn data_error(error: VmdkIoError, is_read: bool) -> AsyncIoError {
    if is_read {
        AsyncIoError::ReadVectored(error)
    } else {
        AsyncIoError::WriteVectored(error)
    }
}

/// `error` as a read, or else a write, reports it.
pub fn wrap_data_error(error: VmdkIoError, is_read: bool) -> (res: AsyncIoError)
    ensures
        res == data_error(error, is_read),
{
    if is_read {
        AsyncIoError::ReadVectored(error)
    } else {
        AsyncIoError::WriteVectored(error)
    }
}

/// Invalid data are the requests that leave the disk or its extents, and they alone; denied are
/// those that an extent forbids or has no file for, and they alone; no error is one of input.
pub proof fn law_error_classes(e: VmdkIoError)
    ensures
        e.spec_kind() == VmdkErrorKind::InvalidData <==> e is ExceedsVirtualSize || e
            == VmdkIoError::OutsideExtents,
        e.spec_kind() == VmdkErrorKind::PermissionDenied <==> e is NoAccess || e is ReadOnly || e
            == VmdkIoError::NotAccessible,
        e.spec_kind() != VmdkErrorKind::InvalidInput,
{
}

/// The words of an error give its numbers in digits that read back: the range and the size of a
/// request that leaves the disk, and the offset of one that an extent forbids.
pub proof fn law_messages_give_their_numbers(start: u64, total: u64, size: u64)
    ensures
        exists|from: Seq<char>, to: Seq<char>, limit: Seq<char>|
            {
                &&& #[trigger] number(from, 10, u128::MAX as nat) == Some(start as nat)
                &&& #[trigger] number(to, 10, u128::MAX as nat) == Some((start + total) as nat)
                &&& #[trigger] number(limit, 10, u128::MAX as nat) == Some(size as nat)
                &&& VmdkIoError::ExceedsVirtualSize { start, total, size }.spec_message()
                    == "VMDK request ["@ + from + ", "@ + to + ") exceeds virtual size "@ + limit
            },
        exists|at: Seq<char>|
            {
                &&& #[trigger] number(at, 10, u128::MAX as nat) == Some(start as nat)
                &&& VmdkIoError::NoAccess { offset: start }.spec_message()
                    == "VMDK extent at offset "@ + at + " is NOACCESS; request rejected"@
                &&& VmdkIoError::ReadOnly { offset: start }.spec_message()
                    == "write to read-only VMDK extent at offset "@ + at + " rejected"@
            },
{
    let max = u128::MAX as nat;
    law_decimal_reads_back(start as nat, max);
    law_decimal_reads_back((start + total) as nat, max);
    law_decimal_reads_back(size as nat, max);
    assert(number(decimal(start as nat), 10, max) == Some(start as nat));
    assert(number(decimal((start + total) as nat), 10, max) == Some((start + total) as nat));
    assert(number(decimal(size as nat), 10, max) == Some(size as nat));
}

/// Each direction reports its errors under its own name, and keeps the cause.
pub proof fn law_errors_keep_direction_and_cause(e: VmdkIoError)
    ensures
        data_error(e, true) == AsyncIoError::ReadVectored(e),
        data_error(e, false) == AsyncIoError::WriteVectored(e),
{
}

} // verus!
