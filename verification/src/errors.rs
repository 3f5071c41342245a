//! What can go wrong, and of which kind each failure is.

use vstd::prelude::*;
use crate::types::{Bytes, DevUuid, Device, PoolUuid, Sectors};

verus! {

/// The kinds of failure a caller has to tell apart.
#[derive(Clone, Copy, Debug, PartialEq, Eq, Structural)]
pub enum ErrorKind {
    /// A device or a UUID that was referred to is not there.
    NotFound,
    /// An input is not acceptable; nothing was written.
    InvalidInput,
    /// Reading from or writing to a device failed.
    IoFailure,
    /// The bookkeeping is inconsistent.
    InvariantViolation,
    /// The caller broke the rules of an operation.
    UsageError,
}

/// Why an operation failed.
#[derive(Clone, Copy, Debug, PartialEq, Eq, Structural)]
pub enum Cause {
    /// The path at position `path` of a list could not be resolved to a
    /// device; `errno` is what the system reported.
    Unresolved { path: usize, errno: i32 },
    /// A device could not be opened or read; `errno` is what the system
    /// reported.
    Io { device: Device, errno: i32 },
    /// A device has no device node.
    NoDevnode { device: Device },
    /// No device record carries this UUID.
    MissingDevice { uuid: DevUuid },
    /// The metadata area asked for is outside the allowed range.
    BadMdaSize { mda_size: Sectors },
    /// A device is smaller than the minimum.
    TooSmall { device: Device, size: Bytes },
    /// A device belongs to another application and `force` was not given.
    OwnedByOther { device: Device },
    /// A device belongs to another pool of this engine.
    OwnedByPool { device: Device, pool: PoolUuid },
    /// A freshly drawn UUID is already in use.
    UuidCollision { uuid: DevUuid },
    /// Writing the header of a device failed.
    InitFailed { device: Device },
    /// Wiping the devices of a pool failed on some of them.
    WipeFailed,
    /// Saving the pool's metadata failed on some devices.
    SaveFailed,
    /// The time given is not later than the last time saved on a device.
    StaleTimestamp { device: Device },
    /// The metadata does not fit the area reserved on a device.
    MetadataTooLarge { device: Device, len: usize, capacity: Bytes },
}

impl Cause {
    /// The kind of failure that this cause stands for.
    pub open spec fn spec_kind(&self) -> ErrorKind {
        match *self {
            Cause::Unresolved { .. } => ErrorKind::IoFailure,
            Cause::Io { .. } => ErrorKind::IoFailure,
            Cause::NoDevnode { .. } => ErrorKind::NotFound,
            Cause::MissingDevice { .. } => ErrorKind::NotFound,
            Cause::BadMdaSize { .. } => ErrorKind::InvalidInput,
            Cause::TooSmall { .. } => ErrorKind::InvalidInput,
            Cause::OwnedByOther { .. } => ErrorKind::InvalidInput,
            Cause::OwnedByPool { .. } => ErrorKind::InvalidInput,
            Cause::UuidCollision { .. } => ErrorKind::InvariantViolation,
            Cause::InitFailed { .. } => ErrorKind::IoFailure,
            Cause::WipeFailed => ErrorKind::IoFailure,
            Cause::SaveFailed => ErrorKind::IoFailure,
            Cause::StaleTimestamp { .. } => ErrorKind::UsageError,
            Cause::MetadataTooLarge { .. } => ErrorKind::UsageError,
        }
    }

    /// The kind of failure that this cause stands for.
    #[verifier::when_used_as_spec(spec_kind)]
    pub fn kind(&self) -> (k: ErrorKind)
        ensures
            k == self.spec_kind(),
    {
        match self {
            Cause::Unresolved { .. } => ErrorKind::IoFailure,
            Cause::Io { .. } => ErrorKind::IoFailure,
            Cause::NoDevnode { .. } => ErrorKind::NotFound,
            Cause::MissingDevice { .. } => ErrorKind::NotFound,
            Cause::BadMdaSize { .. } => ErrorKind::InvalidInput,
            Cause::TooSmall { .. } => ErrorKind::InvalidInput,
            Cause::OwnedByOther { .. } => ErrorKind::InvalidInput,
            Cause::OwnedByPool { .. } => ErrorKind::InvalidInput,
            Cause::UuidCollision { .. } => ErrorKind::InvariantViolation,
            Cause::InitFailed { .. } => ErrorKind::IoFailure,
            Cause::WipeFailed => ErrorKind::IoFailure,
            Cause::SaveFailed => ErrorKind::IoFailure,
            Cause::StaleTimestamp { .. } => ErrorKind::UsageError,
            Cause::MetadataTooLarge { .. } => ErrorKind::UsageError,
        }
    }
}

/// A failure: its cause, and the devices on which the work, or the
/// cleaning up after it, failed.
///
/// For `Cause::InitFailed` the list holds the devices that may still carry
/// a header because wiping them failed too; for `Cause::WipeFailed` and
/// `Cause::SaveFailed` the devices on which the wipe or the write failed.
/// For every other cause it is empty.
#[derive(Debug, PartialEq, Eq)]
pub struct EngineError {
    pub cause: Cause,
    pub devices: Vec<Device>,
}

impl View for EngineError {
    type V = (Cause, Seq<Device>);

    open spec fn view(&self) -> (Cause, Seq<Device>) {
        (self.cause, self.devices@)
    }
}

/// The view of a failure that names a cause and no devices.
pub open spec fn plain(cause: Cause) -> (Cause, Seq<Device>) {
    (cause, Seq::empty())
}

impl EngineError {
    /// A failure with the cause given and no devices.
    pub fn new(cause: Cause) -> (e: EngineError)
        ensures
            e@ == plain(cause),
    {
        EngineError { cause, devices: Vec::new() }
    }

    /// The kind of this failure.
    pub open spec fn spec_kind(&self) -> ErrorKind {
        self.cause.spec_kind()
    }

    /// The kind of this failure.
    #[verifier::when_used_as_spec(spec_kind)]
    pub fn kind(&self) -> (k: ErrorKind)
        ensures
            k == self.spec_kind(),
    {
        self.cause.kind()
    }
}

impl Clone for EngineError {
    fn clone(&self) -> (r: EngineError)
        ensures
            r@ == self@,
    {
        EngineError { cause: self.cause, devices: copy_devices(&self.devices) }
    }
}

/// A copy of a list of devices.
pub fn copy_devices(devices: &Vec<Device>) -> (r: Vec<Device>)
    ensures
        r@ == devices@,
{
    let mut out: Vec<Device> = Vec::new();
    let mut i: usize = 0;
    while i < devices.len()
        invariant
            i <= devices.len(),
            out@ == devices@.take(i as int),
        decreases devices.len() - i,
    {
        out.push(devices[i]);
        proof {
            assert(devices@.take(i as int + 1) == devices@.take(i as int).push(devices@[i as int]));
        }
        i += 1;
    }
    proof {
        assert(devices@.take(devices.len() as int) == devices@);
    }
    out
}

} // verus!
