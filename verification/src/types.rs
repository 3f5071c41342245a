//! Plain values shared by every module: device identities, sizes, UUIDs.

use vstd::prelude::*;

verus! {

/// A length or an offset in 512-byte sectors.
pub type Sectors = u64;

/// A length in bytes.
pub type Bytes = u64;

/// The UUID of one device record, as its 128-bit value.
pub type DevUuid = u128;

/// The UUID of a pool, as its 128-bit value.
pub type PoolUuid = u128;

/// Bytes in a sector.
pub const SECTOR_SIZE: u64 = 512;

/// The smallest device that may join a pool: 1 GiB.
pub const MIN_DEV_SIZE: Bytes = 1_073_741_824;

/// `MIN_DEV_SIZE` in sectors.
pub const MIN_DEV_SECTORS: Sectors = 2_097_152;

/// The smallest metadata area that may be reserved on a device.
pub const MIN_MDA_SECTORS: Sectors = 2040;

/// A metadata area is divided into this many regions of equal size.
pub const NUM_MDA_REGIONS: u64 = 4;

/// The identity of a physical device: its major and minor number.
#[derive(Clone, Copy, Debug, PartialEq, Eq, Structural, Hash)]
pub struct Device {
    pub major: u32,
    pub minor: u32,
}

impl Device {
    /// `self` comes before `other`: by major number, then by minor number.
    pub open spec fn precedes(self, other: Device) -> bool {
        self.major < other.major || (self.major == other.major && self.minor < other.minor)
    }

    /// Whether `self` comes before `other` in the order of devices.
    pub fn is_before(&self, other: &Device) -> (r: bool)
        ensures
            r == self.precedes(*other),
    {
        self.major < other.major || (self.major == other.major && self.minor < other.minor)
    }
}

/// Who a device belongs to, as read from the device itself.
#[derive(Clone, Copy, Debug, PartialEq, Eq, Structural)]
pub enum DevOwnership {
    /// No recognisable owner.
    Unowned,
    /// Some other application has put its signature on the device.
    Theirs,
    /// The device carries this engine's header, for the pool given.
    Ours(PoolUuid),
}

/// The tier of a pool that a device record serves.
#[derive(Clone, Copy, Debug, PartialEq, Eq, Structural)]
pub enum BlockDevTier {
    Data,
    Cache,
}

/// A point in time: seconds, then nanoseconds within the second.
#[derive(Clone, Copy, Debug, PartialEq, Eq, Structural)]
pub struct Timestamp {
    pub sec: i64,
    pub nsec: i32,
}

impl Timestamp {
    /// `self` is strictly later than `other`.
    pub open spec fn is_after(self, other: Timestamp) -> bool {
        self.sec > other.sec || (self.sec == other.sec && self.nsec > other.nsec)
    }

    /// Whether `self` is strictly later than `other`.
    pub fn later_than(&self, other: &Timestamp) -> (r: bool)
        ensures
            r == self.is_after(*other),
    {
        self.sec > other.sec || (self.sec == other.sec && self.nsec > other.nsec)
    }
}

/// The number of whole sectors in `bytes`.
pub open spec fn sectors_of(bytes: Bytes) -> Sectors {
    bytes / SECTOR_SIZE
}

/// Converts a length in bytes to whole sectors, rounding down.
pub fn bytes_to_sectors(bytes: Bytes) -> (r: Sectors)
    ensures
        r == sectors_of(bytes),
{
    bytes / SECTOR_SIZE
}

/// A metadata area of `mda_size` sectors may be reserved: it divides into
/// `NUM_MDA_REGIONS` equal regions, is at least `MIN_MDA_SECTORS` long, and
/// leaves room on the smallest admissible device.
pub open spec fn mda_size_valid(mda_size: Sectors) -> bool {
    &&& mda_size % NUM_MDA_REGIONS == 0
    &&& MIN_MDA_SECTORS <= mda_size
    &&& mda_size < MIN_DEV_SECTORS
}

} // verus!
