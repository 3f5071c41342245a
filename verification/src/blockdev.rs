//! The record of one device that belongs to a pool.

use vstd::prelude::*;
use crate::errors::Cause;
use crate::range_alloc::{extents_of, granted, RangeAllocator};
use crate::segment::{BlkDevSegment, Segment};
use crate::types::{
    mda_size_valid, DevUuid, Device, Sectors, Timestamp, MIN_DEV_SECTORS, SECTOR_SIZE,
};

verus! {

/// What a device record holds, as plain values.
pub struct BlockDevView {
    /// The identity of the device.
    pub device: Device,
    /// The path of its device node.
    pub devnode: Seq<char>,
    /// The UUID given to the device when it joined the pool.
    pub uuid: DevUuid,
    /// The size of the device.
    pub size: Sectors,
    /// The sectors at the start of the device that are reserved for
    /// metadata.
    pub mda_size: Sectors,
    /// The sectors taken, counted from the start of the device: the
    /// reserved ones and those that were allocated.
    pub used: Sectors,
    /// The time of the last metadata that was saved, if any was.
    pub last_saved: Option<Timestamp>,
}

impl BlockDevView {
    /// The reserved area is one that may be reserved, the device is large
    /// enough to join a pool, and what is reserved and allocated fits the
    /// device.
    pub open spec fn wf(self) -> bool {
        &&& mda_size_valid(self.mda_size)
        &&& MIN_DEV_SECTORS <= self.size
        &&& self.mda_size <= self.used <= self.size
    }

    /// The sectors that are free.
    pub open spec fn available(self) -> Sectors {
        (self.size - self.used) as Sectors
    }

    /// The sectors that were allocated.
    pub open spec fn allocated(self) -> Sectors {
        (self.used - self.mda_size) as Sectors
    }

    /// The record of a device that has just joined a pool: nothing is
    /// allocated and nothing was saved.
    pub open spec fn fresh(
        device: Device,
        devnode: Seq<char>,
        uuid: DevUuid,
        size: Sectors,
        mda_size: Sectors,
    ) -> BlockDevView {
        BlockDevView { device, devnode, uuid, size, mda_size, used: mda_size, last_saved: None }
    }

    /// The largest metadata, in bytes, that the reserved area takes.
    pub open spec fn max_data_bytes(self) -> int {
        self.mda_size * SECTOR_SIZE
    }

    /// Why metadata of `len` bytes stamped `time` may not be saved to this
    /// device, if it may not: the time is not later than the last one
    /// saved, or the metadata does not fit the reserved area.
    pub open spec fn save_refusal(self, time: Timestamp, len: usize) -> Option<Cause> {
        if self.last_saved is Some && !time.is_after(self.last_saved->0) {
            Some(Cause::StaleTimestamp { device: self.device })
        } else if len > self.max_data_bytes() {
            Some(
                Cause::MetadataTooLarge {
                    device: self.device,
                    len,
                    capacity: self.max_data_bytes() as u64,
                },
            )
        } else {
            None
        }
    }

    /// The extents granted to a request that was given `length` sectors.
    pub open spec fn grant(self, length: Sectors) -> Seq<BlkDevSegment> {
        if length > 0 {
            seq![
                BlkDevSegment {
                    uuid: self.uuid,
                    segment: Segment { device: self.device, start: self.used, length },
                },
            ]
        } else {
            Seq::empty()
        }
    }
}

/// What each of the records in `s` holds.
pub open spec fn views(s: Seq<BlockDev>) -> Seq<BlockDevView> {
    s.map_values(|b: BlockDev| b@)
}

/// What is written down of a device record when the pool's metadata is
/// saved.
#[derive(Debug, PartialEq, Eq)]
pub struct BlockDevSave {
    pub uuid: DevUuid,
    pub devnode: String,
    pub total_size: Sectors,
}

/// The record of one device that belongs to a pool.
#[derive(Debug)]
pub struct BlockDev {
    device: Device,
    devnode: String,
    uuid: DevUuid,
    mda_size: Sectors,
    allocator: RangeAllocator,
    last_saved: Option<Timestamp>,
}

impl View for BlockDev {
    type V = BlockDevView;

    closed spec fn view(&self) -> BlockDevView {
        BlockDevView {
            device: self.device,
            devnode: self.devnode@,
            uuid: self.uuid,
            size: self.allocator.limit(),
            mda_size: self.mda_size,
            used: self.allocator.used(),
            last_saved: self.last_saved,
        }
    }
}

impl BlockDev {
    /// The record is well formed when what it holds is.
    pub open spec fn wf(&self) -> bool {
        self@.wf()
    }

    /// The record of a device that has just been given its header.
    pub(crate) fn new(
        device: Device,
        devnode: String,
        uuid: DevUuid,
        size: Sectors,
        mda_size: Sectors,
    ) -> (r: BlockDev)
        requires
            mda_size_valid(mda_size),
            MIN_DEV_SECTORS <= size,
        ensures
            r@ == BlockDevView::fresh(device, devnode@, uuid, size, mda_size),
            r.wf(),
    {
        let allocator = RangeAllocator::new(size, mda_size).unwrap();
        BlockDev { device, devnode, uuid, mda_size, allocator, last_saved: None }
    }

    /// The identity of the device.
    pub fn device(&self) -> (r: Device)
        ensures
            r == self@.device,
    {
        self.device
    }

    /// The UUID of the device.
    pub fn uuid(&self) -> (r: DevUuid)
        ensures
            r == self@.uuid,
    {
        self.uuid
    }

    /// The path of the device node.
    pub fn devnode(&self) -> (r: &String)
        ensures
            r@ == self@.devnode,
    {
        &self.devnode
    }

    /// The size of the device.
    pub fn size(&self) -> (r: Sectors)
        ensures
            r == self@.size,
    {
        self.allocator.size()
    }

    /// The sectors reserved for metadata.
    pub fn metadata_size(&self) -> (r: Sectors)
        ensures
            r == self@.mda_size,
    {
        self.mda_size
    }

    /// The time of the last metadata saved, if any was.
    pub fn last_saved(&self) -> (r: Option<Timestamp>)
        ensures
            r == self@.last_saved,
    {
        self.last_saved
    }

    /// The sectors that are free.
    pub fn available(&self) -> (r: Sectors)
        requires
            self.wf(),
        ensures
            r == self@.available(),
    {
        self.allocator.available()
    }

    /// Takes up to `amount` sectors of the device. Returns how many were
    /// granted, which is all of `amount` unless less is free, and the
    /// extents that realise the grant.
    pub fn request_space(&mut self, amount: Sectors) -> (r: (Sectors, Vec<BlkDevSegment>))
        requires
            old(self).wf(),
        ensures
            final(self).wf(),
            r.0 == granted(old(self)@.available(), amount),
            r.1@ == old(self)@.grant(r.0),
            final(self)@ == (BlockDevView { used: (old(self)@.used + r.0) as Sectors, ..old(self)@ }),
    {
        let ghost before = self@;
        let (got, extents): (Sectors, Vec<(Sectors, Sectors)>) = self.allocator.request(amount);
        let mut segments: Vec<BlkDevSegment> = Vec::new();
        let mut i: usize = 0;
        while i < extents.len()
            invariant
                i <= extents.len(),
                extents@ == extents_of(before.used, got),
                self.uuid == before.uuid,
                self.device == before.device,
                segments@ == before.grant(got).take(i as int),
            decreases extents.len() - i,
        {
            let (start, length): (Sectors, Sectors) = extents[i];
            segments.push(BlkDevSegment::new(self.uuid, Segment::new(self.device, start, length)));
            proof {
                assert(before.grant(got).take(i as int + 1) == before.grant(got).take(
                    i as int,
                ).push(before.grant(got)[i as int]));
            }
            i += 1;
        }
        proof {
            assert(before.grant(got).take(extents.len() as int) == before.grant(got));
        }
        (got, segments)
    }

    /// Why metadata of `len` bytes stamped `time` may not be saved to this
    /// device, if it may not.
    pub fn check_save(&self, time: &Timestamp, len: usize) -> (r: Option<Cause>)
        requires
            self.wf(),
        ensures
            r == self@.save_refusal(*time, len),
    {
        let stale: bool = match &self.last_saved {
            Some(t) => !time.later_than(t),
            None => false,
        };
        let capacity: u64 = self.mda_size * SECTOR_SIZE;
        if stale {
            Some(Cause::StaleTimestamp { device: self.device })
        } else if len as u64 > capacity {
            Some(Cause::MetadataTooLarge { device: self.device, len, capacity })
        } else {
            None
        }
    }

    /// Notes that metadata stamped `time` was saved to the device.
    pub(crate) fn mark_saved(&mut self, time: Timestamp)
        ensures
            final(self)@ == (BlockDevView { last_saved: Some(time), ..old(self)@ }),
    {
        self.last_saved = Some(time);
    }

    /// What is written down of this record when the pool's metadata is
    /// saved.
    pub fn record(&self) -> (r: BlockDevSave)
        ensures
            r.uuid == self@.uuid,
            r.devnode@ == self@.devnode,
            r.total_size == self@.size,
    {
        BlockDevSave {
            uuid: self.uuid,
            devnode: self.devnode.clone(),
            total_size: self.allocator.size(),
        }
    }
}

} // verus!
