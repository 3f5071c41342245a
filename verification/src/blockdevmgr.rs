//! The devices of one pool, taken together.

use vstd::prelude::*;
use crate::admission::{initialize, stage, staged, targets_new, Candidate};
use crate::batch::{BatchView, InitBatch};
use crate::blockdev::{views, BlockDev, BlockDevSave, BlockDevView};
use crate::errors::{plain, Cause, EngineError};
use crate::ident::{lemma_simple_form_injective, simple_form, simple_string};
use crate::records::{
    adopted, after_alloc, after_alloc_upto, after_save, all_wf, avail_total, avail_upto,
    device_of, devices_of, distinct, failures, first_of_device, first_with_uuid, grants,
    grants_upto, holds_device, holds_uuid, lemma_avail_after_alloc, lemma_device_of_none,
    lemma_refusal_stays, lemma_shares, lemma_sizes_upto_grows, lemma_sums_bounded, mda_upto,
    remaining, save_refusal_upto, served, size_upto, sizes_total, sizes_upto, uuids_of,
};
use crate::segment::{total_length, BlkDevSegment};
use crate::types::{
    mda_size_valid, DevUuid, Device, PoolUuid, Sectors, Timestamp, MIN_MDA_SECTORS,
};

verus! {

/// The devices of one pool, in the order in which they joined.
#[derive(Debug)]
pub struct BlockDevMgr {
    block_devs: Vec<BlockDev>,
}

impl View for BlockDevMgr {
    type V = Seq<BlockDevView>;

    closed spec fn view(&self) -> Seq<BlockDevView> {
        views(self.block_devs@)
    }
}

impl BlockDevMgr {
    /// Every record is well formed, and no two records are of the same
    /// device or have the same UUID.
    pub open spec fn wf(&self) -> bool {
        all_wf(self@) && distinct(self@)
    }

    /// The manager of the devices `block_devs`. A record of a device that
    /// an earlier record is of, or with the UUID of an earlier record, is
    /// left out.
    pub fn new(block_devs: Vec<BlockDev>) -> (r: BlockDevMgr)
        requires
            all_wf(views(block_devs@)),
        ensures
            r.wf(),
            r@ == adopted(Seq::empty(), views(block_devs@)),
    {
        let mut mgr = BlockDevMgr { block_devs: Vec::new() };
        proof {
            assert(mgr@ == Seq::<BlockDevView>::empty());
        }
        let _ = mgr.adopt(block_devs);
        mgr
    }

    /// Judges the candidates `devices` for a new pool and prepares the
    /// batch that gives the admitted devices their headers. The records
    /// that the finished batch yields make the manager of the pool.
    pub fn initialize(
        pool_uuid: PoolUuid,
        devices: &Vec<Candidate>,
        mda_size: Sectors,
        force: bool,
    ) -> (r: Result<InitBatch, EngineError>)
        ensures
            !mda_size_valid(mda_size) ==> (r matches Err(e) && e@ == plain(
                Cause::BadMdaSize { mda_size },
            )),
            mda_size_valid(mda_size) ==> match staged(
                Seq::empty(),
                Seq::empty(),
                devices@,
                pool_uuid,
                force,
            ) {
                Err(c) => r matches Err(e) && e@ == plain(c),
                Ok(targets) => r matches Ok(b) && b.wf() && b@ == BatchView::start(
                    pool_uuid,
                    mda_size,
                    targets,
                ),
            },
    {
        initialize(pool_uuid, devices, mda_size, force)
    }

    /// The number of devices.
    pub fn len(&self) -> (r: usize)
        ensures
            r == self@.len(),
    {
        self.block_devs.len()
    }

    /// The devices, in order.
    pub fn devices(&self) -> (r: Vec<Device>)
        ensures
            r@ == devices_of(self@),
    {
        let mut out: Vec<Device> = Vec::new();
        let mut i: usize = 0;
        while i < self.block_devs.len()
            invariant
                i <= self.block_devs.len(),
                out@ == devices_of(self@).take(i as int),
            decreases self.block_devs.len() - i,
        {
            out.push(self.block_devs[i].device());
            proof {
                assert(devices_of(self@).take(i as int + 1) == devices_of(self@).take(
                    i as int,
                ).push(devices_of(self@)[i as int]));
            }
            i += 1;
        }
        proof {
            assert(devices_of(self@).take(self.block_devs.len() as int) == devices_of(self@));
        }
        out
    }

    /// The UUIDs of the devices, in order.
    pub fn uuids(&self) -> (r: Vec<DevUuid>)
        ensures
            r@ == uuids_of(self@),
    {
        let mut out: Vec<DevUuid> = Vec::new();
        let mut i: usize = 0;
        while i < self.block_devs.len()
            invariant
                i <= self.block_devs.len(),
                out@ == uuids_of(self@).take(i as int),
            decreases self.block_devs.len() - i,
        {
            out.push(self.block_devs[i].uuid());
            proof {
                assert(uuids_of(self@).take(i as int + 1) == uuids_of(self@).take(i as int).push(
                    uuids_of(self@)[i as int],
                ));
            }
            i += 1;
        }
        proof {
            assert(uuids_of(self@).take(self.block_devs.len() as int) == uuids_of(self@));
        }
        out
    }

    /// The record of the device `device`, if the pool holds it.
    pub fn get_by_device(&self, device: Device) -> (r: Option<&BlockDev>)
        ensures
            r is Some <==> holds_device(self@, device),
            r matches Some(bd) ==> exists|i: int|
                first_of_device(self@, device, i) && #[trigger] self@[i] == bd@,
    {
        let mut i: usize = 0;
        while i < self.block_devs.len()
            invariant
                i <= self.block_devs.len(),
                forall|k: int| 0 <= k < i ==> (#[trigger] self@[k]).device != device,
            decreases self.block_devs.len() - i,
        {
            if self.block_devs[i].device() == device {
                proof {
                    assert(self@[i as int] == self.block_devs@[i as int]@);
                    assert(first_of_device(self@, device, i as int));
                }
                return Some(&self.block_devs[i]);
            }
            i += 1;
        }
        None
    }

    /// The record with the UUID `uuid`, if the pool holds one.
    pub fn get_by_uuid(&self, uuid: DevUuid) -> (r: Option<&BlockDev>)
        ensures
            r is Some <==> holds_uuid(self@, uuid),
            r matches Some(bd) ==> exists|i: int|
                first_with_uuid(self@, uuid, i) && #[trigger] self@[i] == bd@,
    {
        let mut i: usize = 0;
        while i < self.block_devs.len()
            invariant
                i <= self.block_devs.len(),
                forall|k: int| 0 <= k < i ==> (#[trigger] self@[k]).uuid != uuid,
            decreases self.block_devs.len() - i,
        {
            if self.block_devs[i].uuid() == uuid {
                proof {
                    assert(self@[i as int] == self.block_devs@[i as int]@);
                    assert(first_with_uuid(self@, uuid, i as int));
                }
                return Some(&self.block_devs[i]);
            }
            i += 1;
        }
        None
    }

    /// The record with the UUID `uuid`, if the pool holds one, to be
    /// changed in place. The other records stay as they are.
    pub fn get_mut_blockdev_by_uuid(&mut self, uuid: DevUuid) -> (r: Option<&mut BlockDev>)
        ensures
            r is Some <==> holds_uuid(old(self)@, uuid),
            r is None ==> final(self)@ == old(self)@,
            r matches Some(bd) ==> exists|i: int|
                first_with_uuid(old(self)@, uuid, i) && #[trigger] old(self)@[i] == bd@
                    && final(self)@ == old(self)@.update(i, final(bd)@),
    {
        let mut i: usize = 0;
        while i < self.block_devs.len() && self.block_devs[i].uuid() != uuid
            invariant
                i <= self.block_devs.len(),
                *self == *old(self),
                forall|k: int| 0 <= k < i ==> (#[trigger] self@[k]).uuid != uuid,
            decreases self.block_devs.len() - i,
        {
            i += 1;
        }
        if i < self.block_devs.len() {
            proof {
                assert(self@[i as int] == self.block_devs@[i as int]@);
                assert(first_with_uuid(self@, uuid, i as int));
            }
            let ghost before = self.block_devs@;
            let bd = &mut self.block_devs[i];
            proof {
                assert(views(before.update(i as int, *final(bd))) == views(before).update(
                    i as int,
                    final(bd)@,
                ));
            }
            Some(bd)
        } else {
            None
        }
    }

    /// The record of the device `device`, if the pool holds it, to be
    /// changed in place. The other records stay as they are.
    pub fn get_mut_by_device(&mut self, device: Device) -> (r: Option<&mut BlockDev>)
        ensures
            r is Some <==> holds_device(old(self)@, device),
            r is None ==> final(self)@ == old(self)@,
            r matches Some(bd) ==> exists|i: int|
                first_of_device(old(self)@, device, i) && #[trigger] old(self)@[i] == bd@
                    && final(self)@ == old(self)@.update(i, final(bd)@),
    {
        let mut i: usize = 0;
        while i < self.block_devs.len() && self.block_devs[i].device() != device
            invariant
                i <= self.block_devs.len(),
                *self == *old(self),
                forall|k: int| 0 <= k < i ==> (#[trigger] self@[k]).device != device,
            decreases self.block_devs.len() - i,
        {
            i += 1;
        }
        if i < self.block_devs.len() {
            proof {
                assert(self@[i as int] == self.block_devs@[i as int]@);
                assert(first_of_device(self@, device, i as int));
            }
            let ghost before = self.block_devs@;
            let bd = &mut self.block_devs[i];
            proof {
                assert(views(before.update(i as int, *final(bd))) == views(before).update(
                    i as int,
                    final(bd)@,
                ));
            }
            Some(bd)
        } else {
            None
        }
    }

    /// Takes in the records `block_devs`, in order, and returns the UUIDs
    /// of those that joined. A record of a device that the pool holds
    /// already, or with a UUID that is in use, does not join: no device is
    /// held twice.
    pub fn adopt(&mut self, block_devs: Vec<BlockDev>) -> (r: Vec<DevUuid>)
        requires
            old(self).wf(),
            all_wf(views(block_devs@)),
        ensures
            final(self).wf(),
            final(self)@ == adopted(old(self)@, views(block_devs@)),
            old(self)@.len() <= final(self)@.len(),
            final(self)@.take(old(self)@.len() as int) == old(self)@,
            r@ == uuids_of(final(self)@.skip(old(self)@.len() as int)),
    {
        let ghost incoming = views(block_devs@);
        let ghost start = self@;
        let mut added: Vec<DevUuid> = Vec::new();
        let mut rest = block_devs;
        let mut pending: Vec<BlockDev> = Vec::new();
        // `pending` gets the records in reverse, so that they can be taken
        // off its end in their order.
        while rest.len() > 0
            invariant
                views(rest@) + views(pending@).reverse() == incoming,
            decreases rest.len(),
        {
            let ghost r0 = rest@;
            let ghost p0 = pending@;
            let bd = rest.pop().unwrap();
            pending.push(bd);
            proof {
                assert(views(rest@) + views(pending@).reverse() =~= views(r0) + views(p0).reverse());
            }
        }
        let mut done: Ghost<int> = Ghost(0);
        proof {
            assert(views(pending@).reverse() =~= incoming);
            assert(incoming.take(0) =~= Seq::<BlockDevView>::empty());
            assert(self@.skip(start.len() as int) =~= Seq::<BlockDevView>::empty());
        }
        while pending.len() > 0
            invariant
                0 <= done@ <= incoming.len(),
                done@ + pending@.len() == incoming.len(),
                forall|k: int|
                    0 <= k < pending@.len() ==> #[trigger] pending@[k]@ == incoming[incoming.len()
                        - 1 - k],
                all_wf(incoming),
                self.wf(),
                self@ == adopted(start, incoming.take(done@)),
                start.len() <= self@.len(),
                self@.take(start.len() as int) == start,
                added@ == uuids_of(self@.skip(start.len() as int)),
            decreases pending.len(),
        {
            let bd = pending.pop().unwrap();
            let ghost before = self@;
            proof {
                assert(incoming.take(done@ + 1).drop_last() == incoming.take(done@));
                assert(incoming.take(done@ + 1).last() == bd@);
            }
            let known = match self.get_by_device(bd.device()) {
                Some(_) => true,
                None => false,
            };
            let taken = match self.get_by_uuid(bd.uuid()) {
                Some(_) => true,
                None => false,
            };
            if !known && !taken {
                added.push(bd.uuid());
                self.block_devs.push(bd);
                proof {
                    assert(self@ == before.push(bd@));
                    assert(self@.skip(start.len() as int) == before.skip(start.len() as int).push(
                        bd@,
                    ));
                    assert(self@.take(start.len() as int) == before.take(start.len() as int));
                    assert forall|i: int, j: int| 0 <= i < j < self@.len() implies (
                    #[trigger] self@[i]).device != (#[trigger] self@[j]).device && self@[i].uuid
                        != self@[j].uuid by {
                        if j < before.len() {
                            assert(before[i].device != before[j].device);
                        } else {
                            assert(before[i].device != bd@.device);
                            assert(before[i].uuid != bd@.uuid);
                        }
                    }
                }
            }
            proof {
                done@ = done@ + 1;
            }
        }
        proof {
            assert(incoming.take(incoming.len() as int) == incoming);
        }
        added
    }

    /// The free sectors of all the devices, added up.
    pub fn avail_space(&self) -> (r: u128)
        requires
            self.wf(),
        ensures
            r == avail_total(self@),
    {
        let mut sum: u128 = 0;
        let mut i: usize = 0;
        while i < self.block_devs.len()
            invariant
                i <= self.block_devs.len(),
                self.wf(),
                sum == avail_upto(self@, i as int),
            decreases self.block_devs.len() - i,
        {
            proof {
                lemma_sums_bounded(self@, i as int);
                assert(self@[i as int].wf());
            }
            sum = sum + self.block_devs[i].available() as u128;
            i += 1;
        }
        sum
    }

    /// The sizes of all the devices, added up.
    pub fn current_capacity(&self) -> (r: u128)
        ensures
            r == size_upto(self@, self@.len() as int),
    {
        let mut sum: u128 = 0;
        let mut i: usize = 0;
        while i < self.block_devs.len()
            invariant
                i <= self.block_devs.len(),
                sum == size_upto(self@, i as int),
            decreases self.block_devs.len() - i,
        {
            proof {
                lemma_sums_bounded(self@, i as int);
            }
            sum = sum + self.block_devs[i].size() as u128;
            i += 1;
        }
        sum
    }

    /// The sectors reserved for metadata on all the devices, added up.
    pub fn metadata_size(&self) -> (r: u128)
        ensures
            r == mda_upto(self@, self@.len() as int),
    {
        let mut sum: u128 = 0;
        let mut i: usize = 0;
        while i < self.block_devs.len()
            invariant
                i <= self.block_devs.len(),
                sum == mda_upto(self@, i as int),
            decreases self.block_devs.len() - i,
        {
            proof {
                lemma_sums_bounded(self@, i as int);
            }
            sum = sum + self.block_devs[i].metadata_size() as u128;
            i += 1;
        }
        sum
    }

    /// Judges the candidates `devices` for this pool and prepares the
    /// batch that gives the new devices their headers. A device that the
    /// pool holds already is passed over. The manager itself does not
    /// change: the records of the finished batch join it through `adopt`.
    pub fn add(&self, pool_uuid: PoolUuid, devices: &Vec<Candidate>, force: bool) -> (r: Result<
        InitBatch,
        EngineError,
    >)
        ensures
            match staged(devices_of(self@), uuids_of(self@), devices@, pool_uuid, force) {
                Err(c) => r matches Err(e) && e@ == plain(c),
                Ok(targets) => r matches Ok(b) && b.wf() && b@ == BatchView::start(
                    pool_uuid,
                    MIN_MDA_SECTORS,
                    targets,
                ) && targets_new(devices_of(self@), uuids_of(self@), targets),
            },
    {
        let known = self.devices();
        let taken = self.uuids();
        stage(&known, &taken, pool_uuid, devices, MIN_MDA_SECTORS, force)
    }

    /// The device of the record with the UUID `uuid`, if the pool holds
    /// one.
    pub fn uuid_to_devno(&self, uuid: DevUuid) -> (r: Option<Device>)
        ensures
            r == device_of(self@, uuid),
            r is None <==> !holds_uuid(self@, uuid),
    {
        proof {
            lemma_device_of_none(self@, uuid);
        }
        let mut i: usize = 0;
        proof {
            assert(self@.skip(0) == self@);
        }
        while i < self.block_devs.len()
            invariant
                i <= self.block_devs.len(),
                device_of(self@, uuid) == device_of(self@.skip(i as int), uuid),
            decreases self.block_devs.len() - i,
        {
            proof {
                assert(self@.skip(i as int).first() == self.block_devs@[i as int]@);
                assert(self@.skip(i as int).drop_first() == self@.skip(i as int + 1));
            }
            if self.block_devs[i].uuid() == uuid {
                return Some(self.block_devs[i].device());
            }
            i += 1;
        }
        None
    }

    /// Takes `size` sectors from the devices, in their order, each giving
    /// what is still wanted or all it has. Returns the extents taken, or
    /// `None`, with nothing taken, if less than `size` sectors are free in
    /// all.
    pub fn alloc_request(&mut self, size: Sectors) -> (r: Option<Vec<BlkDevSegment>>)
        requires
            old(self).wf(),
        ensures
            final(self).wf(),
            r is None <==> avail_total(old(self)@) < size,
            r is None ==> final(self)@ == old(self)@,
            r matches Some(segs) ==> {
                &&& segs@ == grants(old(self)@, size)
                &&& total_length(segs@) == size
                &&& final(self)@ == after_alloc(old(self)@, size)
                &&& avail_total(final(self)@) == avail_total(old(self)@) - size
            },
    {
        if self.avail_space() < size as u128 {
            return None;
        }
        let ghost start = self@;
        let mut needed: Sectors = size;
        let mut segs: Vec<BlkDevSegment> = Vec::new();
        let mut i: usize = 0;
        proof {
            assert(self@ == after_alloc_upto(start, size, 0));
        }
        while i < self.block_devs.len()
            invariant
                i <= self.block_devs.len(),
                self@.len() == start.len(),
                all_wf(start),
                distinct(start),
                self.wf(),
                needed == remaining(start, size, i as int),
                segs@ == grants_upto(start, size, i as int),
                self@ == after_alloc_upto(start, size, i as int),
            decreases self.block_devs.len() - i,
        {
            let ghost before = self@;
            proof {
                lemma_sums_bounded(start, i as int);
                assert(before[i as int] == start[i as int]);
                assert(start[i as int].wf());
            }
            let (gotten, mut part): (Sectors, Vec<BlkDevSegment>) = self.block_devs[i].request_space(
                needed,
            );
            segs.append(&mut part);
            needed = needed - gotten;
            proof {
                assert(self@ == before.update(i as int, self.block_devs@[i as int]@));
                assert(self@ == after_alloc_upto(start, size, i as int + 1));
                assert forall|a: int, b: int| 0 <= a < b < self@.len() implies (
                #[trigger] self@[a]).device != (#[trigger] self@[b]).device && self@[a].uuid
                    != self@[b].uuid by {
                    assert(start[a].device != start[b].device && start[a].uuid != start[b].uuid);
                }
            }
            i += 1;
        }
        proof {
            lemma_shares(start, size, start.len() as int);
            lemma_avail_after_alloc(start, size, start.len() as int);
        }
        Some(segs)
    }

    /// Serves the requests `sizes`, one after the other, each from the
    /// devices in their order. Returns the extents taken for each request,
    /// or `None`, with nothing taken, if less sectors are free in all than
    /// the requests ask for together.
    pub fn alloc_space(&mut self, sizes: &Vec<Sectors>) -> (r: Option<Vec<Vec<BlkDevSegment>>>)
        requires
            old(self).wf(),
        ensures
            final(self).wf(),
            r is None <==> avail_total(old(self)@) < sizes_total(sizes@),
            r is None ==> final(self)@ == old(self)@,
            r matches Some(lists) ==> {
                &&& lists@.len() == sizes@.len()
                &&& final(self)@ == served(old(self)@, sizes@, sizes@.len() as int)
                &&& forall|k: int|
                    0 <= k < lists@.len() ==> (#[trigger] lists@[k])@ == grants(
                        served(old(self)@, sizes@, k),
                        sizes@[k],
                    ) && total_length(lists@[k]@) == sizes@[k]
            },
    {
        let mut wanted: u128 = 0;
        let mut k: usize = 0;
        while k < sizes.len()
            invariant
                k <= sizes.len(),
                wanted == sizes_upto(sizes@, k as int),
                wanted <= k * u64::MAX,
            decreases sizes.len() - k,
        {
            wanted = wanted + sizes[k] as u128;
            k += 1;
        }
        if self.avail_space() < wanted {
            return None;
        }
        let ghost start = self@;
        let mut lists: Vec<Vec<BlkDevSegment>> = Vec::new();
        let mut k: usize = 0;
        while k < sizes.len()
            invariant
                k <= sizes.len(),
                self.wf(),
                wanted == sizes_total(sizes@),
                self@ == served(start, sizes@, k as int),
                avail_total(self@) >= wanted - sizes_upto(sizes@, k as int),
                lists@.len() == k,
                forall|j: int|
                    0 <= j < k ==> (#[trigger] lists@[j])@ == grants(
                        served(start, sizes@, j),
                        sizes@[j],
                    ) && total_length(lists@[j]@) == sizes@[j],
            decreases sizes.len() - k,
        {
            proof {
                lemma_sizes_upto_grows(sizes@, k as int + 1, sizes@.len() as int);
            }
            match self.alloc_request(sizes[k]) {
                Some(segs) => {
                    lists.push(segs);
                },
                None => {
                    // Not reached: what is free covers every request that
                    // is still to be served.
                    proof {
                        assert(false);
                    }
                    return None;
                },
            }
            k += 1;
        }
        Some(lists)
    }

    /// The paths of the device nodes, in the order of the devices.
    pub fn devnodes(&self) -> (r: Vec<String>)
        ensures
            r@.len() == self@.len(),
            forall|i: int| 0 <= i < r@.len() ==> (#[trigger] r@[i])@ == self@[i].devnode,
    {
        let mut out: Vec<String> = Vec::new();
        let mut i: usize = 0;
        while i < self.block_devs.len()
            invariant
                i <= self.block_devs.len(),
                out@.len() == i,
                forall|k: int| 0 <= k < i ==> (#[trigger] out@[k])@ == self@[k].devnode,
            decreases self.block_devs.len() - i,
        {
            out.push(self.block_devs[i].devnode().clone());
            i += 1;
        }
        out
    }

    /// The records, each with its UUID, in the order of the devices.
    pub fn blockdevs(&self) -> (r: Vec<(DevUuid, &BlockDev)>)
        ensures
            r@.len() == self@.len(),
            forall|i: int|
                0 <= i < r@.len() ==> (#[trigger] r@[i]).0 == self@[i].uuid && r@[i].1@ == self@[i],
    {
        let mut out: Vec<(DevUuid, &BlockDev)> = Vec::new();
        let mut i: usize = 0;
        while i < self.block_devs.len()
            invariant
                i <= self.block_devs.len(),
                out@.len() == i,
                forall|k: int|
                    0 <= k < i ==> (#[trigger] out@[k]).0 == self@[k].uuid && out@[k].1@
                        == self@[k],
            decreases self.block_devs.len() - i,
        {
            let bd = &self.block_devs[i];
            out.push((bd.uuid(), bd));
            i += 1;
        }
        out
    }

    /// The records, each with its UUID, in the order of the devices, to be
    /// changed in place.
    pub fn blockdevs_mut(&mut self) -> (r: Vec<(DevUuid, &mut BlockDev)>)
        ensures
            r@.len() == old(self)@.len(),
            final(self)@.len() == old(self)@.len(),
            forall|i: int|
                0 <= i < r@.len() ==> {
                    &&& (#[trigger] r@[i]).0 == old(self)@[i].uuid
                    &&& r@[i].1@ == old(self)@[i]
                    &&& final(self)@[i] == final(r@[i].1)@
                },
    {
        let ghost start = self.block_devs@;
        let mut out: Vec<(DevUuid, &mut BlockDev)> = Vec::new();
        let mut rest: &mut [BlockDev] = self.block_devs.as_mut_slice();
        let ghost whole_after: Seq<BlockDev> = final(rest)@;
        proof {
            assert(whole_after == Seq::new(0, |i: int| *final(out@[i].1)) + final(rest)@);
        }
        while rest.len() > 0
            invariant
                out@.len() + rest@.len() == start.len(),
                rest@ == start.skip(out@.len() as int),
                forall|i: int|
                    0 <= i < out@.len() ==> (#[trigger] out@[i]).0 == start[i]@.uuid && *out@[i].1
                        == start[i],
                whole_after == Seq::new(out@.len(), |i: int| *final(out@[i].1)) + final(rest)@,
            decreases rest@.len(),
        {
            let ghost taken = Seq::new(out@.len(), |i: int| *final(out@[i].1));
            let whole = rest;
            let (head, tail) = whole.split_at_mut(1);
            let ghost head_after = final(head)@;
            let bd = head.first_mut().unwrap();
            let ghost changed = *final(bd);
            out.push((bd.uuid(), bd));
            rest = tail;
            proof {
                assert(head_after == seq![changed]);
                assert(Seq::new(out@.len(), |i: int| *final(out@[i].1)) == taken.push(changed));
                assert(whole_after == taken.push(changed) + final(rest)@);
            }
        }
        proof {
            assert(final(rest)@ == rest@);
            assert(whole_after == Seq::new(out@.len(), |i: int| *final(out@[i].1)));
            assert(after_borrow(self.block_devs)@ == whole_after);
        }
        out
    }

    /// What is written down of each record when the pool's metadata is
    /// saved: one entry for each device, in their order, under the simple
    /// form of the device's UUID. No two entries of a well-formed pool
    /// stand under the same form.
    pub fn record(&self) -> (r: Vec<(String, BlockDevSave)>)
        ensures
            r@.len() == self@.len(),
            forall|i: int|
                0 <= i < r@.len() ==> {
                    &&& (#[trigger] r@[i]).0@ == simple_form(self@[i].uuid)
                    &&& r@[i].1.uuid == self@[i].uuid
                    &&& r@[i].1.devnode@ == self@[i].devnode
                    &&& r@[i].1.total_size == self@[i].size
                },
            self.wf() ==> forall|i: int, j: int|
                0 <= i < j < r@.len() ==> (#[trigger] r@[i]).0@ != (#[trigger] r@[j]).0@,
    {
        let mut out: Vec<(String, BlockDevSave)> = Vec::new();
        let mut i: usize = 0;
        while i < self.block_devs.len()
            invariant
                i <= self.block_devs.len(),
                out@.len() == i,
                forall|k: int|
                    0 <= k < i ==> {
                        &&& (#[trigger] out@[k]).0@ == simple_form(self@[k].uuid)
                        &&& out@[k].1.uuid == self@[k].uuid
                        &&& out@[k].1.devnode@ == self@[k].devnode
                        &&& out@[k].1.total_size == self@[k].size
                    },
            decreases self.block_devs.len() - i,
        {
            let bd = &self.block_devs[i];
            out.push((simple_string(bd.uuid()), bd.record()));
            i += 1;
        }
        proof {
            if self.wf() {
                assert forall|i: int, j: int| 0 <= i < j < out@.len() implies (
                #[trigger] out@[i]).0@ != (#[trigger] out@[j]).0@ by {
                    assert(self@[i].device != self@[j].device && self@[i].uuid != self@[j].uuid);
                    if out@[i].0@ == out@[j].0@ {
                        lemma_simple_form_injective(self@[i].uuid, self@[j].uuid);
                    }
                }
            }
        }
        out
    }

    /// Checks that metadata `metadata` stamped `time` may be saved to
    /// every device, and returns the devices to write it to, in order.
    ///
    /// Fails, before anything is written, for the first device whose last
    /// save is not earlier than `time` or whose reserved area is too small
    /// for the metadata.
    pub fn save_state(&self, time: &Timestamp, metadata: &[u8]) -> (r: Result<
        Vec<Device>,
        EngineError,
    >)
        requires
            self.wf(),
        ensures
            match save_refusal_upto(self@, *time, metadata@.len() as usize, self@.len() as int) {
                Some(c) => r matches Err(e) && e@ == plain(c),
                None => r matches Ok(v) && v@ == devices_of(self@),
            },
    {
        let len: usize = metadata.len();
        let mut i: usize = 0;
        while i < self.block_devs.len()
            invariant
                i <= self.block_devs.len(),
                self.wf(),
                len == metadata@.len(),
                save_refusal_upto(self@, *time, len, i as int) is None,
            decreases self.block_devs.len() - i,
        {
            proof {
                assert(self@[i as int].wf());
            }
            match self.block_devs[i].check_save(time, len) {
                Some(cause) => {
                    proof {
                        lemma_refusal_stays(self@, *time, len, i as int + 1);
                    }
                    return Err(EngineError::new(cause));
                },
                None => {},
            }
            i += 1;
        }
        Ok(self.devices())
    }

    /// Takes note of how the writes that `save_state` asked for went:
    /// `outcomes[i]` tells whether the write to the `i`-th device worked.
    /// Each device whose write worked has `time` as the time of its last
    /// save; the others are listed in the failure.
    pub fn confirm_saved(&mut self, time: &Timestamp, outcomes: &Vec<bool>) -> (r: Result<
        (),
        EngineError,
    >)
        requires
            old(self).wf(),
        ensures
            final(self).wf(),
            final(self)@ == after_save(old(self)@, *time, outcomes@),
            r is Ok <==> failures(devices_of(old(self)@), outcomes@).len() == 0,
            r matches Err(e) ==> e@ == (
                Cause::SaveFailed,
                failures(devices_of(old(self)@), outcomes@),
            ),
    {
        let ghost start = self@;
        let mut failed: Vec<Device> = Vec::new();
        let mut i: usize = 0;
        proof {
            assert(devices_of(start).take(0) == Seq::<Device>::empty());
            assert(self@ == Seq::new(start.len(), |k: int| start[k]));
        }
        while i < self.block_devs.len()
            invariant
                i <= self.block_devs.len(),
                self@.len() == start.len(),
                all_wf(start),
                distinct(start),
                failed@ == failures(devices_of(start).take(i as int), outcomes@),
                self@ == Seq::new(
                    start.len(),
                    |k: int|
                        if k < i && k < outcomes@.len() && outcomes@[k] {
                            BlockDevView { last_saved: Some(*time), ..start[k] }
                        } else {
                            start[k]
                        },
                ),
            decreases self.block_devs.len() - i,
        {
            let ghost before = self@;
            proof {
                assert(devices_of(start).take(i as int + 1).drop_last() == devices_of(start).take(
                    i as int,
                ));
                assert(before[i as int] == start[i as int]);
            }
            if i < outcomes.len() && outcomes[i] {
                self.block_devs[i].mark_saved(*time);
            } else {
                failed.push(self.block_devs[i].device());
            }
            proof {
                assert(self@ == before.update(i as int, self.block_devs@[i as int]@));
            }
            i += 1;
        }
        proof {
            assert(devices_of(start).take(start.len() as int) == devices_of(start));
            assert(self@ == after_save(start, *time, outcomes@));
            assert forall|k: int| 0 <= k < self@.len() implies (#[trigger] self@[k]).wf() by {
                assert(start[k].wf());
            }
            assert forall|a: int, b: int| 0 <= a < b < self@.len() implies (
            #[trigger] self@[a]).device != (#[trigger] self@[b]).device && self@[a].uuid
                != self@[b].uuid by {
                assert(start[a].device != start[b].device && start[a].uuid != start[b].uuid);
            }
        }
        if failed.len() == 0 {
            Ok(())
        } else {
            Err(EngineError { cause: Cause::SaveFailed, devices: failed })
        }
    }

    /// Gives the pool up, once the header of every device was wiped:
    /// `outcomes[i]` tells whether wiping the `i`-th device worked. A wipe
    /// that failed does not keep the others from being attempted; the
    /// devices on which it failed are listed in the failure.
    pub fn destroy_all(self, outcomes: &Vec<bool>) -> (r: Result<(), EngineError>)
        ensures
            r is Ok <==> failures(devices_of(self@), outcomes@).len() == 0,
            r matches Err(e) ==> e@ == (Cause::WipeFailed, failures(devices_of(self@), outcomes@)),
    {
        let mut failed: Vec<Device> = Vec::new();
        let mut i: usize = 0;
        proof {
            assert(devices_of(self@).take(0) == Seq::<Device>::empty());
        }
        while i < self.block_devs.len()
            invariant
                i <= self.block_devs.len(),
                failed@ == failures(devices_of(self@).take(i as int), outcomes@),
            decreases self.block_devs.len() - i,
        {
            proof {
                assert(devices_of(self@).take(i as int + 1).drop_last() == devices_of(self@).take(
                    i as int,
                ));
            }
            if !(i < outcomes.len() && outcomes[i]) {
                failed.push(self.block_devs[i].device());
            }
            i += 1;
        }
        proof {
            assert(devices_of(self@).take(self@.len() as int) == devices_of(self@));
        }
        if failed.len() == 0 {
            Ok(())
        } else {
            Err(EngineError { cause: Cause::WipeFailed, devices: failed })
        }
    }
}

} // verus!
