//! The data tier of a pool: its devices, and the extents of them that have
//! been handed to the layer above.

use vstd::prelude::*;
use crate::admission::{staged, targets_new, Candidate};
use crate::batch::{BatchView, InitBatch};
use crate::blockdev::{views, BlockDev, BlockDevView};
use crate::blockdevmgr::BlockDevMgr;
use crate::errors::{plain, Cause, EngineError};
use crate::records::{
    adopted, after_alloc, after_save, all_wf, allocated_area, allocated_total, allocated_upto,
    avail_total, device_of, devices_of, distinct, failures, first_with_uuid, grants, grants_upto,
    holds_uuid, in_allocated, lemma_adopt_fresh, lemma_alloc_accounts,
    lemma_allocated_within_capacity, lemma_device_of, lemma_device_of_prefix,
    lemma_grants_are_fresh, lemma_save_keeps_allocated, mda_upto, save_refusal_upto, size_upto,
    uuids_of,
};
use crate::segment::{
    coalesce_blkdevsegs, coalesced, covered, disjointed, lemma_coalesce_keeps_apart,
    lemma_coalesce_preserves, lemma_coalesced_owners, lemma_covered_concat, lemma_total_concat,
    total_length, BlkDevSegment, Segment,
};
use crate::types::{
    BlockDevTier, DevUuid, Device, PoolUuid, Sectors, Timestamp, MIN_MDA_SECTORS,
};

verus! {

/// What a data tier holds, as plain values.
pub struct TierView {
    /// The records of the devices.
    pub devs: Seq<BlockDevView>,
    /// The extents handed to the layer above.
    pub segments: Seq<BlkDevSegment>,
}

impl TierView {
    /// The extents are the allocated sectors, no more and no less: they
    /// cover exactly the sectors that are allocated on the devices, and
    /// their lengths add up to exactly the number of these sectors.
    pub open spec fn exact(self) -> bool {
        &&& covered(self.segments) == allocated_area(self.devs)
        &&& total_length(self.segments) == allocated_total(self.devs)
    }

    /// The extents are the allocated sectors, none of them is empty, and
    /// no two of them have a sector in common.
    pub open spec fn sound(self) -> bool {
        self.exact() && disjointed(self.segments)
    }
}

/// Every extent in `segments` is owned by a record in `devs`, on the
/// device of that record.
pub open spec fn linked(devs: Seq<BlockDevView>, segments: Seq<BlkDevSegment>) -> bool {
    forall|i: int|
        0 <= i < segments.len() ==> device_of(devs, (#[trigger] segments[i]).uuid) == Some(
            segments[i].segment.device,
        )
}

/// The extents as they are written down: owner, start and length.
pub open spec fn triples_of(segments: Seq<BlkDevSegment>) -> Seq<(DevUuid, Sectors, Sectors)> {
    segments.map_values(|x: BlkDevSegment| (x.uuid, x.segment.start, x.segment.length))
}

/// The extents that the triples `triples` stand for on the devices `devs`,
/// or the failure for the first triple whose owner is not among them.
pub open spec fn resolved(devs: Seq<BlockDevView>, triples: Seq<(DevUuid, Sectors, Sectors)>) -> Result<
    Seq<BlkDevSegment>,
    Cause,
>
    decreases triples.len(),
{
    if triples.len() == 0 {
        Ok(Seq::empty())
    } else {
        match resolved(devs, triples.drop_last()) {
            Err(c) => Err(c),
            Ok(before) => {
                let t = triples.last();
                match device_of(devs, t.0) {
                    None => Err(Cause::MissingDevice { uuid: t.0 }),
                    Some(device) => Ok(
                        before.push(
                            BlkDevSegment {
                                uuid: t.0,
                                segment: Segment { device, start: t.1, length: t.2 },
                            },
                        ),
                    ),
                }
            },
        }
    }
}

/// The data tier of a pool.
#[derive(Debug)]
pub struct DataTier {
    block_mgr: BlockDevMgr,
    segments: Vec<BlkDevSegment>,
}

impl View for DataTier {
    type V = TierView;

    closed spec fn view(&self) -> TierView {
        TierView { devs: self.block_mgr@, segments: self.segments@ }
    }
}

impl DataTier {
    /// The devices are well formed and distinct, and every extent is owned
    /// by one of them.
    pub open spec fn wf(&self) -> bool {
        &&& all_wf(self@.devs)
        &&& distinct(self@.devs)
        &&& linked(self@.devs, self@.segments)
    }

    /// The tier of the devices in `block_mgr` with the extents that the
    /// triples `segments` stand for: each triple is the UUID of a device
    /// record, a start and a length. Fails for the first triple whose
    /// device record is not in `block_mgr`.
    pub fn setup(block_mgr: BlockDevMgr, segments: &Vec<(DevUuid, Sectors, Sectors)>) -> (r: Result<
        DataTier,
        EngineError,
    >)
        requires
            block_mgr.wf(),
        ensures
            match resolved(block_mgr@, segments@) {
                Err(c) => r matches Err(e) && e@ == plain(c),
                Ok(extents) => r matches Ok(tier) && tier.wf() && tier@ == (TierView {
                    devs: block_mgr@,
                    segments: extents,
                }),
            },
    {
        let mut extents: Vec<BlkDevSegment> = Vec::new();
        let mut i: usize = 0;
        while i < segments.len()
            invariant
                i <= segments.len(),
                resolved(block_mgr@, segments@.take(i as int)) == Ok::<Seq<BlkDevSegment>, Cause>(
                    extents@,
                ),
                linked(block_mgr@, extents@),
            decreases segments.len() - i,
        {
            proof {
                assert(segments@.take(i as int + 1).drop_last() == segments@.take(i as int));
            }
            let (uuid, start, length): (DevUuid, Sectors, Sectors) = segments[i];
            match block_mgr.uuid_to_devno(uuid) {
                None => {
                    proof {
                        lemma_resolved_failure_stays(block_mgr@, segments@, i as int + 1);
                    }
                    return Err(EngineError::new(Cause::MissingDevice { uuid }));
                },
                Some(device) => {
                    extents.push(BlkDevSegment::new(uuid, Segment::new(device, start, length)));
                },
            }
            i += 1;
        }
        proof {
            assert(segments@.take(segments.len() as int) == segments@);
        }
        Ok(DataTier { block_mgr, segments: extents })
    }

    /// The tier of the devices in `block_mgr`, with no extent handed out.
    pub fn new(block_mgr: BlockDevMgr) -> (r: DataTier)
        requires
            block_mgr.wf(),
        ensures
            r.wf(),
            r@ == (TierView { devs: block_mgr@, segments: Seq::empty() }),
            allocated_total(block_mgr@) == 0 ==> r@.sound(),
    {
        proof {
            if allocated_total(block_mgr@) == 0 {
                lemma_nothing_allocated(block_mgr@, block_mgr@.len() as int);
                assert(covered(Seq::<BlkDevSegment>::empty()) =~= allocated_area(block_mgr@));
            }
        }
        DataTier { block_mgr, segments: Vec::new() }
    }

    /// The manager of the devices.
    pub fn block_mgr(&self) -> (r: &BlockDevMgr)
        ensures
            r@ == self@.devs,
    {
        &self.block_mgr
    }

    /// The extents handed to the layer above.
    pub fn segments(&self) -> (r: &Vec<BlkDevSegment>)
        ensures
            r@ == self@.segments,
    {
        &self.segments
    }

    /// The extents as they are written down: for each, the UUID of its
    /// device record, its start and its length.
    pub fn triples(&self) -> (r: Vec<(DevUuid, Sectors, Sectors)>)
        ensures
            r@ == triples_of(self@.segments),
    {
        let mut out: Vec<(DevUuid, Sectors, Sectors)> = Vec::new();
        let mut i: usize = 0;
        while i < self.segments.len()
            invariant
                i <= self.segments.len(),
                out@ == triples_of(self@.segments).take(i as int),
            decreases self.segments.len() - i,
        {
            let x = &self.segments[i];
            out.push((x.uuid, x.segment.start, x.segment.length));
            proof {
                assert(triples_of(self@.segments).take(i as int + 1) == triples_of(
                    self@.segments,
                ).take(i as int).push(triples_of(self@.segments)[i as int]));
            }
            i += 1;
        }
        proof {
            assert(triples_of(self@.segments).take(self.segments.len() as int) == triples_of(
                self@.segments,
            ));
        }
        out
    }

    /// Judges the candidates `devices` for this pool and prepares the
    /// batch that gives the new devices their headers. The tier itself
    /// does not change, and no extent is handed out.
    pub fn add(&self, pool_uuid: PoolUuid, devices: &Vec<Candidate>, force: bool) -> (r: Result<
        InitBatch,
        EngineError,
    >)
        ensures
            match staged(devices_of(self@.devs), uuids_of(self@.devs), devices@, pool_uuid, force) {
                Err(c) => r matches Err(e) && e@ == plain(c),
                Ok(targets) => r matches Ok(b) && b.wf() && b@ == BatchView::start(
                    pool_uuid,
                    MIN_MDA_SECTORS,
                    targets,
                ) && targets_new(devices_of(self@.devs), uuids_of(self@.devs), targets),
            },
    {
        self.block_mgr.add(pool_uuid, devices, force)
    }

    /// Takes in the records `block_devs` and returns the UUIDs of those
    /// that joined. The extents stay as they are.
    pub fn adopt(&mut self, block_devs: Vec<BlockDev>) -> (r: Vec<DevUuid>)
        requires
            old(self).wf(),
            all_wf(views(block_devs@)),
        ensures
            final(self).wf(),
            final(self)@.segments == old(self)@.segments,
            final(self)@.devs == adopted(old(self)@.devs, views(block_devs@)),
            r@ == uuids_of(final(self)@.devs.skip(old(self)@.devs.len() as int)),
            old(self)@.exact() && (forall|i: int|
                0 <= i < block_devs@.len() ==> (#[trigger] block_devs@[i])@.allocated() == 0)
                ==> final(self)@.exact() && (old(self)@.sound() ==> final(self)@.sound()),
    {
        let ghost before = self@;
        proof {
            if forall|i: int|
                0 <= i < block_devs@.len() ==> (#[trigger] block_devs@[i])@.allocated() == 0 {
                assert forall|i: int| 0 <= i < views(block_devs@).len() implies (#[trigger] views(
                    block_devs@,
                )[i]).allocated() == 0 by {
                    assert(block_devs@[i]@.allocated() == 0);
                }
                lemma_adopt_fresh(before.devs, views(block_devs@));
            }
        }
        let r = self.block_mgr.adopt(block_devs);
        proof {
            assert forall|i: int| 0 <= i < self@.segments.len() implies device_of(
                self@.devs,
                (#[trigger] self@.segments[i]).uuid,
            ) == Some(self@.segments[i].segment.device) by {
                assert(device_of(before.devs, before.segments[i].uuid) == Some(
                    before.segments[i].segment.device,
                ));
                lemma_device_of_prefix(before.devs, self@.devs, before.segments[i].uuid);
            }
        }
        r
    }

    /// Takes `request` sectors from the devices and hands them to the
    /// layer above. Returns `false`, with nothing changed, if less than
    /// `request` sectors are free; else `true`, and the extents taken are
    /// coalesced into the extents of the tier.
    pub fn allocate(&mut self, request: Sectors) -> (r: bool)
        requires
            old(self).wf(),
        ensures
            final(self).wf(),
            r <==> avail_total(old(self)@.devs) >= request,
            !r ==> final(self)@ == old(self)@,
            r ==> {
                &&& final(self)@.devs == after_alloc(old(self)@.devs, request)
                &&& final(self)@.segments == coalesced(
                    old(self)@.segments + grants(old(self)@.devs, request),
                )
                &&& total_length(final(self)@.segments) == total_length(old(self)@.segments)
                    + request
            },
            old(self)@.exact() ==> final(self)@.exact(),
            old(self)@.sound() ==> final(self)@.sound(),
    {
        let ghost before = self@;
        match self.block_mgr.alloc_request(request) {
            Some(segs) => {
                self.segments = coalesce_blkdevsegs(&self.segments, &segs);
                proof {
                    let all = before.segments + segs@;
                    lemma_coalesce_preserves(all);
                    lemma_total_concat(before.segments, segs@);
                    lemma_covered_concat(before.segments, segs@);
                    lemma_alloc_accounts(before.devs, request);
                    if before.sound() {
                        lemma_grants_are_fresh(before.devs, request, before.segments);
                        lemma_coalesce_keeps_apart(all);
                    }
                    assert forall|i: int| 0 <= i < self@.segments.len() implies device_of(
                        self@.devs,
                        (#[trigger] self@.segments[i]).uuid,
                    ) == Some(self@.segments[i].segment.device) by {
                        let x = self@.segments[i];
                        lemma_coalesced_owners(all, i);
                        let j = choose|j: int|
                            0 <= j < all.len() && (#[trigger] all[j]).uuid == x.uuid
                                && all[j].segment.device == x.segment.device;
                        lemma_same_ids(before.devs, self@.devs, x.uuid);
                        if j < before.segments.len() {
                            assert(all[j] == before.segments[j]);
                            assert(device_of(before.devs, before.segments[j].uuid) == Some(
                                before.segments[j].segment.device,
                            ));
                        } else {
                            let g = j - before.segments.len();
                            assert(all[j] == segs@[g]);
                            lemma_grant_owner(before.devs, request, before.devs.len() as int, g);
                        }
                    }
                }
                true
            },
            None => false,
        }
    }

    /// The sectors handed to the layer above: the lengths of the extents,
    /// added up.
    pub fn capacity(&self) -> (r: u128)
        ensures
            r == total_length(self@.segments),
    {
        let mut sum: u128 = 0;
        let mut i: usize = 0;
        proof {
            assert(self@.segments.take(0) == Seq::<BlkDevSegment>::empty());
        }
        while i < self.segments.len()
            invariant
                i <= self.segments.len(),
                sum == total_length(self@.segments.take(i as int)),
                sum <= i * u64::MAX,
            decreases self.segments.len() - i,
        {
            proof {
                assert(self@.segments.take(i as int + 1).drop_last() == self@.segments.take(
                    i as int,
                ));
            }
            sum = sum + self.segments[i].segment.length as u128;
            i += 1;
        }
        proof {
            assert(self@.segments.take(self.segments.len() as int) == self@.segments);
        }
        sum
    }

    /// The sizes of all the devices, added up, whatever was allocated.
    pub fn current_capacity(&self) -> (r: u128)
        ensures
            r == size_upto(self@.devs, self@.devs.len() as int),
    {
        self.block_mgr.current_capacity()
    }

    /// The sectors reserved for metadata on all the devices, added up.
    pub fn metadata_size(&self) -> (r: u128)
        ensures
            r == mda_upto(self@.devs, self@.devs.len() as int),
    {
        self.block_mgr.metadata_size()
    }

    /// Gives the tier up, once the header of every device was wiped:
    /// `outcomes[i]` tells whether wiping the `i`-th device worked. The
    /// devices on which it failed are listed in the failure.
    pub fn destroy(self, outcomes: &Vec<bool>) -> (r: Result<(), EngineError>)
        ensures
            r is Ok <==> failures(devices_of(self@.devs), outcomes@).len() == 0,
            r matches Err(e) ==> e@ == (
                Cause::WipeFailed,
                failures(devices_of(self@.devs), outcomes@),
            ),
    {
        self.block_mgr.destroy_all(outcomes)
    }

    /// Checks that metadata `metadata` stamped `time` may be saved to
    /// every device, and returns the devices to write it to, in order.
    pub fn save_state(&self, time: &Timestamp, metadata: &[u8]) -> (r: Result<
        Vec<Device>,
        EngineError,
    >)
        requires
            self.wf(),
        ensures
            match save_refusal_upto(
                self@.devs,
                *time,
                metadata@.len() as usize,
                self@.devs.len() as int,
            ) {
                Some(c) => r matches Err(e) && e@ == plain(c),
                None => r matches Ok(v) && v@ == devices_of(self@.devs),
            },
    {
        self.block_mgr.save_state(time, metadata)
    }

    /// Takes note of how the writes that `save_state` asked for went.
    pub fn confirm_saved(&mut self, time: &Timestamp, outcomes: &Vec<bool>) -> (r: Result<
        (),
        EngineError,
    >)
        requires
            old(self).wf(),
        ensures
            final(self).wf(),
            final(self)@.segments == old(self)@.segments,
            final(self)@.devs == after_save(old(self)@.devs, *time, outcomes@),
            r is Ok <==> failures(devices_of(old(self)@.devs), outcomes@).len() == 0,
            r matches Err(e) ==> e@ == (
                Cause::SaveFailed,
                failures(devices_of(old(self)@.devs), outcomes@),
            ),
            old(self)@.exact() ==> final(self)@.exact(),
            old(self)@.sound() ==> final(self)@.sound(),
    {
        let ghost before = self@;
        let r = self.block_mgr.confirm_saved(time, outcomes);
        proof {
            lemma_save_keeps_allocated(before.devs, *time, outcomes@);
            assert forall|i: int| 0 <= i < self@.segments.len() implies device_of(
                self@.devs,
                (#[trigger] self@.segments[i]).uuid,
            ) == Some(self@.segments[i].segment.device) by {
                assert(device_of(before.devs, before.segments[i].uuid) == Some(
                    before.segments[i].segment.device,
                ));
                lemma_same_ids(before.devs, self@.devs, before.segments[i].uuid);
            }
        }
        r
    }

    /// The record with the UUID `uuid`, if the tier holds one, marked as a
    /// device of the data tier.
    pub fn get_blockdev_by_uuid(&self, uuid: DevUuid) -> (r: Option<(BlockDevTier, &BlockDev)>)
        ensures
            r is Some <==> holds_uuid(self@.devs, uuid),
            r matches Some(found) ==> found.0 == BlockDevTier::Data && exists|i: int|
                first_with_uuid(self@.devs, uuid, i) && #[trigger] self@.devs[i] == found.1@,
    {
        match self.block_mgr.get_by_uuid(uuid) {
            Some(bd) => {
                proof {
                    let i = choose|i: int|
                        first_with_uuid(self.block_mgr@, uuid, i) && #[trigger] self.block_mgr@[i]
                            == bd@;
                    assert(self@.devs[i] == bd@);
                }
                Some((BlockDevTier::Data, bd))
            },
            None => None,
        }
    }

    /// The record with the UUID `uuid`, if the tier holds one, to be
    /// changed in place, marked as a device of the data tier. The other
    /// records and the extents stay as they are.
    pub fn get_mut_blockdev_by_uuid(&mut self, uuid: DevUuid) -> (r: Option<
        (BlockDevTier, &mut BlockDev),
    >)
        ensures
            r is Some <==> holds_uuid(old(self)@.devs, uuid),
            r is None ==> final(self)@ == old(self)@,
            final(self)@.segments == old(self)@.segments,
            r matches Some(found) ==> found.0 == BlockDevTier::Data && exists|i: int|
                first_with_uuid(old(self)@.devs, uuid, i) && #[trigger] old(self)@.devs[i]
                    == found.1@ && final(self)@.devs == old(self)@.devs.update(
                    i,
                    final(found.1)@,
                ),
    {
        match self.block_mgr.get_mut_blockdev_by_uuid(uuid) {
            Some(bd) => Some((BlockDevTier::Data, bd)),
            None => None,
        }
    }

    /// The records of the tier, each with its UUID, in the order of the
    /// devices.
    pub fn blockdevs(&self) -> (r: Vec<(DevUuid, &BlockDev)>)
        ensures
            r@.len() == self@.devs.len(),
            forall|i: int|
                0 <= i < r@.len() ==> (#[trigger] r@[i]).0 == self@.devs[i].uuid && r@[i].1@
                    == self@.devs[i],
    {
        self.block_mgr.blockdevs()
    }

    /// The records of the tier, each with its UUID, in the order of the
    /// devices, to be changed in place. The extents stay as they are.
    pub fn blockdevs_mut(&mut self) -> (r: Vec<(DevUuid, &mut BlockDev)>)
        ensures
            r@.len() == old(self)@.devs.len(),
            final(self)@.devs.len() == old(self)@.devs.len(),
            final(self)@.segments == old(self)@.segments,
            forall|i: int|
                0 <= i < r@.len() ==> {
                    &&& (#[trigger] r@[i]).0 == old(self)@.devs[i].uuid
                    &&& r@[i].1@ == old(self)@.devs[i]
                    &&& final(self)@.devs[i] == final(r@[i].1)@
                },
    {
        self.block_mgr.blockdevs_mut()
    }
}

/// Where nothing is allocated, no sector is an allocated one.
proof fn lemma_nothing_allocated(s: Seq<BlockDevView>, k: int)
    requires
        0 <= k <= s.len(),
        all_wf(s),
        allocated_upto(s, k) == 0,
    ensures
        forall|j: int| 0 <= j < k ==> (#[trigger] s[j]).allocated() == 0,
        k == s.len() ==> allocated_area(s) == Set::<(Device, int)>::empty(),
    decreases k,
{
    if k > 0 {
        lemma_allocated_within_capacity(s, k - 1);
        assert(s[k - 1].wf());
        lemma_nothing_allocated(s, k - 1);
    }
    if k == s.len() {
        assert forall|p: (Device, int)| !allocated_area(s).contains(p) by {
            if allocated_area(s).contains(p) {
                let j = choose|j: int| 0 <= j < s.len() && in_allocated(#[trigger] s[j], p.0, p.1);
                assert(s[j].allocated() == 0);
                assert(s[j].wf());
            }
        }
        assert(allocated_area(s) =~= Set::<(Device, int)>::empty());
    }
}

/// A tier whose extents are the allocated sectors never has more sectors
/// handed out than its devices hold beyond their reserved ones; what is
/// handed out and what is free are together all that the devices hold
/// beyond their reserved sectors.
pub proof fn lemma_exact_within_capacity(v: TierView)
    requires
        all_wf(v.devs),
        v.exact(),
    ensures
        total_length(v.segments) <= size_upto(v.devs, v.devs.len() as int) - mda_upto(
            v.devs,
            v.devs.len() as int,
        ),
        total_length(v.segments) + avail_total(v.devs) == size_upto(v.devs, v.devs.len() as int)
            - mda_upto(v.devs, v.devs.len() as int),
{
    lemma_allocated_within_capacity(v.devs, v.devs.len() as int);
}

/// A missing device among the first `n` triples is the failure of all.
proof fn lemma_resolved_failure_stays(
    devs: Seq<BlockDevView>,
    triples: Seq<(DevUuid, Sectors, Sectors)>,
    n: int,
)
    requires
        0 <= n <= triples.len(),
        resolved(devs, triples.take(n)) is Err,
    ensures
        resolved(devs, triples) == resolved(devs, triples.take(n)),
    decreases triples.len() - n,
{
    if n < triples.len() {
        assert(triples.take(n + 1).drop_last() == triples.take(n));
        lemma_resolved_failure_stays(devs, triples, n + 1);
    } else {
        assert(triples.take(n) == triples);
    }
}

/// Looking a record up by its UUID depends on the devices and the UUIDs
/// of the records alone.
pub proof fn lemma_same_ids(s: Seq<BlockDevView>, t: Seq<BlockDevView>, uuid: DevUuid)
    requires
        s.len() == t.len(),
        forall|i: int|
            0 <= i < s.len() ==> (#[trigger] s[i]).uuid == t[i].uuid && s[i].device == t[i].device,
    ensures
        device_of(s, uuid) == device_of(t, uuid),
    decreases s.len(),
{
    if s.len() > 0 {
        assert(s[0].uuid == t[0].uuid && s[0].device == t[0].device);
        assert forall|i: int| 0 <= i < s.drop_first().len() implies (
        #[trigger] s.drop_first()[i]).uuid == t.drop_first()[i].uuid && s.drop_first()[i].device
            == t.drop_first()[i].device by {
            assert(s[i + 1].uuid == t[i + 1].uuid && s[i + 1].device == t[i + 1].device);
        }
        lemma_same_ids(s.drop_first(), t.drop_first(), uuid);
    }
}

/// Each extent given to a request is owned by the record of the device
/// that gave it.
pub proof fn lemma_grant_owner(s: Seq<BlockDevView>, size: Sectors, k: int, g: int)
    requires
        0 <= k <= s.len(),
        distinct(s),
        0 <= g < grants_upto(s, size, k).len(),
    ensures
        device_of(s, grants_upto(s, size, k)[g].uuid) == Some(
            grants_upto(s, size, k)[g].segment.device,
        ),
    decreases k,
{
    if k > 0 {
        let before = grants_upto(s, size, k - 1);
        if g < before.len() {
            lemma_grant_owner(s, size, k - 1, g);
        } else {
            assert(grants_upto(s, size, k)[g].uuid == s[k - 1].uuid);
            assert forall|j: int| 0 <= j < k - 1 implies (#[trigger] s[j]).uuid != s[k - 1].uuid by {
                assert(s[j].device != s[k - 1].device && s[j].uuid != s[k - 1].uuid);
            }
            lemma_device_of(s, k - 1);
        }
    }
}

/// Extents that are written down as triples and read back on the same
/// devices are the same extents, in the same order.
pub proof fn lemma_setup_round_trip(devs: Seq<BlockDevView>, segments: Seq<BlkDevSegment>)
    requires
        linked(devs, segments),
    ensures
        resolved(devs, triples_of(segments)) == Ok::<Seq<BlkDevSegment>, Cause>(segments),
    decreases segments.len(),
{
    let triples = triples_of(segments);
    if segments.len() == 0 {
        assert(segments == Seq::<BlkDevSegment>::empty());
    } else {
        let head = segments.drop_last();
        assert(triples.drop_last() == triples_of(head));
        assert forall|i: int| 0 <= i < head.len() implies device_of(devs, (#[trigger] head[i]).uuid)
            == Some(head[i].segment.device) by {
            assert(device_of(devs, segments[i].uuid) == Some(segments[i].segment.device));
        }
        lemma_setup_round_trip(devs, head);
        let x = segments.last();
        assert(device_of(devs, segments[segments.len() - 1].uuid) == Some(x.segment.device));
        assert(triples.last() == (x.uuid, x.segment.start, x.segment.length));
        assert(head.push(x) == segments);
    }
}

} // verus!
