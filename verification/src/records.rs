//! The records of a pool as plain values: what the operations on a pool
//! compute, and what holds of it.

use vstd::prelude::*;
use crate::admission::{targets_new, targets_wf, InitTarget};
use crate::blockdev::BlockDevView;
use crate::errors::Cause;
use crate::range_alloc::granted;
use crate::segment::{
    apart, covered, disjointed, in_extent, lemma_covered_concat, lemma_total_concat,
    total_length, BlkDevSegment, Segment,
};
use crate::types::{DevUuid, Device, Sectors, Timestamp};

verus! {

/// Some record in `s` is of the device `device`.
pub open spec fn holds_device(s: Seq<BlockDevView>, device: Device) -> bool {
    exists|j: int| 0 <= j < s.len() && (#[trigger] s[j]).device == device
}

/// Some record in `s` has the UUID `uuid`.
pub open spec fn holds_uuid(s: Seq<BlockDevView>, uuid: DevUuid) -> bool {
    exists|j: int| 0 <= j < s.len() && (#[trigger] s[j]).uuid == uuid
}

/// The `i`-th record of `s` is the first of the device `device`.
pub open spec fn first_of_device(s: Seq<BlockDevView>, device: Device, i: int) -> bool {
    &&& 0 <= i < s.len()
    &&& s[i].device == device
    &&& forall|j: int| 0 <= j < i ==> (#[trigger] s[j]).device != device
}

/// The `i`-th record of `s` is the first with the UUID `uuid`.
pub open spec fn first_with_uuid(s: Seq<BlockDevView>, uuid: DevUuid, i: int) -> bool {
    &&& 0 <= i < s.len()
    &&& s[i].uuid == uuid
    &&& forall|j: int| 0 <= j < i ==> (#[trigger] s[j]).uuid != uuid
}

/// No two records in `s` are of the same device or have the same UUID.
pub open spec fn distinct(s: Seq<BlockDevView>) -> bool {
    forall|i: int, j: int|
        0 <= i < j < s.len() ==> (#[trigger] s[i]).device != (#[trigger] s[j]).device && s[i].uuid
            != s[j].uuid
}

/// Every record in `s` is well formed.
pub open spec fn all_wf(s: Seq<BlockDevView>) -> bool {
    forall|i: int| 0 <= i < s.len() ==> (#[trigger] s[i]).wf()
}

/// The records `existing` after `incoming` are taken in, in order: a record
/// joins unless a record of its device, or one with its UUID, is there
/// already.
pub open spec fn adopted(existing: Seq<BlockDevView>, incoming: Seq<BlockDevView>) -> Seq<
    BlockDevView,
>
    decreases incoming.len(),
{
    if incoming.len() == 0 {
        existing
    } else {
        let before = adopted(existing, incoming.drop_last());
        let x = incoming.last();
        if holds_device(before, x.device) || holds_uuid(before, x.uuid) {
            before
        } else {
            before.push(x)
        }
    }
}

/// The devices of the records in `s`, in order.
pub open spec fn devices_of(s: Seq<BlockDevView>) -> Seq<Device> {
    s.map_values(|v: BlockDevView| v.device)
}

/// The UUIDs of the records in `s`, in order.
pub open spec fn uuids_of(s: Seq<BlockDevView>) -> Seq<DevUuid> {
    s.map_values(|v: BlockDevView| v.uuid)
}

/// The free sectors of the first `k` records of `s`, added up.
pub open spec fn avail_upto(s: Seq<BlockDevView>, k: int) -> int
    decreases k,
{
    if k <= 0 {
        0
    } else {
        avail_upto(s, k - 1) + s[k - 1].available()
    }
}

/// The free sectors of all the records of `s`, added up.
pub open spec fn avail_total(s: Seq<BlockDevView>) -> int {
    avail_upto(s, s.len() as int)
}

/// The sizes of the first `k` records of `s`, added up.
pub open spec fn size_upto(s: Seq<BlockDevView>, k: int) -> int
    decreases k,
{
    if k <= 0 {
        0
    } else {
        size_upto(s, k - 1) + s[k - 1].size
    }
}

/// The reserved sectors of the first `k` records of `s`, added up.
pub open spec fn mda_upto(s: Seq<BlockDevView>, k: int) -> int
    decreases k,
{
    if k <= 0 {
        0
    } else {
        mda_upto(s, k - 1) + s[k - 1].mda_size
    }
}

/// What is still wanted of a request for `size` sectors when the devices
/// before the `i`-th have given all they could.
pub open spec fn remaining(s: Seq<BlockDevView>, size: Sectors, i: int) -> Sectors {
    if size > avail_upto(s, i) {
        (size - avail_upto(s, i)) as Sectors
    } else {
        0
    }
}

/// What the `i`-th device gives to a request for `size` sectors: all that
/// is still wanted, or all it has.
pub open spec fn share(s: Seq<BlockDevView>, size: Sectors, i: int) -> Sectors {
    granted(s[i].available(), remaining(s, size, i))
}

/// The extents that the first `k` devices give to a request for `size`
/// sectors, in the order of the devices.
pub open spec fn grants_upto(s: Seq<BlockDevView>, size: Sectors, k: int) -> Seq<BlkDevSegment>
    decreases k,
{
    if k <= 0 {
        Seq::empty()
    } else {
        grants_upto(s, size, k - 1) + s[k - 1].grant(share(s, size, k - 1))
    }
}

/// The records after the first `k` devices have given their share of a
/// request for `size` sectors.
pub open spec fn after_alloc_upto(s: Seq<BlockDevView>, size: Sectors, k: int) -> Seq<
    BlockDevView,
> {
    Seq::new(
        s.len(),
        |i: int|
            if i < k {
                BlockDevView { used: (s[i].used + share(s, size, i)) as Sectors, ..s[i] }
            } else {
                s[i]
            },
    )
}

/// The extents that the devices give to a request for `size` sectors, in
/// the order of the devices.
pub open spec fn grants(s: Seq<BlockDevView>, size: Sectors) -> Seq<BlkDevSegment> {
    grants_upto(s, size, s.len() as int)
}

/// The first `k` of the requests `sizes`, added up.
pub open spec fn sizes_upto(sizes: Seq<Sectors>, k: int) -> int
    decreases k,
{
    if k <= 0 {
        0
    } else {
        sizes_upto(sizes, k - 1) + sizes[k - 1]
    }
}

/// The requests `sizes`, added up.
pub open spec fn sizes_total(sizes: Seq<Sectors>) -> int {
    sizes_upto(sizes, sizes.len() as int)
}

/// The records after the first `k` of the requests `sizes` were served,
/// one after the other.
pub open spec fn served(s: Seq<BlockDevView>, sizes: Seq<Sectors>, k: int) -> Seq<BlockDevView>
    decreases k,
{
    if k <= 0 {
        s
    } else {
        after_alloc(served(s, sizes, k - 1), sizes[k - 1])
    }
}

/// The records after a request for `size` sectors was served.
pub open spec fn after_alloc(s: Seq<BlockDevView>, size: Sectors) -> Seq<BlockDevView> {
    after_alloc_upto(s, size, s.len() as int)
}

/// The sums over the first `k` records are bounded by `k` times the
/// largest sector count.
pub proof fn lemma_sums_bounded(s: Seq<BlockDevView>, k: int)
    requires
        0 <= k <= s.len(),
    ensures
        0 <= avail_upto(s, k) <= k * u64::MAX,
        0 <= size_upto(s, k) <= k * u64::MAX,
        0 <= mda_upto(s, k) <= k * u64::MAX,
    decreases k,
{
    if k > 0 {
        lemma_sums_bounded(s, k - 1);
    }
}

/// The devices in `devices` on which the work failed: those whose outcome
/// in `outcomes` is `false` or missing.
pub open spec fn failures(devices: Seq<Device>, outcomes: Seq<bool>) -> Seq<Device>
    decreases devices.len(),
{
    if devices.len() == 0 {
        Seq::empty()
    } else {
        let before = failures(devices.drop_last(), outcomes);
        let i = devices.len() - 1;
        if i < outcomes.len() && outcomes[i] {
            before
        } else {
            before.push(devices.last())
        }
    }
}

/// Why metadata of `len` bytes stamped `time` may not be saved to the
/// first `k` devices of `s`, if it may not: the reason of the first device
/// that refuses it.
pub open spec fn save_refusal_upto(s: Seq<BlockDevView>, time: Timestamp, len: usize, k: int) -> Option<
    Cause,
>
    decreases k,
{
    if k <= 0 {
        None
    } else {
        match save_refusal_upto(s, time, len, k - 1) {
            Some(c) => Some(c),
            None => s[k - 1].save_refusal(time, len),
        }
    }
}

/// The records after metadata stamped `time` was written with the
/// outcomes `outcomes`: each device whose write worked has `time` as the
/// time of its last save.
pub open spec fn after_save(s: Seq<BlockDevView>, time: Timestamp, outcomes: Seq<bool>) -> Seq<
    BlockDevView,
> {
    Seq::new(
        s.len(),
        |i: int|
            if i < outcomes.len() && outcomes[i] {
                BlockDevView { last_saved: Some(time), ..s[i] }
            } else {
                s[i]
            },
    )
}

/// The device of the first record in `s` with the UUID `uuid`.
pub open spec fn device_of(s: Seq<BlockDevView>, uuid: DevUuid) -> Option<Device>
    decreases s.len(),
{
    if s.len() == 0 {
        None
    } else if s.first().uuid == uuid {
        Some(s.first().device)
    } else {
        device_of(s.drop_first(), uuid)
    }
}

/// `device_of` finds the device of a record at any position, as long as no
/// earlier record has the same UUID.
pub proof fn lemma_device_of(s: Seq<BlockDevView>, i: int)
    requires
        0 <= i < s.len(),
        forall|j: int| 0 <= j < i ==> (#[trigger] s[j]).uuid != s[i].uuid,
    ensures
        device_of(s, s[i].uuid) == Some(s[i].device),
    decreases s.len(),
{
    if i > 0 {
        assert(s[0].uuid != s[i].uuid);
        assert forall|j: int| 0 <= j < i - 1 implies (#[trigger] s.drop_first()[j]).uuid
            != s.drop_first()[i - 1].uuid by {
            assert(s[j + 1].uuid != s[i].uuid);
        }
        lemma_device_of(s.drop_first(), i - 1);
    }
}

/// `device_of` finds nothing exactly if no record has the UUID.
pub proof fn lemma_device_of_none(s: Seq<BlockDevView>, uuid: DevUuid)
    ensures
        device_of(s, uuid) is None <==> !holds_uuid(s, uuid),
    decreases s.len(),
{
    if s.len() > 0 {
        lemma_device_of_none(s.drop_first(), uuid);
        if s.first().uuid == uuid {
            assert(s[0].uuid == uuid);
        } else {
            if holds_uuid(s, uuid) {
                let j = choose|j: int| 0 <= j < s.len() && (#[trigger] s[j]).uuid == uuid;
                assert(s.drop_first()[j - 1].uuid == uuid);
            }
            if holds_uuid(s.drop_first(), uuid) {
                let j = choose|j: int|
                    0 <= j < s.drop_first().len() && (#[trigger] s.drop_first()[j]).uuid == uuid;
                assert(s[j + 1].uuid == uuid);
            }
        }
    }
}

/// Looking a record up by its UUID is not disturbed by records that join
/// later.
pub proof fn lemma_device_of_prefix(s: Seq<BlockDevView>, t: Seq<BlockDevView>, uuid: DevUuid)
    requires
        s.len() <= t.len(),
        t.take(s.len() as int) == s,
        device_of(s, uuid) is Some,
    ensures
        device_of(t, uuid) == device_of(s, uuid),
    decreases s.len(),
{
    if s.len() > 0 {
        assert(t.first() == t.take(s.len() as int)[0]);
        if s.first().uuid != uuid {
            assert(t.drop_first().take(s.len() - 1) == s.drop_first());
            lemma_device_of_prefix(s.drop_first(), t.drop_first(), uuid);
        }
    }
}

/// What a pool gives to a request that it can serve adds up to the
/// request, and what is still wanted after the first `k` devices is what
/// they did not give.
pub proof fn lemma_shares(s: Seq<BlockDevView>, size: Sectors, k: int)
    requires
        0 <= k <= s.len(),
    ensures
        total_length(grants_upto(s, size, k)) + remaining(s, size, k) == size,
    decreases k,
{
    if k > 0 {
        lemma_shares(s, size, k - 1);
        lemma_sums_bounded(s, k - 1);
        lemma_total_concat(grants_upto(s, size, k - 1), s[k - 1].grant(share(s, size, k - 1)));
        let g = s[k - 1].grant(share(s, size, k - 1));
        if share(s, size, k - 1) > 0 {
            assert(g.drop_last() == Seq::<BlkDevSegment>::empty());
            assert(total_length(g) == share(s, size, k - 1)) by {
                assert(total_length(g.drop_last()) == 0);
            }
        }
    }
}

/// Serving a request takes from the free sectors what the extents given
/// hold.
pub proof fn lemma_avail_after_alloc(s: Seq<BlockDevView>, size: Sectors, k: int)
    requires
        0 <= k <= s.len(),
        all_wf(s),
    ensures
        avail_upto(after_alloc(s, size), k) == avail_upto(s, k) - total_length(
            grants_upto(s, size, k),
        ),
    decreases k,
{
    if k > 0 {
        lemma_avail_after_alloc(s, size, k - 1);
        let sh = share(s, size, k - 1);
        let g = s[k - 1].grant(sh);
        lemma_total_concat(grants_upto(s, size, k - 1), g);
        assert(s[k - 1].wf());
        if sh > 0 {
            assert(g.drop_last() == Seq::<BlkDevSegment>::empty());
            assert(total_length(g) == sh) by {
                assert(total_length(g.drop_last()) == 0);
            }
        }
    }
}

/// More requests never add up to less.
pub proof fn lemma_sizes_upto_grows(sizes: Seq<Sectors>, k: int, n: int)
    requires
        0 <= k <= n <= sizes.len(),
    ensures
        0 <= sizes_upto(sizes, k) <= sizes_upto(sizes, n),
    decreases n,
{
    if k < n {
        lemma_sizes_upto_grows(sizes, k, n - 1);
    } else if k > 0 {
        lemma_sizes_upto_grows(sizes, k - 1, k - 1);
    }
}

/// Records that come out of a batch prepared for a pool all join it: the
/// devices are new to the pool, and so are their UUIDs.
pub proof fn lemma_staged_all_join(
    s: Seq<BlockDevView>,
    targets: Seq<InitTarget>,
    mda_size: Sectors,
)
    requires
        targets_wf(targets),
        targets_new(devices_of(s), uuids_of(s), targets),
    ensures
        adopted(s, targets.map_values(|t: InitTarget| t.record(mda_size))) == s
            + targets.map_values(|t: InitTarget| t.record(mda_size)),
    decreases targets.len(),
{
    let records = targets.map_values(|t: InitTarget| t.record(mda_size));
    if targets.len() == 0 {
        assert(s + records == s);
    } else {
        let head = targets.drop_last();
        let head_records = head.map_values(|t: InitTarget| t.record(mda_size));
        assert(records.drop_last() == head_records);
        lemma_staged_all_join(s, head, mda_size);
        let before = s + head_records;
        let x = records.last();
        let n = targets.len() - 1;
        assert(x == targets[n].record(mda_size));
        if holds_device(before, x.device) {
            let j = choose|j: int| 0 <= j < before.len() && (#[trigger] before[j]).device
                == x.device;
            if j < s.len() {
                assert(devices_of(s)[j] == x.device);
                assert(devices_of(s).contains(targets[n].device));
            } else {
                assert(targets[j - s.len()].device == targets[n].device);
            }
        }
        if holds_uuid(before, x.uuid) {
            let j = choose|j: int| 0 <= j < before.len() && (#[trigger] before[j]).uuid == x.uuid;
            if j < s.len() {
                assert(uuids_of(s)[j] == x.uuid);
                assert(uuids_of(s).contains(targets[n].uuid));
            } else {
                assert(targets[j - s.len()].uuid == targets[n].uuid);
            }
        }
        assert(before.push(x) == s + records);
    }
}

/// A refusal among the first `n` devices is the refusal of all.
pub proof fn lemma_refusal_stays(s: Seq<BlockDevView>, time: Timestamp, len: usize, n: int)
    requires
        0 <= n <= s.len(),
        save_refusal_upto(s, time, len, n) is Some,
    ensures
        save_refusal_upto(s, time, len, s.len() as int) == save_refusal_upto(s, time, len, n),
    decreases s.len() - n,
{
    if n < s.len() {
        lemma_refusal_stays(s, time, len, n + 1);
    }
}

/// Sector `sector` of `device` is an allocated sector of the record `v`.
pub open spec fn in_allocated(v: BlockDevView, device: Device, sector: int) -> bool {
    v.device == device && v.mda_size <= sector < v.used
}

/// The allocated sectors of the records in `s`, each with its device.
pub open spec fn allocated_area(s: Seq<BlockDevView>) -> Set<(Device, int)> {
    Set::new(
        |p: (Device, int)|
            exists|j: int| 0 <= j < s.len() && in_allocated(#[trigger] s[j], p.0, p.1),
    )
}

/// The allocated sectors of the first `k` records of `s`, counted.
pub open spec fn allocated_upto(s: Seq<BlockDevView>, k: int) -> int
    decreases k,
{
    if k <= 0 {
        0
    } else {
        allocated_upto(s, k - 1) + s[k - 1].allocated()
    }
}

/// The allocated sectors of all the records of `s`, counted.
pub open spec fn allocated_total(s: Seq<BlockDevView>) -> int {
    allocated_upto(s, s.len() as int)
}

/// The count of allocated sectors of the first `k` records depends on
/// what these records hold of reserved and taken sectors alone.
pub proof fn lemma_allocated_upto_same(s: Seq<BlockDevView>, t: Seq<BlockDevView>, k: int)
    requires
        0 <= k <= s.len(),
        k <= t.len(),
        forall|i: int|
            0 <= i < k ==> (#[trigger] s[i]).mda_size == t[i].mda_size && s[i].used == t[i].used,
    ensures
        allocated_upto(s, k) == allocated_upto(t, k),
    decreases k,
{
    if k > 0 {
        lemma_allocated_upto_same(s, t, k - 1);
        assert(s[k - 1].mda_size == t[k - 1].mda_size && s[k - 1].used == t[k - 1].used);
    }
}

/// What is allocated never exceeds what the devices hold beyond their
/// reserved sectors.
pub proof fn lemma_allocated_within_capacity(s: Seq<BlockDevView>, k: int)
    requires
        0 <= k <= s.len(),
        all_wf(s),
    ensures
        0 <= allocated_upto(s, k) <= size_upto(s, k) - mda_upto(s, k),
        allocated_upto(s, k) + avail_upto(s, k) == size_upto(s, k) - mda_upto(s, k),
    decreases k,
{
    if k > 0 {
        lemma_allocated_within_capacity(s, k - 1);
        assert(s[k - 1].wf());
    }
}

/// Sector `sector` of `device` is among what the first `k` devices give to
/// a request for `size` sectors.
pub open spec fn in_granted(
    s: Seq<BlockDevView>,
    size: Sectors,
    k: int,
    device: Device,
    sector: int,
) -> bool {
    exists|j: int|
        0 <= j < k && (#[trigger] s[j]).device == device && s[j].used <= sector < s[j].used + share(
            s,
            size,
            j,
        )
}

/// The extents given to a request cover, on each device, the sectors from
/// the first free one up to as many as the device gives.
pub proof fn lemma_granted_area(
    s: Seq<BlockDevView>,
    size: Sectors,
    k: int,
    device: Device,
    sector: int,
)
    requires
        0 <= k <= s.len(),
        all_wf(s),
    ensures
        covered(grants_upto(s, size, k)).contains((device, sector)) <==> in_granted(
            s,
            size,
            k,
            device,
            sector,
        ),
    decreases k,
{
    let p = (device, sector);
    if k <= 0 {
        assert(grants_upto(s, size, k).len() == 0);
    } else {
        let before = grants_upto(s, size, k - 1);
        let sh = share(s, size, k - 1);
        let g = s[k - 1].grant(sh);
        lemma_granted_area(s, size, k - 1, device, sector);
        lemma_covered_concat(before, g);
        assert(s[k - 1].wf());
        let here = s[k - 1].device == device && s[k - 1].used <= sector < s[k - 1].used + sh;
        assert(covered(g).contains(p) <==> here) by {
            if covered(g).contains(p) {
                let i = choose|i: int|
                    0 <= i < g.len() && in_extent(#[trigger] g[i], p.0, p.1);
                assert(here);
            }
            if here {
                assert(in_extent(g[0], p.0, p.1));
            }
        }
        if in_granted(s, size, k, device, sector) {
            let j = choose|j: int|
                0 <= j < k && (#[trigger] s[j]).device == device && s[j].used <= sector < s[j].used
                    + share(s, size, j);
            if j < k - 1 {
                assert(in_granted(s, size, k - 1, device, sector));
            }
        }
        if in_granted(s, size, k - 1, device, sector) {
            let j = choose|j: int|
                0 <= j < k - 1 && (#[trigger] s[j]).device == device && s[j].used <= sector
                    < s[j].used + share(s, size, j);
            assert(0 <= j < k);
        }
        if here {
            assert(in_granted(s, size, k, device, sector));
        }
    }
}

/// Serving a request adds to the allocated sectors exactly the sectors of
/// the extents given, and to their count the total length of these
/// extents.
pub proof fn lemma_alloc_accounts(s: Seq<BlockDevView>, size: Sectors)
    requires
        all_wf(s),
    ensures
        allocated_total(after_alloc(s, size)) == allocated_total(s) + total_length(
            grants_upto(s, size, s.len() as int),
        ),
        allocated_area(after_alloc(s, size)) == allocated_area(s).union(
            covered(grants_upto(s, size, s.len() as int)),
        ),
{
    let t = after_alloc(s, size);
    let n = s.len() as int;
    lemma_alloc_counts(s, size, n);
    let grants = grants_upto(s, size, n);
    assert forall|p: (Device, int)| allocated_area(t).contains(p) <==> allocated_area(s).union(
        covered(grants),
    ).contains(p) by {
        lemma_granted_area(s, size, n, p.0, p.1);
        if allocated_area(t).contains(p) {
            let j = choose|j: int| 0 <= j < t.len() && in_allocated(#[trigger] t[j], p.0, p.1);
            assert(s[j].wf());
            if p.1 < s[j].used {
                assert(in_allocated(s[j], p.0, p.1));
            } else {
                assert(in_granted(s, size, n, p.0, p.1));
            }
        }
        if allocated_area(s).contains(p) {
            let j = choose|j: int| 0 <= j < s.len() && in_allocated(#[trigger] s[j], p.0, p.1);
            assert(s[j].wf());
            assert(in_allocated(t[j], p.0, p.1));
        }
        if in_granted(s, size, n, p.0, p.1) {
            let j = choose|j: int|
                0 <= j < n && (#[trigger] s[j]).device == p.0 && s[j].used <= p.1 < s[j].used
                    + share(s, size, j);
            assert(s[j].wf());
            assert(in_allocated(t[j], p.0, p.1));
        }
    }
    assert(allocated_area(t) =~= allocated_area(s).union(covered(grants)));
}

proof fn lemma_alloc_counts(s: Seq<BlockDevView>, size: Sectors, k: int)
    requires
        0 <= k <= s.len(),
        all_wf(s),
    ensures
        allocated_upto(after_alloc(s, size), k) == allocated_upto(s, k) + total_length(
            grants_upto(s, size, k),
        ),
    decreases k,
{
    if k > 0 {
        lemma_alloc_counts(s, size, k - 1);
        let sh = share(s, size, k - 1);
        let g = s[k - 1].grant(sh);
        lemma_total_concat(grants_upto(s, size, k - 1), g);
        assert(s[k - 1].wf());
        if sh > 0 {
            assert(g.drop_last() == Seq::<BlkDevSegment>::empty());
            assert(total_length(g) == sh) by {
                assert(total_length(g.drop_last()) == 0);
            }
        }
    }
}

/// Records on which nothing is allocated add nothing to the allocated
/// sectors of a pool that takes them in.
pub proof fn lemma_adopt_fresh(s: Seq<BlockDevView>, incoming: Seq<BlockDevView>)
    requires
        forall|i: int| 0 <= i < incoming.len() ==> (#[trigger] incoming[i]).allocated() == 0,
        all_wf(incoming),
    ensures
        s.len() <= adopted(s, incoming).len(),
        adopted(s, incoming).take(s.len() as int) == s,
        allocated_total(adopted(s, incoming)) == allocated_total(s),
        allocated_area(adopted(s, incoming)) == allocated_area(s),
    decreases incoming.len(),
{
    if incoming.len() == 0 {
        assert(s.take(s.len() as int) == s);
    } else {
        let head = incoming.drop_last();
        let x = incoming.last();
        assert forall|i: int| 0 <= i < head.len() implies (#[trigger] head[i]).allocated() == 0
            && head[i].wf() by {
            assert(incoming[i].allocated() == 0 && incoming[i].wf());
        }
        lemma_adopt_fresh(s, head);
        let before = adopted(s, head);
        let after = adopted(s, incoming);
        assert(incoming[incoming.len() - 1].allocated() == 0 && incoming[incoming.len() - 1].wf());
        if after != before {
            assert(after == before.push(x));
            assert(after.take(s.len() as int) == before.take(s.len() as int));
            lemma_allocated_upto_same(after, before, before.len() as int);
            assert forall|p: (Device, int)| allocated_area(after).contains(p)
                <==> allocated_area(before).contains(p) by {
                if allocated_area(after).contains(p) {
                    let j = choose|j: int|
                        0 <= j < after.len() && in_allocated(#[trigger] after[j], p.0, p.1);
                    assert(j < before.len());
                    assert(in_allocated(before[j], p.0, p.1));
                }
                if allocated_area(before).contains(p) {
                    let j = choose|j: int|
                        0 <= j < before.len() && in_allocated(#[trigger] before[j], p.0, p.1);
                    assert(in_allocated(after[j], p.0, p.1));
                }
            }
            assert(allocated_area(after) =~= allocated_area(before));
        }
    }
}

/// Noting a save leaves the allocated sectors as they are.
pub proof fn lemma_save_keeps_allocated(s: Seq<BlockDevView>, time: Timestamp, outcomes: Seq<bool>)
    ensures
        allocated_total(after_save(s, time, outcomes)) == allocated_total(s),
        allocated_area(after_save(s, time, outcomes)) == allocated_area(s),
{
    let t = after_save(s, time, outcomes);
    lemma_allocated_upto_same(t, s, s.len() as int);
    assert forall|p: (Device, int)| allocated_area(t).contains(p) <==> allocated_area(s).contains(
        p,
    ) by {
        if allocated_area(t).contains(p) {
            let j = choose|j: int| 0 <= j < t.len() && in_allocated(#[trigger] t[j], p.0, p.1);
            assert(in_allocated(s[j], p.0, p.1));
        }
        if allocated_area(s).contains(p) {
            let j = choose|j: int| 0 <= j < s.len() && in_allocated(#[trigger] s[j], p.0, p.1);
            assert(in_allocated(t[j], p.0, p.1));
        }
    }
    assert(allocated_area(t) =~= allocated_area(s));
}

/// The extent that the `j`-th device gives to a request for `size`
/// sectors: as many sectors as are its share, from its first free one.
pub open spec fn grant_of(s: Seq<BlockDevView>, size: Sectors, j: int) -> BlkDevSegment {
    BlkDevSegment {
        uuid: s[j].uuid,
        segment: Segment { device: s[j].device, start: s[j].used, length: share(s, size, j) },
    }
}

/// The extent `x` is what one of the first `k` devices gives to a request
/// for `size` sectors, and is not empty.
pub open spec fn given_by(s: Seq<BlockDevView>, size: Sectors, k: int, x: BlkDevSegment) -> bool {
    exists|j: int| 0 <= j < k && x == #[trigger] grant_of(s, size, j) && share(s, size, j) > 0
}

/// The extents given to a request are not empty, have no sector in
/// common, and each is what one device gives.
pub proof fn lemma_grants_apart(s: Seq<BlockDevView>, size: Sectors, k: int)
    requires
        0 <= k <= s.len(),
        distinct(s),
    ensures
        disjointed(grants_upto(s, size, k)),
        forall|g: int|
            0 <= g < grants_upto(s, size, k).len() ==> given_by(
                s,
                size,
                k,
                #[trigger] grants_upto(s, size, k)[g],
            ),
    decreases k,
{
    if k > 0 {
        lemma_grants_apart(s, size, k - 1);
        let before = grants_upto(s, size, k - 1);
        let after = grants_upto(s, size, k);
        let sh = share(s, size, k - 1);
        assert forall|g: int| 0 <= g < after.len() implies given_by(
            s,
            size,
            k,
            #[trigger] after[g],
        ) by {
            if g < before.len() {
                assert(given_by(s, size, k - 1, before[g]));
                let j = choose|j: int|
                    0 <= j < k - 1 && before[g] == #[trigger] grant_of(s, size, j) && share(
                        s,
                        size,
                        j,
                    ) > 0;
                assert(after[g] == grant_of(s, size, j));
            } else {
                assert(after[g] == grant_of(s, size, k - 1));
            }
        }
        assert forall|a: int, b: int| 0 <= a < b < after.len() implies apart(
            #[trigger] after[a],
            #[trigger] after[b],
        ) by {
            if b < before.len() {
                assert(apart(before[a], before[b]));
            } else {
                assert(given_by(s, size, k - 1, before[a]));
                let j = choose|j: int|
                    0 <= j < k - 1 && before[a] == #[trigger] grant_of(s, size, j) && share(
                        s,
                        size,
                        j,
                    ) > 0;
                assert(s[j].device != s[k - 1].device && s[j].uuid != s[k - 1].uuid);
            }
        }
        assert forall|g: int| 0 <= g < after.len() implies (#[trigger] after[g]).segment.length
            > 0 by {
            if g < before.len() {
                assert(before[g].segment.length > 0);
            }
        }
    }
}

/// Extents that cover allocated sectors only are apart from what a
/// request is given: a request is served from free sectors.
pub proof fn lemma_grants_are_fresh(
    s: Seq<BlockDevView>,
    size: Sectors,
    held: Seq<BlkDevSegment>,
)
    requires
        all_wf(s),
        distinct(s),
        disjointed(held),
        covered(held).subset_of(allocated_area(s)),
    ensures
        disjointed(held + grants(s, size)),
{
    let given = grants(s, size);
    let all = held + given;
    lemma_grants_apart(s, size, s.len() as int);
    assert forall|i: int| 0 <= i < all.len() implies (#[trigger] all[i]).segment.length > 0 by {
        if i < held.len() {
            assert(held[i].segment.length > 0);
        } else {
            assert(given[i - held.len()].segment.length > 0);
        }
    }
    assert forall|i: int, j: int| 0 <= i < j < all.len() implies apart(
        #[trigger] all[i],
        #[trigger] all[j],
    ) by {
        if j < held.len() {
            assert(apart(held[i], held[j]));
        } else if i >= held.len() {
            assert(apart(given[i - held.len()], given[j - held.len()]));
        } else {
            let x = held[i];
            let y = given[j - held.len()];
            assert(x.segment.length > 0);
            assert(given_by(s, size, s.len() as int, y));
            let r = choose|r: int|
                0 <= r < s.len() && y == #[trigger] grant_of(s, size, r) && share(s, size, r) > 0;
            if !apart(x, y) {
                let sector = if x.segment.start >= y.segment.start {
                    x.segment.start as int
                } else {
                    y.segment.start as int
                };
                assert(in_extent(held[i], x.segment.device, sector));
                assert(covered(held).contains((x.segment.device, sector)));
                assert(allocated_area(s).contains((x.segment.device, sector)));
                let q = choose|q: int|
                    0 <= q < s.len() && in_allocated(#[trigger] s[q], x.segment.device, sector);
                if q < r {
                    assert(s[q].device != s[r].device && s[q].uuid != s[r].uuid);
                } else if r < q {
                    assert(s[r].device != s[q].device && s[r].uuid != s[q].uuid);
                }
            }
        }
    }
}

} // verus!
