//! Admitting devices to a pool: which of the devices put forward may
//! join, and which will be given a header.
//!
//! The caller examines the devices and describes each as a `Candidate`.
//! `initialize` judges the candidates before anything is written. If none
//! is refused it returns the batch that gives the admitted devices their
//! headers.

use vstd::prelude::*;
use crate::batch::{BatchView, InitBatch};
use crate::blockdev::BlockDevView;
use crate::errors::{plain, Cause, EngineError, ErrorKind};
use crate::ident::fresh_uuid;
use crate::resolve::contains_device;
use crate::types::{
    mda_size_valid, sectors_of, Bytes, DevOwnership, DevUuid, Device, PoolUuid, Sectors,
    MIN_DEV_SECTORS, MIN_DEV_SIZE, MIN_MDA_SECTORS, NUM_MDA_REGIONS,
};

verus! {

/// What was read from a device while it was examined.
#[derive(Debug, PartialEq, Eq)]
pub struct DevInfo {
    /// The path of the device node.
    pub devnode: String,
    /// The size of the device.
    pub size: Bytes,
    /// Who the device belongs to.
    pub ownership: DevOwnership,
}

/// A device that is put forward to join a pool.
#[derive(Debug, PartialEq, Eq)]
pub struct Candidate {
    /// The identity of the device.
    pub device: Device,
    /// What was read from the device, or why it could not be read.
    pub info: Result<DevInfo, Cause>,
    /// The UUID that the device gets if it joins.
    pub uuid: DevUuid,
}

impl Candidate {
    /// A candidate with a freshly drawn UUID.
    pub fn new(device: Device, info: Result<DevInfo, Cause>) -> (r: Candidate)
        ensures
            r.device == device,
            r.info == info,
    {
        Candidate { device, info, uuid: fresh_uuid() }
    }
}

/// A device that has passed the judgment and will be given a header.
#[derive(Debug, PartialEq, Eq)]
pub struct InitTarget {
    pub device: Device,
    pub devnode: String,
    pub size: Bytes,
    pub uuid: DevUuid,
}

impl InitTarget {
    /// A copy of this target.
    pub fn duplicate(&self) -> (r: InitTarget)
        ensures
            r == *self,
    {
        InitTarget {
            device: self.device,
            devnode: self.devnode.clone(),
            size: self.size,
            uuid: self.uuid,
        }
    }

    /// The record that the device gets once its header is written, with
    /// `mda_size` sectors reserved.
    pub open spec fn record(self, mda_size: Sectors) -> BlockDevView {
        BlockDevView::fresh(self.device, self.devnode@, self.uuid, sectors_of(self.size), mda_size)
    }
}

/// What is decided of one candidate.
#[derive(Clone, Copy, Debug, PartialEq, Eq, Structural)]
pub enum Verdict {
    /// The candidate makes the whole batch fail.
    Reject(Cause),
    /// The candidate already belongs to the pool and is passed over.
    Skip,
    /// The candidate may join.
    Admit,
}

/// The judgment of one candidate for the pool `pool`.
///
/// A candidate that could not be examined is refused for that reason, and
/// one that is smaller than `MIN_DEV_SIZE` for its size. Of the others, a
/// device without an owner is admitted; one that belongs to another
/// application is admitted only with `force`; one that carries this
/// engine's header is passed over if the header names `pool` and refused
/// if it names another pool.
pub open spec fn judge(c: Candidate, pool: PoolUuid, force: bool) -> Verdict {
    match c.info {
        Err(cause) => Verdict::Reject(cause),
        Ok(info) => if info.size < MIN_DEV_SIZE {
            Verdict::Reject(Cause::TooSmall { device: c.device, size: info.size })
        } else {
            match info.ownership {
                DevOwnership::Unowned => Verdict::Admit,
                DevOwnership::Theirs => if force {
                    Verdict::Admit
                } else {
                    Verdict::Reject(Cause::OwnedByOther { device: c.device })
                },
                DevOwnership::Ours(p) => if p == pool {
                    Verdict::Skip
                } else {
                    Verdict::Reject(Cause::OwnedByPool { device: c.device, pool: p })
                },
            }
        },
    }
}

/// The target that an admitted candidate becomes.
pub open spec fn target_of(c: Candidate) -> InitTarget {
    InitTarget { device: c.device, devnode: c.info->Ok_0.devnode, size: c.info->Ok_0.size, uuid: c.uuid }
}

/// The judgment of a list of candidates: the cause for which the first
/// refused candidate is refused, or else the admitted candidates in order.
pub open spec fn filter_spec(devices: Seq<Candidate>, pool: PoolUuid, force: bool) -> Result<
    Seq<InitTarget>,
    Cause,
>
    decreases devices.len(),
{
    if devices.len() == 0 {
        Ok(Seq::empty())
    } else {
        match filter_spec(devices.drop_last(), pool, force) {
            Err(c) => Err(c),
            Ok(admitted) => match judge(devices.last(), pool, force) {
                Verdict::Reject(c) => Err(c),
                Verdict::Skip => Ok(admitted),
                Verdict::Admit => Ok(admitted.push(target_of(devices.last()))),
            },
        }
    }
}

/// Some target in `targets` is the device `device`.
pub open spec fn has_device(targets: Seq<InitTarget>, device: Device) -> bool {
    exists|j: int| 0 <= j < targets.len() && (#[trigger] targets[j]).device == device
}

/// Some target in `targets` has the UUID `uuid`.
pub open spec fn has_uuid(targets: Seq<InitTarget>, uuid: DevUuid) -> bool {
    exists|j: int| 0 <= j < targets.len() && (#[trigger] targets[j]).uuid == uuid
}

/// The targets among `admitted` that are new to a pool which holds the
/// devices `known` under the UUIDs `taken`.
///
/// A target whose device the pool holds already, or that occurs earlier in
/// the list, is left out: no device is admitted twice. A target whose UUID
/// is in use, in the pool or by an earlier target, makes the whole list
/// fail.
pub open spec fn select_new(
    known: Seq<Device>,
    taken: Seq<DevUuid>,
    admitted: Seq<InitTarget>,
) -> Result<Seq<InitTarget>, Cause>
    decreases admitted.len(),
{
    if admitted.len() == 0 {
        Ok(Seq::empty())
    } else {
        match select_new(known, taken, admitted.drop_last()) {
            Err(c) => Err(c),
            Ok(chosen) => {
                let t = admitted.last();
                if known.contains(t.device) || has_device(chosen, t.device) {
                    Ok(chosen)
                } else if taken.contains(t.uuid) || has_uuid(chosen, t.uuid) {
                    Err(Cause::UuidCollision { uuid: t.uuid })
                } else {
                    Ok(chosen.push(t))
                }
            },
        }
    }
}

/// The devices that will be given a header when `devices` are put forward
/// for the pool `pool`, or the cause for which none will.
pub open spec fn staged(
    known: Seq<Device>,
    taken: Seq<DevUuid>,
    devices: Seq<Candidate>,
    pool: PoolUuid,
    force: bool,
) -> Result<Seq<InitTarget>, Cause> {
    match filter_spec(devices, pool, force) {
        Err(c) => Err(c),
        Ok(admitted) => select_new(known, taken, admitted),
    }
}

/// Every target is large enough to join a pool, and no two targets share
/// a device or a UUID.
pub open spec fn targets_wf(targets: Seq<InitTarget>) -> bool {
    &&& forall|i: int| 0 <= i < targets.len() ==> (#[trigger] targets[i]).size >= MIN_DEV_SIZE
    &&& forall|i: int, j: int|
        0 <= i < j < targets.len() ==> (#[trigger] targets[i]).device != (
        #[trigger] targets[j]).device
    &&& forall|i: int, j: int|
        0 <= i < j < targets.len() ==> (#[trigger] targets[i]).uuid != (#[trigger] targets[j]).uuid
}

/// No target is a device in `known` or has a UUID in `taken`.
pub open spec fn targets_new(
    known: Seq<Device>,
    taken: Seq<DevUuid>,
    targets: Seq<InitTarget>,
) -> bool {
    forall|i: int|
        0 <= i < targets.len() ==> !known.contains((#[trigger] targets[i]).device)
            && !taken.contains(targets[i].uuid)
}

/// Judges one candidate.
pub fn judge_candidate(c: &Candidate, pool_uuid: PoolUuid, force: bool) -> (r: Verdict)
    ensures
        r == judge(*c, pool_uuid, force),
{
    match &c.info {
        Err(cause) => Verdict::Reject(*cause),
        Ok(info) => {
            if info.size < MIN_DEV_SIZE {
                Verdict::Reject(Cause::TooSmall { device: c.device, size: info.size })
            } else {
                match info.ownership {
                    DevOwnership::Unowned => Verdict::Admit,
                    DevOwnership::Theirs => {
                        if force {
                            Verdict::Admit
                        } else {
                            Verdict::Reject(Cause::OwnedByOther { device: c.device })
                        }
                    },
                    DevOwnership::Ours(p) => {
                        if p == pool_uuid {
                            Verdict::Skip
                        } else {
                            Verdict::Reject(Cause::OwnedByPool { device: c.device, pool: p })
                        }
                    },
                }
            }
        },
    }
}

/// Judges the candidates in order. Returns those that are admitted, or the
/// failure for the first one that is refused. Nothing is written either
/// way.
pub fn filter_devs(devices: &Vec<Candidate>, pool_uuid: PoolUuid, force: bool) -> (r: Result<
    Vec<InitTarget>,
    EngineError,
>)
    ensures
        match filter_spec(devices@, pool_uuid, force) {
            Err(c) => r matches Err(e) && e@ == plain(c),
            Ok(admitted) => r matches Ok(v) && v@ == admitted && forall|i: int|
                0 <= i < v@.len() ==> (#[trigger] v@[i]).size >= MIN_DEV_SIZE,
        },
{
    let mut admitted: Vec<InitTarget> = Vec::new();
    let mut i: usize = 0;
    while i < devices.len()
        invariant
            i <= devices.len(),
            filter_spec(devices@.take(i as int), pool_uuid, force) == Ok::<Seq<InitTarget>, Cause>(
                admitted@,
            ),
            forall|k: int| 0 <= k < admitted@.len() ==> (#[trigger] admitted@[k]).size >= MIN_DEV_SIZE,
        decreases devices.len() - i,
    {
        proof {
            assert(devices@.take(i as int + 1).drop_last() == devices@.take(i as int));
        }
        let c = &devices[i];
        match judge_candidate(c, pool_uuid, force) {
            Verdict::Reject(cause) => {
                proof {
                    lemma_filter_failure_stays(devices@, pool_uuid, force, i as int + 1);
                }
                return Err(EngineError::new(cause));
            },
            Verdict::Skip => {},
            Verdict::Admit => {
                match &c.info {
                    Ok(info) => {
                        admitted.push(
                            InitTarget {
                                device: c.device,
                                devnode: info.devnode.clone(),
                                size: info.size,
                                uuid: c.uuid,
                            },
                        );
                    },
                    Err(_) => {},
                }
            },
        }
        i += 1;
    }
    proof {
        assert(devices@.take(devices.len() as int) == devices@);
    }
    Ok(admitted)
}

/// A refusal among the first `n` candidates is the refusal of the whole
/// list.
proof fn lemma_filter_failure_stays(devices: Seq<Candidate>, pool: PoolUuid, force: bool, n: int)
    requires
        0 <= n <= devices.len(),
        filter_spec(devices.take(n), pool, force) is Err,
    ensures
        filter_spec(devices, pool, force) == filter_spec(devices.take(n), pool, force),
    decreases devices.len() - n,
{
    if n < devices.len() {
        assert(devices.take(n + 1).drop_last() == devices.take(n));
        lemma_filter_failure_stays(devices, pool, force, n + 1);
    } else {
        assert(devices.take(n) == devices);
    }
}

/// Whether some target in `targets` is the device `device`.
pub fn holds_device(targets: &Vec<InitTarget>, device: Device) -> (r: bool)
    ensures
        r == has_device(targets@, device),
{
    let mut i: usize = 0;
    while i < targets.len()
        invariant
            i <= targets.len(),
            forall|k: int| 0 <= k < i ==> (#[trigger] targets@[k]).device != device,
        decreases targets.len() - i,
    {
        if targets[i].device == device {
            return true;
        }
        i += 1;
    }
    false
}

/// Whether some target in `targets` has the UUID `uuid`.
pub fn holds_uuid(targets: &Vec<InitTarget>, uuid: DevUuid) -> (r: bool)
    ensures
        r == has_uuid(targets@, uuid),
{
    let mut i: usize = 0;
    while i < targets.len()
        invariant
            i <= targets.len(),
            forall|k: int| 0 <= k < i ==> (#[trigger] targets@[k]).uuid != uuid,
        decreases targets.len() - i,
    {
        if targets[i].uuid == uuid {
            return true;
        }
        i += 1;
    }
    false
}

/// Picks from `admitted` the targets that are new to a pool which holds
/// the devices `known` under the UUIDs `taken`.
pub(crate) fn choose_new(known: &Vec<Device>, taken: &Vec<DevUuid>, admitted: &Vec<InitTarget>) -> (r:
    Result<Vec<InitTarget>, EngineError>)
    requires
        forall|i: int| 0 <= i < admitted@.len() ==> (#[trigger] admitted@[i]).size >= MIN_DEV_SIZE,
    ensures
        match select_new(known@, taken@, admitted@) {
            Err(c) => r matches Err(e) && e@ == plain(c),
            Ok(chosen) => r matches Ok(v) && v@ == chosen && targets_wf(chosen) && targets_new(
                known@,
                taken@,
                chosen,
            ),
        },
{
    let mut chosen: Vec<InitTarget> = Vec::new();
    let mut i: usize = 0;
    while i < admitted.len()
        invariant
            i <= admitted.len(),
            forall|k: int| 0 <= k < admitted@.len() ==> (#[trigger] admitted@[k]).size >= MIN_DEV_SIZE,
            select_new(known@, taken@, admitted@.take(i as int)) == Ok::<Seq<InitTarget>, Cause>(
                chosen@,
            ),
            targets_wf(chosen@),
            targets_new(known@, taken@, chosen@),
        decreases admitted.len() - i,
    {
        proof {
            assert(admitted@.take(i as int + 1).drop_last() == admitted@.take(i as int));
        }
        let t = &admitted[i];
        if contains_device(known, t.device) || holds_device(&chosen, t.device) {
        } else if contains_uuid(taken, t.uuid) || holds_uuid(&chosen, t.uuid) {
            proof {
                lemma_select_failure_stays(known@, taken@, admitted@, i as int + 1);
            }
            return Err(EngineError::new(Cause::UuidCollision { uuid: t.uuid }));
        } else {
            chosen.push(t.duplicate());
        }
        i += 1;
    }
    proof {
        assert(admitted@.take(admitted.len() as int) == admitted@);
    }
    Ok(chosen)
}

/// A collision among the first `n` targets is the failure of the whole
/// list.
proof fn lemma_select_failure_stays(
    known: Seq<Device>,
    taken: Seq<DevUuid>,
    admitted: Seq<InitTarget>,
    n: int,
)
    requires
        0 <= n <= admitted.len(),
        select_new(known, taken, admitted.take(n)) is Err,
    ensures
        select_new(known, taken, admitted) == select_new(known, taken, admitted.take(n)),
    decreases admitted.len() - n,
{
    if n < admitted.len() {
        assert(admitted.take(n + 1).drop_last() == admitted.take(n));
        lemma_select_failure_stays(known, taken, admitted, n + 1);
    } else {
        assert(admitted.take(n) == admitted);
    }
}

/// Checks that a metadata area of `mda_size` sectors may be reserved.
pub fn validate_mda_size(mda_size: Sectors) -> (r: Result<(), EngineError>)
    ensures
        r is Ok <==> mda_size_valid(mda_size),
        r matches Err(e) ==> e@ == plain(Cause::BadMdaSize { mda_size }),
{
    if mda_size % NUM_MDA_REGIONS == 0 && MIN_MDA_SECTORS <= mda_size && mda_size
        < MIN_DEV_SECTORS {
        Ok(())
    } else {
        Err(EngineError::new(Cause::BadMdaSize { mda_size }))
    }
}

/// Whether `uuid` is in `uuids`.
pub fn contains_uuid(uuids: &Vec<DevUuid>, uuid: DevUuid) -> (r: bool)
    ensures
        r == uuids@.contains(uuid),
{
    let mut i: usize = 0;
    while i < uuids.len()
        invariant
            i <= uuids.len(),
            forall|k: int| 0 <= k < i ==> uuids@[k] != uuid,
        decreases uuids.len() - i,
    {
        if uuids[i] == uuid {
            return true;
        }
        i += 1;
    }
    false
}

/// Judges the candidates `devices` for the pool `pool_uuid`, which holds
/// the devices `known` under the UUIDs `taken`, and prepares the batch
/// that gives the new devices their headers.
///
/// Fails, with nothing written, if `mda_size` may not be reserved, if a
/// candidate is refused, or if the UUID of a new device is in use.
pub fn stage(
    known: &Vec<Device>,
    taken: &Vec<DevUuid>,
    pool_uuid: PoolUuid,
    devices: &Vec<Candidate>,
    mda_size: Sectors,
    force: bool,
) -> (r: Result<InitBatch, EngineError>)
    ensures
        !mda_size_valid(mda_size) ==> (r matches Err(e) && e@ == plain(
            Cause::BadMdaSize { mda_size },
        )),
        mda_size_valid(mda_size) ==> match staged(known@, taken@, devices@, pool_uuid, force) {
            Err(c) => r matches Err(e) && e@ == plain(c),
            Ok(targets) => r matches Ok(b) && b.wf() && b@ == BatchView::start(
                pool_uuid,
                mda_size,
                targets,
            ) && targets_new(known@, taken@, targets),
        },
{
    match validate_mda_size(mda_size) {
        Err(e) => {
            return Err(e);
        },
        Ok(_) => {},
    }
    let admitted = match filter_devs(devices, pool_uuid, force) {
        Err(e) => {
            return Err(e);
        },
        Ok(v) => v,
    };
    let targets = match choose_new(known, taken, &admitted) {
        Err(e) => {
            return Err(e);
        },
        Ok(v) => v,
    };
    Ok(InitBatch::start(pool_uuid, mda_size, targets))
}

/// Judges the candidates `devices` for a new pool `pool_uuid` and prepares
/// the batch that gives the admitted devices their headers, each with
/// `mda_size` sectors reserved for metadata.
///
/// All candidates are judged before anything is written: a failure here
/// leaves every device as it was.
pub fn initialize(pool_uuid: PoolUuid, devices: &Vec<Candidate>, mda_size: Sectors, force: bool) -> (r:
    Result<InitBatch, EngineError>)
    ensures
        !mda_size_valid(mda_size) ==> (r matches Err(e) && e@ == plain(
            Cause::BadMdaSize { mda_size },
        )),
        mda_size_valid(mda_size) ==> match staged(
            Seq::empty(),
            Seq::empty(),
            devices@,
            pool_uuid,
            force,
        ) {
            Err(c) => r matches Err(e) && e@ == plain(c),
            Ok(targets) => r matches Ok(b) && b.wf() && b@ == BatchView::start(
                pool_uuid,
                mda_size,
                targets,
            ),
        },
{
    let known: Vec<Device> = Vec::new();
    let taken: Vec<DevUuid> = Vec::new();
    stage(&known, &taken, pool_uuid, devices, mda_size, force)
}

/// The `j`-th candidate is the first that is refused.
pub open spec fn first_refused(devices: Seq<Candidate>, pool: PoolUuid, force: bool, j: int) -> bool {
    &&& 0 <= j < devices.len()
    &&& judge(devices[j], pool, force) is Reject
    &&& forall|k: int| 0 <= k < j ==> !(judge(#[trigger] devices[k], pool, force) is Reject)
}

/// If the first candidate that is refused comes before the `i`-th, it is
/// refused for an input that is not acceptable. This fails only where a
/// candidate that could not be examined, for a cause of another kind, is
/// the first to be refused: every other refusal is of that kind.
pub open spec fn refused_before_for_input(
    devices: Seq<Candidate>,
    pool: PoolUuid,
    force: bool,
    i: int,
) -> bool {
    forall|j: int|
        0 <= j < i && #[trigger] first_refused(devices, pool, force, j) ==> judge(
            devices[j],
            pool,
            force,
        )->Reject_0.spec_kind() == ErrorKind::InvalidInput
}

/// The first refused candidate among the first `n`, or `n` if none of them
/// is refused.
proof fn lemma_first_refused_upto(devices: Seq<Candidate>, pool: PoolUuid, force: bool, n: int) -> (f:
    int)
    requires
        0 <= n <= devices.len(),
    ensures
        0 <= f <= n,
        forall|k: int| 0 <= k < f ==> !(judge(#[trigger] devices[k], pool, force) is Reject),
        f < n ==> judge(devices[f], pool, force) is Reject,
    decreases n,
{
    if n == 0 {
        0
    } else {
        let f = lemma_first_refused_upto(devices, pool, force, n - 1);
        if f < n - 1 {
            f
        } else if judge(devices[n - 1], pool, force) is Reject {
            n - 1
        } else {
            n
        }
    }
}

/// A candidate that is refused for an input that is not acceptable makes
/// the whole batch fail with such a failure, unless a candidate before it
/// is refused first for a cause of another kind.
proof fn lemma_refusal_fails_batch(
    known: Seq<Device>,
    taken: Seq<DevUuid>,
    devices: Seq<Candidate>,
    pool: PoolUuid,
    force: bool,
    i: int,
)
    requires
        0 <= i < devices.len(),
        refused_before_for_input(devices, pool, force, i),
        judge(devices[i], pool, force) matches Verdict::Reject(c) && c.spec_kind()
            == ErrorKind::InvalidInput,
    ensures
        staged(known, taken, devices, pool, force) matches Err(c) && c.spec_kind()
            == ErrorKind::InvalidInput,
{
    let f = lemma_first_refused_upto(devices, pool, force, i + 1);
    assert(first_refused(devices, pool, force, f));
    lemma_first_refusal_decides(known, taken, devices, pool, force, f);
}

/// A device below the minimum size makes the whole batch fail with an
/// input that is not acceptable, whatever else is in the batch, unless a
/// candidate before it is refused first for a cause of another kind. The
/// failure comes from the judgment, before any batch exists: nothing is
/// written to any device.
pub proof fn lemma_small_device_fails_batch(
    known: Seq<Device>,
    taken: Seq<DevUuid>,
    devices: Seq<Candidate>,
    pool: PoolUuid,
    force: bool,
    i: int,
)
    requires
        0 <= i < devices.len(),
        refused_before_for_input(devices, pool, force, i),
        devices[i].info matches Ok(info) && info.size < MIN_DEV_SIZE,
    ensures
        staged(known, taken, devices, pool, force) matches Err(c) && c.spec_kind()
            == ErrorKind::InvalidInput,
{
    lemma_refusal_fails_batch(known, taken, devices, pool, force, i);
}

/// A device that belongs to another pool makes the whole batch fail with an
/// input that is not acceptable, with or without `force`, unless a
/// candidate before it is refused first for a cause of another kind.
pub proof fn lemma_foreign_device_fails_batch(
    known: Seq<Device>,
    taken: Seq<DevUuid>,
    devices: Seq<Candidate>,
    pool: PoolUuid,
    force: bool,
    i: int,
    other: PoolUuid,
)
    requires
        0 <= i < devices.len(),
        refused_before_for_input(devices, pool, force, i),
        devices[i].info matches Ok(info) && info.ownership == DevOwnership::Ours(other),
        other != pool,
    ensures
        staged(known, taken, devices, pool, force) matches Err(c) && c.spec_kind()
            == ErrorKind::InvalidInput,
{
    lemma_refusal_fails_batch(known, taken, devices, pool, force, i);
}

/// Candidates that could all be examined are never refused for anything
/// but an input that is not acceptable.
pub proof fn lemma_examined_refused_for_input(
    devices: Seq<Candidate>,
    pool: PoolUuid,
    force: bool,
    i: int,
)
    requires
        0 <= i <= devices.len(),
        forall|j: int| 0 <= j < i ==> (#[trigger] devices[j]).info is Ok,
    ensures
        refused_before_for_input(devices, pool, force, i),
{
    assert forall|j: int| 0 <= j < i && #[trigger] first_refused(devices, pool, force, j) implies judge(
        devices[j],
        pool,
        force,
    )->Reject_0.spec_kind() == ErrorKind::InvalidInput by {
        assert(devices[j].info is Ok);
    }
}

/// The first candidate that is refused decides: its refusal is the failure
/// of the whole batch.
pub proof fn lemma_first_refusal_decides(
    known: Seq<Device>,
    taken: Seq<DevUuid>,
    devices: Seq<Candidate>,
    pool: PoolUuid,
    force: bool,
    i: int,
)
    requires
        0 <= i < devices.len(),
        forall|j: int| 0 <= j < i ==> !(judge(#[trigger] devices[j], pool, force) is Reject),
        judge(devices[i], pool, force) is Reject,
    ensures
        staged(known, taken, devices, pool, force) == Err::<Seq<InitTarget>, Cause>(
            judge(devices[i], pool, force)->Reject_0,
        ),
{
    lemma_prefix_passes(devices, pool, force, i);
    assert(devices.take(i + 1).drop_last() == devices.take(i));
    assert(devices.take(i + 1).last() == devices[i]);
    lemma_filter_failure_stays(devices, pool, force, i + 1);
}

proof fn lemma_prefix_passes(devices: Seq<Candidate>, pool: PoolUuid, force: bool, n: int)
    requires
        0 <= n <= devices.len(),
        forall|j: int| 0 <= j < n ==> !(judge(#[trigger] devices[j], pool, force) is Reject),
    ensures
        filter_spec(devices.take(n), pool, force) is Ok,
    decreases n,
{
    if n > 0 {
        lemma_prefix_passes(devices, pool, force, n - 1);
        assert(devices.take(n).drop_last() == devices.take(n - 1));
        assert(devices.take(n).last() == devices[n - 1]);
    }
}

} // verus!
