//! Giving a set of devices their headers, one write at a time, and taking
//! the headers back when a write fails.
//!
//! A batch names one write or wipe at a time. The caller performs it and
//! reports whether it worked. After a failed write the batch asks for the
//! failing device and every device written before it to be wiped; the
//! failure it ends in lists the devices on which that wipe failed too.

use vstd::prelude::*;
use crate::admission::{targets_wf, InitTarget};
use crate::blockdev::{views, BlockDev, BlockDevView};
use crate::errors::{Cause, EngineError};
use crate::types::{
    bytes_to_sectors, mda_size_valid, sectors_of, DevUuid, Device, PoolUuid, Sectors,
};

verus! {

/// What a header is written with.
#[derive(Clone, Copy, Debug, PartialEq, Eq, Structural)]
pub struct HeaderRequest {
    /// The device to write to.
    pub device: Device,
    /// The pool that the device joins.
    pub pool_uuid: PoolUuid,
    /// The UUID that the device gets.
    pub dev_uuid: DevUuid,
    /// The sectors to reserve for metadata.
    pub mda_size: Sectors,
    /// The size of the device.
    pub dev_size: Sectors,
}

/// What a batch asks its caller to do next.
#[derive(Clone, Copy, Debug, PartialEq, Eq, Structural)]
pub enum InitAction {
    /// Write the header of a device.
    WriteHeader(HeaderRequest),
    /// Wipe whatever header a device carries.
    Wipe(Device),
    /// Nothing: the batch is done.
    Done,
}

/// The state of a batch, as plain values.
pub struct BatchView {
    /// The pool that the devices join.
    pub pool_uuid: PoolUuid,
    /// The sectors reserved for metadata on each device.
    pub mda_size: Sectors,
    /// The devices that join, in the order in which they are written.
    pub targets: Seq<InitTarget>,
    /// How many headers were written.
    pub written: nat,
    /// Whether writing the header of `targets[written]` failed.
    pub failed: bool,
    /// How many wipes were attempted after the failure.
    pub wiped: nat,
    /// The devices on which a wipe failed.
    pub unerased: Seq<Device>,
}

impl BatchView {
    /// The batch at its start: nothing written, nothing failed.
    pub open spec fn start(
        pool_uuid: PoolUuid,
        mda_size: Sectors,
        targets: Seq<InitTarget>,
    ) -> BatchView {
        BatchView {
            pool_uuid,
            mda_size,
            targets,
            written: 0,
            failed: false,
            wiped: 0,
            unerased: Seq::empty(),
        }
    }

    /// The state is one that a batch can be in.
    pub open spec fn wf(self) -> bool {
        &&& mda_size_valid(self.mda_size)
        &&& targets_wf(self.targets)
        &&& self.written <= self.targets.len()
        &&& self.failed ==> self.written < self.targets.len() && self.wiped <= self.written + 1
        &&& !self.failed ==> self.wiped == 0
        &&& self.unerased.len() <= self.wiped
        &&& forall|j: int|
            0 <= j < self.unerased.len() ==> self.touched(#[trigger] self.unerased[j])
    }

    /// `device` is among the devices whose header was written or was being
    /// written when the write failed.
    pub open spec fn touched(self, device: Device) -> bool {
        exists|k: int|
            0 <= k <= self.written && k < self.targets.len() && (#[trigger] self.targets[k]).device
                == device
    }

    /// What the header of `targets[i]` is written with.
    pub open spec fn request(self, i: int) -> HeaderRequest {
        HeaderRequest {
            device: self.targets[i].device,
            pool_uuid: self.pool_uuid,
            dev_uuid: self.targets[i].uuid,
            mda_size: self.mda_size,
            dev_size: sectors_of(self.targets[i].size),
        }
    }

    /// The `k`-th device to wipe after a failed write: first the device on
    /// which the write failed, then the devices written before it, in the
    /// order in which they were written.
    pub open spec fn rollback_target(self, k: nat) -> Device {
        if k == 0 {
            self.targets[self.written as int].device
        } else {
            self.targets[k - 1].device
        }
    }

    /// What is to be done next.
    ///
    /// As long as no write has failed, the headers are written in order.
    /// After a failed write, the failing device and every device written
    /// before it are wiped. Then the batch is done.
    pub open spec fn action(self) -> InitAction {
        if !self.failed {
            if self.written < self.targets.len() {
                InitAction::WriteHeader(self.request(self.written as int))
            } else {
                InitAction::Done
            }
        } else if self.wiped <= self.written {
            InitAction::Wipe(self.rollback_target(self.wiped))
        } else {
            InitAction::Done
        }
    }

    /// The batch is done.
    pub open spec fn done(self) -> bool {
        self.action() == InitAction::Done
    }

    /// The state after the action `self.action()` was performed and
    /// worked (`ok`) or failed.
    pub open spec fn after(self, ok: bool) -> BatchView {
        match self.action() {
            InitAction::WriteHeader(_) => if ok {
                BatchView { written: self.written + 1, ..self }
            } else {
                BatchView { failed: true, ..self }
            },
            InitAction::Wipe(d) => BatchView {
                wiped: self.wiped + 1,
                unerased: if ok {
                    self.unerased
                } else {
                    self.unerased.push(d)
                },
                ..self
            },
            InitAction::Done => self,
        }
    }

    /// The largest number of actions that the batch can still ask for.
    pub open spec fn steps_left(self) -> nat {
        if !self.failed {
            (2 * self.targets.len() - self.written + 1) as nat
        } else {
            (self.written + 1 - self.wiped) as nat
        }
    }

    /// What a batch that is done has come to: the records of the devices,
    /// or the failure, which names the device on which the write failed
    /// and lists the devices that may still carry a header.
    pub open spec fn outcome(self) -> Result<Seq<BlockDevView>, (Cause, Seq<Device>)> {
        if self.failed {
            Err((Cause::InitFailed { device: self.targets[self.written as int].device }, self.unerased))
        } else {
            Ok(self.targets.map_values(|t: InitTarget| t.record(self.mda_size)))
        }
    }
}

/// A step leads from a state that a batch can be in to another such state.
pub proof fn lemma_after_wf(b: BatchView, ok: bool)
    requires
        b.wf(),
    ensures
        b.after(ok).wf(),
{
    let a = b.after(ok);
    match b.action() {
        InitAction::WriteHeader(_) => {
            assert forall|j: int| 0 <= j < a.unerased.len() implies a.touched(
                #[trigger] a.unerased[j],
            ) by {
                assert(b.touched(b.unerased[j]));
                let k = choose|k: int|
                    0 <= k <= b.written && k < b.targets.len() && (#[trigger] b.targets[k]).device
                        == b.unerased[j];
                assert(a.targets[k].device == a.unerased[j]);
            }
        },
        InitAction::Wipe(d) => {
            assert forall|j: int| 0 <= j < a.unerased.len() implies a.touched(
                #[trigger] a.unerased[j],
            ) by {
                if j < b.unerased.len() {
                    assert(b.touched(b.unerased[j]));
                    let k = choose|k: int|
                        0 <= k <= b.written && k < b.targets.len() && (#[trigger] b.targets[k]).device
                            == b.unerased[j];
                    assert(a.targets[k].device == a.unerased[j]);
                } else {
                    if b.wiped == 0 {
                        assert(a.targets[b.written as int].device == d);
                    } else {
                        assert(a.targets[b.wiped - 1].device == d);
                    }
                }
            }
        },
        InitAction::Done => {},
    }
}

/// Every action that is performed brings the batch closer to its end: a
/// caller that does what the batch asks for, whatever comes of it, is done
/// after at most `steps_left()` actions.
pub proof fn lemma_step_progress(b: BatchView, ok: bool)
    requires
        b.wf(),
        !b.done(),
    ensures
        b.after(ok).steps_left() < b.steps_left(),
{
}

/// A batch that failed and is done has attempted to wipe the device on
/// which the write failed and every device written before it: whatever
/// still carries a header is in the list of its failure.
pub proof fn lemma_failed_batch_wiped_all(b: BatchView)
    requires
        b.wf(),
        b.done(),
        b.failed,
    ensures
        b.wiped == b.written + 1,
        b.outcome() is Err,
{
}

/// A set of devices that are being given their headers.
#[derive(Debug)]
pub struct InitBatch {
    pool_uuid: PoolUuid,
    mda_size: Sectors,
    targets: Vec<InitTarget>,
    written: usize,
    failed: bool,
    wiped: usize,
    unerased: Vec<Device>,
}

impl View for InitBatch {
    type V = BatchView;

    closed spec fn view(&self) -> BatchView {
        BatchView {
            pool_uuid: self.pool_uuid,
            mda_size: self.mda_size,
            targets: self.targets@,
            written: self.written as nat,
            failed: self.failed,
            wiped: self.wiped as nat,
            unerased: self.unerased@,
        }
    }
}

impl InitBatch {
    /// The batch is in a state that a batch can be in.
    pub open spec fn wf(&self) -> bool {
        self@.wf()
    }

    /// The batch that gives the devices `targets` their headers, at its
    /// start.
    pub(crate) fn start(pool_uuid: PoolUuid, mda_size: Sectors, targets: Vec<InitTarget>) -> (r:
        InitBatch)
        requires
            mda_size_valid(mda_size),
            targets_wf(targets@),
        ensures
            r.wf(),
            r@ == BatchView::start(pool_uuid, mda_size, targets@),
    {
        InitBatch {
            pool_uuid,
            mda_size,
            targets,
            written: 0,
            failed: false,
            wiped: 0,
            unerased: Vec::new(),
        }
    }

    /// What is to be done next.
    pub fn next_action(&self) -> (r: InitAction)
        requires
            self.wf(),
        ensures
            r == self@.action(),
    {
        if !self.failed {
            if self.written < self.targets.len() {
                let t = &self.targets[self.written];
                InitAction::WriteHeader(
                    HeaderRequest {
                        device: t.device,
                        pool_uuid: self.pool_uuid,
                        dev_uuid: t.uuid,
                        mda_size: self.mda_size,
                        dev_size: bytes_to_sectors(t.size),
                    },
                )
            } else {
                InitAction::Done
            }
        } else if self.wiped <= self.written {
            if self.wiped == 0 {
                InitAction::Wipe(self.targets[self.written].device)
            } else {
                InitAction::Wipe(self.targets[self.wiped - 1].device)
            }
        } else {
            InitAction::Done
        }
    }

    /// Whether the batch is done.
    pub fn is_done(&self) -> (r: bool)
        requires
            self.wf(),
        ensures
            r == self@.done(),
    {
        if !self.failed {
            self.written >= self.targets.len()
        } else {
            self.wiped > self.written
        }
    }

    /// Takes note that the action named by `next_action` was performed and
    /// worked (`ok`) or failed. Does nothing once the batch is done.
    pub fn advance(&mut self, ok: bool)
        requires
            old(self).wf(),
        ensures
            final(self).wf(),
            final(self)@ == old(self)@.after(ok),
    {
        proof {
            lemma_after_wf(self@, ok);
            assert(self.failed ==> self.written < self.targets.len());
        }
        if !self.failed {
            if self.written < self.targets.len() {
                if ok {
                    self.written = self.written + 1;
                } else {
                    self.failed = true;
                }
            }
        } else if self.wiped <= self.written {
            if !ok {
                let d: Device = if self.wiped == 0 {
                    self.targets[self.written].device
                } else {
                    self.targets[self.wiped - 1].device
                };
                self.unerased.push(d);
            }
            self.wiped = self.wiped + 1;
        }
    }

    /// Turns a batch that is done into what it has come to: the records of
    /// the devices that joined, or the failure.
    pub fn finish(self) -> (r: Result<Vec<BlockDev>, EngineError>)
        requires
            self.wf(),
            self@.done(),
        ensures
            match self@.outcome() {
                Ok(records) => r matches Ok(v) && views(v@) == records && v@.len()
                    == records.len() && forall|i: int|
                    0 <= i < v@.len() ==> (#[trigger] v@[i]).wf(),
                Err(failure) => r matches Err(e) && e@ == failure,
            },
    {
        if self.failed {
            return Err(
                EngineError {
                    cause: Cause::InitFailed { device: self.targets[self.written].device },
                    devices: self.unerased,
                },
            );
        }
        let ghost records = self@.targets.map_values(|t: InitTarget| t.record(self.mda_size));
        let mut out: Vec<BlockDev> = Vec::new();
        let mut i: usize = 0;
        while i < self.targets.len()
            invariant
                i <= self.targets.len(),
                self.wf(),
                records == self@.targets.map_values(|t: InitTarget| t.record(self.mda_size)),
                self@.targets == self.targets@,
                self@.mda_size == self.mda_size,
                views(out@) == records.take(i as int),
                forall|k: int| 0 <= k < out@.len() ==> (#[trigger] out@[k]).wf(),
            decreases self.targets.len() - i,
        {
            let t = &self.targets[i];
            let ghost prior = out@;
            let bd = BlockDev::new(
                t.device,
                t.devnode.clone(),
                t.uuid,
                bytes_to_sectors(t.size),
                self.mda_size,
            );
            out.push(bd);
            proof {
                assert(views(out@) == views(prior).push(bd@));
                assert(records.take(i as int + 1) == records.take(i as int).push(
                    records[i as int],
                ));
            }
            i += 1;
        }
        proof {
            assert(records.take(self.targets.len() as int) == records);
        }
        Ok(out)
    }
}

/// The state of a batch after the outcomes `outcomes` of the actions it
/// asked for, one after the other.
pub open spec fn run(b: BatchView, outcomes: Seq<bool>) -> BatchView
    decreases outcomes.len(),
{
    if outcomes.len() == 0 {
        b
    } else {
        run(b, outcomes.drop_last()).after(outcomes.last())
    }
}

/// The devices on which a wipe failed when the wipes after a failed write
/// went as `wipes` tells, in the order of the wipes.
pub open spec fn missed(b: BatchView, wipes: Seq<bool>) -> Seq<Device>
    decreases wipes.len(),
{
    if wipes.len() == 0 {
        Seq::empty()
    } else {
        let before = missed(b, wipes.drop_last());
        if wipes.last() {
            before
        } else {
            before.push(b.rollback_target((wipes.len() - 1) as nat))
        }
    }
}

/// While the wipes after a failed write go on, the batch lists exactly the
/// devices on which a wipe failed, and nothing else of it changes.
pub proof fn lemma_rollback_lists_failed_wipes(b: BatchView, wipes: Seq<bool>)
    requires
        b.wf(),
        b.failed,
        b.wiped == 0,
        wipes.len() <= b.written + 1,
    ensures
        run(b, wipes) == (BatchView {
            wiped: wipes.len(),
            unerased: missed(b, wipes),
            ..b
        }),
    decreases wipes.len(),
{
    if wipes.len() == 0 {
        assert(b.unerased == Seq::<Device>::empty());
    } else {
        lemma_rollback_lists_failed_wipes(b, wipes.drop_last());
    }
}

/// When the write to a device has failed and a wipe was attempted on that
/// device and on every device written before it, the batch is done, and
/// its failure names the device and lists exactly the devices on which the
/// wipe failed too.
pub proof fn lemma_rollback_outcome(b: BatchView, wipes: Seq<bool>)
    requires
        b.wf(),
        b.failed,
        b.wiped == 0,
        wipes.len() == b.written + 1,
    ensures
        run(b, wipes).done(),
        run(b, wipes).outcome() == Err::<Seq<BlockDevView>, (Cause, Seq<Device>)>(
            (Cause::InitFailed { device: b.targets[b.written as int].device }, missed(b, wipes)),
        ),
{
    lemma_rollback_lists_failed_wipes(b, wipes);
}

/// When every write works, the batch is done after as many writes as it
/// has devices, and yields the record of each.
pub proof fn lemma_all_writes_work(b: BatchView, n: nat)
    requires
        b.wf(),
        !b.failed,
        b.written == 0,
        n <= b.targets.len(),
    ensures
        run(b, Seq::new(n, |i: int| true)) == (BatchView { written: n, ..b }),
        n == b.targets.len() ==> run(b, Seq::new(n, |i: int| true)).done() && run(
            b,
            Seq::new(n, |i: int| true),
        ).outcome() is Ok,
    decreases n,
{
    let outcomes = Seq::new(n, |i: int| true);
    if n > 0 {
        lemma_all_writes_work(b, (n - 1) as nat);
        assert(outcomes.drop_last() == Seq::new((n - 1) as nat, |i: int| true));
    }
}

} // verus!
