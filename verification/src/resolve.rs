//! Which devices the paths of a list name.

use vstd::prelude::*;
use crate::errors::{plain, Cause, EngineError};
use crate::types::Device;

verus! {

/// The first failure among `lookups`, if any of them failed.
pub open spec fn first_failure(lookups: Seq<Result<Device, Cause>>) -> Option<Cause>
    decreases lookups.len(),
{
    if lookups.len() == 0 {
        None
    } else {
        match first_failure(lookups.drop_last()) {
            Some(c) => Some(c),
            None => match lookups.last() {
                Err(c) => Some(c),
                Ok(_) => None,
            },
        }
    }
}

/// The devices that `lookups` found, each once, in the order in which they
/// first occur.
pub open spec fn distinct_devices(lookups: Seq<Result<Device, Cause>>) -> Seq<Device>
    decreases lookups.len(),
{
    if lookups.len() == 0 {
        Seq::empty()
    } else {
        let before = distinct_devices(lookups.drop_last());
        match lookups.last() {
            Ok(d) => if before.contains(d) {
                before
            } else {
                before.push(d)
            },
            Err(_) => before,
        }
    }
}

/// Whether `device` is in `devices`.
pub fn contains_device(devices: &Vec<Device>, device: Device) -> (r: bool)
    ensures
        r == devices@.contains(device),
{
    let mut i: usize = 0;
    while i < devices.len()
        invariant
            i <= devices.len(),
            forall|k: int| 0 <= k < i ==> devices@[k] != device,
        decreases devices.len() - i,
    {
        if devices[i] == device {
            return true;
        }
        i += 1;
    }
    false
}

/// Turns what was found for each path of a list into the set of devices
/// that the paths name: each device once, however many paths lead to it.
/// `lookups` holds, for each path in turn, the device it resolved to or the
/// reason why it did not. If any path failed, the first failure is
/// returned.
pub fn resolve_devices(lookups: &Vec<Result<Device, Cause>>) -> (r: Result<
    Vec<Device>,
    EngineError,
>)
    ensures
        match first_failure(lookups@) {
            Some(c) => r matches Err(e) && e@ == plain(c),
            None => r matches Ok(v) && v@ == distinct_devices(lookups@),
        },
{
    let mut devices: Vec<Device> = Vec::new();
    let mut i: usize = 0;
    while i < lookups.len()
        invariant
            i <= lookups.len(),
            first_failure(lookups@.take(i as int)) is None,
            devices@ == distinct_devices(lookups@.take(i as int)),
        decreases lookups.len() - i,
    {
        proof {
            assert(lookups@.take(i as int + 1).drop_last() == lookups@.take(i as int));
        }
        match lookups[i] {
            Ok(d) => {
                if !contains_device(&devices, d) {
                    devices.push(d);
                }
            },
            Err(c) => {
                proof {
                    lemma_first_failure_stays(lookups@, i as int + 1);
                }
                return Err(EngineError::new(c));
            },
        }
        i += 1;
    }
    proof {
        assert(lookups@.take(lookups.len() as int) == lookups@);
    }
    Ok(devices)
}

/// A failure among the first `n` lookups is the first failure of the whole
/// list.
proof fn lemma_first_failure_stays(lookups: Seq<Result<Device, Cause>>, n: int)
    requires
        0 <= n <= lookups.len(),
        first_failure(lookups.take(n)) is Some,
    ensures
        first_failure(lookups) == first_failure(lookups.take(n)),
    decreases lookups.len() - n,
{
    if n < lookups.len() {
        assert(lookups.take(n + 1).drop_last() == lookups.take(n));
        lemma_first_failure_stays(lookups, n + 1);
    } else {
        assert(lookups.take(n) == lookups);
    }
}

/// Resolution yields each device that some path names exactly once, and no
/// other device.
pub proof fn lemma_resolution_unique(lookups: Seq<Result<Device, Cause>>)
    ensures
        distinct_devices(lookups).no_duplicates(),
        forall|d: Device|
            distinct_devices(lookups).contains(d) <==> lookups.contains(
                Ok::<Device, Cause>(d),
            ),
    decreases lookups.len(),
{
    let out = distinct_devices(lookups);
    if lookups.len() > 0 {
        let head = lookups.drop_last();
        let before = distinct_devices(head);
        lemma_resolution_unique(head);
        assert forall|d: Device| out.contains(d) <==> lookups.contains(
            Ok::<Device, Cause>(d),
        ) by {
            let item = Ok::<Device, Cause>(d);
            if lookups.contains(item) {
                let k = choose|k: int| 0 <= k < lookups.len() && lookups[k] == item;
                if k < head.len() {
                    assert(head[k] == item);
                    assert(head.contains(item));
                    assert(before.contains(d));
                    let j = choose|j: int| 0 <= j < before.len() && before[j] == d;
                    assert(out[j] == d);
                } else {
                    if before.contains(d) {
                    } else {
                        assert(out[before.len() as int] == d);
                    }
                }
            }
            if out.contains(d) {
                let j = choose|j: int| 0 <= j < out.len() && out[j] == d;
                if j < before.len() {
                    assert(before[j] == d);
                    assert(before.contains(d));
                    assert(head.contains(item));
                    let k = choose|k: int| 0 <= k < head.len() && head[k] == item;
                    assert(lookups[k] == item);
                } else {
                    assert(lookups[lookups.len() - 1] == item);
                }
            }
        }
    }
}

/// Paths that all lead to one device resolve to that device alone.
pub proof fn lemma_same_device_resolves_once(lookups: Seq<Result<Device, Cause>>, device: Device)
    requires
        lookups.len() > 0,
        forall|i: int| 0 <= i < lookups.len() ==> lookups[i] == Ok::<Device, Cause>(device),
    ensures
        first_failure(lookups) is None,
        distinct_devices(lookups) == seq![device],
    decreases lookups.len(),
{
    let head = lookups.drop_last();
    assert(lookups.last() == Ok::<Device, Cause>(device));
    if head.len() > 0 {
        assert forall|i: int| 0 <= i < head.len() implies head[i] == Ok::<Device, Cause>(
            device,
        ) by {
            assert(head[i] == lookups[i]);
        }
        lemma_same_device_resolves_once(head, device);
        assert(seq![device][0] == device);
    } else {
        assert(distinct_devices(head) == Seq::<Device>::empty());
        assert(distinct_devices(lookups) == seq![device]);
    }
}

/// The failure of the first path that could not be resolved is the failure
/// of the whole list, and there is none if every path could be resolved.
pub proof fn lemma_first_failure_decides(lookups: Seq<Result<Device, Cause>>, i: int)
    requires
        0 <= i <= lookups.len(),
        forall|j: int| 0 <= j < i ==> (#[trigger] lookups[j]) is Ok,
    ensures
        i < lookups.len() && lookups[i] is Err ==> first_failure(lookups) == Some(
            lookups[i]->Err_0,
        ),
        i == lookups.len() ==> first_failure(lookups) is None,
{
    lemma_prefix_resolves(lookups, i);
    if i < lookups.len() && lookups[i] is Err {
        assert(lookups.take(i + 1).drop_last() == lookups.take(i));
        lemma_first_failure_stays(lookups, i + 1);
    } else if i == lookups.len() {
        assert(lookups.take(i) == lookups);
    }
}

proof fn lemma_prefix_resolves(lookups: Seq<Result<Device, Cause>>, n: int)
    requires
        0 <= n <= lookups.len(),
        forall|j: int| 0 <= j < n ==> (#[trigger] lookups[j]) is Ok,
    ensures
        first_failure(lookups.take(n)) is None,
    decreases n,
{
    if n > 0 {
        lemma_prefix_resolves(lookups, n - 1);
        assert(lookups.take(n).drop_last() == lookups.take(n - 1));
        assert(lookups.take(n).last() == lookups[n - 1]);
    }
}

} // verus!
