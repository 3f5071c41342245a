//! The allocator of one device: which sectors are taken, which are free.

use vstd::prelude::*;
use crate::types::Sectors;

verus! {

/// Tracks the free space of one device.
///
/// Sectors are handed out from the lowest free offset upwards and are never
/// given back, so the free space is always the single extent from
/// `used()` to `limit()`.
#[derive(Clone, Copy, Debug, PartialEq, Eq, Structural)]
pub struct RangeAllocator {
    limit: Sectors,
    next: Sectors,
}

impl RangeAllocator {
    /// The size of the device: no sector at or above it is handed out.
    pub closed spec fn limit(&self) -> Sectors {
        self.limit
    }

    /// The number of sectors taken, counted from offset 0.
    pub closed spec fn used(&self) -> Sectors {
        self.next
    }

    /// The number of sectors taken never exceeds the limit.
    pub open spec fn wf(&self) -> bool {
        self.used() <= self.limit()
    }

    /// The number of free sectors.
    pub open spec fn spec_available(&self) -> Sectors {
        (self.limit() - self.used()) as Sectors
    }

    /// An allocator for a device of `limit` sectors whose first `reserved`
    /// sectors are taken from the start. `None` if more is reserved than
    /// the device holds.
    pub fn new(limit: Sectors, reserved: Sectors) -> (r: Option<RangeAllocator>)
        ensures
            r is Some <==> reserved <= limit,
            r matches Some(a) ==> a.wf() && a.limit() == limit && a.used() == reserved,
    {
        if reserved <= limit {
            Some(RangeAllocator { limit, next: reserved })
        } else {
            None
        }
    }

    /// The size of the device.
    pub fn size(&self) -> (r: Sectors)
        ensures
            r == self.limit(),
    {
        self.limit
    }

    /// The number of free sectors.
    #[verifier::when_used_as_spec(spec_available)]
    pub fn available(&self) -> (r: Sectors)
        requires
            self.wf(),
        ensures
            r == self.spec_available(),
    {
        self.limit - self.next
    }

    /// Takes up to `amount` sectors from the first free extent. Returns how
    /// many were granted, which is all of `amount` unless less is free, and
    /// the extents that realise the grant as pairs of start and length.
    pub fn request(&mut self, amount: Sectors) -> (r: (Sectors, Vec<(Sectors, Sectors)>))
        requires
            old(self).wf(),
        ensures
            final(self).wf(),
            final(self).limit() == old(self).limit(),
            r.0 == granted(old(self).spec_available(), amount),
            final(self).used() == old(self).used() + r.0,
            r.1@ == extents_of(old(self).used(), r.0),
    {
        let free: Sectors = self.limit - self.next;
        let grant: Sectors = if amount <= free { amount } else { free };
        let mut extents: Vec<(Sectors, Sectors)> = Vec::new();
        if grant > 0 {
            extents.push((self.next, grant));
            self.next = self.next + grant;
        }
        (grant, extents)
    }
}

/// What a request for `amount` sectors is granted when `free` sectors are
/// free: all of it, or what is left.
pub open spec fn granted(free: Sectors, amount: Sectors) -> Sectors {
    if amount <= free {
        amount
    } else {
        free
    }
}

/// The extents that realise a grant of `length` sectors at offset `start`:
/// one extent, or none for an empty grant.
pub open spec fn extents_of(start: Sectors, length: Sectors) -> Seq<(Sectors, Sectors)> {
    if length > 0 {
        seq![(start, length)]
    } else {
        Seq::empty()
    }
}

} // verus!
