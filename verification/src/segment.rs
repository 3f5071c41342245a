//! Extents of devices, and how a list of them is kept as short as it can be.

use vstd::prelude::*;
use vstd::relations::{sorted_by, total_ordering};
use vstd::seq_lib::{
    lemma_multiset_commutative, lemma_sorted_unique, to_multiset_build, to_multiset_contains,
    to_multiset_insert, to_multiset_len, to_multiset_remove,
};
use crate::types::{DevUuid, Device, Sectors};

verus! {

/// An extent of a device: `length` sectors from sector `start`.
#[derive(Clone, Copy, Debug, PartialEq, Eq, Structural)]
pub struct Segment {
    pub device: Device,
    pub start: Sectors,
    pub length: Sectors,
}

impl Segment {
    /// The extent of `length` sectors from sector `start` of `device`.
    pub fn new(device: Device, start: Sectors, length: Sectors) -> (s: Segment)
        ensures
            s == (Segment { device, start, length }),
    {
        Segment { device, start, length }
    }
}

/// An extent together with the UUID of the device record that owns it. The
/// UUID stays the same when the device gets another identity.
#[derive(Clone, Copy, Debug, PartialEq, Eq, Structural)]
pub struct BlkDevSegment {
    pub uuid: DevUuid,
    pub segment: Segment,
}

impl BlkDevSegment {
    /// The extent `segment`, owned by the device record `uuid`.
    pub fn new(uuid: DevUuid, segment: Segment) -> (s: BlkDevSegment)
        ensures
            s == (BlkDevSegment { uuid, segment }),
    {
        BlkDevSegment { uuid, segment }
    }
}

/// The order in which a coalesced list holds its extents: by device, then
/// by start, then by length, then by owner.
pub open spec fn seg_leq(a: BlkDevSegment, b: BlkDevSegment) -> bool {
    if a.segment.device != b.segment.device {
        a.segment.device.precedes(b.segment.device)
    } else if a.segment.start != b.segment.start {
        a.segment.start < b.segment.start
    } else if a.segment.length != b.segment.length {
        a.segment.length < b.segment.length
    } else {
        a.uuid <= b.uuid
    }
}

/// `seg_leq` as a relation.
pub open spec fn seg_order() -> spec_fn(BlkDevSegment, BlkDevSegment) -> bool {
    |a: BlkDevSegment, b: BlkDevSegment| seg_leq(a, b)
}

/// `b` begins on the same device, under the same owner, at the sector where
/// `a` ends, and the two lengths together fit a sector count.
pub open spec fn joins(a: BlkDevSegment, b: BlkDevSegment) -> bool {
    &&& a.uuid == b.uuid
    &&& a.segment.device == b.segment.device
    &&& a.segment.start + a.segment.length == b.segment.start
    &&& a.segment.length + b.segment.length <= u64::MAX
}

/// The one extent that covers `a` and then `b`.
pub open spec fn joined(a: BlkDevSegment, b: BlkDevSegment) -> BlkDevSegment {
    BlkDevSegment {
        uuid: a.uuid,
        segment: Segment {
            device: a.segment.device,
            start: a.segment.start,
            length: (a.segment.length + b.segment.length) as Sectors,
        },
    }
}

/// One pass over `s` from the front: each extent is joined to the one
/// before it where the two join, and kept as it is where they do not.
pub open spec fn merge_runs(s: Seq<BlkDevSegment>) -> Seq<BlkDevSegment>
    decreases s.len(),
{
    if s.len() == 0 {
        Seq::empty()
    } else {
        let before = merge_runs(s.drop_last());
        if before.len() > 0 && joins(before.last(), s.last()) {
            before.drop_last().push(joined(before.last(), s.last()))
        } else {
            before.push(s.last())
        }
    }
}

/// The coalesced form of a list of extents: the extents in order, each run
/// of extents that join one another replaced by the one extent that covers
/// the run.
pub open spec fn coalesced(s: Seq<BlkDevSegment>) -> Seq<BlkDevSegment> {
    merge_runs(s.sort_by(seg_order()))
}

/// The sum of the lengths of the extents in `s`.
pub open spec fn total_length(s: Seq<BlkDevSegment>) -> int
    decreases s.len(),
{
    if s.len() == 0 {
        0
    } else {
        total_length(s.drop_last()) + s.last().segment.length
    }
}

/// Sector `sector` of `device` lies in the extent `x`.
pub open spec fn in_extent(x: BlkDevSegment, device: Device, sector: int) -> bool {
    x.segment.device == device && x.segment.start <= sector < x.segment.start
        + x.segment.length
}

/// The sectors that the extents in `s` cover, each with its device.
pub open spec fn covered(s: Seq<BlkDevSegment>) -> Set<(Device, int)> {
    Set::new(
        |p: (Device, int)| exists|i: int| 0 <= i < s.len() && in_extent(#[trigger] s[i], p.0, p.1),
    )
}

/// No extent of `s` joins the one that follows it.
pub open spec fn settled(s: Seq<BlkDevSegment>) -> bool {
    forall|k: int| 0 < k < s.len() ==> !joins(#[trigger] s[k - 1], s[k])
}

/// `seg_leq` orders the extents totally.
pub proof fn lemma_seg_order_total()
    ensures
        total_ordering(seg_order()),
{
    let r = seg_order();
    assert forall|x: BlkDevSegment, y: BlkDevSegment| #[trigger] r(x, y) && #[trigger] r(y, x)
        implies x == y by {
        assert(seg_leq(x, y) && seg_leq(y, x));
        assert(x.segment.device == y.segment.device);
    }
    assert forall|x: BlkDevSegment, y: BlkDevSegment, z: BlkDevSegment| #[trigger]
        r(x, y) && #[trigger] r(y, z) implies r(x, z) by {
        assert(seg_leq(x, y) && seg_leq(y, z));
        assert(seg_leq(x, z));
    }
    assert forall|x: BlkDevSegment, y: BlkDevSegment| #[trigger] r(x, y) || #[trigger] r(y, x) by {
        assert(seg_leq(x, y) || seg_leq(y, x));
    }
    assert forall|x: BlkDevSegment| #[trigger] r(x, x) by {
        assert(seg_leq(x, x));
    }
}

/// Whether `a` comes before `b`, or is `b`, in the order of extents.
pub fn seg_le(a: &BlkDevSegment, b: &BlkDevSegment) -> (r: bool)
    ensures
        r == seg_leq(*a, *b),
{
    if a.segment.device != b.segment.device {
        a.segment.device.is_before(&b.segment.device)
    } else if a.segment.start != b.segment.start {
        a.segment.start < b.segment.start
    } else if a.segment.length != b.segment.length {
        a.segment.length < b.segment.length
    } else {
        a.uuid <= b.uuid
    }
}

/// Whether `b` joins `a`.
pub fn can_join(a: &BlkDevSegment, b: &BlkDevSegment) -> (r: bool)
    ensures
        r == joins(*a, *b),
{
    a.uuid == b.uuid && a.segment.device == b.segment.device && b.segment.start
        >= a.segment.start && b.segment.start - a.segment.start == a.segment.length
        && a.segment.length <= u64::MAX - b.segment.length
}

/// Puts `x` into the ordered list `sorted`, behind every extent that does
/// not come after it.
fn insert_sorted(sorted: &mut Vec<BlkDevSegment>, x: BlkDevSegment)
    requires
        sorted_by(old(sorted)@, seg_order()),
    ensures
        sorted_by(final(sorted)@, seg_order()),
        final(sorted)@.to_multiset() == old(sorted)@.to_multiset().insert(x),
{
    let ghost before = sorted@;
    let mut pos: usize = 0;
    while pos < sorted.len() && seg_le(&sorted[pos], &x)
        invariant
            pos <= sorted.len(),
            sorted@ == before,
            forall|k: int| 0 <= k < pos ==> seg_leq(#[trigger] before[k], x),
        decreases sorted.len() - pos,
    {
        pos += 1;
    }
    sorted.insert(pos, x);
    proof {
        lemma_seg_order_total();
        to_multiset_insert(before, pos as int, x);
        let after = sorted@;
        let r = seg_order();
        assert forall|i: int, j: int| 0 <= i < j < after.len() implies #[trigger] r(
            after[i],
            after[j],
        ) by {
            if j < pos {
                assert(r(before[i], before[j]));
            } else if j == pos {
                assert(seg_leq(before[i], x));
            } else if i < pos {
                assert(r(before[i], before[j - 1]));
            } else if i == pos {
                assert(!seg_leq(before[pos as int], x));
                assert(r(x, before[pos as int]) || r(before[pos as int], x));
                if j - 1 > pos {
                    assert(r(before[pos as int], before[j - 1]));
                    assert(r(x, before[pos as int]) && r(before[pos as int], before[j - 1]));
                }
            } else {
                assert(r(before[i - 1], before[j - 1]));
            }
        }
    }
}

/// The extents of `left` and of `right` together, in order.
fn sort_segments(left: &Vec<BlkDevSegment>, right: &Vec<BlkDevSegment>) -> (r: Vec<BlkDevSegment>)
    ensures
        r@ == (left@ + right@).sort_by(seg_order()),
{
    let mut out: Vec<BlkDevSegment> = Vec::new();
    let mut i: usize = 0;
    proof {
        assert(left@.take(0) == out@);
    }
    while i < left.len()
        invariant
            i <= left.len(),
            sorted_by(out@, seg_order()),
            out@.to_multiset() == left@.take(i as int).to_multiset(),
        decreases left.len() - i,
    {
        insert_sorted(&mut out, left[i]);
        proof {
            assert(left@.take(i as int + 1) == left@.take(i as int).push(left@[i as int]));
            to_multiset_build(left@.take(i as int), left@[i as int]);
        }
        i += 1;
    }
    proof {
        assert(left@.take(left.len() as int) == left@);
        assert(left@ + right@.take(0) == left@);
    }
    let mut j: usize = 0;
    while j < right.len()
        invariant
            j <= right.len(),
            sorted_by(out@, seg_order()),
            out@.to_multiset() == (left@ + right@.take(j as int)).to_multiset(),
        decreases right.len() - j,
    {
        insert_sorted(&mut out, right[j]);
        proof {
            assert(left@ + right@.take(j as int + 1) == (left@ + right@.take(j as int)).push(
                right@[j as int],
            ));
            to_multiset_build(left@ + right@.take(j as int), right@[j as int]);
        }
        j += 1;
    }
    proof {
        let all = left@ + right@;
        assert(right@.take(right.len() as int) == right@);
        lemma_seg_order_total();
        all.lemma_sort_by_ensures(seg_order());
        lemma_sorted_unique(out@, all.sort_by(seg_order()), seg_order());
    }
    out
}

/// One pass over `sorted` that joins each extent to the one before it where
/// the two join.
fn merge_sorted(sorted: &Vec<BlkDevSegment>) -> (r: Vec<BlkDevSegment>)
    ensures
        r@ == merge_runs(sorted@),
{
    let mut out: Vec<BlkDevSegment> = Vec::new();
    let mut i: usize = 0;
    while i < sorted.len()
        invariant
            i <= sorted.len(),
            out@ == merge_runs(sorted@.take(i as int)),
        decreases sorted.len() - i,
    {
        let x: BlkDevSegment = sorted[i];
        let n: usize = out.len();
        proof {
            let upto = sorted@.take(i as int + 1);
            assert(upto.drop_last() == sorted@.take(i as int));
            assert(upto.last() == x);
        }
        if n > 0 && can_join(&out[n - 1], &x) {
            let last: BlkDevSegment = out[n - 1];
            let grown = BlkDevSegment {
                uuid: last.uuid,
                segment: Segment {
                    device: last.segment.device,
                    start: last.segment.start,
                    length: last.segment.length + x.segment.length,
                },
            };
            let ghost prior = out@;
            out.set(n - 1, grown);
            proof {
                assert(out@ == prior.drop_last().push(joined(prior.last(), x)));
            }
        } else {
            out.push(x);
        }
        i += 1;
    }
    proof {
        assert(sorted@.take(sorted.len() as int) == sorted@);
    }
    out
}

/// Merges two lists of extents into one coalesced list: the extents of both
/// in the order of `seg_leq`, with every run of extents that join one
/// another replaced by the one extent that covers the run.
pub fn coalesce_blkdevsegs(left: &Vec<BlkDevSegment>, right: &Vec<BlkDevSegment>) -> (r: Vec<
    BlkDevSegment,
>)
    ensures
        r@ == coalesced(left@ + right@),
{
    let sorted = sort_segments(left, right);
    merge_sorted(&sorted)
}

/// The sectors that the extent `x` covers, each with its device.
pub open spec fn extent(x: BlkDevSegment) -> Set<(Device, int)> {
    Set::new(|p: (Device, int)| in_extent(x, p.0, p.1))
}

proof fn lemma_total_push(s: Seq<BlkDevSegment>, x: BlkDevSegment)
    ensures
        total_length(s.push(x)) == total_length(s) + x.segment.length,
{
    assert(s.push(x).drop_last() == s);
}

/// The total length of two lists put together is the sum of their total
/// lengths.
pub proof fn lemma_total_concat(a: Seq<BlkDevSegment>, b: Seq<BlkDevSegment>)
    ensures
        total_length(a + b) == total_length(a) + total_length(b),
    decreases b.len(),
{
    if b.len() == 0 {
        assert(a + b == a);
    } else {
        lemma_total_concat(a, b.drop_last());
        assert((a + b).drop_last() == a + b.drop_last());
        assert((a + b).last() == b.last());
    }
}

proof fn lemma_total_remove(s: Seq<BlkDevSegment>, j: int)
    requires
        0 <= j < s.len(),
    ensures
        total_length(s) == total_length(s.remove(j)) + s[j].segment.length,
    decreases s.len(),
{
    if j == s.len() - 1 {
        assert(s.remove(j) == s.drop_last());
    } else {
        lemma_total_remove(s.drop_last(), j);
        assert(s.remove(j).drop_last() == s.drop_last().remove(j));
        assert(s.remove(j).last() == s.last());
    }
}

/// Two lists that hold the same extents, in whatever order, have the same
/// total length.
proof fn lemma_total_permutation(a: Seq<BlkDevSegment>, b: Seq<BlkDevSegment>)
    requires
        a.to_multiset() == b.to_multiset(),
    ensures
        total_length(a) == total_length(b),
    decreases a.len(),
{
    to_multiset_len(a);
    to_multiset_len(b);
    if a.len() > 0 {
        let x = a.last();
        to_multiset_contains(a, x);
        to_multiset_contains(b, x);
        assert(a.contains(x));
        let j = choose|j: int| 0 <= j < b.len() && b[j] == x;
        to_multiset_remove(b, j);
        to_multiset_remove(a, a.len() - 1);
        assert(a.remove(a.len() - 1) == a.drop_last());
        lemma_total_permutation(a.drop_last(), b.remove(j));
        lemma_total_remove(b, j);
    }
}

/// Two lists that hold the same extents, in whatever order, cover the same
/// sectors.
proof fn lemma_covered_permutation(a: Seq<BlkDevSegment>, b: Seq<BlkDevSegment>)
    requires
        a.to_multiset() == b.to_multiset(),
    ensures
        covered(a) == covered(b),
{
    assert forall|p: (Device, int)| covered(a).contains(p) <==> covered(b).contains(p) by {
        if covered(a).contains(p) {
            let i = choose|i: int| 0 <= i < a.len() && in_extent(#[trigger] a[i], p.0, p.1);
            to_multiset_contains(a, a[i]);
            to_multiset_contains(b, a[i]);
            assert(a.contains(a[i]));
            let j = choose|j: int| 0 <= j < b.len() && b[j] == a[i];
            assert(in_extent(b[j], p.0, p.1));
        }
        if covered(b).contains(p) {
            let i = choose|i: int| 0 <= i < b.len() && in_extent(#[trigger] b[i], p.0, p.1);
            to_multiset_contains(a, b[i]);
            to_multiset_contains(b, b[i]);
            assert(b.contains(b[i]));
            let j = choose|j: int| 0 <= j < a.len() && a[j] == b[i];
            assert(in_extent(a[j], p.0, p.1));
        }
    }
    assert(covered(a) =~= covered(b));
}

proof fn lemma_covered_push(s: Seq<BlkDevSegment>, x: BlkDevSegment)
    ensures
        covered(s.push(x)) == covered(s).union(extent(x)),
{
    let t = s.push(x);
    assert forall|p: (Device, int)| covered(t).contains(p) <==> covered(s).union(
        extent(x),
    ).contains(p) by {
        if covered(t).contains(p) {
            let i = choose|i: int| 0 <= i < t.len() && in_extent(#[trigger] t[i], p.0, p.1);
            if i < s.len() {
                assert(in_extent(s[i], p.0, p.1));
            }
        }
        if covered(s).contains(p) {
            let i = choose|i: int| 0 <= i < s.len() && in_extent(#[trigger] s[i], p.0, p.1);
            assert(in_extent(t[i], p.0, p.1));
        }
        if extent(x).contains(p) {
            assert(in_extent(t[s.len() as int], p.0, p.1));
        }
    }
    assert(covered(t) =~= covered(s).union(extent(x)));
}

/// The pass that joins extents keeps their total length and the sectors
/// they cover, and never makes the list longer.
proof fn lemma_merge_preserves(s: Seq<BlkDevSegment>)
    ensures
        total_length(merge_runs(s)) == total_length(s),
        covered(merge_runs(s)) == covered(s),
        merge_runs(s).len() <= s.len(),
    decreases s.len(),
{
    if s.len() == 0 {
        assert(covered(merge_runs(s)) =~= covered(s));
    } else {
        let head = s.drop_last();
        let x = s.last();
        let before = merge_runs(head);
        lemma_merge_preserves(head);
        assert(s == head.push(x));
        lemma_covered_push(head, x);
        lemma_total_push(head, x);
        if before.len() > 0 && joins(before.last(), x) {
            let a = before.last();
            let m = joined(a, x);
            assert(before == before.drop_last().push(a));
            lemma_total_push(before.drop_last(), m);
            lemma_total_push(before.drop_last(), a);
            lemma_covered_push(before.drop_last(), m);
            lemma_covered_push(before.drop_last(), a);
            assert(extent(m) =~= extent(a).union(extent(x)));
            assert(covered(merge_runs(s)) =~= covered(s));
        } else {
            lemma_total_push(before, x);
            lemma_covered_push(before, x);
        }
    }
}

/// On an ordered list, the pass that joins extents leaves an ordered list in
/// which no extent joins the next.
proof fn lemma_merge_keeps_order(s: Seq<BlkDevSegment>)
    requires
        sorted_by(s, seg_order()),
    ensures
        sorted_by(merge_runs(s), seg_order()),
        settled(merge_runs(s)),
        s.len() > 0 ==> merge_runs(s).len() > 0 && seg_leq(merge_runs(s).last(), s.last()),
    decreases s.len(),
{
    let r = seg_order();
    if s.len() > 0 {
        let head = s.drop_last();
        let x = s.last();
        let before = merge_runs(head);
        assert forall|i: int, j: int| 0 <= i < j < head.len() implies #[trigger] r(
            head[i],
            head[j],
        ) by {
            assert(r(s[i], s[j]));
        }
        lemma_merge_keeps_order(head);
        lemma_seg_order_total();
        let after = merge_runs(s);
        if before.len() > 0 {
            assert(r(head.last(), x)) by {
                assert(r(s[s.len() - 2], s[s.len() - 1]));
            }
            assert(r(before.last(), head.last()));
            assert(r(before.last(), x));
        }
        if before.len() > 0 && joins(before.last(), x) {
            let a = before.last();
            let m = joined(a, x);
            let n = before.len() - 1;
            assert(after == before.drop_last().push(m));
            assert(seg_leq(a, m));
            assert(seg_leq(m, x));
            assert forall|i: int, j: int| 0 <= i < j < after.len() implies #[trigger] r(
                after[i],
                after[j],
            ) by {
                if j < n {
                    assert(r(before[i], before[j]));
                } else {
                    assert(r(before[i], before[n]));
                    assert(r(before[i], a) && r(a, m));
                }
            }
            assert forall|k: int| 0 < k < after.len() implies !joins(
                #[trigger] after[k - 1],
                after[k],
            ) by {
                if k < n {
                    assert(!joins(before[k - 1], before[k]));
                } else {
                    assert(!joins(before[n - 1], before[n]));
                }
            }
        } else {
            assert(after == before.push(x));
            assert forall|i: int, j: int| 0 <= i < j < after.len() implies #[trigger] r(
                after[i],
                after[j],
            ) by {
                if j < before.len() {
                    assert(r(before[i], before[j]));
                } else if i < before.len() - 1 {
                    assert(r(before[i], before[before.len() - 1]));
                    assert(r(before[i], before.last()) && r(before.last(), x));
                }
            }
            assert forall|k: int| 0 < k < after.len() implies !joins(
                #[trigger] after[k - 1],
                after[k],
            ) by {
                if k < before.len() {
                    assert(!joins(before[k - 1], before[k]));
                }
            }
        }
    }
}

/// Where no extent joins the next, the pass that joins extents changes
/// nothing.
proof fn lemma_settled_fixed(s: Seq<BlkDevSegment>)
    requires
        settled(s),
    ensures
        merge_runs(s) == s,
    decreases s.len(),
{
    if s.len() > 0 {
        let head = s.drop_last();
        assert forall|k: int| 0 < k < head.len() implies !joins(#[trigger] head[k - 1], head[k]) by {
            assert(!joins(s[k - 1], s[k]));
        }
        lemma_settled_fixed(head);
        if head.len() > 0 {
            assert(!joins(s[s.len() - 1 - 1], s[s.len() - 1]));
        }
        assert(s == head.push(s.last()));
    }
}

/// Ordering an ordered list changes nothing.
proof fn lemma_sorted_fixed(s: Seq<BlkDevSegment>)
    requires
        sorted_by(s, seg_order()),
    ensures
        s.sort_by(seg_order()) == s,
{
    lemma_seg_order_total();
    s.lemma_sort_by_ensures(seg_order());
    lemma_sorted_unique(s.sort_by(seg_order()), s, seg_order());
}

/// A coalesced list is in order, and none of its extents joins the next.
pub proof fn lemma_coalesced_is_minimal(s: Seq<BlkDevSegment>)
    ensures
        sorted_by(coalesced(s), seg_order()),
        settled(coalesced(s)),
        coalesced(s).len() <= s.len(),
{
    lemma_seg_order_total();
    s.lemma_sort_by_ensures(seg_order());
    lemma_merge_keeps_order(s.sort_by(seg_order()));
    lemma_merge_preserves(s.sort_by(seg_order()));
    to_multiset_len(s);
    to_multiset_len(s.sort_by(seg_order()));
}

/// Coalescing keeps the total length of the extents and the sectors they
/// cover: it neither adds a sector nor loses one.
pub proof fn lemma_coalesce_preserves(s: Seq<BlkDevSegment>)
    ensures
        total_length(coalesced(s)) == total_length(s),
        covered(coalesced(s)) == covered(s),
{
    lemma_seg_order_total();
    s.lemma_sort_by_ensures(seg_order());
    lemma_total_permutation(s, s.sort_by(seg_order()));
    lemma_covered_permutation(s, s.sort_by(seg_order()));
    lemma_merge_preserves(s.sort_by(seg_order()));
}

/// Coalescing is idempotent: coalescing a coalesced list, alone or together
/// with an empty list, gives the list back.
pub proof fn lemma_coalesce_idempotent(s: Seq<BlkDevSegment>)
    ensures
        coalesced(coalesced(s)) == coalesced(s),
        coalesced(coalesced(s) + Seq::<BlkDevSegment>::empty()) == coalesced(s),
        coalesced(Seq::<BlkDevSegment>::empty() + coalesced(s)) == coalesced(s),
{
    let once = coalesced(s);
    lemma_coalesced_is_minimal(s);
    lemma_sorted_fixed(once);
    lemma_settled_fixed(once);
    assert(once + Seq::<BlkDevSegment>::empty() == once);
    assert(Seq::<BlkDevSegment>::empty() + once == once);
}

/// The outcome of coalescing two lists does not depend on which of them
/// comes first.
pub proof fn lemma_coalesce_order_independent(a: Seq<BlkDevSegment>, b: Seq<BlkDevSegment>)
    ensures
        coalesced(a + b) == coalesced(b + a),
{
    broadcast use vstd::multiset::group_multiset_axioms;

    lemma_seg_order_total();
    lemma_multiset_commutative(a, b);
    lemma_multiset_commutative(b, a);
    assert(a.to_multiset().add(b.to_multiset()) =~= b.to_multiset().add(a.to_multiset()));
    (a + b).lemma_sort_by_ensures(seg_order());
    (b + a).lemma_sort_by_ensures(seg_order());
    assert((a + b).sort_by(seg_order()).to_multiset() =~= (b + a).sort_by(
        seg_order(),
    ).to_multiset());
    lemma_sorted_unique((a + b).sort_by(seg_order()), (b + a).sort_by(seg_order()), seg_order());
}

/// Some extent of `s` has the owner `uuid` on the device `device`.
pub open spec fn owner_in(s: Seq<BlkDevSegment>, uuid: DevUuid, device: Device) -> bool {
    exists|i: int| 0 <= i < s.len() && (#[trigger] s[i]).uuid == uuid && s[i].segment.device == device
}

proof fn lemma_merge_owners(s: Seq<BlkDevSegment>, k: int)
    requires
        0 <= k < merge_runs(s).len(),
    ensures
        owner_in(s, merge_runs(s)[k].uuid, merge_runs(s)[k].segment.device),
    decreases s.len(),
{
    if s.len() > 0 {
        let head = s.drop_last();
        let x = s.last();
        let before = merge_runs(head);
        let after = merge_runs(s);
        let joining = before.len() > 0 && joins(before.last(), x);
        if joining && k == after.len() - 1 {
            lemma_merge_owners(head, before.len() - 1);
            let i = choose|i: int|
                0 <= i < head.len() && (#[trigger] head[i]).uuid == before.last().uuid
                    && head[i].segment.device == before.last().segment.device;
            assert(s[i].uuid == after[k].uuid && s[i].segment.device == after[k].segment.device);
        } else if !joining && k == after.len() - 1 {
            assert(s[s.len() - 1].uuid == after[k].uuid);
        } else {
            lemma_merge_owners(head, k);
            let i = choose|i: int|
                0 <= i < head.len() && (#[trigger] head[i]).uuid == before[k].uuid
                    && head[i].segment.device == before[k].segment.device;
            assert(s[i].uuid == after[k].uuid && s[i].segment.device == after[k].segment.device);
        }
    }
}

/// Coalescing invents no owner: each extent of the coalesced list has the
/// owner and the device of some extent of the list it was made from.
pub proof fn lemma_coalesced_owners(s: Seq<BlkDevSegment>, k: int)
    requires
        0 <= k < coalesced(s).len(),
    ensures
        owner_in(s, coalesced(s)[k].uuid, coalesced(s)[k].segment.device),
{
    let sorted = s.sort_by(seg_order());
    lemma_seg_order_total();
    s.lemma_sort_by_ensures(seg_order());
    lemma_merge_owners(sorted, k);
    let i = choose|i: int|
        0 <= i < sorted.len() && (#[trigger] sorted[i]).uuid == coalesced(s)[k].uuid
            && sorted[i].segment.device == coalesced(s)[k].segment.device;
    assert(sorted.contains(sorted[i]));
    assert(s.contains(sorted[i]));
    let j = choose|j: int| 0 <= j < s.len() && s[j] == sorted[i];
    assert(s[j].uuid == coalesced(s)[k].uuid);
}

/// Two lists put together cover what either of them covers.
pub proof fn lemma_covered_concat(a: Seq<BlkDevSegment>, b: Seq<BlkDevSegment>)
    ensures
        covered(a + b) == covered(a).union(covered(b)),
{
    let t = a + b;
    assert forall|p: (Device, int)| covered(t).contains(p) <==> covered(a).union(
        covered(b),
    ).contains(p) by {
        if covered(t).contains(p) {
            let i = choose|i: int| 0 <= i < t.len() && in_extent(#[trigger] t[i], p.0, p.1);
            if i < a.len() {
                assert(in_extent(a[i], p.0, p.1));
            } else {
                assert(in_extent(b[i - a.len()], p.0, p.1));
            }
        }
        if covered(a).contains(p) {
            let i = choose|i: int| 0 <= i < a.len() && in_extent(#[trigger] a[i], p.0, p.1);
            assert(in_extent(t[i], p.0, p.1));
        }
        if covered(b).contains(p) {
            let i = choose|i: int| 0 <= i < b.len() && in_extent(#[trigger] b[i], p.0, p.1);
            assert(in_extent(t[i + a.len()], p.0, p.1));
        }
    }
    assert(covered(t) =~= covered(a).union(covered(b)));
}

/// The extents `a` and `b` have no sector in common: they are on different
/// devices, or one ends where or before the other begins.
pub open spec fn apart(a: BlkDevSegment, b: BlkDevSegment) -> bool {
    ||| a.segment.device != b.segment.device
    ||| a.segment.start + a.segment.length <= b.segment.start
    ||| b.segment.start + b.segment.length <= a.segment.start
}

/// No extent of `s` is empty, and no two of them have a sector in common.
pub open spec fn disjointed(s: Seq<BlkDevSegment>) -> bool {
    &&& forall|i: int| 0 <= i < s.len() ==> (#[trigger] s[i]).segment.length > 0
    &&& forall|i: int, j: int| 0 <= i < j < s.len() ==> apart(#[trigger] s[i], #[trigger] s[j])
}

/// Putting extents in order keeps them apart.
proof fn lemma_sort_keeps_apart(s: Seq<BlkDevSegment>)
    requires
        disjointed(s),
    ensures
        disjointed(s.sort_by(seg_order())),
{
    let t = s.sort_by(seg_order());
    lemma_seg_order_total();
    s.lemma_sort_by_ensures(seg_order());
    assert(s.no_duplicates()) by {
        assert forall|i: int, j: int| 0 <= i < s.len() && 0 <= j < s.len() && i != j implies s[i]
            != s[j] by {
            if i < j {
                assert(apart(s[i], s[j]));
            } else {
                assert(apart(s[j], s[i]));
            }
        }
    }
    s.lemma_multiset_has_no_duplicates();
    t.lemma_multiset_has_no_duplicates_conv();
    assert forall|i: int| 0 <= i < t.len() implies (#[trigger] t[i]).segment.length > 0 by {
        assert(t.contains(t[i]));
        assert(s.contains(t[i]));
        let p = choose|p: int| 0 <= p < s.len() && s[p] == t[i];
        assert(s[p].segment.length > 0);
    }
    assert forall|i: int, j: int| 0 <= i < j < t.len() implies apart(
        #[trigger] t[i],
        #[trigger] t[j],
    ) by {
        assert(t.contains(t[i]) && t.contains(t[j]));
        assert(s.contains(t[i]) && s.contains(t[j]));
        let p = choose|p: int| 0 <= p < s.len() && s[p] == t[i];
        let q = choose|q: int| 0 <= q < s.len() && s[q] == t[j];
        assert(t[i] != t[j]);
        if p < q {
            assert(apart(s[p], s[q]));
        } else {
            assert(apart(s[q], s[p]));
        }
    }
}

/// What is apart from every extent of a list is apart from every extent
/// of the list with its runs joined.
proof fn lemma_merge_apart_from(u: Seq<BlkDevSegment>, y: BlkDevSegment)
    requires
        y.segment.length > 0,
        forall|i: int| 0 <= i < u.len() ==> apart(#[trigger] u[i], y),
    ensures
        forall|k: int| 0 <= k < merge_runs(u).len() ==> apart(#[trigger] merge_runs(u)[k], y),
    decreases u.len(),
{
    if u.len() > 0 {
        let head = u.drop_last();
        let x = u.last();
        let before = merge_runs(head);
        let after = merge_runs(u);
        assert forall|i: int| 0 <= i < head.len() implies apart(#[trigger] head[i], y) by {
            assert(apart(u[i], y));
        }
        lemma_merge_apart_from(head, y);
        assert(apart(u[u.len() - 1], y));
        if before.len() > 0 && joins(before.last(), x) {
            let n = before.len() - 1;
            assert(apart(before[n], y));
            assert forall|k: int| 0 <= k < after.len() implies apart(#[trigger] after[k], y) by {
                if k < n {
                    assert(apart(before[k], y));
                }
            }
        } else {
            assert forall|k: int| 0 <= k < after.len() implies apart(#[trigger] after[k], y) by {
                if k < before.len() {
                    assert(apart(before[k], y));
                }
            }
        }
    }
}

/// Joining runs keeps extents apart.
proof fn lemma_merge_keeps_apart(u: Seq<BlkDevSegment>)
    requires
        disjointed(u),
    ensures
        disjointed(merge_runs(u)),
    decreases u.len(),
{
    if u.len() > 0 {
        let head = u.drop_last();
        let x = u.last();
        let before = merge_runs(head);
        let after = merge_runs(u);
        assert forall|i: int| 0 <= i < head.len() implies (#[trigger] head[i]).segment.length
            > 0 && apart(head[i], x) by {
            assert(u[i].segment.length > 0);
            assert(apart(u[i], u[u.len() - 1]));
        }
        assert forall|i: int, j: int| 0 <= i < j < head.len() implies apart(
            #[trigger] head[i],
            #[trigger] head[j],
        ) by {
            assert(apart(u[i], u[j]));
        }
        lemma_merge_keeps_apart(head);
        lemma_merge_apart_from(head, x);
        assert(u[u.len() - 1].segment.length > 0);
        let n = before.len() - 1;
        if before.len() > 0 && joins(before.last(), x) {
            assert(before[n].segment.length > 0);
            assert forall|i: int, j: int| 0 <= i < j < after.len() implies apart(
                #[trigger] after[i],
                #[trigger] after[j],
            ) by {
                if j < n {
                    assert(apart(before[i], before[j]));
                } else {
                    assert(apart(before[i], before[n]));
                    assert(apart(before[i], x));
                }
            }
            assert forall|i: int| 0 <= i < after.len() implies (#[trigger] after[i]).segment.length
                > 0 by {
                if i < n {
                    assert(before[i].segment.length > 0);
                }
            }
        } else {
            assert forall|i: int, j: int| 0 <= i < j < after.len() implies apart(
                #[trigger] after[i],
                #[trigger] after[j],
            ) by {
                if j < before.len() {
                    assert(apart(before[i], before[j]));
                } else {
                    assert(apart(before[i], x));
                }
            }
            assert forall|i: int| 0 <= i < after.len() implies (#[trigger] after[i]).segment.length
                > 0 by {
                if i < before.len() {
                    assert(before[i].segment.length > 0);
                }
            }
        }
    }
}

/// Coalescing keeps extents apart: where no extent is empty and no two
/// extents have a sector in common, the same holds of the coalesced list.
pub proof fn lemma_coalesce_keeps_apart(s: Seq<BlkDevSegment>)
    requires
        disjointed(s),
    ensures
        disjointed(coalesced(s)),
{
    lemma_sort_keeps_apart(s);
    lemma_merge_keeps_apart(s.sort_by(seg_order()));
}

} // verus!
