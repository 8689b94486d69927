//! Round-robin iteration over every address of a range set.
//!
//! The spans of the members of a set, laid end to end in insertion order,
//! form a cyclic sequence of positions. `RangeIter` walks that cycle from a
//! seed — the start of a chosen range, or the successor of a previously
//! handed-out address — skipping each range's gateway, and stops for good
//! once it would step onto the address the cycle began with. So one full
//! cycle offers every non-gateway address of the set exactly once.

use vstd::prelude::*;

use crate::ip::lemma_with_value_identity;
use crate::ip::IpAddress;
use crate::range::lemma_contains_iff_in_span;
use crate::range::lemma_no_overlap_disjoint;
use crate::range::Range;
use crate::rangeset::ranges_wf;
use crate::rangeset::RangeSet;
use crate::subnet::IpNet;

verus! {

/// Number of addresses in a range's span.
pub open spec fn span_size(r: Range) -> int {
    r.end.value() - r.start.value() + 1
}

/// Number of positions in the concatenated spans of all members.
pub open spec fn total_size(rs: Seq<Range>) -> int
    decreases rs.len(),
{
    if rs.len() == 0 {
        0
    } else {
        span_size(rs[0]) + total_size(rs.drop_first())
    }
}

/// The member whose span holds position `p`.
pub open spec fn range_at(rs: Seq<Range>, p: int) -> Range
    decreases rs.len(),
{
    if rs.len() == 0 {
        arbitrary()
    } else if p < span_size(rs[0]) {
        rs[0]
    } else {
        range_at(rs.drop_first(), p - span_size(rs[0]))
    }
}

/// The index of the member whose span holds position `p`.
pub open spec fn index_at(rs: Seq<Range>, p: int) -> int
    decreases rs.len(),
{
    if rs.len() == 0 {
        0
    } else if p < span_size(rs[0]) {
        0
    } else {
        1 + index_at(rs.drop_first(), p - span_size(rs[0]))
    }
}

/// The address at position `p`.
pub open spec fn addr_at(rs: Seq<Range>, p: int) -> IpAddress
    decreases rs.len(),
{
    if rs.len() == 0 {
        arbitrary()
    } else if p < span_size(rs[0]) {
        rs[0].start.with_value(rs[0].start.value() + p)
    } else {
        addr_at(rs.drop_first(), p - span_size(rs[0]))
    }
}

/// The position of address `a`; meaningful when some member's span holds it.
pub open spec fn pos_of(rs: Seq<Range>, a: IpAddress) -> int
    decreases rs.len(),
{
    if rs.len() == 0 {
        0
    } else if rs[0].in_span(a) {
        a.value() - rs[0].start.value()
    } else {
        span_size(rs[0]) + pos_of(rs.drop_first(), a)
    }
}

/// Some member's span holds `a`.
pub open spec fn in_some_span(rs: Seq<Range>, a: IpAddress) -> bool {
    exists|i: int| 0 <= i < rs.len() && (#[trigger] rs[i]).in_span(a)
}

/// The member whose span holds `a`.
pub open spec fn owner_of(rs: Seq<Range>, a: IpAddress) -> Range {
    range_at(rs, pos_of(rs, a))
}

proof fn lemma_ranges_wf_drop(rs: Seq<Range>)
    requires
        ranges_wf(rs),
        rs.len() > 0,
    ensures
        ranges_wf(rs.drop_first()),
{
    let rest = rs.drop_first();
    assert forall|i: int| 0 <= i < rest.len() implies (#[trigger] rest[i]).wf() by {
        assert(rest[i] == rs[i + 1]);
    }
    assert forall|i: int, j: int|
        0 <= i < rest.len() && 0 <= j < rest.len() implies #[trigger] rest[i].same_family_spec(
        rest[j],
    ) by {
        assert(rest[i] == rs[i + 1]);
        assert(rest[j] == rs[j + 1]);
    }
    assert forall|i: int, j: int|
        0 <= i < rest.len() && 0 <= j < rest.len() && i != j implies !#[trigger] rest[
    i].overlaps_spec(rest[j]) by {
        assert(rest[i] == rs[i + 1]);
        assert(rest[j] == rs[j + 1]);
    }
}

/// Every member's span is nonempty, so the cycle has at least as many
/// positions as the set has members.
proof fn lemma_total_size_bounds(rs: Seq<Range>)
    requires
        ranges_wf(rs),
    ensures
        total_size(rs) >= rs.len(),
    decreases rs.len(),
{
    if rs.len() > 0 {
        lemma_ranges_wf_drop(rs);
        lemma_total_size_bounds(rs.drop_first());
        assert(rs[0].wf());
        assert(span_size(rs[0]) >= 1);
    }
}

/// Each valid position names an address inside the span of the member at its
/// index.
proof fn lemma_addr_at_props(rs: Seq<Range>, p: int)
    requires
        ranges_wf(rs),
        0 <= p < total_size(rs),
    ensures
        0 <= index_at(rs, p) < rs.len(),
        range_at(rs, p) == rs[index_at(rs, p)],
        range_at(rs, p).in_span(addr_at(rs, p)),
        addr_at(rs, p).value() == range_at(rs, p).start.value() + p - pos_of(
            rs,
            range_at(rs, p).start,
        ),
        pos_of(rs, range_at(rs, p).start) <= p,
        in_some_span(rs, addr_at(rs, p)),
    decreases rs.len(),
{
    lemma_total_size_bounds(rs);
    let r0 = rs[0];
    assert(r0.wf());
    if p < span_size(r0) {
        let a = r0.start.with_value(r0.start.value() + p);
        assert(r0.start.same_family_spec(r0.end));
        assert(0 <= r0.start.value() + p <= r0.end.value());
        assert(r0.end.value() <= r0.start.family_max());
        assert(a.value() == r0.start.value() + p);
        assert(a.same_family_spec(r0.start));
        assert(r0.in_span(a));
        assert(r0.in_span(r0.start));
        assert(pos_of(rs, r0.start) == 0);
        assert(rs[0].in_span(a));
        assert(in_some_span(rs, a));
    } else {
        let rest = rs.drop_first();
        lemma_ranges_wf_drop(rs);
        lemma_addr_at_props(rest, p - span_size(r0));
        let a = addr_at(rest, p - span_size(r0));
        let k = index_at(rest, p - span_size(r0));
        assert(rest[k] == rs[k + 1]);
        assert(rs[k + 1].in_span(a));
        assert(in_some_span(rs, a));
        // the owner's start is not in the first member's span
        let owner = range_at(rest, p - span_size(r0));
        assert(owner.in_span(owner.start));
        if r0.in_span(owner.start) {
            lemma_no_overlap_disjoint(rs[0], rs[k + 1], owner.start);
        }
        assert(pos_of(rs, owner.start) == span_size(r0) + pos_of(rest, owner.start));
    }
}

/// Positions are recovered from their addresses: `pos_of` inverts `addr_at`.
proof fn lemma_pos_roundtrip(rs: Seq<Range>, p: int)
    requires
        ranges_wf(rs),
        0 <= p < total_size(rs),
    ensures
        pos_of(rs, addr_at(rs, p)) == p,
    decreases rs.len(),
{
    lemma_addr_at_props(rs, p);
    let r0 = rs[0];
    if p < span_size(r0) {
        assert(r0.in_span(addr_at(rs, p)));
    } else {
        let rest = rs.drop_first();
        lemma_ranges_wf_drop(rs);
        lemma_pos_roundtrip(rest, p - span_size(r0));
        let a = addr_at(rest, p - span_size(r0));
        lemma_addr_at_props(rest, p - span_size(r0));
        let k = index_at(rest, p - span_size(r0));
        assert(rest[k] == rs[k + 1]);
        if r0.in_span(a) {
            lemma_no_overlap_disjoint(rs[0], rs[k + 1], a);
        }
    }
}

/// An address inside member `k`'s span sits at a valid position whose
/// recorded address, owner and index are that address, that member and `k`.
proof fn lemma_owner(rs: Seq<Range>, a: IpAddress, k: int)
    requires
        ranges_wf(rs),
        0 <= k < rs.len(),
        rs[k].in_span(a),
    ensures
        0 <= pos_of(rs, a) < total_size(rs),
        addr_at(rs, pos_of(rs, a)) == a,
        range_at(rs, pos_of(rs, a)) == rs[k],
        index_at(rs, pos_of(rs, a)) == k,
    decreases rs.len(),
{
    let r0 = rs[0];
    assert(r0.wf());
    lemma_total_size_bounds(rs);
    if k == 0 {
        assert(r0.in_span(a));
        let p = a.value() - r0.start.value();
        assert(0 <= p < span_size(r0));
        lemma_ranges_wf_drop(rs);
        lemma_total_size_bounds(rs.drop_first());
        lemma_with_value_identity(a, r0.start);
    } else {
        if r0.in_span(a) {
            lemma_no_overlap_disjoint(rs[0], rs[k], a);
        }
        let rest = rs.drop_first();
        lemma_ranges_wf_drop(rs);
        assert(rest[k - 1] == rs[k]);
        lemma_owner(rest, a, k - 1);
    }
}

/// Moving one position forward: within a member the address value grows by
/// one; at a member's end the walk moves to the next member's start; the
/// cycle's final position is the end of the last member.
proof fn lemma_step(rs: Seq<Range>, p: int)
    requires
        ranges_wf(rs),
        0 <= p < total_size(rs),
    ensures
        ({
            let a = addr_at(rs, p);
            let k = index_at(rs, p);
            &&& (a.value() < rs[k].end.value() ==> p + 1 < total_size(rs) && index_at(rs, p + 1)
                == k && addr_at(rs, p + 1) == a.with_value(a.value() + 1))
            &&& (a.value() == rs[k].end.value() ==> ((p + 1 == total_size(rs) <==> k == rs.len()
                - 1) && (p + 1 < total_size(rs) ==> index_at(rs, p + 1) == k + 1 && addr_at(
                rs,
                p + 1,
            ) == rs[k + 1].start)))
        }),
    decreases rs.len(),
{
    lemma_addr_at_props(rs, p);
    let r0 = rs[0];
    assert(r0.wf());
    let a = addr_at(rs, p);
    let k = index_at(rs, p);
    let rest = rs.drop_first();
    lemma_ranges_wf_drop(rs);
    lemma_total_size_bounds(rest);
    if p < span_size(r0) {
        assert(k == 0);
        assert(a.value() == r0.start.value() + p);
        assert(r0.start.same_family_spec(r0.end));
        if a.value() < r0.end.value() {
            assert(p + 1 < span_size(r0));
            assert(addr_at(rs, p + 1) == r0.start.with_value(r0.start.value() + p + 1));
            assert(a.with_value(a.value() + 1) == r0.start.with_value(r0.start.value() + p + 1));
        } else if a.value() == r0.end.value() {
            assert(p == span_size(r0) - 1);
            if rs.len() == 1 {
                assert(total_size(rest) == 0);
                assert(p + 1 == total_size(rs));
            } else {
                assert(rest.len() > 0);
                assert(rest[0] == rs[1]);
                assert(rest[0].wf());
                assert(span_size(rest[0]) >= 1);
                assert(total_size(rest) >= 1);
                assert(p + 1 < total_size(rs));
                assert(index_at(rs, p + 1) == 1 + index_at(rest, 0));
                assert(index_at(rest, 0) == 0);
                assert(addr_at(rs, p + 1) == addr_at(rest, 0));
                assert(addr_at(rest, 0) == rest[0].start.with_value(rest[0].start.value()));
                lemma_with_value_identity(rest[0].start, rest[0].start);
            }
        }
    } else {
        lemma_step(rest, p - span_size(r0));
        lemma_addr_at_props(rest, p - span_size(r0));
        let k2 = index_at(rest, p - span_size(r0));
        assert(k == 1 + k2);
        assert(rest[k2] == rs[k]);
        if k2 + 1 < rest.len() {
            assert(rest[k2 + 1] == rs[k + 1]);
        }
    }
}

/// The successor of position `p` on the cycle of `total` positions.
pub open spec fn next_pos(p: int, total: int) -> int {
    if p + 1 == total {
        0
    } else {
        p + 1
    }
}

/// Number of forward steps from `p` to `stop` on the cycle.
pub open spec fn dist(p: int, stop: int, total: int) -> int {
    if p <= stop {
        stop - p
    } else {
        total - p + stop
    }
}

/// The items offered walking forward from position `p` (inclusive) to
/// position `stop` (exclusive): each non-gateway address paired with its
/// owning range.
pub open spec fn walk(rs: Seq<Range>, p: int, stop: int) -> Seq<(IpAddress, Range)>
    decreases dist(p, stop, total_size(rs)),
{
    if !(0 <= p < total_size(rs) && 0 <= stop < total_size(rs)) {
        Seq::empty()
    } else if p == stop {
        Seq::empty()
    } else {
        let tail = walk(rs, next_pos(p, total_size(rs)), stop);
        if addr_at(rs, p) == range_at(rs, p).gateway {
            tail
        } else {
            seq![(addr_at(rs, p), range_at(rs, p))] + tail
        }
    }
}

/// One full cycle of items, starting at position `q` and going all the way
/// around back to `q`.
pub open spec fn walk_full(rs: Seq<Range>, q: int) -> Seq<(IpAddress, Range)> {
    if !(0 <= q < total_size(rs)) {
        Seq::empty()
    } else {
        let tail = walk(rs, next_pos(q, total_size(rs)), q);
        if addr_at(rs, q) == range_at(rs, q).gateway {
            tail
        } else {
            seq![(addr_at(rs, q), range_at(rs, q))] + tail
        }
    }
}

/// On a cycle, one forward step shortens the distance to any other position
/// by one, and no distance reaches a full turn.
proof fn lemma_dist_step(p: int, y: int, total: int)
    requires
        0 <= p < total,
        0 <= y < total,
    ensures
        dist(p, p, total) == 0,
        y != p ==> dist(p, y, total) == 1 + dist(next_pos(p, total), y, total),
        0 <= dist(p, y, total) <= total - 1,
        dist(next_pos(p, total), p, total) == total - 1,
        y != p ==> dist(next_pos(p, total), y, total) < total - 1,
{
}

/// Every item of a walk is the non-gateway address/owner pair of a position
/// strictly before the walk's stop.
proof fn lemma_walk_elem(rs: Seq<Range>, p: int, stop: int, j: int)
    requires
        ranges_wf(rs),
        0 <= p < total_size(rs),
        0 <= stop < total_size(rs),
        0 <= j < walk(rs, p, stop).len(),
    ensures
        exists|x: int|
            {
                &&& 0 <= x < total_size(rs)
                &&& walk(rs, p, stop)[j] == (addr_at(rs, x), range_at(rs, x))
                &&& addr_at(rs, x) != range_at(rs, x).gateway
                &&& #[trigger] dist(p, x, total_size(rs)) < dist(p, stop, total_size(rs))
            },
    decreases dist(p, stop, total_size(rs)),
{
    let total = total_size(rs);
    assert(p != stop);
    let q = next_pos(p, total);
    let tail = walk(rs, q, stop);
    lemma_dist_step(p, stop, total);
    if addr_at(rs, p) == range_at(rs, p).gateway {
        lemma_walk_elem(rs, q, stop, j);
        let x = choose|x: int|
            {
                &&& 0 <= x < total_size(rs)
                &&& tail[j] == (addr_at(rs, x), range_at(rs, x))
                &&& addr_at(rs, x) != range_at(rs, x).gateway
                &&& #[trigger] dist(q, x, total_size(rs)) < dist(q, stop, total_size(rs))
            };
        lemma_dist_step(p, x, total);
        assert(dist(p, x, total) < dist(p, stop, total));
    } else {
        let head = (addr_at(rs, p), range_at(rs, p));
        assert(walk(rs, p, stop) == seq![head] + tail);
        if j == 0 {
            assert(walk(rs, p, stop)[0] == head);
            assert(dist(p, p, total) < dist(p, stop, total));
        } else {
            assert(walk(rs, p, stop)[j] == tail[j - 1]);
            lemma_walk_elem(rs, q, stop, j - 1);
            let x = choose|x: int|
                {
                    &&& 0 <= x < total_size(rs)
                    &&& tail[j - 1] == (addr_at(rs, x), range_at(rs, x))
                    &&& addr_at(rs, x) != range_at(rs, x).gateway
                    &&& #[trigger] dist(q, x, total_size(rs)) < dist(q, stop, total_size(rs))
                };
            lemma_dist_step(p, x, total);
            assert(dist(p, x, total) < dist(p, stop, total));
        }
    }
}

/// A walk holds the pair of position `x` exactly when `x` lies strictly
/// before the walk's stop and its address is not its owner's gateway.
proof fn lemma_walk_covers(rs: Seq<Range>, p: int, stop: int, x: int)
    requires
        ranges_wf(rs),
        0 <= p < total_size(rs),
        0 <= stop < total_size(rs),
        0 <= x < total_size(rs),
    ensures
        walk(rs, p, stop).contains((addr_at(rs, x), range_at(rs, x))) <==> (dist(
            p,
            x,
            total_size(rs),
        ) < dist(p, stop, total_size(rs)) && addr_at(rs, x) != range_at(rs, x).gateway),
    decreases dist(p, stop, total_size(rs)),
{
    let total = total_size(rs);
    let w = walk(rs, p, stop);
    let item = (addr_at(rs, x), range_at(rs, x));
    lemma_dist_step(p, x, total);
    lemma_dist_step(p, stop, total);
    if p == stop {
        assert(!w.contains(item));
    } else {
        let q = next_pos(p, total);
        let tail = walk(rs, q, stop);
        lemma_walk_covers(rs, q, stop, x);
        lemma_pos_roundtrip(rs, p);
        lemma_pos_roundtrip(rs, x);
        if addr_at(rs, p) == range_at(rs, p).gateway {
            if x == p {
                assert(!(dist(p, x, total) < dist(p, stop, total) && addr_at(rs, x) != range_at(
                    rs,
                    x,
                ).gateway));
                if w.contains(item) {
                    let j = choose|j: int| 0 <= j < w.len() && w[j] == item;
                    lemma_walk_elem(rs, q, stop, j);
                    let y = choose|y: int|
                        {
                            &&& 0 <= y < total_size(rs)
                            &&& tail[j] == (addr_at(rs, y), range_at(rs, y))
                            &&& addr_at(rs, y) != range_at(rs, y).gateway
                            &&& #[trigger] dist(q, y, total_size(rs)) < dist(
                                q,
                                stop,
                                total_size(rs),
                            )
                        };
                    lemma_pos_roundtrip(rs, y);
                    assert(y == x);
                    assert(false);
                }
            } else {
                // membership in w and in tail coincide since w == tail
                assert(w == tail);
            }
        } else {
            let head = (addr_at(rs, p), range_at(rs, p));
            assert(w == seq![head] + tail);
            if x == p {
                assert(w[0] == head);
                assert(w.contains(item));
            } else {
                assert(head.0 == addr_at(rs, p));
                assert(addr_at(rs, x) != addr_at(rs, p));
                if tail.contains(item) {
                    let j = choose|j: int| 0 <= j < tail.len() && tail[j] == item;
                    assert(w[j + 1] == item);
                    assert(w.contains(item));
                }
                if w.contains(item) {
                    let j = choose|j: int| 0 <= j < w.len() && w[j] == item;
                    assert(j != 0);
                    assert(tail[j - 1] == item);
                    assert(tail.contains(item));
                }
            }
        }
    }
}

/// The addresses of a walk are pairwise distinct.
proof fn lemma_walk_distinct(rs: Seq<Range>, p: int, stop: int)
    requires
        ranges_wf(rs),
        0 <= p < total_size(rs),
        0 <= stop < total_size(rs),
    ensures
        forall|j1: int, j2: int|
            0 <= j1 < j2 < walk(rs, p, stop).len() ==> (#[trigger] walk(rs, p, stop)[j1]).0 != (
            #[trigger] walk(rs, p, stop)[j2]).0,
    decreases dist(p, stop, total_size(rs)),
{
    let total = total_size(rs);
    let w = walk(rs, p, stop);
    if p != stop {
        let q = next_pos(p, total);
        let tail = walk(rs, q, stop);
        lemma_walk_distinct(rs, q, stop);
        lemma_dist_step(p, stop, total);
        if addr_at(rs, p) == range_at(rs, p).gateway {
            assert(w == tail);
        } else {
            let head = (addr_at(rs, p), range_at(rs, p));
            assert(w == seq![head] + tail);
            assert forall|j1: int, j2: int| 0 <= j1 < j2 < w.len() implies (#[trigger] w[j1]).0 != (
            #[trigger] w[j2]).0 by {
                if j1 == 0 {
                    assert(w[j2] == tail[j2 - 1]);
                    lemma_walk_elem(rs, q, stop, j2 - 1);
                    let y = choose|y: int|
                        {
                            &&& 0 <= y < total_size(rs)
                            &&& tail[j2 - 1] == (addr_at(rs, y), range_at(rs, y))
                            &&& addr_at(rs, y) != range_at(rs, y).gateway
                            &&& #[trigger] dist(q, y, total_size(rs)) < dist(
                                q,
                                stop,
                                total_size(rs),
                            )
                        };
                    lemma_dist_step(q, y, total);
                    lemma_dist_step(q, stop, total);
                    assert(dist(q, p, total) == total - 1);
                    assert(y != p);
                    lemma_pos_roundtrip(rs, p);
                    lemma_pos_roundtrip(rs, y);
                    assert(w[0].0 == addr_at(rs, p));
                } else {
                    assert(w[j1] == tail[j1 - 1]);
                    assert(w[j2] == tail[j2 - 1]);
                }
            }
        }
    }
}

/// A cyclic, restartable walk over the candidate addresses of a range set.
///
/// `range_index` names the member the cursor is in; `current_ip` is the last
/// position considered (`None` before the first step); `start_ip` marks where
/// the cycle began, so the walk can stop after one full turn.
pub struct RangeIter {
    pub range_set: RangeSet,
    pub range_index: usize,
    pub current_ip: Option<IpAddress>,
    pub start_ip: Option<IpAddress>,
}

impl RangeIter {
    pub open spec fn wf(self) -> bool {
        &&& self.range_set.wf()
        &&& (self.range_index < self.range_set@.len() ==> (self.current_ip matches Some(c)
            ==> self.range_set@[self.range_index as int].in_span(c)))
        &&& (self.start_ip matches Some(s) ==> in_some_span(self.range_set@, s))
    }

    /// The items this iterator will still offer, in order.
    pub open spec fn remaining(self) -> Seq<(IpAddress, Range)> {
        let rs = self.range_set@;
        if self.range_index >= rs.len() {
            Seq::empty()
        } else {
            match (self.current_ip, self.start_ip) {
                (None, _) => walk_full(rs, pos_of(rs, rs[self.range_index as int].start)),
                (Some(c), None) => walk_full(rs, next_pos(pos_of(rs, c), total_size(rs))),
                (Some(c), Some(s)) => walk(
                    rs,
                    next_pos(pos_of(rs, c), total_size(rs)),
                    pos_of(rs, s),
                ),
            }
        }
    }

    spec fn measure(self) -> int {
        let rs = self.range_set@;
        let total = total_size(rs);
        match (self.current_ip, self.start_ip) {
            (Some(c), Some(s)) => if pos_of(rs, c) == pos_of(rs, s) {
                total
            } else {
                dist(pos_of(rs, c), pos_of(rs, s), total)
            },
            (Some(_), None) => total + 1,
            (None, _) => total + 2,
        }
    }

    /// Offer the next candidate: an address/prefix pair together with the
    /// gateway of the owning range. Returns nothing once the walk has come
    /// back around to its first address, and keeps returning nothing from
    /// then on.
    pub fn next(&mut self) -> (r: Option<(IpNet, IpAddress)>)
        requires
            old(self).wf(),
        ensures
            final(self).wf(),
            final(self).range_set@ == old(self).range_set@,
            old(self).remaining().len() == 0 ==> r is None && final(self).remaining() == Seq::<
                (IpAddress, Range),
            >::empty(),
            old(self).remaining().len() > 0 ==> ({
                let item = old(self).remaining()[0];
                &&& r == Some((IpNet { addr: item.0, prefix: item.1.subnet.prefix }, item.1.gateway))
                &&& final(self).remaining() == old(self).remaining().drop_first()
            }),
    {
        let ghost rs = self.range_set@;
        let ghost total = total_size(rs);
        let len: usize = self.range_set.len();
        if self.range_index >= len {
            return None;
        }
        if self.current_ip.is_none() {
            let range: Range = self.range_set.get(self.range_index).unwrap();
            let ghost q = pos_of(rs, range.start);
            proof {
                assert(range.wf());
                assert(range.in_span(range.start));
                lemma_owner(rs, range.start, self.range_index as int);
            }
            self.current_ip = Some(range.start);
            self.start_ip = Some(range.start);
            if !(range.start == range.gateway) {
                proof {
                    let head = (range.start, range);
                    assert(walk_full(rs, q) == seq![head] + walk(rs, next_pos(q, total), q));
                    assert((seq![head] + walk(rs, next_pos(q, total), q))[0] == head);
                    assert((seq![head] + walk(rs, next_pos(q, total), q)).drop_first() =~= walk(
                        rs,
                        next_pos(q, total),
                        q,
                    ));
                }
                return Some((IpNet { addr: range.start, prefix: range.subnet.prefix }, range.gateway));
            }
        }
        loop
            invariant
                self.wf(),
                self.range_set@ == old(self).range_set@,
                self.range_index < self.range_set@.len(),
                self.current_ip is Some,
                self.remaining() == old(self).remaining(),
            decreases self.measure(),
        {
            let ghost rs = self.range_set@;
            let ghost total = total_size(rs);
            let len: usize = self.range_set.len();
            let range: Range = self.range_set.get(self.range_index).unwrap();
            let c: IpAddress = self.current_ip.unwrap();
            let ghost p = pos_of(rs, c);
            let ghost k = self.range_index as int;
            proof {
                lemma_owner(rs, c, k);
                lemma_step(rs, p);
                assert(c.same_family_spec(range.start));
                assert(range.start.same_family_spec(range.end));
            }
            let ghost p2 = next_pos(p, total);
            let (ncur, nrange): (IpAddress, Range) = if c == range.end {
                let ni: usize = if self.range_index + 1 == len {
                    0
                } else {
                    self.range_index + 1
                };
                proof {
                    if p + 1 == total {
                        assert(k == rs.len() - 1);
                        assert(ni == 0);
                        assert(rs[0].wf());
                        assert(rs[0].in_span(rs[0].start));
                        lemma_owner(rs, rs[0].start, 0);
                        assert(pos_of(rs, rs[0].start) == 0);
                        assert(addr_at(rs, 0) == rs[0].start);
                    } else {
                        assert(k < rs.len() - 1);
                        assert(ni == k + 1);
                    }
                }
                self.range_index = ni;
                let r2: Range = self.range_set.get(ni).unwrap();
                (r2.start, r2)
            } else {
                proof {
                    assert(c.value() < range.end.value());
                    assert(c.value() < c.family_max());
                }
                (c.successor(), range)
            };
            proof {
                assert(0 <= p2 < total);
                lemma_addr_at_props(rs, p2);
                if c == range.end {
                } else {
                    lemma_with_value_identity(ncur, c);
                    assert(addr_at(rs, p2) == c.with_value(c.value() + 1));
                    assert(ncur == addr_at(rs, p2));
                }
                assert(ncur == addr_at(rs, p2));
                assert(index_at(rs, p2) == self.range_index as int);
                assert(nrange == rs[self.range_index as int]);
                assert(nrange == range_at(rs, p2));
                assert(nrange.in_span(ncur));
                lemma_pos_roundtrip(rs, p2);
                assert(pos_of(rs, ncur) == p2);
            }
            self.current_ip = Some(ncur);
            let ghost started = self.start_ip;
            match self.start_ip {
                None => {
                    self.start_ip = Some(ncur);
                },
                Some(s) => {
                    proof {
                        let ks = choose|i: int|
                            0 <= i < rs.len() && (#[trigger] rs[i]).in_span(s);
                        lemma_owner(rs, s, ks);
                    }
                    if ncur == s {
                        self.range_index = len;
                        return None;
                    }
                    proof {
                        assert(pos_of(rs, s) != p2);
                        assert(addr_at(rs, pos_of(rs, s)) == s);
                    }
                },
            }
            if !(ncur == nrange.gateway) {
                proof {
                    let head = (ncur, nrange);
                    let pending = if started is None {
                        walk_full(rs, p2)
                    } else {
                        walk(rs, p2, pos_of(rs, started->0))
                    };
                    let tail = if started is None {
                        walk(rs, next_pos(p2, total), p2)
                    } else {
                        walk(rs, next_pos(p2, total), pos_of(rs, started->0))
                    };
                    assert(pending == seq![head] + tail);
                    assert((seq![head] + tail)[0] == head);
                    assert((seq![head] + tail).drop_first() =~= tail);
                    assert(self.remaining() == tail);
                }
                return Some((IpNet { addr: ncur, prefix: nrange.subnet.prefix }, nrange.gateway));
            }
        }
    }
}

/// One full cycle of the round-robin iterator visits every non-gateway
/// address of every range in the set exactly once, then ends.
///
/// The law speaks of an iterator about to begin its cycle: one freshly seeded
/// at a member's start (`current_ip` unset), or resumed after a member
/// address (`start_ip` unset). Its pending items, `remaining()`, then hold
/// each non-gateway address of each member exactly once, paired with the
/// owning range, and nothing else. `RangeIter::next` pops `remaining()` one
/// item per call and returns nothing forever once it is empty, so the cycle
/// terminates when it would return to its first address.
pub proof fn lemma_cycle_complete(it: RangeIter)
    requires
        it.wf(),
        it.range_index < it.range_set@.len(),
        it.current_ip is None || it.start_ip is None,
    ensures
        forall|j: int|
            0 <= j < it.remaining().len() ==> {
                let a = (#[trigger] it.remaining()[j]).0;
                &&& it.remaining()[j].1 == owner_of(it.range_set@, a)
                &&& in_some_span(it.range_set@, a)
                &&& owner_of(it.range_set@, a).in_span(a)
                &&& a != owner_of(it.range_set@, a).gateway
                &&& exists|i: int|
                    0 <= i < it.range_set@.len() && it.range_set@[i] == owner_of(it.range_set@, a)
            },
        forall|a: IpAddress|
            in_some_span(it.range_set@, a) && a != (#[trigger] owner_of(it.range_set@, a)).gateway
                ==> it.remaining().contains((a, owner_of(it.range_set@, a))),
        forall|j1: int, j2: int|
            0 <= j1 < j2 < it.remaining().len() ==> (#[trigger] it.remaining()[j1]).0 != (
            #[trigger] it.remaining()[j2]).0,
{
    let rs = it.range_set@;
    let total = total_size(rs);
    let k = it.range_index as int;
    let q = if it.current_ip is None {
        pos_of(rs, rs[k].start)
    } else {
        next_pos(pos_of(rs, it.current_ip->0), total)
    };
    if it.current_ip is None {
        assert(rs[k].wf());
        assert(rs[k].in_span(rs[k].start));
        lemma_owner(rs, rs[k].start, k);
    } else {
        lemma_owner(rs, it.current_ip->0, k);
    }
    assert(0 <= q < total);
    assert(it.remaining() == walk_full(rs, q));
    let q2 = next_pos(q, total);
    let tail = walk(rs, q2, q);
    let w = it.remaining();
    lemma_addr_at_props(rs, q);
    lemma_pos_roundtrip(rs, q);
    let headless = addr_at(rs, q) == range_at(rs, q).gateway;
    let head = (addr_at(rs, q), range_at(rs, q));
    if headless {
        assert(w == tail);
    } else {
        assert(w == seq![head] + tail);
    }
    // every item is the pair of some position, hence of its own address
    assert forall|j: int| 0 <= j < w.len() implies {
        let a = (#[trigger] w[j]).0;
        &&& w[j].1 == owner_of(rs, a)
        &&& in_some_span(rs, a)
        &&& owner_of(rs, a).in_span(a)
        &&& a != owner_of(rs, a).gateway
        &&& exists|i: int| 0 <= i < rs.len() && rs[i] == owner_of(rs, a)
    } by {
        if !headless && j == 0 {
            assert(w[0] == head);
        } else {
            let jt = if headless {
                j
            } else {
                j - 1
            };
            assert(w[j] == tail[jt]);
            lemma_walk_elem(rs, q2, q, jt);
            let x = choose|x: int|
                {
                    &&& 0 <= x < total_size(rs)
                    &&& tail[jt] == (addr_at(rs, x), range_at(rs, x))
                    &&& addr_at(rs, x) != range_at(rs, x).gateway
                    &&& #[trigger] dist(q2, x, total_size(rs)) < dist(q2, q, total_size(rs))
                };
            lemma_addr_at_props(rs, x);
            lemma_pos_roundtrip(rs, x);
        }
    }
    // every non-gateway address of a member is offered
    assert forall|a: IpAddress|
        in_some_span(rs, a) && a != (#[trigger] owner_of(rs, a)).gateway implies w.contains(
        (a, owner_of(rs, a)),
    ) by {
        let ks = choose|i: int| 0 <= i < rs.len() && (#[trigger] rs[i]).in_span(a);
        lemma_owner(rs, a, ks);
        let x = pos_of(rs, a);
        assert(addr_at(rs, x) == a);
        assert(range_at(rs, x) == owner_of(rs, a));
        if x == q {
            assert(!headless);
            assert(w[0] == (a, owner_of(rs, a)));
        } else {
            lemma_dist_step(q, x, total);
            lemma_walk_covers(rs, q2, q, x);
            assert(dist(q2, x, total) < dist(q2, q, total));
            assert(tail.contains((a, owner_of(rs, a))));
            let j = choose|j: int| 0 <= j < tail.len() && tail[j] == (a, owner_of(rs, a));
            if headless {
                assert(w[j] == (a, owner_of(rs, a)));
            } else {
                assert(w[j + 1] == (a, owner_of(rs, a)));
            }
        }
    }
    // and no address is offered twice
    lemma_walk_distinct(rs, q2, q);
    assert forall|j1: int, j2: int| 0 <= j1 < j2 < w.len() implies (#[trigger] w[j1]).0 != (
    #[trigger] w[j2]).0 by {
        if !headless && j1 == 0 {
            assert(w[j2] == tail[j2 - 1]);
            lemma_walk_elem(rs, q2, q, j2 - 1);
            let y = choose|y: int|
                {
                    &&& 0 <= y < total_size(rs)
                    &&& tail[j2 - 1] == (addr_at(rs, y), range_at(rs, y))
                    &&& addr_at(rs, y) != range_at(rs, y).gateway
                    &&& #[trigger] dist(q2, y, total_size(rs)) < dist(q2, q, total_size(rs))
                };
            lemma_dist_step(q, y, total);
            lemma_pos_roundtrip(rs, y);
            assert(y != q);
            assert(w[0].0 == addr_at(rs, q));
        } else {
            let j1t = if headless {
                j1
            } else {
                j1 - 1
            };
            let j2t = if headless {
                j2
            } else {
                j2 - 1
            };
            assert(w[j1] == tail[j1t]);
            assert(w[j2] == tail[j2t]);
        }
    }
}

/// Seed a round-robin iterator from the last-reserved marker a store handed
/// back. The policy is exact in the marker: when the marker lies in some
/// range, iteration resumes at the candidate after it (round-robin
/// continuation); with no marker, or one the current configuration no longer
/// covers, iteration starts fresh at the first range's start.
pub fn seed_iterator(range_set: &RangeSet, marker: Option<IpAddress>) -> (it: RangeIter)
    requires
        range_set.wf(),
    ensures
        it.wf(),
        it.range_set@ == range_set@,
        it.current_ip is None || it.start_ip is None,
        marker is Some && range_set.contains_spec(marker->0) ==> ({
            &&& it.current_ip == marker
            &&& it.start_ip is None
            &&& 0 <= it.range_index < range_set@.len()
            &&& range_set@[it.range_index as int].contains_spec(marker->0)
            &&& (forall|j: int|
                0 <= j < it.range_index ==> !(#[trigger] range_set@[j]).contains_spec(marker->0))
            &&& it.remaining() == walk_full(
                range_set@,
                next_pos(pos_of(range_set@, marker->0), total_size(range_set@)),
            )
        }),
        !(marker is Some && range_set.contains_spec(marker->0)) ==> ({
            &&& it.current_ip is None
            &&& it.range_index == 0
            &&& (range_set@.len() > 0 ==> it.start_ip == Some(range_set@[0].start)
                && it.remaining() == walk_full(
                range_set@,
                pos_of(range_set@, range_set@[0].start),
            ))
            &&& (range_set@.len() == 0 ==> it.remaining() == Seq::<(IpAddress, Range)>::empty())
        }),
{
    let mut it = RangeIter {
        range_set: range_set.duplicate(),
        range_index: 0,
        current_ip: None,
        start_ip: None,
    };
    let len: usize = range_set.len();
    if len == 0 {
        return it;
    }
    let mut seeded: bool = false;
    match marker {
        Some(ip) => {
            if range_set.contains(ip) {
                // the first (and, spans being disjoint, only) range holding
                // the marker
                let mut idx: usize = 0;
                let mut found_at: usize = len;
                while idx < len
                    invariant
                        range_set.wf(),
                        len == range_set@.len(),
                        idx <= len,
                        found_at <= len,
                        found_at < len ==> (#[trigger] range_set@[found_at as int]).contains_spec(
                            ip,
                        ),
                        found_at < len ==> forall|j: int|
                            0 <= j < found_at ==> !(#[trigger] range_set@[j]).contains_spec(ip),
                        found_at == len ==> forall|j: int|
                            0 <= j < idx ==> !(#[trigger] range_set@[j]).contains_spec(ip),
                    decreases len - idx,
                {
                    if found_at == len {
                        let member: Range = range_set.get(idx).unwrap();
                        if member.contains(ip) {
                            found_at = idx;
                        }
                    }
                    idx = idx + 1;
                }
                proof {
                    if found_at == len {
                        assert(!range_set.contains_spec(ip));
                        assert(false);
                    }
                    lemma_contains_iff_in_span(range_set@[found_at as int], ip);
                }
                it.range_index = found_at;
                it.current_ip = Some(ip);
                seeded = true;
            }
        },
        None => {},
    }
    if !seeded {
        let first: Range = range_set.get(0).unwrap();
        it.start_ip = Some(first.start);
        proof {
            assert(first.wf());
            assert(first.in_span(first.start));
            assert(range_set@[0].in_span(first.start));
        }
    }
    it
}

} // verus!
