//! A validated, bounded slice of one IP subnet.
//!
//! A `Range` is a subnet together with resolved start, end and gateway
//! addresses. Construction validates the subnet and the explicit bounds and
//! fills in the defaults; a constructed `Range` is immutable and well formed.

use vstd::prelude::*;

use crate::ip::IpAddress;
use crate::subnet::lemma_not_too_small_size;
use crate::subnet::lemma_value_fits_family;
use crate::subnet::IpNet;

verus! {

#[derive(Clone, Copy, Debug, PartialEq, Eq, Structural)]
pub struct Range {
    pub subnet: IpNet,
    pub start: IpAddress,
    pub end: IpAddress,
    pub gateway: IpAddress,
}

#[derive(Clone, Copy, Debug, PartialEq, Eq, Structural)]
pub enum RangeError {
    /// The prefix leaves fewer than two usable host addresses.
    TooSmallNetwork(IpNet),
    /// The subnet's stored address is not its network address; the second
    /// field is the network address it should have been.
    WrongNetworkAddr(IpNet, IpAddress),
    /// An explicit start or end lies outside the subnet, or the resolved
    /// bounds contradict each other (start above end; the end is reported).
    OutOfRangeIp(IpNet, IpAddress),
}

/// The start a construction resolves: the explicit one, or the subnet's
/// second address.
pub open spec fn resolved_start(subnet: IpNet, start: Option<IpAddress>) -> IpAddress {
    if start is Some {
        start->0
    } else {
        subnet.addr.with_value(subnet.network_value() + 1)
    }
}

/// The end a construction resolves: the explicit one, or the address before
/// the subnet's last.
pub open spec fn resolved_end(subnet: IpNet, end: Option<IpAddress>) -> IpAddress {
    if end is Some {
        end->0
    } else {
        subnet.addr.with_value(subnet.last_value() - 1)
    }
}

/// The gateway a construction resolves: the explicit one, or the subnet's
/// second address.
pub open spec fn resolved_gateway(subnet: IpNet, gateway: Option<IpAddress>) -> IpAddress {
    if gateway is Some {
        gateway->0
    } else {
        subnet.addr.with_value(subnet.network_value() + 1)
    }
}

impl Range {
    /// Well-formedness: the subnet is valid, canonical and large enough, and
    /// the resolved bounds are an ordered pair of addresses inside it.
    pub open spec fn wf(self) -> bool {
        &&& self.subnet.wf()
        &&& !self.subnet.too_small()
        &&& self.subnet.is_network()
        &&& self.subnet.contains_spec(self.start)
        &&& self.subnet.contains_spec(self.end)
        &&& self.start.value() <= self.end.value()
    }

    /// `ip` has the range's family and lies between start and end, inclusive.
    pub open spec fn in_span(self, ip: IpAddress) -> bool {
        &&& self.start.same_family_spec(ip)
        &&& self.start.value() <= ip.value() <= self.end.value()
    }

    /// Range membership: inside the subnet and between start and end. The
    /// gateway is *not* excluded here; it is excluded only from free-address
    /// enumeration.
    pub open spec fn contains_spec(self, ip: IpAddress) -> bool {
        &&& self.subnet.contains_spec(ip)
        &&& self.start.value() <= ip.value() <= self.end.value()
    }

    pub open spec fn same_family_spec(self, other: Range) -> bool {
        self.subnet.addr.same_family_spec(other.subnet.addr)
    }

    /// Two ranges overlap when they share a family and one's start or end
    /// falls inside the other.
    pub open spec fn overlaps_spec(self, other: Range) -> bool {
        &&& self.same_family_spec(other)
        &&& (self.contains_spec(other.start) || self.contains_spec(other.end)
            || other.contains_spec(self.start) || other.contains_spec(self.end))
    }

    /// Validate a subnet slice and fill in the defaults: start and gateway
    /// default to the subnet's second address, end to the address before the
    /// subnet's last (for IPv4: the broadcast address minus one).
    /// Construction fails rather than producing a range with contradictory
    /// bounds: a resolved start above the resolved end is rejected.
    pub fn new(
        subnet: IpNet,
        start: Option<IpAddress>,
        end: Option<IpAddress>,
        gateway: Option<IpAddress>,
    ) -> (r: Result<Range, RangeError>)
        requires
            subnet.wf(),
        ensures
            subnet.too_small() ==> r == Err::<Range, RangeError>(
                RangeError::TooSmallNetwork(subnet),
            ),
            !subnet.too_small() && !subnet.is_network() ==> r == Err::<Range, RangeError>(
                RangeError::WrongNetworkAddr(subnet, subnet.addr.with_value(subnet.network_value())),
            ),
            !subnet.too_small() && subnet.is_network() && start is Some && !subnet.contains_spec(
                start->0,
            ) ==> r == Err::<Range, RangeError>(RangeError::OutOfRangeIp(subnet, start->0)),
            !subnet.too_small() && subnet.is_network() && (start is Some ==> subnet.contains_spec(
                start->0,
            )) && end is Some && !subnet.contains_spec(end->0) ==> r == Err::<Range, RangeError>(
                RangeError::OutOfRangeIp(subnet, end->0),
            ),
            !subnet.too_small() && subnet.is_network() && (start is Some ==> subnet.contains_spec(
                start->0,
            )) && (end is Some ==> subnet.contains_spec(end->0)) && resolved_start(
                subnet,
                start,
            ).value() > resolved_end(subnet, end).value() ==> r == Err::<Range, RangeError>(
                RangeError::OutOfRangeIp(subnet, resolved_end(subnet, end)),
            ),
            r is Ok <==> (!subnet.too_small() && subnet.is_network() && (start is Some
                ==> subnet.contains_spec(start->0)) && (end is Some ==> subnet.contains_spec(
                end->0,
            )) && resolved_start(subnet, start).value() <= resolved_end(subnet, end).value()),
            r matches Ok(rng) ==> {
                &&& rng.subnet == subnet
                &&& rng.start == resolved_start(subnet, start)
                &&& rng.end == resolved_end(subnet, end)
                &&& rng.gateway == resolved_gateway(subnet, gateway)
                &&& rng.wf()
            },
    {
        if subnet.is_too_small() {
            return Err(RangeError::TooSmallNetwork(subnet));
        }
        let network: IpAddress = subnet.network_address();
        if !subnet.is_network_exec() {
            return Err(RangeError::WrongNetworkAddr(subnet, network));
        }
        proof {
            subnet.lemma_value_bounds();
            lemma_value_fits_family(subnet.addr);
            lemma_not_too_small_size(subnet);
        }
        let last: IpAddress = subnet.last_address();
        let second: IpAddress = subnet.addr.with_value_exec(network.value_u128() + 1);
        let gw: IpAddress = match gateway {
            Some(g) => g,
            None => second,
        };
        let st: IpAddress = match start {
            Some(s) => {
                if !subnet.contains(&s) {
                    return Err(RangeError::OutOfRangeIp(subnet, s));
                }
                s
            },
            None => second,
        };
        let en: IpAddress = match end {
            Some(e) => {
                if !subnet.contains(&e) {
                    return Err(RangeError::OutOfRangeIp(subnet, e));
                }
                e
            },
            None => subnet.addr.with_value_exec(last.value_u128() - 1),
        };
        if st.value_u128() > en.value_u128() {
            return Err(RangeError::OutOfRangeIp(subnet, en));
        }
        Ok(Range { subnet, start: st, end: en, gateway: gw })
    }

    /// Whether `ip` is an allocatable position of this range (gateway
    /// included; see `contains_spec`).
    pub fn contains(&self, ip: IpAddress) -> (r: bool)
        requires
            self.wf(),
        ensures
            r == self.contains_spec(ip),
    {
        if !self.subnet.contains(&ip) {
            return false;
        }
        let v: u128 = ip.value_u128();
        self.start.value_u128() <= v && v <= self.end.value_u128()
    }

    pub fn is_same_family(&self, other: &Range) -> (r: bool)
        ensures
            r == self.same_family_spec(*other),
    {
        self.subnet.addr.same_family(&other.subnet.addr)
    }

    pub fn overlaps(&self, other: &Range) -> (r: bool)
        requires
            self.wf(),
            other.wf(),
        ensures
            r == self.overlaps_spec(*other),
    {
        if !self.is_same_family(other) {
            return false;
        }
        self.contains(other.start) || self.contains(other.end) || other.contains(self.start)
            || other.contains(self.end)
    }
}

/// The free addresses of `r` whose value is at least `v`, ascending: every
/// address of the span except the gateway.
pub open spec fn free_span(r: Range, v: int) -> Seq<IpAddress>
    decreases r.end.value() + 1 - v,
{
    if v > r.end.value() {
        Seq::empty()
    } else {
        let a = r.start.with_value(v);
        let rest = free_span(r, v + 1);
        if a == r.gateway {
            rest
        } else {
            seq![a] + rest
        }
    }
}

/// A lazy, restartable scan of one range's free addresses in ascending
/// order: every address with start <= address <= end except the gateway.
pub struct FreeIpIter {
    pub range: Range,
    pub cursor: Option<IpAddress>,
}

impl FreeIpIter {
    pub open spec fn wf(self) -> bool {
        &&& self.range.wf()
        &&& (self.cursor matches Some(c) ==> self.range.in_span(c))
    }

    /// The addresses this iterator will still produce.
    pub open spec fn remaining(self) -> Seq<IpAddress> {
        match self.cursor {
            None => Seq::empty(),
            Some(c) => free_span(self.range, c.value()),
        }
    }

    spec fn fuel(self) -> int {
        match self.cursor {
            None => 0,
            Some(c) => self.range.end.value() + 1 - c.value(),
        }
    }

    /// Produce the next free address of the range, as an address/prefix pair
    /// carrying the subnet's prefix, or nothing once the scan has passed the
    /// range's end.
    pub fn next(&mut self) -> (r: Option<IpNet>)
        requires
            old(self).wf(),
        ensures
            final(self).wf(),
            final(self).range == old(self).range,
            old(self).remaining().len() == 0 ==> r is None && final(self).remaining()
                == Seq::<IpAddress>::empty(),
            old(self).remaining().len() > 0 ==> r == Some(
                IpNet { addr: old(self).remaining()[0], prefix: old(self).range.subnet.prefix },
            ) && final(self).remaining() == old(self).remaining().drop_first(),
    {
        loop
            invariant
                self.wf(),
                self.range == old(self).range,
                self.remaining() == old(self).remaining(),
            decreases self.fuel(),
        {
            match self.cursor {
                None => {
                    return None;
                },
                Some(c) => {
                    proof {
                        lemma_value_fits_family(c);
                        assert(c == self.range.start.with_value(c.value()));
                    }
                    let ghost rest = free_span(self.range, c.value() + 1);
                    let at_end: bool = c.value_u128() == self.range.end.value_u128();
                    if at_end {
                        self.cursor = None;
                    } else {
                        self.cursor = Some(c.successor());
                    }
                    proof {
                        assert(self.remaining() == rest);
                    }
                    if !(c == self.range.gateway) {
                        proof {
                            assert(free_span(self.range, c.value()) == seq![c] + rest);
                            assert((seq![c] + rest)[0] == c);
                            assert((seq![c] + rest).drop_first() =~= rest);
                        }
                        return Some(IpNet { addr: c, prefix: self.range.subnet.prefix });
                    }
                },
            }
        }
    }
}

impl Range {
    /// A fresh scan of the range's free addresses, from the start address.
    pub fn iter_free(&self) -> (it: FreeIpIter)
        requires
            self.wf(),
        ensures
            it.wf(),
            it.range == *self,
            it.remaining() == free_span(*self, self.start.value()),
    {
        FreeIpIter { range: *self, cursor: Some(self.start) }
    }
}

/// `free_span(r, v)` holds exactly the non-gateway addresses of `r`'s family
/// whose value lies in `[v, end]`.
pub proof fn lemma_free_span_contains(r: Range, v: int, a: IpAddress)
    requires
        r.wf(),
        v >= 0,
    ensures
        free_span(r, v).contains(a) <==> (r.start.same_family_spec(a) && v <= a.value()
            <= r.end.value() && a != r.gateway),
    decreases r.end.value() + 1 - v,
{
    lemma_value_fits_family(r.end);
    lemma_value_fits_family(a);
    if v <= r.end.value() {
        lemma_free_span_contains(r, v + 1, a);
        let h = r.start.with_value(v);
        assert(h.value() == v);
        let rest = free_span(r, v + 1);
        if h != r.gateway {
            assert(free_span(r, v) == seq![h] + rest);
            if a == h {
                assert((seq![h] + rest)[0] == a);
                assert(free_span(r, v).contains(a));
            }
            if free_span(r, v).contains(a) && a != h {
                let i = choose|i: int| 0 <= i < free_span(r, v).len() && free_span(r, v)[i] == a;
                assert(rest[i - 1] == a);
                assert(rest.contains(a));
            }
            if rest.contains(a) {
                let j = choose|j: int| 0 <= j < rest.len() && rest[j] == a;
                assert((seq![h] + rest)[j + 1] == a);
                assert(free_span(r, v).contains(a));
            }
        }
        if r.start.same_family_spec(a) && a.value() == v {
            assert(a == h);
        }
    }
}

/// The free addresses come out in ascending numeric order, between `v` and
/// the range's end.
pub proof fn lemma_free_span_ascending(r: Range, v: int)
    requires
        r.wf(),
        v >= 0,
    ensures
        forall|k: int|
            0 <= k < free_span(r, v).len() ==> v <= (#[trigger] free_span(r, v)[k]).value()
                <= r.end.value(),
        forall|k1: int, k2: int|
            0 <= k1 < k2 < free_span(r, v).len() ==> free_span(r, v)[k1].value() < free_span(
                r,
                v,
            )[k2].value(),
    decreases r.end.value() + 1 - v,
{
    lemma_value_fits_family(r.end);
    if v <= r.end.value() {
        lemma_free_span_ascending(r, v + 1);
        let h = r.start.with_value(v);
        assert(h.value() == v);
        let rest = free_span(r, v + 1);
        if h != r.gateway {
            assert(free_span(r, v) == seq![h] + rest);
            assert forall|k: int|
                0 <= k < free_span(r, v).len() implies v <= (#[trigger] free_span(r, v)[k]).value()
                <= r.end.value() by {
                if k > 0 {
                    assert(free_span(r, v)[k] == rest[k - 1]);
                }
            }
            assert forall|k1: int, k2: int|
                0 <= k1 < k2 < free_span(r, v).len() implies free_span(r, v)[k1].value()
                < free_span(r, v)[k2].value() by {
                assert(free_span(r, v)[k2] == rest[k2 - 1]);
                if k1 > 0 {
                    assert(free_span(r, v)[k1] == rest[k1 - 1]);
                }
            }
        }
    }
}

/// Overlap is symmetric, and never holds across address families.
pub proof fn lemma_overlaps_symmetric(a: Range, b: Range)
    ensures
        a.overlaps_spec(b) == b.overlaps_spec(a),
        !a.same_family_spec(b) ==> !a.overlaps_spec(b),
{
}

/// For a well-formed range, membership is exactly the start-to-end span: the
/// span lies wholly inside the subnet.
pub proof fn lemma_contains_iff_in_span(r: Range, a: IpAddress)
    requires
        r.wf(),
    ensures
        r.contains_spec(a) <==> r.in_span(a),
{
}

/// Non-overlapping well-formed ranges share no address.
pub proof fn lemma_no_overlap_disjoint(a: Range, b: Range, ip: IpAddress)
    requires
        a.wf(),
        b.wf(),
        !a.overlaps_spec(b),
        a.in_span(ip),
    ensures
        !b.in_span(ip),
{
    if b.in_span(ip) {
        lemma_contains_iff_in_span(a, b.start);
        lemma_contains_iff_in_span(a, b.end);
        lemma_contains_iff_in_span(b, a.start);
        lemma_contains_iff_in_span(b, a.end);
        if a.start.value() <= b.start.value() {
            assert(a.in_span(b.start));
        } else {
            assert(b.in_span(a.start));
        }
    }
}

} // verus!

