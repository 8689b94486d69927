//! An append-only, ordered collection of non-overlapping ranges of one
//! address family. The order is the order of insertion and defines the
//! iteration order of the round-robin iterator.

use vstd::prelude::*;

use crate::ip::IpAddress;
use crate::range::lemma_overlaps_symmetric;
use crate::range::Range;

verus! {

pub struct RangeSet {
    ranges: Vec<Range>,
}

#[derive(Clone, Copy, Debug, PartialEq, Eq, Structural)]
pub enum RangeSetError {
    /// The new range's family differs from the family of the set.
    DifferentAddressType,
    /// The new range (second field) overlaps a member (first field).
    Overlap(Range, Range),
    /// No member range holds the address.
    NoRangeForIP(IpAddress),
}

impl View for RangeSet {
    type V = Seq<Range>;

    closed spec fn view(&self) -> Seq<Range> {
        self.ranges@
    }
}

/// Every member is well formed, all share one family, and no two members
/// overlap.
pub open spec fn ranges_wf(rs: Seq<Range>) -> bool {
    &&& (forall|i: int| 0 <= i < rs.len() ==> (#[trigger] rs[i]).wf())
    &&& (forall|i: int, j: int|
        0 <= i < rs.len() && 0 <= j < rs.len() ==> #[trigger] rs[i].same_family_spec(rs[j]))
    &&& (forall|i: int, j: int|
        0 <= i < rs.len() && 0 <= j < rs.len() && i != j ==> !#[trigger] rs[i].overlaps_spec(
            rs[j],
        ))
}

impl RangeSet {
    pub open spec fn wf(self) -> bool {
        ranges_wf(self@)
    }

    /// Some member range holds `ip`.
    pub open spec fn contains_spec(self, ip: IpAddress) -> bool {
        exists|i: int| 0 <= i < self@.len() && (#[trigger] self@[i]).contains_spec(ip)
    }

    pub fn new() -> (r: RangeSet)
        ensures
            r@ == Seq::<Range>::empty(),
            r.wf(),
    {
        RangeSet { ranges: Vec::new() }
    }

    pub fn len(&self) -> (n: usize)
        ensures
            n == self@.len(),
    {
        self.ranges.len()
    }

    /// The member at position `i`, or nothing past the end.
    pub fn get(&self, i: usize) -> (r: Option<Range>)
        ensures
            i < self@.len() ==> r == Some(self@[i as int]),
            i >= self@.len() ==> r is None,
    {
        if i < self.ranges.len() {
            Some(self.ranges[i])
        } else {
            None
        }
    }

    /// A copy of the set with the same members in the same order.
    pub fn duplicate(&self) -> (r: RangeSet)
        ensures
            r@ == self@,
    {
        let mut out: Vec<Range> = Vec::new();
        let mut i: usize = 0;
        while i < self.ranges.len()
            invariant
                i <= self.ranges@.len(),
                out@ == self.ranges@.take(i as int),
            decreases self.ranges@.len() - i,
        {
            out.push(self.ranges[i]);
            proof {
                assert(self.ranges@.take(i + 1) =~= self.ranges@.take(i as int).push(
                    self.ranges@[i as int],
                ));
            }
            i = i + 1;
        }
        proof {
            assert(self.ranges@.take(self.ranges@.len() as int) =~= self.ranges@);
        }
        RangeSet { ranges: out }
    }

    /// Append `range` unless the set already holds a range of another family
    /// (`DifferentAddressType`) or a range that overlaps it (`Overlap` with
    /// the first such member, in insertion order).
    pub fn add(&mut self, range: Range) -> (r: Result<(), RangeSetError>)
        requires
            old(self).wf(),
            range.wf(),
        ensures
            final(self).wf(),
            old(self)@.len() > 0 && !old(self)@[0].same_family_spec(range) ==> r == Err::<
                (),
                RangeSetError,
            >(RangeSetError::DifferentAddressType) && final(self)@ == old(self)@,
            (old(self)@.len() == 0 || old(self)@[0].same_family_spec(range)) ==> ((exists|i: int|
                0 <= i < old(self)@.len() && (#[trigger] old(self)@[i]).overlaps_spec(range)) ==> ({
                &&& final(self)@ == old(self)@
                &&& exists|i: int|
                    {
                        &&& 0 <= i < old(self)@.len()
                        &&& (#[trigger] old(self)@[i]).overlaps_spec(range)
                        &&& r == Err::<(), RangeSetError>(
                            RangeSetError::Overlap(old(self)@[i], range),
                        )
                        &&& forall|j: int|
                            0 <= j < i ==> !(#[trigger] old(self)@[j]).overlaps_spec(range)
                    }
            })),
            r is Ok <==> ((old(self)@.len() == 0 || old(self)@[0].same_family_spec(range)) && (
            forall|i: int|
                0 <= i < old(self)@.len() ==> !(#[trigger] old(self)@[i]).overlaps_spec(range))),
            r is Ok ==> final(self)@ == old(self)@.push(range),
    {
        if self.ranges.len() > 0 {
            let first: Range = self.ranges[0];
            if !first.is_same_family(&range) {
                return Err(RangeSetError::DifferentAddressType);
            }
            let mut i: usize = 0;
            while i < self.ranges.len()
                invariant
                    self.wf(),
                    range.wf(),
                    self == old(self),
                    self@.len() > 0,
                    self@[0].same_family_spec(range),
                    i <= self@.len(),
                    forall|j: int| 0 <= j < i ==> !(#[trigger] self@[j]).overlaps_spec(range),
                decreases self.ranges@.len() - i,
            {
                let member: Range = self.ranges[i];
                if member.overlaps(&range) {
                    return Err(RangeSetError::Overlap(member, range));
                }
                i = i + 1;
            }
        }
        self.ranges.push(range);
        proof {
            let t = self@;
            let s = old(self)@;
            assert forall|i: int, j: int|
                0 <= i < t.len() && 0 <= j < t.len() implies #[trigger] t[i].same_family_spec(
                t[j],
            ) by {
                if i < s.len() && j < s.len() {
                    assert(s[i].same_family_spec(s[j]));
                } else if s.len() > 0 {
                    assert(s[0].same_family_spec(range));
                    assert(s[0].same_family_spec(s[0]));
                    if i < s.len() {
                        assert(s[i].same_family_spec(s[0]));
                    }
                    if j < s.len() {
                        assert(s[0].same_family_spec(s[j]));
                    }
                }
            }
            assert forall|i: int, j: int|
                0 <= i < t.len() && 0 <= j < t.len() && i != j implies !#[trigger] t[
                i
            ].overlaps_spec(t[j]) by {
                if i < s.len() && j < s.len() {
                    assert(!s[i].overlaps_spec(s[j]));
                } else {
                    if j == t.len() - 1 {
                        assert(!s[i].overlaps_spec(range));
                    } else {
                        assert(!s[j].overlaps_spec(range));
                        lemma_overlaps_symmetric(range, s[j]);
                    }
                }
            }
        }
        Ok(())
    }

    /// The first member, in insertion order, that holds `ip`.
    pub fn get_range_for_ip(&self, ip: IpAddress) -> (r: Result<Range, RangeSetError>)
        requires
            self.wf(),
        ensures
            r is Ok <==> self.contains_spec(ip),
            r matches Ok(rng) ==> exists|i: int|
                {
                    &&& 0 <= i < self@.len()
                    &&& rng == self@[i]
                    &&& (#[trigger] self@[i]).contains_spec(ip)
                    &&& forall|j: int| 0 <= j < i ==> !(#[trigger] self@[j]).contains_spec(ip)
                },
            !self.contains_spec(ip) ==> r == Err::<Range, RangeSetError>(
                RangeSetError::NoRangeForIP(ip),
            ),
    {
        let mut i: usize = 0;
        while i < self.ranges.len()
            invariant
                self.wf(),
                i <= self@.len(),
                forall|j: int| 0 <= j < i ==> !(#[trigger] self@[j]).contains_spec(ip),
            decreases self.ranges@.len() - i,
        {
            let member: Range = self.ranges[i];
            if member.contains(ip) {
                return Ok(member);
            }
            i = i + 1;
        }
        Err(RangeSetError::NoRangeForIP(ip))
    }

    /// Whether some member range holds `ip`.
    pub fn contains(&self, ip: IpAddress) -> (r: bool)
        requires
            self.wf(),
        ensures
            r == self.contains_spec(ip),
    {
        let mut i: usize = 0;
        while i < self.ranges.len()
            invariant
                self.wf(),
                i <= self@.len(),
                forall|j: int| 0 <= j < i ==> !(#[trigger] self@[j]).contains_spec(ip),
            decreases self.ranges@.len() - i,
        {
            let member: Range = self.ranges[i];
            if member.contains(ip) {
                return true;
            }
            i = i + 1;
        }
        false
    }
}

} // verus!
