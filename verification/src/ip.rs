//! IP addresses as plain machine integers.
//!
//! An IPv4 address is its four octets packed big-endian into a `u32`; an IPv6
//! address is its sixteen octets packed big-endian into a `u128`. Two
//! addresses of different families are never equal, whatever their numeric
//! values.

use vstd::prelude::*;

verus! {

#[derive(Clone, Copy, Debug, PartialEq, Eq, Structural)]
pub enum IpAddress {
    V4(u32),
    V6(u128),
}

impl IpAddress {
    /// Numeric value of the address, as a big-endian unsigned integer.
    pub open spec fn value(self) -> int {
        match self {
            IpAddress::V4(v) => v as int,
            IpAddress::V6(v) => v as int,
        }
    }

    pub open spec fn is_v4(self) -> bool {
        self is V4
    }

    /// Width in bits of an address of this family.
    pub open spec fn bits(self) -> int {
        if self is V4 {
            32
        } else {
            128
        }
    }

    /// Largest numeric value an address of this family can hold.
    pub open spec fn family_max(self) -> int {
        if self is V4 {
            u32::MAX as int
        } else {
            u128::MAX as int
        }
    }

    pub open spec fn same_family_spec(self, other: IpAddress) -> bool {
        self is V4 <==> other is V4
    }

    /// The address of this family whose numeric value is `v`.
    pub open spec fn with_value(self, v: int) -> IpAddress {
        if self is V4 {
            IpAddress::V4(v as u32)
        } else {
            IpAddress::V6(v as u128)
        }
    }

    pub fn is_ipv4(&self) -> (r: bool)
        ensures
            r == self.is_v4(),
    {
        match self {
            IpAddress::V4(_) => true,
            IpAddress::V6(_) => false,
        }
    }

    pub fn is_ipv6(&self) -> (r: bool)
        ensures
            r == !self.is_v4(),
    {
        match self {
            IpAddress::V4(_) => false,
            IpAddress::V6(_) => true,
        }
    }

    pub fn same_family(&self, other: &IpAddress) -> (r: bool)
        ensures
            r == self.same_family_spec(*other),
    {
        match (self, other) {
            (IpAddress::V4(_), IpAddress::V4(_)) => true,
            (IpAddress::V6(_), IpAddress::V6(_)) => true,
            _ => false,
        }
    }

    /// The numeric value, widened to `u128` for family-independent arithmetic.
    pub fn value_u128(&self) -> (r: u128)
        ensures
            r as int == self.value(),
    {
        match self {
            IpAddress::V4(v) => *v as u128,
            IpAddress::V6(v) => *v,
        }
    }

    /// An IPv4 address from its dotted-quad octets.
    pub fn v4(a: u8, b: u8, c: u8, d: u8) -> (r: IpAddress)
        ensures
            r is V4,
            r.value() == (a as int) * 0x1000000 + (b as int) * 0x10000 + (c as int) * 0x100
                + (d as int),
    {
        IpAddress::V4(
            (a as u32) * 0x1000000 + (b as u32) * 0x10000 + (c as u32) * 0x100 + (d as u32),
        )
    }

    /// An IPv6 address from its eight 16-bit groups.
    pub fn v6(s0: u16, s1: u16, s2: u16, s3: u16, s4: u16, s5: u16, s6: u16, s7: u16) -> (r:
        IpAddress)
        ensures
            r is V6,
            r.value() == (s0 as int) * 0x10000000000000000000000000000 + (s1 as int)
                * 0x1000000000000000000000000 + (s2 as int) * 0x100000000000000000000 + (s3 as int)
                * 0x10000000000000000 + (s4 as int) * 0x1000000000000 + (s5 as int) * 0x100000000
                + (s6 as int) * 0x10000 + (s7 as int),
    {
        IpAddress::V6(
            (s0 as u128) * 0x10000000000000000000000000000 + (s1 as u128)
                * 0x1000000000000000000000000 + (s2 as u128) * 0x100000000000000000000 + (
            s3 as u128) * 0x10000000000000000 + (s4 as u128) * 0x1000000000000 + (s5 as u128)
                * 0x100000000 + (s6 as u128) * 0x10000 + (s7 as u128),
        )
    }

    pub fn bits_exec(&self) -> (r: u32)
        ensures
            r as int == self.bits(),
    {
        match self {
            IpAddress::V4(_) => 32,
            IpAddress::V6(_) => 128,
        }
    }

    /// The address of this family whose numeric value is `v`.
    pub fn with_value_exec(&self, v: u128) -> (r: IpAddress)
        requires
            v as int <= self.family_max(),
        ensures
            r == self.with_value(v as int),
            r.same_family_spec(*self),
            r.value() == v as int,
    {
        match self {
            IpAddress::V4(_) => IpAddress::V4(v as u32),
            IpAddress::V6(_) => IpAddress::V6(v),
        }
    }

    /// The numeric successor within the same family. The caller must keep the
    /// value below the family's maximum, so the addition cannot wrap.
    pub fn successor(&self) -> (r: IpAddress)
        requires
            self.value() < self.family_max(),
        ensures
            r.same_family_spec(*self),
            r.value() == self.value() + 1,
    {
        match self {
            IpAddress::V4(v) => IpAddress::V4(*v + 1),
            IpAddress::V6(v) => IpAddress::V6(*v + 1),
        }
    }
}

/// Rebuilding an address of the same family from its own value gives it back.
pub proof fn lemma_with_value_identity(a: IpAddress, b: IpAddress)
    requires
        a.same_family_spec(b),
    ensures
        b.with_value(a.value()) == a,
{
}

} // verus!
