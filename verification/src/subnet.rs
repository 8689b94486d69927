//! An IP network: an address together with a prefix length.
//!
//! A prefix of length `p` splits an address of `b` bits into `p` network bits
//! and `b - p` host bits; the network spans the `pow2(b - p)` consecutive
//! values that share the network bits. All facts below are stated over that
//! arithmetic picture.

use vstd::arithmetic::div_mod::*;
use vstd::arithmetic::power2::*;
use vstd::prelude::*;

use crate::ip::IpAddress;

verus! {

#[derive(Clone, Copy, Debug, PartialEq, Eq, Structural)]
pub struct IpNet {
    pub addr: IpAddress,
    pub prefix: u8,
}

/// `pow2(32)` and `pow2(128)` as literals, and thereby the bound every
/// address value of either family satisfies.
pub proof fn lemma_pow2_address_widths()
    ensures
        pow2(32) == 0x100000000,
        pow2(128) == 0x100000000000000000000000000000000,
{
    lemma2_to64();
    lemma2_to64_rest();
    lemma_pow2_adds(64, 64);
}

/// Every address value lies below `pow2` of its family's bit width.
pub proof fn lemma_value_fits_family(a: IpAddress)
    ensures
        0 <= a.value() < pow2(a.bits() as nat),
        a.family_max() + 1 == pow2(a.bits() as nat),
{
    lemma_pow2_address_widths();
}

/// A network that is not too small spans at least four addresses.
pub proof fn lemma_not_too_small_size(s: IpNet)
    requires
        s.wf(),
        !s.too_small(),
    ensures
        s.size() >= 4,
{
    lemma2_to64();
    if s.host_bits() > 2 {
        lemma_pow2_strictly_increases(2, s.host_bits());
    }
}

/// Two to the power `e`, computed by doubling.
pub fn pow2_u128(e: u32) -> (r: u128)
    requires
        e <= 127,
    ensures
        r as int == pow2(e as nat),
{
    let mut i: u32 = 0;
    let mut acc: u128 = 1;
    proof {
        lemma_pow2_address_widths();
        lemma2_to64();
    }
    while i < e
        invariant
            i <= e,
            e <= 127,
            acc as int == pow2(i as nat),
            pow2(128) == 0x100000000000000000000000000000000,
        decreases e - i,
    {
        proof {
            lemma_pow2_unfold((i + 1) as nat);
            lemma_pow2_strictly_increases((i + 1) as nat, 128);
        }
        acc = acc * 2;
        i = i + 1;
    }
    acc
}

impl IpNet {
    /// The prefix length fits the address family.
    pub open spec fn wf(self) -> bool {
        self.prefix as int <= self.addr.bits()
    }

    /// Number of host bits the prefix leaves free.
    pub open spec fn host_bits(self) -> nat {
        (self.addr.bits() - self.prefix) as nat
    }

    /// Number of addresses the network spans.
    pub open spec fn size(self) -> int {
        pow2(self.host_bits()) as int
    }

    /// Value of the network address: the stored address with its host bits
    /// cleared.
    pub open spec fn network_value(self) -> int {
        self.addr.value() - self.addr.value() % self.size()
    }

    /// The stored address has no host bits set.
    pub open spec fn is_network(self) -> bool {
        self.addr.value() % self.size() == 0
    }

    /// Value of the last (all host bits set) address of the network.
    pub open spec fn last_value(self) -> int {
        self.network_value() + self.size() - 1
    }

    /// The network holds `ip`: same family, and the value lies between the
    /// network address and the last address.
    pub open spec fn contains_spec(self, ip: IpAddress) -> bool {
        &&& self.addr.same_family_spec(ip)
        &&& self.network_value() <= ip.value() <= self.last_value()
    }

    /// The prefix leaves fewer than two usable host addresses (fewer than
    /// four values in all).
    pub open spec fn too_small(self) -> bool {
        self.prefix as int > self.addr.bits() - 2
    }

    pub fn new(addr: IpAddress, prefix: u8) -> (r: IpNet)
        requires
            prefix as int <= addr.bits(),
        ensures
            r == (IpNet { addr, prefix }),
            r.wf(),
    {
        IpNet { addr, prefix }
    }

    pub fn host_bits_exec(&self) -> (r: u32)
        requires
            self.wf(),
        ensures
            r as int == self.host_bits(),
    {
        self.addr.bits_exec() - self.prefix as u32
    }

    pub fn is_too_small(&self) -> (r: bool)
        requires
            self.wf(),
        ensures
            r == self.too_small(),
    {
        self.prefix as u32 + 2 > self.addr.bits_exec()
    }

    /// The network and last values stay within the family, and bracket the
    /// stored address value.
    pub proof fn lemma_value_bounds(self)
        requires
            self.wf(),
        ensures
            1 <= self.size(),
            0 <= self.network_value() <= self.addr.value() <= self.last_value(),
            self.last_value() < pow2(self.addr.bits() as nat),
            self.is_network() ==> self.network_value() == self.addr.value(),
    {
        let v = self.addr.value();
        let s = self.size();
        lemma_pow2_pos(self.host_bits());
        lemma_value_fits_family(self.addr);
        lemma_fundamental_div_mod(v, s);
        assert(0 <= v % s < s) by (nonlinear_arith)
            requires
                s > 0,
                v >= 0,
        ;
        // pow2(bits) is a whole number of sizes, so the network value, itself
        // a whole number of sizes not above the address value, leaves room for
        // one more size below pow2(bits).
        assert(pow2(self.addr.bits() as nat) == pow2(self.host_bits()) * pow2(
            self.prefix as nat,
        )) by {
            assert(self.host_bits() + self.prefix as nat == self.addr.bits() as nat);
            lemma_pow2_adds(self.host_bits(), self.prefix as nat);
        }
        let q = v / s;
        assert(self.network_value() == s * q);
        assert(q >= 0) by (nonlinear_arith)
            requires
                s > 0,
                v >= 0,
                q == v / s,
        ;
        assert(q < pow2(self.prefix as nat)) by (nonlinear_arith)
            requires
                s > 0,
                q >= 0,
                s * q <= v,
                v < s * pow2(self.prefix as nat),
        ;
        assert(s * q + s <= s * pow2(self.prefix as nat)) by (nonlinear_arith)
            requires
                s > 0,
                q < pow2(self.prefix as nat),
        ;
    }

    /// Host size minus one: the mask of the host bits.
    fn host_mask(&self) -> (r: u128)
        requires
            self.wf(),
        ensures
            r as int == self.size() - 1,
    {
        let hb: u32 = self.host_bits_exec();
        if hb == 128 {
            proof {
                lemma_pow2_address_widths();
            }
            u128::MAX
        } else {
            proof {
                lemma_pow2_pos(hb as nat);
            }
            pow2_u128(hb) - 1
        }
    }

    /// The network address: the stored address with its host bits cleared.
    pub fn network_address(&self) -> (r: IpAddress)
        requires
            self.wf(),
        ensures
            r == self.addr.with_value(self.network_value()),
            r.same_family_spec(self.addr),
            r.value() == self.network_value(),
    {
        proof {
            self.lemma_value_bounds();
            lemma_value_fits_family(self.addr);
        }
        let hb: u32 = self.host_bits_exec();
        if hb == 128 {
            proof {
                lemma_small_mod(self.addr.value() as nat, pow2(128));
            }
            self.addr.with_value_exec(0)
        } else {
            let s: u128 = pow2_u128(hb);
            let v: u128 = self.addr.value_u128();
            proof {
                lemma_fundamental_div_mod(v as int, s as int);
                assert(0 <= (v as int) % (s as int) < s as int) by (nonlinear_arith)
                    requires
                        s as int > 0,
                        v as int >= 0,
                ;
                let q = (v as int) / (s as int);
                assert(q * (s as int) == (s as int) * q) by (nonlinear_arith);
                assert((v as int) / (s as int) * (s as int) == self.network_value());
            }
            let net: u128 = v / s * s;
            self.addr.with_value_exec(net)
        }
    }

    /// The last address of the network: all host bits set.
    pub fn last_address(&self) -> (r: IpAddress)
        requires
            self.wf(),
        ensures
            r == self.addr.with_value(self.last_value()),
            r.same_family_spec(self.addr),
            r.value() == self.last_value(),
    {
        proof {
            self.lemma_value_bounds();
            lemma_value_fits_family(self.addr);
        }
        let net: IpAddress = self.network_address();
        let mask: u128 = self.host_mask();
        self.addr.with_value_exec(net.value_u128() + mask)
    }

    /// The stored address has no host bits set.
    pub fn is_network_exec(&self) -> (r: bool)
        requires
            self.wf(),
        ensures
            r == self.is_network(),
    {
        proof {
            self.lemma_value_bounds();
        }
        let net: IpAddress = self.network_address();
        net.value_u128() == self.addr.value_u128()
    }

    /// Membership test over the network's value interval.
    pub fn contains(&self, ip: &IpAddress) -> (r: bool)
        requires
            self.wf(),
        ensures
            r == self.contains_spec(*ip),
    {
        if !self.addr.same_family(ip) {
            return false;
        }
        proof {
            self.lemma_value_bounds();
            lemma_value_fits_family(*ip);
        }
        let net: IpAddress = self.network_address();
        let mask: u128 = self.host_mask();
        let n: u128 = net.value_u128();
        let w: u128 = ip.value_u128();
        n <= w && w - n <= mask
    }
}

} // verus!
