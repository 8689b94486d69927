//! The allocator: satisfies "give me an address" and "give me back my
//! addresses" requests by tying one range set, the round-robin iterator and
//! one reservation store together.
//!
//! A request for a specific address is validated against the owning range and
//! offered to the store once; a request for any address offers candidates
//! from the round-robin iterator, resumed after the store's last-reserved
//! address, until the store accepts one or a full cycle is exhausted.

use vstd::prelude::*;
use vstd::string::StringExecFns;

use crate::ip::IpAddress;
use crate::range::lemma_contains_iff_in_span;
use crate::range::lemma_no_overlap_disjoint;
use crate::range::Range;
use crate::rangeiter::in_some_span;
use crate::rangeiter::lemma_cycle_complete;
use crate::rangeiter::next_pos;
use crate::rangeiter::owner_of;
use crate::rangeiter::pos_of;
use crate::rangeiter::seed_iterator;
use crate::rangeiter::total_size;
use crate::rangeiter::walk_full;
use crate::rangeiter::RangeIter;
use crate::rangeset::RangeSet;
use crate::rangeset::RangeSetError;
use crate::store::owned_ips;
use crate::store::Store;
use crate::store::StoreError;
use crate::subnet::IpNet;

verus! {

/// The outcome of a successful allocation: the address, carrying the owning
/// range's prefix, and that range's gateway.
#[derive(Debug, Clone, PartialEq, Eq)]
pub struct IpConfig {
    pub interface: Option<usize>,
    pub address: IpNet,
    pub gateway: IpAddress,
}

#[derive(Debug, Clone, PartialEq, Eq)]
pub enum AllocateError {
    /// The requested address is its owning range's gateway.
    GatewayIp(IpAddress),
    /// A range lookup failed.
    RangeSetError(RangeSetError),
    /// The store failed.
    StoreError(StoreError),
    /// The requested address is already claimed.
    IpNotAvailable(IpAddress),
    /// An address is already recorded for this owner but lies outside the
    /// configured ranges: the configuration changed since it was handed out.
    DuplicateAllocation(IpAddress, String),
    /// Every usable address of every range is claimed.
    IpExhausted,
}

/// The decimal digit characters.
pub open spec fn digit_char(d: int) -> char {
    if d == 0 {
        '0'
    } else if d == 1 {
        '1'
    } else if d == 2 {
        '2'
    } else if d == 3 {
        '3'
    } else if d == 4 {
        '4'
    } else if d == 5 {
        '5'
    } else if d == 6 {
        '6'
    } else if d == 7 {
        '7'
    } else if d == 8 {
        '8'
    } else {
        '9'
    }
}

/// The decimal rendering of a number, most significant digit first.
pub open spec fn decimal_digits(n: int) -> Seq<char>
    decreases n,
{
    if n < 10 {
        seq![digit_char(n)]
    } else {
        decimal_digits(n / 10).push(digit_char(n % 10))
    }
}

fn digit_str(d: u32) -> (r: &'static str)
    requires
        d < 10,
    ensures
        r@ == seq![digit_char(d as int)],
{
    let s: &'static str = match d {
        0 => "0",
        1 => "1",
        2 => "2",
        3 => "3",
        4 => "4",
        5 => "5",
        6 => "6",
        7 => "7",
        8 => "8",
        _ => "9",
    };
    proof {
        reveal_strlit("0");
        reveal_strlit("1");
        reveal_strlit("2");
        reveal_strlit("3");
        reveal_strlit("4");
        reveal_strlit("5");
        reveal_strlit("6");
        reveal_strlit("7");
        reveal_strlit("8");
        reveal_strlit("9");
        assert(s@ =~= seq![digit_char(d as int)]);
    }
    s
}

/// The decimal text of a number.
pub fn u32_to_decimal(n: u32) -> (r: String)
    ensures
        r@ == decimal_digits(n as int),
    decreases n,
{
    if n < 10 {
        digit_str(n).to_owned()
    } else {
        let mut s: String = u32_to_decimal(n / 10);
        s.append(digit_str(n % 10));
        proof {
            assert(s@ =~= decimal_digits((n / 10) as int).push(digit_char((n % 10) as int)));
        }
        s
    }
}

/// Some address recorded for this owner lies outside every configured range:
/// a claim left over from an older configuration.
pub open spec fn has_stale_claim(
    m: Map<IpAddress, (Seq<char>, Seq<char>)>,
    rs: Seq<Range>,
    id: Seq<char>,
    ifname: Seq<char>,
) -> bool {
    exists|ip: IpAddress|
        #[trigger] m.contains_key(ip) && m[ip] == (id, ifname) && (forall|i: int|
            0 <= i < rs.len() ==> !(#[trigger] rs[i]).contains_spec(ip))
}

/// The candidate cycles an allocation may walk: one full turn resumed after
/// the recorded last-reserved address when that address lies in some range,
/// or one full turn from the first range's start.
pub open spec fn admissible_cycle(
    rs: Seq<Range>,
    marks: Map<Seq<char>, IpAddress>,
    key: Seq<char>,
    w: Seq<(IpAddress, Range)>,
) -> bool {
    ||| (rs.len() > 0 && w == walk_full(rs, pos_of(rs, rs[0].start)))
    ||| (marks.contains_key(key) && in_some_span(rs, marks[key]) && w == walk_full(
        rs,
        next_pos(pos_of(rs, marks[key]), total_size(rs)),
    ))
}

/// `item` is the first candidate of the cycle `w` whose address holds no
/// claim in the ledger `m`.
pub open spec fn first_free_candidate(
    w: Seq<(IpAddress, Range)>,
    m: Map<IpAddress, (Seq<char>, Seq<char>)>,
    item: (IpAddress, Range),
) -> bool {
    exists|k: int|
        {
            &&& 0 <= k < w.len()
            &&& #[trigger] w[k] == item
            &&& !m.contains_key(item.0)
            &&& forall|j: int| 0 <= j < k ==> m.contains_key((#[trigger] w[j]).0)
        }
}

pub struct Allocator<S: Store> {
    range_set: RangeSet,
    store: S,
    range_id: String,
}

impl<S: Store> Allocator<S> {
    /// The configured ranges are mutually consistent.
    pub closed spec fn wf(self) -> bool {
        self.range_set.wf()
    }

    /// The configured ranges, in declaration order.
    pub closed spec fn ranges(self) -> Seq<Range> {
        self.range_set@
    }

    /// The store's ledger, as the allocator sees it.
    pub closed spec fn reservations(self) -> Map<IpAddress, (Seq<char>, Seq<char>)> {
        self.store.reservations()
    }

    /// The store's last-reservation markers.
    pub closed spec fn last_marks(self) -> Map<Seq<char>, IpAddress> {
        self.store.last_reserved()
    }

    /// The text of the range identifier used as the store's partition key.
    pub closed spec fn id_text(self) -> Seq<char> {
        self.range_id@
    }

    pub fn new(range_set: RangeSet, store: S, range_id: u32) -> (r: Allocator<S>)
        requires
            range_set.wf(),
        ensures
            r.wf(),
            r.ranges() == range_set@,
            r.reservations() == store.reservations(),
            r.last_marks() == store.last_reserved(),
            r.id_text() == decimal_digits(range_id as int),
    {
        Allocator { range_set, store, range_id: u32_to_decimal(range_id) }
    }

    /// A round-robin iterator over the candidate addresses, seeded by
    /// `seed_iterator` from the store's last-reserved address for this range
    /// identifier: iteration resumes after that address when it still falls
    /// in some range, and starts fresh at the first range otherwise. Its
    /// pending items are one admissible full cycle: every non-gateway address
    /// of every range exactly once, paired with its owning range.
    pub fn into_iter(&self) -> (it: RangeIter)
        requires
            self.wf(),
        ensures
            it.wf(),
            it.range_set@ == self.ranges(),
            forall|j: int|
                0 <= j < it.remaining().len() ==> {
                    let a = (#[trigger] it.remaining()[j]).0;
                    &&& it.remaining()[j].1 == owner_of(self.ranges(), a)
                    &&& in_some_span(self.ranges(), a)
                    &&& owner_of(self.ranges(), a).in_span(a)
                    &&& a != owner_of(self.ranges(), a).gateway
                    &&& exists|i: int|
                        0 <= i < self.ranges().len() && self.ranges()[i] == owner_of(
                            self.ranges(),
                            a,
                        )
                },
            forall|a: IpAddress|
                in_some_span(self.ranges(), a) && a != (#[trigger] owner_of(
                    self.ranges(),
                    a,
                )).gateway ==> it.remaining().contains((a, owner_of(self.ranges(), a))),
            forall|j1: int, j2: int|
                0 <= j1 < j2 < it.remaining().len() ==> (#[trigger] it.remaining()[j1]).0 != (
                #[trigger] it.remaining()[j2]).0,
            self.ranges().len() == 0 ==> it.remaining() == Seq::<(IpAddress, Range)>::empty(),
            self.ranges().len() > 0 ==> admissible_cycle(
                self.ranges(),
                self.last_marks(),
                self.id_text(),
                it.remaining(),
            ),
    {
        let marker: Option<IpAddress> = match self.store.last_reserved_ip(self.range_id.as_str()) {
            Ok(ip) => Some(ip),
            Err(_) => None,
        };
        let it = seed_iterator(&self.range_set, marker);
        proof {
            let rs = self.ranges();
            if rs.len() > 0 {
                lemma_cycle_complete(it);
                if marker is Some && self.range_set.contains_spec(marker->0) {
                    let ip = marker->0;
                    let i = choose|i: int|
                        0 <= i < rs.len() && (#[trigger] rs[i]).contains_spec(ip);
                    lemma_contains_iff_in_span(rs[i], ip);
                    assert(in_some_span(rs, ip));
                }
            }
        }
        it
    }

    /// Claim the requested address `q` for (id, ifname): `q` has already been
    /// located in the member `range` and is not its gateway, so only the
    /// store decides.
    fn reserve_requested(&mut self, id: &str, ifname: &str, q: IpAddress, range: Range) -> (r:
        Result<IpConfig, AllocateError>)
        requires
            old(self).wf(),
            exists|i: int|
                0 <= i < old(self).ranges().len() && old(self).ranges()[i] == range && (
                #[trigger] old(self).ranges()[i]).contains_spec(q),
            q != range.gateway,
        ensures
            final(self).wf(),
            final(self).ranges() == old(self).ranges(),
            final(self).id_text() == old(self).id_text(),
            r matches Ok(cfg) ==> ({
                &&& cfg == (IpConfig {
                    interface: None,
                    address: IpNet { addr: q, prefix: range.subnet.prefix },
                    gateway: range.gateway,
                })
                &&& !old(self).reservations().contains_key(q)
                &&& final(self).reservations() == old(self).reservations().insert(
                    q,
                    (id@, ifname@),
                )
                &&& final(self).last_marks() == old(self).last_marks().insert(
                    old(self).id_text(),
                    q,
                )
            }),
            r == Err::<IpConfig, AllocateError>(AllocateError::IpNotAvailable(q)) ==> old(
                self,
            ).reservations().contains_key(q) && final(self).reservations() == old(
                self,
            ).reservations() && final(self).last_marks() == old(self).last_marks(),
            r matches Err(e) ==> (e == AllocateError::IpNotAvailable(q) || e matches
                AllocateError::StoreError(_)),
    {
        match self.store.reserve(id, ifname, q, self.range_id.as_str()) {
            Err(e) => Err(AllocateError::StoreError(e)),
            Ok(false) => Err(AllocateError::IpNotAvailable(q)),
            Ok(true) => Ok(
                IpConfig {
                    interface: None,
                    address: IpNet { addr: q, prefix: range.subnet.prefix },
                    gateway: range.gateway,
                },
            ),
        }
    }

    /// Allocate the next free address round-robin, for a request that names
    /// no specific address. Fails with `DuplicateAllocation` when the store
    /// already records an address for this owner outside every configured
    /// range; otherwise offers the candidates of one admissible cycle to the
    /// store in order, and the first one granted is the result.
    fn allocate_any(&mut self, id: &str, ifname: &str) -> (r: Result<IpConfig, AllocateError>)
        requires
            old(self).wf(),
        ensures
            final(self).wf(),
            final(self).ranges() == old(self).ranges(),
            final(self).id_text() == old(self).id_text(),
            r matches Ok(cfg) ==> ({
                &&& cfg.interface is None
                &&& exists|i: int|
                    {
                        &&& 0 <= i < old(self).ranges().len()
                        &&& (#[trigger] old(self).ranges()[i]).contains_spec(cfg.address.addr)
                        &&& cfg.gateway == old(self).ranges()[i].gateway
                        &&& cfg.address.prefix == old(self).ranges()[i].subnet.prefix
                        &&& cfg.address.addr != old(self).ranges()[i].gateway
                    }
                &&& !old(self).reservations().contains_key(cfg.address.addr)
                &&& final(self).reservations() == old(self).reservations().insert(
                    cfg.address.addr,
                    (id@, ifname@),
                )
                &&& final(self).last_marks() == old(self).last_marks().insert(
                    old(self).id_text(),
                    cfg.address.addr,
                )
                &&& exists|w: Seq<(IpAddress, Range)>|
                    #[trigger] admissible_cycle(
                        old(self).ranges(),
                        old(self).last_marks(),
                        old(self).id_text(),
                        w,
                    ) && first_free_candidate(
                        w,
                        old(self).reservations(),
                        (cfg.address.addr, owner_of(old(self).ranges(), cfg.address.addr)),
                    )
            }),
            r matches Err(e) ==> (e matches AllocateError::StoreError(_) || (final(self).reservations()
                == old(self).reservations() && final(self).last_marks() == old(self).last_marks())),
            r matches Err(e) ==> (e matches AllocateError::StoreError(_) || e matches
                AllocateError::DuplicateAllocation(_, _) || e == AllocateError::IpExhausted),
            has_stale_claim(old(self).reservations(), old(self).ranges(), id@, ifname@)
                ==> r matches Err(AllocateError::DuplicateAllocation(_, _)),
            r matches Err(AllocateError::DuplicateAllocation(dup, cid)) ==> ({
                &&& cid@ == id@
                &&& old(self).reservations().contains_key(dup)
                &&& old(self).reservations()[dup] == (id@, ifname@)
                &&& forall|i: int|
                    0 <= i < old(self).ranges().len() ==> !(#[trigger] old(self).ranges()[i]).contains_spec(
                        dup,
                    )
            }),
            r == Err::<IpConfig, AllocateError>(AllocateError::IpExhausted) ==> (forall|
                a: IpAddress,
            |
                in_some_span(old(self).ranges(), a) && a != (#[trigger] owner_of(
                    old(self).ranges(),
                    a,
                )).gateway ==> old(self).reservations().contains_key(a)),
    {
        let claimed: Vec<IpAddress> = self.store.get_by_id(id, ifname);
        let n: usize = claimed.len();
        let mut i: usize = 0;
        while i < n
            invariant
                self == old(self),
                self.wf(),
                n == claimed@.len(),
                i <= n,
                forall|ip: IpAddress|
                    #[trigger] claimed@.contains(ip) <==> (self.reservations().contains_key(ip)
                        && self.reservations()[ip] == (id@, ifname@)),
                forall|j: int|
                    0 <= j < i ==> self.range_set.contains_spec(#[trigger] claimed@[j]),
            decreases n - i,
        {
            let candidate: IpAddress = claimed[i];
            if !self.range_set.contains(candidate) {
                proof {
                    assert(claimed@[i as int] == candidate);
                    assert(claimed@.contains(candidate));
                }
                return Err(AllocateError::DuplicateAllocation(candidate, id.to_owned()));
            }
            i = i + 1;
        }
        proof {
            // every address on record for this owner lies in some range
            assert forall|ip: IpAddress|
                old(self).reservations().contains_key(ip) && old(self).reservations()[ip] == (
                id@,
                ifname@,
                ) implies !(forall|i2: int|
                0 <= i2 < old(self).ranges().len() ==> !(#[trigger] old(self).ranges()[i2]).contains_spec(
                    ip,
                )) by {
                assert(claimed@.contains(ip));
                let j = choose|j: int| 0 <= j < claimed@.len() && claimed@[j] == ip;
                assert(self.range_set.contains_spec(claimed@[j]));
            }
            assert(!has_stale_claim(old(self).reservations(), old(self).ranges(), id@, ifname@));
        }
        let mut it: RangeIter = self.into_iter();
        let ghost w0 = it.remaining();
        let ghost mut k: int = 0;
        loop
            invariant
                old(self).wf(),
                self.wf(),
                it.wf(),
                self.ranges() == old(self).ranges(),
                self.id_text() == old(self).id_text(),
                self.reservations() == old(self).reservations(),
                self.last_marks() == old(self).last_marks(),
                it.range_set@ == old(self).ranges(),
                !has_stale_claim(old(self).reservations(), old(self).ranges(), id@, ifname@),
                w0.len() == 0 || admissible_cycle(
                    old(self).ranges(),
                    old(self).last_marks(),
                    old(self).id_text(),
                    w0,
                ),
                0 <= k <= w0.len(),
                it.remaining() =~= w0.subrange(k, w0.len() as int),
                forall|j: int|
                    0 <= j < k ==> old(self).reservations().contains_key((#[trigger] w0[j]).0),
                forall|j: int|
                    0 <= j < it.remaining().len() ==> {
                        let a = (#[trigger] it.remaining()[j]).0;
                        &&& it.remaining()[j].1 == owner_of(old(self).ranges(), a)
                        &&& in_some_span(old(self).ranges(), a)
                        &&& owner_of(old(self).ranges(), a).in_span(a)
                        &&& a != owner_of(old(self).ranges(), a).gateway
                        &&& exists|k2: int|
                            0 <= k2 < old(self).ranges().len() && old(self).ranges()[k2]
                                == owner_of(old(self).ranges(), a)
                    },
                forall|a: IpAddress|
                    in_some_span(old(self).ranges(), a) && a != (#[trigger] owner_of(
                        old(self).ranges(),
                        a,
                    )).gateway ==> (it.remaining().contains((a, owner_of(old(self).ranges(), a)))
                        || old(self).reservations().contains_key(a)),
            decreases it.remaining().len(),
        {
            let ghost rem0 = it.remaining();
            match it.next() {
                None => {
                    proof {
                        assert(rem0.len() == 0);
                    }
                    return Err(AllocateError::IpExhausted);
                },
                Some((ipnet, gw)) => {
                    let ghost item = rem0[0];
                    match self.store.reserve(id, ifname, ipnet.addr, self.range_id.as_str()) {
                        Err(e) => {
                            return Err(AllocateError::StoreError(e));
                        },
                        Ok(true) => {
                            proof {
                                let a = item.0;
                                let owner = owner_of(old(self).ranges(), a);
                                let k2 = choose|k2: int|
                                    0 <= k2 < old(self).ranges().len() && old(self).ranges()[k2]
                                        == owner;
                                lemma_contains_iff_in_span(owner, a);
                                // the granted candidate is the first free one
                                // of the admissible cycle it came from
                                assert(rem0[0] == w0[k]);
                                assert(w0.len() > 0);
                                assert(first_free_candidate(
                                    w0,
                                    old(self).reservations(),
                                    (a, owner),
                                ));
                            }
                            return Ok(IpConfig { interface: None, address: ipnet, gateway: gw });
                        },
                        Ok(false) => {
                            proof {
                                assert(rem0[0] == w0[k]);
                                assert(old(self).reservations().contains_key(w0[k].0));
                                k = k + 1;
                                assert(it.remaining() =~= w0.subrange(k, w0.len() as int));
                                assert forall|a: IpAddress|
                                    in_some_span(old(self).ranges(), a) && a != (
                                    #[trigger] owner_of(old(self).ranges(), a)).gateway implies (
                                it.remaining().contains((a, owner_of(old(self).ranges(), a)))
                                    || old(self).reservations().contains_key(a)) by {
                                    let pair = (a, owner_of(old(self).ranges(), a));
                                    if rem0.contains(pair) {
                                        let j = choose|j: int|
                                            0 <= j < rem0.len() && rem0[j] == pair;
                                        if j == 0 {
                                            assert(ipnet.addr == a);
                                        } else {
                                            assert(it.remaining()[j - 1] == pair);
                                            assert(it.remaining().contains(pair));
                                        }
                                    }
                                }
                            }
                        },
                    }
                },
            }
        }
    }

    /// Satisfy one allocation request for (container id, interface name).
    ///
    /// With a requested address: the address must lie in some configured
    /// range (`RangeSetError` otherwise) and must not be that range's gateway
    /// (`GatewayIp`) — both checked before any store call, so those two
    /// outcomes are exact; the store then either grants the address, making
    /// this owner its exclusive holder, or reports it taken
    /// (`IpNotAvailable`).
    ///
    /// Without one: if the store already records an address for this owner
    /// that lies outside every configured range, the configuration has
    /// changed and the call fails with `DuplicateAllocation` rather than
    /// handing out a second address. Otherwise candidates are offered
    /// round-robin — resuming after the store's last-reserved address — and
    /// the first one the store grants is the result; a full fruitless cycle
    /// means every usable address was already reserved (`IpExhausted`).
    ///
    /// The store calls of a request are bracketed by the store's
    /// `lock`/`unlock` hooks; store failures surface as `StoreError`.
    pub fn get(&mut self, id: &str, ifname: &str, requested_ip: Option<IpAddress>) -> (r: Result<
        IpConfig,
        AllocateError,
    >)
        requires
            old(self).wf(),
        ensures
            final(self).wf(),
            final(self).ranges() == old(self).ranges(),
            final(self).id_text() == old(self).id_text(),
            r matches Ok(cfg) ==> ({
                &&& cfg.interface is None
                &&& exists|i: int|
                    {
                        &&& 0 <= i < old(self).ranges().len()
                        &&& (#[trigger] old(self).ranges()[i]).contains_spec(cfg.address.addr)
                        &&& cfg.gateway == old(self).ranges()[i].gateway
                        &&& cfg.address.prefix == old(self).ranges()[i].subnet.prefix
                        &&& cfg.address.addr != old(self).ranges()[i].gateway
                    }
                &&& !old(self).reservations().contains_key(cfg.address.addr)
                &&& final(self).reservations() == old(self).reservations().insert(
                    cfg.address.addr,
                    (id@, ifname@),
                )
                &&& final(self).last_marks() == old(self).last_marks().insert(
                    old(self).id_text(),
                    cfg.address.addr,
                )
                &&& (requested_ip matches Some(q) ==> cfg.address.addr == q)
                &&& (requested_ip is None ==> exists|w: Seq<(IpAddress, Range)>|
                    #[trigger] admissible_cycle(
                        old(self).ranges(),
                        old(self).last_marks(),
                        old(self).id_text(),
                        w,
                    ) && first_free_candidate(
                        w,
                        old(self).reservations(),
                        (cfg.address.addr, owner_of(old(self).ranges(), cfg.address.addr)),
                    ))
            }),
            r matches Err(e) ==> (e matches AllocateError::StoreError(_) || (final(self).reservations()
                == old(self).reservations() && final(self).last_marks() == old(self).last_marks())),
            requested_ip matches Some(q) ==> ({
                &&& ((forall|i: int|
                    0 <= i < old(self).ranges().len() ==> !(#[trigger] old(self).ranges()[i]).contains_spec(
                        q,
                    )) <==> r == Err::<IpConfig, AllocateError>(
                    AllocateError::RangeSetError(RangeSetError::NoRangeForIP(q)),
                ))
                &&& ((exists|i: int|
                    0 <= i < old(self).ranges().len() && (#[trigger] old(self).ranges()[i]).contains_spec(
                        q,
                    ) && old(self).ranges()[i].gateway == q) <==> r == Err::<
                    IpConfig,
                    AllocateError,
                >(AllocateError::GatewayIp(q)))
                &&& (r == Err::<IpConfig, AllocateError>(AllocateError::IpNotAvailable(q)) ==> old(
                    self,
                ).reservations().contains_key(q))
                &&& (r matches Err(e) ==> !(e matches AllocateError::DuplicateAllocation(_, _))
                    && e != AllocateError::IpExhausted)
            }),
            requested_ip is None ==> (r matches Err(e) ==> (e matches AllocateError::StoreError(_)
                || e matches AllocateError::DuplicateAllocation(_, _) || e
                == AllocateError::IpExhausted)),
            requested_ip is None && has_stale_claim(
                old(self).reservations(),
                old(self).ranges(),
                id@,
                ifname@,
            ) ==> (r matches Err(AllocateError::DuplicateAllocation(_, _)) || r matches
                Err(AllocateError::StoreError(_))),
            r matches Err(AllocateError::DuplicateAllocation(dup, cid)) ==> ({
                &&& requested_ip is None
                &&& cid@ == id@
                &&& old(self).reservations().contains_key(dup)
                &&& old(self).reservations()[dup] == (id@, ifname@)
                &&& forall|i: int|
                    0 <= i < old(self).ranges().len() ==> !(#[trigger] old(self).ranges()[i]).contains_spec(
                        dup,
                    )
            }),
            r == Err::<IpConfig, AllocateError>(AllocateError::IpExhausted) ==> (requested_ip
                is None && forall|a: IpAddress|
                in_some_span(old(self).ranges(), a) && a != (#[trigger] owner_of(
                    old(self).ranges(),
                    a,
                )).gateway ==> old(self).reservations().contains_key(a)),
    {
        let ghost rs = self.ranges();
        match requested_ip {
            Some(q) => {
                let range: Range = match self.range_set.get_range_for_ip(q) {
                    Ok(range) => range,
                    Err(e) => {
                        return Err(AllocateError::RangeSetError(e));
                    },
                };
                proof {
                    // spans are disjoint, so only one member holds q
                    let i0 = choose|i: int|
                        {
                            &&& 0 <= i < rs.len()
                            &&& range == rs[i]
                            &&& (#[trigger] rs[i]).contains_spec(q)
                            &&& forall|j: int| 0 <= j < i ==> !(#[trigger] rs[j]).contains_spec(q)
                        };
                    assert forall|i: int|
                        0 <= i < rs.len() && (#[trigger] rs[i]).contains_spec(q) implies rs[i]
                        == range by {
                        lemma_contains_iff_in_span(rs[i], q);
                        lemma_contains_iff_in_span(rs[i0], q);
                        if rs[i] != rs[i0] {
                            assert(!rs[i].overlaps_spec(rs[i0]) || !rs[i0].overlaps_spec(rs[i]));
                            lemma_no_overlap_disjoint(rs[i0], rs[i], q);
                        }
                    }
                }
                if q == range.gateway {
                    return Err(AllocateError::GatewayIp(q));
                }
                match self.store.lock() {
                    Err(e) => {
                        return Err(AllocateError::StoreError(e));
                    },
                    Ok(_) => {},
                }
                let r = self.reserve_requested(id, ifname, q, range);
                match self.store.unlock() {
                    Err(e) => {
                        return Err(AllocateError::StoreError(e));
                    },
                    Ok(_) => {},
                }
                r
            },
            None => {
                match self.store.lock() {
                    Err(e) => {
                        return Err(AllocateError::StoreError(e));
                    },
                    Ok(_) => {},
                }
                let r = self.allocate_any(id, ifname);
                match self.store.unlock() {
                    Err(e) => {
                        return Err(AllocateError::StoreError(e));
                    },
                    Ok(_) => {},
                }
                r
            },
        }
    }

    /// Give back every address the store holds for (container id, interface
    /// name); a no-op when it holds none. Bracketed by `lock`/`unlock`.
    pub fn release(&mut self, id: &str, ifname: &str) -> (r: Result<(), AllocateError>)
        requires
            old(self).wf(),
        ensures
            final(self).wf(),
            final(self).ranges() == old(self).ranges(),
            final(self).id_text() == old(self).id_text(),
            r is Ok ==> final(self).reservations() == old(self).reservations().remove_keys(
                owned_ips(old(self).reservations(), id@, ifname@),
            ) && final(self).last_marks() == old(self).last_marks(),
            r matches Err(e) ==> e matches AllocateError::StoreError(_),
    {
        match self.store.lock() {
            Err(e) => {
                return Err(AllocateError::StoreError(e));
            },
            Ok(_) => {},
        }
        match self.store.release_by_id(id, ifname) {
            Err(e) => {
                return Err(AllocateError::StoreError(e));
            },
            Ok(_) => {},
        }
        match self.store.unlock() {
            Err(e) => {
                return Err(AllocateError::StoreError(e));
            },
            Ok(_) => {},
        }
        Ok(())
    }
}

} // verus!
