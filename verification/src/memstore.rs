//! The in-memory reservation store: the verified reference implementation of
//! the `Store` contract, also used by tests. It keeps nothing durable; a
//! file-backed variant belongs to the embedding application.

use vstd::prelude::*;
use vstd::string::StringExecFns;

use crate::ip::IpAddress;
use crate::store::owned_ips;
use crate::store::Store;
use crate::store::StoreError;

verus! {

/// One claim: an address and the (container id, interface name) holding it.
pub struct Reservation {
    pub ip: IpAddress,
    pub id: String,
    pub ifname: String,
}

/// Whether a claim is held by the given (container id, interface name).
pub open spec fn owner_matches(e: Reservation, id: Seq<char>, ifname: Seq<char>) -> bool {
    e.id@ == id && e.ifname@ == ifname
}

/// Some entry claims `ip`.
pub open spec fn has_ip(s: Seq<Reservation>, ip: IpAddress) -> bool {
    exists|j: int| 0 <= j < s.len() && (#[trigger] s[j]).ip == ip
}

/// No two entries claim one address.
pub open spec fn distinct_ips(s: Seq<Reservation>) -> bool {
    forall|i: int, j: int| 0 <= i < j < s.len() ==> (#[trigger] s[i]).ip != (#[trigger] s[j]).ip
}

/// The ledger a sequence of claims describes. A later entry for an address
/// would override an earlier one; the store keeps addresses unique, so no
/// overriding ever happens.
pub open spec fn entries_map(s: Seq<Reservation>) -> Map<IpAddress, (Seq<char>, Seq<char>)>
    decreases s.len(),
{
    if s.len() == 0 {
        Map::empty()
    } else {
        entries_map(s.drop_last()).insert(s.last().ip, (s.last().id@, s.last().ifname@))
    }
}

/// The per-range last-reservation markers a sequence of records describes;
/// the latest record for a range identifier wins.
pub open spec fn marks_map(s: Seq<(String, IpAddress)>) -> Map<Seq<char>, IpAddress>
    decreases s.len(),
{
    if s.len() == 0 {
        Map::empty()
    } else {
        marks_map(s.drop_last()).insert(s.last().0@, s.last().1)
    }
}

/// The ledger holds exactly the claimed addresses, and, when no address is
/// claimed twice, maps each to its entry's owner.
proof fn lemma_entries_map_props(s: Seq<Reservation>)
    ensures
        forall|ip: IpAddress| #[trigger] entries_map(s).contains_key(ip) <==> has_ip(s, ip),
        distinct_ips(s) ==> forall|j: int|
            0 <= j < s.len() ==> entries_map(s)[(#[trigger] s[j]).ip] == (s[j].id@, s[j].ifname@),
    decreases s.len(),
{
    if s.len() > 0 {
        let t = s.drop_last();
        let e = s.last();
        lemma_entries_map_props(t);
        assert forall|ip: IpAddress| #[trigger] entries_map(s).contains_key(ip) implies has_ip(
            s,
            ip,
        ) by {
            if ip == e.ip {
                assert(s[s.len() - 1].ip == ip);
            } else {
                assert(entries_map(t).contains_key(ip));
                assert(has_ip(t, ip));
                let j = choose|j: int| 0 <= j < t.len() && (#[trigger] t[j]).ip == ip;
                assert(s[j].ip == ip);
            }
        }
        assert forall|ip: IpAddress| has_ip(s, ip) implies #[trigger] entries_map(
            s,
        ).contains_key(ip) by {
            let j = choose|j: int| 0 <= j < s.len() && (#[trigger] s[j]).ip == ip;
            if j < s.len() - 1 {
                assert(t[j].ip == ip);
                assert(has_ip(t, ip));
            }
        }
        if distinct_ips(s) {
            assert forall|i: int, j: int| 0 <= i < j < t.len() implies (#[trigger] t[i]).ip != (
            #[trigger] t[j]).ip by {
                assert(s[i].ip != s[j].ip);
            }
            assert forall|j: int| 0 <= j < s.len() implies entries_map(s)[(#[trigger] s[j]).ip]
                == (s[j].id@, s[j].ifname@) by {
                if j < s.len() - 1 {
                    assert(s[j].ip != e.ip);
                    assert(t[j] == s[j]);
                }
            }
        }
    }
}

/// The marker map holds a range identifier exactly when some record names
/// it, and then holds the latest such record's address.
proof fn lemma_marks_map_at(s: Seq<(String, IpAddress)>, k: Seq<char>, j: int)
    requires
        0 <= j < s.len(),
        s[j].0@ == k,
        forall|j2: int| j < j2 < s.len() ==> (#[trigger] s[j2]).0@ != k,
    ensures
        marks_map(s).contains_key(k),
        marks_map(s)[k] == s[j].1,
    decreases s.len(),
{
    let t = s.drop_last();
    if j == s.len() - 1 {
    } else {
        assert(s[s.len() - 1].0@ != k);
        assert forall|j2: int| j < j2 < t.len() implies (#[trigger] t[j2]).0@ != k by {
            assert(t[j2] == s[j2]);
        }
        lemma_marks_map_at(t, k, j);
    }
}

/// A range identifier no record names is absent from the marker map.
proof fn lemma_marks_map_absent(s: Seq<(String, IpAddress)>, k: Seq<char>)
    requires
        forall|j: int| 0 <= j < s.len() ==> (#[trigger] s[j]).0@ != k,
    ensures
        !marks_map(s).contains_key(k),
    decreases s.len(),
{
    if s.len() > 0 {
        let t = s.drop_last();
        assert forall|j: int| 0 <= j < t.len() implies (#[trigger] t[j]).0@ != k by {
            assert(t[j] == s[j]);
        }
        lemma_marks_map_absent(t, k);
        assert(s[s.len() - 1].0@ != k);
    }
}

/// An in-memory reservation ledger.
pub struct MemStore {
    entries: Vec<Reservation>,
    marks: Vec<(String, IpAddress)>,
}

impl MemStore {
    #[verifier::type_invariant]
    spec fn inv(self) -> bool {
        distinct_ips(self.entries@)
    }

    /// An empty ledger: nothing reserved, nothing recorded.
    pub fn new() -> (r: MemStore)
        ensures
            r.reservations() == Map::<IpAddress, (Seq<char>, Seq<char>)>::empty(),
            r.last_reserved() == Map::<Seq<char>, IpAddress>::empty(),
    {
        MemStore { entries: Vec::new(), marks: Vec::new() }
    }
}

impl Store for MemStore {
    closed spec fn reservations(&self) -> Map<IpAddress, (Seq<char>, Seq<char>)> {
        entries_map(self.entries@)
    }

    closed spec fn last_reserved(&self) -> Map<Seq<char>, IpAddress> {
        marks_map(self.marks@)
    }

    fn lock(&self) -> (r: Result<(), StoreError>)
        ensures
            r is Ok,
    {
        Ok(())
    }

    fn unlock(&self) -> (r: Result<(), StoreError>)
        ensures
            r is Ok,
    {
        Ok(())
    }

    fn close(&self) -> (r: Result<(), StoreError>)
        ensures
            r is Ok,
    {
        Ok(())
    }

    fn reserve(&mut self, id: &str, ifname: &str, ip: IpAddress, range_id: &str) -> (r: Result<
        bool,
        StoreError,
    >)
        ensures
            r is Ok,
            r == Ok::<bool, StoreError>(true) <==> !old(self).reservations().contains_key(ip),
    {
        proof {
            use_type_invariant(&*self);
            lemma_entries_map_props(self.entries@);
        }
        let ghost s = self.entries@;
        let n: usize = self.entries.len();
        let mut i: usize = 0;
        while i < n
            invariant
                self == old(self),
                s == self.entries@,
                n == s.len(),
                i <= n,
                forall|j: int| 0 <= j < i ==> (#[trigger] s[j]).ip != ip,
            decreases n - i,
        {
            if self.entries[i].ip == ip {
                proof {
                    lemma_entries_map_props(s);
                    assert(has_ip(s, ip));
                }
                return Ok(false);
            }
            i = i + 1;
        }
        proof {
            assert(!has_ip(s, ip));
        }
        let entry = Reservation { ip, id: id.to_owned(), ifname: ifname.to_owned() };
        let mut entries: Vec<Reservation> = Vec::new();
        core::mem::swap(&mut self.entries, &mut entries);
        entries.push(entry);
        proof {
            assert forall|i2: int, j2: int| 0 <= i2 < j2 < entries@.len() implies (
            #[trigger] entries@[i2]).ip != (#[trigger] entries@[j2]).ip by {
                if j2 < s.len() {
                    assert(s[i2].ip != s[j2].ip);
                } else {
                    assert(entries@[i2] == s[i2]);
                }
            }
        }
        self.entries = entries;
        proof {
            assert(self.entries@.drop_last() =~= s);
            assert(self.entries@.last() == entry);
            assert(self.reservations() == entries_map(s).insert(ip, (id@, ifname@)));
        }
        let ghost m = self.marks@;
        let mut marks: Vec<(String, IpAddress)> = Vec::new();
        core::mem::swap(&mut self.marks, &mut marks);
        marks.push((range_id.to_owned(), ip));
        self.marks = marks;
        proof {
            assert(self.marks@.drop_last() =~= m);
            assert(self.last_reserved() == marks_map(m).insert(range_id@, ip));
        }
        Ok(true)
    }

    fn last_reserved_ip(&self, range_id: &str) -> (r: Result<IpAddress, StoreError>)
        ensures
            r is Ok <==> self.last_reserved().contains_key(range_id@),
    {
        let key: String = range_id.to_owned();
        let mut i: usize = self.marks.len();
        while i > 0
            invariant
                i <= self.marks@.len(),
                key@ == range_id@,
                forall|j: int| i <= j < self.marks@.len() ==> (#[trigger] self.marks@[j]).0@
                    != range_id@,
            decreases i,
        {
            i = i - 1;
            if self.marks[i].0 == key {
                proof {
                    lemma_marks_map_at(self.marks@, range_id@, i as int);
                }
                return Ok(self.marks[i].1);
            }
        }
        proof {
            lemma_marks_map_absent(self.marks@, range_id@);
        }
        Err(StoreError::IOError("no reservation recorded for the range".to_owned()))
    }

    fn release(&mut self, ip: IpAddress) -> (r: Result<(), StoreError>)
        ensures
            r is Ok,
    {
        proof {
            use_type_invariant(&*self);
        }
        let ghost s = self.entries@;
        let n: usize = self.entries.len();
        let mut i: usize = 0;
        while i < n
            invariant
                self == old(self),
                s == self.entries@,
                distinct_ips(s),
                n == s.len(),
                i <= n,
                forall|j: int| 0 <= j < i ==> (#[trigger] s[j]).ip != ip,
            decreases n - i,
        {
            if self.entries[i].ip == ip {
                let ghost idx = i as int;
                let mut entries: Vec<Reservation> = Vec::new();
                core::mem::swap(&mut self.entries, &mut entries);
                entries.remove(i);
                proof {
                    let t = entries@;
                    assert(t == s.remove(idx));
                    assert forall|i2: int, j2: int| 0 <= i2 < j2 < t.len() implies (
                    #[trigger] t[i2]).ip != (#[trigger] t[j2]).ip by {
                        assert(t[i2] == (if i2 < idx {
                            s[i2]
                        } else {
                            s[i2 + 1]
                        }));
                        assert(t[j2] == (if j2 < idx {
                            s[j2]
                        } else {
                            s[j2 + 1]
                        }));
                    }
                    lemma_entries_map_props(s);
                    lemma_entries_map_props(t);
                    assert forall|ip2: IpAddress| #[trigger] has_ip(t, ip2) implies has_ip(s, ip2)
                        && ip2 != ip by {
                        let j = choose|j: int| 0 <= j < t.len() && (#[trigger] t[j]).ip == ip2;
                        if j < idx {
                            assert(s[j].ip == ip2);
                        } else {
                            assert(s[j + 1].ip == ip2);
                        }
                    }
                    assert forall|ip2: IpAddress| has_ip(s, ip2) && ip2 != ip implies #[trigger] has_ip(
                        t,
                        ip2,
                    ) by {
                        let j = choose|j: int| 0 <= j < s.len() && (#[trigger] s[j]).ip == ip2;
                        assert(j != idx);
                        if j < idx {
                            assert(t[j].ip == ip2);
                        } else {
                            assert(t[j - 1].ip == ip2);
                        }
                    }
                    assert forall|ip2: IpAddress| #[trigger] entries_map(t).contains_key(
                        ip2,
                    ) implies entries_map(t)[ip2] == entries_map(s)[ip2] by {
                        let j = choose|j: int| 0 <= j < t.len() && (#[trigger] t[j]).ip == ip2;
                        if j < idx {
                            assert(s[j] == t[j]);
                            assert(entries_map(s)[s[j].ip] == (s[j].id@, s[j].ifname@));
                        } else {
                            assert(s[j + 1] == t[j]);
                            assert(entries_map(s)[s[j + 1].ip] == (s[j + 1].id@, s[j + 1].ifname@));
                        }
                    }
                    assert(entries_map(t) =~= entries_map(s).remove(ip));
                }
                self.entries = entries;
                return Ok(());
            }
            i = i + 1;
        }
        proof {
            lemma_entries_map_props(s);
            assert(!has_ip(s, ip));
            assert(entries_map(s) =~= entries_map(s).remove(ip));
        }
        Ok(())
    }

    fn release_by_id(&mut self, id: &str, ifname: &str) -> (r: Result<(), StoreError>)
        ensures
            r is Ok,
    {
        proof {
            use_type_invariant(&*self);
        }
        let key_id: String = id.to_owned();
        let key_if: String = ifname.to_owned();
        let ghost s = self.entries@;
        let mut entries: Vec<Reservation> = Vec::new();
        core::mem::swap(&mut self.entries, &mut entries);
        let mut kept: Vec<Reservation> = Vec::new();
        while entries.len() > 0
            invariant
                distinct_ips(s),
                entries@ == s.take(entries@.len() as int),
                entries@.len() <= s.len(),
                self.marks@ == old(self).marks@,
                key_id@ == id@,
                key_if@ == ifname@,
                distinct_ips(kept@),
                forall|jo: int|
                    0 <= jo < kept@.len() ==> exists|js: int|
                        {
                            &&& entries@.len() <= js < s.len()
                            &&& (#[trigger] kept@[jo]) == s[js]
                            &&& !owner_matches(s[js], id@, ifname@)
                        },
                forall|js: int|
                    entries@.len() <= js < s.len() && !owner_matches(
                        #[trigger] s[js],
                        id@,
                        ifname@,
                    ) ==> has_ip(kept@, s[js].ip),
            decreases entries@.len(),
        {
            let ghost m = entries@.len() as int;
            let ghost kept0 = kept@;
            let e: Reservation = entries.pop().unwrap();
            proof {
                assert(entries@ =~= s.take(m - 1));
                assert(e == s[m - 1]);
            }
            let matched: bool = e.id == key_id && e.ifname == key_if;
            if !matched {
                kept.push(e);
            }
            proof {
                        assert(matched == owner_matches(s[m - 1], id@, ifname@));
                        assert forall|jo: int| 0 <= jo < kept@.len() implies exists|js: int|
                            {
                                &&& entries@.len() <= js < s.len()
                                &&& (#[trigger] kept@[jo]) == s[js]
                                &&& !owner_matches(s[js], id@, ifname@)
                            } by {
                            if jo < kept0.len() {
                                assert(kept@[jo] == kept0[jo]);
                                let js = choose|js: int|
                                    {
                                        &&& m <= js < s.len()
                                        &&& (#[trigger] kept0[jo]) == s[js]
                                        &&& !owner_matches(s[js], id@, ifname@)
                                    };
                                assert(entries@.len() <= js < s.len() && kept@[jo] == s[js]
                                    && !owner_matches(s[js], id@, ifname@));
                            } else {
                                assert(kept@[jo] == s[m - 1]);
                            }
                        }
                        assert forall|js: int|
                            entries@.len() <= js < s.len() && !owner_matches(
                                #[trigger] s[js],
                                id@,
                                ifname@,
                            ) implies has_ip(kept@, s[js].ip) by {
                            if js >= m {
                                let jo = choose|jo: int|
                                    0 <= jo < kept0.len() && (#[trigger] kept0[jo]).ip == s[js].ip;
                                assert(kept@[jo].ip == s[js].ip);
                            } else {
                                assert(!matched);
                                assert(kept@[kept@.len() - 1].ip == s[m - 1].ip);
                            }
                        }
                        // a pushed entry sits at an earlier ledger index than
                        // everything already kept, so addresses stay distinct
                assert forall|i2: int, j2: int| 0 <= i2 < j2 < kept@.len() implies (
                #[trigger] kept@[i2]).ip != (#[trigger] kept@[j2]).ip by {
                    if j2 < kept0.len() {
                        assert(kept0[i2].ip != kept0[j2].ip);
                    } else if kept@.len() > kept0.len() && j2 == kept0.len() {
                        assert(kept@[i2] == kept0[i2]);
                        let js = choose|js: int|
                            {
                                &&& m <= js < s.len()
                                &&& (#[trigger] kept0[i2]) == s[js]
                                &&& !owner_matches(s[js], id@, ifname@)
                            };
                        assert(kept@[j2] == s[m - 1]);
                        assert(s[m - 1].ip != s[js].ip);
                    }
                }
            }
        }
        proof {
            lemma_entries_map_props(s);
            lemma_entries_map_props(kept@);
            let om = entries_map(s);
            let target = om.remove_keys(owned_ips(om, id@, ifname@));
            assert forall|ip: IpAddress| #[trigger] entries_map(kept@).contains_key(ip) implies (
            target.contains_key(ip) && entries_map(kept@)[ip] == target[ip]) by {
                let jo = choose|jo: int| 0 <= jo < kept@.len() && (#[trigger] kept@[jo]).ip == ip;
                let js = choose|js: int|
                    {
                        &&& 0 <= js < s.len()
                        &&& (#[trigger] kept@[jo]) == s[js]
                        &&& !owner_matches(s[js], id@, ifname@)
                    };
                assert(s[js].ip == ip);
                assert(has_ip(s, ip));
                assert(om[ip] == (s[js].id@, s[js].ifname@));
                assert(om[ip] != (id@, ifname@));
                assert(entries_map(kept@)[ip] == (kept@[jo].id@, kept@[jo].ifname@));
            }
            assert forall|ip: IpAddress| #[trigger] target.contains_key(ip) implies entries_map(
                kept@,
            ).contains_key(ip) by {
                assert(om.contains_key(ip));
                assert(has_ip(s, ip));
                let js = choose|js: int| 0 <= js < s.len() && (#[trigger] s[js]).ip == ip;
                assert(om[ip] == (s[js].id@, s[js].ifname@));
                assert(!(om[ip] == (id@, ifname@)));
                assert(!owner_matches(s[js], id@, ifname@));
                assert(entries@.len() == 0);
                assert(has_ip(kept@, ip));
            }
            assert(entries_map(kept@) =~= target);
        }
        self.entries = kept;
        Ok(())
    }

    fn get_by_id(&self, id: &str, ifname: &str) -> (r: Vec<IpAddress>)
    {
        proof {
            use_type_invariant(&*self);
            lemma_entries_map_props(self.entries@);
        }
        let ghost s = self.entries@;
        let key_id: String = id.to_owned();
        let key_if: String = ifname.to_owned();
        let mut out: Vec<IpAddress> = Vec::new();
        let n: usize = self.entries.len();
        let mut i: usize = 0;
        while i < n
            invariant
                s == self.entries@,
                distinct_ips(s),
                n == s.len(),
                i <= n,
                key_id@ == id@,
                key_if@ == ifname@,
                forall|ip: IpAddress|
                    #[trigger] out@.contains(ip) <==> exists|js: int|
                        0 <= js < i && (#[trigger] s[js]).ip == ip && owner_matches(
                            s[js],
                            id@,
                            ifname@,
                        ),
            decreases n - i,
        {
            let matched: bool = self.entries[i].id == key_id && self.entries[i].ifname == key_if;
            if matched {
                let ghost out0 = out@;
                out.push(self.entries[i].ip);
                proof {
                    assert forall|ip: IpAddress| #[trigger] out@.contains(ip) implies exists|
                        js: int,
                    |
                        0 <= js < i + 1 && (#[trigger] s[js]).ip == ip && owner_matches(
                            s[js],
                            id@,
                            ifname@,
                        ) by {
                        let jo = choose|jo: int| 0 <= jo < out@.len() && out@[jo] == ip;
                        if jo < out0.len() {
                            assert(out0[jo] == ip);
                            assert(out0.contains(ip));
                        } else {
                            assert(s[i as int].ip == ip);
                        }
                    }
                    assert forall|ip: IpAddress|
                        exists|js: int|
                            0 <= js < i + 1 && (#[trigger] s[js]).ip == ip && owner_matches(
                                s[js],
                                id@,
                                ifname@,
                            ) implies #[trigger] out@.contains(ip) by {
                        let js = choose|js: int|
                            0 <= js < i + 1 && (#[trigger] s[js]).ip == ip && owner_matches(
                                s[js],
                                id@,
                                ifname@,
                            );
                        if js < i {
                            assert(out0.contains(ip));
                            let jo = choose|jo: int| 0 <= jo < out0.len() && out0[jo] == ip;
                            assert(out@[jo] == ip);
                        } else {
                            assert(out@[out@.len() - 1] == ip);
                        }
                    }
                }
            } else {
                proof {
                    assert forall|ip: IpAddress|
                        exists|js: int|
                            0 <= js < i + 1 && (#[trigger] s[js]).ip == ip && owner_matches(
                                s[js],
                                id@,
                                ifname@,
                            ) implies #[trigger] out@.contains(ip) by {
                        let js = choose|js: int|
                            0 <= js < i + 1 && (#[trigger] s[js]).ip == ip && owner_matches(
                                s[js],
                                id@,
                                ifname@,
                            );
                        assert(js < i);
                    }
                }
            }
            i = i + 1;
        }
        proof {
            assert forall|ip: IpAddress| #[trigger] out@.contains(ip) implies (
            self.reservations().contains_key(ip) && self.reservations()[ip] == (
            id@,
            ifname@,
            )) by {
                let js = choose|js: int|
                    0 <= js < s.len() && (#[trigger] s[js]).ip == ip && owner_matches(
                        s[js],
                        id@,
                        ifname@,
                    );
                assert(has_ip(s, ip));
            }
            assert forall|ip: IpAddress|
                (self.reservations().contains_key(ip) && self.reservations()[ip] == (
                id@,
                ifname@,
                )) implies #[trigger] out@.contains(ip) by {
                let js = choose|js: int| 0 <= js < s.len() && (#[trigger] s[js]).ip == ip;
                assert(owner_matches(s[js], id@, ifname@));
            }
        }
        out
    }
}

} // verus!
