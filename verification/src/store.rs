//! The reservation ledger contract.
//!
//! A store durably maps reserved addresses to the (container id, interface
//! name) that holds them, and keeps one last-handed-out address per range
//! identifier for round-robin continuation. The contract is what the
//! allocator relies on; `MemStore` is the verified in-memory implementation,
//! and a file-backed one may live in the embedding application.
//!
//! The model below describes the ledger as seen by one client. Cross-process
//! exclusivity — two concurrent `reserve` calls for one address never both
//! returning `true` — is the implementation's burden: the file-backed variant
//! gets it from the filesystem's atomic create-if-absent primitive.

use vstd::prelude::*;
use vstd::string::StringExecFns;

use crate::ip::IpAddress;

verus! {

#[derive(Debug, Clone, PartialEq, Eq)]
pub enum StoreError {
    /// The backing storage failed; the field carries the underlying message.
    IOError(String),
    /// A persisted address could not be read back; the field carries its text.
    AddrParseError(String),
}

/// The addresses a ledger holds for one (container id, interface name) owner.
pub open spec fn owned_ips(
    m: Map<IpAddress, (Seq<char>, Seq<char>)>,
    id: Seq<char>,
    ifname: Seq<char>,
) -> Set<IpAddress> {
    Set::new(|ip: IpAddress| m.contains_key(ip) && m[ip] == (id, ifname))
}

pub trait Store {
    /// The ledger: each reserved address mapped to the (container id,
    /// interface name) holding it. An implementation outside the verifier's
    /// reach may leave the default, about which nothing is known.
    open spec fn reservations(&self) -> Map<IpAddress, (Seq<char>, Seq<char>)> {
        arbitrary()
    }

    /// The last address handed out, per range identifier.
    open spec fn last_reserved(&self) -> Map<Seq<char>, IpAddress> {
        arbitrary()
    }

    /// Begin a logical transaction over several calls. A no-op unless the
    /// implementation needs coarse mutual exclusion.
    fn lock(&self) -> Result<(), StoreError>;

    /// End the transaction begun by `lock`.
    fn unlock(&self) -> Result<(), StoreError>;

    /// Release the resources behind the store.
    fn close(&self) -> Result<(), StoreError>;

    /// Attempt to claim `ip` exclusively for (id, ifname). `Ok(true)` means
    /// this call created the claim and recorded `ip` as the last reservation
    /// of `range_id`; `Ok(false)` means the address was already claimed — by
    /// anyone — and nothing changed.
    fn reserve(&mut self, id: &str, ifname: &str, ip: IpAddress, range_id: &str) -> (r: Result<
        bool,
        StoreError,
    >)
        ensures
            r == Ok::<bool, StoreError>(true) ==> !old(self).reservations().contains_key(ip)
                && final(self).reservations() == old(self).reservations().insert(
                ip,
                (id@, ifname@),
            ) && final(self).last_reserved() == old(self).last_reserved().insert(range_id@, ip),
            r == Ok::<bool, StoreError>(false) ==> old(self).reservations().contains_key(ip)
                && final(self).reservations() == old(self).reservations()
                && final(self).last_reserved() == old(self).last_reserved(),
    ;

    /// The address most recently recorded for `range_id`, if one was
    /// recorded and could be read back.
    fn last_reserved_ip(&self, range_id: &str) -> (r: Result<IpAddress, StoreError>)
        ensures
            r matches Ok(ip) ==> self.last_reserved().contains_key(range_id@) && ip
                == self.last_reserved()[range_id@],
    ;

    /// Remove the claim on `ip`. Releasing an address that holds no claim is
    /// a no-op, so teardown can be retried safely.
    fn release(&mut self, ip: IpAddress) -> (r: Result<(), StoreError>)
        ensures
            r is Ok ==> final(self).reservations() == old(self).reservations().remove(ip)
                && final(self).last_reserved() == old(self).last_reserved(),
    ;

    /// Remove every claim held by (id, ifname); a no-op when there is none.
    fn release_by_id(&mut self, id: &str, ifname: &str) -> (r: Result<(), StoreError>)
        ensures
            r is Ok ==> final(self).reservations() == old(self).reservations().remove_keys(
                owned_ips(old(self).reservations(), id@, ifname@),
            )
                && final(self).last_reserved() == old(self).last_reserved(),
    ;

    /// Every address currently claimed by (id, ifname).
    fn get_by_id(&self, id: &str, ifname: &str) -> (r: Vec<IpAddress>)
        ensures
            forall|ip: IpAddress|
                r@.contains(ip) <==> (self.reservations().contains_key(ip)
                    && self.reservations()[ip] == (id@, ifname@)),
    ;
}

/// Releasing an owner's claims is idempotent: one release leaves nothing of
/// that owner in the ledger, so releasing again removes nothing and the
/// ledger stands unchanged.
pub proof fn lemma_release_by_id_idempotent(
    m: Map<IpAddress, (Seq<char>, Seq<char>)>,
    id: Seq<char>,
    ifname: Seq<char>,
)
    ensures
        ({
            let once = m.remove_keys(owned_ips(m, id, ifname));
            &&& owned_ips(once, id, ifname) =~= Set::<IpAddress>::empty()
            &&& once.remove_keys(owned_ips(once, id, ifname)) =~= once
        }),
{
    let once = m.remove_keys(owned_ips(m, id, ifname));
    assert forall|ip: IpAddress| !(#[trigger] owned_ips(once, id, ifname).contains(ip)) by {
        if once.contains_key(ip) {
            assert(!owned_ips(m, id, ifname).contains(ip));
            assert(once[ip] == m[ip]);
        }
    }
}

/// The on-disk layout of the file-backed store: under one data directory,
/// one file per claimed address and one marker file per range identifier.
/// Only the path arithmetic lives here; the I/O around it cannot be verified
/// and belongs to the embedding application.
pub struct FileStore {
    data_dir: String,
}

impl FileStore {
    /// The directory all of this store's files live in.
    pub closed spec fn dir(self) -> Seq<char> {
        self.data_dir@
    }

    pub fn new(data_dir: String) -> (r: FileStore)
        ensures
            r.dir() == data_dir@,
    {
        FileStore { data_dir }
    }

    /// The layout of one network's store: the given base directory — or the
    /// conventional default when none is given — with the network's name
    /// appended.
    pub fn for_network(base: &str, network: &str) -> (r: FileStore)
        ensures
            base@.len() > 0 ==> r.dir() == base@ + "/"@ + network@,
            base@.len() == 0 ==> r.dir() == "/var/lib/cni/networks"@ + "/"@ + network@,
    {
        let mut dir: String = if base.is_empty() {
            "/var/lib/cni/networks".to_owned()
        } else {
            base.to_owned()
        };
        dir.append("/");
        dir.append(network);
        FileStore { data_dir: dir }
    }

    /// The directory all of this store's files live in, as text.
    pub fn dir_str(&self) -> (r: &str)
        ensures
            r@ == self.dir(),
    {
        self.data_dir.as_str()
    }

    /// The path of the file recording the last handed-out address of one
    /// range: `<data_dir>/last_reserved_ip.<range_id>`.
    pub fn get_last_reserved_ip_filepath(&self, range_id: &str) -> (r: String)
        ensures
            r@ == self.dir() + "/last_reserved_ip."@ + range_id@,
    {
        let mut path: String = self.data_dir.as_str().to_owned();
        path.append("/last_reserved_ip.");
        path.append(range_id);
        path
    }

    /// The path of the file that claims one address, named by the address's
    /// text: `<data_dir>/<ip_text>`.
    pub fn get_claim_filepath(&self, ip_text: &str) -> (r: String)
        ensures
            r@ == self.dir() + "/"@ + ip_text@,
    {
        let mut path: String = self.data_dir.as_str().to_owned();
        path.append("/");
        path.append(ip_text);
        path
    }
}

} // verus!
