use ipam::ip::IpAddress;
use ipam::memstore::MemStore;
use ipam::store::FileStore;
use ipam::store::Store;

fn v4(a: u8, b: u8, c: u8, d: u8) -> IpAddress {
    IpAddress::v4(a, b, c, d)
}

#[test]
fn reserve_and_last_reserved_ip() {
    let mut store = MemStore::new();

    let id = "123456";
    let ifname = "enp2s0";
    let ip = v4(2, 2, 2, 2);
    let range_id = "1";

    let result = store.reserve(id, ifname, ip, range_id);
    assert!(result.unwrap(), "{:?} should be reserved", ip);

    let result = store.reserve(id, ifname, ip, range_id);
    assert!(!result.unwrap(), "{:?} should not be reserved again", ip);

    let result = store.last_reserved_ip(range_id);
    assert_eq!(result.unwrap(), ip);

    assert!(
        store.last_reserved_ip("2").is_err(),
        "an error should be reported for a range with no record"
    );

    let ips = store.get_by_id(id, ifname);
    assert_eq!(ips.len(), 1);
    assert_eq!(ips[0], ip);

    assert!(store.release(ip).is_ok());
    let ips = store.get_by_id(id, ifname);
    assert_eq!(ips.len(), 0);
}

#[test]
fn reserve_is_exclusive_across_owners() {
    let mut store = MemStore::new();
    let ip = v4(2, 2, 2, 2);

    assert!(store.reserve("123456", "eth0", ip, "1").unwrap());
    // a different owner must not get the same address
    assert!(!store.reserve("777777", "eth1", ip, "1").unwrap());
    assert_eq!(store.last_reserved_ip("1").unwrap(), ip);
}

#[test]
fn release_by_id() {
    let mut store = MemStore::new();

    let id = "123456";
    let ifname = "enp2s0";
    let ip = v4(2, 2, 2, 2);
    let range_id = "1";

    let result = store.reserve(id, ifname, ip, range_id);
    assert!(result.unwrap(), "{:?} should be reserved", ip);

    assert!(store.release_by_id(id, ifname).is_ok());
    assert_eq!(store.get_by_id(id, ifname).len(), 0);
}

#[test]
fn release_by_id_is_idempotent() {
    let mut store = MemStore::new();
    let id = "123456";
    let ifname = "enp2s0";

    store.reserve(id, ifname, v4(2, 2, 2, 2), "1").unwrap();
    store.reserve(id, ifname, v4(2, 2, 2, 3), "1").unwrap();
    store.reserve("other", ifname, v4(2, 2, 2, 4), "1").unwrap();

    assert!(store.release_by_id(id, ifname).is_ok());
    assert_eq!(store.get_by_id(id, ifname).len(), 0);
    // releasing again, with nothing left to release, is a quiet no-op
    assert!(store.release_by_id(id, ifname).is_ok());
    assert_eq!(store.get_by_id(id, ifname).len(), 0);
    // the other owner's claim is untouched
    assert_eq!(store.get_by_id("other", ifname), vec![v4(2, 2, 2, 4)]);
}

#[test]
fn release_of_absent_claim_is_noop() {
    let mut store = MemStore::new();
    assert!(store.release(v4(9, 9, 9, 9)).is_ok());
}

#[test]
fn get_by_id_separates_interfaces() {
    let mut store = MemStore::new();
    store.reserve("abc", "eth0", v4(10, 0, 0, 1), "0").unwrap();
    store.reserve("abc", "eth1", v4(10, 0, 0, 2), "0").unwrap();

    assert_eq!(store.get_by_id("abc", "eth0"), vec![v4(10, 0, 0, 1)]);
    assert_eq!(store.get_by_id("abc", "eth1"), vec![v4(10, 0, 0, 2)]);
    assert_eq!(store.get_by_id("abc", "eth2").len(), 0);
}

#[test]
fn last_reserved_ip_filepath() {
    let layout = FileStore::new("/var/lib/cni/networks/mynet".to_owned());
    assert_eq!(
        layout.get_last_reserved_ip_filepath("0"),
        "/var/lib/cni/networks/mynet/last_reserved_ip.0"
    );
    assert_eq!(
        layout.get_claim_filepath("2.2.2.2"),
        "/var/lib/cni/networks/mynet/2.2.2.2"
    );
}

#[test]
fn network_data_dir_layout() {
    let layout = FileStore::for_network("/tmp/cni/networks", "test");
    assert_eq!(layout.dir_str(), "/tmp/cni/networks/test");

    // an empty base falls back to the conventional data directory
    let fallback = FileStore::for_network("", "test");
    assert_eq!(fallback.dir_str(), "/var/lib/cni/networks/test");
}
