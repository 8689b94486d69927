use ipam::allocator::u32_to_decimal;
use ipam::allocator::AllocateError;
use ipam::allocator::Allocator;
use ipam::ip::IpAddress;
use ipam::memstore::MemStore;
use ipam::range::Range;
use ipam::rangeset::RangeSet;
use ipam::rangeset::RangeSetError;
use ipam::store::Store;
use ipam::subnet::IpNet;

fn v4(a: u8, b: u8, c: u8, d: u8) -> IpAddress {
    IpAddress::v4(a, b, c, d)
}

fn net4(a: u8, b: u8, c: u8, d: u8, prefix: u8) -> IpNet {
    IpNet::new(v4(a, b, c, d), prefix)
}

fn small_range_set() -> RangeSet {
    let mut ranges = RangeSet::new();
    let r1 = Range::new(
        net4(10, 1, 0, 0, 16),
        Some(v4(10, 1, 0, 1)),
        Some(v4(10, 1, 0, 5)),
        Some(v4(10, 1, 0, 4)),
    )
    .unwrap();
    ranges.add(r1).unwrap();
    ranges
}

#[test]
fn decimal_rendering() {
    assert_eq!(u32_to_decimal(0), "0");
    assert_eq!(u32_to_decimal(1), "1");
    assert_eq!(u32_to_decimal(42), "42");
    assert_eq!(u32_to_decimal(305), "305");
    assert_eq!(u32_to_decimal(4294967295), "4294967295");
}

#[test]
fn get_walks_the_range_in_order() {
    let mut alloc = Allocator::new(small_range_set(), MemStore::new(), 0);

    let first = alloc.get("id-1", "eth0", None).unwrap();
    assert_eq!(first.address, IpNet { addr: v4(10, 1, 0, 1), prefix: 16 });
    assert_eq!(first.gateway, v4(10, 1, 0, 4));
    assert_eq!(first.interface, None);

    let second = alloc.get("id-2", "eth0", None).unwrap();
    assert_eq!(second.address.addr, v4(10, 1, 0, 2));

    let third = alloc.get("id-3", "eth0", None).unwrap();
    assert_eq!(third.address.addr, v4(10, 1, 0, 3));

    // the gateway is skipped
    let fourth = alloc.get("id-4", "eth0", None).unwrap();
    assert_eq!(fourth.address.addr, v4(10, 1, 0, 5));

    let exhausted = alloc.get("id-5", "eth0", None);
    assert_eq!(exhausted, Err(AllocateError::IpExhausted));
}

#[test]
fn get_requested_gateway_fails() {
    let mut alloc = Allocator::new(small_range_set(), MemStore::new(), 0);

    let result = alloc.get("id-1", "eth0", Some(v4(10, 1, 0, 4)));
    assert_eq!(result, Err(AllocateError::GatewayIp(v4(10, 1, 0, 4))));
}

#[test]
fn get_requested_address() {
    let mut alloc = Allocator::new(small_range_set(), MemStore::new(), 0);

    let got = alloc.get("id-1", "eth0", Some(v4(10, 1, 0, 3))).unwrap();
    assert_eq!(got.address, IpNet { addr: v4(10, 1, 0, 3), prefix: 16 });
    assert_eq!(got.gateway, v4(10, 1, 0, 4));

    // the same address cannot be handed out twice
    let again = alloc.get("id-2", "eth0", Some(v4(10, 1, 0, 3)));
    assert_eq!(again, Err(AllocateError::IpNotAvailable(v4(10, 1, 0, 3))));
}

#[test]
fn get_requested_outside_ranges_fails() {
    let mut alloc = Allocator::new(small_range_set(), MemStore::new(), 0);

    let result = alloc.get("id-1", "eth0", Some(v4(192, 168, 0, 1)));
    assert_eq!(
        result,
        Err(AllocateError::RangeSetError(RangeSetError::NoRangeForIP(v4(192, 168, 0, 1))))
    );
}

#[test]
fn get_fails_when_store_is_full() {
    let mut store = MemStore::new();
    // every non-gateway address of the range is already claimed elsewhere
    store.reserve("other", "eth9", v4(10, 1, 0, 1), "0").unwrap();
    store.reserve("other", "eth9", v4(10, 1, 0, 2), "0").unwrap();
    store.reserve("other", "eth9", v4(10, 1, 0, 3), "0").unwrap();
    store.reserve("other", "eth9", v4(10, 1, 0, 5), "0").unwrap();

    let mut alloc = Allocator::new(small_range_set(), store, 0);
    let result = alloc.get("id-1", "eth0", None);
    assert_eq!(result, Err(AllocateError::IpExhausted));
}

#[test]
fn get_resumes_after_last_reserved() {
    let mut store = MemStore::new();
    // the round-robin marker for range 0 points at 10.1.0.2
    store.reserve("other", "eth9", v4(10, 1, 0, 2), "0").unwrap();

    let mut alloc = Allocator::new(small_range_set(), store, 0);
    let got = alloc.get("id-1", "eth0", None).unwrap();
    assert_eq!(got.address.addr, v4(10, 1, 0, 3));
}

#[test]
fn get_detects_stale_record() {
    let mut store = MemStore::new();
    // a claim from an old configuration, outside every current range
    store.reserve("id-1", "eth0", v4(9, 9, 9, 9), "0").unwrap();

    let mut alloc = Allocator::new(small_range_set(), store, 0);
    let result = alloc.get("id-1", "eth0", None);
    assert_eq!(
        result,
        Err(AllocateError::DuplicateAllocation(v4(9, 9, 9, 9), "id-1".to_owned()))
    );
}

#[test]
fn release_frees_addresses_for_reuse() {
    let mut alloc = Allocator::new(small_range_set(), MemStore::new(), 0);

    let got = alloc.get("id-1", "eth0", Some(v4(10, 1, 0, 1))).unwrap();
    assert_eq!(got.address.addr, v4(10, 1, 0, 1));

    assert!(alloc.release("id-1", "eth0").is_ok());
    // releasing again is a no-op, not an error
    assert!(alloc.release("id-1", "eth0").is_ok());

    let again = alloc.get("id-2", "eth0", Some(v4(10, 1, 0, 1))).unwrap();
    assert_eq!(again.address.addr, v4(10, 1, 0, 1));
}
