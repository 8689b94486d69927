use ipam::ip::IpAddress;
use ipam::range::Range;
use ipam::range::RangeError;
use ipam::subnet::IpNet;

fn v4(a: u8, b: u8, c: u8, d: u8) -> IpAddress {
    IpAddress::v4(a, b, c, d)
}

fn net4(a: u8, b: u8, c: u8, d: u8, prefix: u8) -> IpNet {
    IpNet::new(v4(a, b, c, d), prefix)
}

fn v6(s0: u16, s1: u16, s2: u16, s3: u16, s4: u16, s5: u16, s6: u16, s7: u16) -> IpAddress {
    IpAddress::v6(s0, s1, s2, s3, s4, s5, s6, s7)
}

#[test]
fn range_iter() {
    let range = Range::new(
        net4(10, 1, 0, 0, 16),
        Some(v4(10, 1, 0, 1)),
        Some(v4(10, 1, 0, 5)),
        Some(v4(10, 1, 0, 4)),
    )
    .unwrap();

    let mut iter = range.iter_free();

    assert_eq!(iter.next(), Some(IpNet { addr: v4(10, 1, 0, 1), prefix: 16 }));
    assert_eq!(iter.next(), Some(IpNet { addr: v4(10, 1, 0, 2), prefix: 16 }));
    assert_eq!(iter.next(), Some(IpNet { addr: v4(10, 1, 0, 3), prefix: 16 }));
    assert_eq!(iter.next(), Some(IpNet { addr: v4(10, 1, 0, 5), prefix: 16 }));
}

#[test]
fn range_iter_with_subnet_only() {
    let range = Range::new(net4(10, 1, 0, 0, 16), None, None, None).unwrap();

    let mut iter = range.iter_free();

    assert_eq!(iter.next(), Some(IpNet { addr: v4(10, 1, 0, 2), prefix: 16 }))
}

#[test]
fn range_iter_full_cycle_then_stops() {
    let range = Range::new(
        net4(10, 1, 0, 0, 16),
        Some(v4(10, 1, 0, 1)),
        Some(v4(10, 1, 0, 5)),
        Some(v4(10, 1, 0, 4)),
    )
    .unwrap();

    let mut iter = range.iter_free();
    let mut seen: Vec<IpAddress> = Vec::new();
    while let Some(candidate) = iter.next() {
        assert_eq!(candidate.prefix, 16);
        seen.push(candidate.addr);
    }
    assert_eq!(
        seen,
        vec![v4(10, 1, 0, 1), v4(10, 1, 0, 2), v4(10, 1, 0, 3), v4(10, 1, 0, 5)]
    );
    assert_eq!(iter.next(), None);
}

#[test]
fn canonicalize_small_network() {
    let network = net4(10, 1, 0, 0, 31);
    assert_eq!(
        Range::new(network, None, None, None),
        Err(RangeError::TooSmallNetwork(network))
    );

    let network = net4(10, 1, 0, 0, 32);
    assert_eq!(
        Range::new(network, None, None, None),
        Err(RangeError::TooSmallNetwork(network))
    );
}

#[test]
fn canonicalize_wrong_network() {
    let network = net4(2, 2, 2, 1, 16);

    assert_eq!(
        Range::new(network, None, None, None),
        Err(RangeError::WrongNetworkAddr(network, v4(2, 2, 0, 0)))
    );
}

#[test]
fn canonicalize_empty_gateway_ip() {
    let range = Range::new(net4(2, 2, 0, 0, 16), None, None, None).unwrap();
    assert_eq!(range.gateway, v4(2, 2, 0, 1));
}

#[test]
fn canonicalize_start() {
    let start = v4(2, 2, 0, 1);
    let range = Range::new(net4(2, 2, 0, 0, 16), Some(start), None, None).unwrap();
    assert_eq!(range.start, start);
}

#[test]
fn canonicalize_none_start() {
    let range = Range::new(net4(2, 2, 0, 0, 16), None, None, None).unwrap();
    assert_eq!(range.start, v4(2, 2, 0, 1));
}

#[test]
fn canonicalize_out_of_range_start() {
    let start = v4(2, 1, 255, 255);
    let subnet = net4(2, 2, 0, 0, 16);

    assert_eq!(
        Range::new(subnet, Some(start), None, None),
        Err(RangeError::OutOfRangeIp(subnet, start))
    );
}

#[test]
fn canonicalize_end() {
    let start = v4(2, 2, 0, 1);
    let end = v4(2, 2, 255, 254);
    let range = Range::new(net4(2, 2, 0, 0, 16), Some(start), Some(end), None).unwrap();

    assert_eq!(range.end, end);
}

#[test]
fn canonicalize_end_is_none() {
    let start = v4(2, 2, 0, 1);
    let range = Range::new(net4(2, 2, 0, 0, 16), Some(start), None, None).unwrap();

    assert_eq!(range.end, v4(2, 2, 255, 254));
}

#[test]
fn canonicalize_end_out_of_range() {
    let start = v4(2, 2, 0, 1);
    let end = v4(2, 3, 0, 1);
    let subnet = net4(2, 2, 0, 0, 16);

    assert_eq!(
        Range::new(subnet, Some(start), Some(end), None),
        Err(RangeError::OutOfRangeIp(subnet, end))
    );
}

#[test]
fn contains_ip() {
    let range = Range::new(net4(2, 2, 0, 0, 16), None, None, None).unwrap();

    assert!(range.contains(v4(2, 2, 0, 1)));
    assert!(range.contains(v4(2, 2, 255, 254)));
    assert!(!range.contains(v4(2, 1, 255, 255)));
    assert!(!range.contains(v4(2, 3, 0, 0)));

    let range = Range::new(
        net4(2, 2, 0, 0, 16),
        Some(v4(2, 2, 2, 100)),
        Some(v4(2, 2, 2, 105)),
        None,
    )
    .unwrap();

    assert!(range.contains(v4(2, 2, 2, 100)));
    assert!(range.contains(v4(2, 2, 2, 105)));

    assert!(!range.contains(v4(2, 2, 1, 99)));
    assert!(!range.contains(v4(2, 2, 2, 106)));
}

#[test]
fn overlaps() {
    let range = Range::new(net4(2, 0, 0, 0, 8), None, None, None).unwrap();
    let range2 = Range::new(net4(2, 2, 0, 0, 16), None, None, None).unwrap();
    assert!(range.overlaps(&range2));

    let range = Range::new(net4(2, 0, 0, 0, 8), None, None, None).unwrap();
    let range2 = Range::new(
        IpNet::new(v6(0x2001, 0xdb8, 0xabcd, 0x0012, 0, 0, 0, 0), 64),
        None,
        None,
        None,
    )
    .unwrap();
    assert!(!range.overlaps(&range2));

    let range = Range::new(net4(2, 2, 0, 0, 16), None, None, None).unwrap();
    let range2 = Range::new(net4(2, 3, 0, 0, 16), None, None, None).unwrap();
    assert!(!range.overlaps(&range2));

    // symmetry, both ways round
    let a = Range::new(net4(2, 0, 0, 0, 8), None, None, None).unwrap();
    let b = Range::new(net4(2, 2, 0, 0, 16), None, None, None).unwrap();
    assert_eq!(a.overlaps(&b), b.overlaps(&a));
}

#[test]
fn v6_range_defaults() {
    let subnet = IpNet::new(v6(0x2001, 0xdb8, 0xabcd, 0x0012, 0, 0, 0, 0), 64);
    let range = Range::new(subnet, None, None, None).unwrap();
    assert_eq!(range.start, v6(0x2001, 0xdb8, 0xabcd, 0x0012, 0, 0, 0, 1));
    assert_eq!(range.gateway, v6(0x2001, 0xdb8, 0xabcd, 0x0012, 0, 0, 0, 1));
    assert_eq!(
        range.end,
        v6(0x2001, 0xdb8, 0xabcd, 0x0012, 0xffff, 0xffff, 0xffff, 0xfffe)
    );
}

#[test]
fn v6_too_small_network() {
    let subnet = IpNet::new(v6(0x2001, 0xdb8, 0, 0, 0, 0, 0, 0), 127);
    assert_eq!(
        Range::new(subnet, None, None, None),
        Err(RangeError::TooSmallNetwork(subnet))
    );
}

#[test]
fn canonicalize_contradictory_bounds() {
    let subnet = net4(2, 2, 0, 0, 16);
    let start = v4(2, 2, 0, 5);
    let end = v4(2, 2, 0, 1);
    assert_eq!(
        Range::new(subnet, Some(start), Some(end), None),
        Err(RangeError::OutOfRangeIp(subnet, end))
    );

    // an explicit start above the default end (the subnet's last address
    // minus one) is contradictory too
    let top = v4(2, 2, 255, 255);
    assert_eq!(
        Range::new(subnet, Some(top), None, None),
        Err(RangeError::OutOfRangeIp(subnet, v4(2, 2, 255, 254)))
    );
}
