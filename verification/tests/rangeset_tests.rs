use ipam::ip::IpAddress;
use ipam::range::Range;
use ipam::rangeset::RangeSet;
use ipam::rangeset::RangeSetError;
use ipam::subnet::IpNet;

fn v4(a: u8, b: u8, c: u8, d: u8) -> IpAddress {
    IpAddress::v4(a, b, c, d)
}

fn net4(a: u8, b: u8, c: u8, d: u8, prefix: u8) -> IpNet {
    IpNet::new(v4(a, b, c, d), prefix)
}

fn v6(s0: u16, s1: u16, s2: u16, s3: u16, s4: u16, s5: u16, s6: u16, s7: u16) -> IpAddress {
    IpAddress::v6(s0, s1, s2, s3, s4, s5, s6, s7)
}

#[test]
fn rangeset_add() {
    let mut ranges = RangeSet::new();

    let r1 = Range::new(
        net4(10, 1, 0, 0, 16),
        Some(v4(10, 1, 0, 1)),
        Some(v4(10, 1, 0, 5)),
        Some(v4(10, 1, 0, 4)),
    )
    .unwrap();

    assert!(ranges.add(r1).is_ok());

    let r2 = Range::new(
        net4(10, 1, 0, 0, 16),
        Some(v4(10, 1, 0, 6)),
        Some(v4(10, 1, 0, 11)),
        Some(v4(10, 1, 0, 7)),
    )
    .unwrap();
    assert!(ranges.add(r2).is_ok());

    let r3 = Range::new(
        net4(10, 1, 0, 0, 16),
        Some(v4(10, 1, 0, 9)),
        Some(v4(10, 1, 0, 15)),
        Some(v4(10, 1, 0, 15)),
    )
    .unwrap();

    assert_eq!(ranges.add(r3), Err(RangeSetError::Overlap(r2, r3)));

    let r4 = Range::new(
        IpNet::new(v6(0x2001, 0xdb8, 0xabcd, 0x0012, 0, 0, 0, 0), 64),
        None,
        None,
        None,
    )
    .unwrap();
    assert_eq!(ranges.add(r4), Err(RangeSetError::DifferentAddressType));
}

#[test]
fn rangeset_add_rejects_overlap_in_either_order() {
    let outer = Range::new(net4(2, 0, 0, 0, 8), None, None, None).unwrap();
    let inner = Range::new(net4(2, 2, 0, 0, 16), None, None, None).unwrap();

    let mut first_outer = RangeSet::new();
    first_outer.add(outer).unwrap();
    assert_eq!(first_outer.add(inner), Err(RangeSetError::Overlap(outer, inner)));

    let mut first_inner = RangeSet::new();
    first_inner.add(inner).unwrap();
    assert_eq!(first_inner.add(outer), Err(RangeSetError::Overlap(inner, outer)));
}

#[test]
fn get_range_for_ip() {
    let mut ranges = RangeSet::new();
    let r1 = Range::new(
        net4(10, 1, 0, 0, 16),
        Some(v4(10, 1, 0, 1)),
        Some(v4(10, 1, 0, 5)),
        Some(v4(10, 1, 0, 4)),
    )
    .unwrap();

    ranges.add(r1).unwrap();

    let r2 = Range::new(
        net4(10, 1, 0, 0, 16),
        Some(v4(10, 1, 0, 6)),
        Some(v4(10, 1, 0, 11)),
        Some(v4(10, 1, 0, 7)),
    )
    .unwrap();
    ranges.add(r2).unwrap();

    let ip = v4(10, 1, 0, 2);
    assert_eq!(ranges.get_range_for_ip(ip), Ok(r1));

    let ip = v4(10, 1, 0, 10);
    assert_eq!(ranges.get_range_for_ip(ip), Ok(r2));

    let ip = v4(10, 1, 0, 12);
    assert_eq!(ranges.get_range_for_ip(ip), Err(RangeSetError::NoRangeForIP(ip)));
}

#[test]
fn contains() {
    let mut ranges = RangeSet::new();
    let r1 = Range::new(
        net4(10, 1, 0, 0, 16),
        Some(v4(10, 1, 0, 1)),
        Some(v4(10, 1, 0, 5)),
        Some(v4(10, 1, 0, 4)),
    )
    .unwrap();

    ranges.add(r1).unwrap();

    let r2 = Range::new(
        net4(10, 1, 0, 0, 16),
        Some(v4(10, 1, 0, 6)),
        Some(v4(10, 1, 0, 11)),
        Some(v4(10, 1, 0, 7)),
    )
    .unwrap();
    ranges.add(r2).unwrap();

    assert!(ranges.contains(v4(10, 1, 0, 2)));
    assert!(ranges.contains(v4(10, 1, 0, 10)));
    assert!(!ranges.contains(v4(10, 1, 0, 12)));
}
