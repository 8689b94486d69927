use ipam::ip::IpAddress;
use ipam::range::Range;
use ipam::rangeiter::seed_iterator;
use ipam::rangeiter::RangeIter;
use ipam::rangeset::RangeSet;
use ipam::subnet::IpNet;

fn v4(a: u8, b: u8, c: u8, d: u8) -> IpAddress {
    IpAddress::v4(a, b, c, d)
}

fn net4(a: u8, b: u8, c: u8, d: u8, prefix: u8) -> IpNet {
    IpNet::new(v4(a, b, c, d), prefix)
}

#[test]
fn iter() {
    let mut ranges = RangeSet::new();

    let r1 = Range::new(
        net4(10, 1, 0, 0, 16),
        Some(v4(10, 1, 0, 1)),
        Some(v4(10, 1, 0, 5)),
        Some(v4(10, 1, 0, 4)),
    )
    .unwrap();

    let _ = ranges.add(r1);

    let mut ri = RangeIter { range_set: ranges, range_index: 0, current_ip: None, start_ip: None };

    let (ip_net, gateway) = ri.next().unwrap();
    assert_eq!(ip_net.addr, v4(10, 1, 0, 1));
    assert_eq!(ip_net.prefix, 16u8);
    assert_eq!(gateway, v4(10, 1, 0, 4));

    ri.next();
    ri.next();

    let (ip_net, _gateway) = ri.next().unwrap();
    assert_eq!(ip_net.addr, v4(10, 1, 0, 5));

    assert!(ri.next().is_none());
}

#[test]
fn iter_stays_exhausted() {
    let mut ranges = RangeSet::new();
    let r1 = Range::new(
        net4(10, 1, 0, 0, 30),
        None,
        None,
        None,
    )
    .unwrap();
    ranges.add(r1).unwrap();

    let mut ri = RangeIter { range_set: ranges, range_index: 0, current_ip: None, start_ip: None };

    // the /30 leaves 10.1.0.1 (gateway) and 10.1.0.2: one candidate
    let (ip_net, gateway) = ri.next().unwrap();
    assert_eq!(ip_net.addr, v4(10, 1, 0, 2));
    assert_eq!(gateway, v4(10, 1, 0, 1));
    assert!(ri.next().is_none());
    assert!(ri.next().is_none());
    assert!(ri.next().is_none());
}

#[test]
fn iter_resumes_after_seed_and_wraps() {
    let mut ranges = RangeSet::new();
    let r1 = Range::new(
        net4(10, 1, 0, 0, 16),
        Some(v4(10, 1, 0, 1)),
        Some(v4(10, 1, 0, 5)),
        Some(v4(10, 1, 0, 4)),
    )
    .unwrap();
    ranges.add(r1).unwrap();

    // resume after 10.1.0.3: expect 10.1.0.5 (4 is the gateway), then wrap
    // to 10.1.0.1, 10.1.0.2, 10.1.0.3, then stop for good
    let mut ri = RangeIter {
        range_set: ranges,
        range_index: 0,
        current_ip: Some(v4(10, 1, 0, 3)),
        start_ip: None,
    };

    let mut seen: Vec<IpAddress> = Vec::new();
    while let Some((ip_net, _)) = ri.next() {
        seen.push(ip_net.addr);
    }
    assert_eq!(
        seen,
        vec![v4(10, 1, 0, 5), v4(10, 1, 0, 1), v4(10, 1, 0, 2), v4(10, 1, 0, 3)]
    );
    assert!(ri.next().is_none());
}

#[test]
fn iter_crosses_ranges_in_order() {
    let mut ranges = RangeSet::new();
    let r1 = Range::new(
        net4(10, 1, 0, 0, 16),
        Some(v4(10, 1, 0, 1)),
        Some(v4(10, 1, 0, 2)),
        Some(v4(10, 1, 0, 1)),
    )
    .unwrap();
    let r2 = Range::new(
        net4(10, 1, 0, 0, 16),
        Some(v4(10, 1, 0, 6)),
        Some(v4(10, 1, 0, 7)),
        Some(v4(10, 1, 0, 9)),
    )
    .unwrap();
    ranges.add(r1).unwrap();
    ranges.add(r2).unwrap();

    let mut ri = RangeIter { range_set: ranges, range_index: 0, current_ip: None, start_ip: None };

    let mut seen: Vec<(IpAddress, IpAddress)> = Vec::new();
    while let Some((ip_net, gateway)) = ri.next() {
        seen.push((ip_net.addr, gateway));
    }
    assert_eq!(
        seen,
        vec![
            (v4(10, 1, 0, 2), v4(10, 1, 0, 1)),
            (v4(10, 1, 0, 6), v4(10, 1, 0, 9)),
            (v4(10, 1, 0, 7), v4(10, 1, 0, 9)),
        ]
    );
}

#[test]
fn seed_iterator_resumes_after_marker() {
    let mut ranges = RangeSet::new();
    let r1 = Range::new(
        net4(10, 1, 0, 0, 16),
        Some(v4(10, 1, 0, 1)),
        Some(v4(10, 1, 0, 5)),
        Some(v4(10, 1, 0, 4)),
    )
    .unwrap();
    ranges.add(r1).unwrap();

    let mut ri = seed_iterator(&ranges, Some(v4(10, 1, 0, 2)));
    let mut seen: Vec<IpAddress> = Vec::new();
    while let Some((ip_net, _)) = ri.next() {
        seen.push(ip_net.addr);
    }
    assert_eq!(
        seen,
        vec![v4(10, 1, 0, 3), v4(10, 1, 0, 5), v4(10, 1, 0, 1), v4(10, 1, 0, 2)]
    );
}

#[test]
fn seed_iterator_starts_fresh_without_usable_marker() {
    let mut ranges = RangeSet::new();
    let r1 = Range::new(
        net4(10, 1, 0, 0, 16),
        Some(v4(10, 1, 0, 1)),
        Some(v4(10, 1, 0, 5)),
        Some(v4(10, 1, 0, 4)),
    )
    .unwrap();
    ranges.add(r1).unwrap();

    // a marker outside every range is ignored
    let mut stale = seed_iterator(&ranges, Some(v4(9, 9, 9, 9)));
    let (first, _) = stale.next().unwrap();
    assert_eq!(first.addr, v4(10, 1, 0, 1));

    // and so is no marker at all
    let mut fresh = seed_iterator(&ranges, None);
    let (first, _) = fresh.next().unwrap();
    assert_eq!(first.addr, v4(10, 1, 0, 1));
}
