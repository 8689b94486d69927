use ipam::ip::IpAddress;

#[test]
fn v4_packs_octets_big_endian() {
    assert_eq!(IpAddress::v4(10, 1, 0, 5), IpAddress::V4(0x0A010005));
    assert_eq!(IpAddress::v4(255, 255, 255, 255), IpAddress::V4(u32::MAX));
    assert_eq!(IpAddress::v4(0, 0, 0, 0), IpAddress::V4(0));
}

#[test]
fn v6_packs_groups_big_endian() {
    assert_eq!(
        IpAddress::v6(0x2001, 0x0db8, 0, 0, 0, 0, 0, 1),
        IpAddress::V6(0x2001_0db8_0000_0000_0000_0000_0000_0001)
    );
}

#[test]
fn families_never_mix() {
    let four = IpAddress::v4(1, 2, 3, 4);
    let six = IpAddress::v6(0, 0, 0, 0, 0, 0, 0x0102, 0x0304);
    assert!(four.is_ipv4());
    assert!(!four.is_ipv6());
    assert!(six.is_ipv6());
    assert!(!six.is_ipv4());
    assert!(!four.same_family(&six));
    // equal numeric values in different families are different addresses
    assert_eq!(four.value_u128(), six.value_u128());
    assert_ne!(four, six);
}

#[test]
fn successor_increments_the_value() {
    assert_eq!(IpAddress::v4(10, 0, 0, 255).successor(), IpAddress::v4(10, 0, 1, 0));
    assert_eq!(
        IpAddress::V6(0xffff).successor(),
        IpAddress::V6(0x10000)
    );
}
