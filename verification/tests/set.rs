use ips::AddressSet;

#[test]
fn lib_test_contains_host() {
    let a = AddressSet::from_ip("192.168.1.1".parse().unwrap());
    assert!(a.contains("192.168.1.1".parse().unwrap()));
    assert!(!a.contains("192.168.1.2".parse().unwrap()));
}

#[test]
fn lib_test_contains_cidr() {
    let a = AddressSet::from_cidr("192.168.1.0/24".parse().unwrap());
    assert!(a.contains("192.168.1.10".parse().unwrap()));
    assert!(a.contains("192.168.1.255".parse().unwrap()));
    assert!(!a.contains("192.168.2.1".parse().unwrap()));
}

#[test]
fn test_intersects_cidr() {
    let a = AddressSet::from_cidr("192.168.1.0/24".parse().unwrap());
    let b = AddressSet::from_cidr("192.168.1.128/25".parse().unwrap());
    assert!(a.intersects(&b));
}

#[test]
fn test_disjoint_cidr() {
    let a = AddressSet::from_cidr("192.168.1.0/25".parse().unwrap());
    let b = AddressSet::from_cidr("192.168.1.128/25".parse().unwrap());
    assert!(!a.intersects(&b));
}

#[test]
fn lib_test_range_contains() {
    let a = AddressSet::from_range(
        "192.168.1.10".parse().unwrap(),
        "192.168.1.20".parse().unwrap(),
    );
    assert!(a.contains("192.168.1.10".parse().unwrap()));
    assert!(a.contains("192.168.1.15".parse().unwrap()));
    assert!(a.contains("192.168.1.20".parse().unwrap()));
    assert!(!a.contains("192.168.1.21".parse().unwrap()));
}

#[test]
fn test_range_intersects() {
    let a = AddressSet::from_range(
        "192.168.1.10".parse().unwrap(),
        "192.168.1.20".parse().unwrap(),
    );
    let b = AddressSet::from_range(
        "192.168.1.15".parse().unwrap(),
        "192.168.1.30".parse().unwrap(),
    );
    assert!(a.intersects(&b));
}

#[test]
fn test_range_disjoint() {
    let a = AddressSet::from_range(
        "192.168.1.10".parse().unwrap(),
        "192.168.1.20".parse().unwrap(),
    );
    let b = AddressSet::from_range(
        "192.168.1.21".parse().unwrap(),
        "192.168.1.30".parse().unwrap(),
    );
    assert!(!a.intersects(&b));
}

#[test]
fn test_wildcard_contains() {
    let a = AddressSet::from_wildcard("10.0.0.0".parse().unwrap(), "0.0.0.255".parse().unwrap());
    assert!(a.contains("10.0.0.1".parse().unwrap()));
    assert!(a.contains("10.0.0.200".parse().unwrap()));
    assert!(!a.contains("10.0.1.1".parse().unwrap()));
}

#[test]
fn test_wildcard_intersects() {
    let a = AddressSet::from_wildcard("10.0.0.0".parse().unwrap(), "0.0.0.255".parse().unwrap());
    let b = AddressSet::from_cidr("10.0.0.128/25".parse().unwrap());
    assert!(a.intersects(&b));
}

#[test]
fn test_contains_set() {
    let a = AddressSet::from_cidr("192.168.1.0/24".parse().unwrap());
    let b = AddressSet::from_cidr("192.168.1.128/25".parse().unwrap());
    assert!(a.contains_set(&b));
    assert!(!b.contains_set(&a));
}

#[test]
fn lib_test_host_subset() {
    let a = AddressSet::from_cidr("192.168.1.0/24".parse().unwrap());
    let b = AddressSet::from_ip("192.168.1.1".parse().unwrap());
    assert!(a.contains_set(&b));
}

#[test]
fn lib_test_parse_ip() {
    let set = AddressSet::parse("192.168.1.1").unwrap();
    assert!(set.contains("192.168.1.1".parse().unwrap()));
}

#[test]
fn lib_test_parse_cidr() {
    let set = AddressSet::parse("192.168.1.0/24").unwrap();
    assert!(set.contains("192.168.1.100".parse().unwrap()));
}

#[test]
fn lib_test_parse_range() {
    let set = AddressSet::parse("192.168.1.10-192.168.1.20").unwrap();
    assert!(set.contains("192.168.1.15".parse().unwrap()));
}

#[test]
fn test_parse_wildcard() {
    let set = AddressSet::parse("10.0.0.0 0.0.0.255").unwrap();
    assert!(set.contains("10.0.0.100".parse().unwrap()));
}

#[test]
fn lib_test_parse_invalid() {
    assert!(AddressSet::parse("xxx").is_err());
}

#[test]
fn lib_test_parse_reverse_range() {
    assert!(AddressSet::parse("192.168.1.20-192.168.1.10").is_err());
}
