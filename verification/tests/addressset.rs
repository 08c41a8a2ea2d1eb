use ips::addressset::AddressSet;
use ips::Ipv4Net;

fn net(s: &str) -> Ipv4Net {
    s.parse().unwrap()
}

#[test]
fn addressset_test_contains_host() {
    let a = AddressSet::from_ip("192.168.1.1".parse().unwrap());
    assert!(a.contains_ip("192.168.1.1".parse().unwrap()));
    assert!(!a.contains_ip("192.168.1.2".parse().unwrap()));
}

#[test]
fn addressset_test_contains_cidr() {
    let a = AddressSet::from_cidr("192.168.1.0/24".parse().unwrap());
    assert!(a.contains_ip("192.168.1.10".parse().unwrap()));
    assert!(a.contains_ip("192.168.1.255".parse().unwrap()));
    assert!(!a.contains_ip("192.168.2.1".parse().unwrap()));
}

#[test]
fn addressset_test_range_contains() {
    let a = AddressSet::from_range(
        "192.168.1.10".parse().unwrap(),
        "192.168.1.20".parse().unwrap(),
    );

    assert!(a.contains_ip("192.168.1.10".parse().unwrap()));
    assert!(a.contains_ip("192.168.1.15".parse().unwrap()));
    assert!(a.contains_ip("192.168.1.20".parse().unwrap()));
    assert!(!a.contains_ip("192.168.1.21".parse().unwrap()));
}

#[test]
fn test_contains() {
    let a = AddressSet::from_cidr("192.168.1.0/24".parse().unwrap());
    let b = AddressSet::from_cidr("192.168.1.128/25".parse().unwrap());
    assert!(a.contains(&b));
    assert!(!b.contains(&a));
}

#[test]
fn addressset_test_host_subset() {
    let a = AddressSet::from_cidr("192.168.1.0/24".parse().unwrap());
    let b = AddressSet::from_ip("192.168.1.1".parse().unwrap());
    assert!(a.contains(&b));
}

#[test]
fn addressset_test_parse_ip() {
    let set = AddressSet::parse("192.168.1.1").unwrap();
    assert!(set.contains_ip("192.168.1.1".parse().unwrap()));
}

#[test]
fn addressset_test_parse_cidr() {
    let set = AddressSet::parse("192.168.1.0/24").unwrap();
    assert!(set.contains_ip("192.168.1.100".parse().unwrap()));
}

#[test]
fn addressset_test_parse_range() {
    let set = AddressSet::parse("192.168.1.10-192.168.1.20").unwrap();
    assert!(set.contains_ip("192.168.1.15".parse().unwrap()));
}

#[test]
fn test_parse_netmask() {
    let set = AddressSet::parse("10.0.0.1 255.255.255.0").unwrap();
    assert!(set.contains_ip("10.0.0.100".parse().unwrap()));
}

#[test]
fn test_invalid_netmask() {
    assert!(AddressSet::parse("10.0.0.0 255.0.255.0").is_err());
}

#[test]
fn addressset_test_parse_invalid() {
    assert!(AddressSet::parse("xxx").is_err());
}

#[test]
fn addressset_test_parse_reverse_range() {
    assert!(AddressSet::parse("192.168.1.20-192.168.1.10").is_err());
}

#[test]
fn test_normalize_remove_duplicates() {
    let mut s = AddressSet::from_cidrs(vec![net("10.0.0.0/24"), net("10.0.0.0/24")]);
    s.normalize();
    assert_eq!(s.cidrs().len(), 1);
}

#[test]
fn test_normalize_containment() {
    let mut s = AddressSet::from_cidrs(vec![net("10.0.0.0/16"), net("10.0.1.0/24")]);
    s.normalize();
    assert_eq!(s.cidrs().len(), 1);
    assert_eq!(s.cidrs()[0].to_string(), "10.0.0.0/16");
}

#[test]
fn test_normalize_merge_adjacent() {
    let mut s = AddressSet::from_cidrs(vec![net("192.168.1.0/25"), net("192.168.1.128/25")]);
    s.normalize();
    assert_eq!(s.cidrs().len(), 1);
    assert_eq!(s.cidrs()[0].to_string(), "192.168.1.0/24");
}

#[test]
fn test_normalize_order_independence() {
    let mut s = AddressSet::from_cidrs(vec![
        net("10.0.1.0/24"),
        net("10.0.0.0/16"),
        net("10.0.0.0/23"),
    ]);
    s.normalize();
    assert_eq!(s.cidrs().len(), 1);
    assert_eq!(s.cidrs()[0].to_string(), "10.0.0.0/16");
}

#[test]
fn normalize_removes_duplicate_networks() {
    let mut set = AddressSet::empty();
    set.insert(AddressSet::from_cidr("10.0.0.0/24".parse().unwrap()));
    set.insert(AddressSet::from_cidr("10.0.0.0/24".parse().unwrap()));
    set.normalize();
    assert_eq!(set.cidrs().len(), 1);
}

#[test]
fn normalize_removes_contained_networks() {
    let mut set = AddressSet::empty();
    set.insert(AddressSet::from_cidr("10.0.0.0/24".parse().unwrap()));
    set.insert(AddressSet::from_cidr("10.0.0.128/25".parse().unwrap()));
    set.normalize();
    assert_eq!(set.cidrs().len(), 1);
    assert_eq!(set.cidrs()[0].to_string(), "10.0.0.0/24");
}

#[test]
fn normalize_keeps_disjoint_networks() {
    let mut set = AddressSet::empty();
    set.insert(AddressSet::from_cidr("10.0.0.0/25".parse().unwrap()));
    set.insert(AddressSet::from_cidr("10.0.0.128/25".parse().unwrap()));
    set.normalize();
    assert_eq!(set.cidrs().len(), 1);
}
