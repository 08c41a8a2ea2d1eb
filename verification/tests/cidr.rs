use ips::cidr::{cidr_overlap, range_to_cidrs};
use ips::{Ipv4Addr, Ipv4Net};

fn ip(s: &str) -> Ipv4Addr {
    s.parse().unwrap()
}

#[test]
fn cidr_overlap_same_network() {
    let a: Ipv4Net = "10.0.0.0/24".parse().unwrap();
    let b: Ipv4Net = "10.0.0.0/24".parse().unwrap();
    assert!(cidr_overlap(&a, &b));
}

#[test]
fn cidr_overlap_subset() {
    let a: Ipv4Net = "10.0.0.0/24".parse().unwrap();
    let b: Ipv4Net = "10.0.0.128/25".parse().unwrap();
    assert!(cidr_overlap(&a, &b));
}

#[test]
fn cidr_overlap_disjoint() {
    let a: Ipv4Net = "10.0.0.0/25".parse().unwrap();
    let b: Ipv4Net = "10.0.0.128/25".parse().unwrap();
    assert!(!cidr_overlap(&a, &b));
}

#[test]
fn range_single_host() {
    let cidrs = range_to_cidrs(ip("192.168.1.1"), ip("192.168.1.1"));
    assert_eq!(cidrs.len(), 1);
    assert_eq!(cidrs[0].to_string(), "192.168.1.1/32");
}

#[test]
fn range_simple_cidr() {
    let cidrs = range_to_cidrs(ip("192.168.1.0"), ip("192.168.1.255"));
    assert_eq!(cidrs.len(), 1);
    assert_eq!(cidrs[0].to_string(), "192.168.1.0/24");
}

#[test]
fn range_two_hosts() {
    let cidrs = range_to_cidrs(ip("10.0.0.0"), ip("10.0.0.1"));
    assert_eq!(cidrs.len(), 1);
    assert_eq!(cidrs[0].to_string(), "10.0.0.0/31");
}

#[test]
fn range_zero_address() {
    let cidrs = range_to_cidrs(ip("0.0.0.0"), ip("0.0.0.0"));
    assert_eq!(cidrs.len(), 1);
    assert_eq!(cidrs[0].to_string(), "0.0.0.0/32");
}

#[test]
fn range_full_ipv4_space() {
    let cidrs = range_to_cidrs(ip("0.0.0.0"), ip("255.255.255.255"));
    assert_eq!(cidrs.len(), 1);
    assert_eq!(cidrs[0].to_string(), "0.0.0.0/0");
}

#[test]
fn range_non_aligned() {
    let cidrs = range_to_cidrs(ip("10.0.0.10"), ip("10.0.0.20"));
    assert_eq!(cidrs.len(), 4);

    for addr in 10..=20 {
        assert!(cidrs
            .iter()
            .any(|n| { n.contains(&ip(&format!("10.0.0.{addr}"))) }));
    }

    assert!(!cidrs.iter().any(|n| { n.contains(&ip("10.0.0.21")) }));
}
