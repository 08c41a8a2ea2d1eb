use ips::addressset::AddressSet as NormalSet;
use ips::cisco::{pairs, render, render_addr, render_rule, Action, Protocol};
use ips::ipparse::{parse, parse_wildcard, ParseError, ParsedAddress};
use ips::net::{parse_ipv4, parse_net};
use ips::{AddressSet, Ipv4Addr, Ipv4Net};

fn ip(s: &str) -> Ipv4Addr {
    s.parse().unwrap()
}

fn net(s: &str) -> Ipv4Net {
    s.parse().unwrap()
}

#[test]
fn action_and_protocol_keywords() {
    assert_eq!(Action::Permit.as_str(), "permit");
    assert_eq!(Action::Deny.as_str(), "deny");
    assert_eq!(Protocol::Ip.as_str(), "ip");
    assert_eq!(Protocol::Tcp.as_str(), "tcp");
    assert_eq!(Protocol::Udp.as_str(), "udp");
    assert_eq!(Protocol::Icmp.as_str(), "icmp");
}

#[test]
fn render_addr_host_and_network() {
    assert_eq!(render_addr(&net("1.1.1.1/32")), "host 1.1.1.1");
    assert_eq!(render_addr(&net("192.168.1.0/24")), "192.168.1.0 0.0.0.255");
    assert_eq!(render_addr(&net("10.1.2.3/8")), "10.0.0.0 0.255.255.255");
    assert_eq!(render_addr(&net("0.0.0.0/0")), "0.0.0.0 255.255.255.255");
}

#[test]
fn render_rule_line() {
    let line = render_rule(Action::Deny, Protocol::Tcp, &net("10.0.0.0/24"), &net("192.168.2.10/32"));
    assert_eq!(line, "deny tcp 10.0.0.0 0.0.0.255 host 192.168.2.10");
}

#[test]
fn pairs_in_order() {
    let mut set = NormalSet::empty();
    set.insert(NormalSet::parse("10.0.0.1/32").unwrap());
    set.insert(NormalSet::parse("10.0.0.3/32").unwrap());
    let srcs = vec![set];
    let dsts = vec![
        NormalSet::parse("192.168.1.0/24").unwrap(),
        NormalSet::parse("192.168.2.10").unwrap(),
    ];
    let p = pairs(&srcs, &dsts);
    assert_eq!(p.len(), 4);
    assert_eq!(p[0].0.to_string(), "10.0.0.1/32");
    assert_eq!(p[0].1.to_string(), "192.168.1.0/24");
    assert_eq!(p[1].1.to_string(), "192.168.2.10/32");
    assert_eq!(p[3].0.to_string(), "10.0.0.3/32");
}

#[test]
fn render_rules_for_sets() {
    let srcs = [NormalSet::from_ip(ip("1.1.1.1"))];
    let dsts = [
        NormalSet::from_ip(ip("2.2.2.2")),
        NormalSet::parse("192.168.2.22 255.255.255.254").unwrap(),
    ];
    let rules = render(Action::Permit, Protocol::Ip, &srcs, &dsts);
    assert_eq!(rules.len(), 2);
    assert_eq!(rules[0], "permit ip host 1.1.1.1 host 2.2.2.2");
    assert_eq!(rules[1], "permit ip host 1.1.1.1 192.168.2.22 0.0.0.1");
}

#[test]
fn parse_errors_by_kind() {
    assert_eq!(parse("1.2.3.4-5.6.7"), Err(ParseError::InvalidRange));
    assert_eq!(parse("10.0.0.9-10.0.0.1"), Err(ParseError::InvalidRange));
    assert_eq!(parse("10.0.0.0 255.0.255.0"), Err(ParseError::InvalidNetmask));
    assert_eq!(parse("10.0.0.0 255.255.0.0 extra"), Err(ParseError::InvalidNetmask));
    assert_eq!(parse("10.0.0.0 mask"), Err(ParseError::InvalidNetmask));
    assert_eq!(parse("hello"), Err(ParseError::InvalidFormat));
    assert_eq!(parse("   "), Err(ParseError::InvalidFormat));
}

#[test]
fn parse_trims_and_reads_values() {
    assert_eq!(parse("  10.0.0.1\t"), Ok(ParsedAddress::Ip(ip("10.0.0.1"))));
    assert_eq!(
        parse(" 10.0.0.1 - 10.0.0.9 "),
        Ok(ParsedAddress::Range(ip("10.0.0.1"), ip("10.0.0.9")))
    );
    assert_eq!(
        parse("10.0.0.0   255.255.0.0"),
        Ok(ParsedAddress::Netmask(ip("10.0.0.0"), ip("255.255.0.0")))
    );
    assert_eq!(
        parse_wildcard("10.0.0.0 0.0.255.255"),
        Ok(ParsedAddress::Wildcard(ip("10.0.0.0"), ip("0.0.255.255")))
    );
    assert_eq!(parse_wildcard("10.0.0.0 255.255.0.0"), Err(ParseError::InvalidNetmask));
}

#[test]
fn dotted_quad_grammar() {
    assert_eq!(parse_ipv4("255.255.255.255"), Some(Ipv4Addr(0xffff_ffff)));
    assert_eq!(parse_ipv4("0.0.0.0"), Some(Ipv4Addr(0)));
    assert_eq!(parse_ipv4("1.2.3.4"), Some(Ipv4Addr(0x0102_0304)));
    assert_eq!(parse_ipv4("01.2.3.4"), None);
    assert_eq!(parse_ipv4("256.2.3.4"), None);
    assert_eq!(parse_ipv4("1.2.3"), None);
    assert_eq!(parse_ipv4("1.2.3.4.5"), None);
    assert_eq!(parse_ipv4("1..3.4"), None);
    assert_eq!(parse_ipv4("1.2.3.4 "), None);
    assert_eq!(parse_ipv4("1.2.3.+4"), None);
}

#[test]
fn cidr_text_through_ipnet() {
    let n = parse_net("010.000.000.001/08").unwrap();
    assert_eq!(n.to_string(), "10.0.0.1/8");
    assert_eq!(n.prefix_len(), 8);
    assert_eq!(n.addr(), ip("10.0.0.1"));
    assert_eq!(n.network(), ip("10.0.0.0"));
    assert_eq!(n.broadcast(), ip("10.255.255.255"));
    assert!(parse_net("10.0.0.0/33").is_none());
    assert!(parse_net("10.0.0.0/123").is_none());
    assert!(parse_net("10.0.0.0").is_none());
    assert!(parse_net("10.0.0.0/8 ").is_none());
    assert_eq!(parse("010.0.0.0/8"), Ok(ParsedAddress::Cidr(net("10.0.0.0/8"))));
}

#[test]
fn ipv4_net_new_refuses_long_prefix() {
    assert!(Ipv4Net::new(ip("1.2.3.4"), 33).is_err());
    assert_eq!(Ipv4Net::new(ip("1.2.3.4"), 32).unwrap().to_string(), "1.2.3.4/32");
    assert_eq!(ip("192.168.0.1").to_string(), "192.168.0.1");
}

#[test]
fn normalize_is_idempotent() {
    let mut s = NormalSet::from_cidrs(vec![net("10.0.2.0/24"), net("10.0.0.0/23"), net("10.0.3.0/24")]);
    s.normalize();
    let first: Vec<String> = s.cidrs().iter().map(|n| n.to_string()).collect();
    assert_eq!(first, vec!["10.0.0.0/22".to_string()]);
    s.normalize();
    let second: Vec<String> = s.cidrs().iter().map(|n| n.to_string()).collect();
    assert_eq!(first, second);
}

#[test]
fn normalize_joins_the_two_halves_of_the_space() {
    let mut s = NormalSet::from_cidrs(vec![net("128.0.0.0/1"), net("0.0.0.0/1")]);
    s.normalize();
    assert_eq!(s.cidrs().len(), 1);
    assert_eq!(s.cidrs()[0].to_string(), "0.0.0.0/0");
}

#[test]
fn normalize_keeps_sorted_disjoint_blocks() {
    let mut s = NormalSet::from_cidrs(vec![net("10.0.0.8/29"), net("10.0.0.2/31"), net("10.0.0.4/30")]);
    s.normalize();
    let got: Vec<String> = s.cidrs().iter().map(|n| n.to_string()).collect();
    assert_eq!(got, vec!["10.0.0.2/31", "10.0.0.4/30", "10.0.0.8/29"]);
}

#[test]
fn insert_is_union() {
    let mut s = NormalSet::from_range(ip("10.0.0.0"), ip("10.0.0.5"));
    s.insert(NormalSet::from_range(ip("10.0.0.6"), ip("10.0.0.7")));
    assert_eq!(s.cidrs().len(), 1);
    assert_eq!(s.cidrs()[0].to_string(), "10.0.0.0/29");
    assert!(s.contains_ip(ip("10.0.0.7")));
    assert!(!s.contains_ip(ip("10.0.0.8")));
}

#[test]
fn subset_of_normal_set_is_exact() {
    let a = NormalSet::from_range(ip("10.0.0.0"), ip("10.0.0.255"));
    let b = NormalSet::from_range(ip("10.0.0.3"), ip("10.0.0.200"));
    assert!(a.contains(&b));
    let split = NormalSet::from_cidrs(vec![net("10.0.0.0/25"), net("10.0.0.128/25")]);
    assert!(!split.contains(&a));
    let mut joined = split.clone();
    joined.normalize();
    assert!(joined.contains(&a));
}

#[test]
fn host_of_single_address() {
    assert_eq!(NormalSet::from_ip(ip("10.0.0.1")).host(), Some(ip("10.0.0.1")));
    assert_eq!(NormalSet::parse("10.0.0.0/24").unwrap().host(), None);
    assert_eq!(NormalSet::empty().host(), None);
}

#[test]
fn netmask_set_ignores_host_bits() {
    let s = NormalSet::from_netmask(ip("10.1.2.3"), ip("255.255.0.0"));
    assert_eq!(s.cidrs()[0].to_string(), "10.1.0.0/16");
    let cidr = NormalSet::from_cidr(net("10.1.2.3/16"));
    assert_eq!(cidr.cidrs()[0].to_string(), "10.1.0.0/16");
}

#[test]
fn try_from_refuses_invalid_netmask() {
    assert!(NormalSet::try_from(ParsedAddress::Netmask(ip("10.0.0.0"), ip("255.0.255.0"))).is_err());
    let w = NormalSet::try_from(ParsedAddress::Wildcard(ip("10.0.0.0"), ip("0.0.0.255"))).unwrap();
    assert_eq!(w.cidrs()[0].to_string(), "10.0.0.0/24");
}

#[test]
fn intersects_is_symmetric_overlap() {
    let host = AddressSet::from_ip(ip("10.0.0.1"));
    let block = AddressSet::from_cidr(net("10.0.0.0/24"));
    assert!(host.intersects(&block));
    assert!(block.intersects(&host));
    let other = AddressSet::from_cidr(net("10.0.1.0/24"));
    assert!(!other.intersects(&block));
    assert!(!AddressSet::empty().intersects(&block));
}

#[test]
fn wildcard_and_netmask_pairs_agree() {
    let w = AddressSet::parse("10.0.0.0 0.0.0.255").unwrap();
    let n = NormalSet::parse("10.0.0.0 255.255.255.0").unwrap();
    for last in [0u32, 1, 128, 255] {
        let a = Ipv4Addr(0x0a00_0000 + last);
        assert_eq!(w.contains(a), n.contains_ip(a));
    }
    assert!(!w.contains(ip("10.0.1.0")));
    assert!(AddressSet::try_from(ParsedAddress::Netmask(ip("10.0.0.7"), ip("255.255.255.0")))
        .unwrap()
        .contains(ip("10.0.0.200")));
}

#[test]
fn range_from_reverse_bounds_is_empty() {
    let s = NormalSet::from_range(ip("10.0.0.9"), ip("10.0.0.1"));
    assert_eq!(s.cidrs().len(), 0);
    assert!(!AddressSet::from_range(ip("10.0.0.9"), ip("10.0.0.1")).contains(ip("10.0.0.5")));
}

#[test]
fn parse_trims_unicode_whitespace() {
    assert_eq!(parse("\u{3000}10.0.0.1\u{a0}\n"), Ok(ParsedAddress::Ip(ip("10.0.0.1"))));
    assert_eq!(
        parse("10.0.0.0\u{2003}255.0.0.0"),
        Err(ParseError::InvalidFormat)
    );
    assert_eq!(
        parse("10.0.0.0 \u{2003}255.0.0.0"),
        Ok(ParsedAddress::Netmask(ip("10.0.0.0"), ip("255.0.0.0")))
    );
}

#[test]
fn range_blocks_are_fewest_and_ordered() {
    let s = NormalSet::from_range(ip("10.0.0.10"), ip("10.0.0.20"));
    let got: Vec<String> = s.cidrs().iter().map(|n| n.to_string()).collect();
    assert_eq!(got, vec!["10.0.0.10/31", "10.0.0.12/30", "10.0.0.16/30", "10.0.0.20/32"]);
    let mut again = NormalSet::from_cidrs(s.cidrs().to_vec());
    again.normalize();
    assert_eq!(again.cidrs().len(), 4);
}

#[test]
fn text_forms_read_back() {
    for a in [0u32, 1, 0x0a00_0001, 0xc0a8_0101, 0xffff_ffff, 0x6464_6464] {
        let addr = Ipv4Addr(a);
        assert_eq!(parse_ipv4(&addr.to_string()), Some(addr));
        for p in [0u8, 7, 24, 32] {
            let n = Ipv4Net::new(addr, p).unwrap();
            assert_eq!(parse_net(&n.to_string()), Some(n));
        }
    }
}

#[test]
fn inserted_hosts_join_at_network_address() {
    let mut s = NormalSet::empty();
    s.insert(NormalSet::from_ip(ip("10.0.0.3")));
    s.insert(NormalSet::from_ip(ip("10.0.0.1")));
    s.insert(NormalSet::from_ip(ip("10.0.0.0")));
    assert_eq!(s.cidrs(), &[net("10.0.0.0/31"), net("10.0.0.3/32")][..]);
}

#[test]
fn try_from_matches_direct_constructors() {
    let r = NormalSet::try_from(ParsedAddress::Range(ip("10.0.0.1"), ip("10.0.0.9"))).unwrap();
    assert_eq!(r.cidrs(), NormalSet::from_range(ip("10.0.0.1"), ip("10.0.0.9")).cidrs());
    let c = NormalSet::try_from(ParsedAddress::Cidr(net("10.1.2.3/16"))).unwrap();
    assert_eq!(c.cidrs(), NormalSet::from_cidr(net("10.1.2.3/16")).cidrs());
    let m = NormalSet::try_from(ParsedAddress::Netmask(ip("10.1.2.3"), ip("255.255.0.0"))).unwrap();
    assert_eq!(m.cidrs(), NormalSet::from_netmask(ip("10.1.2.3"), ip("255.255.0.0")).cidrs());
    assert_eq!(m.cidrs()[0].to_string(), "10.1.0.0/16");
}

#[test]
fn built_sets_are_sorted_disjoint_and_at_network() {
    let mut s = NormalSet::parse("10.0.0.9-10.0.0.20").unwrap();
    s.insert(NormalSet::parse("10.0.0.0 255.255.255.248").unwrap());
    s.insert(NormalSet::parse("10.0.0.8/31").unwrap());
    let c = s.cidrs();
    for n in c {
        assert_eq!(n.addr(), n.network());
    }
    for w in c.windows(2) {
        assert!(w[0].broadcast().0 < w[1].network().0);
    }
    assert_eq!(c[0].to_string(), "10.0.0.0/28");
    assert_eq!(c.len(), 3);
}

#[test]
fn root_set_subset_is_exact() {
    let a = AddressSet::from_range(ip("10.0.0.1"), ip("10.0.0.6"));
    let b = AddressSet::from_range(ip("10.0.0.2"), ip("10.0.0.5"));
    assert!(a.contains_set(&b));
    let c = AddressSet::from_range(ip("10.0.0.0"), ip("10.0.0.5"));
    assert!(!a.contains_set(&c));
    assert_eq!(parse("  192.168.1.1 \t"), parse("192.168.1.1"));
}
