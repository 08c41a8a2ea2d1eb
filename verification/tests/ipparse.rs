use ips::ipparse::{is_valid_subnet_mask, parse, ParsedAddress};
use ips::Ipv4Addr;

#[test]
fn ipparse_test_parse_ip() {
    let result = parse("192.168.1.1").unwrap();
    assert!(matches!(result, ParsedAddress::Ip(_)));
}

#[test]
fn ipparse_test_parse_cidr() {
    let result = parse("192.168.1.0/24").unwrap();
    assert!(matches!(result, ParsedAddress::Cidr(_)));
}

#[test]
fn ipparse_test_parse_range() {
    let result = parse("192.168.1.10-192.168.1.20").unwrap();
    assert!(matches!(result, ParsedAddress::Range(_, _)));
}

#[test]
fn ipparse_test_parse_invalid() {
    assert!(parse("xxx").is_err());
}

#[test]
fn test_parse_empty() {
    assert!(parse("").is_err());
}

#[test]
fn ipparse_test_parse_reverse_range() {
    assert!(parse("192.168.1.20-192.168.1.10").is_err());
}

#[test]
fn test_parse_invalid_range_start() {
    assert!(parse("aaa-192.168.1.10").is_err());
}

#[test]
fn test_parse_invalid_range_end() {
    assert!(parse("192.168.1.10-bbb").is_err());
}

#[test]
fn test_parse_too_many_parts() {
    assert!(parse("10.0.0.0/8 extra").is_err());
}

#[test]
fn test_parse_ip_exact_value() {
    let result = parse("192.168.1.1").unwrap();
    match result {
        ParsedAddress::Ip(ip) => {
            assert_eq!(ip, "192.168.1.1".parse::<Ipv4Addr>().unwrap());
        }
        _ => panic!(),
    }
}

#[test]
fn test_parse_cidr_exact_value() {
    let result = parse("192.168.1.0/24").unwrap();
    match result {
        ParsedAddress::Cidr(net) => {
            assert_eq!(net.to_string(), "192.168.1.0/24");
        }
        _ => panic!(),
    }
}

#[test]
fn test_valid_subnet_masks() {
    assert!(is_valid_subnet_mask("255.0.0.0".parse().unwrap()));
    assert!(is_valid_subnet_mask("255.255.0.0".parse().unwrap()));
    assert!(is_valid_subnet_mask("255.255.255.0".parse().unwrap()));
    assert!(is_valid_subnet_mask("255.255.255.255".parse().unwrap()));
    assert!(is_valid_subnet_mask("0.0.0.0".parse().unwrap()));
}

#[test]
fn test_invalid_subnet_masks() {
    assert!(!is_valid_subnet_mask("255.0.255.0".parse().unwrap()));
    assert!(!is_valid_subnet_mask("255.255.0.255".parse().unwrap()));
    assert!(!is_valid_subnet_mask("255.0.255.255".parse().unwrap()));
}
