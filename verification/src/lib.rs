//! Sets of IPv4 addresses written as single addresses, CIDR blocks, inclusive
//! ranges, netmask or wildcard pairs, with containment and overlap queries and
//! rendering of Cisco IOS style access-list rules.

pub mod net;
pub mod text;
pub mod cidr;
pub mod ipparse;
pub mod addressset;
pub mod blockset;
pub mod cisco;

pub use blockset::AddressSet;
pub use ipparse::{ParseError, ParsedAddress};
pub use net::{Ipv4Addr, Ipv4Net};
