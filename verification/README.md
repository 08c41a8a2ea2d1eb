# ips

Sets of IPv4 addresses written as single addresses (`192.168.1.1`), CIDR
blocks (`192.168.1.0/24`), inclusive ranges (`192.168.1.10-192.168.1.20`),
address-and-netmask pairs (`10.0.0.0 255.255.255.0`) or
address-and-wildcard pairs (`10.0.0.0 0.0.0.255`), with membership, overlap
and subset queries, and rendering of Cisco IOS style access-list rules.

The library in `src/` is formally verified:

- `net`: addresses, CIDR networks, their text forms.
- `text`: whitespace, trimming, splitting, and the dotted-quad and
  `address/length` grammars, with verified scanners.
- `cidr`: nesting of blocks and the decomposition of a range into blocks.
- `ipparse`: reading the notations above.
- `addressset`: a set kept in a normal form (sorted, disjoint, nothing left
  to join), with the proofs that normalizing keeps the addresses, that the
  normal form is unique and has the fewest blocks, and that the subset test
  is exact on sets in normal form.
- `blockset`: a set kept as the blocks it was built from (the crate root's
  `AddressSet`), with overlap and subset queries.
- `cisco`: access-list rule rendering.

`app/` holds conversions to and from `std::net` and `ipnet` types and the
printing of rules.
