//! [`AddressSet`]: a set of IPv4 addresses kept as the CIDR blocks it was
//! built from, with membership, overlap and subset queries.

use vstd::prelude::*;
use crate::addressset::{lemma_normal_within, lemma_range_blocks_normal, lemma_range_blocks_unique, normal, pairwise_ok};
use crate::cidr::{cidr_overlap, covered, encloses, lemma_chain_covers, range_blocks, range_to_cidrs};
use crate::ipparse::{parse_spec, parse_wildcard, ParseError, ParsedAddress};
use crate::net::{
    contiguous_mask, lemma_block_bounds, lemma_contiguous_netmask, lemma_covers_mask, lemma_host_block,
    mask_len, Ipv4Addr, Ipv4Net,
};

verus! {

broadcast use Ipv4Net::lemma_from_parts, Ipv4Net::lemma_prefix_bound;

/// Blocks `a` and `b` share at least one address.
pub open spec fn overlaps(a: Ipv4Net, b: Ipv4Net) -> bool {
    a.first() <= b.last() && b.first() <= a.last()
}

/// Some block of `s` shares an address with block `b`.
pub open spec fn meets(s: Seq<Ipv4Net>, b: Ipv4Net) -> bool {
    exists|i: int| 0 <= i < s.len() && #[trigger] overlaps(s[i], b)
}

/// Some block of `s` holds block `b`.
pub open spec fn held(s: Seq<Ipv4Net>, b: Ipv4Net) -> bool {
    exists|i: int| 0 <= i < s.len() && #[trigger] encloses(s[i], b)
}

/// The addresses that a parsed notation denotes, a mask pair read as the
/// range from the base with the mask's host bits cleared to the base with
/// them set.
pub open spec fn notation_has(p: ParsedAddress, ip: u32) -> bool {
    match p {
        ParsedAddress::Ip(a) => ip == a.0,
        ParsedAddress::Cidr(n) => n.covers(ip),
        ParsedAddress::Range(a, b) => a.0 <= ip <= b.0,
        ParsedAddress::Netmask(b, m) => (b.0 & m.0) <= ip <= (b.0 | !m.0),
        ParsedAddress::Wildcard(b, w) => (b.0 & !w.0) <= ip <= (b.0 | w.0),
    }
}

/// `s` lists the blocks that the constructor for notation `p` builds: the
/// /32 block of an address, the network as written, the decomposition of a
/// range (none for a range whose start comes after its end), the
/// decomposition of the range of a mask pair.
pub open spec fn built_from(s: Seq<Ipv4Net>, p: ParsedAddress) -> bool {
    match p {
        ParsedAddress::Ip(a) => s == seq![Ipv4Net::from_parts(a.0, 32)],
        ParsedAddress::Cidr(n) => s == seq![n],
        ParsedAddress::Range(a, b) => if a.0 <= b.0 {
            range_blocks(s, a.0, b.0)
        } else {
            s.len() == 0
        },
        ParsedAddress::Netmask(b, m) => range_blocks(s, b.0 & m.0, b.0 | !m.0),
        ParsedAddress::Wildcard(b, w) => range_blocks(s, b.0 & !w.0, b.0 | w.0),
    }
}

/// A notation determines its blocks: two lists that `built_from` relates to
/// the same notation are the same list, so that `try_from` gives the blocks
/// that the constructor for the notation gives.
pub proof fn lemma_built_from_unique(s: Seq<Ipv4Net>, t: Seq<Ipv4Net>, p: ParsedAddress)
    requires
        built_from(s, p),
        built_from(t, p),
    ensures
        s == t,
{
    match p {
        ParsedAddress::Range(a, b) => {
            if a.0 <= b.0 {
                lemma_range_blocks_unique(s, t, a.0, b.0);
            } else {
                assert(s =~= t);
            }
        },
        ParsedAddress::Netmask(b, m) => {
            lemma_range_blocks_unique(s, t, b.0 & m.0, b.0 | !m.0);
        },
        ParsedAddress::Wildcard(b, w) => {
            lemma_range_blocks_unique(s, t, b.0 & !w.0, b.0 | w.0);
        },
        _ => {},
    }
}

/// A set of IPv4 addresses, held as the CIDR blocks it was built from.
#[derive(Debug, Clone)]
pub struct AddressSet {
    cidrs: Vec<Ipv4Net>,
}

impl View for AddressSet {
    type V = Seq<Ipv4Net>;

    closed spec fn view(&self) -> Seq<Ipv4Net> {
        self.cidrs@
    }
}

impl AddressSet {
    /// Whether the set holds `ip`.
    pub open spec fn has(self, ip: u32) -> bool {
        covered(self@, ip)
    }

    /// Reads an address string (see [`crate::ipparse::parse_wildcard`]; an
    /// address followed by a mask is read as a base and a wildcard mask) into
    /// a set. Fails exactly where reading the string fails, with the same error.
    pub fn parse(s: &str) -> (r: Result<AddressSet, ParseError>)
        ensures
            match parse_spec(s@, true) {
                Ok(p) => r matches Ok(set) && built_from(set@, p) && forall|ip: u32| #[trigger] set.has(ip)
                    <==> notation_has(p, ip),
                Err(e) => r == Err::<AddressSet, ParseError>(e),
            },
            r matches Ok(set) ==> normal(set@),
    {
        match parse_wildcard(s) {
            Ok(p) => Self::try_from(p),
            Err(e) => Err(e),
        }
    }

    /// The set of addresses that a parsed notation denotes.
    pub fn try_from(value: ParsedAddress) -> (r: Result<AddressSet, ParseError>)
        ensures
            r matches Ok(set) && built_from(set@, value) && forall|ip: u32| #[trigger] set.has(ip)
                <==> notation_has(value, ip),
            r matches Ok(set) ==> normal(set@),
    {
        match value {
            ParsedAddress::Ip(ip) => Ok(Self::from_ip(ip)),
            ParsedAddress::Cidr(net) => Ok(Self::from_cidr(net)),
            ParsedAddress::Range(start, end) => Ok(Self::from_range(start, end)),
            ParsedAddress::Wildcard(base, wildcard) => Ok(Self::from_wildcard(base, wildcard)),
            ParsedAddress::Netmask(base, mask) => {
                let m = mask.0;
                let r = Self::from_wildcard(base, Ipv4Addr(!m));
                assert(!!m == m) by (bit_vector);
                Ok(r)
            },
        }
    }

    /// The empty set.
    pub fn empty() -> (r: AddressSet)
        ensures
            r@ == Seq::<Ipv4Net>::empty(),
            forall|ip: u32| !#[trigger] r.has(ip),
            normal(r@),
    {
        AddressSet { cidrs: Vec::new() }
    }

    /// The set holding just `ip`.
    pub fn from_ip(ip: Ipv4Addr) -> (r: AddressSet)
        ensures
            r@ == seq![Ipv4Net::from_parts(ip.0, 32)],
            forall|x: u32| #[trigger] r.has(x) <==> x == ip.0,
            normal(r@),
    {
        let net = match Ipv4Net::new(ip, 32) {
            Ok(n) => n,
            Err(_) => {
                return AddressSet { cidrs: Vec::new() };
            },
        };
        let mut cidrs = Vec::new();
        cidrs.push(net);
        let r = AddressSet { cidrs };
        proof {
            assert(r@ == seq![Ipv4Net::from_parts(ip.0, 32)]);
            lemma_host_block(ip.0);
            assert forall|x: u32| #[trigger] r.has(x) <==> x == ip.0 by {
                assert(r@[0] == net);
                if x == ip.0 {
                    assert(r@[0].covers(x));
                }
            }
        }
        r
    }

    /// The set holding the block of `net`; the network is kept as given.
    pub fn from_cidr(net: Ipv4Net) -> (r: AddressSet)
        ensures
            r@ == seq![net],
            forall|x: u32| #[trigger] r.has(x) <==> net.covers(x),
            normal(r@),
    {
        let mut cidrs = Vec::new();
        cidrs.push(net);
        let r = AddressSet { cidrs };
        proof {
            assert(r@ == seq![net]);
            assert forall|x: u32| #[trigger] r.has(x) <==> net.covers(x) by {
                if net.covers(x) {
                    assert(r@[0].covers(x));
                }
            }
        }
        r
    }

    /// The set of the addresses from `start` to `end`, both included, as the
    /// blocks that [`range_to_cidrs`] gives; empty when `start` comes after `end`.
    pub fn from_range(start: Ipv4Addr, end: Ipv4Addr) -> (r: AddressSet)
        ensures
            start.0 > end.0 ==> r@.len() == 0,
            start.0 <= end.0 ==> range_blocks(r@, start.0, end.0),
            forall|x: u32| #[trigger] r.has(x) <==> start.0 <= x <= end.0,
            normal(r@),
    {
        let r = AddressSet { cidrs: range_to_cidrs(start, end) };
        proof {
            if start.0 <= end.0 {
                lemma_range_blocks_normal(r@, start.0, end.0);
            }
            assert forall|x: u32| #[trigger] r.has(x) <==> start.0 <= x <= end.0 by {
                if start.0 <= end.0 {
                    lemma_chain_covers(r@, start.0, x);
                }
            }
        }
        r
    }

    /// The set of the addresses from `base` with the bits of `wildcard`
    /// cleared to `base` with them set; for a wildcard mask whose set bits are
    /// the low bits, these are the addresses that agree with `base` on the
    /// clear bits of `wildcard`.
    pub fn from_wildcard(base: Ipv4Addr, wildcard: Ipv4Addr) -> (r: AddressSet)
        ensures
            forall|x: u32| #[trigger] r.has(x) <==> (base.0 & !wildcard.0) <= x <= (base.0 | wildcard.0),
            range_blocks(r@, base.0 & !wildcard.0, base.0 | wildcard.0),
            normal(r@),
            contiguous_mask(!wildcard.0) ==> forall|x: u32| #[trigger] r.has(x) <==> (x & !wildcard.0) == (
            base.0 & !wildcard.0),
    {
        let b = base.0;
        let w = wildcard.0;
        assert((b & !w) <= (b | w) && !!w == w) by (bit_vector);
        let r = Self::from_range(Ipv4Addr(b & !w), Ipv4Addr(b | w));
        proof {
            if contiguous_mask(!w) {
                lemma_contiguous_netmask(!w);
                assert forall|x: u32| #[trigger] r.has(x) <==> (x & !w) == (b & !w) by {
                    lemma_covers_mask(b, mask_len(!w), x);
                }
            }
        }
        r
    }

    /// Whether the set holds `ip`.
    pub fn contains(&self, ip: Ipv4Addr) -> (r: bool)
        ensures
            r == self.has(ip.0),
    {
        let mut i: usize = 0;
        while i < self.cidrs.len()
            invariant
                i <= self.cidrs.len(),
                forall|j: int| 0 <= j < i ==> !(#[trigger] self.cidrs@[j]).covers(ip.0),
            decreases self.cidrs.len() - i,
        {
            if self.cidrs[i].contains(&ip) {
                return true;
            }
            i = i + 1;
        }
        false
    }

    /// Whether some block of the set shares an address with block `b`.
    fn any_overlaps(&self, b: &Ipv4Net) -> (r: bool)
        ensures
            r == meets(self@, *b),
    {
        let b_start = b.network().0;
        let b_end = b.broadcast().0;
        let mut i: usize = 0;
        while i < self.cidrs.len()
            invariant
                i <= self.cidrs.len(),
                b_start == b.first(),
                b_end == b.last(),
                forall|k: int| 0 <= k < i ==> !#[trigger] overlaps(self@[k], *b),
            decreases self.cidrs.len() - i,
        {
            let a = &self.cidrs[i];
            if a.network().0 <= b_end && b_start <= a.broadcast().0 {
                assert(overlaps(self@[i as int], *b));
                return true;
            }
            i = i + 1;
        }
        false
    }

    /// Whether this set and `other` share at least one address.
    pub fn intersects(&self, other: &AddressSet) -> (r: bool)
        ensures
            r <==> exists|ip: u32| #[trigger] self.has(ip) && other.has(ip),
    {
        let mut j: usize = 0;
        while j < other.cidrs.len()
            invariant
                j <= other.cidrs.len(),
                forall|k: int| 0 <= k < j ==> !meets(self@, #[trigger] other@[k]),
            decreases other.cidrs.len() - j,
        {
            let b = &other.cidrs[j];
            if self.any_overlaps(b) {
                proof {
                    let i = choose|i: int| 0 <= i < self@.len() && #[trigger] overlaps(self@[i], *b);
                    let a = self@[i];
                    let ip = if a.first() < b.first() { b.first() } else { a.first() };
                    lemma_block_bounds(a.addr_spec(), a.prefix_spec());
                    lemma_block_bounds(b.addr_spec(), b.prefix_spec());
                    assert(a.covers(ip) && b.covers(ip));
                    assert(other@[j as int] == *b);
                    assert(self.has(ip) && other.has(ip));
                }
                return true;
            }
            assert(!meets(self@, other@[j as int]));
            j = j + 1;
        }
        proof {
            assert forall|ip: u32| !(#[trigger] self.has(ip) && other.has(ip)) by {
                if self.has(ip) && other.has(ip) {
                    let i = choose|i: int| 0 <= i < self@.len() && #[trigger] self@[i].covers(ip);
                    let k = choose|k: int| 0 <= k < other@.len() && #[trigger] other@[k].covers(ip);
                    assert(overlaps(self@[i], other@[k]));
                    assert(meets(self@, other@[k]));
                }
            }
        }
        false
    }

    /// Whether every block of `other` lies within a single block of this set,
    /// which means that `other` is a subset of this set. When no block of
    /// this set holds another or can be joined with another (as in every set
    /// that the constructors build), the converse holds too, so that the
    /// answer is exactly whether `other` is a subset.
    pub fn contains_set(&self, other: &AddressSet) -> (r: bool)
        ensures
            r == forall|j: int| 0 <= j < other@.len() ==> held(self@, #[trigger] other@[j]),
            r ==> forall|ip: u32| #[trigger] other.has(ip) ==> self.has(ip),
            pairwise_ok(self@) ==> (r <==> forall|ip: u32| #[trigger] other.has(ip) ==> self.has(ip)),
    {
        let mut j: usize = 0;
        while j < other.cidrs.len()
            invariant
                j <= other.cidrs.len(),
                forall|k: int| 0 <= k < j ==> held(self@, #[trigger] other@[k]),
            decreases other.cidrs.len() - j,
        {
            let b = &other.cidrs[j];
            if !self.any_holds(b) {
                assert(!held(self@, other@[j as int]));
                proof {
                    if pairwise_ok(self@) && forall|ip: u32| #[trigger] other.has(ip) ==> self.has(ip) {
                        assert forall|ip: u32| #[trigger] other@[j as int].covers(ip) implies covered(self@, ip) by {
                            assert(other.has(ip));
                        }
                        lemma_normal_within(self@, other@[j as int]);
                        let i = choose|i: int| 0 <= i < self@.len() && #[trigger] encloses(self@[i], other@[j as int]);
                        assert(held(self@, other@[j as int]));
                    }
                }
                return false;
            }
            j = j + 1;
        }
        proof {
            assert forall|ip: u32| #[trigger] other.has(ip) implies self.has(ip) by {
                let k = choose|k: int| 0 <= k < other@.len() && #[trigger] other@[k].covers(ip);
                assert(held(self@, other@[k]));
                let i = choose|i: int| 0 <= i < self@.len() && #[trigger] encloses(self@[i], other@[k]);
                assert(self@[i].covers(ip));
            }
        }
        true
    }

    /// Whether some block of the set holds block `b`.
    fn any_holds(&self, b: &Ipv4Net) -> (r: bool)
        ensures
            r == held(self@, *b),
    {
        let mut i: usize = 0;
        while i < self.cidrs.len()
            invariant
                i <= self.cidrs.len(),
                forall|k: int| 0 <= k < i ==> !#[trigger] encloses(self@[k], *b),
            decreases self.cidrs.len() - i,
        {
            if cidr_overlap(&self.cidrs[i], b) {
                assert(encloses(self@[i as int], *b));
                return true;
            }
            i = i + 1;
        }
        false
    }
}

} // verus!
