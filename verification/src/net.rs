//! IPv4 addresses and CIDR networks.

use vstd::prelude::*;
use crate::text::{chars_of, cidr_text, dec, dotted, ipv4_text, parse_quad, push_dec, push_dotted};

verus! {

/// An IPv4 address, held as its 32-bit value (first octet most significant).
#[derive(Clone, Copy, Debug, PartialEq, Eq, Hash, Structural)]
pub struct Ipv4Addr(pub u32);

impl Ipv4Addr {
    /// The dotted-quad form of the address, such as `192.168.1.1`.
    pub fn to_string(&self) -> (r: String)
        ensures
            r@ == dotted(self.0),
    {
        let mut out = String::new();
        push_dotted(&mut out, self.0);
        out
    }
}

/// The netmask with `p` leading one bits; a length beyond 32 counts as 32.
pub open spec fn netmask_of(p: nat) -> u32 {
    if p == 0 {
        0u32
    } else if p >= 32 {
        0xffff_ffffu32
    } else {
        (0xffff_ffffu32 << ((32 - p) as u32)) as u32
    }
}

/// The number of addresses in a block with prefix length `p` (a length
/// beyond 32 counts as 32).
pub open spec fn block_len(p: nat) -> u64 {
    if p >= 32 {
        1u64
    } else {
        (1u64 << ((32 - p) as u64)) as u64
    }
}

/// The block with prefix length `p` around `a` runs from `a & mask` to
/// `a | !mask`, and holds `block_len(p)` addresses.
pub proof fn lemma_block_bounds(a: u32, p: nat)
    ensures
        (a | !netmask_of(p)) as int == (a & netmask_of(p)) as int + block_len(p) - 1,
        (a & netmask_of(p)) <= (a | !netmask_of(p)),
        1 <= block_len(p) <= 0x1_0000_0000,
        p == 0 ==> block_len(p) == 0x1_0000_0000,
        p >= 32 ==> block_len(p) == 1,
{
    if p == 0 {
        assert((a | !0u32) == 0xffff_ffffu32 && (a & 0u32) == 0u32) by (bit_vector);
        assert(1u64 << 32u64 == 0x1_0000_0000u64) by (bit_vector);
    } else if p >= 32 {
        assert((a | !0xffff_ffffu32) == a && (a & 0xffff_ffffu32) == a) by (bit_vector);
    } else {
        let q: u32 = (32 - p) as u32;
        assert(1 <= q < 32 ==> ((a | !(0xffff_ffffu32 << q)) as u64) == ((a & (0xffff_ffffu32
            << q)) as u64) + (1u64 << (q as u64)) - 1 && 1 <= (1u64 << (q as u64)) <= 0x1_0000_0000u64)
            by (bit_vector);
    }
}

/// A block is half as long as the block with a prefix one shorter.
pub proof fn lemma_block_double(p: nat)
    requires
        1 <= p <= 32,
    ensures
        block_len((p - 1) as nat) == 2 * block_len(p),
{
    let q: u64 = (32 - p) as u64;
    assert(q < 32 ==> (1u64 << (q + 1)) == 2 * (1u64 << q)) by (bit_vector);
    assert(1u64 << 1u64 == 2u64 && 1u64 << 0u64 == 1u64) by (bit_vector);
    assert(((32 - (p - 1)) as u64) == q + 1);
}

/// An address lies in the block around `a` exactly when it agrees with `a`
/// on the bits of the netmask.
pub proof fn lemma_covers_mask(a: u32, p: nat, ip: u32)
    ensures
        ((a & netmask_of(p)) <= ip <= (a | !netmask_of(p))) <==> (ip & netmask_of(p)) == (a & netmask_of(p)),
{
    if p == 0 {
        assert(((a & 0u32) <= ip <= (a | !0u32)) && (ip & 0u32) == (a & 0u32)) by (bit_vector);
    } else if p >= 32 {
        assert(((a & 0xffff_ffffu32) <= ip <= (a | !0xffff_ffffu32)) <==> (ip & 0xffff_ffffu32) == (a
            & 0xffff_ffffu32)) by (bit_vector);
    } else {
        let q: u32 = (32 - p) as u32;
        assert(1 <= q < 32 ==> (((a & (0xffff_ffffu32 << q)) <= ip <= (a | !(0xffff_ffffu32 << q)))
            <==> (ip & (0xffff_ffffu32 << q)) == (a & (0xffff_ffffu32 << q)))) by (bit_vector);
    }
}

/// A block with prefix length 32 holds its address alone.
pub proof fn lemma_host_block(a: u32)
    ensures
        (a & netmask_of(32)) == a,
        (a | !netmask_of(32)) == a,
{
    assert((a & 0xffff_ffffu32) == a && (a | !0xffff_ffffu32) == a) by (bit_vector);
}

/// Bit `i` of `m` is set.
pub open spec fn bit(m: u32, i: u32) -> bool {
    (m >> i) & 1u32 == 1u32
}

/// The set bits of `m` all lie above its clear bits: `m` is a subnet mask.
pub open spec fn contiguous_mask(m: u32) -> bool {
    forall|i: u32, j: u32| j < i < 32 && #[trigger] bit(m, j) ==> #[trigger] bit(m, i)
}

/// The number of leading one bits of `m` (`u32::leading_ones`).
pub open spec fn mask_len(m: u32) -> nat {
    vstd::std_specs::bits::u32_leading_ones(m) as nat
}

/// Bit `j` of the netmask of length `p` is set exactly when `j` is among the
/// top `p` bits.
pub proof fn lemma_netmask_bit(p: nat, j: u32)
    requires
        p <= 32,
        j < 32,
    ensures
        bit(netmask_of(p), j) <==> j >= 32 - p,
{
    if p == 0 {
        assert(j < 32 ==> (0u32 >> j) & 1u32 == 0u32) by (bit_vector);
    } else if p == 32 {
        assert(j < 32 ==> (0xffff_ffffu32 >> j) & 1u32 == 1u32) by (bit_vector);
    } else {
        let q: u32 = (32 - p) as u32;
        assert(1 <= q < 32 && j < 32 ==> ((((0xffff_ffffu32 << q) >> j) & 1u32 == 1u32) <==> j >= q))
            by (bit_vector);
    }
}

/// Two numbers with the same bits are equal: were they not, the lowest set
/// bit of their exclusive or would be a bit on which they differ.
proof fn lemma_bits_eq(a: u32, b: u32)
    requires
        forall|j: u32| j < 32 ==> bit(a, j) == bit(b, j),
    ensures
        a == b,
{
    let d = a ^ b;
    vstd::std_specs::bits::axiom_u32_trailing_zeros(d);
    let j = vstd::std_specs::bits::u32_trailing_zeros(d) as u32;
    if d != 0 {
        assert(bit(a, j) == bit(b, j));
        assert(j < 32 && (((a >> j) & 1u32 == 1u32) == ((b >> j) & 1u32 == 1u32)) ==> ((a ^ b) >> j)
            & 1u32 == 0u32) by (bit_vector);
    }
    assert((a ^ b) == 0u32 ==> a == b) by (bit_vector);
}

/// A subnet mask is the netmask of its own number of leading ones.
pub proof fn lemma_contiguous_netmask(m: u32)
    requires
        contiguous_mask(m),
    ensures
        m == netmask_of(mask_len(m)),
        mask_len(m) <= 32,
{
    vstd::std_specs::bits::axiom_u32_leading_ones(m);
    let lo = vstd::std_specs::bits::u32_leading_ones(m);
    assert forall|j: u32| j < 32 implies bit(m, j) == bit(netmask_of(lo as nat), j) by {
        lemma_netmask_bit(lo as nat, j);
        if j >= 32 - lo {
            assert((m >> j) & 1u32 == 1u32);
        } else {
            let z: u32 = (31 - lo) as u32;
            assert((m >> z) & 1u32 == 0u32);
            if j < z && bit(m, j) {
                assert(bit(m, z));
            }
        }
    }
    lemma_bits_eq(m, netmask_of(lo as nat));
}

/// A shorter prefix gives a block at least as long, and twice as long or more
/// when strictly shorter.
pub proof fn lemma_block_len_mono(q: nat, p: nat)
    requires
        q <= p <= 32,
    ensures
        block_len(p) <= block_len(q),
        q < p ==> 2 * block_len(p) <= block_len(q),
    decreases p - q,
{
    if q < p {
        lemma_block_double(p);
        lemma_block_len_mono(q, (p - 1) as nat);
    }
}

/// Addresses that agree on the bits of a netmask agree on the bits of every
/// shorter netmask.
pub proof fn lemma_mask_coarsen(x: u32, y: u32, q: nat, p: nat)
    requires
        q <= p,
        (x & netmask_of(p)) == (y & netmask_of(p)),
    ensures
        (x & netmask_of(q)) == (y & netmask_of(q)),
{
    if q == 0 {
        assert((x & 0u32) == (y & 0u32)) by (bit_vector);
    } else {
        let pp: u32 = if p >= 32 { 0 } else { (32 - p) as u32 };
        let qq: u32 = if q >= 32 { 0 } else { (32 - q) as u32 };
        assert(0xffff_ffffu32 << 0u32 == 0xffff_ffffu32) by (bit_vector);
        assert(netmask_of(p) == 0xffff_ffffu32 << pp);
        assert(netmask_of(q) == 0xffff_ffffu32 << qq);
        assert(pp <= qq < 32 ==> ((x & (0xffff_ffffu32 << pp)) == (y & (0xffff_ffffu32 << pp)) ==> (x & (
        0xffff_ffffu32 << qq)) == (y & (0xffff_ffffu32 << qq)))) by (bit_vector);
    }
}

/// An address is the first of its block exactly when it is a multiple of the
/// block length.
pub proof fn lemma_aligned(x: u32, p: nat)
    ensures
        (x & netmask_of(p)) == x <==> (x as u64) % block_len(p) == 0,
{
    if p == 0 {
        assert((x & 0u32) == x <==> x == 0) by (bit_vector);
        assert((x as u64) < 0x1_0000_0000u64 && 1u64 << 32u64 == 0x1_0000_0000u64) by (bit_vector);
        assert(block_len(p) == 0x1_0000_0000u64);
        assert((x as u64) % 0x1_0000_0000u64 == x);
    } else if p >= 32 {
        assert((x & 0xffff_ffffu32) == x) by (bit_vector);
    } else {
        let q: u32 = (32 - p) as u32;
        let qq: u64 = q as u64;
        assert(1 <= q < 32 ==> ((x & (0xffff_ffffu32 << q)) == x <==> (x as u64) & (((1u64 << (
        q as u64)) - 1) as u64) == 0)) by (bit_vector);
        vstd::bits::lemma_u64_pow2_no_overflow(qq as nat);
        vstd::bits::lemma_u64_shl_is_mul(1u64, qq);
        vstd::bits::lemma_u64_low_bits_mask_is_mod(x as u64, qq as nat);
        vstd::bits::lemma_low_bits_mask_values();
        assert(vstd::bits::low_bits_mask(qq as nat) == vstd::arithmetic::power2::pow2(qq as nat) - 1);
        assert(block_len(p) == 1u64 << qq);
        assert(((1u64 << qq) - 1) as u64 == vstd::bits::low_bits_mask(qq as nat) as u64);
    }
}

/// An IPv4 network: an address together with a prefix length of at most 32.
/// The address may have bits set below the prefix; the network it names is
/// the block of addresses that agree with it on the first `prefix_len` bits.
#[derive(Clone, Copy, Debug, PartialEq, Eq, Structural)]
pub struct Ipv4Net {
    addr: Ipv4Addr,
    prefix_len: u8,
}

impl Ipv4Net {
    #[verifier::type_invariant]
    spec fn prefix_in_range(self) -> bool {
        self.prefix_len <= 32
    }

    /// The address the network was made with.
    pub closed spec fn addr_spec(self) -> u32 {
        self.addr.0
    }

    /// The prefix length the network was made with (which is at most 32).
    pub closed spec fn prefix_spec(self) -> nat {
        if self.prefix_len > 32 {
            32
        } else {
            self.prefix_len as nat
        }
    }

    /// A prefix length is at most 32.
    pub broadcast proof fn lemma_prefix_bound(n: Ipv4Net)
        ensures
            #[trigger] n.prefix_spec() <= 32,
    {
    }

    /// The first address of the block (the network address).
    pub open spec fn first(self) -> u32 {
        self.addr_spec() & netmask_of(self.prefix_spec())
    }

    /// The last address of the block (the broadcast address).
    pub open spec fn last(self) -> u32 {
        self.addr_spec() | !netmask_of(self.prefix_spec())
    }

    /// Whether the block holds `ip`.
    pub open spec fn covers(self, ip: u32) -> bool {
        self.first() <= ip <= self.last()
    }

    /// The network with address `a` and prefix length `p`.
    pub closed spec fn from_parts(a: u32, p: u8) -> Ipv4Net {
        Ipv4Net { addr: Ipv4Addr(a), prefix_len: p }
    }

    pub broadcast proof fn lemma_from_parts(a: u32, p: u8)
        ensures
            #![trigger Ipv4Net::from_parts(a, p)]
            Ipv4Net::from_parts(a, p).addr_spec() == a,
            p <= 32 ==> Ipv4Net::from_parts(a, p).prefix_spec() == p,
    {
    }

    /// The network is written with its network address: it is the network
    /// made from its first address and its prefix length.
    pub open spec fn canonical(self) -> bool {
        self == Ipv4Net::from_parts(self.first(), self.prefix_spec() as u8)
    }

    /// Two networks written with their network addresses that span the same
    /// addresses are the same network.
    pub proof fn lemma_canonical_eq(a: Ipv4Net, b: Ipv4Net)
        requires
            a.canonical(),
            b.canonical(),
            a.first() == b.first(),
            a.last() == b.last(),
        ensures
            a == b,
    {
        let p = a.prefix_spec();
        let q = b.prefix_spec();
        lemma_block_bounds(a.addr_spec(), p);
        lemma_block_bounds(b.addr_spec(), q);
        if q < p {
            lemma_block_len_mono(q, p);
        } else if p < q {
            lemma_block_len_mono(p, q);
        }
    }

    /// Makes a network from an address and a prefix length; a prefix length
    /// above 32 is refused.
    pub fn new(ip: Ipv4Addr, prefix_len: u8) -> (r: Result<Ipv4Net, PrefixLenError>)
        ensures
            r is Ok <==> prefix_len <= 32,
            r matches Ok(n) ==> n == Ipv4Net::from_parts(ip.0, prefix_len) && n.addr_spec() == ip.0
                && n.prefix_spec() == prefix_len,
    {
        if prefix_len > 32 {
            Err(PrefixLenError)
        } else {
            Ok(Ipv4Net { addr: ip, prefix_len })
        }
    }

    /// The address the network was made with.
    pub fn addr(&self) -> (r: Ipv4Addr)
        ensures
            r.0 == self.addr_spec(),
    {
        self.addr
    }

    /// The prefix length, at most 32.
    pub fn prefix_len(&self) -> (r: u8)
        ensures
            r == self.prefix_spec(),
            r <= 32,
    {
        proof {
            use_type_invariant(self);
        }
        self.prefix_len
    }

    /// The netmask of the network as a number.
    pub fn netmask_u32(&self) -> (r: u32)
        ensures
            r == netmask_of(self.prefix_spec()),
    {
        proof {
            use_type_invariant(self);
            assert(0xffff_ffffu32 << 0u32 == 0xffff_ffffu32) by (bit_vector);
        }
        if self.prefix_len == 0 {
            0
        } else {
            u32::MAX << (32 - self.prefix_len)
        }
    }

    /// The network address: the address with the bits below the prefix cleared.
    pub fn network(&self) -> (r: Ipv4Addr)
        ensures
            r.0 == self.first(),
    {
        Ipv4Addr(self.addr.0 & self.netmask_u32())
    }

    /// The broadcast address: the address with the bits below the prefix set.
    pub fn broadcast(&self) -> (r: Ipv4Addr)
        ensures
            r.0 == self.last(),
    {
        Ipv4Addr(self.addr.0 | !self.netmask_u32())
    }

    /// The text `address/length`, such as `192.168.1.0/24`.
    pub fn to_string(&self) -> (r: String)
        ensures
            r@ == dotted(self.addr_spec()) + seq!['/'] + dec(self.prefix_spec()),
    {
        proof {
            use_type_invariant(self);
            reveal_strlit("/");
        }
        let mut out = String::new();
        push_dotted(&mut out, self.addr.0);
        out.append("/");
        push_dec(&mut out, self.prefix_len as u32);
        out
    }

    /// Whether `ip` lies between the network and the broadcast address.
    pub fn contains(&self, ip: &Ipv4Addr) -> (r: bool)
        ensures
            r == self.covers(ip.0),
    {
        self.network().0 <= ip.0 && ip.0 <= self.broadcast().0
    }
}

/// Reads `address/length` with `ipnet`'s parser (the `FromStr` of
/// `ipnet::Ipv4Net`). Claimed: it succeeds exactly on the texts that
/// `cidr_text` accepts (four octets of one to three digits below 256, leading
/// zeros allowed, then `/` and one or two digits of at most 32) and gives back
/// the address and length written there.
#[verifier::external_body]
fn ipnet_from_str(s: &str) -> (r: Option<(u32, u8)>)
    ensures
        r == cidr_text(s@),
{
    match s.parse::<ipnet::Ipv4Net>() {
        Ok(n) => Some((u32::from(n.addr()), n.prefix_len())),
        Err(_) => None,
    }
}

/// The address written in dotted-quad form as `s` (the form that
/// `std::net::Ipv4Addr` reads: no leading zeros in an octet of two or three
/// digits).
pub fn parse_ipv4(s: &str) -> (r: Option<Ipv4Addr>)
    ensures
        match ipv4_text(s@, false) {
            Some(x) => r == Some(Ipv4Addr(x)),
            None => r is None,
        },
{
    let v = chars_of(s);
    assert(v@.subrange(0, v@.len() as int) == s@);
    match parse_quad(&v, 0, v.len(), false) {
        Some(x) => Some(Ipv4Addr(x)),
        None => None,
    }
}

/// The network written as `s` in the form `address/length`.
pub fn parse_net(s: &str) -> (r: Option<Ipv4Net>)
    ensures
        match cidr_text(s@) {
            Some((a, p)) => r == Some(Ipv4Net::from_parts(a, p)),
            None => r is None,
        },
{
    match ipnet_from_str(s) {
        Some((a, p)) => {
            assert(p <= 32);
            Some(Ipv4Net { addr: Ipv4Addr(a), prefix_len: p })
        },
        None => None,
    }
}

/// The error of reading an address or a network from text.
#[derive(Clone, Copy, Debug, PartialEq, Eq, Structural)]
pub struct AddrParseError;

impl core::str::FromStr for Ipv4Addr {
    type Err = AddrParseError;

    fn from_str(s: &str) -> (r: Result<Ipv4Addr, AddrParseError>)
        ensures
            match ipv4_text(s@, false) {
                Some(x) => r == Ok::<Ipv4Addr, AddrParseError>(Ipv4Addr(x)),
                None => r == Err::<Ipv4Addr, AddrParseError>(AddrParseError),
            },
    {
        match parse_ipv4(s) {
            Some(a) => Ok(a),
            None => Err(AddrParseError),
        }
    }
}

impl core::str::FromStr for Ipv4Net {
    type Err = AddrParseError;

    fn from_str(s: &str) -> (r: Result<Ipv4Net, AddrParseError>)
        ensures
            match cidr_text(s@) {
                Some((a, p)) => r == Ok::<Ipv4Net, AddrParseError>(Ipv4Net::from_parts(a, p)),
                None => r == Err::<Ipv4Net, AddrParseError>(AddrParseError),
            },
    {
        match parse_net(s) {
            Some(n) => Ok(n),
            None => Err(AddrParseError),
        }
    }
}

/// The error of [`Ipv4Net::new`]: the prefix length is above 32.
#[derive(Clone, Copy, Debug, PartialEq, Eq, Structural)]
pub struct PrefixLenError;

} // verus!
