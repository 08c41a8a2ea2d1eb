//! Rendering of Cisco IOS style access-list rules from address sets: a
//! network is written as its network address and wildcard mask, a single
//! host as `host` and its address.

use vstd::prelude::*;
use vstd::string::*;
use crate::addressset::AddressSet;
use crate::net::{block_len, lemma_block_bounds, lemma_host_block, netmask_of, Ipv4Net};
use crate::text::{dotted, push_dotted};

verus! {

/// Whether traffic is allowed or blocked.
#[derive(Debug, Clone, Copy, PartialEq, Eq, Structural)]
pub enum Action {
    /// Allow the traffic.
    Permit,
    /// Block the traffic.
    Deny,
}

/// The protocol a rule applies to.
#[derive(Debug, Clone, Copy, PartialEq, Eq, Structural)]
pub enum Protocol {
    /// Internet Protocol.
    Ip,
    /// Transmission Control Protocol.
    Tcp,
    /// User Datagram Protocol.
    Udp,
    /// Internet Control Message Protocol.
    Icmp,
}

/// The keyword of an action.
pub open spec fn action_text(a: Action) -> Seq<char> {
    match a {
        Action::Permit => seq!['p', 'e', 'r', 'm', 'i', 't'],
        Action::Deny => seq!['d', 'e', 'n', 'y'],
    }
}

/// The keyword of a protocol.
pub open spec fn protocol_text(p: Protocol) -> Seq<char> {
    match p {
        Protocol::Ip => seq!['i', 'p'],
        Protocol::Tcp => seq!['t', 'c', 'p'],
        Protocol::Udp => seq!['u', 'd', 'p'],
        Protocol::Icmp => seq!['i', 'c', 'm', 'p'],
    }
}

impl Action {
    /// The keyword used in Cisco configurations.
    pub fn as_str(self) -> (r: &'static str)
        ensures
            r@ == action_text(self),
    {
        proof {
            reveal_strlit("permit");
            reveal_strlit("deny");
        }
        match self {
            Action::Permit => "permit",
            Action::Deny => "deny",
        }
    }
}

impl Protocol {
    /// The keyword used in Cisco configurations.
    pub fn as_str(self) -> (r: &'static str)
        ensures
            r@ == protocol_text(self),
    {
        proof {
            reveal_strlit("ip");
            reveal_strlit("tcp");
            reveal_strlit("udp");
            reveal_strlit("icmp");
        }
        match self {
            Protocol::Ip => "ip",
            Protocol::Tcp => "tcp",
            Protocol::Udp => "udp",
            Protocol::Icmp => "icmp",
        }
    }
}

/// The blocks of the sets, one set after the other.
pub open spec fn flat(sets: Seq<AddressSet>) -> Seq<Ipv4Net>
    decreases sets.len(),
{
    if sets.len() == 0 {
        Seq::<Ipv4Net>::empty()
    } else {
        flat(sets.drop_last()) + sets.last()@
    }
}

/// The blocks of one set are that set's blocks, and the blocks of two lists
/// of sets one after the other are the blocks of the first list followed by
/// those of the second.
pub proof fn lemma_flat_concat(x: AddressSet, s1: Seq<AddressSet>, s2: Seq<AddressSet>)
    ensures
        flat(seq![x]) == x@,
        flat(s1 + s2) == flat(s1) + flat(s2),
    decreases s2.len(),
{
    assert(seq![x].drop_last() == Seq::<AddressSet>::empty());
    assert(flat(Seq::<AddressSet>::empty()) + x@ == x@);
    if s2.len() == 0 {
        assert(s1 + s2 == s1);
        assert(flat(s1) + flat(s2) == flat(s1));
    } else {
        lemma_flat_concat(x, s1, s2.drop_last());
        assert((s1 + s2).drop_last() == s1 + s2.drop_last());
        assert((s1 + s2).last() == s2.last());
    }
}

/// The pairs of `s` with each block of `b`, in order.
pub open spec fn row(s: Ipv4Net, b: Seq<Ipv4Net>) -> Seq<(Ipv4Net, Ipv4Net)> {
    b.map_values(|x: Ipv4Net| (s, x))
}

/// The pairs of a block of `a` with a block of `b`, ordered by the block of
/// `a` first, then by the block of `b`.
pub open spec fn product(a: Seq<Ipv4Net>, b: Seq<Ipv4Net>) -> Seq<(Ipv4Net, Ipv4Net)>
    decreases a.len(),
{
    if a.len() == 0 {
        Seq::<(Ipv4Net, Ipv4Net)>::empty()
    } else {
        product(a.drop_last(), b) + row(a.last(), b)
    }
}

/// The source and destination written in a rule for block `n`.
pub open spec fn addr_text(n: Ipv4Net) -> Seq<char> {
    if n.prefix_spec() == 32 {
        seq!['h', 'o', 's', 't', ' '] + dotted(n.addr_spec())
    } else {
        dotted(n.first()) + seq![' '] + dotted(!netmask_of(n.prefix_spec()))
    }
}

/// The rule `<action> <protocol> <source> <destination>`.
pub open spec fn rule_text(a: Action, p: Protocol, src: Ipv4Net, dst: Ipv4Net) -> Seq<char> {
    action_text(a) + seq![' '] + protocol_text(p) + seq![' '] + addr_text(src) + seq![' '] + addr_text(dst)
}

/// A block of more than one address is written as its network address and
/// its wildcard mask, the number of addresses after the first one in the
/// block (whose low `32 - p` bits are set); a single address is written as
/// `host` and the address.
pub proof fn lemma_addr_text_wildcard(n: Ipv4Net)
    ensures
        n.prefix_spec() < 32 ==> addr_text(n) == dotted(n.first()) + seq![' '] + dotted((n.last() - n.first()) as u32),
        n.prefix_spec() < 32 ==> (n.last() - n.first()) as u64 == block_len(n.prefix_spec()) - 1,
        n.prefix_spec() == 32 ==> addr_text(n) == seq!['h', 'o', 's', 't', ' '] + dotted(n.first()),
{
    let p = n.prefix_spec();
    lemma_block_bounds(n.addr_spec(), p);
    lemma_block_bounds(0u32, p);
    let m = netmask_of(p);
    assert((0u32 | !m) == !m && (0u32 & m) == 0u32) by (bit_vector);
    if p == 32 {
        lemma_host_block(n.addr_spec());
    }
}

/// Different actions have keywords that differ in the first character.
proof fn lemma_action_texts_differ(a1: Action, a2: Action)
    ensures
        action_text(a1).len() >= 1,
        a1 != a2 ==> action_text(a1)[0] != action_text(a2)[0],
{
}

/// Different protocols have keywords that differ in one of the first two
/// characters.
proof fn lemma_protocol_texts_differ(p1: Protocol, p2: Protocol)
    ensures
        protocol_text(p1).len() >= 2,
        p1 != p2 ==> protocol_text(p1)[0] != protocol_text(p2)[0] || protocol_text(p1)[1] != protocol_text(p2)[1],
{
}

/// The keywords and spaces that a rule starts with.
pub open spec fn rule_head(a: Action, p: Protocol) -> Seq<char> {
    action_text(a) + seq![' '] + protocol_text(p) + seq![' ']
}

/// The rule text tells the action and the protocol it was written with:
/// rules that read the same have the same action and the same protocol, and
/// each rule starts with the action's keyword, a space, the protocol's
/// keyword and a space.
pub proof fn lemma_rule_keywords(
    a1: Action,
    p1: Protocol,
    s1: Ipv4Net,
    d1: Ipv4Net,
    a2: Action,
    p2: Protocol,
    s2: Ipv4Net,
    d2: Ipv4Net,
)
    ensures
        rule_text(a1, p1, s1, d1) == rule_text(a2, p2, s2, d2) ==> a1 == a2 && p1 == p2,
        rule_text(a1, p1, s1, d1).subrange(0, rule_head(a1, p1).len() as int) == rule_head(a1, p1),
{
    let h1 = rule_head(a1, p1);
    let h2 = rule_head(a2, p2);
    let r1 = rule_text(a1, p1, s1, d1);
    let r2 = rule_text(a2, p2, s2, d2);
    let t1 = addr_text(s1) + seq![' '] + addr_text(d1);
    let t2 = addr_text(s2) + seq![' '] + addr_text(d2);
    assert(r1 =~= h1 + t1);
    assert(r2 =~= h2 + t2);
    assert(r1.subrange(0, h1.len() as int) =~= h1);
    lemma_action_texts_differ(a1, a2);
    lemma_action_texts_differ(a2, a1);
    lemma_protocol_texts_differ(p1, p2);
    lemma_protocol_texts_differ(p2, p1);
    if r1 == r2 {
        assert(r1[0] == h1[0] && r2[0] == h2[0]);
        assert(h1[0] == action_text(a1)[0] && h2[0] == action_text(a2)[0]);
        if a1 == a2 {
            let k = action_text(a1).len() as int + 1;
            assert(r1[k] == h1[k] && r2[k] == h2[k]);
            assert(r1[k + 1] == h1[k + 1] && r2[k + 1] == h2[k + 1]);
            assert(h1[k] == protocol_text(p1)[0] && h1[k + 1] == protocol_text(p1)[1]);
            assert(h2[k] == protocol_text(p2)[0] && h2[k + 1] == protocol_text(p2)[1]);
        }
    }
}

/// The pairs of `a` and `b` are `|a| * |b|` in number, and the pair at
/// `i * |b| + j` is the `i`th block of `a` with the `j`th block of `b`,
/// whatever the blocks hold.
pub proof fn lemma_product_index(a: Seq<Ipv4Net>, b: Seq<Ipv4Net>)
    ensures
        product(a, b).len() == a.len() * b.len(),
        forall|i: int, j: int| 0 <= i < a.len() && 0 <= j < b.len() ==> #[trigger] product(a, b)[i * b.len() + j]
            == (a[i], b[j]),
    decreases a.len(),
{
    if a.len() > 0 {
        let a0 = a.drop_last();
        let n = a.len() as int;
        let m = b.len() as int;
        lemma_product_index(a0, b);
        assert((n - 1) * m + m == n * m) by (nonlinear_arith);
        assert forall|i: int, j: int| 0 <= i < a.len() && 0 <= j < b.len() implies #[trigger] product(a, b)[i * b.len() + j]
            == (a[i], b[j]) by {
            if i < n - 1 {
                assert(i * m + j < (n - 1) * m) by (nonlinear_arith)
                    requires
                        0 <= i < n - 1,
                        0 <= j < m,
                ;
                assert(0 <= i * m) by (nonlinear_arith)
                    requires
                        0 <= i,
                        0 <= m,
                ;
                assert(a0[i] == a[i]);
            } else {
                assert(i * m + j - (n - 1) * m == j);
            }
        }
    }
}

/// Appends to `out` the pairs of `s` with each block of the sets of `dsts`.
fn push_row(out: &mut Vec<(Ipv4Net, Ipv4Net)>, s: Ipv4Net, dsts: &[AddressSet])
    ensures
        final(out)@ == old(out)@ + row(s, flat(dsts@)),
{
    let ghost start = out@;
    let mut r: usize = 0;
    assert(dsts@.take(0) == Seq::<AddressSet>::empty());
    assert(row(s, flat(dsts@.take(0))) == Seq::<(Ipv4Net, Ipv4Net)>::empty());
    while r < dsts.len()
        invariant
            r <= dsts.len(),
            out@ == start + row(s, flat(dsts@.take(r as int))),
        decreases dsts.len() - r,
    {
        let dst = &dsts[r];
        let blocks = dst.cidrs();
        let ghost mid = out@;
        let mut t: usize = 0;
        while t < blocks.len()
            invariant
                t <= blocks.len(),
                out@ == mid + row(s, blocks@.take(t as int)),
            decreases blocks.len() - t,
        {
            out.push((s, blocks[t]));
            assert(row(s, blocks@.take(t + 1)) == row(s, blocks@.take(t as int)).push((s, blocks@[t as int])));
            t = t + 1;
        }
        assert(blocks@.take(blocks.len() as int) == blocks@);
        assert(dsts@.take(r + 1).drop_last() == dsts@.take(r as int));
        assert(flat(dsts@.take(r + 1)) == flat(dsts@.take(r as int)) + dst@);
        assert(row(s, flat(dsts@.take(r as int)) + dst@) == row(s, flat(dsts@.take(r as int))) + row(s, dst@));
        r = r + 1;
    }
    assert(dsts@.take(dsts.len() as int) == dsts@);
}

/// Every pair of a source block and a destination block: the blocks of the
/// sets of `srcs` in order, each paired with the blocks of the sets of
/// `dsts` in order.
pub fn pairs(srcs: &[AddressSet], dsts: &[AddressSet]) -> (out: Vec<(Ipv4Net, Ipv4Net)>)
    ensures
        out@ == product(flat(srcs@), flat(dsts@)),
{
    let mut out: Vec<(Ipv4Net, Ipv4Net)> = Vec::new();
    let mut p: usize = 0;
    assert(srcs@.take(0) == Seq::<AddressSet>::empty());
    while p < srcs.len()
        invariant
            p <= srcs.len(),
            out@ == product(flat(srcs@.take(p as int)), flat(dsts@)),
        decreases srcs.len() - p,
    {
        let src = &srcs[p];
        let blocks = src.cidrs();
        let ghost base = flat(srcs@.take(p as int));
        let mut q: usize = 0;
        assert(base + blocks@.take(0) == base);
        while q < blocks.len()
            invariant
                q <= blocks.len(),
                out@ == product(base + blocks@.take(q as int), flat(dsts@)),
            decreases blocks.len() - q,
        {
            push_row(&mut out, blocks[q], dsts);
            assert((base + blocks@.take(q + 1)).drop_last() == base + blocks@.take(q as int));
            q = q + 1;
        }
        assert(blocks@.take(blocks.len() as int) == blocks@);
        assert(srcs@.take(p + 1).drop_last() == srcs@.take(p as int));
        p = p + 1;
    }
    assert(srcs@.take(srcs.len() as int) == srcs@);
    out
}

/// Writes block `net` as a rule writes a source or destination: `host`
/// and the address for a /32 block, else the network address and the
/// wildcard mask.
pub fn render_addr(net: &Ipv4Net) -> (r: String)
    ensures
        r@ == addr_text(*net),
{
    proof {
        reveal_strlit("host ");
        reveal_strlit(" ");
    }
    let mut out = String::new();
    if net.prefix_len() == 32 {
        out.append("host ");
        push_dotted(&mut out, net.addr().0);
        return out;
    }
    let mask = net.netmask_u32();
    let wildcard = !mask;
    push_dotted(&mut out, net.network().0);
    out.append(" ");
    push_dotted(&mut out, wildcard);
    out
}

/// Writes one rule: `<action> <protocol> <source> <destination>`.
pub fn render_rule(action: Action, protocol: Protocol, src: &Ipv4Net, dst: &Ipv4Net) -> (r: String)
    ensures
        r@ == rule_text(action, protocol, *src, *dst),
{
    proof {
        reveal_strlit(" ");
    }
    let mut out = String::new();
    out.append(action.as_str());
    out.append(" ");
    out.append(protocol.as_str());
    out.append(" ");
    let s = render_addr(src);
    out.append(s.as_str());
    out.append(" ");
    let d = render_addr(dst);
    out.append(d.as_str());
    out
}

/// Writes one rule for every pair of a source block and a destination
/// block, in the order of [`pairs`].
pub fn render(action: Action, protocol: Protocol, srcs: &[AddressSet], dsts: &[AddressSet]) -> (r: Vec<String>)
    ensures
        r.len() == product(flat(srcs@), flat(dsts@)).len(),
        forall|i: int| 0 <= i < r.len() ==> (#[trigger] r@[i])@ == rule_text(
            action,
            protocol,
            product(flat(srcs@), flat(dsts@))[i].0,
            product(flat(srcs@), flat(dsts@))[i].1,
        ),
{
    let ps = pairs(srcs, dsts);
    let mut out: Vec<String> = Vec::new();
    let mut i: usize = 0;
    while i < ps.len()
        invariant
            i <= ps.len(),
            ps@ == product(flat(srcs@), flat(dsts@)),
            out.len() == i,
            forall|k: int| 0 <= k < i ==> (#[trigger] out@[k])@ == rule_text(action, protocol, ps@[k].0, ps@[k].1),
        decreases ps.len() - i,
    {
        let (s, d) = ps[i];
        out.push(render_rule(action, protocol, &s, &d));
        i = i + 1;
    }
    out
}

} // verus!
