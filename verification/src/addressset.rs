//! [`AddressSet`]: a set of IPv4 addresses held as a list of CIDR blocks,
//! which merging keeps in a normal form: sorted, without overlaps, and with
//! no two blocks that could be joined into one.

use vstd::prelude::*;
use crate::cidr::{
    chain, cidr_overlap, covered, encloses, fits, lemma_chain_covers, lemma_push_covered, lemma_remove_covered,
    lemma_same_blocks_covered, range_blocks, range_to_cidrs,
};
use crate::ipparse::{is_valid_subnet_mask, parse, parse_spec, ParseError, ParsedAddress};
use crate::net::{
    block_len, contiguous_mask, lemma_aligned, lemma_block_bounds, lemma_block_double,
    lemma_block_len_mono, lemma_contiguous_netmask, lemma_covers_mask, lemma_mask_coarsen, lemma_host_block, mask_len, netmask_of, Ipv4Addr,
    Ipv4Net,
};

verus! {

broadcast use Ipv4Net::lemma_from_parts, Ipv4Net::lemma_prefix_bound;

/// The smaller of two addresses.
pub open spec fn min_u32(a: u32, b: u32) -> u32 {
    if a < b { a } else { b }
}

/// Blocks `a` and `b` have the same prefix length, lie side by side, and
/// together form the block with a prefix one shorter.
pub open spec fn mergeable(a: Ipv4Net, b: Ipv4Net) -> bool {
    let p = a.prefix_spec();
    &&& p == b.prefix_spec()
    &&& 1 <= p <= 32
    &&& (a.first() + block_len(p) == b.first() || b.first() + block_len(p) == a.first())
    &&& (min_u32(a.first(), b.first()) as int) % (2 * block_len(p)) == 0
}

/// The block that two mergeable blocks form together.
pub open spec fn merged(a: Ipv4Net, b: Ipv4Net) -> Ipv4Net {
    Ipv4Net::from_parts(min_u32(a.first(), b.first()), (a.prefix_spec() - 1) as u8)
}

/// The block formed by `a` and `b`, when they can be joined into one.
fn try_merge(a: &Ipv4Net, b: &Ipv4Net) -> (r: Option<Ipv4Net>)
    ensures
        r is Some <==> mergeable(*a, *b),
        r matches Some(m) ==> m == merged(*a, *b) && forall|ip: u32| #[trigger] m.covers(ip) <==> a.covers(ip) || b.covers(ip),
        r matches Some(m) ==> m.canonical(),
{
    if a.prefix_len() != b.prefix_len() {
        return None;
    }
    let prefix = a.prefix_len();
    if prefix == 0 {
        return None;
    }
    let a_start = a.network().0;
    let b_start = b.network().0;
    proof {
        lemma_block_bounds(a.addr_spec(), prefix as nat);
        lemma_block_bounds(b.addr_spec(), prefix as nat);
        lemma_block_double(prefix as nat);
    }
    let block_size: u64 = 1u64 << (32 - prefix);
    assert(block_size == block_len(prefix as nat)) by {
        let q: u8 = (32 - prefix) as u8;
        assert(((32 - (prefix as nat)) as u64) == (q as u64));
        assert(1u64 << 0u8 == 1u64) by (bit_vector);
    }
    let adjacent = a_start as u64 + block_size == b_start as u64 || b_start as u64 + block_size == a_start as u64;
    if !adjacent {
        return None;
    }
    let min = if a_start < b_start { a_start } else { b_start };
    let supernet_size: u64 = block_size * 2;
    if (min as u64) % supernet_size != 0 {
        return None;
    }
    let new_prefix = prefix - 1;
    proof {
        lemma_aligned(min, new_prefix as nat);
        lemma_block_bounds(min, new_prefix as nat);
    }
    match Ipv4Net::new(Ipv4Addr(min), new_prefix) {
        Ok(n) => {
            assert((min & netmask_of(new_prefix as nat)) == min);
            assert(n.first() == min);
            assert(n.last() == min + 2 * block_size - 1);
            assert(n == merged(*a, *b));
            assert(n.canonical());
            Some(n)
        },
        Err(_) => None,
    }
}

/// The blocks of `s` come in ascending order of their network addresses.
pub open spec fn sorted_by_first(s: Seq<Ipv4Net>) -> bool {
    forall|i: int, j: int| 0 <= i < j < s.len() ==> (#[trigger] s[i]).first() <= (#[trigger] s[j]).first()
}

/// The blocks of `v` ordered by network address; blocks with the same
/// network address keep their order (a stable sort).
fn sort_by_network(v: &Vec<Ipv4Net>) -> (r: Vec<Ipv4Net>)
    ensures
        r.len() == v.len(),
        sorted_by_first(r@),
        forall|x: Ipv4Net| r@.contains(x) <==> v@.contains(x),
        sorted_by_first(v@) ==> r@ == v@,
{
    let mut out: Vec<Ipv4Net> = Vec::new();
    let mut i: usize = 0;
    while i < v.len()
        invariant
            i <= v.len(),
            out.len() == i,
            sorted_by_first(out@),
            forall|x: Ipv4Net| out@.contains(x) <==> v@.take(i as int).contains(x),
            sorted_by_first(v@) ==> out@ == v@.take(i as int),
        decreases v.len() - i,
    {
        let x = v[i];
        let key = x.network().0;
        let mut pos = out.len();
        while pos > 0 && out[pos - 1].network().0 > key
            invariant
                pos <= out.len(),
                forall|j: int| pos <= j < out.len() ==> (#[trigger] out@[j]).first() > key,
            decreases pos,
        {
            pos = pos - 1;
        }
        let ghost before = out@;
        proof {
            if sorted_by_first(v@) && i > 0 {
                assert(v@[i - 1].first() <= v@[i as int].first());
                assert(before.last() == v@.take(i as int)[i - 1]);
            }
        }
        out.insert(pos, x);
        proof {
            assert(v@.take(i + 1) == v@.take(i as int).push(x));
            assert forall|a: int, b: int| 0 <= a < b < out.len() implies (#[trigger] out@[a]).first()
                <= (#[trigger] out@[b]).first() by {
                if a < pos && b < pos {
                    assert(out@[a] == before[a] && out@[b] == before[b]);
                } else if a < pos && b == pos {
                    assert(out@[a] == before[a]);
                    if a < pos - 1 {
                        assert(before[a].first() <= before[pos - 1].first());
                    }
                } else if a < pos {
                    assert(out@[a] == before[a] && out@[b] == before[b - 1]);
                } else if a == pos {
                    assert(out@[b] == before[b - 1]);
                } else {
                    assert(out@[a] == before[a - 1] && out@[b] == before[b - 1]);
                }
            }
            assert forall|y: Ipv4Net| out@.contains(y) <==> v@.take(i + 1).contains(y) by {
                if out@.contains(y) {
                    let k = choose|k: int| 0 <= k < out@.len() && #[trigger] out@[k] == y;
                    if k != pos {
                        let k2 = if k < pos { k } else { k - 1 };
                        assert(before[k2] == y);
                        assert(before.contains(y));
                    }
                    assert(v@.take(i + 1)[i as int] == x);
                }
                if v@.take(i + 1).contains(y) {
                    let k = choose|k: int| 0 <= k < v@.take(i + 1).len() && #[trigger] v@.take(i + 1)[k] == y;
                    if k < i {
                        assert(v@.take(i as int)[k] == y);
                        assert(v@.take(i as int).contains(y));
                        assert(before.contains(y));
                        let k2 = choose|k2: int| 0 <= k2 < before.len() && #[trigger] before[k2] == y;
                        if k2 < pos {
                            assert(out@[k2] == y);
                        } else {
                            assert(out@[k2 + 1] == y);
                        }
                    } else {
                        assert(out@[pos as int] == y);
                    }
                }
            }
        }
        i = i + 1;
    }
    assert(v@.take(v.len() as int) == v@);
    out
}

/// The block around `a` with prefix length `p`, written with its network
/// address, is the same block.
proof fn lemma_masked_block(a: u32, p: nat)
    ensures
        ((a & netmask_of(p)) & netmask_of(p)) == (a & netmask_of(p)),
        ((a & netmask_of(p)) | !netmask_of(p)) == (a | !netmask_of(p)),
{
    let m = netmask_of(p);
    assert(((a & m) & m) == (a & m) && ((a & m) | !m) == (a | !m)) by (bit_vector);
}

/// Two lists together cover what each covers.
proof fn lemma_concat_covered(s: Seq<Ipv4Net>, t: Seq<Ipv4Net>, ip: u32)
    ensures
        covered(s + t, ip) <==> covered(s, ip) || covered(t, ip),
{
    if covered(s + t, ip) {
        let k = choose|k: int| 0 <= k < (s + t).len() && #[trigger] (s + t)[k].covers(ip);
        if k < s.len() {
            assert(s[k].covers(ip));
        } else {
            assert(t[k - s.len()].covers(ip));
        }
    }
    if covered(s, ip) {
        let k = choose|k: int| 0 <= k < s.len() && #[trigger] s[k].covers(ip);
        assert((s + t)[k] == s[k]);
    }
    if covered(t, ip) {
        let k = choose|k: int| 0 <= k < t.len() && #[trigger] t[k].covers(ip);
        assert((s + t)[s.len() + k] == t[k]);
    }
}

/// Some block of `s` holds block `b`.
pub open spec fn within(s: Seq<Ipv4Net>, b: Ipv4Net) -> bool {
    exists|i: int| 0 <= i < s.len() && #[trigger] encloses(s[i], b)
}

/// Neither block holds the other and they cannot be joined into one.
pub open spec fn pair_ok(x: Ipv4Net, y: Ipv4Net) -> bool {
    !encloses(x, y) && !encloses(y, x) && !mergeable(x, y)
}

/// Every two blocks of `s` are unrelated as `pair_ok` says.
pub open spec fn pairwise_ok(s: Seq<Ipv4Net>) -> bool {
    forall|i: int, j: int| 0 <= i < j < s.len() ==> pair_ok(#[trigger] s[i], #[trigger] s[j])
}

/// The normal form of a list of blocks: network addresses strictly
/// ascending, no block holding another, no two blocks that could be joined.
pub open spec fn normal(s: Seq<Ipv4Net>) -> bool {
    &&& forall|i: int, j: int| 0 <= i < j < s.len() ==> (#[trigger] s[i]).first() < (#[trigger] s[j]).first()
    &&& pairwise_ok(s)
}

/// Every block of `s` is written with its network address.
pub open spec fn at_network(s: Seq<Ipv4Net>) -> bool {
    forall|i: int| 0 <= i < s.len() ==> (#[trigger] s[i]).canonical()
}

/// Sorted blocks none of which holds another have distinct network addresses.
proof fn lemma_sorted_ok_is_normal(s: Seq<Ipv4Net>)
    requires
        sorted_by_first(s),
        pairwise_ok(s),
    ensures
        normal(s),
{
    assert forall|i: int, j: int| 0 <= i < j < s.len() implies (#[trigger] s[i]).first() < (#[trigger] s[j]).first() by {
        assert(pair_ok(s[i], s[j]));
    }
}

/// Blocks chained one after another lie in ascending order without overlap.
proof fn lemma_chain_order(s: Seq<Ipv4Net>, lo: u32, j: int)
    requires
        chain(s, lo),
        0 <= j < s.len(),
    ensures
        s[j].first() <= s[j].last(),
        forall|i: int| 0 <= i < j ==> (#[trigger] s[i]).last() < s[j].first(),
    decreases j,
{
    lemma_block_bounds(s[j].addr_spec(), s[j].prefix_spec());
    if j > 0 {
        lemma_chain_order(s, lo, j - 1);
        assert(s[(j - 1) + 1].first() == s[j - 1].last() + 1);
    }
}

/// The blocks that decompose a range are in normal form.
pub proof fn lemma_range_blocks_normal(s: Seq<Ipv4Net>, lo: u32, hi: u32)
    requires
        range_blocks(s, lo, hi),
    ensures
        normal(s),
{
    assert forall|i: int, j: int| 0 <= i < j < s.len() implies (#[trigger] s[i]).first() < (#[trigger] s[j]).first() by {
        lemma_chain_order(s, lo, i);
        lemma_chain_order(s, lo, j);
    }
    assert forall|i: int, j: int| 0 <= i < j < s.len() implies pair_ok(#[trigger] s[i], #[trigger] s[j]) by {
        lemma_chain_order(s, lo, i);
        lemma_chain_order(s, lo, j);
        if mergeable(s[i], s[j]) {
            let p = s[i].prefix_spec();
            lemma_block_bounds(s[i].addr_spec(), p);
            lemma_block_bounds(s[j].addr_spec(), p);
            lemma_block_double(p);
            if j > i + 1 {
                lemma_chain_order(s, lo, i + 1);
                assert(s[(i + 1) - 1 + 1].first() == s[i].last() + 1);
                assert(false);
            }
            assert(s[i + 1].first() == s[i].last() + 1);
            let last = s.len() - 1;
            lemma_chain_order(s, lo, last);
            if j < last {
                assert(s[j].last() < s[last].first());
            }
            assert(s[i].first() + block_len((p - 1) as nat) - 1 <= hi);
            assert(fits(s[i].first(), (p - 1) as nat, hi));
            assert(s[i].prefix_spec() == 0 || !fits(s[i].first(), (s[i].prefix_spec() - 1) as nat, hi));
        }
    }
}

/// A block `a` that holds the lower or upper half `h` of block `b`, with the
/// prefix length of `b` below 32, holds all of `b` unless it is that half.
proof fn lemma_half_or_whole(a: Ipv4Net, b: Ipv4Net, h: Ipv4Net)
    requires
        b.prefix_spec() < 32,
        h.prefix_spec() == b.prefix_spec() + 1,
        h.first() == h.addr_spec(),
        b.first() <= h.first(),
        h.last() <= b.last(),
        h.last() == h.first() + block_len(h.prefix_spec()) - 1,
        encloses(a, h),
    ensures
        encloses(a, b) || (a.first() == h.first() && a.last() == h.last() && a.prefix_spec() == h.prefix_spec()),
{
    let p = b.prefix_spec();
    let q = a.prefix_spec();
    lemma_block_bounds(a.addr_spec(), q);
    lemma_block_bounds(b.addr_spec(), p);
    if q <= p {
        lemma_block_bounds(h.addr_spec(), h.prefix_spec());
        assert(h.covers(h.first()));
        assert(b.covers(h.first()));
        assert(a.covers(h.first()));
        assert forall|x: u32| #[trigger] b.covers(x) implies a.covers(x) by {
            lemma_covers_mask(b.addr_spec(), p, x);
            lemma_covers_mask(b.addr_spec(), p, h.first());
            lemma_mask_coarsen(x, h.first(), q, p);
            lemma_covers_mask(a.addr_spec(), q, h.first());
            lemma_covers_mask(a.addr_spec(), q, x);
        }
        assert(b.covers(b.first()) && b.covers(b.last()));
        assert(a.covers(b.first()) && a.covers(b.last()));
    } else if q > p + 1 {
        lemma_block_len_mono((p + 1) as nat, q);
        assert(false);
    } else {
        lemma_aligned(a.first(), q);
    }
}

/// In a list of blocks none of which holds another or can be joined with
/// another (as in normal form), a block whose addresses the list all covers
/// lies within a single block of the list.
pub proof fn lemma_normal_within(s: Seq<Ipv4Net>, b: Ipv4Net)
    requires
        pairwise_ok(s),
        forall|ip: u32| #[trigger] b.covers(ip) ==> covered(s, ip),
    ensures
        within(s, b),
    decreases 32 - b.prefix_spec(),
{
    let p = b.prefix_spec();
    let f = b.first();
    lemma_block_bounds(b.addr_spec(), p);
    assert(b.covers(f));
    let i0 = choose|i: int| 0 <= i < s.len() && #[trigger] s[i].covers(f);
    if p == 32 {
        assert(encloses(s[i0], b));
        return;
    }
    let half = block_len((p + 1) as nat);
    lemma_block_double((p + 1) as nat);
    let m = netmask_of(p);
    assert((f & m) == f) by {
        let a = b.addr_spec();
        assert(((a & m) & m) == (a & m)) by (bit_vector);
    }
    lemma_aligned(f, p);
    vstd::arithmetic::div_mod::lemma_mod_mod(f as int, half as int, 2);
    assert((f as u64) % block_len(p) == 0);
    assert(block_len(p) as int == (half as int) * 2);
    assert((f as int) % ((half as int) * 2) == 0);
    vstd::arithmetic::div_mod::lemma_small_mod(0, half as nat);
    assert((f as int) % (half as int) == 0);
    let g: u32 = (f + half) as u32;
    vstd::arithmetic::div_mod::lemma_mod_multiples_vanish(1, f as int, half as int);
    assert((g as int) % (half as int) == 0);
    let lo_h = Ipv4Net::from_parts(f, (p + 1) as u8);
    let hi_h = Ipv4Net::from_parts(g, (p + 1) as u8);
    lemma_aligned(f, (p + 1) as nat);
    lemma_aligned(g, (p + 1) as nat);
    lemma_block_bounds(f, (p + 1) as nat);
    lemma_block_bounds(g, (p + 1) as nat);
    assert forall|ip: u32| #[trigger] lo_h.covers(ip) implies covered(s, ip) by {
        assert(b.covers(ip));
    }
    assert forall|ip: u32| #[trigger] hi_h.covers(ip) implies covered(s, ip) by {
        assert(b.covers(ip));
    }
    lemma_normal_within(s, lo_h);
    lemma_normal_within(s, hi_h);
    let i1 = choose|i: int| 0 <= i < s.len() && #[trigger] encloses(s[i], lo_h);
    let i2 = choose|i: int| 0 <= i < s.len() && #[trigger] encloses(s[i], hi_h);
    lemma_half_or_whole(s[i1], b, lo_h);
    lemma_half_or_whole(s[i2], b, hi_h);
    if encloses(s[i1], b) {
        return;
    }
    if encloses(s[i2], b) {
        return;
    }
    assert(mergeable(s[i1], s[i2]));
    assert(mergeable(s[i2], s[i1]));
    if i1 < i2 {
        assert(pair_ok(s[i1], s[i2]));
    } else {
        assert(pair_ok(s[i2], s[i1]));
    }
}

/// Blocks `x` and `y` span the same addresses.
pub open spec fn same_span(x: Ipv4Net, y: Ipv4Net) -> bool {
    x.first() == y.first() && x.last() == y.last()
}

/// Each block of a list in normal form spans the same addresses as some block
/// of any other list in normal form that covers the same addresses.
proof fn lemma_normal_match(s: Seq<Ipv4Net>, t: Seq<Ipv4Net>, i: int) -> (j: int)
    requires
        normal(s),
        normal(t),
        forall|ip: u32| covered(s, ip) <==> covered(t, ip),
        0 <= i < s.len(),
    ensures
        0 <= j < t.len(),
        same_span(s[i], t[j]),
{
    let x = s[i];
    assert forall|ip: u32| #[trigger] x.covers(ip) implies covered(t, ip) by {
        assert(covered(s, ip));
    }
    lemma_normal_within(t, x);
    let j = choose|j: int| 0 <= j < t.len() && #[trigger] encloses(t[j], x);
    let y = t[j];
    assert forall|ip: u32| #[trigger] y.covers(ip) implies covered(s, ip) by {
        assert(covered(t, ip));
    }
    lemma_normal_within(s, y);
    let i2 = choose|i2: int| 0 <= i2 < s.len() && #[trigger] encloses(s[i2], y);
    if i2 < i {
        assert(pair_ok(s[i2], s[i]));
    } else if i2 > i {
        assert(pair_ok(s[i], s[i2]));
    }
    j
}

/// Two lists of blocks in normal form that cover the same addresses list
/// blocks spanning the same addresses, in the same order: the spans of the
/// normal form of a set of addresses are unique.
pub proof fn lemma_normal_unique(s: Seq<Ipv4Net>, t: Seq<Ipv4Net>)
    requires
        normal(s),
        normal(t),
        forall|ip: u32| covered(s, ip) <==> covered(t, ip),
    ensures
        s.len() == t.len(),
        forall|k: int| 0 <= k < s.len() ==> same_span(#[trigger] s[k], t[k]),
{
    assert forall|ip: u32| covered(t, ip) <==> covered(s, ip) by {}
    lemma_normal_prefix(s, t, s.len() as int);
    lemma_normal_prefix(t, s, t.len() as int);
    if s.len() < t.len() {
        let j = lemma_normal_match(t, s, s.len() as int);
        assert(same_span(s[j], t[j]));
        assert(t[j].first() < t[s.len() as int].first());
    } else if t.len() < s.len() {
        let j = lemma_normal_match(s, t, t.len() as int);
        assert(same_span(t[j], s[j]));
        assert(s[j].first() < s[t.len() as int].first());
    }
}

/// Two lists of blocks in normal form, each block written with its network
/// address, that cover the same addresses are the same list: a set of
/// addresses has exactly one such form.
pub proof fn lemma_normal_form_unique(s: Seq<Ipv4Net>, t: Seq<Ipv4Net>)
    requires
        normal(s),
        normal(t),
        at_network(s),
        at_network(t),
        forall|ip: u32| covered(s, ip) <==> covered(t, ip),
    ensures
        s == t,
{
    lemma_normal_unique(s, t);
    assert forall|k: int| 0 <= k < s.len() implies s[k] == t[k] by {
        assert(same_span(s[k], t[k]));
        Ipv4Net::lemma_canonical_eq(s[k], t[k]);
    }
    assert(s =~= t);
}

/// A range has one decomposition into blocks: two lists that both
/// decompose `lo..=hi` as `range_to_cidrs` does are the same list.
pub proof fn lemma_range_blocks_unique(s: Seq<Ipv4Net>, t: Seq<Ipv4Net>, lo: u32, hi: u32)
    requires
        range_blocks(s, lo, hi),
        range_blocks(t, lo, hi),
    ensures
        s == t,
{
    lemma_range_blocks_normal(s, lo, hi);
    lemma_range_blocks_normal(t, lo, hi);
    assert forall|ip: u32| covered(s, ip) <==> covered(t, ip) by {
        lemma_chain_covers(s, lo, ip);
        lemma_chain_covers(t, lo, ip);
    }
    lemma_normal_form_unique(s, t);
}

/// The first `n` blocks of two lists in normal form with the same addresses
/// span the same addresses pairwise (as far as both lists reach).
proof fn lemma_normal_prefix(s: Seq<Ipv4Net>, t: Seq<Ipv4Net>, n: int)
    requires
        normal(s),
        normal(t),
        forall|ip: u32| covered(s, ip) <==> covered(t, ip),
        0 <= n <= s.len(),
    ensures
        forall|k: int| 0 <= k < n && k < t.len() ==> same_span(#[trigger] s[k], t[k]),
    decreases n,
{
    if n > 0 {
        lemma_normal_prefix(s, t, n - 1);
        let k = n - 1;
        if k < t.len() {
            assert forall|ip: u32| covered(t, ip) <==> covered(s, ip) by {}
            let j = lemma_normal_match(s, t, k);
            if j < k {
                assert(same_span(s[j], t[j]));
                assert(s[j].first() < s[k].first());
            } else if j > k {
                let i = lemma_normal_match(t, s, k);
                if i < k {
                    assert(same_span(s[i], t[i]));
                    assert(t[i].first() < t[k].first());
                } else if i > k {
                    assert(s[k].first() < s[i].first());
                    assert(t[k].first() < t[j].first());
                }
            }
        }
    }
}

/// Two blocks that share an address are nested: one holds the other.
pub proof fn lemma_shared_address_nested(a: Ipv4Net, b: Ipv4Net, ip: u32)
    requires
        a.covers(ip),
        b.covers(ip),
    ensures
        encloses(a, b) || encloses(b, a),
{
    let q = a.prefix_spec();
    let p = b.prefix_spec();
    lemma_block_bounds(a.addr_spec(), q);
    lemma_block_bounds(b.addr_spec(), p);
    lemma_covers_mask(a.addr_spec(), q, ip);
    lemma_covers_mask(b.addr_spec(), p, ip);
    if q <= p {
        assert forall|x: u32| #[trigger] b.covers(x) implies a.covers(x) by {
            lemma_covers_mask(b.addr_spec(), p, x);
            lemma_mask_coarsen(x, ip, q, p);
            lemma_covers_mask(a.addr_spec(), q, x);
        }
        assert(b.covers(b.first()) && b.covers(b.last()));
        assert(a.covers(b.first()) && a.covers(b.last()));
    } else {
        assert forall|x: u32| #[trigger] a.covers(x) implies b.covers(x) by {
            lemma_covers_mask(a.addr_spec(), q, x);
            lemma_mask_coarsen(x, ip, p, q);
            lemma_covers_mask(b.addr_spec(), p, x);
        }
        assert(a.covers(a.first()) && a.covers(a.last()));
        assert(b.covers(a.first()) && b.covers(a.last()));
    }
}

/// The index of a block of `t` that covers the first address of block `i` of `s`.
spec fn cover_index(s: Seq<Ipv4Net>, t: Seq<Ipv4Net>, i: int) -> int {
    choose|j: int| 0 <= j < t.len() && #[trigger] t[j].covers(s[i].first())
}

/// A list in normal form has the fewest blocks of all the lists of blocks
/// that cover the same addresses.
pub proof fn lemma_normal_minimal(s: Seq<Ipv4Net>, t: Seq<Ipv4Net>)
    requires
        normal(s),
        forall|ip: u32| covered(s, ip) <==> covered(t, ip),
    ensures
        s.len() <= t.len(),
{
    let f = |i: int| cover_index(s, t, i);
    assert forall|i: int| 0 <= i < s.len() implies 0 <= #[trigger] f(i) < t.len() && t[f(i)].covers(s[i].first()) by {
        lemma_block_bounds(s[i].addr_spec(), s[i].prefix_spec());
        assert(s[i].covers(s[i].first()));
        assert(covered(s, s[i].first()));
        assert(covered(t, s[i].first()));
    }
    let dom = vstd::set_lib::set_int_range(0, s.len() as int);
    let rng = vstd::set_lib::set_int_range(0, t.len() as int);
    assert forall|i1: int, i2: int| dom.contains(i1) && dom.contains(i2) && #[trigger] f(i1) == #[trigger] f(i2) implies i1 == i2 by {
        let y = t[f(i1)];
        assert forall|ip: u32| #[trigger] y.covers(ip) implies covered(s, ip) by {
            assert(covered(t, ip));
        }
        lemma_normal_within(s, y);
        let k = choose|k: int| 0 <= k < s.len() && #[trigger] encloses(s[k], y);
        assert(s[k].covers(s[i1].first()));
        assert(s[k].covers(s[i2].first()));
        lemma_block_bounds(s[i1].addr_spec(), s[i1].prefix_spec());
        lemma_block_bounds(s[i2].addr_spec(), s[i2].prefix_spec());
        lemma_shared_address_nested(s[k], s[i1], s[i1].first());
        lemma_shared_address_nested(s[k], s[i2], s[i2].first());
        if k != i1 {
            if k < i1 {
                assert(pair_ok(s[k], s[i1]));
            } else {
                assert(pair_ok(s[i1], s[k]));
            }
        }
        if k != i2 {
            if k < i2 {
                assert(pair_ok(s[k], s[i2]));
            } else {
                assert(pair_ok(s[i2], s[k]));
            }
        }
    }
    vstd::set_lib::lemma_int_range(0, s.len() as int);
    vstd::set_lib::lemma_int_range(0, t.len() as int);
    let img = dom.map(f);
    vstd::set_lib::lemma_map_size(dom, img, f);
    assert(img.subset_of(rng)) by {
        assert forall|j: int| img.contains(j) implies rng.contains(j) by {
            let i = choose|i: int| dom.contains(i) && f(i) == j;
        }
    }
    vstd::set_lib::lemma_len_subset(img, rng);
}

/// One pass of merging over blocks sorted by network address: each block in
/// turn is compared with the blocks kept so far; a block that holds it takes
/// its place, blocks that it holds are dropped, and a block it can be joined
/// with is replaced by the joined block, which is then compared anew.
fn merge_pass(sorted: &Vec<Ipv4Net>) -> (out: Vec<Ipv4Net>)
    ensures
        out.len() <= sorted.len(),
        forall|ip: u32| covered(out@, ip) <==> covered(sorted@, ip),
        out.len() == sorted.len() ==> out@ == sorted@ && pairwise_ok(out@),
        pairwise_ok(sorted@) ==> out@ == sorted@,
        forall|j: int| 0 <= j < out.len() ==> sorted@.contains(#[trigger] out@[j]) || out@[j].canonical(),
{
    let mut out: Vec<Ipv4Net> = Vec::new();
    let ghost mut removed: nat = 0;
    let mut k: usize = 0;
    assert(sorted@.take(0) == Seq::<Ipv4Net>::empty());
    while k < sorted.len()
        invariant
            k <= sorted.len(),
            out.len() + removed == k,
            forall|ip: u32| covered(out@, ip) <==> covered(sorted@.take(k as int), ip),
            removed == 0 ==> out@ == sorted@.take(k as int) && pairwise_ok(out@),
            pairwise_ok(sorted@) ==> removed == 0,
            forall|j: int| 0 <= j < out.len() ==> sorted@.contains(#[trigger] out@[j]) || out@[j].canonical(),
        decreases sorted.len() - k,
    {
        let mut current = sorted[k];
        let mut i: usize = 0;
        proof {
            assert(sorted@.take(k + 1) == sorted@.take(k as int).push(current));
            assert forall|ip: u32| #![trigger covered(out@, ip)] #![trigger covered(sorted@.take(k + 1), ip)] covered(out@, ip) || current.covers(ip) <==> covered(sorted@.take(k + 1), ip) by {
                lemma_push_covered(sorted@.take(k as int), current, ip);
            }
        }
        while i < out.len()
            invariant
                k < sorted.len(),
                i <= out.len(),
                out.len() + removed == k,
                forall|ip: u32| #![trigger covered(out@, ip)] #![trigger covered(sorted@.take(k + 1), ip)] covered(out@, ip) || current.covers(ip) <==> covered(sorted@.take(k + 1), ip),
                removed == 0 ==> out@ == sorted@.take(k as int) && pairwise_ok(out@) && current == sorted@[k as int]
                    && forall|j: int| 0 <= j < i ==> pair_ok(#[trigger] out@[j], current),
                pairwise_ok(sorted@) ==> removed == 0,
                forall|j: int| 0 <= j < out.len() ==> sorted@.contains(#[trigger] out@[j]) || out@[j].canonical(),
                sorted@.contains(current) || current.canonical(),
            decreases out.len(), out.len() - i,
        {
            let existing = out[i];
            let ghost before = out@;
            let ghost cur0 = current;
            assert(before[i as int] == existing);
            assert(sorted@.contains(existing) || existing.canonical());
            assert(forall|ip: u32| #![trigger covered(before, ip)] covered(before, ip) || cur0.covers(ip) <==> covered(sorted@.take(k + 1), ip));
            proof {
                if removed == 0 && pairwise_ok(sorted@) {
                    assert(before[i as int] == sorted@[i as int]);
                    assert(pair_ok(sorted@[i as int], sorted@[k as int]));
                }
            }
            if cidr_overlap(&existing, &current) {
                current = existing;
                out.remove(i);
                proof {
                    removed = removed + 1;
                    assert forall|ip: u32| #![trigger covered(out@, ip)] #![trigger covered(sorted@.take(k + 1), ip)] covered(out@, ip) || current.covers(ip) <==> covered(sorted@.take(k + 1), ip) by {
                        lemma_remove_covered(before, i as int, ip);
                        assert(covered(before, ip) || cur0.covers(ip) <==> covered(sorted@.take(k + 1), ip));
                        assert(cur0.covers(ip) ==> existing.covers(ip));
                    }
                }
                continue;
            }
            if cidr_overlap(&current, &existing) {
                out.remove(i);
                proof {
                    removed = removed + 1;
                    assert forall|ip: u32| #![trigger covered(out@, ip)] #![trigger covered(sorted@.take(k + 1), ip)] covered(out@, ip) || current.covers(ip) <==> covered(sorted@.take(k + 1), ip) by {
                        lemma_remove_covered(before, i as int, ip);
                        assert(covered(before, ip) || cur0.covers(ip) <==> covered(sorted@.take(k + 1), ip));
                        assert(existing.covers(ip) ==> cur0.covers(ip));
                    }
                }
                continue;
            }
            if let Some(m) = try_merge(&existing, &current) {
                let ghost at = i;
                current = m;
                out.remove(i);
                i = 0;
                proof {
                    removed = removed + 1;
                    assert forall|ip: u32| #![trigger covered(out@, ip)] #![trigger covered(sorted@.take(k + 1), ip)] covered(out@, ip) || current.covers(ip) <==> covered(sorted@.take(k + 1), ip) by {
                        lemma_remove_covered(before, at as int, ip);
                        assert(covered(before, ip) || cur0.covers(ip) <==> covered(sorted@.take(k + 1), ip));
                        assert(m.covers(ip) <==> existing.covers(ip) || cur0.covers(ip));
                    }
                }
                continue;
            }
            i = i + 1;
        }
        let ghost before = out@;
        out.push(current);
        proof {
            assert forall|ip: u32| covered(out@, ip) <==> covered(sorted@.take(k + 1), ip) by {
                lemma_push_covered(before, current, ip);
            }
            if removed == 0 {
                assert(out@ == sorted@.take(k + 1));
                assert forall|a: int, b: int| 0 <= a < b < out.len() implies pair_ok(#[trigger] out@[a], #[trigger] out@[b]) by {
                    if b < before.len() {
                        assert(out@[a] == before[a] && out@[b] == before[b]);
                    } else {
                        assert(out@[a] == before[a]);
                    }
                }
            }
        }
        k = k + 1;
    }
    assert(sorted@.take(sorted.len() as int) == sorted@);
    out
}

/// A set of IPv4 addresses, held as a list of CIDR blocks. The constructors
/// (all but `from_cidrs`) give sets in normal form with every block written
/// with its network address, and `insert` and `normalize` keep both; such a
/// set has one list of blocks for its addresses (`lemma_normal_form_unique`).
#[derive(Debug, Clone)]
pub struct AddressSet {
    cidrs: Vec<Ipv4Net>,
}

impl View for AddressSet {
    type V = Seq<Ipv4Net>;

    closed spec fn view(&self) -> Seq<Ipv4Net> {
        self.cidrs@
    }
}

/// The addresses that a parsed notation denotes: the address itself, the
/// block, the range from start to end, the addresses that agree with the
/// base on the bits of the netmask, or those from the base with the wildcard
/// bits cleared to the base with them set.
pub open spec fn parsed_has(p: ParsedAddress, ip: u32) -> bool {
    match p {
        ParsedAddress::Ip(a) => ip == a.0,
        ParsedAddress::Cidr(n) => n.covers(ip),
        ParsedAddress::Range(a, b) => a.0 <= ip <= b.0,
        ParsedAddress::Netmask(b, m) => (ip & m.0) == (b.0 & m.0),
        ParsedAddress::Wildcard(b, w) => (b.0 & !w.0) <= ip <= (b.0 | w.0),
    }
}

/// `s` lists the blocks that the constructor for notation `p` builds: the
/// /32 block of an address, a block written with its network address, the
/// decomposition of a range (none for a range whose start comes after its
/// end), the block of a netmask pair, the decomposition of the range of a
/// wildcard pair.
pub open spec fn built_from(s: Seq<Ipv4Net>, p: ParsedAddress) -> bool {
    match p {
        ParsedAddress::Ip(a) => s == seq![Ipv4Net::from_parts(a.0, 32)],
        ParsedAddress::Cidr(n) => s == seq![Ipv4Net::from_parts(n.first(), n.prefix_spec() as u8)],
        ParsedAddress::Range(a, b) => if a.0 <= b.0 {
            range_blocks(s, a.0, b.0)
        } else {
            s.len() == 0
        },
        ParsedAddress::Netmask(b, m) => s == seq![Ipv4Net::from_parts(b.0 & m.0, mask_len(m.0) as u8)],
        ParsedAddress::Wildcard(b, w) => range_blocks(s, b.0 & !w.0, b.0 | w.0),
    }
}

/// A notation determines its blocks: two lists that `built_from` relates to
/// the same notation are the same list, so that `try_from` gives the blocks
/// that the constructor for the notation gives.
pub proof fn lemma_built_from_unique(s: Seq<Ipv4Net>, t: Seq<Ipv4Net>, p: ParsedAddress)
    requires
        built_from(s, p),
        built_from(t, p),
    ensures
        s == t,
{
    match p {
        ParsedAddress::Range(a, b) => {
            if a.0 <= b.0 {
                lemma_range_blocks_unique(s, t, a.0, b.0);
            } else {
                assert(s =~= t);
            }
        },
        ParsedAddress::Wildcard(b, w) => {
            lemma_range_blocks_unique(s, t, b.0 & !w.0, b.0 | w.0);
        },
        _ => {},
    }
}

/// What a set in normal form with every block written with its network
/// address looks like: each block is written with its network address, each
/// block ends before the next one starts, no two blocks can be joined, and no
/// list of blocks that covers the same addresses has fewer blocks.
pub proof fn lemma_wf_blocks(set: AddressSet)
    requires
        set.wf(),
    ensures
        forall|i: int| 0 <= i < set@.len() ==> (#[trigger] set@[i]).canonical(),
        forall|i: int| 0 <= i < set@.len() ==> (#[trigger] set@[i]).addr_spec() == set@[i].first(),
        forall|i: int, j: int| 0 <= i < j < set@.len() ==> (#[trigger] set@[i]).last() < (#[trigger] set@[j]).first(),
        forall|i: int, j: int| 0 <= i < set@.len() && 0 <= j < set@.len() && i != j ==> !mergeable(
            #[trigger] set@[i],
            #[trigger] set@[j],
        ),
        forall|t: Seq<Ipv4Net>| (forall|ip: u32| covered(t, ip) <==> #[trigger] set.has(ip)) ==> set@.len() <= #[trigger] t.len(),
{
    let s = set@;
    assert forall|i: int| 0 <= i < s.len() implies (#[trigger] s[i]).addr_spec() == s[i].first() by {
        assert(s[i].canonical());
    }
    assert forall|i: int, j: int| 0 <= i < j < s.len() implies (#[trigger] s[i]).last() < (#[trigger] s[j]).first() by {
        assert(pair_ok(s[i], s[j]));
        assert(s[i].first() < s[j].first());
        if s[j].first() <= s[i].last() {
            lemma_block_bounds(s[j].addr_spec(), s[j].prefix_spec());
            lemma_shared_address_nested(s[i], s[j], s[j].first());
        }
    }
    assert forall|i: int, j: int| 0 <= i < s.len() && 0 <= j < s.len() && i != j implies !mergeable(
        #[trigger] s[i],
        #[trigger] s[j],
    ) by {
        if i < j {
            assert(pair_ok(s[i], s[j]));
        } else {
            assert(pair_ok(s[j], s[i]));
        }
    }
    assert forall|t: Seq<Ipv4Net>| (forall|ip: u32| covered(t, ip) <==> #[trigger] set.has(ip)) implies s.len() <= #[trigger] t.len() by {
        assert forall|ip: u32| covered(s, ip) <==> covered(t, ip) by {
            assert(covered(t, ip) <==> set.has(ip));
        }
        lemma_normal_minimal(s, t);
    }
}

impl AddressSet {
    /// Whether the set holds `ip`.
    pub open spec fn has(self, ip: u32) -> bool {
        covered(self@, ip)
    }

    /// The set is in normal form with every block written with its network
    /// address: what every constructor but `from_cidrs` gives, and what
    /// `insert` and `normalize` keep.
    pub open spec fn wf(self) -> bool {
        normal(self@) && at_network(self@)
    }

    /// Reads an address string (see [`crate::ipparse::parse`]) into a set.
    ///
    /// Fails exactly where reading the string fails, with the same error.
    pub fn parse(s: &str) -> (r: Result<AddressSet, ParseError>)
        ensures
            match parse_spec(s@, false) {
                Ok(p) => r matches Ok(set) && built_from(set@, p) && forall|ip: u32| #[trigger] set.has(ip)
                    <==> parsed_has(p, ip),
                Err(e) => r == Err::<AddressSet, ParseError>(e),
            },
            r matches Ok(set) ==> set.wf(),
    {
        match parse(s) {
            Ok(p) => Self::try_from(p),
            Err(e) => Err(e),
        }
    }

    /// The set of addresses that a parsed notation denotes. A netmask pair
    /// whose mask is not a subnet mask is refused with `InvalidNetmask`.
    pub fn try_from(value: ParsedAddress) -> (r: Result<AddressSet, ParseError>)
        ensures
            match value {
                ParsedAddress::Netmask(_, m) => r is Err <==> !contiguous_mask(m.0),
                _ => r is Ok,
            },
            r matches Err(e) ==> e == ParseError::InvalidNetmask,
            r matches Ok(set) ==> built_from(set@, value),
            r matches Ok(set) ==> forall|ip: u32| #[trigger] set.has(ip) <==> parsed_has(value, ip),
            r matches Ok(set) ==> set.wf(),
    {
        match value {
            ParsedAddress::Ip(ip) => Ok(Self::from_ip(ip)),
            ParsedAddress::Cidr(net) => Ok(Self::from_cidr(net)),
            ParsedAddress::Range(start, end) => Ok(Self::from_range(start, end)),
            ParsedAddress::Netmask(base, mask) => {
                if is_valid_subnet_mask(mask) {
                    Ok(Self::from_netmask(base, mask))
                } else {
                    Err(ParseError::InvalidNetmask)
                }
            },
            ParsedAddress::Wildcard(base, wildcard) => {
                let b = base.0;
                let w = wildcard.0;
                assert((b & !w) <= (b | w)) by (bit_vector);
                Ok(Self::from_range(Ipv4Addr(b & !w), Ipv4Addr(b | w)))
            },
        }
    }

    /// The empty set.
    pub fn empty() -> (r: AddressSet)
        ensures
            r@ == Seq::<Ipv4Net>::empty(),
            forall|ip: u32| !#[trigger] r.has(ip),
            r.wf(),
    {
        AddressSet { cidrs: Vec::new() }
    }

    /// The set of the given blocks, as they are.
    pub fn from_cidrs(cidrs: Vec<Ipv4Net>) -> (r: AddressSet)
        ensures
            r@ == cidrs@,
    {
        AddressSet { cidrs }
    }

    /// The set holding just `ip`.
    pub fn from_ip(ip: Ipv4Addr) -> (r: AddressSet)
        ensures
            r@ == seq![Ipv4Net::from_parts(ip.0, 32)],
            forall|x: u32| #[trigger] r.has(x) <==> x == ip.0,
            r.wf(),
    {
        let net = match Ipv4Net::new(ip, 32) {
            Ok(n) => n,
            Err(_) => {
                return AddressSet { cidrs: Vec::new() };
            },
        };
        let mut cidrs = Vec::new();
        cidrs.push(net);
        let r = AddressSet { cidrs };
        proof {
            assert(r@ == seq![Ipv4Net::from_parts(ip.0, 32)]);
            lemma_host_block(ip.0);
            assert forall|x: u32| #[trigger] r.has(x) <==> x == ip.0 by {
                assert(r@[0] == net);
                if x == ip.0 {
                    assert(r@[0].covers(x));
                }
            }
        }
        r
    }

    /// The set holding the block of `net`, written with its network address.
    pub fn from_cidr(net: Ipv4Net) -> (r: AddressSet)
        ensures
            r@ == seq![Ipv4Net::from_parts(net.first(), net.prefix_spec() as u8)],
            forall|x: u32| #[trigger] r.has(x) <==> net.covers(x),
            r.wf(),
    {
        let n = match Ipv4Net::new(net.network(), net.prefix_len()) {
            Ok(n) => n,
            Err(_) => {
                return AddressSet { cidrs: Vec::new() };
            },
        };
        proof {
            lemma_masked_block(net.addr_spec(), net.prefix_spec());
        }
        let mut cidrs = Vec::new();
        cidrs.push(n);
        let r = AddressSet { cidrs };
        proof {
            assert(r@ == seq![Ipv4Net::from_parts(net.first(), net.prefix_spec() as u8)]);
            assert forall|x: u32| #[trigger] r.has(x) <==> net.covers(x) by {
                assert(r@[0] == n);
                if net.covers(x) {
                    assert(r@[0].covers(x));
                }
            }
        }
        r
    }

    /// The set of the addresses from `start` to `end`, both included, as the
    /// blocks that [`range_to_cidrs`] gives; empty when `start` comes after `end`.
    pub fn from_range(start: Ipv4Addr, end: Ipv4Addr) -> (r: AddressSet)
        ensures
            start.0 > end.0 ==> r@.len() == 0,
            start.0 <= end.0 ==> range_blocks(r@, start.0, end.0),
            forall|x: u32| #[trigger] r.has(x) <==> start.0 <= x <= end.0,
            r.wf(),
    {
        let r = AddressSet { cidrs: range_to_cidrs(start, end) };
        proof {
            if start.0 <= end.0 {
                lemma_range_blocks_normal(r@, start.0, end.0);
            }
            assert forall|x: u32| #[trigger] r.has(x) <==> start.0 <= x <= end.0 by {
                if start.0 <= end.0 {
                    lemma_chain_covers(r@, start.0, x);
                }
            }
        }
        r
    }

    /// The set of the addresses that agree with `base` on the bits of the
    /// subnet mask `mask`.
    pub fn from_netmask(base: Ipv4Addr, mask: Ipv4Addr) -> (r: AddressSet)
        requires
            contiguous_mask(mask.0),
        ensures
            r@ == seq![Ipv4Net::from_parts(base.0 & mask.0, mask_len(mask.0) as u8)],
            forall|x: u32| #[trigger] r.has(x) <==> (x & mask.0) == (base.0 & mask.0),
            r.wf(),
    {
        let mask_u32 = mask.0;
        let prefix = mask_u32.leading_ones() as u8;
        proof {
            lemma_contiguous_netmask(mask_u32);
        }
        let network = Ipv4Addr(base.0 & mask_u32);
        let net = match Ipv4Net::new(network, prefix) {
            Ok(n) => n,
            Err(_) => {
                return AddressSet { cidrs: Vec::new() };
            },
        };
        let r = Self::from_cidr(net);
        proof {
            let m = netmask_of(prefix as nat);
            let b = base.0;
            assert(((b & m) & m) == (b & m)) by (bit_vector);
            assert forall|x: u32| #[trigger] r.has(x) <==> (x & mask.0) == (base.0 & mask.0) by {
                lemma_covers_mask(b & m, prefix as nat, x);
            }
        }
        r
    }

    /// Whether the set holds `ip`.
    pub fn contains_ip(&self, ip: Ipv4Addr) -> (r: bool)
        ensures
            r == self.has(ip.0),
    {
        let mut i: usize = 0;
        while i < self.cidrs.len()
            invariant
                i <= self.cidrs.len(),
                forall|j: int| 0 <= j < i ==> !(#[trigger] self.cidrs@[j]).covers(ip.0),
            decreases self.cidrs.len() - i,
        {
            if self.cidrs[i].contains(&ip) {
                return true;
            }
            i = i + 1;
        }
        false
    }

    /// Whether some block of the set holds block `b`.
    fn any_encloses(&self, b: &Ipv4Net) -> (r: bool)
        ensures
            r == within(self@, *b),
    {
        let mut i: usize = 0;
        while i < self.cidrs.len()
            invariant
                i <= self.cidrs.len(),
                forall|k: int| 0 <= k < i ==> !#[trigger] encloses(self@[k], *b),
            decreases self.cidrs.len() - i,
        {
            if cidr_overlap(&self.cidrs[i], b) {
                assert(encloses(self@[i as int], *b));
                return true;
            }
            i = i + 1;
        }
        false
    }

    /// Whether every block of `other` lies within a single block of this set.
    /// This means that `other` is a subset of this set; when no block of this
    /// set holds another or can be joined with another (as in normal form,
    /// which every set that `parse`, `try_from`, `empty`, `from_ip`,
    /// `from_cidr`, `from_range`, `from_netmask`, `normalize` and `insert`
    /// give is in), the converse holds too, so that the answer is exactly
    /// whether `other` is a subset.
    pub fn contains(&self, other: &AddressSet) -> (r: bool)
        ensures
            r == forall|j: int| 0 <= j < other@.len() ==> within(self@, #[trigger] other@[j]),
            r ==> forall|ip: u32| #[trigger] other.has(ip) ==> self.has(ip),
            pairwise_ok(self@) ==> (r <==> forall|ip: u32| #[trigger] other.has(ip) ==> self.has(ip)),
    {
        let mut j: usize = 0;
        while j < other.cidrs.len()
            invariant
                j <= other.cidrs.len(),
                forall|k: int| 0 <= k < j ==> within(self@, #[trigger] other@[k]),
            decreases other.cidrs.len() - j,
        {
            let b = &other.cidrs[j];
            if !self.any_encloses(b) {
                assert(!within(self@, other@[j as int]));
                proof {
                    if pairwise_ok(self@) && forall|ip: u32| #[trigger] other.has(ip) ==> self.has(ip) {
                        assert forall|ip: u32| #[trigger] other@[j as int].covers(ip) implies covered(self@, ip) by {
                            assert(other.has(ip));
                        }
                        lemma_normal_within(self@, other@[j as int]);
                    }
                }
                return false;
            }
            j = j + 1;
        }
        proof {
            assert forall|ip: u32| #[trigger] other.has(ip) implies self.has(ip) by {
                let k = choose|k: int| 0 <= k < other@.len() && #[trigger] other@[k].covers(ip);
                assert(within(self@, other@[k]));
                let i = choose|i: int| 0 <= i < self@.len() && #[trigger] encloses(self@[i], other@[k]);
                assert(self@[i].covers(ip));
            }
        }
        true
    }

    /// Adds the addresses of `other` to this set and brings the result into
    /// normal form. Each block of the result is a block of either set or a
    /// block written with its network address.
    pub fn insert(&mut self, other: AddressSet)
        ensures
            forall|ip: u32| #[trigger] final(self).has(ip) <==> old(self).has(ip) || other.has(ip),
            normal(final(self)@),
            forall|i: int| 0 <= i < final(self)@.len() ==> old(self)@.contains(#[trigger] final(self)@[i])
                || other@.contains(final(self)@[i]) || final(self)@[i].canonical(),
            at_network(old(self)@) && at_network(other@) ==> at_network(final(self)@),
            old(self).wf() && other.wf() ==> final(self).wf(),
    {
        let ghost start = self@;
        let mut i: usize = 0;
        while i < other.cidrs.len()
            invariant
                i <= other.cidrs.len(),
                self@ == start + other@.take(i as int),
            decreases other.cidrs.len() - i,
        {
            self.cidrs.push(other.cidrs[i]);
            assert(other@.take(i + 1) == other@.take(i as int).push(other@[i as int]));
            i = i + 1;
        }
        assert(other@.take(other@.len() as int) == other@);
        let ghost joined = self@;
        proof {
            assert forall|ip: u32| #[trigger] self.has(ip) <==> covered(start, ip) || other.has(ip) by {
                lemma_concat_covered(start, other@, ip);
            }
        }
        self.normalize();
        proof {
            assert forall|i: int| 0 <= i < self@.len() implies start.contains(#[trigger] self@[i])
                || other@.contains(self@[i]) || self@[i].canonical() by {
                if joined.contains(self@[i]) {
                    let k = choose|k: int| 0 <= k < joined.len() && joined[k] == self@[i];
                    if k < start.len() {
                        assert(start[k] == joined[k]);
                    } else {
                        assert(other@[k - start.len()] == joined[k]);
                    }
                }
            }
            if at_network(start) && at_network(other@) {
                assert forall|k: int| 0 <= k < joined.len() implies (#[trigger] joined[k]).canonical() by {
                    if k < start.len() {
                        assert(start[k] == joined[k]);
                    } else {
                        assert(other@[k - start.len()] == joined[k]);
                    }
                }
            }
        }
    }

    /// The blocks of the set.
    pub fn cidrs(&self) -> (r: &[Ipv4Net])
        ensures
            r@ == self@,
    {
        self.cidrs.as_slice()
    }

    /// The single address of the set, when it is one /32 block.
    pub fn host(&self) -> (r: Option<Ipv4Addr>)
        ensures
            r == if self@.len() == 1 && self@[0].prefix_spec() == 32 {
                Some(Ipv4Addr(self@[0].addr_spec()))
            } else {
                None
            },
    {
        if self.cidrs.len() != 1 {
            return None;
        }
        let net = &self.cidrs[0];
        if net.prefix_len() == 32 {
            Some(net.addr())
        } else {
            None
        }
    }

    /// Brings the blocks into normal form: sorted by network address, with
    /// blocks held by others dropped and blocks that lie side by side joined,
    /// until nothing changes. The set of addresses stays the same, and blocks
    /// already in normal form are left as they are. Each block of the result
    /// is one of the blocks the set had or a block written with its network
    /// address (a joined block is written with the first address of the pair).
    pub fn normalize(&mut self)
        ensures
            forall|ip: u32| final(self).has(ip) <==> old(self).has(ip),
            normal(final(self)@),
            normal(old(self)@) ==> final(self)@ == old(self)@,
            final(self)@.len() <= old(self)@.len(),
            forall|i: int| 0 <= i < final(self)@.len() ==> old(self)@.contains(#[trigger] final(self)@[i])
                || final(self)@[i].canonical(),
            at_network(old(self)@) ==> final(self).wf(),
    {
        let ghost start = self@;
        loop
            invariant_except_break
                forall|ip: u32| covered(self.cidrs@, ip) <==> covered(start, ip),
                normal(start) ==> self.cidrs@ == start,
                self.cidrs.len() <= start.len(),
                forall|i: int| 0 <= i < self.cidrs.len() ==> start.contains(#[trigger] self.cidrs@[i])
                    || self.cidrs@[i].canonical(),
            ensures
                forall|ip: u32| covered(self.cidrs@, ip) <==> covered(start, ip),
                normal(self.cidrs@),
                normal(start) ==> self.cidrs@ == start,
                self.cidrs.len() <= start.len(),
                forall|i: int| 0 <= i < self.cidrs.len() ==> start.contains(#[trigger] self.cidrs@[i])
                    || self.cidrs@[i].canonical(),
            decreases self.cidrs.len(),
        {
            let before = self.cidrs.len();
            let sorted = sort_by_network(&self.cidrs);
            proof {
                if normal(start) {
                    assert(sorted_by_first(self.cidrs@));
                }
            }
            let out = merge_pass(&sorted);
            proof {
                assert forall|i: int| 0 <= i < out.len() implies start.contains(#[trigger] out@[i])
                    || out@[i].canonical() by {
                    if sorted@.contains(out@[i]) {
                        assert(self.cidrs@.contains(out@[i]));
                        let k = choose|k: int| 0 <= k < self.cidrs.len() && self.cidrs@[k] == out@[i];
                        assert(start.contains(self.cidrs@[k]) || self.cidrs@[k].canonical());
                    }
                }
                assert forall|ip: u32| covered(out@, ip) <==> covered(start, ip) by {
                    lemma_same_blocks_covered(sorted@, self.cidrs@, ip);
                }
            }
            self.cidrs = out;
            if self.cidrs.len() == before {
                proof {
                    lemma_sorted_ok_is_normal(self.cidrs@);
                }
                break;
            }
        }
    }
}

} // verus!
