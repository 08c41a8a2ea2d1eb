//! Relations between CIDR blocks, and the decomposition of an address range
//! into CIDR blocks.

use vstd::prelude::*;
use crate::net::{block_len, lemma_aligned, lemma_block_bounds, netmask_of, Ipv4Addr, Ipv4Net};

verus! {

broadcast use Ipv4Net::lemma_from_parts, Ipv4Net::lemma_prefix_bound;

/// Block `a` holds every address of block `b`.
pub open spec fn encloses(a: Ipv4Net, b: Ipv4Net) -> bool {
    a.first() <= b.first() && b.last() <= a.last()
}

/// Some block of `s` holds `ip`.
pub open spec fn covered(s: Seq<Ipv4Net>, ip: u32) -> bool {
    exists|i: int| 0 <= i < s.len() && #[trigger] s[i].covers(ip)
}

/// The block starting at `x` with prefix length `p` lies within `x..=hi`
/// and `x` is a multiple of its length.
pub open spec fn fits(x: u32, p: nat, hi: u32) -> bool {
    &&& (x as u64) % block_len(p) == 0
    &&& x + block_len(p) - 1 <= hi
}

/// `s` lists blocks that follow one another without gap from `lo` on, each
/// written with its network address.
pub open spec fn chain(s: Seq<Ipv4Net>, lo: u32) -> bool {
    &&& s.len() > 0
    &&& s[0].first() == lo
    &&& forall|i: int| 0 <= i < s.len() ==> (#[trigger] s[i]).canonical()
    &&& forall|i: int| 0 <= i < s.len() - 1 ==> (#[trigger] s[i + 1]).first() == s[i].last() + 1
}

/// Each block of `s` is the largest that starts where it starts and ends no
/// later than `hi`.
pub open spec fn greedy(s: Seq<Ipv4Net>, hi: u32) -> bool {
    forall|i: int|
        0 <= i < s.len() ==> (#[trigger] s[i]).prefix_spec() == 0 || !fits(
            s[i].first(),
            (s[i].prefix_spec() - 1) as nat,
            hi,
        )
}

/// `s` is the decomposition of `lo..=hi` into CIDR blocks that
/// `range_to_cidrs` produces.
pub open spec fn range_blocks(s: Seq<Ipv4Net>, lo: u32, hi: u32) -> bool {
    &&& chain(s, lo)
    &&& s.last().last() == hi
    &&& greedy(s, hi)
}

/// Blocks chained from `lo` hold exactly the addresses from `lo` to the end
/// of the last block.
pub proof fn lemma_chain_covers(s: Seq<Ipv4Net>, lo: u32, ip: u32)
    requires
        chain(s, lo),
    ensures
        covered(s, ip) <==> lo <= ip <= s.last().last(),
        lo <= s.last().last(),
    decreases s.len(),
{
    let n = s.last();
    lemma_block_bounds(n.addr_spec(), n.prefix_spec());
    if s.len() == 1 {
        if covered(s, ip) {
            let i = choose|i: int| 0 <= i < s.len() && #[trigger] s[i].covers(ip);
            assert(i == 0);
        }
        if lo <= ip <= n.last() {
            assert(s[0].covers(ip));
        }
    } else {
        let t = s.drop_last();
        assert(chain(t, lo)) by {
            assert forall|i: int| 0 <= i < t.len() - 1 implies (#[trigger] t[i + 1]).first() == t[i].last() + 1 by {
                assert(s[i + 1].first() == s[i].last() + 1);
            }
            assert forall|i: int| 0 <= i < t.len() implies (#[trigger] t[i]).canonical() by {
                assert(s[i].canonical());
            }
        }
        lemma_chain_covers(t, lo, ip);
        let k = s.len() - 2;
        assert(s[k + 1].first() == s[k].last() + 1);
        if covered(s, ip) {
            let i = choose|i: int| 0 <= i < s.len() && #[trigger] s[i].covers(ip);
            if i < s.len() - 1 {
                assert(t[i].covers(ip));
            }
        }
        if lo <= ip <= n.last() {
            if ip <= t.last().last() {
                let i = choose|i: int| 0 <= i < t.len() && #[trigger] t[i].covers(ip);
                assert(s[i].covers(ip));
            } else {
                assert(s[s.len() - 1].covers(ip));
            }
        }
    }
}

/// Appending a block adds its addresses to those covered.
pub proof fn lemma_push_covered(s: Seq<Ipv4Net>, x: Ipv4Net, ip: u32)
    ensures
        covered(s.push(x), ip) <==> covered(s, ip) || x.covers(ip),
{
    if covered(s, ip) {
        let i = choose|i: int| 0 <= i < s.len() && #[trigger] s[i].covers(ip);
        assert(s.push(x)[i] == s[i]);
    }
    if x.covers(ip) {
        assert(s.push(x)[s.len() as int] == x);
    }
    if covered(s.push(x), ip) {
        let i = choose|i: int| 0 <= i < s.push(x).len() && #[trigger] s.push(x)[i].covers(ip);
        if i < s.len() {
            assert(s[i] == s.push(x)[i]);
        }
    }
}

/// Taking out block `i` leaves what it covered to it alone.
pub proof fn lemma_remove_covered(s: Seq<Ipv4Net>, i: int, ip: u32)
    requires
        0 <= i < s.len(),
    ensures
        covered(s, ip) <==> covered(s.remove(i), ip) || s[i].covers(ip),
{
    let r = s.remove(i);
    if covered(s, ip) {
        let k = choose|k: int| 0 <= k < s.len() && #[trigger] s[k].covers(ip);
        if k < i {
            assert(r[k] == s[k]);
        } else if k > i {
            assert(r[k - 1] == s[k]);
        }
    }
    if covered(r, ip) {
        let k = choose|k: int| 0 <= k < r.len() && #[trigger] r[k].covers(ip);
        if k < i {
            assert(r[k] == s[k]);
        } else {
            assert(r[k] == s[k + 1]);
        }
    }
}

/// Lists with the same blocks cover the same addresses.
pub proof fn lemma_same_blocks_covered(s: Seq<Ipv4Net>, t: Seq<Ipv4Net>, ip: u32)
    requires
        forall|x: Ipv4Net| s.contains(x) <==> t.contains(x),
    ensures
        covered(s, ip) <==> covered(t, ip),
{
    if covered(s, ip) {
        let k = choose|k: int| 0 <= k < s.len() && #[trigger] s[k].covers(ip);
        assert(s.contains(s[k]));
        assert(t.contains(s[k]));
        let j = choose|j: int| 0 <= j < t.len() && t[j] == s[k];
        assert(t[j].covers(ip));
    }
    if covered(t, ip) {
        let k = choose|k: int| 0 <= k < t.len() && #[trigger] t[k].covers(ip);
        assert(t.contains(t[k]));
        assert(s.contains(t[k]));
        let j = choose|j: int| 0 <= j < s.len() && s[j] == t[k];
        assert(s[j].covers(ip));
    }
}

/// Whether block `a` holds every address of block `b`.
pub fn cidr_overlap(a: &Ipv4Net, b: &Ipv4Net) -> (r: bool)
    ensures
        r == encloses(*a, *b),
{
    let a_start = a.network().0;
    let a_end = a.broadcast().0;
    let b_start = b.network().0;
    let b_end = b.broadcast().0;
    a_start <= b_start && b_end <= a_end
}

/// The first and last address of the block with prefix length `p` that starts
/// at the multiple `x` of its length.
proof fn lemma_aligned_block(x: u32, p: nat)
    requires
        p <= 32,
        (x as u64) % block_len(p) == 0,
    ensures
        (x & netmask_of(p)) == x,
        (x | !netmask_of(p)) as int == x + block_len(p) - 1,
{
    lemma_aligned(x, p);
    lemma_block_bounds(x, p);
}

/// The CIDR blocks that together hold exactly the addresses from `start` to
/// `end` (both included), in ascending order, each the largest block that
/// starts where it starts and ends no later than `end`; none when `start`
/// comes after `end`. These are the fewest blocks that hold the range (see
/// `addressset::lemma_range_blocks_normal` and `addressset::lemma_normal_minimal`).
pub fn range_to_cidrs(start: Ipv4Addr, end: Ipv4Addr) -> (r: Vec<Ipv4Net>)
    ensures
        start.0 > end.0 ==> r.len() == 0,
        start.0 <= end.0 ==> range_blocks(r@, start.0, end.0),
{
    let mut result: Vec<Ipv4Net> = Vec::new();
    let mut current = start.0;
    let end = end.0;
    if current > end {
        return result;
    }
    while current <= end
        invariant_except_break
            start.0 <= end,
            result.len() == 0 ==> current == start.0,
            result.len() > 0 ==> chain(result@, start.0) && greedy(result@, end)
                && result@.last().last() + 1 == current && result@.last().last() <= end,
        ensures
            range_blocks(result@, start.0, end),
        decreases 0x1_0000_0000 - current,
    {
        let mut prefix: u8 = 32;
        assert(fits(current, 32, end));
        loop
            invariant_except_break
                prefix <= 32,
                current <= end,
                fits(current, prefix as nat, end),
            ensures
                prefix <= 32,
                fits(current, prefix as nat, end),
                prefix == 0 || !fits(current, (prefix - 1) as nat, end),
            decreases prefix,
        {
            if prefix == 0 {
                break;
            }
            let candidate = prefix - 1;
            proof {
                lemma_block_bounds(current, candidate as nat);
            }
            let block_size: u64 = 1u64 << (32 - candidate);
            assert(block_size == block_len(candidate as nat));
            let aligned = (current as u64) % block_size == 0;
            let fits_in = (current as u64) + block_size - 1 <= end as u64;
            if aligned && fits_in {
                prefix = candidate;
            } else {
                break;
            }
        }
        let ghost before = result@;
        proof {
            lemma_aligned_block(current, prefix as nat);
            lemma_block_bounds(current, prefix as nat);
        }
        let net = match Ipv4Net::new(Ipv4Addr(current), prefix) {
            Ok(n) => n,
            Err(_) => {
                return result;
            },
        };
        result.push(net);
        proof {
            assert(result@ == before.push(net));
            assert(net.first() == current);
            assert(net.canonical());
            assert forall|i: int| 0 <= i < result.len() implies (#[trigger] result@[i]).canonical() by {
                if i < before.len() {
                    assert(before[i].canonical());
                }
            }
            assert forall|i: int| 0 <= i < result.len() - 1 implies (#[trigger] result@[i + 1]).first()
                == result@[i].last() + 1 by {
                if i + 1 < before.len() {
                    assert(before[i + 1].first() == before[i].last() + 1);
                }
            }
            assert forall|i: int| 0 <= i < result.len() implies (#[trigger] result@[i]).prefix_spec() == 0
                || !fits(result@[i].first(), (result@[i].prefix_spec() - 1) as nat, end) by {
                if i < before.len() {
                    assert(before[i].prefix_spec() == 0 || !fits(before[i].first(), (before[i].prefix_spec() - 1) as nat, end));
                }
            }
        }
        if prefix == 0 {
            proof {
                lemma_block_bounds(current, 0);
            }
            break;
        }
        let block_size: u32 = 1u32 << (32 - prefix);
        assert(block_size as u64 == block_len(prefix as nat)) by {
            let q: u8 = (32 - prefix) as u8;
            assert(block_size == 1u32 << q);
            assert(q < 32 ==> (1u32 << q) as u64 == 1u64 << (q as u64)) by (bit_vector);
            assert(((32 - (prefix as nat)) as u64) == (q as u64));
            assert(1u64 << 0u64 == 1u64) by (bit_vector);
            assert(block_len(prefix as nat) == 1u64 << (q as u64));
        }
        match current.checked_add(block_size) {
            Some(next) => current = next,
            None => {
                break;
            },
        }
    }
    result
}

} // verus!
