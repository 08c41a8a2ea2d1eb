//! Reading the textual notations of address sets: a single address
//! (`192.168.1.1`), a CIDR block (`192.168.1.0/24`), an inclusive range
//! (`192.168.1.10-192.168.1.20`), and an address followed by a netmask
//! (`192.168.1.0 255.255.255.0`) or by a wildcard mask (`10.0.0.0 0.0.0.255`).

use vstd::prelude::*;
use vstd::string::*;
use crate::net::{bit, contiguous_mask, parse_net, Ipv4Addr, Ipv4Net};
use crate::text::{
    chars_of, cidr_text, dotted, find, find_char, ipv4_text, is_digit, lemma_cidr_text_chars, lemma_dotted_chars,
    lemma_dotted_reads_back, lemma_find, lemma_ipv4_text_chars, lemma_trim_idempotent, lemma_trim_padding, lemma_trim_plain, is_ws,
    parse_quad, trim, trim_bounds, word_spans, words,
};

verus! {

/// Errors that can occur while reading an address string.
#[derive(Debug, Clone, Copy, PartialEq, Eq, Structural)]
pub enum ParseError {
    /// A range whose ends are not both addresses, or whose start comes after its end.
    InvalidRange,
    /// An address-and-mask pair that is malformed or whose mask is not a valid mask.
    InvalidNetmask,
    /// The text is in none of the supported notations.
    InvalidFormat,
}

/// An address string read into its notation.
#[derive(Debug, Clone, Copy, PartialEq, Eq, Structural)]
pub enum ParsedAddress {
    /// A single address.
    Ip(Ipv4Addr),
    /// A network in CIDR notation.
    Cidr(Ipv4Net),
    /// An inclusive range from a start address to an end address.
    Range(Ipv4Addr, Ipv4Addr),
    /// A base address and a subnet mask.
    Netmask(Ipv4Addr, Ipv4Addr),
    /// A base address and a wildcard (inverse) mask.
    Wildcard(Ipv4Addr, Ipv4Addr),
}

/// The range written as `t`, if `t` holds a `-`: both sides, trimmed, must be
/// addresses and the start may not come after the end.
pub open spec fn range_spec(t: Seq<char>) -> Result<Option<(u32, u32)>, ParseError> {
    match find(t, '-') {
        None => Ok(None),
        Some(i) => {
            let a = ipv4_text(trim(t.subrange(0, i)), false);
            let b = ipv4_text(trim(t.subrange(i + 1, t.len() as int)), false);
            if a is None || b is None {
                Err(ParseError::InvalidRange)
            } else if a.unwrap() > b.unwrap() {
                Err(ParseError::InvalidRange)
            } else {
                Ok(Some((a.unwrap(), b.unwrap())))
            }
        },
    }
}

/// The address and mask written as `t`: exactly two words, both addresses,
/// the second a subnet mask, or with `wildcard` the complement of one.
pub open spec fn pair_spec(t: Seq<char>, wildcard: bool) -> Result<(u32, u32), ParseError> {
    let w = words(t);
    if w.len() != 2 {
        Err(ParseError::InvalidNetmask)
    } else {
        let base = ipv4_text(w[0], false);
        let mask = ipv4_text(w[1], false);
        if base is None || mask is None {
            Err(ParseError::InvalidNetmask)
        } else if !contiguous_mask(if wildcard { !mask.unwrap() } else { mask.unwrap() }) {
            Err(ParseError::InvalidNetmask)
        } else {
            Ok((base.unwrap(), mask.unwrap()))
        }
    }
}

/// What `s` reads as. The text is trimmed, then taken as an address, a CIDR
/// block, a range when it holds `-`, and an address-and-mask pair when it
/// holds a space, in that order; the pair is a netmask pair, or with
/// `wildcard` a wildcard pair.
pub open spec fn parse_spec(s: Seq<char>, wildcard: bool) -> Result<ParsedAddress, ParseError> {
    let t = trim(s);
    if let Some(a) = ipv4_text(t, false) {
        Ok(ParsedAddress::Ip(Ipv4Addr(a)))
    } else if let Some((a, p)) = cidr_text(t) {
        Ok(ParsedAddress::Cidr(Ipv4Net::from_parts(a, p)))
    } else {
        match range_spec(t) {
            Err(e) => Err(e),
            Ok(Some((a, b))) => Ok(ParsedAddress::Range(Ipv4Addr(a), Ipv4Addr(b))),
            Ok(None) => if find(t, ' ') is Some {
                match pair_spec(t, wildcard) {
                    Err(e) => Err(e),
                    Ok((b, m)) => if wildcard {
                        Ok(ParsedAddress::Wildcard(Ipv4Addr(b), Ipv4Addr(m)))
                    } else {
                        Ok(ParsedAddress::Netmask(Ipv4Addr(b), Ipv4Addr(m)))
                    },
                }
            } else {
                Err(ParseError::InvalidFormat)
            },
        }
    }
}

/// Leading and trailing whitespace does not change what a text reads as.
pub proof fn lemma_parse_ignores_surrounding_whitespace(s: Seq<char>, wildcard: bool)
    ensures
        parse_spec(trim(s), wildcard) == parse_spec(s, wildcard),
{
    lemma_trim_idempotent(s);
}

/// Whitespace put before or after a text does not change what it reads as.
pub proof fn lemma_parse_ignores_padding(u: Seq<char>, s: Seq<char>, v: Seq<char>, wildcard: bool)
    requires
        forall|i: int| 0 <= i < u.len() ==> is_ws(#[trigger] u[i]),
        forall|i: int| 0 <= i < v.len() ==> is_ws(#[trigger] v[i]),
    ensures
        parse_spec(u + s + v, wildcard) == parse_spec(s, wildcard),
{
    lemma_trim_padding(u, s, v);
}

/// A line ending in carriage return and line feed reads as the line without
/// them, and so does a line indented with spaces and tabs.
pub proof fn lemma_parse_line(s: Seq<char>, wildcard: bool)
    ensures
        parse_spec(s + seq!['\r', '\n'], wildcard) == parse_spec(s, wildcard),
        parse_spec(seq![' ', '\t'] + s, wildcard) == parse_spec(s, wildcard),
{
    let e = Seq::<char>::empty();
    let crlf = seq!['\r', '\n'];
    let ind = seq![' ', '\t'];
    assert(e + s + crlf == s + crlf);
    assert(ind + s + e == ind + s);
    assert(forall|i: int| 0 <= i < crlf.len() ==> is_ws(#[trigger] crlf[i]));
    assert(forall|i: int| 0 <= i < ind.len() ==> is_ws(#[trigger] ind[i]));
    lemma_parse_ignores_padding(e, s, crlf, wildcard);
    lemma_parse_ignores_padding(ind, s, e, wildcard);
}

/// Two addresses in dotted-quad form joined by `-` read as the range between
/// them when the first is not greater than the second as a 32-bit number,
/// whatever octets they differ in, and are refused with `InvalidRange` when it
/// is.
pub proof fn lemma_range_text(a: u32, b: u32, wildcard: bool)
    ensures
        parse_spec(dotted(a) + seq!['-'] + dotted(b), wildcard) == if a <= b {
            Ok::<ParsedAddress, ParseError>(ParsedAddress::Range(Ipv4Addr(a), Ipv4Addr(b)))
        } else {
            Err::<ParsedAddress, ParseError>(ParseError::InvalidRange)
        },
{
    let da = dotted(a);
    let db = dotted(b);
    let t = da + seq!['-'] + db;
    let i = da.len() as int;
    lemma_dotted_chars(a);
    lemma_dotted_chars(b);
    lemma_dotted_reads_back(a, false);
    lemma_dotted_reads_back(b, false);
    assert(t[0] == da[0]);
    assert(t.last() == db.last());
    lemma_trim_plain(t);
    lemma_trim_plain(da);
    lemma_trim_plain(db);
    assert(t[i] == '-');
    if ipv4_text(t, false) is Some {
        lemma_ipv4_text_chars(t, false);
        assert(is_digit(t[i]) || t[i] == '.');
    }
    if cidr_text(t) is Some {
        lemma_cidr_text_chars(t);
        assert(is_digit(t[i]) || t[i] == '.' || t[i] == '/');
    }
    lemma_find(t, '-');
    match find(t, '-') {
        Some(k) => {
            if k < i {
                assert(t[k] == da[k]);
                assert(is_digit(da[k]) || da[k] == '.');
            }
        },
        None => {},
    }
    assert(find(t, '-') == Some(i));
    assert(t.subrange(0, i) == da);
    assert(t.subrange(i + 1, t.len() as int) == db);
}

/// Reads an address string; an address followed by a mask is read as a
/// netmask pair.
///
/// Returns `InvalidRange` for a malformed range, `InvalidNetmask` for a
/// malformed pair and `InvalidFormat` for anything else that is not one of
/// the notations.
pub fn parse(s: &str) -> (r: Result<ParsedAddress, ParseError>)
    ensures
        r == parse_spec(s@, false),
{
    parse_with(s, false)
}

/// Reads an address string; an address followed by a mask is read as a
/// wildcard pair.
pub fn parse_wildcard(s: &str) -> (r: Result<ParsedAddress, ParseError>)
    ensures
        r == parse_spec(s@, true),
{
    parse_with(s, true)
}

fn parse_with(s: &str, wildcard: bool) -> (r: Result<ParsedAddress, ParseError>)
    ensures
        r == parse_spec(s@, wildcard),
{
    let v = chars_of(s);
    assert(v@.subrange(0, v@.len() as int) == s@);
    let (a, b) = trim_bounds(&v, 0, v.len());
    let ghost t = trim(s@);
    assert(v@.subrange(a as int, b as int) == t);
    if let Some(x) = parse_quad(&v, a, b, false) {
        return Ok(ParsedAddress::Ip(Ipv4Addr(x)));
    }
    let trimmed = s.substring_char(a, b);
    if let Some(net) = parse_net(trimmed) {
        return Ok(ParsedAddress::Cidr(net));
    }
    match parse_range(&v, a, b) {
        Err(e) => {
            return Err(e);
        },
        Ok(Some((x, y))) => {
            return Ok(ParsedAddress::Range(x, y));
        },
        Ok(None) => {},
    }
    if find_char(&v, a, b, ' ').is_some() {
        let (base, mask) = match parse_pair(&v, a, b, wildcard) {
            Ok(p) => p,
            Err(e) => {
                return Err(e);
            },
        };
        if wildcard {
            return Ok(ParsedAddress::Wildcard(base, mask));
        } else {
            return Ok(ParsedAddress::Netmask(base, mask));
        }
    }
    Err(ParseError::InvalidFormat)
}

/// The range written as `v[lo..hi]`, if it holds a `-`.
fn parse_range(v: &Vec<char>, lo: usize, hi: usize) -> (r: Result<Option<(Ipv4Addr, Ipv4Addr)>, ParseError>)
    requires
        lo <= hi <= v.len(),
    ensures
        match range_spec(v@.subrange(lo as int, hi as int)) {
            Ok(Some((a, b))) => r == Ok::<Option<(Ipv4Addr, Ipv4Addr)>, ParseError>(Some((Ipv4Addr(a), Ipv4Addr(b)))),
            Ok(None) => r == Ok::<Option<(Ipv4Addr, Ipv4Addr)>, ParseError>(None),
            Err(e) => r == Err::<Option<(Ipv4Addr, Ipv4Addr)>, ParseError>(e),
        },
{
    let ghost t = v@.subrange(lo as int, hi as int);
    let dash = match find_char(v, lo, hi, '-') {
        None => {
            return Ok(None);
        },
        Some(d) => d,
    };
    assert(find(t, '-') == Some((dash - lo) as int));
    assert(t.subrange(0, dash - lo) == v@.subrange(lo as int, dash as int));
    assert(t.subrange(dash - lo + 1, t.len() as int) == v@.subrange(dash + 1, hi as int));
    let (sa, sb) = trim_bounds(v, lo, dash);
    let start = match parse_quad(v, sa, sb, false) {
        Some(x) => x,
        None => {
            return Err(ParseError::InvalidRange);
        },
    };
    let (ea, eb) = trim_bounds(v, dash + 1, hi);
    let end = match parse_quad(v, ea, eb, false) {
        Some(x) => x,
        None => {
            return Err(ParseError::InvalidRange);
        },
    };
    if start > end {
        return Err(ParseError::InvalidRange);
    }
    Ok(Some((Ipv4Addr(start), Ipv4Addr(end))))
}

/// The address-and-mask pair written as `v[lo..hi]`.
fn parse_pair(v: &Vec<char>, lo: usize, hi: usize, wildcard: bool) -> (r: Result<(Ipv4Addr, Ipv4Addr), ParseError>)
    requires
        lo <= hi <= v.len(),
    ensures
        match pair_spec(v@.subrange(lo as int, hi as int), wildcard) {
            Ok((b, m)) => r == Ok::<(Ipv4Addr, Ipv4Addr), ParseError>((Ipv4Addr(b), Ipv4Addr(m))),
            Err(e) => r == Err::<(Ipv4Addr, Ipv4Addr), ParseError>(e),
        },
{
    let ghost t = v@.subrange(lo as int, hi as int);
    let spans = word_spans(v, lo, hi);
    if spans.len() != 2 {
        return Err(ParseError::InvalidNetmask);
    }
    let (b0, b1) = spans[0];
    let (m0, m1) = spans[1];
    assert(words(t)[0] == v@.subrange(b0 as int, b1 as int));
    assert(words(t)[1] == v@.subrange(m0 as int, m1 as int));
    let base = match parse_quad(v, b0, b1, false) {
        Some(x) => x,
        None => {
            return Err(ParseError::InvalidNetmask);
        },
    };
    let mask = match parse_quad(v, m0, m1, false) {
        Some(x) => x,
        None => {
            return Err(ParseError::InvalidNetmask);
        },
    };
    let subnet = if wildcard { !mask } else { mask };
    if !is_valid_subnet_mask(Ipv4Addr(subnet)) {
        return Err(ParseError::InvalidNetmask);
    }
    Ok((Ipv4Addr(base), Ipv4Addr(mask)))
}

/// Whether `mask` is a subnet mask: no set bit lies below a clear bit.
pub fn is_valid_subnet_mask(mask: Ipv4Addr) -> (r: bool)
    ensures
        r == contiguous_mask(mask.0),
{
    let m = mask.0;
    let mut seen_zero = false;
    let mut b: u32 = 32;
    while b > 0
        invariant
            m == mask.0,
            b <= 32,
            seen_zero == exists|i: u32| b <= i < 32 && !#[trigger] bit(m, i),
            forall|i: u32, j: u32| b <= j < i < 32 && #[trigger] bit(m, j) ==> #[trigger] bit(m, i),
        decreases b,
    {
        b = b - 1;
        let set = (m & (1u32 << b)) != 0;
        assert(set == bit(m, b)) by {
            assert(b < 32 ==> (((m & (1u32 << b)) != 0) == ((m >> b) & 1u32 == 1u32))) by (bit_vector);
        }
        if seen_zero && set {
            proof {
                let i = choose|i: u32| b + 1 <= i < 32 && !#[trigger] bit(m, i);
                assert(bit(m, b));
                assert(!bit(m, i));
                assert(b < i < 32);
                assert(!contiguous_mask(m));
            }
            return false;
        }
        if !set {
            seen_zero = true;
        }
    }
    true
}

} // verus!
