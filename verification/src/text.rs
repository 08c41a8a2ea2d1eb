//! The textual forms that addresses and networks are written in: whitespace,
//! trimming, splitting, dotted-quad addresses and `address/length` networks,
//! together with verified scanners for them.

use vstd::prelude::*;
use vstd::string::*;

verus! {

/// Whitespace as Rust's `char::is_whitespace` knows it: the characters with
/// the Unicode `White_Space` property.
pub open spec fn is_ws(c: char) -> bool {
    let n = c as u32;
    ||| n == 0x20
    ||| 0x09 <= n <= 0x0d
    ||| n == 0x85
    ||| n == 0xa0
    ||| n == 0x1680
    ||| 0x2000 <= n <= 0x200a
    ||| n == 0x2028
    ||| n == 0x2029
    ||| n == 0x202f
    ||| n == 0x205f
    ||| n == 0x3000
}

/// Whether `c` is whitespace.
pub fn is_white_space(c: char) -> (r: bool)
    ensures
        r == is_ws(c),
{
    let n = c as u32;
    n == 0x20 || (0x09 <= n && n <= 0x0d) || n == 0x85 || n == 0xa0 || n == 0x1680 || (0x2000
        <= n && n <= 0x200a) || n == 0x2028 || n == 0x2029 || n == 0x202f || n == 0x205f || n
        == 0x3000
}

/// `s` without its leading whitespace.
pub open spec fn trim_start(s: Seq<char>) -> Seq<char>
    decreases s.len(),
{
    if s.len() > 0 && is_ws(s[0]) {
        trim_start(s.drop_first())
    } else {
        s
    }
}

/// `s` without its trailing whitespace.
pub open spec fn trim_end(s: Seq<char>) -> Seq<char>
    decreases s.len(),
{
    if s.len() > 0 && is_ws(s.last()) {
        trim_end(s.drop_last())
    } else {
        s
    }
}

/// `s` without leading and trailing whitespace (`str::trim`).
pub open spec fn trim(s: Seq<char>) -> Seq<char> {
    trim_end(trim_start(s))
}

/// What is left after leading whitespace is dropped does not start with
/// whitespace.
proof fn lemma_trim_start_head(s: Seq<char>)
    ensures
        trim_start(s).len() > 0 ==> !is_ws(trim_start(s)[0]),
    decreases s.len(),
{
    if s.len() > 0 && is_ws(s[0]) {
        lemma_trim_start_head(s.drop_first());
    }
}

/// Dropping trailing whitespace leaves a prefix that does not end with
/// whitespace.
proof fn lemma_trim_end_prefix(s: Seq<char>)
    ensures
        trim_end(s).len() <= s.len(),
        trim_end(s) == s.subrange(0, trim_end(s).len() as int),
        trim_end(s).len() > 0 ==> !is_ws(trim_end(s).last()),
    decreases s.len(),
{
    if s.len() > 0 && is_ws(s.last()) {
        lemma_trim_end_prefix(s.drop_last());
        assert(s.drop_last().subrange(0, trim_end(s).len() as int) == s.subrange(0, trim_end(s).len() as int));
    } else {
        assert(s.subrange(0, s.len() as int) == s);
    }
}

/// Trimming a trimmed text changes nothing.
pub proof fn lemma_trim_idempotent(s: Seq<char>)
    ensures
        trim(trim(s)) == trim(s),
{
    let u = trim_start(s);
    let v = trim_end(u);
    lemma_trim_start_head(s);
    lemma_trim_end_prefix(u);
    if v.len() > 0 {
        assert(v[0] == u[0]);
        assert(trim_start(v) == v);
    } else {
        assert(trim_start(v) == v);
    }
}

/// Dropping leading whitespace goes past any whitespace put in front.
proof fn lemma_trim_start_ws_prefix(u: Seq<char>, x: Seq<char>)
    requires
        forall|i: int| 0 <= i < u.len() ==> is_ws(#[trigger] u[i]),
    ensures
        trim_start(u + x) == trim_start(x),
    decreases u.len(),
{
    if u.len() > 0 {
        assert((u + x)[0] == u[0]);
        assert((u + x).drop_first() == u.drop_first() + x);
        lemma_trim_start_ws_prefix(u.drop_first(), x);
    } else {
        assert(u + x == x);
    }
}

/// Dropping leading whitespace from `s + v` drops it from `s`, and from `v`
/// too when `s` is all whitespace.
proof fn lemma_trim_start_append(s: Seq<char>, v: Seq<char>)
    ensures
        trim_start(s + v) == if trim_start(s).len() > 0 {
            trim_start(s) + v
        } else {
            trim_start(v)
        },
    decreases s.len(),
{
    if s.len() == 0 {
        assert(s + v == v);
    } else {
        assert((s + v)[0] == s[0]);
        if is_ws(s[0]) {
            assert((s + v).drop_first() == s.drop_first() + v);
            lemma_trim_start_append(s.drop_first(), v);
        }
    }
}

/// Dropping trailing whitespace goes past any whitespace put behind.
proof fn lemma_trim_end_ws_suffix(x: Seq<char>, v: Seq<char>)
    requires
        forall|i: int| 0 <= i < v.len() ==> is_ws(#[trigger] v[i]),
    ensures
        trim_end(x + v) == trim_end(x),
    decreases v.len(),
{
    if v.len() > 0 {
        assert((x + v).last() == v.last());
        assert(is_ws(v[v.len() - 1]));
        assert((x + v).drop_last() == x + v.drop_last());
        lemma_trim_end_ws_suffix(x, v.drop_last());
    } else {
        assert(x + v == x);
    }
}

/// Whitespace around a text is trimmed away with the text's own.
pub proof fn lemma_trim_padding(u: Seq<char>, s: Seq<char>, v: Seq<char>)
    requires
        forall|i: int| 0 <= i < u.len() ==> is_ws(#[trigger] u[i]),
        forall|i: int| 0 <= i < v.len() ==> is_ws(#[trigger] v[i]),
    ensures
        trim(u + s + v) == trim(s),
{
    assert(u + s + v == u + (s + v));
    lemma_trim_start_ws_prefix(u, s + v);
    lemma_trim_start_append(s, v);
    if trim_start(s).len() > 0 {
        lemma_trim_end_ws_suffix(trim_start(s), v);
    } else {
        lemma_trim_start_ws_prefix(v, Seq::<char>::empty());
        assert(v + Seq::<char>::empty() == v);
        assert(trim_start(s) == Seq::<char>::empty());
    }
}

/// Trimming removes a character standing alone exactly when it is a white
/// space character of Unicode: space, tab, line feed, vertical tab, form
/// feed, carriage return, next line, no-break space, ogham space mark, the
/// spaces from en quad to hair space, line separator, paragraph separator,
/// narrow no-break space, medium mathematical space and ideographic space.
pub proof fn lemma_white_space(c: char)
    ensures
        trim(seq![c]).len() == 0 <==> (c == ' ' || c == '\t' || c == '\n' || c == '\u{b}' || c == '\u{c}'
            || c == '\r' || c == '\u{85}' || c == '\u{a0}' || c == '\u{1680}' || ('\u{2000}' <= c
            && c <= '\u{200a}') || c == '\u{2028}' || c == '\u{2029}' || c == '\u{202f}' || c
            == '\u{205f}' || c == '\u{3000}'),
{
    let s = seq![c];
    assert(s.drop_first() == Seq::<char>::empty());
    assert(s.drop_last() == Seq::<char>::empty());
    assert(trim_start(Seq::<char>::empty()) == Seq::<char>::empty());
    assert(trim_end(Seq::<char>::empty()) == Seq::<char>::empty());
}

/// The index of the first `c` in `s`, if any.
pub open spec fn find(s: Seq<char>, c: char) -> Option<int>
    decreases s.len(),
{
    if s.len() == 0 {
        None
    } else if s[0] == c {
        Some(0)
    } else {
        match find(s.drop_first(), c) {
            Some(i) => Some(i + 1),
            None => None,
        }
    }
}

/// The pieces of `s` between the occurrences of `sep` (`str::split`); there
/// is always at least one piece.
pub open spec fn split(s: Seq<char>, sep: char) -> Seq<Seq<char>>
    decreases s.len(),
{
    if s.len() == 0 {
        seq![Seq::<char>::empty()]
    } else {
        let p = split(s.drop_last(), sep);
        if s.last() == sep {
            p.push(Seq::<char>::empty())
        } else {
            p.update(p.len() - 1, p.last().push(s.last()))
        }
    }
}

/// The maximal runs of non-whitespace characters of `s`, in order
/// (`str::split_whitespace`).
pub open spec fn words(s: Seq<char>) -> Seq<Seq<char>>
    decreases s.len(),
{
    if s.len() == 0 {
        Seq::<Seq<char>>::empty()
    } else {
        let w = words(s.drop_last());
        let c = s.last();
        if is_ws(c) {
            w
        } else if s.len() >= 2 && !is_ws(s[s.len() - 2]) {
            w.update(w.len() - 1, w.last().push(c))
        } else {
            w.push(seq![c])
        }
    }
}

/// The texts that a list of `(start, end)` spans cut out of `v`.
pub open spec fn span_texts(v: Seq<char>, spans: Seq<(usize, usize)>) -> Seq<Seq<char>> {
    spans.map_values(|sp: (usize, usize)| v.subrange(sp.0 as int, sp.1 as int))
}

/// Whether `c` is an ASCII decimal digit.
pub open spec fn is_digit(c: char) -> bool {
    '0' <= c <= '9'
}

/// The value of the digit `c`.
pub open spec fn digit_val(c: char) -> nat {
    (c as u32 - '0' as u32) as nat
}

/// Whether every character of `w` is a decimal digit.
pub open spec fn all_digits(w: Seq<char>) -> bool {
    forall|i: int| 0 <= i < w.len() ==> #[trigger] is_digit(w[i])
}

/// The number that the decimal digits `w` spell.
pub open spec fn digits_val(w: Seq<char>) -> nat
    decreases w.len(),
{
    if w.len() == 0 {
        0
    } else {
        digits_val(w.drop_last()) * 10 + digit_val(w.last())
    }
}

/// Whether `w` is one octet of a dotted quad: one to three digits with a
/// value below 256; without `leading_zeros`, a number of two or three digits
/// may not start with `0`.
pub open spec fn octet_ok(w: Seq<char>, leading_zeros: bool) -> bool {
    &&& 1 <= w.len() <= 3
    &&& all_digits(w)
    &&& digits_val(w) < 256
    &&& (leading_zeros || w.len() == 1 || w[0] != '0')
}

/// The address that four octets spell.
pub open spec fn quad_of(p: Seq<Seq<char>>) -> u32 {
    (digits_val(p[0]) * 0x100_0000 + digits_val(p[1]) * 0x1_0000 + digits_val(p[2]) * 0x100
        + digits_val(p[3])) as u32
}

/// The address written as `t` in dotted-quad form, if `t` is one: four
/// octets separated by dots and nothing else.
pub open spec fn ipv4_text(t: Seq<char>, leading_zeros: bool) -> Option<u32> {
    let p = split(t, '.');
    if p.len() == 4 && forall|i: int| 0 <= i < 4 ==> #[trigger] octet_ok(p[i], leading_zeros) {
        Some(quad_of(p))
    } else {
        None
    }
}

/// Whether `w` is a prefix length: one or two digits with a value of at most 32.
pub open spec fn prefix_ok(w: Seq<char>) -> bool {
    &&& 1 <= w.len() <= 2
    &&& all_digits(w)
    &&& digits_val(w) <= 32
}

/// The address and prefix length written as `t` in the form
/// `address/length`, where the address octets may carry leading zeros.
pub open spec fn cidr_text(t: Seq<char>) -> Option<(u32, u8)> {
    let h = split(t, '/');
    if h.len() == 2 && ipv4_text(h[0], true) is Some && prefix_ok(h[1]) {
        Some((ipv4_text(h[0], true).unwrap(), digits_val(h[1]) as u8))
    } else {
        None
    }
}

/// The character of the digit `d`.
pub open spec fn digit_char(d: nat) -> char {
    ('0' as u32 + d) as char
}

/// The decimal digits of `n`, without leading zeros.
pub open spec fn dec(n: nat) -> Seq<char>
    decreases n,
{
    if n < 10 {
        seq![digit_char(n)]
    } else {
        dec(n / 10).push(digit_char(n % 10))
    }
}

/// The dotted-quad form of the address `a`.
pub open spec fn dotted(a: u32) -> Seq<char> {
    dec((a / 0x100_0000) as nat) + seq!['.'] + dec(((a / 0x1_0000) % 0x100) as nat) + seq!['.']
        + dec(((a / 0x100) % 0x100) as nat) + seq!['.'] + dec((a % 0x100) as nat)
}

/// What `find` gives back is an index of `c`, before which `c` does not occur.
pub proof fn lemma_find(s: Seq<char>, c: char)
    ensures
        find(s, c) matches Some(i) ==> 0 <= i < s.len() && s[i] == c && forall|j: int| 0 <= j < i ==> s[j] != c,
        find(s, c) is None ==> forall|j: int| 0 <= j < s.len() ==> s[j] != c,
    decreases s.len(),
{
    if s.len() > 0 {
        lemma_find(s.drop_first(), c);
        if s[0] != c {
            assert forall|j: int| 0 < j < s.len() implies s[j] == s.drop_first()[j - 1] by {}
        }
    }
}

pub proof fn lemma_split_nonempty(s: Seq<char>, sep: char)
    ensures
        split(s, sep).len() >= 1,
    decreases s.len(),
{
    if s.len() > 0 {
        lemma_split_nonempty(s.drop_last(), sep);
    }
}

/// The characters of `s`.
pub fn chars_of(s: &str) -> (v: Vec<char>)
    ensures
        v@ == s@,
{
    let n = s.unicode_len();
    let mut v: Vec<char> = Vec::new();
    let mut i: usize = 0;
    while i < n
        invariant
            n == s@.len(),
            i <= n,
            v@ == s@.subrange(0, i as int),
        decreases n - i,
    {
        v.push(s.get_char(i));
        i = i + 1;
    }
    v
}

/// The bounds of `trim(v[lo..hi])` within `v`.
pub fn trim_bounds(v: &Vec<char>, lo: usize, hi: usize) -> (r: (usize, usize))
    requires
        lo <= hi <= v.len(),
    ensures
        lo <= r.0 <= r.1 <= hi,
        v@.subrange(r.0 as int, r.1 as int) == trim(v@.subrange(lo as int, hi as int)),
{
    let mut a = lo;
    while a < hi && is_white_space(v[a])
        invariant
            lo <= a <= hi <= v.len(),
            trim_start(v@.subrange(lo as int, hi as int)) == trim_start(v@.subrange(a as int, hi as int)),
        decreases hi - a,
    {
        assert(v@.subrange(a as int, hi as int).drop_first() == v@.subrange(a + 1, hi as int));
        a = a + 1;
    }
    let mut b = hi;
    while b > a && is_white_space(v[b - 1])
        invariant
            lo <= a <= b <= hi <= v.len(),
            trim_start(v@.subrange(lo as int, hi as int)) == v@.subrange(a as int, hi as int),
            trim_end(v@.subrange(a as int, hi as int)) == trim_end(v@.subrange(a as int, b as int)),
        decreases b - a,
    {
        assert(v@.subrange(a as int, b as int).drop_last() == v@.subrange(a as int, b - 1));
        b = b - 1;
    }
    (a, b)
}

/// The index within `v` of the first `c` in `v[lo..hi]`, if any.
pub fn find_char(v: &Vec<char>, lo: usize, hi: usize, c: char) -> (r: Option<usize>)
    requires
        lo <= hi <= v.len(),
    ensures
        match find(v@.subrange(lo as int, hi as int), c) {
            Some(i) => r == Some((lo + i) as usize),
            None => r is None,
        },
        r matches Some(k) ==> lo <= k < hi && v@[k as int] == c && find(
            v@.subrange(lo as int, hi as int),
            c,
        ) == Some(k - lo),
{
    proof {
        lemma_find(v@.subrange(lo as int, hi as int), c);
    }
    let mut k = lo;
    while k < hi
        invariant
            lo <= k <= hi <= v.len(),
            find(v@.subrange(lo as int, hi as int), c) == match find(v@.subrange(k as int, hi as int), c) {
                Some(i) => Some(i + (k - lo)),
                None => None::<int>,
            },
        decreases hi - k,
    {
        assert(v@.subrange(k as int, hi as int).drop_first() == v@.subrange(k + 1, hi as int));
        if v[k] == c {
            return Some(k);
        }
        k = k + 1;
    }
    None
}

/// The spans of `split(v[lo..hi], sep)` within `v`.
pub fn split_spans(v: &Vec<char>, lo: usize, hi: usize, sep: char) -> (r: Vec<(usize, usize)>)
    requires
        lo <= hi <= v.len(),
    ensures
        span_texts(v@, r@) == split(v@.subrange(lo as int, hi as int), sep),
        forall|i: int| 0 <= i < r.len() ==> lo <= #[trigger] r@[i].0 <= r@[i].1 <= hi,
{
    let mut spans: Vec<(usize, usize)> = Vec::new();
    let mut start = lo;
    let mut k = lo;
    assert(span_texts(v@, spans@) == Seq::<Seq<char>>::empty());
    assert(v@.subrange(lo as int, lo as int) == Seq::<char>::empty());
    while k < hi
        invariant
            lo <= start <= k <= hi <= v.len(),
            split(v@.subrange(lo as int, k as int), sep) == span_texts(v@, spans@).push(
                v@.subrange(start as int, k as int),
            ),
            forall|i: int| 0 <= i < spans.len() ==> lo <= #[trigger] spans@[i].0 <= spans@[i].1 <= hi,
        decreases hi - k,
    {
        let ghost before = span_texts(v@, spans@);
        assert(v@.subrange(lo as int, k + 1).drop_last() == v@.subrange(lo as int, k as int));
        if v[k] == sep {
            spans.push((start, k));
            start = k + 1;
            assert(span_texts(v@, spans@) == before.push(v@.subrange(spans@.last().0 as int, k as int)));
            assert(v@.subrange(start as int, k + 1) == Seq::<char>::empty());
        } else {
            assert(v@.subrange(start as int, k + 1) == v@.subrange(start as int, k as int).push(v@[k as int]));
        }
        k = k + 1;
    }
    spans.push((start, hi));
    spans
}

/// A text without `sep` is a single piece.
proof fn lemma_split_none(s: Seq<char>, sep: char)
    requires
        forall|i: int| 0 <= i < s.len() ==> s[i] != sep,
    ensures
        split(s, sep) == seq![s],
    decreases s.len(),
{
    if s.len() == 0 {
        assert(s == Seq::<char>::empty());
    } else {
        lemma_split_none(s.drop_last(), sep);
        assert(s.drop_last().push(s.last()) == s);
        assert(s.last() != sep);
    }
}

/// Splitting at a separator between two texts splits each of them.
proof fn lemma_split_concat(a: Seq<char>, b: Seq<char>, sep: char)
    ensures
        split(a + seq![sep] + b, sep) == split(a, sep) + split(b, sep),
    decreases b.len(),
{
    lemma_split_nonempty(a, sep);
    lemma_split_nonempty(b, sep);
    if b.len() == 0 {
        assert(a + seq![sep] + b == (a + seq![sep] + b).drop_last().push(sep));
        assert((a + seq![sep] + b).drop_last() == a);
    } else {
        let b0 = b.drop_last();
        lemma_split_concat(a, b0, sep);
        lemma_split_nonempty(b0, sep);
        assert((a + seq![sep] + b).drop_last() == a + seq![sep] + b0);
        assert((a + seq![sep] + b).last() == b.last());
        let pa = split(a, sep);
        let pb = split(b0, sep);
        if b.last() != sep {
            assert((pa + pb).update((pa + pb).len() - 1, (pa + pb).last().push(b.last())) == pa + pb.update(
                pb.len() - 1,
                pb.last().push(b.last()),
            ));
        }
    }
}

/// The digits of a number below 1000.
proof fn lemma_dec_digits(n: nat)
    requires
        n < 1000,
    ensures
        1 <= dec(n).len() <= 3,
        all_digits(dec(n)),
        digits_val(dec(n)) == n,
        n < 10 <==> dec(n).len() == 1,
        n < 100 <==> dec(n).len() <= 2,
        dec(n).len() > 1 ==> dec(n)[0] != '0',
        forall|i: int| 0 <= i < dec(n).len() ==> dec(n)[i] != '.' && dec(n)[i] != '/',
    decreases n,
{
    assert(digit_val(digit_char(n % 10)) == n % 10);
    if n < 10 {
        assert(dec(n).drop_last() == Seq::<char>::empty());
        assert(digits_val(dec(n)) == digits_val(Seq::<char>::empty()) * 10 + digit_val(digit_char(n)));
    }
    if n >= 10 {
        lemma_dec_digits(n / 10);
        let d = dec(n / 10);
        assert(dec(n) == d.push(digit_char(n % 10)));
        assert(dec(n).drop_last() == d);
        assert(dec(n).last() == digit_char(n % 10));
        assert(digits_val(dec(n)) == digits_val(d) * 10 + digit_val(digit_char(n % 10)));
        assert((n / 10) * 10 + n % 10 == n);
        assert(all_digits(dec(n))) by {
            assert forall|i: int| 0 <= i < dec(n).len() implies #[trigger] is_digit(dec(n)[i]) by {
                if i < d.len() {
                    assert(is_digit(d[i]));
                }
            }
        }
        if n / 10 < 10 {
            assert(d == seq![digit_char(n / 10)]);
        }
    }
}

/// The dotted-quad form of an address reads back as that address, with or
/// without leading zeros allowed.
pub proof fn lemma_dotted_reads_back(a: u32, leading_zeros: bool)
    ensures
        ipv4_text(dotted(a), leading_zeros) == Some(a),
        forall|i: int| 0 <= i < dotted(a).len() ==> dotted(a)[i] != '/',
{
    let o0 = (a / 0x100_0000) as nat;
    let o1 = ((a / 0x1_0000) % 0x100) as nat;
    let o2 = ((a / 0x100) % 0x100) as nat;
    let o3 = (a % 0x100) as nat;
    lemma_dec_digits(o0);
    lemma_dec_digits(o1);
    lemma_dec_digits(o2);
    lemma_dec_digits(o3);
    let d0 = dec(o0);
    let d1 = dec(o1);
    let d2 = dec(o2);
    let d3 = dec(o3);
    lemma_split_none(d0, '.');
    lemma_split_none(d1, '.');
    lemma_split_none(d2, '.');
    lemma_split_none(d3, '.');
    lemma_split_concat(d0, d1, '.');
    lemma_split_concat(d0 + seq!['.'] + d1, d2, '.');
    lemma_split_concat(d0 + seq!['.'] + d1 + seq!['.'] + d2, d3, '.');
    let p = split(dotted(a), '.');
    assert(p == seq![d0, d1, d2, d3]);
    assert(octet_ok(p[0], leading_zeros) && octet_ok(p[1], leading_zeros) && octet_ok(p[2],
        leading_zeros) && octet_ok(p[3], leading_zeros));
    assert(a == o0 * 0x100_0000 + o1 * 0x1_0000 + o2 * 0x100 + o3) by (nonlinear_arith)
        requires
            o0 == a / 0x100_0000,
            o1 == (a / 0x1_0000) % 0x100,
            o2 == (a / 0x100) % 0x100,
            o3 == a % 0x100,
    ;
    assert forall|i: int| 0 <= i < dotted(a).len() implies dotted(a)[i] != '/' by {
        let s1 = d0 + seq!['.'];
        let s2 = s1 + d1;
        let s3 = s2 + seq!['.'];
        let s4 = s3 + d2;
        let s5 = s4 + seq!['.'];
        assert(dotted(a) == s5 + d3);
        if i >= s5.len() {
            assert(dotted(a)[i] == d3[i - s5.len()]);
        } else if i >= s4.len() {
        } else if i >= s3.len() {
            assert(s4[i] == d2[i - s3.len()]);
        } else if i >= s2.len() {
        } else if i >= s1.len() {
            assert(s2[i] == d1[i - s1.len()]);
        } else if i >= d0.len() {
        } else {
            assert(s1[i] == d0[i]);
        }
    }
}

/// Every character of `w` is a decimal digit or `c`.
pub open spec fn digits_or(w: Seq<char>, c: char) -> bool {
    forall|i: int| 0 <= i < w.len() ==> is_digit(#[trigger] w[i]) || w[i] == c
}

/// The dotted-quad form of an address is made of digits and dots, and starts
/// and ends with a digit.
pub proof fn lemma_dotted_chars(a: u32)
    ensures
        dotted(a).len() > 0,
        digits_or(dotted(a), '.'),
        is_digit(dotted(a)[0]),
        is_digit(dotted(a).last()),
{
    let d0 = dec((a / 0x100_0000) as nat);
    let d1 = dec(((a / 0x1_0000) % 0x100) as nat);
    let d2 = dec(((a / 0x100) % 0x100) as nat);
    let d3 = dec((a % 0x100) as nat);
    lemma_dec_digits((a / 0x100_0000) as nat);
    lemma_dec_digits(((a / 0x1_0000) % 0x100) as nat);
    lemma_dec_digits(((a / 0x100) % 0x100) as nat);
    lemma_dec_digits((a % 0x100) as nat);
    let s1 = d0 + seq!['.'];
    let s2 = s1 + d1;
    let s3 = s2 + seq!['.'];
    let s4 = s3 + d2;
    let s5 = s4 + seq!['.'];
    assert(dotted(a) == s5 + d3);
    assert forall|i: int| 0 <= i < dotted(a).len() implies is_digit(#[trigger] dotted(a)[i]) || dotted(a)[i] == '.' by {
        if i >= s5.len() {
            assert(dotted(a)[i] == d3[i - s5.len()]);
            assert(is_digit(d3[i - s5.len()]));
        } else if i >= s4.len() {
        } else if i >= s3.len() {
            assert(s4[i] == d2[i - s3.len()]);
            assert(is_digit(d2[i - s3.len()]));
        } else if i >= s2.len() {
        } else if i >= s1.len() {
            assert(s2[i] == d1[i - s1.len()]);
            assert(is_digit(d1[i - s1.len()]));
        } else if i >= d0.len() {
        } else {
            assert(s1[i] == d0[i]);
            assert(is_digit(d0[i]));
        }
    }
    assert(dotted(a)[0] == d0[0]);
    assert(is_digit(d0[0]));
    assert(dotted(a).last() == d3.last());
    assert(is_digit(d3[d3.len() - 1]));
}

/// When every piece of `s` split at `sep` is made of digits and `c`, `s` is
/// made of digits, `c` and `sep`.
proof fn lemma_split_chars(s: Seq<char>, sep: char, c: char)
    requires
        forall|k: int| 0 <= k < split(s, sep).len() ==> digits_or(#[trigger] split(s, sep)[k], c),
    ensures
        forall|i: int| 0 <= i < s.len() ==> is_digit(#[trigger] s[i]) || s[i] == c || s[i] == sep,
    decreases s.len(),
{
    if s.len() > 0 {
        let s0 = s.drop_last();
        let x = s.last();
        let p = split(s0, sep);
        lemma_split_nonempty(s0, sep);
        let q = split(s, sep);
        if x == sep {
            assert(q == p.push(Seq::<char>::empty()));
            assert forall|k: int| 0 <= k < p.len() implies digits_or(#[trigger] p[k], c) by {
                assert(q[k] == p[k]);
            }
        } else {
            assert(q == p.update(p.len() - 1, p.last().push(x)));
            assert forall|k: int| 0 <= k < p.len() implies digits_or(#[trigger] p[k], c) by {
                assert(digits_or(q[k], c));
                if k == p.len() - 1 {
                    assert forall|i: int| 0 <= i < p[k].len() implies is_digit(#[trigger] p[k][i]) || p[k][i] == c by {
                        assert(q[k][i] == p[k][i]);
                    }
                }
            }
            let l = p.len() - 1;
            assert(digits_or(q[l], c));
            assert(q[l][q[l].len() - 1] == x);
        }
        lemma_split_chars(s0, sep, c);
        assert forall|i: int| 0 <= i < s.len() implies is_digit(#[trigger] s[i]) || s[i] == c || s[i] == sep by {
            if i < s0.len() {
                assert(s[i] == s0[i]);
            }
        }
    }
}

/// A text that reads as an address is made of digits and dots.
pub proof fn lemma_ipv4_text_chars(t: Seq<char>, leading_zeros: bool)
    requires
        ipv4_text(t, leading_zeros) is Some,
    ensures
        digits_or(t, '.'),
{
    let p = split(t, '.');
    assert forall|k: int| 0 <= k < p.len() implies digits_or(#[trigger] p[k], '.') by {
        assert(octet_ok(p[k], leading_zeros));
        assert forall|i: int| 0 <= i < p[k].len() implies is_digit(#[trigger] p[k][i]) || p[k][i] == '.' by {
            assert(is_digit(p[k][i]));
        }
    }
    lemma_split_chars(t, '.', '.');
}

/// A text that reads as `address/length` is made of digits, dots and `/`.
pub proof fn lemma_cidr_text_chars(t: Seq<char>)
    requires
        cidr_text(t) is Some,
    ensures
        forall|i: int| 0 <= i < t.len() ==> is_digit(#[trigger] t[i]) || t[i] == '.' || t[i] == '/',
{
    let h = split(t, '/');
    lemma_ipv4_text_chars(h[0], true);
    assert forall|k: int| 0 <= k < h.len() implies digits_or(#[trigger] h[k], '.') by {
        if k == 1 {
            assert forall|i: int| 0 <= i < h[1].len() implies is_digit(#[trigger] h[1][i]) || h[1][i] == '.' by {
                assert(is_digit(h[1][i]));
            }
        }
    }
    lemma_split_chars(t, '/', '.');
}

/// A text that neither starts nor ends with whitespace is its own trimmed
/// form.
pub proof fn lemma_trim_plain(s: Seq<char>)
    requires
        s.len() > 0,
        !is_ws(s[0]),
        !is_ws(s.last()),
    ensures
        trim(s) == s,
{
}

/// The form `address/length` of a network reads back as its address and
/// prefix length.
pub proof fn lemma_cidr_reads_back(a: u32, p: u8)
    requires
        p <= 32,
    ensures
        cidr_text(dotted(a) + seq!['/'] + dec(p as nat)) == Some((a, p)),
{
    lemma_dotted_reads_back(a, true);
    lemma_dec_digits(p as nat);
    lemma_split_none(dotted(a), '/');
    lemma_split_none(dec(p as nat), '/');
    lemma_split_concat(dotted(a), dec(p as nat), '/');
    let h = split(dotted(a) + seq!['/'] + dec(p as nat), '/');
    assert(h == seq![dotted(a), dec(p as nat)]);
}

/// The spans of `words(v[lo..hi])` within `v`.
pub fn word_spans(v: &Vec<char>, lo: usize, hi: usize) -> (r: Vec<(usize, usize)>)
    requires
        lo <= hi <= v.len(),
    ensures
        span_texts(v@, r@) == words(v@.subrange(lo as int, hi as int)),
        forall|i: int| 0 <= i < r.len() ==> lo <= #[trigger] r@[i].0 <= r@[i].1 <= hi,
{
    let mut spans: Vec<(usize, usize)> = Vec::new();
    let mut start = lo;
    let mut in_word = false;
    let mut k = lo;
    assert(span_texts(v@, spans@) == Seq::<Seq<char>>::empty());
    while k < hi
        invariant
            lo <= start <= k <= hi <= v.len(),
            in_word ==> start < k && !is_ws(v@[k - 1]),
            !in_word ==> k == lo || is_ws(v@[k - 1]),
            words(v@.subrange(lo as int, k as int)) == if in_word {
                span_texts(v@, spans@).push(v@.subrange(start as int, k as int))
            } else {
                span_texts(v@, spans@)
            },
            forall|i: int| 0 <= i < spans.len() ==> lo <= #[trigger] spans@[i].0 <= spans@[i].1 <= hi,
        decreases hi - k,
    {
        let ghost before = span_texts(v@, spans@);
        let ghost sub = v@.subrange(lo as int, k + 1);
        assert(sub.drop_last() == v@.subrange(lo as int, k as int));
        assert(sub.last() == v@[k as int]);
        let c = v[k];
        if is_white_space(c) {
            if in_word {
                spans.push((start, k));
                assert(span_texts(v@, spans@) == before.push(v@.subrange(start as int, k as int)));
                in_word = false;
            }
        } else {
            if in_word {
                assert(sub[sub.len() - 2] == v@[k - 1]);
                assert(v@.subrange(start as int, k + 1) == v@.subrange(start as int, k as int).push(c));
            } else {
                assert(k > lo ==> sub[sub.len() - 2] == v@[k - 1]);
                assert(v@.subrange(k as int, k + 1) == seq![c]);
                start = k;
                in_word = true;
            }
        }
        k = k + 1;
    }
    if in_word {
        let ghost before = span_texts(v@, spans@);
        spans.push((start, hi));
        assert(span_texts(v@, spans@) == before.push(v@.subrange(start as int, hi as int)));
    }
    spans
}

/// The text of the digit `d`.
fn digit_str(d: u32) -> (r: &'static str)
    requires
        d < 10,
    ensures
        r@ == seq![digit_char(d as nat)],
{
    proof {
        reveal_strlit("0");
        reveal_strlit("1");
        reveal_strlit("2");
        reveal_strlit("3");
        reveal_strlit("4");
        reveal_strlit("5");
        reveal_strlit("6");
        reveal_strlit("7");
        reveal_strlit("8");
        reveal_strlit("9");
    }
    match d {
        0 => "0",
        1 => "1",
        2 => "2",
        3 => "3",
        4 => "4",
        5 => "5",
        6 => "6",
        7 => "7",
        8 => "8",
        _ => "9",
    }
}

/// Appends the decimal digits of `n` to `out`.
pub fn push_dec(out: &mut String, n: u32)
    requires
        n < 1000,
    ensures
        final(out)@ == old(out)@ + dec(n as nat),
{
    if n >= 100 {
        out.append(digit_str(n / 100));
        assert(dec((n / 10) as nat) == dec((n / 100) as nat).push(digit_char(((n / 10) % 10) as nat)));
    }
    if n >= 10 {
        out.append(digit_str((n / 10) % 10));
    }
    out.append(digit_str(n % 10));
    proof {
        if n >= 100 {
            assert(dec(n as nat) == seq![digit_char((n / 100) as nat)] + seq![digit_char(((n / 10) % 10) as nat)]
                + seq![digit_char((n % 10) as nat)]);
        } else if n >= 10 {
            assert(dec((n / 10) as nat) == seq![digit_char((n / 10) as nat)]);
            assert((n / 10) % 10 == n / 10);
            assert(dec(n as nat) == seq![digit_char(((n / 10) % 10) as nat)] + seq![digit_char((n % 10) as nat)]);
        }
    }
}

/// Appends the dotted-quad form of `a` to `out`.
pub fn push_dotted(out: &mut String, a: u32)
    ensures
        final(out)@ == old(out)@ + dotted(a),
{
    proof {
        reveal_strlit(".");
    }
    let ghost start = out@;
    push_dec(out, a / 0x100_0000);
    out.append(".");
    push_dec(out, (a / 0x1_0000) % 0x100);
    out.append(".");
    push_dec(out, (a / 0x100) % 0x100);
    out.append(".");
    push_dec(out, a % 0x100);
    assert(out@ == start + dotted(a));
}

/// The value of the octet `v[lo..hi]`, if it is one.
fn octet_value(v: &Vec<char>, lo: usize, hi: usize, leading_zeros: bool) -> (r: Option<u32>)
    requires
        lo <= hi <= v.len(),
    ensures
        match r {
            Some(x) => octet_ok(v@.subrange(lo as int, hi as int), leading_zeros) && x == digits_val(
                v@.subrange(lo as int, hi as int),
            ),
            None => !octet_ok(v@.subrange(lo as int, hi as int), leading_zeros),
        },
{
    let ghost w = v@.subrange(lo as int, hi as int);
    if hi - lo < 1 || hi - lo > 3 {
        return None;
    }
    if !leading_zeros && hi - lo > 1 && v[lo] == '0' {
        return None;
    }
    let mut x: u32 = 0;
    let mut k = lo;
    while k < hi
        invariant
            lo <= k <= hi <= v.len(),
            hi - lo <= 3,
            w == v@.subrange(lo as int, hi as int),
            all_digits(v@.subrange(lo as int, k as int)),
            x == digits_val(v@.subrange(lo as int, k as int)),
            x < 1000,
        decreases hi - k,
    {
        let c = v[k];
        if !('0' <= c && c <= '9') {
            assert(!is_digit(w[k - lo]));
            return None;
        }
        assert(v@.subrange(lo as int, k + 1).drop_last() == v@.subrange(lo as int, k as int));
        assert(x < 100) by {
            if k - lo >= 3 {
            } else {
                lemma_digits_bound(v@.subrange(lo as int, k as int));
            }
        }
        x = x * 10 + (c as u32 - '0' as u32);
        k = k + 1;
    }
    assert(w == v@.subrange(lo as int, k as int));
    if x < 256 {
        Some(x)
    } else {
        None
    }
}

/// A number of at most `n` digits is below `10^n` (for `n` up to 2).
proof fn lemma_digits_bound(w: Seq<char>)
    requires
        w.len() <= 2,
        all_digits(w),
    ensures
        digits_val(w) < 100,
        w.len() <= 1 ==> digits_val(w) < 10,
    decreases w.len(),
{
    if w.len() > 0 {
        assert(all_digits(w.drop_last())) by {
            assert forall|i: int| 0 <= i < w.drop_last().len() implies is_digit(w.drop_last()[i]) by {
                assert(is_digit(w[i]));
            }
        }
        assert(is_digit(w[w.len() - 1]));
        lemma_digits_bound(w.drop_last());
    }
}

/// The address written in dotted-quad form as `v[lo..hi]`.
pub fn parse_quad(v: &Vec<char>, lo: usize, hi: usize, leading_zeros: bool) -> (r: Option<u32>)
    requires
        lo <= hi <= v.len(),
    ensures
        r == ipv4_text(v@.subrange(lo as int, hi as int), leading_zeros),
{
    let ghost t = v@.subrange(lo as int, hi as int);
    let spans = split_spans(v, lo, hi, '.');
    let ghost p = split(t, '.');
    assert(span_texts(v@, spans@) == p);
    if spans.len() != 4 {
        return None;
    }
    let mut vals: Vec<u32> = Vec::new();
    let mut i: usize = 0;
    while i < 4
        invariant
            spans.len() == 4,
            p == split(v@.subrange(lo as int, hi as int), '.'),
            p.len() == 4,
            span_texts(v@, spans@) == p,
            forall|j: int| 0 <= j < 4 ==> lo <= #[trigger] spans@[j].0 <= spans@[j].1 <= hi,
            hi <= v.len(),
            i <= 4,
            vals.len() == i,
            forall|j: int| 0 <= j < i ==> #[trigger] octet_ok(p[j], leading_zeros) && vals@[j]
                == digits_val(p[j]),
        decreases 4 - i,
    {
        let (a, b) = spans[i];
        assert(p[i as int] == v@.subrange(a as int, b as int));
        match octet_value(v, a, b, leading_zeros) {
            Some(x) => {
                vals.push(x);
            },
            None => {
                assert(!octet_ok(p[i as int], leading_zeros));
                return None;
            },
        }
        i = i + 1;
    }
    assert(octet_ok(p[0], leading_zeros) && octet_ok(p[1], leading_zeros) && octet_ok(p[2], leading_zeros)
        && octet_ok(p[3], leading_zeros));
    Some(vals[0] * 0x100_0000 + vals[1] * 0x1_0000 + vals[2] * 0x100 + vals[3])
}

} // verus!
