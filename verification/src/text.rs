//! Byte-string helpers shared by the mesh-file parser and the pixel-file
//! encoder. Both formats are line-oriented ASCII, so all text here is a
//! sequence of bytes.

use vstd::prelude::*;
use vstd::slice::slice_subrange;
use vstd::slice::slice_to_vec;

verus! {

/// Whether `s` begins with `p`.
pub open spec fn starts_with(s: Seq<u8>, p: Seq<u8>) -> bool {
    p.len() <= s.len() && s.subrange(0, p.len() as int) == p
}

/// `s` with every leading repetition of the two-byte prefix `ab` removed.
pub open spec fn trim_pair(s: Seq<u8>, a: u8, b: u8) -> Seq<u8>
    decreases s.len(),
{
    if s.len() >= 2 && s[0] == a && s[1] == b {
        trim_pair(s.skip(2), a, b)
    } else {
        s
    }
}

/// Whether `b` is an ASCII whitespace byte.
pub open spec fn is_space(b: u8) -> bool {
    b == 32 || b == 9 || b == 10 || b == 12 || b == 13
}

/// `s` without its leading whitespace.
pub open spec fn trim_front(s: Seq<u8>) -> Seq<u8>
    decreases s.len(),
{
    if s.len() > 0 && is_space(s[0]) {
        trim_front(s.skip(1))
    } else {
        s
    }
}

/// `s` without its trailing whitespace.
pub open spec fn trim_back(s: Seq<u8>) -> Seq<u8>
    decreases s.len(),
{
    if s.len() > 0 && is_space(s.last()) {
        trim_back(s.drop_last())
    } else {
        s
    }
}

/// Strips whitespace from both ends of `v`.
pub fn trim_spaces<'a>(v: &'a [u8]) -> (r: &'a [u8])
    ensures
        r@ == trim_back(trim_front(v@)),
{
    let mut lo: usize = 0;
    proof {
        assert(v@.skip(0) =~= v@);
    }
    while lo < v.len() && (v[lo] == 32 || v[lo] == 9 || v[lo] == 10 || v[lo] == 12 || v[lo] == 13)
        invariant
            lo <= v@.len(),
            trim_front(v@.skip(lo as int)) == trim_front(v@),
        decreases v@.len() - lo,
    {
        proof {
            assert(v@.skip(lo as int).skip(1) =~= v@.skip(lo + 1));
        }
        lo = lo + 1;
    }
    let ghost t = v@.skip(lo as int);
    proof {
        assert(trim_front(v@) == t);
    }
    let mut hi: usize = v.len();
    proof {
        assert(v@.subrange(lo as int, v@.len() as int) =~= t);
    }
    while hi > lo && (v[hi - 1] == 32 || v[hi - 1] == 9 || v[hi - 1] == 10 || v[hi - 1] == 12 || v[
        hi - 1] == 13)
        invariant
            lo <= hi <= v@.len(),
            t == v@.skip(lo as int),
            trim_back(v@.subrange(lo as int, hi as int)) == trim_back(t),
        decreases hi,
    {
        proof {
            assert(v@.subrange(lo as int, hi as int).drop_last() =~= v@.subrange(
                lo as int,
                hi - 1,
            ));
        }
        hi = hi - 1;
    }
    proof {
        assert(trim_back(t) == v@.subrange(lo as int, hi as int));
    }
    vstd::slice::slice_subrange(v, lo, hi)
}

/// The position of the first `b` in `s`, or `s.len()` when there is none.
pub open spec fn first_index_of(s: Seq<u8>, b: u8) -> nat
    decreases s.len(),
{
    if s.len() == 0 {
        0
    } else if s[0] == b {
        0
    } else {
        1 + first_index_of(s.skip(1), b)
    }
}

/// The first `b` really stands where `first_index_of` says, and nowhere
/// earlier.
pub proof fn lemma_first_index_of(s: Seq<u8>, b: u8, j: nat)
    requires
        j <= s.len(),
        forall|k: int| 0 <= k < j ==> s[k] != b,
        j == s.len() || s[j as int] == b,
    ensures
        first_index_of(s, b) == j,
    decreases s.len(),
{
    if s.len() > 0 && s[0] != b {
        lemma_first_index_of(s.skip(1), b, (j - 1) as nat);
    }
}

/// `first_index_of` never points past the end.
pub proof fn lemma_first_index_le_len(s: Seq<u8>, b: u8)
    ensures
        first_index_of(s, b) <= s.len(),
    decreases s.len(),
{
    if s.len() > 0 && s[0] != b {
        lemma_first_index_le_len(s.skip(1), b);
    }
}

/// `s` cut at every `b`: `n` separators give `n + 1` pieces, and the empty
/// string gives one empty piece.
pub open spec fn split_bytes(s: Seq<u8>, b: u8) -> Seq<Seq<u8>>
    decreases s.len(),
{
    let i = first_index_of(s, b);
    if i >= s.len() {
        seq![s]
    } else {
        seq![s.take(i as int)] + split_bytes(s.skip(i as int + 1), b)
    }
}

/// The first piece of a split is everything before the first separator, or
/// the whole string when there is none.
pub proof fn lemma_split_first_piece(s: Seq<u8>, b: u8)
    ensures
        split_bytes(s, b).len() >= 1,
        split_bytes(s, b)[0] == s.take(first_index_of(s, b) as int),
{
    lemma_first_index_le_len(s, b);
    if first_index_of(s, b) >= s.len() {
        assert(s.take(s.len() as int) =~= s);
    }
}

/// The pieces joined back with a single `b` between each two.
pub open spec fn join_bytes(parts: Seq<Seq<u8>>, b: u8) -> Seq<u8>
    decreases parts.len(),
{
    if parts.len() == 0 {
        Seq::empty()
    } else if parts.len() == 1 {
        parts[0]
    } else {
        join_bytes(parts.drop_last(), b) + seq![b] + parts.last()
    }
}

/// Whether `v` begins with the two bytes `a`, `b`.
pub fn starts_with_pair(v: &[u8], a: u8, b: u8) -> (r: bool)
    ensures
        r == starts_with(v@, seq![a, b]),
{
    let r = v.len() >= 2 && v[0] == a && v[1] == b;
    proof {
        if v@.len() >= 2 {
            assert(v@.subrange(0, 2) =~= seq![v@[0], v@[1]]);
            assert(seq![v@[0], v@[1]] == seq![a, b] <==> v@[0] == a && v@[1] == b);
        }
    }
    r
}

/// Removes every leading repetition of the pair `ab` from `v`.
pub fn trim_pair_prefix<'a>(v: &'a [u8], a: u8, b: u8) -> (r: &'a [u8])
    ensures
        r@ == trim_pair(v@, a, b),
{
    let mut rest: &[u8] = v;
    while rest.len() >= 2 && rest[0] == a && rest[1] == b
        invariant
            trim_pair(rest@, a, b) == trim_pair(v@, a, b),
        decreases rest@.len(),
    {
        rest = slice_subrange(rest, 2, rest.len());
    }
    rest
}

/// Cuts `v` at every `b`.
pub fn split_on(v: &[u8], b: u8) -> (r: Vec<Vec<u8>>)
    ensures
        r.deep_view() == split_bytes(v@, b),
{
    let mut out: Vec<Vec<u8>> = Vec::new();
    let mut pos: usize = 0;
    let mut i: usize = 0;
    proof {
        assert(v@.skip(0) =~= v@);
    }
    while i < v.len()
        invariant
            pos <= i <= v@.len(),
            forall|k: int| pos <= k < i ==> v@[k] != b,
            split_bytes(v@, b) =~= out.deep_view() + split_bytes(v@.skip(pos as int), b),
        decreases v@.len() - i,
    {
        if v[i] == b {
            let token = slice_to_vec(slice_subrange(v, pos, i));
            let ghost prev = out.deep_view();
            out.push(token);
            proof {
                let rest = v@.skip(pos as int);
                lemma_first_index_of(rest, b, (i - pos) as nat);
                assert(rest.take(i - pos) =~= v@.subrange(pos as int, i as int));
                assert(rest.skip(i - pos + 1) =~= v@.skip(i + 1));
                assert(out.deep_view() =~~= prev.push(token@));
                assert(split_bytes(v@, b) =~= out.deep_view() + split_bytes(v@.skip(i + 1), b));
            }
            pos = i + 1;
        }
        i = i + 1;
    }
    let token = slice_to_vec(slice_subrange(v, pos, v.len()));
    let ghost prev = out.deep_view();
    out.push(token);
    proof {
        let rest = v@.skip(pos as int);
        lemma_first_index_of(rest, b, (v@.len() - pos) as nat);
        assert(rest =~= v@.subrange(pos as int, v@.len() as int));
        assert(out.deep_view() =~~= prev.push(token@));
        assert(split_bytes(v@, b) =~= out.deep_view());
    }
    out
}

/// Joins the pieces with a single `b` between each two.
pub fn join_on(parts: &Vec<Vec<u8>>, b: u8) -> (r: Vec<u8>)
    ensures
        r@ == join_bytes(parts.deep_view(), b),
{
    let mut r: Vec<u8> = Vec::new();
    let mut i: usize = 0;
    while i < parts.len()
        invariant
            i <= parts@.len(),
            r@ == join_bytes(parts.deep_view().take(i as int), b),
        decreases parts@.len() - i,
    {
        proof {
            let dv = parts.deep_view();
            assert(dv.take(i + 1).drop_last() =~= dv.take(i as int));
            assert(dv.take(i + 1).last() == dv[i as int]);
            assert(dv[i as int] =~= parts@[i as int]@);
        }
        if i > 0 {
            r.push(b);
        }
        r.extend_from_slice(parts[i].as_slice());
        proof {
            assert(r@ =~= join_bytes(parts.deep_view().take(i + 1), b));
        }
        i = i + 1;
    }
    proof {
        assert(parts.deep_view().take(parts@.len() as int) =~= parts.deep_view());
    }
    r
}

/// The decimal digits of `n`, most significant first.
pub open spec fn decimal(n: nat) -> Seq<u8>
    decreases n,
{
    if n < 10 {
        seq![(48 + n) as u8]
    } else {
        decimal(n / 10).push((48 + n % 10) as u8)
    }
}

/// Appends the decimal digits of `n` to `out`.
pub fn push_decimal(n: usize, out: &mut Vec<u8>)
    ensures
        final(out)@ == old(out)@ + decimal(n as nat),
    decreases n,
{
    if n < 10 {
        out.push(48 + n as u8);
        proof {
            assert(out@ =~= old(out)@ + decimal(n as nat));
        }
    } else {
        push_decimal(n / 10, out);
        out.push(48 + (n % 10) as u8);
        proof {
            assert(out@ =~= old(out)@ + decimal(n as nat));
        }
    }
}

/// A number up to 255 never needs more than three digits.
pub proof fn lemma_decimal_len(n: nat)
    requires
        n <= 255,
    ensures
        decimal(n).len() <= 3,
{
    vstd::arithmetic::div_mod::lemma_fundamental_div_mod(n as int, 10);
    vstd::arithmetic::div_mod::lemma_fundamental_div_mod(n as int / 10, 10);
    assert(n >= 10 ==> n / 10 <= 25) by (nonlinear_arith)
        requires
            n <= 255,
            n == 10 * (n / 10) + n % 10,
            0 <= n % 10 < 10,
    ;
    assert(n / 10 >= 10 ==> n / 10 / 10 <= 9) by (nonlinear_arith)
        requires
            n >= 10 ==> n / 10 <= 25,
            n / 10 == 10 * (n / 10 / 10) + (n / 10) % 10,
            0 <= (n / 10) % 10 < 10,
    ;
    if n < 10 {
        assert(decimal(n).len() == 1);
    } else if n / 10 < 10 {
        assert(decimal(n / 10).len() == 1);
        assert(decimal(n).len() == 2);
    } else {
        assert(decimal(n / 10 / 10).len() == 1);
        assert(decimal(n / 10).len() == 2);
        assert(decimal(n).len() == 3);
    }
}

/// The number the digit string `s` denotes, read most significant first.
pub open spec fn dec_value(s: Seq<u8>) -> nat
    decreases s.len(),
{
    if s.len() == 0 {
        0
    } else {
        (dec_value(s.drop_last()) * 10 + (s.last() - 48)) as nat
    }
}

/// Whether `s` is one or more decimal digits.
pub open spec fn is_digits(s: Seq<u8>) -> bool {
    s.len() > 0 && forall|k: int| 0 <= k < s.len() ==> 48 <= #[trigger] s[k] <= 57
}

/// `s` without an optional single leading plus sign.
pub open spec fn strip_plus(s: Seq<u8>) -> Seq<u8> {
    if s.len() > 0 && s[0] == 43 {
        s.skip(1)
    } else {
        s
    }
}

/// What `usize` parsing accepts and yields: an optional plus sign, then
/// digits whose value fits.
pub open spec fn spec_parse_usize(s: Seq<u8>) -> Option<usize> {
    let d = strip_plus(s);
    if is_digits(d) && dec_value(d) <= usize::MAX {
        Some(dec_value(d) as usize)
    } else {
        None
    }
}

/// A digit string is worth at least any of its prefixes.
proof fn lemma_dec_value_prefix(s: Seq<u8>, j: int)
    requires
        0 <= j <= s.len(),
        forall|k: int| j <= k < s.len() ==> 48 <= #[trigger] s[k] <= 57,
    ensures
        dec_value(s.take(j)) <= dec_value(s),
    decreases s.len() - j,
{
    if j < s.len() {
        lemma_dec_value_prefix(s, j + 1);
        assert(s.take(j + 1).drop_last() =~= s.take(j));
        assert(s.take(j + 1).last() == s[j]);
        assert(dec_value(s.take(j)) <= dec_value(s.take(j + 1)));
    } else {
        assert(s.take(j) =~= s);
    }
}

/// `acc * 10 + d` stays in bounds exactly when `acc` is at most
/// `(usize::MAX - d) / 10`.
proof fn lemma_decimal_step_bound(acc: nat, d: nat)
    requires
        d <= 9,
    ensures
        acc * 10 + d <= usize::MAX <==> acc <= (usize::MAX - d) / 10,
{
    let m = (usize::MAX - d) as nat;
    vstd::arithmetic::div_mod::lemma_fundamental_div_mod(m as int, 10);
    let q = m / 10;
    let r = m % 10;
    assert(acc * 10 + d <= usize::MAX <==> acc <= q) by (nonlinear_arith)
        requires
            m == 10 * q + r,
            0 <= r < 10,
            m == usize::MAX - d,
            d <= 9,
    ;
}

/// Parses `v` as std parses a `usize`: an optional leading plus sign, then
/// one or more decimal digits; anything else, or a value past `usize::MAX`,
/// is refused.
pub fn parse_usize(v: &[u8]) -> (r: Option<usize>)
    ensures
        r == spec_parse_usize(v@),
{
    let mut start: usize = 0;
    if v.len() > 0 && v[0] == 43 {
        start = 1;
    }
    if v.len() == start {
        return None;
    }
    let ghost d = strip_plus(v@);
    proof {
        assert(d =~= v@.skip(start as int));
    }
    let mut acc: usize = 0;
    let mut j: usize = start;
    while j < v.len()
        invariant
            start <= j <= v@.len(),
            start < v@.len(),
            d == v@.skip(start as int),
            d == strip_plus(v@),
            forall|k: int| 0 <= k < j - start ==> 48 <= #[trigger] d[k] <= 57,
            acc == dec_value(d.take(j - start)),
        decreases v@.len() - j,
    {
        let ch = v[j];
        proof {
            assert(d[j - start] == v@[j as int]);
        }
        if ch < 48 || ch > 57 {
            proof {
                assert(48 > d[j - start] || d[j - start] > 57);
                assert(!is_digits(d));
            }
            return None;
        }
        let digit = (ch - 48) as usize;
        proof {
            assert(d.take(j - start + 1).drop_last() =~= d.take(j - start));
            assert(d.take(j - start + 1).last() == d[j - start]);
        }
        if acc > (usize::MAX - digit) / 10 {
            proof {
                lemma_decimal_step_bound(acc as nat, digit as nat);
                if is_digits(d) {
                    lemma_dec_value_prefix(d, j - start + 1);
                    assert(dec_value(d) > usize::MAX);
                }
            }
            return None;
        }
        proof {
            lemma_decimal_step_bound(acc as nat, digit as nat);
        }
        acc = acc * 10 + digit;
        j = j + 1;
    }
    proof {
        assert(d.take(v@.len() - start) =~= d);
    }
    Some(acc)
}

} // verus!
