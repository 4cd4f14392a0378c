//! Exact decimal prices. A price field is a short byte string such as
//! `"  101.250"`; it is trimmed of surrounding whitespace and read as a plain
//! signed decimal number, kept exactly as a mantissa and a power-of-ten scale
//! so that midpoints need no floating point and lose nothing.

use vstd::prelude::*;

use crate::bytes::{all_digits, is_ascii_digit, is_ascii_space};

verus! {

/// An exact decimal number: the value `mantissa / 10^scale`.
#[derive(Clone, Copy, Debug, PartialEq, Eq, Structural)]
pub struct Price {
    pub mantissa: i64,
    pub scale: u32,
}

/// 10 to the power `n`.
pub open spec fn pow10(n: nat) -> nat
    decreases n,
{
    if n == 0 {
        1
    } else {
        10 * pow10((n - 1) as nat)
    }
}

pub proof fn lemma_pow10_pos(n: nat)
    ensures
        pow10(n) >= 1,
    decreases n,
{
    if n > 0 {
        lemma_pow10_pos((n - 1) as nat);
    }
}

pub proof fn lemma_pow10_mono(m: nat, n: nat)
    requires
        m <= n,
    ensures
        pow10(m) <= pow10(n),
    decreases n,
{
    if m < n {
        lemma_pow10_mono(m, (n - 1) as nat);
        lemma_pow10_pos((n - 1) as nat);
    }
}

pub proof fn lemma_pow10_vals()
    ensures
        pow10(8) == 100000000,
        pow10(9) == 1000000000,
        pow10(17) == 100000000000000000,
        pow10(18) == 1000000000000000000,
{
    reveal_with_fuel(pow10, 20);
}

/// The base-10 value of an all-digit byte string.
pub open spec fn digits_val(s: Seq<u8>) -> nat
    decreases s.len(),
{
    if s.len() == 0 {
        0
    } else {
        digits_val(s.drop_last()) * 10 + (s.last() - 48) as nat
    }
}

/// An all-digit string of length `n` denotes a value below `10^n`.
pub proof fn lemma_digits_val_bound(s: Seq<u8>)
    requires
        all_digits(s),
    ensures
        digits_val(s) < pow10(s.len()),
    decreases s.len(),
{
    if s.len() > 0 {
        assert(all_digits(s.drop_last()));
        lemma_digits_val_bound(s.drop_last());
        assert(is_ascii_digit(s.last()));
    }
}

/// `s` without its leading ASCII whitespace.
pub open spec fn trim_front(s: Seq<u8>) -> Seq<u8>
    decreases s.len(),
{
    if s.len() > 0 && is_ascii_space(s.first()) {
        trim_front(s.drop_first())
    } else {
        s
    }
}

/// `s` without its trailing ASCII whitespace.
pub open spec fn trim_back(s: Seq<u8>) -> Seq<u8>
    decreases s.len(),
{
    if s.len() > 0 && is_ascii_space(s.last()) {
        trim_back(s.drop_last())
    } else {
        s
    }
}

/// `s` without surrounding ASCII whitespace.
pub open spec fn trim_spec(s: Seq<u8>) -> Seq<u8> {
    trim_back(trim_front(s))
}

/// How many `'.'` bytes `s` holds.
pub open spec fn dot_count(s: Seq<u8>) -> nat
    decreases s.len(),
{
    if s.len() == 0 {
        0
    } else {
        dot_count(s.drop_last()) + (if s.last() == 46 {
            1nat
        } else {
            0nat
        })
    }
}

/// The index of the first `'.'` byte of `s` (meaningful when one exists).
pub open spec fn dot_pos(s: Seq<u8>) -> int
    decreases s.len(),
{
    if s.len() == 0 {
        0
    } else if s.first() == 46 {
        0
    } else {
        1 + dot_pos(s.drop_first())
    }
}

/// An unsigned decimal numeral: digits with at most one `'.'` and at least one
/// digit. Yields the digit string's value and the count of fraction digits.
pub open spec fn parse_unsigned_spec(t: Seq<u8>) -> Option<(nat, nat)> {
    if dot_count(t) == 0 {
        if t.len() >= 1 && all_digits(t) {
            Some((digits_val(t), 0nat))
        } else {
            None
        }
    } else if dot_count(t) == 1 {
        let k = dot_pos(t);
        let pre = t.take(k);
        let post = t.skip(k + 1);
        if pre.len() + post.len() >= 1 && all_digits(pre) && all_digits(post) {
            Some((digits_val(pre + post), post.len()))
        } else {
            None
        }
    } else {
        None
    }
}

/// A price field: surrounding whitespace trimmed, an optional sign, then an
/// unsigned decimal numeral. Yields the signed mantissa and the scale.
pub open spec fn parse_price_spec(s: Seq<u8>) -> Option<(int, nat)> {
    let t = trim_spec(s);
    if t.len() == 0 {
        None
    } else if t.first() == 45 {
        match parse_unsigned_spec(t.drop_first()) {
            Some(p) => Some((-(p.0 as int), p.1)),
            None => None,
        }
    } else if t.first() == 43 {
        match parse_unsigned_spec(t.drop_first()) {
            Some(p) => Some((p.0 as int, p.1)),
            None => None,
        }
    } else {
        match parse_unsigned_spec(t) {
            Some(p) => Some((p.0 as int, p.1)),
            None => None,
        }
    }
}

/// Bounds met by every price parsed from a field of at most 9 bytes; they keep
/// the midpoint arithmetic inside `i64`.
pub open spec fn price_wf(p: Price) -> bool {
    p.scale <= 8 && -1000000000 < p.mantissa < 1000000000
}

/// The exact midpoint of two decimals `a` and `b`: both are brought to their
/// larger scale, and `(a + b) / 2` is written as `(a + b) * 5` one scale finer.
pub open spec fn midpoint_model(a: (int, nat), b: (int, nat)) -> (int, nat) {
    let f = if a.1 >= b.1 {
        a.1
    } else {
        b.1
    };
    (((a.0 * pow10((f - a.1) as nat)) + (b.0 * pow10((f - b.1) as nat))) * 5, f + 1)
}

/// The model of an exec price.
pub open spec fn price_model(p: Price) -> (int, nat) {
    (p.mantissa as int, p.scale as nat)
}

pub proof fn lemma_pow10_add(m: nat, n: nat)
    ensures
        pow10((m + n) as nat) == pow10(m) * pow10(n),
    decreases n,
{
    if n == 0 {
        assert(pow10(n) == 1);
        assert((m + n) as nat == m);
    } else {
        lemma_pow10_add(m, (n - 1) as nat);
        assert(pow10((m + ((n - 1) as nat)) as nat) == pow10(m) * pow10((n - 1) as nat));
        assert((m + ((n - 1) as nat)) as nat == (m + n - 1) as nat);
        assert(pow10((m + n) as nat) == 10 * pow10((m + n - 1) as nat));
        assert(pow10(n) == 10 * pow10((n - 1) as nat));
        assert(10 * (pow10(m) * pow10((n - 1) as nat)) == pow10(m) * (10 * pow10(
            (n - 1) as nat,
        ))) by (nonlinear_arith);
        assert(pow10((m + n) as nat) == 10 * (pow10(m) * pow10((n - 1) as nat)));
        assert(pow10((m + n) as nat) == pow10(m) * (10 * pow10((n - 1) as nat)));
        assert(pow10((m + n) as nat) == pow10(m) * pow10(n));
    }
}

/// The midpoint really is the mean: reading a pair `(m, s)` as the rational
/// `m / 10^s`, the result `r` of `midpoint_model(a, b)` satisfies
/// `2 * (r.0 / 10^r.1) == a.0 / 10^a.1 + b.0 / 10^b.1`, written here with the
/// denominators cleared.
pub proof fn lemma_midpoint_is_mean(a: (int, nat), b: (int, nat))
    ensures
        2 * midpoint_model(a, b).0 * pow10((a.1 + b.1) as nat) == (a.0 * pow10(b.1) + b.0 * pow10(
            a.1,
        )) * pow10(midpoint_model(a, b).1),
{
    let f = if a.1 >= b.1 {
        a.1
    } else {
        b.1
    };
    let pa = pow10((f - a.1) as nat);
    let pb = pow10((f - b.1) as nat);
    let r0 = (a.0 * pa + b.0 * pb) * 5;
    let pab = pow10((a.1 + b.1) as nat);
    let pf = pow10(f);
    let pa1 = pow10(a.1);
    let pb1 = pow10(b.1);
    let pfa = pow10((f + a.1) as nat);
    let pfb = pow10((f + b.1) as nat);
    lemma_pow10_add((f - a.1) as nat, (a.1 + b.1) as nat);
    lemma_pow10_add((f - b.1) as nat, (a.1 + b.1) as nat);
    lemma_pow10_add(b.1, f);
    lemma_pow10_add(a.1, f);
    assert(pa * pab == pfb);
    assert(pb * pab == pfa);
    assert(pb1 * pf == pfb);
    assert(pa1 * pf == pfa);
    assert(pow10((f + 1) as nat) == 10 * pf);
    let s = a.0 * pa + b.0 * pb;
    assert(2 * r0 == 10 * s);
    assert(2 * r0 * pab == 10 * (s * pab)) by (nonlinear_arith)
        requires
            2 * r0 == 10 * s,
    ;
    assert(s * pab == a.0 * (pa * pab) + b.0 * (pb * pab)) by (nonlinear_arith)
        requires
            s == a.0 * pa + b.0 * pb,
    ;
    assert(2 * r0 * pab == 10 * (a.0 * pfb + b.0 * pfa));
    assert((a.0 * pb1 + b.0 * pa1) * (10 * pf) == 10 * (a.0 * (pb1 * pf) + b.0 * (pa1 * pf)))
        by (nonlinear_arith);
    assert((a.0 * pb1 + b.0 * pa1) * (10 * pf) == 10 * (a.0 * pfb + b.0 * pfa));
}

pub proof fn lemma_trim_front_skip(s: Seq<u8>, k: int)
    requires
        0 <= k <= s.len(),
        forall|j: int| 0 <= j < k ==> is_ascii_space(#[trigger] s[j]),
        k == s.len() || !is_ascii_space(s[k]),
    ensures
        trim_front(s) == s.skip(k),
    decreases k,
{
    if k == 0 {
        assert(s.skip(0) =~= s);
    } else {
        assert(is_ascii_space(s[0]));
        let d = s.drop_first();
        assert forall|j: int| 0 <= j < k - 1 implies is_ascii_space(#[trigger] d[j]) by {
            assert(d[j] == s[j + 1]);
        }
        if k < s.len() {
            assert(d[k - 1] == s[k]);
        }
        lemma_trim_front_skip(d, k - 1);
        assert(d.skip(k - 1) =~= s.skip(k));
    }
}

pub proof fn lemma_trim_back_take(t: Seq<u8>, j: int)
    requires
        0 <= j <= t.len(),
        forall|idx: int| j <= idx < t.len() ==> is_ascii_space(#[trigger] t[idx]),
        j == 0 || !is_ascii_space(t[j - 1]),
    ensures
        trim_back(t) == t.take(j),
    decreases t.len(),
{
    if j == t.len() {
        assert(t.take(j) =~= t);
    } else {
        assert(is_ascii_space(t.last()));
        let d = t.drop_last();
        assert forall|idx: int| j <= idx < d.len() implies is_ascii_space(#[trigger] d[idx]) by {
            assert(d[idx] == t[idx]);
        }
        if j > 0 {
            assert(d[j - 1] == t[j - 1]);
        }
        lemma_trim_back_take(d, j);
        assert(d.take(j) =~= t.take(j));
    }
}

pub proof fn lemma_dot_count_zero(t: Seq<u8>)
    requires
        forall|i: int| 0 <= i < t.len() ==> #[trigger] t[i] != 46,
    ensures
        dot_count(t) == 0,
    decreases t.len(),
{
    if t.len() > 0 {
        let d = t.drop_last();
        assert forall|i: int| 0 <= i < d.len() implies #[trigger] d[i] != 46 by {
            assert(d[i] == t[i]);
        }
        lemma_dot_count_zero(d);
        assert(t.last() != 46);
    }
}

pub proof fn lemma_dot_count_pos(t: Seq<u8>, k: int)
    requires
        0 <= k < t.len(),
        t[k] == 46,
    ensures
        dot_count(t) >= 1,
    decreases t.len(),
{
    if k < t.len() - 1 {
        let d = t.drop_last();
        assert(d[k] == t[k]);
        lemma_dot_count_pos(d, k);
    }
}

pub proof fn lemma_dot_count_two(t: Seq<u8>, k1: int, k2: int)
    requires
        0 <= k1 < k2 < t.len(),
        t[k1] == 46,
        t[k2] == 46,
    ensures
        dot_count(t) >= 2,
    decreases t.len(),
{
    let d = t.drop_last();
    if k2 == t.len() - 1 {
        assert(d[k1] == t[k1]);
        lemma_dot_count_pos(d, k1);
    } else {
        assert(d[k1] == t[k1]);
        assert(d[k2] == t[k2]);
        lemma_dot_count_two(d, k1, k2);
    }
}

pub proof fn lemma_dot_count_one(t: Seq<u8>, k: int)
    requires
        0 <= k < t.len(),
        t[k] == 46,
        forall|i: int| 0 <= i < t.len() && i != k ==> #[trigger] t[i] != 46,
    ensures
        dot_count(t) == 1,
    decreases t.len(),
{
    let d = t.drop_last();
    if k == t.len() - 1 {
        assert forall|i: int| 0 <= i < d.len() implies #[trigger] d[i] != 46 by {
            assert(d[i] == t[i]);
        }
        lemma_dot_count_zero(d);
    } else {
        assert(d[k] == t[k]);
        assert forall|i: int| 0 <= i < d.len() && i != k implies #[trigger] d[i] != 46 by {
            assert(d[i] == t[i]);
        }
        lemma_dot_count_one(d, k);
        assert(t.last() != 46);
    }
}

pub proof fn lemma_dot_pos_first(t: Seq<u8>, k: int)
    requires
        0 <= k < t.len(),
        t[k] == 46,
        forall|i: int| 0 <= i < k ==> #[trigger] t[i] != 46,
    ensures
        dot_pos(t) == k,
    decreases k,
{
    if k == 0 {
    } else {
        assert(t[0] != 46);
        let d = t.drop_first();
        assert(d[k - 1] == t[k]);
        assert forall|i: int| 0 <= i < k - 1 implies #[trigger] d[i] != 46 by {
            assert(d[i] == t[i + 1]);
        }
        lemma_dot_pos_first(d, k - 1);
    }
}

/// Whether `b` is ASCII whitespace.
fn is_space_b(b: u8) -> (r: bool)
    ensures
        r == is_ascii_space(b),
{
    b == 32 || (9 <= b && b <= 13)
}

pub proof fn lemma_trim_front_len(s: Seq<u8>)
    ensures
        trim_front(s).len() <= s.len(),
    decreases s.len(),
{
    if s.len() > 0 && is_ascii_space(s.first()) {
        lemma_trim_front_len(s.drop_first());
    }
}

pub proof fn lemma_trim_back_len(s: Seq<u8>)
    ensures
        trim_back(s).len() <= s.len(),
    decreases s.len(),
{
    if s.len() > 0 && is_ascii_space(s.last()) {
        lemma_trim_back_len(s.drop_last());
    }
}

pub proof fn lemma_dot_count_drop_first(t: Seq<u8>)
    requires
        t.len() > 0,
        t.first() != 46,
    ensures
        dot_count(t) == dot_count(t.drop_first()),
    decreases t.len(),
{
    if t.len() > 1 {
        assert(t.drop_last().first() == t.first());
        lemma_dot_count_drop_first(t.drop_last());
        assert(t.drop_first().drop_last() =~= t.drop_last().drop_first());
        assert(t.drop_first().last() == t.last());
    } else {
        assert(t.drop_last() =~= Seq::<u8>::empty());
        assert(t.drop_first() =~= Seq::<u8>::empty());
        assert(t.last() == t.first());
    }
}

/// Where a dot exists, `dot_pos` names a real dot.
pub proof fn lemma_dot_pos_range(t: Seq<u8>)
    requires
        dot_count(t) >= 1,
    ensures
        0 <= dot_pos(t) < t.len(),
        t[dot_pos(t)] == 46,
    decreases t.len(),
{
    if t.len() > 0 {
        if t.first() != 46 {
            lemma_dot_count_drop_first(t);
            lemma_dot_pos_range(t.drop_first());
        }
    }
}

/// A price parsed from a field of at most 9 bytes meets `price_wf`.
pub proof fn lemma_parse_price_wf(s: Seq<u8>, p: Price)
    requires
        s.len() <= 9,
        parse_price_spec(s) == Some(price_model(p)),
    ensures
        price_wf(p),
{
    lemma_trim_front_len(s);
    lemma_trim_back_len(trim_front(s));
    lemma_pow10_vals();
    let t = trim_spec(s);
    let body = if t.first() == 45 || t.first() == 43 {
        t.drop_first()
    } else {
        t
    };
    assert(body.len() <= 9);
    assert(parse_unsigned_spec(body) is Some);
    if dot_count(body) == 0 {
        lemma_digits_val_bound(body);
        lemma_pow10_mono(body.len(), 9);
    } else {
        lemma_dot_pos_range(body);
        let k = dot_pos(body);
        let pre = body.take(k);
        let post = body.skip(k + 1);
        assert(all_digits(pre) && all_digits(post));
        let u = pre + post;
        assert forall|i: int| 0 <= i < u.len() implies is_ascii_digit(#[trigger] u[i]) by {
            if i < pre.len() {
                assert(u[i] == pre[i]);
            } else {
                assert(u[i] == post[i - pre.len()]);
            }
        }
        lemma_digits_val_bound(u);
        lemma_pow10_mono(u.len(), 8);
    }
}

/// Result of scanning a field for its decimal point.
enum DotScan {
    NoDot,
    One(usize),
    Many,
}

/// Find the single `'.'` of `b`, if any.
#[verifier::loop_isolation(false)]
fn scan_dot(b: &[u8]) -> (r: DotScan)
    ensures
        (match r {
            DotScan::NoDot => dot_count(b@) == 0,
            DotScan::One(k) => k < b@.len() && b@[k as int] == 46 && dot_count(b@) == 1 && dot_pos(
                b@,
            ) == k,
            DotScan::Many => dot_count(b@) >= 2,
        }),
{
    let n = b.len();
    let mut j: usize = 0;
    let mut dot: usize = n;
    while j < n
        invariant
            0 <= j <= n,
            dot == n || dot < j,
            dot == n ==> forall|p: int| 0 <= p < j ==> b@[p] != 46,
            dot < n ==> b@[dot as int] == 46,
            dot < n ==> forall|p: int| 0 <= p < j && p != dot ==> b@[p] != 46,
        decreases n - j,
    {
        if b[j] == 46 {
            if dot < n {
                proof {
                    lemma_dot_count_two(b@, dot as int, j as int);
                }
                return DotScan::Many;
            }
            dot = j;
        }
        j += 1;
    }
    if dot < n {
        proof {
            lemma_dot_count_one(b@, dot as int);
            lemma_dot_pos_first(b@, dot as int);
        }
        DotScan::One(dot)
    } else {
        proof {
            lemma_dot_count_zero(b@);
        }
        DotScan::NoDot
    }
}

/// The base-10 value of an all-digit field.
#[verifier::loop_isolation(false)]
fn digits_value_u64(d: &[u8]) -> (v: u64)
    requires
        all_digits(d@),
        d@.len() <= 18,
    ensures
        v == digits_val(d@),
{
    let n = d.len();
    let mut acc: u64 = 0;
    let mut m: usize = 0;
    while m < n
        invariant
            0 <= m <= n,
            acc == digits_val(d@.take(m as int)),
        decreases n - m,
    {
        proof {
            assert(all_digits(d@.take(m as int)));
            lemma_digits_val_bound(d@.take(m as int));
            lemma_pow10_mono(m as nat, 17);
            lemma_pow10_vals();
            assert(d@.take(m + 1).drop_last() =~= d@.take(m as int));
            assert(d@.take(m + 1).last() == d@[m as int]);
        }
        let b = d[m];
        acc = acc * 10 + ((b - 48) as u64);
        m += 1;
    }
    proof {
        assert(d@.take(n as int) =~= d@);
    }
    acc
}

/// The byte range of `s` that survives trimming: `trim_spec(s@)` is
/// `s@.subrange(r.0, r.1)`.
#[verifier::loop_isolation(false)]
fn trim_range(s: &[u8]) -> (r: (usize, usize))
    ensures
        r.0 <= r.1 <= s@.len(),
        trim_spec(s@) == s@.subrange(r.0 as int, r.1 as int),
{
    let n = s.len();
    let mut lo: usize = 0;
    while lo < n && is_space_b(s[lo])
        invariant
            0 <= lo <= n,
            forall|j: int| 0 <= j < lo ==> is_ascii_space(#[trigger] s@[j]),
        decreases n - lo,
    {
        lo += 1;
    }
    let mut hi: usize = n;
    while hi > lo && is_space_b(s[hi - 1])
        invariant
            lo <= hi <= n,
            forall|j: int| hi <= j < n ==> is_ascii_space(#[trigger] s@[j]),
        decreases hi,
    {
        hi -= 1;
    }
    proof {
        lemma_trim_front_skip(s@, lo as int);
        let fr = s@.skip(lo as int);
        assert forall|idx: int| hi - lo <= idx < fr.len() implies is_ascii_space(
            #[trigger] fr[idx],
        ) by {
            assert(fr[idx] == s@[idx + lo]);
        }
        if hi > lo {
            assert(fr[hi - lo - 1] == s@[hi - 1]);
        }
        lemma_trim_back_take(fr, hi - lo);
        assert(fr.take(hi - lo) =~= s@.subrange(lo as int, hi as int));
    }
    (lo, hi)
}

/// Parse a price field of at most 18 bytes, exactly as `parse_price_spec`
/// reads it: whitespace trimmed, an optional sign, digits with at most one
/// decimal point. Anything else yields nothing.
#[verifier::rlimit(60)]
pub fn parse_price(s: &[u8]) -> (r: Option<Price>)
    requires
        s@.len() <= 18,
    ensures
        (match r {
            Some(p) => parse_price_spec(s@) == Some(price_model(p)),
            None => parse_price_spec(s@) is None,
        }),
{
    let (lo, hi) = trim_range(s);
    let ghost t = s@.subrange(lo as int, hi as int);
    if lo == hi {
        return None;
    }
    let first = s[lo];
    let neg = first == 45;
    let d0: usize = if first == 45 || first == 43 {
        lo + 1
    } else {
        lo
    };
    let body = crate::bytes::subrange_vec(s, d0, hi);
    proof {
        assert(t.first() == s@[lo as int]);
        if d0 > lo {
            assert(t.drop_first() =~= body@);
        } else {
            assert(t =~= body@);
        }
    }
    let (digits, scale): (u64, u32) = match scan_dot(body.as_slice()) {
        DotScan::Many => {
            return None;
        },
        DotScan::NoDot => {
            if body.len() == 0 {
                return None;
            }
            if !crate::bytes::check_all_digits(body.as_slice()) {
                return None;
            }
            let dv = digits_value_u64(body.as_slice());
            proof {
                lemma_digits_val_bound(body@);
                lemma_pow10_mono(body@.len(), 18);
                lemma_pow10_vals();
                assert(dv < 1000000000000000000);
            }
            (dv, 0)
        },
        DotScan::One(k) => {
            let pre = crate::bytes::subrange_vec(body.as_slice(), 0, k);
            let post = crate::bytes::subrange_vec(body.as_slice(), k + 1, body.len());
            proof {
                assert(pre@ =~= body@.take(k as int));
                assert(post@ =~= body@.skip(k as int + 1));
            }
            if pre.len() == 0 && post.len() == 0 {
                return None;
            }
            if !crate::bytes::check_all_digits(pre.as_slice()) {
                return None;
            }
            if !crate::bytes::check_all_digits(post.as_slice()) {
                return None;
            }
            let sc = post.len() as u32;
            let ghost preseq = pre@;
            let ghost postseq = post@;
            let mut cat = pre;
            cat.extend_from_slice(post.as_slice());
            proof {
                assert(cat@ == preseq + postseq);
                assert(all_digits(cat@));
            }
            let dv = digits_value_u64(cat.as_slice());
            proof {
                lemma_digits_val_bound(cat@);
                lemma_pow10_mono(cat@.len(), 18);
                lemma_pow10_vals();
                assert(dv < 1000000000000000000);
            }
            (dv, sc)
        },
    };
    let mantissa: i64 = if neg {
        -(digits as i64)
    } else {
        digits as i64
    };
    Some(Price { mantissa, scale })
}

/// 10 to the power `e`, as a machine integer.
pub fn pow10_u64(e: u32) -> (r: u64)
    requires
        e <= 18,
    ensures
        r == pow10(e as nat),
{
    proof {
        lemma_pow10_vals();
    }
    let mut r: u64 = 1;
    let mut i: u32 = 0;
    while i < e
        invariant
            0 <= i <= e <= 18,
            r == pow10(i as nat),
        decreases e - i,
    {
        proof {
            lemma_pow10_mono(i as nat, 17);
            lemma_pow10_vals();
        }
        r = r * 10;
        i += 1;
    }
    r
}

/// The exact midpoint of two parsed prices.
pub fn midpoint(a: &Price, b: &Price) -> (r: Price)
    requires
        price_wf(*a),
        price_wf(*b),
    ensures
        price_model(r) == midpoint_model(price_model(*a), price_model(*b)),
{
    let f: u32 = if a.scale >= b.scale {
        a.scale
    } else {
        b.scale
    };
    let pa = pow10_u64(f - a.scale);
    let pb = pow10_u64(f - b.scale);
    proof {
        lemma_pow10_mono((f - a.scale) as nat, 8);
        lemma_pow10_mono((f - b.scale) as nat, 8);
        lemma_pow10_vals();
        assert(-100000000000000000 <= a.mantissa * (pa as int) <= 100000000000000000)
            by (nonlinear_arith)
            requires
                -1000000000 < a.mantissa < 1000000000,
                0 <= (pa as int) <= 100000000,
        ;
        assert(-100000000000000000 <= b.mantissa * (pb as int) <= 100000000000000000)
            by (nonlinear_arith)
            requires
                -1000000000 < b.mantissa < 1000000000,
                0 <= (pb as int) <= 100000000,
        ;
    }
    let am: i64 = a.mantissa * (pa as i64);
    let bm: i64 = b.mantissa * (pb as i64);
    let m: i64 = (am + bm) * 5;
    Price { mantissa: m, scale: f + 1 }
}

} // verus!
