//! Field extraction: turn one routed-record line (`<sequence>: <payload>`)
//! into a timestamp/midpoint observation, or silently into nothing when the
//! line is short, malformed, or before the pre-market cutoff.

use vstd::prelude::*;

use crate::bytes::{all_digits, check_all_digits, lex_lt, lex_lt_bytes, subrange_vec};
use crate::price::{
    lemma_parse_price_wf, midpoint, midpoint_model, parse_price, parse_price_spec, price_model,
    Price,
};

verus! {

/// A single decoded data point: a timestamp key and the exact midpoint price.
#[derive(Debug, PartialEq, Eq)]
pub struct Observation {
    pub timestamp: Vec<u8>,
    pub midpoint: Price,
}

impl View for Observation {
    type V = (Seq<u8>, (int, nat));

    open spec fn view(&self) -> (Seq<u8>, (int, nat)) {
        (self.timestamp@, price_model(self.midpoint))
    }
}

/// The pre-market cutoff timestamp `"090000000000"`: only strictly later
/// timestamps enter the series.
pub open spec fn cutoff() -> Seq<u8> {
    seq![48u8, 57u8, 48u8, 48u8, 48u8, 48u8, 48u8, 48u8, 48u8, 48u8, 48u8, 48u8]
}

/// The index of the first `": "` separator of `line`, if any.
pub open spec fn sep_pos(line: Seq<u8>) -> Option<int>
    decreases line.len(),
{
    if line.len() < 2 {
        None
    } else if line[0] == 58 && line[1] == 32 {
        Some(0int)
    } else {
        match sep_pos(line.drop_first()) {
            Some(i) => Some(1 + i),
            None => None,
        }
    }
}

/// With no separator starting before `j`, the search continues at `j`.
pub proof fn lemma_sep_pos_shift(line: Seq<u8>, j: int)
    requires
        0 <= j <= line.len(),
        forall|i: int|
            0 <= i < j ==> !(#[trigger] line[i] == 58 && i + 1 < line.len() && line[i + 1] == 32),
    ensures
        sep_pos(line) == (match sep_pos(line.skip(j)) {
            Some(i) => Some(i + j),
            None => None,
        }),
    decreases j,
{
    if j == 0 {
        assert(line.skip(0) =~= line);
    } else if line.len() < 2 {
        assert(line.skip(j).len() < 2);
    } else {
        assert(!(line[0] == 58 && line[1] == 32));
        let d = line.drop_first();
        assert forall|i: int|
            0 <= i < j - 1 implies !(#[trigger] d[i] == 58 && i + 1 < d.len() && d[i + 1]
            == 32) by {
            assert(d[i] == line[i + 1]);
            if i + 1 < d.len() {
                assert(d[i + 1] == line[i + 2]);
            }
        }
        lemma_sep_pos_shift(d, j - 1);
        assert(d.skip(j - 1) =~= line.skip(j));
    }
}

/// What one routed-record line yields. The payload is everything after the
/// first `": "`; it must be at least 65 bytes; its timestamp is bytes
/// `[35, 47)`, all digits and strictly after the cutoff; the price fields are
/// bytes `[47, 56)` and `[56, 65)`; the result pairs the timestamp with the
/// exact midpoint of the two prices.
pub open spec fn obs_of_line(line: Seq<u8>) -> Option<(Seq<u8>, (int, nat))> {
    match sep_pos(line) {
        None => None,
        Some(k) => {
            let p = line.skip(k + 2);
            if p.len() < 65 {
                None
            } else {
                let ts = p.subrange(35, 47);
                if !(all_digits(ts) && lex_lt(cutoff(), ts)) {
                    None
                } else {
                    match (parse_price_spec(p.subrange(47, 56)), parse_price_spec(
                        p.subrange(56, 65),
                    )) {
                        (Some(a), Some(b)) => Some((ts, midpoint_model(a, b))),
                        _ => None,
                    }
                }
            }
        },
    }
}

/// The cutoff timestamp as a vector.
pub fn cutoff_bytes() -> (v: Vec<u8>)
    ensures
        v@ == cutoff(),
{
    let mut v: Vec<u8> = Vec::new();
    v.push(48);
    v.push(57);
    v.push(48);
    v.push(48);
    v.push(48);
    v.push(48);
    v.push(48);
    v.push(48);
    v.push(48);
    v.push(48);
    v.push(48);
    v.push(48);
    proof {
        assert(v@ =~= cutoff());
    }
    v
}

/// Extract the observation of one routed-record line, exactly as
/// `obs_of_line` reads it; lines that yield nothing are dropped, not errors.
#[verifier::loop_isolation(false)]
#[verifier::rlimit(60)]
pub fn extract(line: &[u8]) -> (r: Option<Observation>)
    ensures
        (match r {
            Some(o) => obs_of_line(line@) == Some(o@) && o.timestamp@.len() == 12 && all_digits(
                o.timestamp@,
            ) && lex_lt(cutoff(), o.timestamp@),
            None => obs_of_line(line@) is None,
        }),
{
    let n = line.len();
    let mut k: usize = 0;
    while n - k > 1 && !(line[k] == 58 && line[k + 1] == 32)
        invariant
            0 <= k <= n,
            forall|i: int|
                0 <= i < k ==> !(#[trigger] line@[i] == 58 && i + 1 < n && line@[i + 1] == 32),
        decreases n - k,
    {
        k += 1;
    }
    proof {
        assert forall|i: int|
            0 <= i < k implies !(#[trigger] line@[i] == 58 && i + 1 < line@.len() && line@[i + 1]
            == 32) by {}
        lemma_sep_pos_shift(line@, k as int);
    }
    if n - k <= 1 {
        proof {
            assert(line@.skip(k as int).len() < 2);
        }
        return None;
    }
    proof {
        assert(line@.skip(k as int)[0] == line@[k as int]);
        assert(line@.skip(k as int)[1] == line@[k as int + 1]);
        assert(sep_pos(line@) == Some(k as int));
    }
    let pstart = k + 2;
    let ghost p = line@.skip(pstart as int);
    if n - pstart < 65 {
        return None;
    }
    let ts = subrange_vec(line, pstart + 35, pstart + 47);
    proof {
        assert(ts@ =~= p.subrange(35, 47));
    }
    if !check_all_digits(ts.as_slice()) {
        return None;
    }
    let cut = cutoff_bytes();
    if !lex_lt_bytes(cut.as_slice(), ts.as_slice()) {
        return None;
    }
    let pa_s = subrange_vec(line, pstart + 47, pstart + 56);
    let pb_s = subrange_vec(line, pstart + 56, pstart + 65);
    proof {
        assert(pa_s@ =~= p.subrange(47, 56));
        assert(pb_s@ =~= p.subrange(56, 65));
    }
    let pa = parse_price(pa_s.as_slice());
    let pb = parse_price(pb_s.as_slice());
    match (pa, pb) {
        (Some(a), Some(b)) => {
            proof {
                lemma_parse_price_wf(pa_s@, a);
                lemma_parse_price_wf(pb_s@, b);
            }
            let mid = midpoint(&a, &b);
            Some(Observation { timestamp: ts, midpoint: mid })
        },
        _ => None,
    }
}

} // verus!
