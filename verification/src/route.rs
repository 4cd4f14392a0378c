//! Instrument routing: classify a decoded payload by its protocol family tag
//! and 6-byte instrument marker, assign per-channel sequence numbers, and
//! format the routed-record line handed to the per-channel sink.

use vstd::prelude::*;

use crate::bytes::{all_digits, is_ascii_digit, range_eq};
use crate::decode::{decode, printable_of};
use crate::extract::{lemma_sep_pos_shift, sep_pos};

verus! {

/// The fixed set of output channels: the three known instruments, and a
/// default channel that keeps unmatched traffic visible.
#[derive(Clone, Copy, Debug, PartialEq, Eq, Structural)]
pub enum Channel {
    ThreeYear,
    TenYear,
    ThirtyYear,
    Unmatched,
}

/// The protocol family tag `"B606F"`.
pub open spec fn family_tag() -> Seq<u8> {
    seq![66u8, 54u8, 48u8, 54u8, 70u8]
}

/// The instrument marker `"KR4165"` (3-year).
pub open spec fn marker_three_year() -> Seq<u8> {
    seq![75u8, 82u8, 52u8, 49u8, 54u8, 53u8]
}

/// The instrument marker `"KR4167"` (10-year).
pub open spec fn marker_ten_year() -> Seq<u8> {
    seq![75u8, 82u8, 52u8, 49u8, 54u8, 55u8]
}

/// The instrument marker `"KR4170"` (30-year).
pub open spec fn marker_thirty_year() -> Seq<u8> {
    seq![75u8, 82u8, 52u8, 49u8, 55u8, 48u8]
}

/// The payload holds the family tag somewhere.
pub open spec fn has_family_tag(p: Seq<u8>) -> bool {
    exists|i: int| 0 <= i && i + 5 <= p.len() && #[trigger] p.subrange(i, i + 5) == family_tag()
}

/// The channel of a 6-byte instrument marker; unknown codes route to the
/// default channel rather than being dropped.
pub open spec fn channel_of_marker(m: Seq<u8>) -> Channel {
    if m == marker_three_year() {
        Channel::ThreeYear
    } else if m == marker_ten_year() {
        Channel::TenYear
    } else if m == marker_thirty_year() {
        Channel::ThirtyYear
    } else {
        Channel::Unmatched
    }
}

/// How a decoded payload classifies: it must hold the family tag and be long
/// enough for the instrument marker at bytes `[17, 23)`; otherwise the frame
/// is dropped.
pub open spec fn classify_spec(p: Seq<u8>) -> Option<Channel> {
    if has_family_tag(p) && p.len() >= 23 {
        Some(channel_of_marker(p.subrange(17, 23)))
    } else {
        None
    }
}

/// The family tag as a vector.
fn family_tag_bytes() -> (v: Vec<u8>)
    ensures
        v@ == family_tag(),
{
    let mut v: Vec<u8> = Vec::new();
    v.push(66);
    v.push(54);
    v.push(48);
    v.push(54);
    v.push(70);
    proof {
        assert(v@ =~= family_tag());
    }
    v
}

/// One instrument marker as a vector: `"KR416"` or `"KR417"` plus a final byte.
fn marker_bytes(b5: u8, b6: u8) -> (v: Vec<u8>)
    ensures
        v@ == seq![75u8, 82u8, 52u8, 49u8, b5, b6],
{
    let mut v: Vec<u8> = Vec::new();
    v.push(75);
    v.push(82);
    v.push(52);
    v.push(49);
    v.push(b5);
    v.push(b6);
    proof {
        assert(v@ =~= seq![75u8, 82u8, 52u8, 49u8, b5, b6]);
    }
    v
}

/// Whether the payload holds the family tag anywhere.
#[verifier::loop_isolation(false)]
fn find_family_tag(p: &[u8]) -> (r: bool)
    ensures
        r == has_family_tag(p@),
{
    let tag = family_tag_bytes();
    if p.len() < 5 {
        return false;
    }
    let mut i: usize = 0;
    while i <= p.len() - 5
        invariant
            0 <= i <= p@.len() - 4,
            forall|j: int| 0 <= j < i ==> #[trigger] p@.subrange(j, j + 5) != family_tag(),
        decreases p@.len() - i,
    {
        if range_eq(p, i, tag.as_slice()) {
            return true;
        }
        i += 1;
    }
    proof {
        assert forall|j: int| 0 <= j && j + 5 <= p@.len() implies #[trigger] p@.subrange(j, j + 5)
            != family_tag() by {}
    }
    false
}

/// Classify a decoded payload, exactly as `classify_spec` reads it.
pub fn classify(p: &[u8]) -> (r: Option<Channel>)
    ensures
        r == classify_spec(p@),
{
    if !find_family_tag(p) {
        return None;
    }
    if p.len() < 23 {
        return None;
    }
    let m3 = marker_bytes(54, 53);
    let m10 = marker_bytes(54, 55);
    let m30 = marker_bytes(55, 48);
    let c = if range_eq(p, 17, m3.as_slice()) {
        Channel::ThreeYear
    } else if range_eq(p, 17, m10.as_slice()) {
        Channel::TenYear
    } else if range_eq(p, 17, m30.as_slice()) {
        Channel::ThirtyYear
    } else {
        Channel::Unmatched
    };
    Some(c)
}

/// Owns one strictly increasing sequence counter per channel, each starting
/// at zero for a processing run.
pub struct InstrumentRouter {
    pub seq_three: u64,
    pub seq_ten: u64,
    pub seq_thirty: u64,
    pub seq_unmatched: u64,
}

impl InstrumentRouter {
    /// The sequence counter of one channel.
    pub open spec fn seq_of(self, c: Channel) -> u64 {
        match c {
            Channel::ThreeYear => self.seq_three,
            Channel::TenYear => self.seq_ten,
            Channel::ThirtyYear => self.seq_thirty,
            Channel::Unmatched => self.seq_unmatched,
        }
    }

    /// Every counter can still be incremented.
    pub open spec fn can_assign(self) -> bool {
        self.seq_three < u64::MAX && self.seq_ten < u64::MAX && self.seq_thirty < u64::MAX
            && self.seq_unmatched < u64::MAX
    }

    /// A fresh router: every channel's sequence starts at zero.
    pub fn new() -> (r: Self)
        ensures
            forall|c: Channel| #[trigger] r.seq_of(c) == 0,
            r.can_assign(),
    {
        InstrumentRouter { seq_three: 0, seq_ten: 0, seq_thirty: 0, seq_unmatched: 0 }
    }

    /// Route a decoded payload: classify it, and on success assign that
    /// channel's next sequence number, leaving every other channel unchanged.
    /// A payload that does not classify changes nothing.
    pub fn route(&mut self, payload: &[u8]) -> (r: Option<(Channel, u64)>)
        requires
            old(self).can_assign(),
        ensures
            classify_spec(payload@) is None ==> r is None && *final(self) == *old(self),
            (match classify_spec(payload@) {
                Some(c) => r == Some((c, old(self).seq_of(c))) && final(self).seq_of(c) == old(
                    self,
                ).seq_of(c) + 1 && (forall|d: Channel|
                    d != c ==> #[trigger] final(self).seq_of(d) == old(self).seq_of(d)),
                None => true,
            }),
    {
        match classify(payload) {
            None => None,
            Some(c) => {
                let n: u64 = match c {
                    Channel::ThreeYear => {
                        let n = self.seq_three;
                        self.seq_three = self.seq_three + 1;
                        n
                    },
                    Channel::TenYear => {
                        let n = self.seq_ten;
                        self.seq_ten = self.seq_ten + 1;
                        n
                    },
                    Channel::ThirtyYear => {
                        let n = self.seq_thirty;
                        self.seq_thirty = self.seq_thirty + 1;
                        n
                    },
                    Channel::Unmatched => {
                        let n = self.seq_unmatched;
                        self.seq_unmatched = self.seq_unmatched + 1;
                        n
                    },
                };
                Some((c, n))
            },
        }
    }
}

/// The decimal digits of `n`, most significant first, no leading zeros.
pub open spec fn dec_digits(n: nat) -> Seq<u8>
    decreases n,
{
    if n < 10 {
        seq![(48 + n) as u8]
    } else {
        dec_digits(n / 10).push((48 + n % 10) as u8)
    }
}

/// Sequence-number digits are digit bytes.
pub proof fn lemma_dec_digits_digits(n: nat)
    ensures
        all_digits(dec_digits(n)),
    decreases n,
{
    if n < 10 {
    } else {
        lemma_dec_digits_digits(n / 10);
        let d = dec_digits(n / 10);
        let r = dec_digits(n);
        assert forall|i: int| 0 <= i < r.len() implies is_ascii_digit(#[trigger] r[i]) by {
            if i < d.len() {
                assert(r[i] == d[i]);
            }
        }
    }
}

/// The routed-record line `<sequence>: <payload>`.
pub open spec fn record_line(n: nat, payload: Seq<u8>) -> Seq<u8> {
    dec_digits(n) + seq![58u8, 32u8] + payload
}

/// Append the decimal digits of `n` to `out`.
fn push_decimal(n: u64, out: &mut Vec<u8>)
    ensures
        final(out)@ == old(out)@ + dec_digits(n as nat),
    decreases n,
{
    if n < 10 {
        out.push(48 + (n as u8));
        proof {
            assert(final(out)@ =~= old(out)@ + dec_digits(n as nat));
        }
    } else {
        assert(n / 10 < n) by (nonlinear_arith)
            requires
                n >= 10,
        ;
        push_decimal(n / 10, out);
        out.push(48 + ((n % 10) as u8));
        proof {
            assert(final(out)@ =~= old(out)@ + dec_digits(n as nat));
        }
    }
}

/// Format the routed-record line for one frame: the sequence number in
/// decimal, the `": "` separator, then the payload text.
pub fn format_record(n: u64, payload: &[u8]) -> (line: Vec<u8>)
    ensures
        line@ == record_line(n as nat, payload@),
{
    let mut line: Vec<u8> = Vec::new();
    push_decimal(n, &mut line);
    line.push(58);
    line.push(32);
    line.extend_from_slice(payload);
    proof {
        assert(line@ =~= record_line(n as nat, payload@));
    }
    line
}

/// A formatted record line splits back at its separator: the first `": "`
/// stands right after the digits, and what follows it is exactly the payload.
pub proof fn lemma_record_line_split(n: nat, payload: Seq<u8>)
    ensures
        sep_pos(record_line(n, payload)) == Some(dec_digits(n).len() as int),
        record_line(n, payload).skip(dec_digits(n).len() as int + 2) == payload,
{
    let line = record_line(n, payload);
    let d = dec_digits(n);
    lemma_dec_digits_digits(n);
    assert forall|i: int|
        0 <= i < d.len() implies !(#[trigger] line[i] == 58 && i + 1 < line.len() && line[i + 1]
        == 32) by {
        assert(line[i] == d[i]);
        assert(is_ascii_digit(d[i]));
    }
    lemma_sep_pos_shift(line, d.len() as int);
    let tail = line.skip(d.len() as int);
    assert(tail[0] == 58);
    assert(tail[1] == 32);
    assert(sep_pos(tail) == Some(0int));
    assert(line.skip(d.len() as int + 2) =~= payload);
}

/// One ingest step: decode a captured frame, classify its payload, assign the
/// channel's next sequence number, and format the routed-record line that the
/// channel's sink receives.
pub fn ingest_frame(router: &mut InstrumentRouter, frame: &[u8], header_width: usize) -> (r:
    Option<(Channel, u64, Vec<u8>)>)
    requires
        old(router).can_assign(),
    ensures
        (match r {
            Some(t) => {
                &&& frame@.len() >= header_width
                &&& classify_spec(printable_of(frame@.skip(header_width as int))) == Some(t.0)
                &&& t.1 == old(router).seq_of(t.0)
                &&& final(router).seq_of(t.0) == old(router).seq_of(t.0) + 1
                &&& (forall|d: Channel|
                    d != t.0 ==> #[trigger] final(router).seq_of(d) == old(router).seq_of(d))
                &&& t.2@ == record_line(
                    t.1 as nat,
                    printable_of(frame@.skip(header_width as int)),
                )
            },
            None => *final(router) == *old(router) && (frame@.len() < header_width || classify_spec(
                printable_of(frame@.skip(header_width as int)),
            ) is None),
        }),
{
    match decode(frame, header_width) {
        None => None,
        Some(payload) => {
            match router.route(payload.as_slice()) {
                None => None,
                Some((c, n)) => {
                    let line = format_record(n, payload.as_slice());
                    Some((c, n, line))
                },
            }
        },
    }
}

} // verus!
