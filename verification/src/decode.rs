//! Frame decoding: strip the fixed-size transport header from a captured
//! frame and keep only the printable-ASCII bytes of the payload.

use vstd::prelude::*;

verus! {

/// A byte in the printable ASCII range, 32..=126 inclusive.
pub open spec fn is_printable(b: u8) -> bool {
    32 <= b && b <= 126
}

/// The subsequence of printable bytes of `s`, in order.
pub open spec fn printable_of(s: Seq<u8>) -> Seq<u8>
    decreases s.len(),
{
    if s.len() == 0 {
        Seq::empty()
    } else if is_printable(s.last()) {
        printable_of(s.drop_last()).push(s.last())
    } else {
        printable_of(s.drop_last())
    }
}

/// Strip the first `header_width` bytes of `frame` and filter the rest to
/// printable ASCII. A frame shorter than the header yields no payload.
pub fn decode(frame: &[u8], header_width: usize) -> (r: Option<Vec<u8>>)
    ensures
        frame@.len() < header_width ==> r is None,
        frame@.len() >= header_width ==> (r matches Some(p)
            && p@ == printable_of(frame@.skip(header_width as int))),
{
    if frame.len() < header_width {
        return None;
    }
    let mut out: Vec<u8> = Vec::new();
    let mut i: usize = header_width;
    while i < frame.len()
        invariant
            header_width <= i <= frame.len(),
            out@ == printable_of(frame@.subrange(header_width as int, i as int)),
        decreases frame.len() - i,
    {
        proof {
            let full = frame@.subrange(header_width as int, i as int + 1);
            assert(full.drop_last() =~= frame@.subrange(header_width as int, i as int));
            assert(full.last() == frame@[i as int]);
        }
        let b = frame[i];
        if 32 <= b && b <= 126 {
            out.push(b);
        }
        i += 1;
    }
    proof {
        assert(frame@.subrange(header_width as int, frame@.len() as int)
            =~= frame@.skip(header_width as int));
    }
    Some(out)
}

} // verus!
