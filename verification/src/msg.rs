//! Error text assembly: an error category prefix followed by the
//! diagnostics' messages joined by newlines.

use vstd::prelude::*;

verus! {

/// The first `i` messages joined by a newline byte.
pub open spec fn joined_prefix(msgs: Seq<Seq<u8>>, i: int) -> Seq<u8>
    decreases i,
{
    if 0 < i <= msgs.len() {
        if i == 1 {
            msgs[0]
        } else {
            joined_prefix(msgs, i - 1) + seq![10u8] + msgs[i - 1]
        }
    } else {
        Seq::empty()
    }
}

/// All messages joined by a newline byte.
pub open spec fn joined(msgs: Seq<Seq<u8>>) -> Seq<u8> {
    joined_prefix(msgs, msgs.len() as int)
}

fn push_bytes(dst: &mut Vec<u8>, src: &Vec<u8>)
    ensures
        final(dst)@ == old(dst)@ + src@,
{
    let ghost d0 = dst@;
    let mut k: usize = 0;
    while k < src.len()
        invariant
            k <= src@.len(),
            dst@ == d0 + src@.take(k as int),
        decreases src@.len() - k,
    {
        dst.push(src[k]);
        proof {
            assert(dst@ =~= d0 + src@.take(k as int + 1));
        }
        k += 1;
    }
    proof {
        assert(d0 + src@.take(src@.len() as int) =~= d0 + src@);
    }
}

/// Builds the error text of one failure category: the category's prefix,
/// then the diagnostics' messages joined by newlines.
pub fn error_text(prefix: &Vec<u8>, msgs: &Vec<Vec<u8>>) -> (r: Vec<u8>)
    ensures
        r@ == prefix@ + joined(msgs@.map_values(|m: Vec<u8>| m@)),
{
    let ghost mv = msgs@.map_values(|m: Vec<u8>| m@);
    let mut r: Vec<u8> = Vec::new();
    push_bytes(&mut r, prefix);
    proof {
        assert(r@ =~= prefix@ + joined_prefix(mv, 0));
    }
    let mut i: usize = 0;
    while i < msgs.len()
        invariant
            i <= msgs@.len(),
            mv == msgs@.map_values(|m: Vec<u8>| m@),
            r@ == prefix@ + joined_prefix(mv, i as int),
        decreases msgs@.len() - i,
    {
        if i > 0 {
            r.push(10u8);
        }
        push_bytes(&mut r, &msgs[i]);
        proof {
            assert(mv[i as int] == msgs@[i as int]@);
            if i == 0 {
                assert(r@ =~= prefix@ + joined_prefix(mv, i as int + 1));
            } else {
                assert(r@ =~= prefix@ + joined_prefix(mv, i as int + 1));
            }
        }
        i += 1;
    }
    r
}

} // verus!
