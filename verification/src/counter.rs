//! The CTR-mode counter: a whole block read as one big-endian number.

use crate::block::{Block, BLOCK};
use vstd::prelude::*;

verus! {

/// `256` raised to the power `n`.
pub open spec fn pow256(n: nat) -> nat
    decreases n,
{
    if n == 0 {
        1
    } else {
        256 * pow256((n - 1) as nat)
    }
}

/// The number that a byte string denotes in big-endian order.
pub open spec fn be_value(s: Seq<u8>) -> nat
    decreases s.len(),
{
    if s.len() == 0 {
        0
    } else {
        be_value(s.drop_last()) * 256 + s.last() as nat
    }
}

/// A byte string incremented by one as a big-endian number, wrapping to all
/// zeros when every byte is `0xff`.
pub open spec fn be_increment(s: Seq<u8>) -> Seq<u8>
    decreases s.len(),
{
    if s.len() == 0 {
        s
    } else if s.last() == 255 {
        be_increment(s.drop_last()).push(0u8)
    } else {
        s.drop_last().push((s.last() + 1) as u8)
    }
}

/// A big-endian number of `n` bytes is below `256^n`.
pub proof fn lemma_be_value_bound(s: Seq<u8>)
    ensures
        be_value(s) < pow256(s.len()),
    decreases s.len(),
{
    if s.len() > 0 {
        lemma_be_value_bound(s.drop_last());
        assert(be_value(s.drop_last()) * 256 + s.last() < pow256(s.len())) by (nonlinear_arith)
            requires
                be_value(s.drop_last()) + 1 <= pow256(s.drop_last().len()),
                s.last() < 256,
                pow256(s.len()) == 256 * pow256(s.drop_last().len()),
        ;
    }
}

/// Incrementing adds one to the big-endian value, modulo `256^n`, and keeps
/// the length.
pub proof fn lemma_be_increment_value(s: Seq<u8>)
    ensures
        be_increment(s).len() == s.len(),
        be_value(be_increment(s)) == (be_value(s) + 1) % pow256(s.len()),
    decreases s.len(),
{
    if s.len() == 0 {
    } else {
        let t = s.drop_last();
        lemma_be_value_bound(t);
        if s.last() == 255 {
            lemma_be_increment_value(t);
            let inc = be_increment(t);
            assert(be_increment(s).drop_last() =~= inc);
            let v: nat = be_value(t);
            let m: nat = pow256(t.len());
            assert((v * 256 + 255 + 1) % (256 * m) == ((v + 1) % m) * 256) by (nonlinear_arith)
                requires
                    v < m,
                    m > 0,
            {
                if v + 1 < m {
                    assert((v + 1) % m == v + 1);
                    assert((v * 256 + 256) == (v + 1) * 256);
                    assert((v + 1) * 256 < 256 * m);
                } else {
                    assert(v + 1 == m);
                    assert((v + 1) % m == 0);
                    assert(v * 256 + 256 == 256 * m);
                }
            }
        } else {
            assert(be_increment(s).drop_last() =~= t);
            let v: nat = be_value(t);
            let m: nat = pow256(t.len());
            let l: nat = s.last() as nat;
            assert((v * 256 + l + 1) % (256 * m) == v * 256 + l + 1) by (nonlinear_arith)
                requires
                    v < m,
                    l < 255,
            {
                assert(v * 256 + l + 1 < 256 * m);
            }
        }
    }
}

/// Adds one to the counter block, read as a 128-bit big-endian number; the
/// all-ones block wraps to all zeros.
pub fn ctr_increment(counter: &mut Block)
    ensures
        final(counter)@ == be_increment(old(counter)@),
{
    let ghost orig: Seq<u8> = counter@;
    let mut i: usize = BLOCK;
    proof {
        assert(orig.take(16) =~= orig);
        assert(counter@.skip(16) =~= Seq::<u8>::empty());
    }
    while i > 0
        invariant_except_break
            i <= BLOCK,
            counter@.len() == BLOCK,
            orig.len() == BLOCK,
            forall|j: int| 0 <= j < i ==> counter@[j] == orig[j],
            forall|j: int| i <= j < BLOCK ==> counter@[j] == 0,
            forall|j: int| i <= j < BLOCK ==> orig[j] == 255,
            be_increment(orig) == be_increment(orig.take(i as int)) + counter@.skip(i as int),
        ensures
            counter@ == be_increment(orig),
        decreases i,
    {
        i -= 1;
        let ghost before: Seq<u8> = counter@;
        proof {
            assert(orig.take(i + 1).drop_last() =~= orig.take(i as int));
            assert(orig.take(i + 1).last() == orig[i as int]);
        }
        if counter[i] == 255 {
            assert(orig[i as int] == 255);
            counter[i] = 0;
            proof {
                assert(counter@ =~= before.update(i as int, 0u8));
                assert(be_increment(orig.take(i + 1)) =~= be_increment(orig.take(i as int)).push(
                    0u8,
                ));
                assert(counter@.skip(i as int) =~= seq![0u8] + before.skip(i + 1));
                assert(be_increment(orig) =~= be_increment(orig.take(i as int)) + counter@.skip(
                    i as int,
                ));
            }
        } else {
            counter[i] = counter[i] + 1;
            proof {
                assert(be_increment(orig.take(i + 1)) =~= orig.take(i as int).push(
                    (orig[i as int] + 1) as u8,
                ));
                assert(counter@ =~= orig.take(i as int).push((orig[i as int] + 1) as u8)
                    + before.skip(i + 1));
                assert(counter@ =~= be_increment(orig));
            }
            break;
        }
    }
    proof {
        if i == 0 {
            assert(orig.take(0) =~= Seq::<u8>::empty());
            assert(counter@.skip(0) =~= counter@);
        }
    }
}

} // verus!
