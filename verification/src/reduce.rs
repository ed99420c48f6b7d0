//! The fold shown by the reduction visualiser: a row of words folded left to right with an associative operator.

use vstd::prelude::*;
use vstd::arithmetic::power2::{pow2, lemma2_to64};

use crate::ast::BinOp;
use crate::eval::fold_words;
use crate::word::binop_value;

verus! {

/// Whether `op` is an operator a reduction may fold with: `xor`, `and`, `or` or `+`.
pub open spec fn reducible(op: BinOp) -> bool {
    op is Xor || op is And || op is Or || op is Add
}

/// One step of a fold over 64-bit words: bitwise for `xor`, `and`, `or`; wrapping for `+`.
pub open spec fn reduce_step(op: BinOp, a: u64, b: u64) -> u64 {
    match op {
        BinOp::Xor => a ^ b,
        BinOp::And => a & b,
        BinOp::Or => a | b,
        BinOp::Add => ((a + b) % 0x1_0000_0000_0000_0000) as u64,
        _ => a,
    }
}

/// The left fold `w0 op w1 op …` of a non-empty sequence of words.
pub open spec fn fold_reduce(op: BinOp, s: Seq<u64>) -> u64
    decreases s.len(),
{
    if s.len() <= 1 {
        s[0]
    } else {
        reduce_step(op, fold_reduce(op, s.drop_last()), s.last())
    }
}

/// Left-folds `values` with the reduction operator, matching the comprehension semantics (`w0 op w1 op …`).
/// `None` for an empty row or a non-associative operator (the latter is already rejected by the parser).
pub fn apply_reduce(op: &BinOp, values: &[u64]) -> (r: Option<u64>)
    ensures
        r == if reducible(*op) && values@.len() > 0 {
            Some(fold_reduce(*op, values@))
        } else {
            None
        },
{
    match op {
        BinOp::Xor | BinOp::And | BinOp::Or | BinOp::Add => {},
        _ => return None,
    }
    if values.len() == 0 {
        return None;
    }
    let mut acc = values[0];
    let mut i: usize = 1;
    proof {
        assert(values@.take(1).len() == 1);
    }
    while i < values.len()
        invariant
            reducible(*op),
            1 <= i <= values@.len(),
            acc == fold_reduce(*op, values@.take(i as int)),
        decreases values.len() - i,
    {
        let v = values[i];
        acc = match op {
            BinOp::Xor => acc ^ v,
            BinOp::And => acc & v,
            BinOp::Or => acc | v,
            _ => acc.wrapping_add(v),
        };
        proof {
            assert(values@.take(i + 1).drop_last() =~= values@.take(i as int));
        }
        i += 1;
    }
    proof {
        assert(values@.take(i as int) =~= values@);
    }
    Some(acc)
}

/// The fold the reduction visualiser shows agrees with the evaluator's `reduce` over 64-bit words: for every
/// reduction operator and every non-empty row, [`fold_reduce`] equals the evaluator's fold at width 64.
pub proof fn lemma_reduce_matches_evaluator(op: BinOp, s: Seq<u64>)
    requires
        reducible(op),
        s.len() > 0,
    ensures
        fold_reduce(op, s) == fold_words(op, s, 64),
    decreases s.len(),
{
    if s.len() > 1 {
        lemma_reduce_matches_evaluator(op, s.drop_last());
        let a = fold_reduce(op, s.drop_last());
        let b = s.last();
        lemma2_to64();
        assert(pow2(64) == 0x1_0000_0000_0000_0000);
        assert((a as int) % 0x1_0000_0000_0000_0000 == a as int);
        assert((b as int) % 0x1_0000_0000_0000_0000 == b as int);
        assert(binop_value(op, a, b, 64) == reduce_step(op, a, b) as int);
    }
}

} // verus!
