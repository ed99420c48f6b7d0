//! Pre-order searches over expression trees.
//!
//! Several questions the renderer asks of a function body ("which comprehension range?", "which reduction
//! operator?", "which function takes this node?") share one shape: visit the expression, and if it settles the
//! question, stop; otherwise look through its sub-expressions in order and take the first answer found.

use vstd::prelude::*;

use crate::ast::{Expr, expr_size, exprs_size, lemma_exprs_size_elem};

verus! {

/// The direct sub-expressions of `e`, in source order.
pub open spec fn children(e: Expr) -> Seq<Expr> {
    match e {
        Expr::Not(inner) => seq![*inner],
        Expr::BinOp { lhs, rhs, .. } => seq![*lhs, *rhs],
        Expr::Call { args, .. } => args@,
        Expr::Index { base, index } => seq![*base, *index],
        Expr::Array(elems) => elems@,
        Expr::Comprehension { body, .. } => seq![*body],
        Expr::Reduce { array, .. } => seq![*array],
        _ => Seq::empty(),
    }
}

/// The sub-expressions of `e` are smaller than `e`, together and one by one.
pub proof fn lemma_children_size(e: Expr)
    ensures
        exprs_size(children(e)) < expr_size(e),
        forall|i: int| 0 <= i < children(e).len() ==> expr_size(#[trigger] children(e)[i]) < expr_size(e),
{
    reveal_with_fuel(exprs_size, 3);
    let c = children(e);
    match e {
        Expr::Not(inner) => {
            assert(c.drop_first() =~= Seq::<Expr>::empty());
        },
        Expr::BinOp { lhs, rhs, .. } => {
            assert(c.drop_first() =~= seq![*rhs]);
            assert(c.drop_first().drop_first() =~= Seq::<Expr>::empty());
        },
        Expr::Index { base, index } => {
            assert(c.drop_first() =~= seq![*index]);
            assert(c.drop_first().drop_first() =~= Seq::<Expr>::empty());
        },
        Expr::Comprehension { body, .. } => {
            assert(c.drop_first() =~= Seq::<Expr>::empty());
        },
        Expr::Reduce { array, .. } => {
            assert(c.drop_first() =~= Seq::<Expr>::empty());
        },
        _ => {},
    }
    assert forall|i: int| 0 <= i < c.len() implies expr_size(#[trigger] c[i]) < expr_size(e) by {
        lemma_exprs_size_elem(c, i);
    }
}

/// The answer of a pre-order search: `hit(e)` settles the question at `e` when it is `Some`; otherwise the first
/// answer found among the sub-expressions, in order.
pub open spec fn search<T>(e: Expr, hit: spec_fn(Expr) -> Option<Option<T>>) -> Option<T>
    decreases expr_size(e), 0nat,
{
    match hit(e) {
        Some(r) => r,
        None => {
            proof {
                lemma_children_size(e);
            }
            search_seq(children(e), hit)
        },
    }
}

/// The first answer a search finds among the expressions `s`, in order.
pub open spec fn search_seq<T>(s: Seq<Expr>, hit: spec_fn(Expr) -> Option<Option<T>>) -> Option<T>
    decreases exprs_size(s), 1nat,
{
    if s.len() == 0 {
        None
    } else {
        proof {
            lemma_exprs_size_elem(s, 0);
        }
        match search(s[0], hit) {
            Some(r) => Some(r),
            None => search_seq(s.drop_first(), hit),
        }
    }
}

/// One step of a search through a sequence: the answer from position `i` on.
pub proof fn lemma_search_seq_skip<T>(s: Seq<Expr>, hit: spec_fn(Expr) -> Option<Option<T>>, i: int)
    requires
        0 <= i <= s.len(),
    ensures
        i == 0 ==> s.skip(i) == s,
        i == s.len() ==> search_seq(s.skip(i), hit) is None,
        i < s.len() ==> search_seq(s.skip(i), hit) == (match search(s[i], hit) {
            Some(r) => Some(r),
            None => search_seq(s.skip(i + 1), hit),
        }),
{
    if i == 0 {
        assert(s.skip(0) =~= s);
    }
    if i == s.len() {
        assert(s.skip(i) =~= Seq::<Expr>::empty());
    }
    if i < s.len() {
        assert(s.skip(i).drop_first() =~= s.skip(i + 1));
        assert(s.skip(i)[0] == s[i]);
    }
}

/// A search through two expressions: the first, then the second.
pub proof fn lemma_search_pair<T>(a: Expr, b: Expr, hit: spec_fn(Expr) -> Option<Option<T>>)
    ensures
        search_seq(seq![a, b], hit) == (match search(a, hit) {
            Some(r) => Some(r),
            None => search(b, hit),
        }),
        search_seq(seq![a], hit) == search(a, hit),
{
    reveal_with_fuel(search_seq, 3);
    assert(seq![a, b].drop_first() =~= seq![b]);
    assert(seq![b].drop_first() =~= Seq::<Expr>::empty());
    assert(seq![a].drop_first() =~= Seq::<Expr>::empty());
}

} // verus!
