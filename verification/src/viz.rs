//! The expression tree of a map body, as the map visualiser draws it: one node per leaf (array read or literal) and
//! per operation, children before parents, each operation one row below the deeper of its operands.

use vstd::prelude::*;

use crate::ast::{Expr, ExprV, expr_size};
use crate::eval::{ValueV, eval_scalar_with, sem_scalar};
use crate::format::op_text;
use crate::graph::ValidatedGraph;
use crate::map::MapInfo;

verus! {

/// One node of a map body's expression tree, laid out as a grid of cells: leaves (array reads / literals) at row 0,
/// operations stacked below them, the final result at the deepest row.
pub struct VizNode {
    /// The sub-expression, re-evaluated for each `x` to fill the cell.
    pub expr: Expr,
    /// Indices of child nodes feeding this one.
    pub children: Vec<usize>,
    /// Operator glyph for an internal node (`XOR`, `not`, …); `None` for a leaf.
    pub op_label: Option<String>,
    /// The position of a leaf among the leaves, left to right (its column); `None` for an internal node, which is
    /// centred over its children.
    pub leaf: Option<usize>,
    /// Depth row.
    pub row: usize,
    /// For an array read `arr[index]`, the index expression — so the source cell can be highlighted.
    pub read_index: Option<Expr>,
}

/// The model of a [`VizNode`].
pub struct VizNodeV {
    pub expr: ExprV,
    pub children: Seq<usize>,
    pub op_label: Option<Seq<char>>,
    pub leaf: Option<usize>,
    pub row: usize,
    pub read_index: Option<ExprV>,
}

impl View for VizNode {
    type V = VizNodeV;

    open spec fn view(&self) -> VizNodeV {
        VizNodeV {
            expr: self.expr@,
            children: self.children@,
            op_label: match self.op_label {
                Some(s) => Some(s@),
                None => None,
            },
            leaf: self.leaf,
            row: self.row,
            read_index: match self.read_index {
                Some(e) => Some(e@),
                None => None,
            },
        }
    }
}

/// The models of a list of nodes.
pub open spec fn viz_view(nodes: Seq<VizNode>) -> Seq<VizNodeV> {
    nodes.map_values(|n: VizNode| n@)
}

/// The number of leaves of an expression's tree: binary operations and `not` are internal, everything else a leaf.
pub open spec fn leaf_count(e: Expr) -> nat
    decreases e,
{
    match e {
        Expr::BinOp { lhs, rhs, .. } => leaf_count(*lhs) + leaf_count(*rhs),
        Expr::Not(inner) => leaf_count(*inner),
        _ => 1,
    }
}

/// The nodes of the tree of `e`, in the order they are appended (children before parents), when the first gets index
/// `start` and the first leaf column `leaf0`.
pub open spec fn viz_nodes(e: Expr, start: nat, leaf0: nat) -> Seq<VizNodeV>
    decreases e,
{
    match e {
        Expr::BinOp { op, lhs, rhs } => {
            let l = viz_nodes(*lhs, start, leaf0);
            let r = viz_nodes(*rhs, start + l.len(), leaf0 + leaf_count(*lhs));
            let li = start + l.len() - 1;
            let ri = start + l.len() + r.len() - 1;
            let row = 1 + if l.last().row >= r.last().row {
                l.last().row
            } else {
                r.last().row
            };
            l + r + seq![
                VizNodeV {
                    expr: e@,
                    children: seq![li as usize, ri as usize],
                    op_label: Some(op_text(op)),
                    leaf: None,
                    row: row as usize,
                    read_index: None,
                },
            ]
        },
        Expr::Not(inner) => {
            let c = viz_nodes(*inner, start, leaf0);
            c + seq![
                VizNodeV {
                    expr: e@,
                    children: seq![(start + c.len() - 1) as usize],
                    op_label: Some(seq!['n', 'o', 't']),
                    leaf: None,
                    row: (c.last().row + 1) as usize,
                    read_index: None,
                },
            ]
        },
        _ => seq![
            VizNodeV {
                expr: e@,
                children: Seq::empty(),
                op_label: None,
                leaf: Some(leaf0 as usize),
                row: 0,
                read_index: match e {
                    Expr::Index { index, .. } => Some((*index)@),
                    _ => None,
                },
            },
        ],
    }
}

/// A tree has at least one node, at most as many as the expression has parts, and at most as many leaves; its root
/// is no deeper than the number of nodes below it.
pub proof fn lemma_viz_nodes_size(e: Expr, start: nat, leaf0: nat)
    ensures
        1 <= viz_nodes(e, start, leaf0).len() <= expr_size(e),
        1 <= leaf_count(e) <= expr_size(e),
        viz_nodes(e, start, leaf0).last().row < viz_nodes(e, start, leaf0).len(),
    decreases e,
{
    match e {
        Expr::BinOp { lhs, rhs, .. } => {
            lemma_viz_nodes_size(*lhs, start, leaf0);
            let l = viz_nodes(*lhs, start, leaf0);
            lemma_viz_nodes_size(*rhs, start + l.len(), leaf0 + leaf_count(*lhs));
        },
        Expr::Not(inner) => {
            lemma_viz_nodes_size(*inner, start, leaf0);
        },
        _ => {},
    }
}

/// The nodes appended after `before` for the tree of `e` stack up.
proof fn lemma_appended_rows_stack(before: Seq<VizNodeV>, e: Expr, leaf0: nat)
    requires
        before.len() + expr_size(e) <= usize::MAX,
    ensures
        rows_stack((before + viz_nodes(e, before.len(), leaf0)).skip(before.len() as int), before.len() as int),
{
    lemma_viz_rows_stack(e, before.len(), leaf0);
    assert((before + viz_nodes(e, before.len(), leaf0)).skip(before.len() as int) =~= viz_nodes(e, before.len(), leaf0));
}

/// Recursively builds the expression tree, appending nodes (children before parents) and returning the root's index.
/// Leaves are assigned successive columns; an internal node sits one row below the deeper of its operands (see
/// [`rows_stack`]).
pub fn build_viz_tree(expr: &Expr, nodes: &mut Vec<VizNode>, next_leaf: &mut usize) -> (r: usize)
    requires
        old(nodes)@.len() + expr_size(*expr) <= usize::MAX,
        *old(next_leaf) + expr_size(*expr) <= usize::MAX,
    ensures
        viz_view(final(nodes)@) == viz_view(old(nodes)@) + viz_nodes(*expr, old(nodes)@.len(), *old(next_leaf) as nat),
        *final(next_leaf) == *old(next_leaf) + leaf_count(*expr),
        r == final(nodes)@.len() - 1,
        rows_stack(viz_view(final(nodes)@).skip(old(nodes)@.len() as int), old(nodes)@.len() as int),
    decreases expr_size(*expr),
{
    let ghost start = nodes@.len();
    let ghost leaf0 = *next_leaf as nat;
    let ghost before = viz_view(nodes@);
    proof {
        lemma_viz_nodes_size(*expr, start as nat, leaf0);
    }
    match expr {
        Expr::BinOp { op, lhs, rhs } => {
            proof {
                lemma_viz_nodes_size(**lhs, start as nat, leaf0);
            }
            let l = build_viz_tree(lhs, nodes, next_leaf);
            let ghost lv = viz_nodes(**lhs, start as nat, leaf0);
            proof {
                assert(viz_view(nodes@).len() == nodes@.len());
                assert(nodes@.len() == start + lv.len());
                lemma_viz_nodes_size(**rhs, nodes@.len() as nat, *next_leaf as nat);
            }
            let r = build_viz_tree(rhs, nodes, next_leaf);
            let ghost rv = viz_nodes(**rhs, start + lv.len(), leaf0 + leaf_count(**lhs));
            proof {
                assert(viz_view(nodes@) == before + lv + rv);
                assert(viz_view(nodes@)[l as int] == lv.last());
                assert(viz_view(nodes@)[r as int] == rv.last());
                lemma_viz_nodes_size(**lhs, start as nat, leaf0);
                lemma_viz_nodes_size(**rhs, start + lv.len(), leaf0 + leaf_count(**lhs));
            }
            let lrow = nodes[l].row;
            let rrow = nodes[r].row;
            let row = 1 + if lrow >= rrow {
                lrow
            } else {
                rrow
            };
            let mut children: Vec<usize> = Vec::new();
            children.push(l);
            children.push(r);
            let node = VizNode {
                expr: expr.clone(),
                children,
                op_label: Some(op.to_string()),
                leaf: None,
                row,
                read_index: None,
            };
            let ghost mid = nodes@;
            nodes.push(node);
            proof {
                assert(viz_view(nodes@) =~= viz_view(mid).push(node@));
                assert(node@.children =~= seq![l, r]);
                assert(viz_view(nodes@) =~= before + viz_nodes(*expr, start as nat, leaf0));
            }
        },
        Expr::Not(inner) => {
            let c = build_viz_tree(inner, nodes, next_leaf);
            let ghost cv = viz_nodes(**inner, start as nat, leaf0);
            proof {
                assert(viz_view(nodes@) == before + cv);
                assert(viz_view(nodes@)[c as int] == cv.last());
                lemma_viz_nodes_size(**inner, start as nat, leaf0);
            }
            let row = nodes[c].row + 1;
            let mut children: Vec<usize> = Vec::new();
            children.push(c);
            let node = VizNode {
                expr: expr.clone(),
                children,
                op_label: Some(String::from_str("not")),
                leaf: None,
                row,
                read_index: None,
            };
            proof {
                reveal_strlit("not");
            }
            let ghost mid = nodes@;
            nodes.push(node);
            proof {
                assert(viz_view(nodes@) =~= viz_view(mid).push(node@));
                assert(node@.children =~= seq![c]);
                assert(node@.op_label == Some(seq!['n', 'o', 't']));
                assert(viz_view(nodes@) =~= before + viz_nodes(*expr, start as nat, leaf0));
            }
        },
        _ => {
            let read_index = match expr {
                Expr::Index { index, .. } => Some((**index).clone()),
                _ => None,
            };
            let node = VizNode {
                expr: expr.clone(),
                children: Vec::new(),
                op_label: None,
                leaf: Some(*next_leaf),
                row: 0,
                read_index,
            };
            *next_leaf = *next_leaf + 1;
            let ghost mid = nodes@;
            nodes.push(node);
            proof {
                assert(viz_view(nodes@) =~= viz_view(mid).push(node@));
                assert(node@.children =~= Seq::<usize>::empty());
                assert(viz_view(nodes@) =~= before + viz_nodes(*expr, start as nat, leaf0));
            }
        },
    }
    proof {
        lemma_appended_rows_stack(before, *expr, leaf0);
    }
    nodes.len() - 1
}

// - - - - - - - - - - - - - - - - - - - - - - - - - - - - - - - - - - - - - - - - - - - - - - - - - - - - - - - - - - -
// Values shown for each step
// - - - - - - - - - - - - - - - - - - - - - - - - - - - - - - - - - - - - - - - - - - - - - - - - - - - - - - - - - - -

/// The bindings a map body is evaluated under for the index value `x`: the index variable bound to `x`, the array
/// parameter to the input words.
pub open spec fn map_env(map: MapInfo, x: u64, input: Seq<u64>) -> Map<Seq<char>, ValueV> {
    Map::empty().insert(map.var@, ValueV::Scalar(x)).insert(map.array_param@, ValueV::Array(input))
}

/// The value of every node of the tree for the index value `x`.
pub fn node_values_at(
    nodes: &Vec<VizNode>,
    map: &MapInfo,
    x: u64,
    input: &[u64],
    graph: &ValidatedGraph,
) -> (r: Vec<Option<u64>>)
    ensures
        r@.len() == nodes@.len(),
        forall|i: int|
            0 <= i < nodes@.len() ==> #[trigger] r@[i] == sem_scalar(nodes@[i].expr, map_env(*map, x, input@), *graph, 0),
{
    let mut out: Vec<Option<u64>> = Vec::new();
    let mut i: usize = 0;
    while i < nodes.len()
        invariant
            i <= nodes@.len(),
            out@.len() == i,
            forall|k: int|
                0 <= k < i ==> #[trigger] out@[k] == sem_scalar(nodes@[k].expr, map_env(*map, x, input@), *graph, 0),
        decreases nodes.len() - i,
    {
        let v = eval_scalar_with(&nodes[i].expr, map.var.as_str(), x, map.array_param.as_str(), input, graph);
        out.push(v);
        i += 1;
    }
    out
}

/// The number of index values of the range `[start, end)`.
pub open spec fn span_len(range: (usize, usize)) -> nat {
    if range.1 > range.0 {
        (range.1 - range.0) as nat
    } else {
        0
    }
}

/// The value of every node of the tree for each index value of the map's range, in order.
pub fn map_node_values(
    nodes: &Vec<VizNode>,
    map: &MapInfo,
    input: &[u64],
    graph: &ValidatedGraph,
) -> (r: Vec<Vec<Option<u64>>>)
    ensures
        r@.len() == span_len(map.range),
        forall|xi: int| 0 <= xi < r@.len() ==> (#[trigger] r@[xi])@.len() == nodes@.len(),
        forall|xi: int, i: int|
            0 <= xi < r@.len() && 0 <= i < nodes@.len() ==> #[trigger] r@[xi]@[i] == sem_scalar(
                nodes@[i].expr,
                map_env(*map, (map.range.0 + xi) as u64, input@),
                *graph,
                0,
            ),
{
    let (start, end) = map.range;
    let mut out: Vec<Vec<Option<u64>>> = Vec::new();
    let mut x = start;
    while x < end
        invariant
            map.range == (start, end),
            start <= x,
            x <= end || start >= end,
            start >= end ==> x == start,
            out@.len() == x - start,
            forall|xi: int| 0 <= xi < out@.len() ==> (#[trigger] out@[xi])@.len() == nodes@.len(),
            forall|xi: int, i: int|
                0 <= xi < out@.len() && 0 <= i < nodes@.len() ==> #[trigger] out@[xi]@[i] == sem_scalar(
                    nodes@[i].expr,
                    map_env(*map, (start + xi) as u64, input@),
                    *graph,
                    0,
                ),
        decreases end - x,
    {
        let row = node_values_at(nodes, map, x as u64, input, graph);
        out.push(row);
        x += 1;
    }
    out
}

/// The cells the array reads of the tree pick for one index value: for each node that reads `arr[index]`, in order,
/// the value of `index` when it has one.
pub open spec fn reads_of(nodes: Seq<VizNode>, env: Map<Seq<char>, ValueV>, g: ValidatedGraph) -> Seq<usize>
    decreases nodes.len(),
{
    if nodes.len() == 0 {
        Seq::empty()
    } else {
        let before = reads_of(nodes.drop_last(), env, g);
        match nodes.last().read_index {
            Some(ix) => match sem_scalar(ix, env, g, 0) {
                Some(v) => before.push(v as usize),
                None => before,
            },
            None => before,
        }
    }
}

/// The input cells the tree reads for the index value `x`, to be highlighted.
pub fn reads_at(
    nodes: &Vec<VizNode>,
    map: &MapInfo,
    x: u64,
    input: &[u64],
    graph: &ValidatedGraph,
) -> (r: Vec<usize>)
    ensures
        r@ == reads_of(nodes@, map_env(*map, x, input@), *graph),
{
    let mut out: Vec<usize> = Vec::new();
    let mut i: usize = 0;
    while i < nodes.len()
        invariant
            i <= nodes@.len(),
            out@ == reads_of(nodes@.take(i as int), map_env(*map, x, input@), *graph),
        decreases nodes.len() - i,
    {
        proof {
            assert(nodes@.take(i + 1).drop_last() =~= nodes@.take(i as int));
            assert(nodes@.take(i + 1).last() == nodes@[i as int]);
        }
        if let Some(ix) = &nodes[i].read_index {
            if let Some(v) = eval_scalar_with(ix, map.var.as_str(), x, map.array_param.as_str(), input, graph) {
                out.push(v as usize);
            }
        }
        i += 1;
    }
    proof {
        assert(nodes@.take(nodes@.len() as int) =~= nodes@);
    }
    out
}

/// The input cells read for each index value of the map's range, in order.
pub fn map_reads(nodes: &Vec<VizNode>, map: &MapInfo, input: &[u64], graph: &ValidatedGraph) -> (r: Vec<Vec<usize>>)
    ensures
        r@.len() == span_len(map.range),
        forall|xi: int|
            0 <= xi < r@.len() ==> (#[trigger] r@[xi])@ == reads_of(
                nodes@,
                map_env(*map, (map.range.0 + xi) as u64, input@),
                *graph,
            ),
{
    let (start, end) = map.range;
    let mut out: Vec<Vec<usize>> = Vec::new();
    let mut x = start;
    while x < end
        invariant
            map.range == (start, end),
            start <= x,
            x <= end || start >= end,
            start >= end ==> x == start,
            out@.len() == x - start,
            forall|xi: int|
                0 <= xi < out@.len() ==> (#[trigger] out@[xi])@ == reads_of(
                    nodes@,
                    map_env(*map, (start + xi) as u64, input@),
                    *graph,
                ),
        decreases end - x,
    {
        let row = reads_at(nodes, map, x as u64, input, graph);
        out.push(row);
        x += 1;
    }
    out
}


/// Node `i` of `s`, a list of tree nodes whose first node has index `start`, stacks on its children: it has at most two,
/// each earlier in the list and in a row above it, and it sits exactly one row below the deeper of them (a leaf sits
/// in row 0).
pub open spec fn node_stacks(s: Seq<VizNodeV>, start: int, i: int) -> bool {
    let ch = s[i].children;
    &&& ch.len() <= 2
    &&& forall|k: int|
        0 <= k < ch.len() ==> start <= #[trigger] ch[k] < start + i && s[ch[k] - start].row < s[i].row
    &&& ch.len() == 0 ==> s[i].row == 0
    &&& ch.len() >= 1 ==> s[ch[0] - start].row + 1 == s[i].row || (ch.len() == 2 && s[ch[1] - start].row + 1
        == s[i].row)
}

/// Every node of `s` stacks on its children (see [`node_stacks`]).
pub open spec fn rows_stack(s: Seq<VizNodeV>, start: int) -> bool {
    forall|i: int| 0 <= i < s.len() ==> #[trigger] node_stacks(s, start, i)
}

/// A node that stacks within a list still stacks within a longer list that begins with it.
proof fn lemma_stacks_in_prefix(l: Seq<VizNodeV>, s: Seq<VizNodeV>, start: int, i: int)
    requires
        l.len() <= s.len(),
        forall|j: int| 0 <= j < l.len() ==> #[trigger] s[j] == l[j],
        0 <= i < l.len(),
        node_stacks(l, start, i),
    ensures
        node_stacks(s, start, i),
{
    let ch = l[i].children;
    assert(s[i] == l[i]);
    assert forall|k: int| 0 <= k < ch.len() implies s[ch[k] - start] == l[ch[k] - start] by {
        assert(start <= ch[k] < start + i);
    }
}

/// A node that stacks within a list `r` still stacks within a list that holds `r` from position `off` on.
proof fn lemma_stacks_shifted(r: Seq<VizNodeV>, s: Seq<VizNodeV>, start: int, off: int, i: int)
    requires
        0 <= off,
        off + r.len() <= s.len(),
        forall|j: int| 0 <= j < r.len() ==> #[trigger] s[off + j] == r[j],
        0 <= i < r.len(),
        node_stacks(r, start + off, i),
    ensures
        node_stacks(s, start, off + i),
{
    let ch = r[i].children;
    assert(s[off + i] == r[i]);
    assert forall|k: int| 0 <= k < ch.len() implies s[ch[k] - start] == r[ch[k] - (start + off)] by {
        assert(start + off <= ch[k] < start + off + i);
        assert(s[off + (ch[k] - (start + off))] == r[ch[k] - (start + off)]);
    }
}

/// Every node of an expression tree sits one row below the deeper of its children: its row is `1 + max` of their
/// rows, below each of them; leaves sit in row 0, and children are appended before their parents. (Node indices fit in
/// a `usize`, as they do for every tree [`build_viz_tree`] builds.)
pub proof fn lemma_viz_rows_stack(e: Expr, start: nat, leaf0: nat)
    requires
        start + expr_size(e) <= usize::MAX,
    ensures
        rows_stack(viz_nodes(e, start, leaf0), start as int),
    decreases e,
{
    let s = viz_nodes(e, start, leaf0);
    lemma_viz_nodes_size(e, start, leaf0);
    match e {
        Expr::BinOp { lhs, rhs, .. } => {
            let l = viz_nodes(*lhs, start, leaf0);
            let rs = (start + l.len()) as nat;
            let r = viz_nodes(*rhs, rs, leaf0 + leaf_count(*lhs));
            lemma_viz_nodes_size(*lhs, start, leaf0);
            lemma_viz_nodes_size(*rhs, rs, leaf0 + leaf_count(*lhs));
            lemma_viz_rows_stack(*lhs, start, leaf0);
            lemma_viz_rows_stack(*rhs, rs, leaf0 + leaf_count(*lhs));
            let n = l.len() + r.len();
            assert(s.len() == n + 1);
            assert forall|j: int| 0 <= j < l.len() implies #[trigger] s[j] == l[j] by {}
            assert forall|j: int| 0 <= j < r.len() implies #[trigger] s[l.len() + j] == r[j] by {}
            assert forall|i: int| 0 <= i < s.len() implies #[trigger] node_stacks(s, start as int, i) by {
                if i < l.len() {
                    assert(node_stacks(l, start as int, i));
                    lemma_stacks_in_prefix(l, s, start as int, i);
                } else if i < n {
                    let j = i - l.len();
                    assert(node_stacks(r, rs as int, j));
                    lemma_stacks_shifted(r, s, start as int, l.len() as int, j);
                } else {
                    assert(s[i].children =~= seq![(start + l.len() - 1) as usize, (start + n - 1) as usize]);
                    assert(s[l.len() - 1] == l.last());
                    assert(s[l.len() + (r.len() - 1)] == r.last());
                }
            }
        },
        Expr::Not(inner) => {
            let c = viz_nodes(*inner, start, leaf0);
            lemma_viz_rows_stack(*inner, start, leaf0);
            lemma_viz_nodes_size(*inner, start, leaf0);
            let n = c.len();
            assert forall|j: int| 0 <= j < n implies #[trigger] s[j] == c[j] by {}
            assert forall|i: int| 0 <= i < s.len() implies #[trigger] node_stacks(s, start as int, i) by {
                if i < n {
                    assert(node_stacks(c, start as int, i));
                    lemma_stacks_in_prefix(c, s, start as int, i);
                } else {
                    assert(s[i].children =~= seq![(start + n - 1) as usize]);
                    assert(s[n - 1] == c.last());
                }
            }
        },
        _ => {
            assert(node_stacks(s, start as int, 0));
        },
    }
}


/// The leaves of an expression tree take the columns `leaf0, leaf0 + 1, …` from left to right: a node is a leaf
/// exactly when it has no children, later leaves take greater columns, and every column lies below
/// `leaf0 + leaf_count(e)`.
pub proof fn lemma_viz_leaf_columns(e: Expr, start: nat, leaf0: nat)
    requires
        leaf0 + expr_size(e) <= usize::MAX,
    ensures
        forall|i: int|
            0 <= i < viz_nodes(e, start, leaf0).len() ==> ((#[trigger] viz_nodes(e, start, leaf0)[i]).leaf is Some
                <==> viz_nodes(e, start, leaf0)[i].children.len() == 0),
        forall|i: int|
            0 <= i < viz_nodes(e, start, leaf0).len() && (#[trigger] viz_nodes(e, start, leaf0)[i]).leaf is Some ==> leaf0
                <= viz_nodes(e, start, leaf0)[i].leaf->0 < leaf0 + leaf_count(e),
        forall|i: int, j: int|
            0 <= i < j < viz_nodes(e, start, leaf0).len() && (#[trigger] viz_nodes(e, start, leaf0)[i]).leaf is Some
                && (#[trigger] viz_nodes(e, start, leaf0)[j]).leaf is Some ==> viz_nodes(e, start, leaf0)[i].leaf->0
                < viz_nodes(e, start, leaf0)[j].leaf->0,
    decreases e,
{
    let s = viz_nodes(e, start, leaf0);
    lemma_viz_nodes_size(e, start, leaf0);
    match e {
        Expr::BinOp { lhs, rhs, .. } => {
            let l = viz_nodes(*lhs, start, leaf0);
            let rs = (start + l.len()) as nat;
            let r0 = leaf0 + leaf_count(*lhs);
            let r = viz_nodes(*rhs, rs, r0);
            lemma_viz_nodes_size(*lhs, start, leaf0);
            lemma_viz_nodes_size(*rhs, rs, r0);
            lemma_viz_leaf_columns(*lhs, start, leaf0);
            lemma_viz_leaf_columns(*rhs, rs, r0);
            let n = l.len() + r.len();
            assert forall|i: int| 0 <= i < l.len() implies #[trigger] s[i] == l[i] by {}
            assert forall|i: int| l.len() <= i < n implies #[trigger] s[i] == r[i - l.len()] by {}
            assert(s[n as int].leaf is None && s[n as int].children.len() == 2);
            assert forall|i: int, j: int|
                0 <= i < j < s.len() && (#[trigger] s[i]).leaf is Some && (#[trigger] s[j]).leaf is Some implies s[i].leaf->0
                < s[j].leaf->0 by {
                if j < l.len() {
                    assert(l[i].leaf is Some && l[j].leaf is Some);
                } else if i >= l.len() {
                    assert(r[i - l.len()].leaf is Some && r[j - l.len()].leaf is Some);
                } else {
                    assert(l[i].leaf is Some);
                    assert(r[j - l.len()].leaf is Some);
                }
            }
            assert forall|i: int| 0 <= i < s.len() && (#[trigger] s[i]).leaf is Some implies leaf0 <= s[i].leaf->0 < leaf0
                + leaf_count(e) by {
                if i < l.len() {
                    assert(l[i].leaf is Some);
                } else {
                    assert(r[i - l.len()].leaf is Some);
                }
            }
            assert forall|i: int| 0 <= i < s.len() implies ((#[trigger] s[i]).leaf is Some <==> s[i].children.len() == 0) by {
                if i < l.len() {
                    assert(s[i] == l[i]);
                } else if i < n {
                    assert(s[i] == r[i - l.len()]);
                }
            }
        },
        Expr::Not(inner) => {
            let c = viz_nodes(*inner, start, leaf0);
            lemma_viz_nodes_size(*inner, start, leaf0);
            lemma_viz_leaf_columns(*inner, start, leaf0);
            let n = c.len();
            assert forall|i: int| 0 <= i < n implies #[trigger] s[i] == c[i] by {}
            assert(s[n as int].leaf is None && s[n as int].children.len() == 1);
            assert forall|i: int, j: int|
                0 <= i < j < s.len() && (#[trigger] s[i]).leaf is Some && (#[trigger] s[j]).leaf is Some implies s[i].leaf->0
                < s[j].leaf->0 by {
                assert(c[i].leaf is Some && c[j].leaf is Some);
            }
            assert forall|i: int| 0 <= i < s.len() && (#[trigger] s[i]).leaf is Some implies leaf0 <= s[i].leaf->0 < leaf0
                + leaf_count(e) by {
                assert(c[i].leaf is Some);
            }
            assert forall|i: int| 0 <= i < s.len() implies ((#[trigger] s[i]).leaf is Some <==> s[i].children.len() == 0) by {
                if i < n {
                    assert(s[i] == c[i]);
                }
            }
        },
        _ => {},
    }
}

} // verus!
