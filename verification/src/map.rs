//! Map comprehensions the visualiser draws element by element: a 1-D map fed by a vector grid, and a nested map fed by
//! a matrix grid together with a broadcast vector.

use vstd::prelude::*;

use crate::ast::{Expr, ExprV, FnDef, NodeDecl};
use crate::format::op_text;
use crate::graph::{ValidatedGraph, find_fn, first_some, fn_lookup, lemma_first_some_skip, prop_expr};
use crate::inspect::{compute_expr, fed_fn, fed_function, find_reduction_op, reduce_hit};
use crate::search::search;
use crate::text::same_text;

verus! {

// - - - - - - - - - - - - - - - - - - - - - - - - - - - - - - - - - - - - - - - - - - - - - - - - - - - - - - - - - - -
// Map bodies
// - - - - - - - - - - - - - - - - - - - - - - - - - - - - - - - - - - - - - - - - - - - - - - - - - - - - - - - - - - -

/// A body drawn as an expression tree: not itself a comprehension, and free of any `reduce`.
pub open spec fn simple_map_body(body: Expr) -> bool {
    !(body is Comprehension) && search(body, reduce_hit()) is None
}

/// A comprehension body the map visualiser can draw as an expression tree: a single (scalar) element, not a nested
/// comprehension or a reduction (those are visualised differently / not yet).
pub fn is_simple_map_body(body: &Expr) -> (r: bool)
    ensures
        r == simple_map_body(*body),
{
    !matches!(body, Expr::Comprehension { .. }) && find_reduction_op(body).is_none()
}

/// A comprehension whose innermost body, under one or more comprehension layers, is a simple map body.
pub open spec fn map_body(body: Expr) -> bool
    decreases body,
{
    match body {
        Expr::Comprehension { body: inner, .. } => simple_map_body(*inner) || map_body(*inner),
        _ => false,
    }
}

/// Whether `body` is a map comprehension over a simple (non-reduce) leaf: one comprehension layer (1-D) or several
/// nested (N-D).
pub fn is_map_body(body: &Expr) -> (r: bool)
    ensures
        r == map_body(*body),
    decreases *body,
{
    match body {
        Expr::Comprehension { body: inner, .. } => is_simple_map_body(inner) || is_map_body(inner),
        _ => false,
    }
}

/// Whether a node's `compute` calls a function whose body is a map comprehension.
pub open spec fn map_operation(decl: NodeDecl, g: ValidatedGraph) -> bool {
    match prop_expr(decl, "compute"@) {
        Some(Expr::Call { name, .. }) => match fn_lookup(g, name@) {
            Some(f) => map_body(f.body),
            None => false,
        },
        _ => false,
    }
}

/// Whether `decl` is the operation node that applies a map comprehension — 1-D (`[ for x => … ]`) or nested
/// (`[ for x => [ for y => … ] ]`). Such a node renders as a plain box: its output is shown by the map visualisation
/// attached to the *input* grid, so a separate output grid would just duplicate it.
pub fn is_map_operation(decl: &NodeDecl, graph: &ValidatedGraph) -> (r: bool)
    ensures
        r == map_operation(*decl, *graph),
{
    match compute_expr(decl) {
        Some(Expr::Call { name, .. }) => match find_fn(graph, name.as_str()) {
            Some(f) => is_map_body(&f.body),
            None => false,
        },
        _ => false,
    }
}

// - - - - - - - - - - - - - - - - - - - - - - - - - - - - - - - - - - - - - - - - - - - - - - - - - - - - - - - - - - -
// 1-D map
// - - - - - - - - - - - - - - - - - - - - - - - - - - - - - - - - - - - - - - - - - - - - - - - - - - - - - - - - - - -

/// A map comprehension a grid node feeds: `[ for <var> in start..end => <body> ]` whose body is NOT a reduction.
pub struct MapInfo {
    pub var: String,
    pub body: Expr,
    pub range: (usize, usize),
    /// Name of the array parameter the body indexes into (the fed function's first parameter).
    pub array_param: String,
}

/// The model of a [`MapInfo`].
pub struct MapInfoV {
    pub var: Seq<char>,
    pub body: ExprV,
    pub range: (usize, usize),
    pub array_param: Seq<char>,
}

impl View for MapInfo {
    type V = MapInfoV;

    open spec fn view(&self) -> MapInfoV {
        MapInfoV { var: self.var@, body: self.body@, range: self.range, array_param: self.array_param@ }
    }
}

/// The model of an optional [`MapInfo`].
pub open spec fn map_info_view(r: Option<MapInfo>) -> Option<MapInfoV> {
    match r {
        Some(m) => Some(m@),
        None => None,
    }
}

/// The map a function applies, if its body is a single comprehension over a simple body and it has a parameter.
pub open spec fn map_of(f: FnDef) -> Option<MapInfoV> {
    match f.body {
        Expr::Comprehension { var, start, end, body } => if simple_map_body(*body) && f.params@.len() > 0 {
            Some(
                MapInfoV {
                    var: var@,
                    body: (*body)@,
                    range: (start as usize, end as usize),
                    array_param: f.params@[0].name@,
                },
            )
        } else {
            None
        },
        _ => None,
    }
}

/// If `name` feeds a function that is a simple (1-D, non-reduce) map comprehension, returns its details so the renderer
/// can visualise the per-element computation. Reduce- and nested-comprehensions aren't handled here.
pub fn comprehension_map(name: &str, graph: &ValidatedGraph) -> (r: Option<MapInfo>)
    ensures
        map_info_view(r) == (match fed_fn(*graph, name@) {
            Some(f) => map_of(f),
            None => None,
        }),
{
    let func = match fed_function(name, graph) {
        Some(f) => f,
        None => return None,
    };
    match &func.body {
        Expr::Comprehension { var, start, end, body } => {
            if !is_simple_map_body(body) {
                return None;
            }
            if func.params.len() == 0 {
                return None;
            }
            Some(
                MapInfo {
                    var: var.clone(),
                    body: (**body).clone(),
                    range: (*start as usize, *end as usize),
                    array_param: func.params[0].name.clone(),
                },
            )
        },
        _ => None,
    }
}

// - - - - - - - - - - - - - - - - - - - - - - - - - - - - - - - - - - - - - - - - - - - - - - - - - - - - - - - - - - -
// Nested map
// - - - - - - - - - - - - - - - - - - - - - - - - - - - - - - - - - - - - - - - - - - - - - - - - - - - - - - - - - - -

/// A nested map a matrix grid node feeds: `fn f(a: [[..];M], d: [..]) = [ for x => [ for y => a[x][y] op d[x] ] ]`
/// — the outer loop walks rows of the matrix `a` (each paired with one broadcast value `d[x]`); the inner loop folds
/// that value into every element of the row. Detected for the *matrix* input only, so the visualiser draws it once.
pub struct NestedMapInfo {
    /// Half-open range the step buttons walk — the outer comprehension's range.
    pub outer_range: (usize, usize),
    /// The matrix and broadcast-vector parameter names (for the `a[x]` / `d[x]` labels).
    pub matrix_param: String,
    pub vec_param: String,
    /// Node supplying the broadcast vector `d`, and the operation node holding the computed output.
    pub vec_node: String,
    pub op_node: String,
    /// Glyph for the per-element operation box (the inner body's operator, e.g. `XOR`).
    pub op_label: String,
}

/// The model of a [`NestedMapInfo`].
pub struct NestedMapInfoV {
    pub outer_range: (usize, usize),
    pub matrix_param: Seq<char>,
    pub vec_param: Seq<char>,
    pub vec_node: Seq<char>,
    pub op_node: Seq<char>,
    pub op_label: Seq<char>,
}

impl View for NestedMapInfo {
    type V = NestedMapInfoV;

    open spec fn view(&self) -> NestedMapInfoV {
        NestedMapInfoV {
            outer_range: self.outer_range,
            matrix_param: self.matrix_param@,
            vec_param: self.vec_param@,
            vec_node: self.vec_node@,
            op_node: self.op_node@,
            op_label: self.op_label@,
        }
    }
}

/// The model of an optional [`NestedMapInfo`].
pub open spec fn nested_info_view(r: Option<NestedMapInfo>) -> Option<NestedMapInfoV> {
    match r {
        Some(m) => Some(m@),
        None => None,
    }
}

/// The label of the per-element operation of a nested map's leaf: its operator's name, or `f` for any other leaf.
pub open spec fn leaf_label(leaf: Expr) -> Seq<char> {
    match leaf {
        Expr::BinOp { op, .. } => op_text(op),
        _ => "f"@,
    }
}

/// The nested map of the function `f` that the operation `op` applies to the matrix node with the broadcast node
/// `vec_node`: `f`'s body is a comprehension whose body is a comprehension over a simple leaf, and `f` has at least
/// two parameters.
pub open spec fn nested_of(f: FnDef, op: NodeDecl, vec_node: Seq<char>) -> Option<NestedMapInfoV> {
    match f.body {
        Expr::Comprehension { start, end, body: inner, .. } => match *inner {
            Expr::Comprehension { body: leaf, .. } => if simple_map_body(*leaf) && f.params@.len() >= 2 {
                Some(
                    NestedMapInfoV {
                        outer_range: (start as usize, end as usize),
                        matrix_param: f.params@[0].name@,
                        vec_param: f.params@[1].name@,
                        vec_node,
                        op_node: op.name@,
                        op_label: leaf_label(*leaf),
                    },
                )
            } else {
                None
            },
            _ => None,
        },
        _ => None,
    }
}

/// The nested map the node `decl` applies to the matrix node `matrix`: its `compute` calls a function with `matrix`
/// as the first argument and a broadcast node as the second, both plain names.
pub open spec fn nested_at(matrix: Seq<char>, g: ValidatedGraph) -> spec_fn(NodeDecl) -> Option<NestedMapInfoV> {
    |decl: NodeDecl|
        match prop_expr(decl, "compute"@) {
            Some(Expr::Call { name: callee, args }) => if args@.len() >= 2 && args@[0] is Ident && args@[1] is Ident
                && (args@[0]->Ident_0)@ == matrix {
                match fn_lookup(g, callee@) {
                    Some(f) => nested_of(f, decl, (args@[1]->Ident_0)@),
                    None => None,
                }
            } else {
                None
            },
            _ => None,
        }
}

/// The nested map described by one operation node, if it applies one to `matrix_node`.
fn nested_map_at(decl: &NodeDecl, matrix_node: &str, graph: &ValidatedGraph) -> (r: Option<NestedMapInfo>)
    ensures
        nested_info_view(r) == (nested_at(matrix_node@, *graph))(*decl),
{
    let (callee, args) = match compute_expr(decl) {
        Some(Expr::Call { name, args }) => (name, args),
        _ => return None,
    };
    if args.len() < 2 {
        return None;
    }
    let first = match &args[0] {
        Expr::Ident(s) => s,
        _ => return None,
    };
    let vec_node = match &args[1] {
        Expr::Ident(s) => s,
        _ => return None,
    };
    if !same_text(first.as_str(), matrix_node) {
        return None;
    }
    let func = match find_fn(graph, callee.as_str()) {
        Some(f) => f,
        None => return None,
    };
    let (start, end, inner) = match &func.body {
        Expr::Comprehension { start, end, body, .. } => (start, end, body),
        _ => return None,
    };
    let leaf = match &**inner {
        Expr::Comprehension { body, .. } => body,
        _ => return None,
    };
    if !is_simple_map_body(leaf) || func.params.len() < 2 {
        return None;
    }
    let op_label = match &**leaf {
        Expr::BinOp { op, .. } => op.to_string(),
        _ => String::from_str("f"),
    };
    proof {
        reveal_strlit("f");
    }
    Some(
        NestedMapInfo {
            outer_range: (*start as usize, *end as usize),
            matrix_param: func.params[0].name.clone(),
            vec_param: func.params[1].name.clone(),
            vec_node: vec_node.clone(),
            op_node: decl.name.clone(),
            op_label,
        },
    )
}

/// If the matrix grid node `matrix_node` is the first argument of an operation that applies a nested map, returns its
/// details so the renderer can visualise the row-by-row fold. `None` for the broadcast-vector input or any other node.
/// Operations are considered in declaration order.
pub fn nested_map(matrix_node: &str, graph: &ValidatedGraph) -> (r: Option<NestedMapInfo>)
    ensures
        nested_info_view(r) == first_some(graph.nodes@, nested_at(matrix_node@, *graph)),
{
    let ghost f = nested_at(matrix_node@, *graph);
    let mut i: usize = 0;
    proof {
        lemma_first_some_skip(graph.nodes@, f, 0);
    }
    while i < graph.nodes.len()
        invariant
            i <= graph.nodes@.len(),
            f == nested_at(matrix_node@, *graph),
            first_some(graph.nodes@, f) == first_some(graph.nodes@.skip(i as int), f),
        decreases graph.nodes.len() - i,
    {
        proof {
            lemma_first_some_skip(graph.nodes@, f, i as int);
        }
        let found = nested_map_at(&graph.nodes[i], matrix_node, graph);
        if found.is_some() {
            return found;
        }
        i += 1;
    }
    proof {
        lemma_first_some_skip(graph.nodes@, f, i as int);
    }
    None
}

/// What a scan finds comes from one of the scanned elements.
proof fn lemma_first_some_from<T, U>(s: Seq<T>, f: spec_fn(T) -> Option<U>)
    ensures
        first_some(s, f) matches Some(u) ==> exists|k: int| 0 <= k < s.len() && f(#[trigger] s[k]) == Some(u),
    decreases s.len(),
{
    if s.len() > 0 {
        lemma_first_some_from(s.drop_first(), f);
        if f(s[0]) is None {
            match first_some(s.drop_first(), f) {
                Some(u) => {
                    let k = choose|k: int| 0 <= k < s.drop_first().len() && f(#[trigger] s.drop_first()[k]) == Some(u);
                    assert(s[k + 1] == s.drop_first()[k]);
                },
                None => {},
            }
        }
    }
}

/// A nested map is detected for the matrix input only: when one is found for `matrix`, its operation node calls the
/// mapping function with `matrix` itself as the first argument and the broadcast node as the second. The labels follow
/// the arguments: `matrix_param` names the function's parameter in the position `matrix` is passed (the first), and
/// `vec_param` the parameter in the position the broadcast node is passed (the second).
pub proof fn lemma_nested_map_matrix_only(matrix: Seq<char>, g: ValidatedGraph)
    ensures
        first_some(g.nodes@, nested_at(matrix, g)) matches Some(info) ==> exists|k: int|
            0 <= k < g.nodes@.len() && (#[trigger] g.nodes@[k]).name@ == info.op_node && (prop_expr(g.nodes@[k], "compute"@) matches Some(
                Expr::Call { name: callee, args },
            ) && args@.len() >= 2 && args@[0] is Ident && args@[1] is Ident && (args@[0]->Ident_0)@ == matrix && (
            args@[1]->Ident_0)@ == info.vec_node && (fn_lookup(g, callee@) matches Some(f) && f.params@.len() >= 2
                && info.matrix_param == f.params@[0].name@ && info.vec_param == f.params@[1].name@)),
{
    let f = nested_at(matrix, g);
    lemma_first_some_from(g.nodes@, f);
    match first_some(g.nodes@, f) {
        Some(info) => {
            let k = choose|k: int| 0 <= k < g.nodes@.len() && f(#[trigger] g.nodes@[k]) == Some(info);
            assert(g.nodes@[k].name@ == info.op_node);
        },
        None => {},
    }
}

} // verus!
