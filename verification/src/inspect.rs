//! Questions the array-grid visualisation asks of a node and the function it feeds: which function takes the node,
//! what shape its grid has, which range the step buttons walk, and which reduction (if any) the function performs.

use vstd::prelude::*;

use crate::ast::{BinOp, Expr, ExprV, FnDef, NodeDecl, PropValue, Type, Wire, WireEndpoint, expr_size};
use crate::graph::{
    ValidatedGraph, data_lookup, deref_opt, find_data, find_fn, find_node, find_prop, first_some, fn_lookup,
    lemma_first_some_skip, node_lookup, prop_expr, prop_ident, prop_str,
};
use crate::search::{lemma_children_size, lemma_search_pair, lemma_search_seq_skip, search, search_seq};
use crate::text::same_text;

verus! {

/// The model of an optional string.
pub open spec fn str_opt_view(r: Option<String>) -> Option<Seq<char>> {
    match r {
        Some(s) => Some(s@),
        None => None,
    }
}

/// The `compute` expression of a node, if it has one.
pub fn compute_expr(decl: &NodeDecl) -> (r: Option<&Expr>)
    ensures
        deref_opt(r) == prop_expr(*decl, "compute"@),
{
    match find_prop(decl, "compute") {
        Some(PropValue::Expr(e)) => Some(e),
        _ => None,
    }
}

/// Returns a node's string-valued property (e.g. `symbol: "ThetaC"`), if present.
pub fn string_prop(decl: &NodeDecl, key: &str) -> (r: Option<String>)
    ensures
        str_opt_view(r) == prop_str(*decl, key@),
{
    match find_prop(decl, key) {
        Some(PropValue::Str(s)) => Some(s.clone()),
        _ => None,
    }
}

/// Returns a node's identifier-valued property (e.g. `format: hex64`), if present.
pub fn ident_prop(decl: &NodeDecl, key: &str) -> (r: Option<String>)
    ensures
        str_opt_view(r) == prop_ident(*decl, key@),
{
    match find_prop(decl, key) {
        Some(PropValue::Expr(Expr::Ident(s))) => Some(s.clone()),
        _ => None,
    }
}

// - - - - - - - - - - - - - - - - - - - - - - - - - - - - - - - - - - - - - - - - - - - - - - - - - - - - - - - - -
// Which function a node feeds
// - - - - - - - - - - - - - - - - - - - - - - - - - - - - - - - - - - - - - - - - - - - - - - - - - - - - - - - - - -

/// Whether some argument in `args` is the bare identifier `name`.
pub open spec fn has_ident_arg(args: Seq<Expr>, name: Seq<char>) -> bool {
    exists|i: int| 0 <= i < args.len() && (#[trigger] args[i] matches Expr::Ident(s) && s@ == name)
}

/// A call that passes `name` directly as an argument settles the search: it yields the called function.
pub open spec fn call_hit(name: Seq<char>, g: ValidatedGraph) -> spec_fn(Expr) -> Option<Option<FnDef>> {
    |e: Expr|
        match e {
            Expr::Call { name: callee, args } => if has_ident_arg(args@, name) {
                Some(fn_lookup(g, callee@))
            } else {
                None
            },
            _ => None,
        }
}

/// If `expr` applies a function to `name` (as a direct argument), returns that function; recurses into sub-expressions.
pub fn compute_function<'a>(expr: &Expr, name: &str, graph: &'a ValidatedGraph) -> (r: Option<&'a FnDef>)
    ensures
        deref_opt(r) == search(*expr, call_hit(name@, *graph)),
    decreases expr_size(*expr),
{
    let ghost hit = call_hit(name@, *graph);
    proof {
        lemma_children_size(*expr);
    }
    match expr {
        Expr::Call { name: callee, args } => {
            let mut i: usize = 0;
            while i < args.len()
                invariant
                    i <= args@.len(),
                    hit == call_hit(name@, *graph),
                    *expr == (Expr::Call { name: *callee, args: *args }),
                    forall|j: int| 0 <= j < i ==> !(#[trigger] args@[j] matches Expr::Ident(s) && s@ == name@),
                decreases args.len() - i,
            {
                if let Expr::Ident(s) = &args[i] {
                    if same_text(s.as_str(), name) {
                        proof {
                            assert(args@[i as int] matches Expr::Ident(t) && t@ == name@);
                            assert(has_ident_arg(args@, name@));
                        }
                        return find_fn(graph, callee.as_str());
                    }
                }
                i += 1;
            }
            let mut k: usize = 0;
            proof {
                lemma_search_seq_skip(args@, hit, 0);
            }
            while k < args.len()
                invariant
                    k <= args@.len(),
                    hit == call_hit(name@, *graph),
                    *expr == (Expr::Call { name: *callee, args: *args }),
                    !has_ident_arg(args@, name@),
                    search(*expr, hit) == search_seq(args@.skip(k as int), hit),
                    forall|j: int| 0 <= j < args@.len() ==> expr_size(#[trigger] args@[j]) < expr_size(*expr),
                decreases args.len() - k,
            {
                proof {
                    lemma_search_seq_skip(args@, hit, k as int);
                }
                if let Some(f) = compute_function(&args[k], name, graph) {
                    return Some(f);
                }
                k += 1;
            }
            proof {
                lemma_search_seq_skip(args@, hit, k as int);
            }
            None
        },
        Expr::BinOp { lhs, rhs, .. } => {
            proof {
                lemma_search_pair(**lhs, **rhs, hit);
            }
            match compute_function(lhs, name, graph) {
                Some(f) => Some(f),
                None => compute_function(rhs, name, graph),
            }
        },
        Expr::Not(inner) => {
            proof {
                lemma_search_pair(**inner, **inner, hit);
            }
            compute_function(inner, name, graph)
        },
        Expr::Index { base, index } => {
            proof {
                lemma_search_pair(**base, **index, hit);
            }
            match compute_function(base, name, graph) {
                Some(f) => Some(f),
                None => compute_function(index, name, graph),
            }
        },
        Expr::Reduce { array, .. } => {
            proof {
                lemma_search_pair(**array, **array, hit);
            }
            compute_function(array, name, graph)
        },
        Expr::Comprehension { body, .. } => {
            proof {
                lemma_search_pair(**body, **body, hit);
            }
            compute_function(body, name, graph)
        },
        Expr::Array(elems) => {
            let mut k: usize = 0;
            proof {
                lemma_search_seq_skip(elems@, hit, 0);
            }
            while k < elems.len()
                invariant
                    k <= elems@.len(),
                    hit == call_hit(name@, *graph),
                    *expr == Expr::Array(*elems),
                    search(*expr, hit) == search_seq(elems@.skip(k as int), hit),
                    forall|j: int| 0 <= j < elems@.len() ==> expr_size(#[trigger] elems@[j]) < expr_size(*expr),
                decreases elems.len() - k,
            {
                proof {
                    lemma_search_seq_skip(elems@, hit, k as int);
                }
                if let Some(f) = compute_function(&elems[k], name, graph) {
                    return Some(f);
                }
                k += 1;
            }
            proof {
                lemma_search_seq_skip(elems@, hit, k as int);
            }
            None
        },
        _ => None,
    }
}

/// The function a node's `compute` expression applies to `name`, if any.
pub open spec fn computes_with(name: Seq<char>, g: ValidatedGraph) -> spec_fn(NodeDecl) -> Option<FnDef> {
    |decl: NodeDecl|
        match prop_expr(decl, "compute"@) {
            Some(e) => search(e, call_hit(name, g)),
            None => None,
        }
}

/// The function named by the `symbol` of the operation a wire carries `name` into, if any.
pub open spec fn wired_into(name: Seq<char>, g: ValidatedGraph) -> spec_fn(Wire) -> Option<FnDef> {
    |w: Wire|
        match (w.source, w.target) {
            (WireEndpoint::Node(src), WireEndpoint::Node(dst)) => if src@ == name {
                match node_lookup(g, dst@) {
                    Some(op) => match prop_str(op, "symbol"@) {
                        Some(symbol) => fn_lookup(g, symbol),
                        None => None,
                    },
                    None => None,
                }
            } else {
                None
            },
            _ => None,
        }
}

/// The function that `name` is an input to: first one that a node's `compute` applies to `name`, otherwise the one
/// named by the `symbol` of an operation that a wire carries `name` into.
pub open spec fn fed_fn(g: ValidatedGraph, name: Seq<char>) -> Option<FnDef> {
    match first_some(g.nodes@, computes_with(name, g)) {
        Some(f) => Some(f),
        None => first_some(g.wires@, wired_into(name, g)),
    }
}

/// The function that `name` is an input to.
///
/// Found from the data flow itself, independent of any wire: a node whose `compute` expression applies a function to
/// `name` (e.g. `compute: ThetaC(state)`). Falls back to a wire `name -> op` whose `op` carries a `symbol` naming the
/// function. Because the `compute` link is checked first, the visualisation does not depend on the wire being present.
pub fn fed_function<'a>(name: &str, graph: &'a ValidatedGraph) -> (r: Option<&'a FnDef>)
    ensures
        deref_opt(r) == fed_fn(*graph, name@),
{
    // (a) A node computes a function applied to `name`.
    let ghost f = computes_with(name@, *graph);
    let mut i: usize = 0;
    proof {
        lemma_first_some_skip(graph.nodes@, f, 0);
    }
    while i < graph.nodes.len()
        invariant
            i <= graph.nodes@.len(),
            f == computes_with(name@, *graph),
            first_some(graph.nodes@, f) == first_some(graph.nodes@.skip(i as int), f),
        decreases graph.nodes.len() - i,
    {
        proof {
            lemma_first_some_skip(graph.nodes@, f, i as int);
        }
        let found = match find_prop(&graph.nodes[i], "compute") {
            Some(PropValue::Expr(e)) => compute_function(e, name, graph),
            _ => None,
        };
        if found.is_some() {
            return found;
        }
        i += 1;
    }
    proof {
        lemma_first_some_skip(graph.nodes@, f, i as int);
    }
    // (b) A wire carries `name` into an `operation` node whose `symbol` names the function.
    let ghost w = wired_into(name@, *graph);
    let mut k: usize = 0;
    proof {
        lemma_first_some_skip(graph.wires@, w, 0);
    }
    while k < graph.wires.len()
        invariant
            k <= graph.wires@.len(),
            w == wired_into(name@, *graph),
            first_some(graph.nodes@, computes_with(name@, *graph)) is None,
            first_some(graph.wires@, w) == first_some(graph.wires@.skip(k as int), w),
        decreases graph.wires.len() - k,
    {
        proof {
            lemma_first_some_skip(graph.wires@, w, k as int);
        }
        let wire = &graph.wires[k];
        if let (WireEndpoint::Node(src), WireEndpoint::Node(dst)) = (&wire.source, &wire.target) {
            if same_text(src.as_str(), name) {
                if let Some(op) = find_node(graph, dst.as_str()) {
                    if let Some(symbol) = string_prop(op, "symbol") {
                        if let Some(def) = find_fn(graph, symbol.as_str()) {
                            return Some(def);
                        }
                    }
                }
            }
        }
        k += 1;
    }
    proof {
        lemma_first_some_skip(graph.wires@, w, k as int);
    }
    None
}

// - - - - - - - - - - - - - - - - - - - - - - - - - - - - - - - - - - - - - - - - - - - - - - - - - - - - - - - - - - -
// Grid shape and step range
// - - - - - - - - - - - - - - - - - - - - - - - - - - - - - - - - - - - - - - - - - - - - - - - - - - - - - - - - - - -

/// The `(rows, cols)` of a function whose first parameter is a 2-D array type, e.g. `[[u64; 5]; 5]`.
pub open spec fn matrix_param_shape(f: FnDef) -> Option<(usize, usize)> {
    if f.params@.len() == 0 {
        None
    } else {
        match f.params@[0].ty {
            Type::Array { element, len: rows } => match *element {
                Type::Array { len: cols, .. } => Some((rows, cols)),
                _ => None,
            },
            _ => None,
        }
    }
}

/// Infers a 2D `(rows, cols)` shape for `name` from the function it feeds.
///
/// A node is drawn as a grid when the function it feeds (see [`fed_function`]) takes a 2D array as its first
/// parameter, e.g. `[[u64; 5]; 5]`. Returns `None` for ordinary scalar nodes.
pub fn inferred_grid_shape(name: &str, graph: &ValidatedGraph) -> (r: Option<(usize, usize)>)
    ensures
        r == (match fed_fn(*graph, name@) {
            Some(f) => matrix_param_shape(f),
            None => None,
        }),
{
    let f = match fed_function(name, graph) {
        Some(f) => f,
        None => return None,
    };
    if f.params.len() == 0 {
        return None;
    }
    match &f.params[0].ty {
        Type::Array { element, len: rows } => match &**element {
            Type::Array { len: cols, .. } => Some((*rows, *cols)),
            _ => None,
        },
        _ => None,
    }
}

/// A comprehension settles the range search with its `[start, end)` range.
pub open spec fn range_hit() -> spec_fn(Expr) -> Option<Option<(usize, usize)>> {
    |e: Expr|
        match e {
            Expr::Comprehension { start, end, .. } => Some(Some((start as usize, end as usize))),
            _ => None,
        }
}

/// Finds the range of the first comprehension reachable in an expression.
pub fn find_comprehension_range(expr: &Expr) -> (r: Option<(usize, usize)>)
    ensures
        r == search(*expr, range_hit()),
    decreases expr_size(*expr),
{
    let ghost hit = range_hit();
    proof {
        lemma_children_size(*expr);
    }
    match expr {
        Expr::Comprehension { start, end, .. } => Some((*start as usize, *end as usize)),
        Expr::Reduce { array, .. } => {
            proof {
                lemma_search_pair(**array, **array, hit);
            }
            find_comprehension_range(array)
        },
        Expr::Not(inner) => {
            proof {
                lemma_search_pair(**inner, **inner, hit);
            }
            find_comprehension_range(inner)
        },
        Expr::Index { base, index } => {
            proof {
                lemma_search_pair(**base, **index, hit);
            }
            match find_comprehension_range(base) {
                Some(r) => Some(r),
                None => find_comprehension_range(index),
            }
        },
        Expr::BinOp { lhs, rhs, .. } => {
            proof {
                lemma_search_pair(**lhs, **rhs, hit);
            }
            match find_comprehension_range(lhs) {
                Some(r) => Some(r),
                None => find_comprehension_range(rhs),
            }
        },
        Expr::Call { args: elems, .. } | Expr::Array(elems) => {
            let mut k: usize = 0;
            proof {
                lemma_search_seq_skip(elems@, hit, 0);
            }
            while k < elems.len()
                invariant
                    k <= elems@.len(),
                    hit == range_hit(),
                    search(*expr, hit) == search_seq(elems@.skip(k as int), hit),
                    forall|j: int| 0 <= j < elems@.len() ==> expr_size(#[trigger] elems@[j]) < expr_size(*expr),
                decreases elems.len() - k,
            {
                proof {
                    lemma_search_seq_skip(elems@, hit, k as int);
                }
                if let Some(r) = find_comprehension_range(&elems[k]) {
                    return Some(r);
                }
                k += 1;
            }
            proof {
                lemma_search_seq_skip(elems@, hit, k as int);
            }
            None
        },
        _ => None,
    }
}

/// The range of the first comprehension in the body of the function `name` feeds, or `[0, rows)`.
pub open spec fn step_span(g: ValidatedGraph, name: Seq<char>, rows: usize) -> (usize, usize) {
    match fed_fn(g, name) {
        Some(f) => match search(f.body, range_hit()) {
            Some(range) => range,
            None => (0, rows),
        },
        None => (0usize, rows),
    }
}

/// The half-open iteration range `[start, end)` the step buttons walk: the range of the (first) comprehension in the
/// fed function's body, e.g. `for x in 0..5`. Falls back to the full row span when the body has no comprehension.
pub fn step_range(name: &str, graph: &ValidatedGraph, rows: usize) -> (r: (usize, usize))
    ensures
        r == step_span(*graph, name@, rows),
{
    match fed_function(name, graph) {
        Some(f) => match find_comprehension_range(&f.body) {
            Some(range) => range,
            None => (0, rows),
        },
        None => (0, rows),
    }
}

/// The last index `[start, end)` lets the cursor reach (`start` itself for an empty range).
pub open spec fn last_step(range: (usize, usize)) -> int {
    if range.1 >= 1 && range.1 - 1 > range.0 {
        range.1 - 1
    } else {
        range.0 as int
    }
}

/// Next highlighted index, clamped to the top of `[start, end)` — no wrap-around at the last row.
pub fn step_forward(current: usize, range: (usize, usize)) -> (r: usize)
    requires
        current < usize::MAX,
    ensures
        r == if current + 1 < last_step(range) {
            current + 1
        } else {
            last_step(range)
        },
{
    let (start, end) = range;
    let below = if end >= 1 {
        end - 1
    } else {
        0
    };
    let last = if below > start {
        below
    } else {
        start
    };
    if current + 1 < last {
        current + 1
    } else {
        last
    }
}

/// Previous highlighted index, clamped to `start` — no wrap-around at the first row.
pub fn step_back(current: usize, range: (usize, usize)) -> (r: usize)
    ensures
        r == if current >= 1 && current - 1 > range.0 {
            current - 1
        } else {
            range.0 as int
        },
{
    let (start, _end) = range;
    let prev = if current >= 1 {
        current - 1
    } else {
        0
    };
    if prev > start {
        prev
    } else {
        start
    }
}

// - - - - - - - - - - - - - - - - - - - - - - - - - - - - - - - - - - - - - - - - - - - - - - - - - - - - - - - - - - -
// Declared data
// - - - - - - - - - - - - - - - - - - - - - - - - - - - - - - - - - - - - - - - - - - - - - - - - - - - - - - - - - - -

/// The numeric value of an integer or hex literal expression.
pub open spec fn literal_value(e: Expr) -> Option<u64> {
    match e {
        Expr::Integer(n) => Some(n),
        Expr::HexLit(n) => Some(n),
        _ => None,
    }
}

/// The numeric value of an integer or hex literal expression.
pub fn literal_u64(expr: &Expr) -> (r: Option<u64>)
    ensures
        r == literal_value(*expr),
{
    match expr {
        Expr::Integer(n) => Some(*n),
        Expr::HexLit(n) => Some(*n),
        _ => None,
    }
}

/// The words of a row literal `[ n0, n1, … ]` whose every cell is a number.
pub open spec fn row_literal(e: Expr) -> Option<Seq<u64>> {
    match e {
        Expr::Array(cells) => if forall|j: int| 0 <= j < cells@.len() ==> (#[trigger] literal_value(cells@[j])) is Some {
            Some(Seq::new(cells@.len(), |j: int| literal_value(cells@[j])->0))
        } else {
            None
        },
        _ => None,
    }
}

/// The rows of a matrix literal `[[…], […], …]` whose every row is a row of numbers.
pub open spec fn matrix_literal(e: Expr) -> Option<Seq<Seq<u64>>> {
    match e {
        Expr::Array(rows) => if forall|i: int| 0 <= i < rows@.len() ==> (#[trigger] row_literal(rows@[i])) is Some {
            Some(Seq::new(rows@.len(), |i: int| row_literal(rows@[i])->0))
        } else {
            None
        },
        _ => None,
    }
}

/// A node's declared 2-D data: the matrix literal its `source` names.
pub open spec fn data_matrix(decl: NodeDecl, g: ValidatedGraph) -> Option<Seq<Seq<u64>>> {
    match prop_ident(decl, "source"@) {
        Some(source) => match data_lookup(g, source) {
            Some(lit) => matrix_literal(lit),
            None => None,
        },
        None => None,
    }
}

/// The model of a matrix of words.
pub open spec fn matrix_view(m: Vec<Vec<u64>>) -> Seq<Seq<u64>> {
    m@.map_values(|row: Vec<u64>| row@)
}

/// The words of a row literal, if every cell is a number.
fn row_values(row: &Expr) -> (r: Option<Vec<u64>>)
    ensures
        r matches Some(v) ==> row_literal(*row) == Some(v@),
        r is None ==> row_literal(*row) is None,
{
    let cells = match row {
        Expr::Array(cells) => cells,
        _ => return None,
    };
    let mut out: Vec<u64> = Vec::new();
    let mut j: usize = 0;
    while j < cells.len()
        invariant
            j <= cells@.len(),
            *row == Expr::Array(*cells),
            out@.len() == j,
            forall|k: int| 0 <= k < j ==> literal_value(#[trigger] cells@[k]) == Some(out@[k]),
        decreases cells.len() - j,
    {
        match literal_u64(&cells[j]) {
            Some(v) => out.push(v),
            None => {
                proof {
                    assert(!((literal_value(cells@[j as int])) is Some));
                }
                return None;
            },
        }
        j += 1;
    }
    proof {
        assert(out@ =~= Seq::new(cells@.len(), |k: int| literal_value(cells@[k])->0));
    }
    Some(out)
}

/// Resolves a node's declared data to a 2D matrix of values: follows its `source: NAME` property to the data binding
/// and interprets the bound array-of-arrays literal. `None` if the node has no `source` or the binding is not 2D.
pub fn node_data_matrix(decl: &NodeDecl, graph: &ValidatedGraph) -> (r: Option<Vec<Vec<u64>>>)
    ensures
        r matches Some(m) ==> data_matrix(*decl, *graph) == Some(matrix_view(m)),
        r is None ==> data_matrix(*decl, *graph) is None,
{
    let source = match ident_prop(decl, "source") {
        Some(s) => s,
        None => return None,
    };
    let rows = match find_data(graph, source.as_str()) {
        Some(Expr::Array(rows)) => rows,
        _ => return None,
    };
    let mut out: Vec<Vec<u64>> = Vec::new();
    let mut i: usize = 0;
    while i < rows.len()
        invariant
            i <= rows@.len(),
            prop_ident(*decl, "source"@) == Some(source@),
            data_lookup(*graph, source@) == Some(Expr::Array(*rows)),
            out@.len() == i,
            forall|k: int| 0 <= k < i ==> row_literal(#[trigger] rows@[k]) == Some(out@[k]@),
        decreases rows.len() - i,
    {
        match row_values(&rows[i]) {
            Some(v) => out.push(v),
            None => {
                proof {
                    assert(!(row_literal(rows@[i as int]) is Some));
                }
                return None;
            },
        }
        i += 1;
    }
    proof {
        assert(matrix_view(out) =~= Seq::new(rows@.len(), |k: int| row_literal(rows@[k])->0));
    }
    Some(out)
}

// - - - - - - - - - - - - - - - - - - - - - - - - - - - - - - - - - - - - - - - - - - - - - - - - - - - - - - - - - - -
// Inner reduction (`reduce <op> over a[x]`)
// - - - - - - - - - - - - - - - - - - - - - - - - - - - - - - - - - - - - - - - - - - - - - - - - - - - - - - - - - - -

/// A `reduce` settles the search with its operator.
pub open spec fn reduce_hit() -> spec_fn(Expr) -> Option<Option<BinOp>> {
    |e: Expr|
        match e {
            Expr::Reduce { op, .. } => Some(Some(op)),
            _ => None,
        }
}

/// The operator of the first `reduce` reachable in an expression.
pub fn find_reduction_op(expr: &Expr) -> (r: Option<BinOp>)
    ensures
        r == search(*expr, reduce_hit()),
    decreases expr_size(*expr),
{
    let ghost hit = reduce_hit();
    proof {
        lemma_children_size(*expr);
    }
    match expr {
        Expr::Reduce { op, .. } => Some(*op),
        Expr::Comprehension { body, .. } => {
            proof {
                lemma_search_pair(**body, **body, hit);
            }
            find_reduction_op(body)
        },
        Expr::Not(inner) => {
            proof {
                lemma_search_pair(**inner, **inner, hit);
            }
            find_reduction_op(inner)
        },
        Expr::Index { base, index } => {
            proof {
                lemma_search_pair(**base, **index, hit);
            }
            match find_reduction_op(base) {
                Some(r) => Some(r),
                None => find_reduction_op(index),
            }
        },
        Expr::BinOp { lhs, rhs, .. } => {
            proof {
                lemma_search_pair(**lhs, **rhs, hit);
            }
            match find_reduction_op(lhs) {
                Some(r) => Some(r),
                None => find_reduction_op(rhs),
            }
        },
        Expr::Call { args: elems, .. } | Expr::Array(elems) => {
            let mut k: usize = 0;
            proof {
                lemma_search_seq_skip(elems@, hit, 0);
            }
            while k < elems.len()
                invariant
                    k <= elems@.len(),
                    hit == reduce_hit(),
                    search(*expr, hit) == search_seq(elems@.skip(k as int), hit),
                    forall|j: int| 0 <= j < elems@.len() ==> expr_size(#[trigger] elems@[j]) < expr_size(*expr),
                decreases elems.len() - k,
            {
                proof {
                    lemma_search_seq_skip(elems@, hit, k as int);
                }
                if let Some(r) = find_reduction_op(&elems[k]) {
                    return Some(r);
                }
                k += 1;
            }
            proof {
                lemma_search_seq_skip(elems@, hit, k as int);
            }
            None
        },
        _ => None,
    }
}

/// The reduction operator of the (first) `reduce` in the function `name` feeds, if any — e.g. `Xor` for `reduce xor`.
pub fn reduction_op(name: &str, graph: &ValidatedGraph) -> (r: Option<BinOp>)
    ensures
        r == (match fed_fn(*graph, name@) {
            Some(f) => search(f.body, reduce_hit()),
            None => None,
        }),
{
    match fed_function(name, graph) {
        Some(f) => find_reduction_op(&f.body),
        None => None,
    }
}

/// The operand a reduction folds over (the expression after `over`).
pub fn reduce_array(expr: &Expr) -> (r: Option<Expr>)
    ensures
        r matches Some(a) ==> expr matches Expr::Reduce { array, .. } && a@ == (*array)@,
        r is None ==> !(expr matches Expr::Reduce { .. }),
{
    match expr {
        Expr::Reduce { array, .. } => Some((**array).clone()),
        _ => None,
    }
}

/// A comprehension settles the search: with its index variable and the operand of the reduction that is its body,
/// or with nothing when its body is not a reduction.
pub open spec fn detail_hit() -> spec_fn(Expr) -> Option<Option<(Seq<char>, ExprV)>> {
    |e: Expr|
        match e {
            Expr::Comprehension { var, body, .. } => Some(
                match *body {
                    Expr::Reduce { array, .. } => Some((var@, (*array)@)),
                    _ => None,
                },
            ),
            _ => None,
        }
}

/// The model of an optional (name, expression) pair.
pub open spec fn detail_view(r: Option<(String, Expr)>) -> Option<(Seq<char>, ExprV)> {
    match r {
        Some(p) => Some((p.0@, p.1@)),
        None => None,
    }
}

/// The index variable of the first comprehension reachable in `expr`, with the operand its reduction folds over.
pub fn find_comprehension_detail(expr: &Expr) -> (r: Option<(String, Expr)>)
    ensures
        detail_view(r) == search(*expr, detail_hit()),
    decreases expr_size(*expr),
{
    let ghost hit = detail_hit();
    proof {
        lemma_children_size(*expr);
    }
    match expr {
        Expr::Comprehension { var, body, .. } => match reduce_array(body) {
            Some(arr) => Some((var.clone(), arr)),
            None => None,
        },
        Expr::Reduce { array, .. } => {
            proof {
                lemma_search_pair(**array, **array, hit);
            }
            find_comprehension_detail(array)
        },
        Expr::Not(inner) => {
            proof {
                lemma_search_pair(**inner, **inner, hit);
            }
            find_comprehension_detail(inner)
        },
        Expr::Index { base, index } => {
            proof {
                lemma_search_pair(**base, **index, hit);
            }
            match find_comprehension_detail(base) {
                Some(r) => Some(r),
                None => find_comprehension_detail(index),
            }
        },
        Expr::BinOp { lhs, rhs, .. } => {
            proof {
                lemma_search_pair(**lhs, **rhs, hit);
            }
            match find_comprehension_detail(lhs) {
                Some(r) => Some(r),
                None => find_comprehension_detail(rhs),
            }
        },
        Expr::Call { args: elems, .. } | Expr::Array(elems) => {
            let mut k: usize = 0;
            proof {
                lemma_search_seq_skip(elems@, hit, 0);
            }
            while k < elems.len()
                invariant
                    k <= elems@.len(),
                    hit == detail_hit(),
                    search(*expr, hit) == search_seq(elems@.skip(k as int), hit),
                    forall|j: int| 0 <= j < elems@.len() ==> expr_size(#[trigger] elems@[j]) < expr_size(*expr),
                decreases elems.len() - k,
            {
                proof {
                    lemma_search_seq_skip(elems@, hit, k as int);
                }
                let found = find_comprehension_detail(&elems[k]);
                if found.is_some() {
                    return found;
                }
                k += 1;
            }
            proof {
                lemma_search_seq_skip(elems@, hit, k as int);
            }
            None
        },
        _ => None,
    }
}

/// Source for the working-row label: the index variable of the (first) comprehension and the expression that its
/// reduction folds over (the operand after `over`), e.g. `("x", a[x])` for `[ for x in 0..5 => reduce xor over a[x] ]`.
pub fn reduction_label_source(name: &str, graph: &ValidatedGraph) -> (r: Option<(String, Expr)>)
    ensures
        detail_view(r) == (match fed_fn(*graph, name@) {
            Some(f) => search(f.body, detail_hit()),
            None => None,
        }),
{
    match fed_function(name, graph) {
        Some(f) => find_comprehension_detail(&f.body),
        None => None,
    }
}

} // verus!
