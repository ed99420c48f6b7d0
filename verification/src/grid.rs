//! The shape of a node's value grid: how many rows and columns it has, how many hex digits each cell shows, which range
//! the step buttons walk, and which values fill it.

use vstd::prelude::*;

use crate::ast::NodeDecl;
use crate::eval::{ValueV, node_array, node_value, sem_node};
use crate::format::{format_digits, format_width, placeholder, placeholder_value};
use crate::graph::{ValidatedGraph, prop_ident};
use crate::inspect::{data_matrix, fed_fn, inferred_grid_shape, matrix_param_shape, matrix_view, node_data_matrix,
    range_hit, step_range, step_span};
use crate::search::search;
use crate::map::{is_map_operation, map_operation};

verus! {

/// How a node is drawn as a table: its dimensions, the hex-digit count of its `format`, the step range, and its values
/// when it has any.
pub struct GridShape {
    pub rows: usize,
    pub cols: usize,
    pub digits: usize,
    /// Half-open `[start, end)` range the step buttons walk, from the fed function's comprehension.
    pub step_range: (usize, usize),
    /// The node's values as rows, if it has any. When present the grid shows these values; otherwise it shows
    /// placeholders.
    pub values: Option<Vec<Vec<u64>>>,
}

/// The model of a [`GridShape`].
pub struct GridShapeV {
    pub rows: usize,
    pub cols: usize,
    pub digits: usize,
    pub step_range: (usize, usize),
    pub values: Option<Seq<Seq<u64>>>,
}

impl View for GridShape {
    type V = GridShapeV;

    open spec fn view(&self) -> GridShapeV {
        GridShapeV {
            rows: self.rows,
            cols: self.cols,
            digits: self.digits,
            step_range: self.step_range,
            values: match self.values {
                Some(m) => Some(matrix_view(m)),
                None => None,
            },
        }
    }
}

/// The model of an optional [`GridShape`].
pub open spec fn grid_view(r: Option<GridShape>) -> Option<GridShapeV> {
    match r {
        Some(g) => Some(g@),
        None => None,
    }
}

/// The values a node shows, as rows: its declared 2-D data; else its 1-D array value as a single column (one value
/// per row); else its scalar value in a single cell.
pub open spec fn grid_values(decl: NodeDecl, g: ValidatedGraph) -> Option<Seq<Seq<u64>>> {
    match data_matrix(decl, g) {
        Some(m) => Some(m),
        None => match sem_node(decl, g, 0) {
            Some(ValueV::Array(a)) => Some(Seq::new(a.len(), |i: int| seq![a[i]])),
            Some(ValueV::Scalar(v)) => Some(seq![seq![v]]),
            None => None,
        },
    }
}

/// The grid of the node `decl` named `name`: none for the operation that applies a map; otherwise shaped by its
/// values when it has at least one row, else by the matrix parameter of the function it feeds.
pub open spec fn grid_of(name: Seq<char>, decl: NodeDecl, g: ValidatedGraph) -> Option<GridShapeV> {
    if map_operation(decl, g) {
        None
    } else {
        let values = grid_values(decl, g);
        let dims = match values {
            Some(rows) => if rows.len() > 0 {
                Some((rows.len() as usize, rows[0].len() as usize))
            } else {
                match fed_fn(g, name) {
                    Some(f) => matrix_param_shape(f),
                    None => None,
                }
            },
            None => match fed_fn(g, name) {
                Some(f) => matrix_param_shape(f),
                None => None,
            },
        };
        match dims {
            Some((rows, cols)) => Some(
                GridShapeV {
                    rows,
                    cols,
                    digits: format_width(prop_ident(decl, "format"@)),
                    step_range: step_span(g, name, rows),
                    values,
                },
            ),
            None => None,
        }
    }
}

/// The values of a node as rows (see [`grid_values`]).
fn node_grid_values(decl: &NodeDecl, graph: &ValidatedGraph) -> (r: Option<Vec<Vec<u64>>>)
    ensures
        (match r {
            Some(m) => Some(matrix_view(m)),
            None => None,
        }) == grid_values(*decl, *graph),
{
    if let Some(m) = node_data_matrix(decl, graph) {
        return Some(m);
    }
    if let Some(col) = node_array(decl, graph) {
        let mut out: Vec<Vec<u64>> = Vec::new();
        let mut i: usize = 0;
        while i < col.len()
            invariant
                i <= col@.len(),
                out@.len() == i,
                forall|k: int| 0 <= k < i ==> (#[trigger] out@[k])@ == seq![col@[k]],
            decreases col.len() - i,
        {
            let mut row: Vec<u64> = Vec::new();
            row.push(col[i]);
            out.push(row);
            i += 1;
        }
        proof {
            assert(matrix_view(out) =~= Seq::new(col@.len(), |k: int| seq![col@[k]]));
        }
        return Some(out);
    }
    if let Some(v) = node_value(decl, graph) {
        let mut row: Vec<u64> = Vec::new();
        row.push(v);
        let mut out: Vec<Vec<u64>> = Vec::new();
        out.push(row);
        proof {
            assert(matrix_view(out) =~= seq![seq![v]]);
        }
        return Some(out);
    }
    None
}

/// Resolves the grid of a node, or `None` if it is not an array node.
///
/// The shape comes from the node's values when it has any — its declared 2-D data, else a 1-D array shown as a single
/// column (one value per row) so wide values stay narrow, else a scalar in a 1×1 cell — otherwise it is inferred from
/// the type of the function the node feeds. The operation node that applies a map has no grid: its output is shown
/// by the map visualisation on the input grid.
pub fn grid_shape(name: &str, decl: &NodeDecl, graph: &ValidatedGraph) -> (r: Option<GridShape>)
    ensures
        grid_view(r) == grid_of(name@, *decl, *graph),
{
    if is_map_operation(decl, graph) {
        return None;
    }
    let values = node_grid_values(decl, graph);
    let dims = match &values {
        Some(rows) => {
            if rows.len() > 0 {
                Some((rows.len(), rows[0].len()))
            } else {
                inferred_grid_shape(name, graph)
            }
        },
        None => inferred_grid_shape(name, graph),
    };
    let (rows, cols) = match dims {
        Some(d) => d,
        None => return None,
    };
    let digits = format_digits(decl);
    let range = step_range(name, graph, rows);
    Some(GridShape { rows, cols, digits, step_range: range, values })
}

/// The matrix of placeholders for a `rows` × `cols` grid: cell `(r, c)` holds placeholder `r * cols + c`.
pub open spec fn placeholder_matrix(rows: nat, cols: nat) -> Seq<Seq<u64>> {
    Seq::new(rows, |r: int| Seq::new(cols, |c: int| placeholder(r * cols + c)))
}

/// The grid's values as a full matrix: the node's values if present, otherwise the placeholder spread.
pub fn effective_matrix(shape: &GridShape) -> (r: Vec<Vec<u64>>)
    requires
        shape.values is None ==> shape.rows * shape.cols <= usize::MAX,
    ensures
        matrix_view(r) == (match shape@.values {
            Some(m) => m,
            None => placeholder_matrix(shape.rows as nat, shape.cols as nat),
        }),
{
    match &shape.values {
        Some(m) => {
            let mut out: Vec<Vec<u64>> = Vec::new();
            let mut i: usize = 0;
            while i < m.len()
                invariant
                    i <= m@.len(),
                    out@.len() == i,
                    forall|k: int| 0 <= k < i ==> (#[trigger] out@[k])@ == m@[k]@,
                decreases m.len() - i,
            {
                let mut row: Vec<u64> = Vec::new();
                let mut j: usize = 0;
                while j < m[i].len()
                    invariant
                        i < m@.len(),
                        j <= m@[i as int]@.len(),
                        row@ == m@[i as int]@.take(j as int),
                    decreases m@[i as int]@.len() - j,
                {
                    row.push(m[i][j]);
                    j += 1;
                    proof {
                        assert(row@ =~= m@[i as int]@.take(j as int));
                    }
                }
                proof {
                    assert(m@[i as int]@.take(j as int) =~= m@[i as int]@);
                }
                out.push(row);
                i += 1;
            }
            proof {
                assert(matrix_view(out) =~= matrix_view(*m));
            }
            out
        },
        None => {
            let rows = shape.rows;
            let cols = shape.cols;
            let mut out: Vec<Vec<u64>> = Vec::new();
            let mut r: usize = 0;
            while r < rows
                invariant
                    rows * cols <= usize::MAX,
                    r <= rows,
                    out@.len() == r,
                    forall|k: int| 0 <= k < r ==> (#[trigger] out@[k])@ == placeholder_matrix(rows as nat, cols as nat)[k],
                decreases rows - r,
            {
                let mut row: Vec<u64> = Vec::new();
                let mut c: usize = 0;
                while c < cols
                    invariant
                        rows * cols <= usize::MAX,
                        r < rows,
                        c <= cols,
                        row@ =~= placeholder_matrix(rows as nat, cols as nat)[r as int].take(c as int),
                    decreases cols - c,
                {
                    proof {
                        assert(r * cols + c < rows * cols && r * cols <= r * cols + c) by (nonlinear_arith)
                            requires
                                r < rows,
                                c < cols,
                        ;
                    }
                    row.push(placeholder_value(r * cols + c));
                    c += 1;
                    proof {
                        assert(row@ =~= placeholder_matrix(rows as nat, cols as nat)[r as int].take(c as int));
                    }
                }
                proof {
                    assert(row@ =~= placeholder_matrix(rows as nat, cols as nat)[r as int]);
                }
                out.push(row);
                r += 1;
            }
            proof {
                assert(matrix_view(out) =~= placeholder_matrix(rows as nat, cols as nat));
            }
            out
        },
    }
}


/// The step buttons walk the grid's own rows unless a comprehension says otherwise: when the function the node feeds
/// has no comprehension in its body (or the node feeds no function), the step range is `[0, rows)`, so every step lands
/// on a row of the grid; when it has one, the step range is that comprehension's range.
pub proof fn lemma_grid_steps_walk_rows(name: Seq<char>, decl: NodeDecl, g: ValidatedGraph)
    ensures
        grid_of(name, decl, g) matches Some(s) ==> match fed_fn(g, name) {
            Some(f) => match search(f.body, range_hit()) {
                Some(range) => s.step_range == range,
                None => s.step_range == (0usize, s.rows),
            },
            None => s.step_range == (0usize, s.rows),
        },
{
}

} // verus!
