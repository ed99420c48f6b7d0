//! Which step visualisation a grid gets: the fold of a reduction it feeds, the element-by-element map it feeds, the
//! row-by-row nested map it is the matrix of, or none.

use vstd::prelude::*;

use crate::ast::{BinOp, Expr, ExprV};
use crate::graph::{ValidatedGraph, first_some};
use crate::inspect::{detail_hit, detail_view, fed_fn, reduce_hit, reduction_label_source, reduction_op};
use crate::map::{
    MapInfo, MapInfoV, NestedMapInfo, NestedMapInfoV, comprehension_map, map_info_view, map_of, nested_at,
    nested_info_view, nested_map,
};
use crate::search::search;

verus! {

/// The step visualisation drawn below a grid.
pub enum StepView {
    /// The inner reduction of the function the grid feeds: its operator, and the index variable with the operand the
    /// reduction folds over (for the working-row label).
    Reduction { op: BinOp, label_source: Option<(String, Expr)> },
    /// The 1-D map comprehension the grid feeds.
    ElementMap(MapInfo),
    /// The nested map whose matrix input the grid is.
    Nested(NestedMapInfo),
    /// Nothing to step through.
    Plain,
}

/// The model of a [`StepView`].
pub enum StepViewV {
    Reduction { op: BinOp, label_source: Option<(Seq<char>, ExprV)> },
    ElementMap(MapInfoV),
    Nested(NestedMapInfoV),
    Plain,
}

impl View for StepView {
    type V = StepViewV;

    open spec fn view(&self) -> StepViewV {
        match self {
            StepView::Reduction { op, label_source } => StepViewV::Reduction {
                op: *op,
                label_source: detail_view(*label_source),
            },
            StepView::ElementMap(m) => StepViewV::ElementMap(m@),
            StepView::Nested(n) => StepViewV::Nested(n@),
            StepView::Plain => StepViewV::Plain,
        }
    }
}

/// The reduction operator of the function `name` feeds, if any.
pub open spec fn reduction_of(g: ValidatedGraph, name: Seq<char>) -> Option<BinOp> {
    match fed_fn(g, name) {
        Some(f) => search(f.body, reduce_hit()),
        None => None,
    }
}

/// The map the function `name` feeds applies, if it is a 1-D map.
pub open spec fn map_fed(g: ValidatedGraph, name: Seq<char>) -> Option<MapInfoV> {
    match fed_fn(g, name) {
        Some(f) => map_of(f),
        None => None,
    }
}

/// The step visualisation of the grid `name`: a reduction first, then a 1-D map, then a nested map.
pub open spec fn view_of(g: ValidatedGraph, name: Seq<char>) -> StepViewV {
    match reduction_of(g, name) {
        Some(op) => StepViewV::Reduction {
            op,
            label_source: match fed_fn(g, name) {
                Some(f) => search(f.body, detail_hit()),
                None => None,
            },
        },
        None => match map_fed(g, name) {
            Some(m) => StepViewV::ElementMap(m),
            None => match first_some(g.nodes@, nested_at(name, g)) {
                Some(n) => StepViewV::Nested(n),
                None => StepViewV::Plain,
            },
        },
    }
}

/// When the grid `name` feeds a `reduce`, the inner fold is visualised below it; otherwise, when it feeds a map
/// comprehension, the per-element computation; otherwise, when it is the matrix input of a nested map, the row-by-row
/// fold; otherwise nothing.
pub fn step_view(name: &str, graph: &ValidatedGraph) -> (r: StepView)
    ensures
        r@ == view_of(*graph, name@),
{
    if let Some(op) = reduction_op(name, graph) {
        let label_source = reduction_label_source(name, graph);
        return StepView::Reduction { op, label_source };
    }
    if let Some(m) = comprehension_map(name, graph) {
        return StepView::ElementMap(m);
    }
    match nested_map(name, graph) {
        Some(n) => StepView::Nested(n),
        None => StepView::Plain,
    }
}

/// Whether the grid `name` has something to step through.
pub open spec fn steps(g: ValidatedGraph, name: Seq<char>) -> bool {
    !(view_of(g, name) is Plain)
}

/// Whether the step controls are needed: some grid of `grids` has something to step through. The transport bar that
/// holds them is created only then, so a diagram with nothing to step through shows no empty bar.
pub fn needs_transport(grids: &Vec<String>, graph: &ValidatedGraph) -> (r: bool)
    ensures
        r == exists|i: int| 0 <= i < grids@.len() && steps(*graph, (#[trigger] grids@[i])@),
{
    let mut i: usize = 0;
    while i < grids.len()
        invariant
            i <= grids@.len(),
            forall|k: int| 0 <= k < i ==> !steps(*graph, (#[trigger] grids@[k])@),
        decreases grids.len() - i,
    {
        let name = grids[i].as_str();
        if reduction_op(name, graph).is_some() || comprehension_map(name, graph).is_some() || nested_map(
            name,
            graph,
        ).is_some() {
            proof {
                assert(steps(*graph, grids@[i as int]@));
            }
            return true;
        }
        proof {
            assert(!steps(*graph, grids@[i as int]@));
        }
        i += 1;
    }
    false
}

} // verus!
