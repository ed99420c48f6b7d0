//! The step controls of the visualisations: a cursor walking the range `[start, end)` one row at a time, filling the
//! output of each row it arrives at and blanking the output of a row it steps back from.

use vstd::prelude::*;

use crate::inspect::{last_step, step_back, step_forward};

verus! {

/// What the step controls ask for: the initial display, or one step forward or back.
#[derive(PartialEq, Eq, Structural, Clone, Copy)]
pub enum StepAction {
    Init,
    Forward,
    Back,
}

/// What one step does: the row the cursor moves to, the row whose output is written (the row arrived at, for the
/// initial display or a step forward), and the row whose output is blanked (the row left, when stepping back moved the
/// cursor).
pub struct StepEffect {
    pub current: usize,
    pub fill: Option<usize>,
    pub clear: Option<usize>,
}

/// The row a step forward from `current` reaches.
pub open spec fn forward_of(current: usize, range: (usize, usize)) -> int {
    if current + 1 < last_step(range) {
        current + 1
    } else {
        last_step(range)
    }
}

/// The row a step back from `current` reaches.
pub open spec fn back_of(current: usize, range: (usize, usize)) -> int {
    if current >= 1 && current - 1 > range.0 {
        current - 1
    } else {
        range.0 as int
    }
}

/// The cursor after `action` from `old`.
pub open spec fn moved(action: StepAction, old: usize, range: (usize, usize)) -> int {
    match action {
        StepAction::Init => old as int,
        StepAction::Forward => forward_of(old, range),
        StepAction::Back => back_of(old, range),
    }
}

/// The effect of `action` from the cursor at `old`: the cursor moves to [`moved`]; the initial display and a step
/// forward write the output of the row arrived at; a step back that moved the cursor blanks the row it left.
pub open spec fn effect_of(action: StepAction, old: usize, range: (usize, usize)) -> StepEffect {
    let current = moved(action, old, range) as usize;
    StepEffect {
        current,
        fill: match action {
            StepAction::Back => None,
            _ => Some(current),
        },
        clear: match action {
            StepAction::Back => if current < old {
                Some(old)
            } else {
                None
            },
            _ => None,
        },
    }
}

/// The rows whose output is shown after an effect is applied to the rows `shown`: its filled row is added, its
/// cleared row removed.
pub open spec fn shown_after(shown: Set<int>, e: StepEffect) -> Set<int> {
    let filled = match e.fill {
        Some(row) => shown.insert(row as int),
        None => shown,
    };
    match e.clear {
        Some(row) => filled.remove(row as int),
        None => filled,
    }
}

/// The cursor and the rows whose output is shown after the step controls of the range `range` receive `actions` in
/// order, starting with the cursor at `range.0` and no output shown.
pub open spec fn run_steps(actions: Seq<StepAction>, range: (usize, usize)) -> (int, Set<int>)
    decreases actions.len(),
{
    if actions.len() == 0 {
        (range.0 as int, Set::empty())
    } else {
        let prev = run_steps(actions.drop_last(), range);
        let e = effect_of(actions.last(), prev.0 as usize, range);
        (e.current as int, shown_after(prev.1, e))
    }
}

/// The rows from `start` through `current`.
pub open spec fn rows_through(start: int, current: int) -> Set<int> {
    Set::new(|k: int| start <= k <= current)
}

/// Applies one action of the step controls to the cursor at `old`.
pub fn step_effect(action: StepAction, old: usize, range: (usize, usize)) -> (r: StepEffect)
    requires
        action == StepAction::Forward ==> old < usize::MAX,
    ensures
        r == effect_of(action, old, range),
{
    match action {
        StepAction::Init => StepEffect { current: old, fill: Some(old), clear: None },
        StepAction::Forward => {
            let x = step_forward(old, range);
            StepEffect { current: x, fill: Some(x), clear: None }
        },
        StepAction::Back => {
            let x = step_back(old, range);
            StepEffect { current: x, fill: None, clear: if x < old {
                Some(old)
            } else {
                None
            } }
        },
    }
}

/// The cursor never leaves the rows it may reach: from any row between `start` and the last reachable row, every action
/// lands between them again.
pub proof fn lemma_step_stays_in_range(action: StepAction, current: usize, range: (usize, usize))
    requires
        range.0 <= current <= last_step(range),
    ensures
        range.0 <= moved(action, current, range) <= last_step(range),
{
}

/// A step back undoes a step forward that moved the cursor: from a row before the last, forward then back returns to
/// it.
pub proof fn lemma_back_undoes_forward(current: usize, range: (usize, usize))
    requires
        range.0 <= current < last_step(range),
    ensures
        back_of(forward_of(current, range) as usize, range) == current,
{
}

/// A step forward undoes a step back that moved the cursor: from a row after `start`, back then forward returns to it.
pub proof fn lemma_forward_undoes_back(current: usize, range: (usize, usize))
    requires
        range.0 < current <= last_step(range),
    ensures
        forward_of(back_of(current, range) as usize, range) == current,
{
}

/// Stepping forward from the last reachable row, or back from `start`, stays put.
pub proof fn lemma_step_clamps(range: (usize, usize))
    ensures
        forward_of(last_step(range) as usize, range) == last_step(range),
        back_of(range.0, range) == range.0,
{
}


/// After the initial display and any sequence of clicks that follows it, the cursor stays within the reachable rows
/// and the output rows shown are exactly those from `start` through the cursor.
pub proof fn lemma_shown_rows_follow_cursor(actions: Seq<StepAction>, range: (usize, usize))
    requires
        actions.len() >= 1,
        actions[0] == StepAction::Init,
    ensures
        range.0 <= run_steps(actions, range).0 <= last_step(range),
        run_steps(actions, range).1 == rows_through(range.0 as int, run_steps(actions, range).0),
    decreases actions.len(),
{
    let start = range.0 as int;
    if actions.len() == 1 {
        assert(actions.drop_last().len() == 0);
        assert(run_steps(actions, range).1 =~= rows_through(start, start));
    } else {
        let prefix = actions.drop_last();
        assert(prefix[0] == actions[0]);
        lemma_shown_rows_follow_cursor(prefix, range);
        let prev = run_steps(prefix, range);
        let e = effect_of(actions.last(), prev.0 as usize, range);
        lemma_step_stays_in_range(actions.last(), prev.0 as usize, range);
        assert(shown_after(prev.1, e) =~= rows_through(start, e.current as int));
    }
}

} // verus!
