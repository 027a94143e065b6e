//! The selection rules of the metric and label lists: which list has the
//! focus, and where the cursor moves.

use vstd::prelude::*;

verus! {

/// The list that has the focus.
#[derive(Clone, Copy, Debug, PartialEq, Eq, Structural)]
pub enum ElementInFocus {
    MetricHeaders,
    LabelsView,
}

/// A move of the cursor.
#[derive(Clone, Copy, Debug, PartialEq, Eq, Structural)]
pub enum Direction {
    Up,
    Down,
}

/// The other list.
pub fn toggled_focus(focus: ElementInFocus) -> (r: ElementInFocus)
    ensures
        r == match focus {
            ElementInFocus::MetricHeaders => ElementInFocus::LabelsView,
            ElementInFocus::LabelsView => ElementInFocus::MetricHeaders,
        },
{
    match focus {
        ElementInFocus::MetricHeaders => ElementInFocus::LabelsView,
        ElementInFocus::LabelsView => ElementInFocus::MetricHeaders,
    }
}

/// Where the cursor goes in a list of `len` items: down from the last item
/// wraps to the first, up from the first wraps to the last; no cursor stays none.
pub open spec fn moved(direction: Direction, selected: Option<usize>, len: usize) -> Option<usize> {
    match selected {
        None => None,
        Some(s) => match direction {
            Direction::Down => if s >= len - 1 {
                Some(0usize)
            } else {
                Some((s + 1) as usize)
            },
            Direction::Up => if s > 0 {
                Some((s - 1) as usize)
            } else {
                Some((len - 1) as usize)
            },
        },
    }
}

/// Moves the cursor of a list of `list_len` items one step.
pub fn update_list_state_with_direction(
    direction: Direction,
    selected: Option<usize>,
    list_len: usize,
) -> (r: Option<usize>)
    requires
        selected is Some ==> list_len > 0,
    ensures
        r == moved(direction, selected, list_len),
{
    match selected {
        None => None,
        Some(s) => match direction {
            Direction::Down => if s >= list_len - 1 {
                Some(0)
            } else {
                Some(s + 1)
            },
            Direction::Up => if s > 0 {
                Some(s - 1)
            } else {
                Some(list_len - 1)
            },
        },
    }
}

} // verus!
