//! Resolving the colour read back from the picking image to a node of the
//! forest, and what a click does to the selection.

use crate::controls::{policy_of, ControlMode, SelectionPolicy};
use crate::node_id::{decode, node_id_of, NodeId, Rgb};
use crate::operations::{forest_has_id, Node, OperationsForest};
use vstd::prelude::*;

verus! {

/// A colour read back from the picking image under the cursor.
#[derive(Clone, Copy, Debug, PartialEq, Eq, Structural)]
pub struct PixelColorUnderCursor(pub Rgb);

impl PixelColorUnderCursor {
    pub fn new(color: Rgb) -> (r: PixelColorUnderCursor)
        ensures
            r.0 == color,
    {
        PixelColorUnderCursor(color)
    }

    pub fn color(&self) -> (r: Rgb)
        ensures
            r == self.0,
    {
        self.0
    }
}

/// What a click on the scene does to the selection.
#[derive(Clone, Copy, Debug, PartialEq, Eq, Structural)]
pub enum SelectionAction {
    /// The selection stays as it is.
    Keep,
    /// The selection is cleared, then the node under the cursor is selected.
    Replace,
    /// The node under the cursor is added to the selection.
    Add,
}

/// The node that the latest of `samples` shows, where it is a node of the
/// forest; nothing where there is no sample or its colour decodes to an
/// identifier that no node has.
pub open spec fn picked(samples: Seq<PixelColorUnderCursor>, roots: Seq<Node>) -> Option<NodeId> {
    if samples.len() == 0 {
        None
    } else {
        let id = node_id_of(decode(samples.last().0));
        if forest_has_id(roots, id) {
            Some(id)
        } else {
            None
        }
    }
}

/// Clicks select nothing where the mode selects nothing; in a single-select
/// mode a click replaces the selection; in a multi-select mode for `n`
/// primitives it adds to the selection while fewer than `n` are selected.
pub open spec fn action_for(mode: ControlMode, selected_count: usize) -> SelectionAction {
    match policy_of(mode) {
        SelectionPolicy::Disabled => SelectionAction::Keep,
        SelectionPolicy::Single => SelectionAction::Replace,
        SelectionPolicy::Multi(n) => if selected_count >= n {
            SelectionAction::Keep
        } else {
            SelectionAction::Add
        },
    }
}

/// The node under the cursor, by the latest sample read back; earlier
/// samples, however late they arrived, are superseded by it.
pub fn select_under_cursor(samples: &Vec<PixelColorUnderCursor>, forest: &OperationsForest) -> (r:
    Option<NodeId>)
    ensures
        r == picked(samples@, forest.roots@),
{
    if samples.len() == 0 {
        return None;
    }
    let latest = samples[samples.len() - 1];
    let id = NodeId::from_color(latest.color());
    if forest.has_id(id) {
        Some(id)
    } else {
        None
    }
}

/// What a click does to the selection, in `mode` with `selected_count`
/// primitives selected.
pub fn selection_action(mode: ControlMode, selected_count: usize) -> (r: SelectionAction)
    ensures
        r == action_for(mode, selected_count),
{
    match mode.selection_policy() {
        SelectionPolicy::Disabled => SelectionAction::Keep,
        SelectionPolicy::Single => SelectionAction::Replace,
        SelectionPolicy::Multi(size) => {
            if selected_count >= size {
                SelectionAction::Keep
            } else {
                SelectionAction::Add
            }
        },
    }
}

} // verus!
