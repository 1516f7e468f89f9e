//! Interaction modes, and what the pointer buttons and modifier keys ask for.

use crate::operations::CsgOperation;
use vstd::prelude::*;

verus! {

/// What a click on the scene does.
#[derive(Clone, Copy, Debug, PartialEq, Eq, Structural)]
pub enum ControlMode {
    Select,
    PlaceGeometry,
    UnionSelect,
    SubtractSelect,
}

/// The camera motion that the held buttons ask for.
#[derive(Clone, Copy, Debug, PartialEq, Eq, Structural)]
pub enum ControlIntent {
    Panning,
    Orbitting,
    /// Neither panning nor orbiting.
    Idle,
}

/// How many primitives a mode lets the user select.
#[derive(Clone, Copy, Debug, PartialEq, Eq, Structural)]
pub enum SelectionPolicy {
    /// Clicks select nothing.
    Disabled,
    Single,
    Multi(usize),
}

/// The tool that the toolbar button switches between.
#[derive(Clone, Copy, Debug, PartialEq, Eq, Structural)]
pub enum Tool {
    Select,
    Box,
}

impl Tool {
    /// The tool after a click on the toolbar button.
    pub fn toggled(self) -> (r: Tool)
        ensures
            r == match self {
                Tool::Select => Tool::Box,
                Tool::Box => Tool::Select,
            },
    {
        match self {
            Tool::Select => Tool::Box,
            Tool::Box => Tool::Select,
        }
    }
}

/// The buttons and modifier keys held down in one frame.
#[derive(Clone, Copy, Debug, PartialEq, Eq, Structural)]
pub struct PointerInput {
    pub ctrl: bool,
    pub shift: bool,
    pub left: bool,
    pub middle: bool,
    pub right: bool,
}

/// One primitive per click in `Select`, none while placing, two in the
/// modes that pick operands of a combine.
pub open spec fn policy_of(mode: ControlMode) -> SelectionPolicy {
    match mode {
        ControlMode::Select => SelectionPolicy::Single,
        ControlMode::PlaceGeometry => SelectionPolicy::Disabled,
        ControlMode::UnionSelect => SelectionPolicy::Multi(2),
        ControlMode::SubtractSelect => SelectionPolicy::Multi(2),
    }
}

/// The mode in which operands of `kind` are picked.
pub open spec fn mode_for(kind: CsgOperation) -> ControlMode {
    match kind {
        CsgOperation::Union => ControlMode::UnionSelect,
        CsgOperation::Subtract => ControlMode::SubtractSelect,
    }
}

/// Orbiting: control with the left button, or the right button.
pub open spec fn orbits(input: PointerInput) -> bool {
    (input.ctrl && input.left) || input.right
}

/// Panning: shift with the left button, or the middle button.
pub open spec fn pans(input: PointerInput) -> bool {
    (input.shift && input.left) || input.middle
}

/// Orbiting wins over panning; with neither there is no intent.
pub open spec fn intent_of(input: PointerInput) -> ControlIntent {
    if orbits(input) {
        ControlIntent::Orbitting
    } else if pans(input) {
        ControlIntent::Panning
    } else {
        ControlIntent::Idle
    }
}

impl ControlMode {
    pub fn selection_policy(&self) -> (r: SelectionPolicy)
        ensures
            r == policy_of(*self),
    {
        match self {
            ControlMode::Select => SelectionPolicy::Single,
            ControlMode::PlaceGeometry => SelectionPolicy::Disabled,
            ControlMode::UnionSelect => SelectionPolicy::Multi(2),
            ControlMode::SubtractSelect => SelectionPolicy::Multi(2),
        }
    }
}

/// Whether `mode` is the one in which operands of `kind` are picked.
pub fn is_in_expected_control_mode(kind: CsgOperation, mode: &ControlMode) -> (r: bool)
    ensures
        r == (*mode == mode_for(kind)),
{
    let expected = match kind {
        CsgOperation::Union => ControlMode::UnionSelect,
        CsgOperation::Subtract => ControlMode::SubtractSelect,
    };
    *mode == expected
}

/// The single camera motion that the held buttons ask for this frame.
pub fn resolve_control_intent(input: &PointerInput) -> (r: ControlIntent)
    ensures
        r == intent_of(*input),
{
    if is_orbitting(input) {
        ControlIntent::Orbitting
    } else if is_panning(input) {
        ControlIntent::Panning
    } else {
        ControlIntent::Idle
    }
}

fn is_orbitting(input: &PointerInput) -> (r: bool)
    ensures
        r == orbits(*input),
{
    (input.ctrl && input.left) || input.right
}

fn is_panning(input: &PointerInput) -> (r: bool)
    ensures
        r == pans(*input),
{
    (input.shift && input.left) || input.middle
}

} // verus!
