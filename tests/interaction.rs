use csg_forest::controls::{
    is_in_expected_control_mode, resolve_control_intent, ControlIntent, ControlMode, PointerInput,
    SelectionPolicy, Tool,
};
use csg_forest::global_id::GlobalId;
use csg_forest::node_id::{NodeId, Rgb};
use csg_forest::operations::{
    perform_csg_operation, place_primitive, CombineError, CsgOperation, CsgOutcome, Node, OperationsForest,
    SelectedPrimitive,
};
use csg_forest::picking::{select_under_cursor, selection_action, PixelColorUnderCursor, SelectionAction};

const RED: Rgb = Rgb { r: 255, g: 0, b: 0 };
const BLUE: Rgb = Rgb { r: 0, g: 0, b: 255 };

fn input(ctrl: bool, shift: bool, left: bool, middle: bool, right: bool) -> PointerInput {
    PointerInput { ctrl, shift, left, middle, right }
}

/// Places `n` primitives with identifiers drawn from `ids`.
fn scene(n: u32, ids: &mut GlobalId) -> OperationsForest {
    let mut forest = OperationsForest::new();
    for _ in 0..n {
        let id = ids.next().unwrap();
        forest.push_leaf(id);
    }
    forest
}

fn pick(id: u32, color: Rgb) -> SelectedPrimitive {
    SelectedPrimitive { id: NodeId::new(id), color }
}

#[test]
fn selection_policy_per_mode() {
    assert_eq!(ControlMode::Select.selection_policy(), SelectionPolicy::Single);
    assert_eq!(ControlMode::PlaceGeometry.selection_policy(), SelectionPolicy::Disabled);
    assert_eq!(ControlMode::UnionSelect.selection_policy(), SelectionPolicy::Multi(2));
    assert_eq!(ControlMode::SubtractSelect.selection_policy(), SelectionPolicy::Multi(2));
}

#[test]
fn expected_mode_per_operation() {
    assert!(is_in_expected_control_mode(CsgOperation::Union, &ControlMode::UnionSelect));
    assert!(is_in_expected_control_mode(CsgOperation::Subtract, &ControlMode::SubtractSelect));
    assert!(!is_in_expected_control_mode(CsgOperation::Union, &ControlMode::SubtractSelect));
    assert!(!is_in_expected_control_mode(CsgOperation::Subtract, &ControlMode::Select));
}

#[test]
fn control_intent_from_buttons() {
    assert_eq!(resolve_control_intent(&input(false, false, false, false, false)), ControlIntent::Idle);
    assert_eq!(resolve_control_intent(&input(false, false, true, false, false)), ControlIntent::Idle);
    assert_eq!(resolve_control_intent(&input(true, false, true, false, false)), ControlIntent::Orbitting);
    assert_eq!(resolve_control_intent(&input(false, false, false, false, true)), ControlIntent::Orbitting);
    assert_eq!(resolve_control_intent(&input(false, true, true, false, false)), ControlIntent::Panning);
    assert_eq!(resolve_control_intent(&input(false, false, false, true, false)), ControlIntent::Panning);
    assert_eq!(resolve_control_intent(&input(true, true, true, true, false)), ControlIntent::Orbitting);
}

#[test]
fn click_action_per_mode() {
    assert_eq!(selection_action(ControlMode::PlaceGeometry, 0), SelectionAction::Keep);
    assert_eq!(selection_action(ControlMode::Select, 1), SelectionAction::Replace);
    assert_eq!(selection_action(ControlMode::UnionSelect, 0), SelectionAction::Add);
    assert_eq!(selection_action(ControlMode::UnionSelect, 1), SelectionAction::Add);
    assert_eq!(selection_action(ControlMode::UnionSelect, 2), SelectionAction::Keep);
    assert_eq!(selection_action(ControlMode::SubtractSelect, 2), SelectionAction::Keep);
    assert_eq!(selection_action(ControlMode::SubtractSelect, 3), SelectionAction::Keep);
}

#[test]
fn latest_sample_resolves_to_a_node() {
    let mut ids = GlobalId::new();
    let mut forest = scene(3, &mut ids);
    let sample = |v: u32| PixelColorUnderCursor::new(NodeId::new(v).to_scrambled_color());
    assert_eq!(select_under_cursor(&vec![], &forest), None);
    assert_eq!(select_under_cursor(&vec![sample(0), sample(2)], &forest), Some(NodeId::new(2)));
    assert_eq!(select_under_cursor(&vec![sample(2), sample(0)], &forest), Some(NodeId::new(0)));
    assert_eq!(select_under_cursor(&vec![sample(1), sample(7)], &forest), None);
    let background = PixelColorUnderCursor::new(Rgb { r: 255, g: 255, b: 255 });
    assert_eq!(select_under_cursor(&vec![sample(1), background], &forest), None);
    assert_eq!(background.color(), Rgb { r: 255, g: 255, b: 255 });
    forest.combine(CsgOperation::Union, NodeId::new(0), NodeId::new(1), NodeId::new(3), RED).unwrap();
    assert_eq!(select_under_cursor(&vec![sample(3)], &forest), Some(NodeId::new(3)));
}

#[test]
fn combine_request_in_the_wrong_mode_is_ignored() {
    let mut ids = GlobalId::new();
    let mut forest = scene(2, &mut ids);
    let mut mode = ControlMode::Select;
    let selected = vec![pick(0, RED), pick(1, BLUE)];
    let r = perform_csg_operation(&mut mode, &selected, &mut forest, &mut ids, CsgOperation::Union);
    assert_eq!(r, CsgOutcome::Ignored);
    assert_eq!(mode, ControlMode::Select);
    assert_eq!(forest.roots.len(), 2);
    assert_eq!(ids.peek(), Some(NodeId::new(2)));
    let mut mode = ControlMode::SubtractSelect;
    let r = perform_csg_operation(&mut mode, &selected, &mut forest, &mut ids, CsgOperation::Union);
    assert_eq!(r, CsgOutcome::Ignored);
    assert_eq!(mode, ControlMode::SubtractSelect);
}

#[test]
fn combine_request_needs_two_selected() {
    let mut ids = GlobalId::new();
    let mut forest = scene(3, &mut ids);
    let mut mode = ControlMode::UnionSelect;
    for selected in [vec![], vec![pick(0, RED)], vec![pick(0, RED), pick(1, RED), pick(2, RED)]] {
        let r = perform_csg_operation(&mut mode, &selected, &mut forest, &mut ids, CsgOperation::Union);
        assert_eq!(r, CsgOutcome::Ignored);
        assert_eq!(mode, ControlMode::UnionSelect);
        assert_eq!(forest.roots.len(), 3);
    }
}

#[test]
fn combine_request_builds_the_operation() {
    let mut ids = GlobalId::new();
    let mut forest = scene(3, &mut ids);
    let mut mode = ControlMode::SubtractSelect;
    let selected = vec![pick(2, BLUE), pick(0, RED)];
    let r = perform_csg_operation(&mut mode, &selected, &mut forest, &mut ids, CsgOperation::Subtract);
    assert_eq!(r, CsgOutcome::Performed(NodeId::new(3)));
    assert_eq!(mode, ControlMode::Select);
    assert_eq!(ids.peek(), Some(NodeId::new(4)));
    assert_eq!(forest.roots.len(), 2);
    match &forest.roots[1] {
        Node::Subtract(op) => {
            assert_eq!(op.id, NodeId::new(3));
            assert_eq!(op.left.id(), NodeId::new(2));
            assert_eq!(op.right.id(), NodeId::new(0));
            assert_eq!(op.color, BLUE);
        }
        other => panic!("expected a subtraction, found {:?}", other),
    }
}

#[test]
fn refused_combine_returns_to_select_and_keeps_the_counter() {
    let mut ids = GlobalId::new();
    let mut forest = scene(2, &mut ids);
    let mut mode = ControlMode::UnionSelect;
    let selected = vec![pick(0, RED), pick(1, BLUE)];
    let r = perform_csg_operation(&mut mode, &selected, &mut forest, &mut ids, CsgOperation::Union);
    assert_eq!(r, CsgOutcome::Performed(NodeId::new(2)));
    let mut mode = ControlMode::UnionSelect;
    let r = perform_csg_operation(&mut mode, &selected, &mut forest, &mut ids, CsgOperation::Union);
    assert_eq!(r, CsgOutcome::Refused(CombineError::AlreadyCombined));
    assert_eq!(mode, ControlMode::Select);
    assert_eq!(ids.peek(), Some(NodeId::new(3)));
    assert_eq!(forest.roots.len(), 1);
    let mut mode = ControlMode::UnionSelect;
    let missing = vec![pick(0, RED), pick(9, BLUE)];
    let r = perform_csg_operation(&mut mode, &missing, &mut forest, &mut ids, CsgOperation::Union);
    assert_eq!(r, CsgOutcome::Refused(CombineError::NotFound));
    assert_eq!(mode, ControlMode::Select);
    assert_eq!(ids.peek(), Some(NodeId::new(3)));
}

#[test]
fn toolbar_button_toggles_the_tool() {
    assert_eq!(Tool::Select.toggled(), Tool::Box);
    assert_eq!(Tool::Box.toggled(), Tool::Select);
    assert_eq!(Tool::Select.toggled().toggled(), Tool::Select);
}

#[test]
fn placing_draws_an_id_and_returns_to_select() {
    let mut ids = GlobalId::new();
    let mut forest = OperationsForest::new();
    let mut mode = ControlMode::PlaceGeometry;
    assert_eq!(place_primitive(&mut mode, &mut forest, &mut ids), Some(NodeId::new(0)));
    assert_eq!(mode, ControlMode::Select);
    assert_eq!(forest.roots, vec![Node::Geometry(NodeId::new(0))]);
    assert_eq!(place_primitive(&mut mode, &mut forest, &mut ids), None);
    assert_eq!(forest.roots.len(), 1);
    assert_eq!(ids.peek(), Some(NodeId::new(1)));
    let mut mode = ControlMode::PlaceGeometry;
    assert_eq!(place_primitive(&mut mode, &mut forest, &mut ids), Some(NodeId::new(1)));
    assert_eq!(forest.roots[1], Node::Geometry(NodeId::new(1)));
}
