use csg_forest::node_id::{NodeId, Rgb};
use csg_forest::operations::{CombineError, CsgOperation, Node, Operation, OperationsForest};

fn id(v: u32) -> NodeId {
    NodeId::new(v)
}

fn leaf(v: u32) -> Node {
    Node::Geometry(id(v))
}

const RED: Rgb = Rgb { r: 255, g: 0, b: 0 };
const BLUE: Rgb = Rgb { r: 0, g: 0, b: 255 };

fn forest_of(ids: &[u32]) -> OperationsForest {
    let mut forest = OperationsForest::new();
    for v in ids {
        forest.push_leaf(id(*v));
    }
    forest
}

#[test]
fn placed_primitives_each_form_a_tree() {
    let forest = forest_of(&[1, 2, 3]);
    assert_eq!(forest.roots.len(), 3);
    for (i, v) in [1u32, 2, 3].iter().enumerate() {
        assert_eq!(forest.roots[i], leaf(*v));
        for other in [1u32, 2, 3] {
            assert_eq!(forest.roots[i].contains(id(other)), other == *v);
        }
    }
}

#[test]
fn combine_joins_two_trees_and_keeps_the_third() {
    let mut forest = forest_of(&[1, 2, 3]);
    let r = forest.combine(CsgOperation::Union, id(1), id(2), id(100), RED);
    assert_eq!(r, Ok(id(100)));
    assert_eq!(forest.roots.len(), 2);
    assert_eq!(forest.roots[0], leaf(3));
    let top = &forest.roots[1];
    assert_eq!(top.id(), id(100));
    assert!(top.contains(id(1)));
    assert!(top.contains(id(2)));
    assert!(!top.contains(id(3)));
}

#[test]
fn combine_twice_is_refused() {
    let mut forest = forest_of(&[1, 2, 3]);
    assert_eq!(forest.combine(CsgOperation::Union, id(1), id(2), id(100), RED), Ok(id(100)));
    let again = forest.combine(CsgOperation::Union, id(1), id(2), id(101), RED);
    assert_eq!(again, Err(CombineError::AlreadyCombined));
    let reversed = forest.combine(CsgOperation::Subtract, id(2), id(1), id(101), BLUE);
    assert_eq!(reversed, Err(CombineError::AlreadyCombined));
    assert_eq!(forest.roots.len(), 2);
    assert_eq!(forest.roots[0], leaf(3));
    assert_eq!(forest.roots[1].id(), id(100));
}

#[test]
fn combine_inside_one_composite_is_refused() {
    let mut forest = forest_of(&[1, 2, 3]);
    forest.combine(CsgOperation::Union, id(1), id(2), id(10), RED).unwrap();
    forest.combine(CsgOperation::Union, id(10), id(3), id(11), RED).unwrap_err();
    forest.combine(CsgOperation::Union, id(3), id(1), id(11), RED).unwrap();
    assert_eq!(forest.roots.len(), 1);
    let r = forest.combine(CsgOperation::Subtract, id(2), id(3), id(12), RED);
    assert_eq!(r, Err(CombineError::AlreadyCombined));
    assert_eq!(forest.roots.len(), 1);
    assert_eq!(forest.roots[0].id(), id(11));
}

#[test]
fn combine_with_a_missing_leaf_is_not_found() {
    let mut forest = forest_of(&[1, 2]);
    let r = forest.combine(CsgOperation::Union, id(1), id(9), id(100), RED);
    assert_eq!(r, Err(CombineError::NotFound));
    let r = forest.combine(CsgOperation::Union, id(9), id(2), id(100), RED);
    assert_eq!(r, Err(CombineError::NotFound));
    assert_eq!(forest.roots.len(), 2);
    assert_eq!(forest.roots[0], leaf(1));
    assert_eq!(forest.roots[1], leaf(2));
}

#[test]
fn operation_ids_are_not_leaves() {
    let mut forest = forest_of(&[1, 2, 3]);
    forest.combine(CsgOperation::Union, id(1), id(2), id(10), RED).unwrap();
    let r = forest.combine(CsgOperation::Union, id(10), id(3), id(11), RED);
    assert_eq!(r, Err(CombineError::NotFound));
}

#[test]
fn new_operation_takes_the_first_leaf_color() {
    let mut forest = forest_of(&[1, 2]);
    forest.combine(CsgOperation::Subtract, id(1), id(2), id(5), RED).unwrap();
    match &forest.roots[0] {
        Node::Subtract(op) => {
            assert_eq!(op.color, RED);
            assert_eq!(op.blend, 0);
            assert_eq!(*op.left, leaf(1));
            assert_eq!(*op.right, leaf(2));
        }
        other => panic!("expected a subtraction, found {:?}", other),
    }
}

#[test]
fn new_operation_takes_the_first_operation_color() {
    let mut forest = forest_of(&[1, 2, 3]);
    forest.combine(CsgOperation::Union, id(1), id(2), id(10), BLUE).unwrap();
    forest.combine(CsgOperation::Union, id(3), id(1), id(11), RED).unwrap();
    match &forest.roots[0] {
        Node::Union(op) => {
            assert_eq!(op.color, RED);
            assert_eq!(*op.left, leaf(3));
            assert_eq!(op.right.id(), id(10));
        }
        other => panic!("expected a union, found {:?}", other),
    }
    let mut forest = forest_of(&[1, 2, 3]);
    forest.combine(CsgOperation::Union, id(1), id(2), id(10), BLUE).unwrap();
    forest.combine(CsgOperation::Union, id(2), id(3), id(11), RED).unwrap();
    match &forest.roots[0] {
        Node::Union(op) => assert_eq!(op.color, BLUE),
        other => panic!("expected a union, found {:?}", other),
    }
}

#[test]
fn end_to_end_union_then_subtract() {
    let mut forest = forest_of(&[0, 1, 2]);
    assert_eq!(forest.roots, vec![leaf(0), leaf(1), leaf(2)]);
    forest.combine(CsgOperation::Union, id(0), id(1), id(3), RED).unwrap();
    let union = Node::Union(Operation {
        id: id(3),
        left: Box::new(leaf(0)),
        right: Box::new(leaf(1)),
        blend: 0,
        color: RED,
    });
    assert_eq!(forest.roots, vec![leaf(2), union]);
    let r = forest.combine(CsgOperation::Subtract, id(0), id(2), id(4), BLUE);
    assert_eq!(r, Ok(id(4)));
    assert_eq!(forest.roots.len(), 1);
    match &forest.roots[0] {
        Node::Subtract(op) => {
            assert_eq!(op.id, id(4));
            assert_eq!(op.right.id(), id(2));
            assert_eq!(op.left.id(), id(3));
            assert_eq!(op.color, RED);
        }
        other => panic!("expected a subtraction, found {:?}", other),
    }
}

#[test]
fn find_and_take_roots() {
    let mut forest = forest_of(&[1, 2, 3]);
    forest.combine(CsgOperation::Union, id(1), id(3), id(7), RED).unwrap();
    assert_eq!(forest.find_root_index(id(3)), Some(1));
    assert_eq!(forest.find_root_index(id(2)), Some(0));
    assert_eq!(forest.find_root_index(id(7)), None);
    assert_eq!(forest.find_root(id(1)).map(|n| n.id()), Some(id(7)));
    assert!(forest.find_root(id(9)).is_none());
    assert!(forest.has_id(id(7)));
    assert!(forest.has_id(id(2)));
    assert!(!forest.has_id(id(9)));
    assert!(forest.take_root(id(1)).is_none());
    let taken = forest.take_root(id(7)).unwrap();
    assert!(taken.contains(id(1)));
    assert_eq!(forest.roots, vec![leaf(2)]);
    forest.insert_root(taken);
    assert_eq!(forest.roots.len(), 2);
    assert_eq!(forest.roots[1].id(), id(7));
}

#[test]
fn edit_shading_through_the_leaf() {
    let mut forest = forest_of(&[1, 2, 3]);
    forest.combine(CsgOperation::Union, id(1), id(2), id(7), RED).unwrap();
    match forest.find_root_mut(id(2)) {
        Some(Node::Union(op)) => {
            op.blend = 128;
            op.color = BLUE;
        }
        _ => panic!("expected the union"),
    }
    assert!(forest.find_root_mut(id(9)).is_none());
    match &forest.roots[1] {
        Node::Union(op) => {
            assert_eq!(op.blend, 128);
            assert_eq!(op.color, BLUE);
        }
        other => panic!("expected a union, found {:?}", other),
    }
    assert_eq!(forest.roots[0], leaf(3));
}

#[test]
fn deleting_a_primitive_removes_its_whole_tree() {
    let mut forest = forest_of(&[1, 2, 3]);
    forest.combine(CsgOperation::Union, id(1), id(2), id(7), RED).unwrap();
    let removed = forest.remove_tree_of(id(2)).unwrap();
    assert_eq!(removed.id(), id(7));
    assert!(removed.contains(id(1)));
    assert_eq!(forest.roots, vec![leaf(3)]);
    assert!(forest.remove_tree_of(id(1)).is_none());
    assert_eq!(forest.roots, vec![leaf(3)]);
    assert_eq!(forest.remove_tree_of(id(3)), Some(leaf(3)));
    assert!(forest.roots.is_empty());
}
