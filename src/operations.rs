//! The forest of operation trees that the user builds by combining primitives.

use crate::controls::{is_in_expected_control_mode, mode_for, ControlMode};
use crate::global_id::GlobalId;
use crate::node_id::{lemma_node_id_of, node_id_of, NodeId, Rgb, MODULUS};
use vstd::prelude::*;

verus! {

/// How an operation combines its two operands.
#[derive(Clone, Copy, Debug, PartialEq, Eq, Structural)]
pub enum CsgOperation {
    Union,
    Subtract,
}

/// A tree of the forest: a leaf that stands for a primitive, or an operation
/// that owns its two operands.
#[derive(Debug, PartialEq)]
pub enum Node {
    Geometry(NodeId),
    Union(Operation),
    Subtract(Operation),
}

/// An inner node. `blend` (a fraction of 255) and `color` are shading
/// parameters that the forest only carries along.
#[derive(Debug, PartialEq)]
pub struct Operation {
    pub id: NodeId,
    pub left: Box<Node>,
    pub right: Box<Node>,
    pub blend: u8,
    pub color: Rgb,
}

/// Why a combine was refused.
#[derive(Clone, Copy, Debug, PartialEq, Eq, Structural)]
pub enum CombineError {
    /// Both leaves already belong to the same tree.
    AlreadyCombined,
    /// A leaf is in no tree of the forest.
    NotFound,
}

/// A primitive that the user has selected, with its colour.
#[derive(Clone, Copy, Debug, PartialEq, Eq, Structural)]
pub struct SelectedPrimitive {
    pub id: NodeId,
    pub color: Rgb,
}

/// What a request to combine the selection came to.
#[derive(Clone, Copy, Debug, PartialEq, Eq, Structural)]
pub enum CsgOutcome {
    /// The mode is not the one for this operation, or not exactly two
    /// primitives are selected: nothing changed.
    Ignored,
    /// The operation was built, with this identifier.
    Performed(NodeId),
    /// The combine was refused; the forest is unchanged.
    Refused(CombineError),
    /// No identifier is left for a new operation; the forest is unchanged.
    IdsExhausted,
}

/// The outcome that reports `result` of a combine.
pub open spec fn outcome_of(result: Result<NodeId, CombineError>) -> CsgOutcome {
    match result {
        Ok(id) => CsgOutcome::Performed(id),
        Err(e) => CsgOutcome::Refused(e),
    }
}

/// A combine request is acted on in the mode for its operation, with exactly
/// two primitives selected.
pub open spec fn request_applies(
    mode: ControlMode,
    selected: Seq<SelectedPrimitive>,
    kind: CsgOperation,
) -> bool {
    mode == mode_for(kind) && selected.len() == 2
}

/// The node that applies `kind` to the operands of `op`.
pub open spec fn operation_node(kind: CsgOperation, op: Operation) -> Node {
    match kind {
        CsgOperation::Union => Node::Union(op),
        CsgOperation::Subtract => Node::Subtract(op),
    }
}

impl Node {
    /// The node's own identifier: the primitive's for a leaf, the operation's otherwise.
    pub open spec fn own_id(self) -> NodeId {
        match self {
            Node::Geometry(id) => id,
            Node::Union(op) => op.id,
            Node::Subtract(op) => op.id,
        }
    }

    /// Whether a leaf of this tree stands for primitive `id`.
    pub open spec fn has_leaf(self, id: NodeId) -> bool
        decreases self,
    {
        match self {
            Node::Geometry(x) => x == id,
            Node::Union(op) => op.left.has_leaf(id) || op.right.has_leaf(id),
            Node::Subtract(op) => op.left.has_leaf(id) || op.right.has_leaf(id),
        }
    }

    /// Whether some node of this tree, leaf or operation, has identifier `id`.
    pub open spec fn has_id(self, id: NodeId) -> bool
        decreases self,
    {
        match self {
            Node::Geometry(x) => x == id,
            Node::Union(op) => op.id == id || op.left.has_id(id) || op.right.has_id(id),
            Node::Subtract(op) => op.id == id || op.left.has_id(id) || op.right.has_id(id),
        }
    }

    /// The number of nodes, leaves and operations, in this tree.
    pub open spec fn size(self) -> nat
        decreases self,
    {
        match self {
            Node::Geometry(_) => 1,
            Node::Union(op) => op.left.size() + op.right.size() + 1,
            Node::Subtract(op) => op.left.size() + op.right.size() + 1,
        }
    }

    /// No identifier occurs twice in this tree.
    pub open spec fn well_formed(self) -> bool
        decreases self,
    {
        match self {
            Node::Geometry(_) => true,
            Node::Union(op) => operands_well_formed(op),
            Node::Subtract(op) => operands_well_formed(op),
        }
    }

    /// The colour that an operation built on this tree as first operand
    /// inherits: `leaf_color`, the primitive's own colour, for a leaf.
    pub open spec fn inherited_color(self, leaf_color: Rgb) -> Rgb {
        match self {
            Node::Geometry(_) => leaf_color,
            Node::Union(op) => op.color,
            Node::Subtract(op) => op.color,
        }
    }

    /// Whether a leaf of this tree stands for primitive `id`.
    pub fn contains(&self, id: NodeId) -> (r: bool)
        ensures
            r == self.has_leaf(id),
        decreases self,
    {
        match self {
            Node::Geometry(x) => *x == id,
            Node::Union(op) => op.left.contains(id) || op.right.contains(id),
            Node::Subtract(op) => op.left.contains(id) || op.right.contains(id),
        }
    }

    /// Whether some node of this tree has identifier `id`.
    pub fn contains_id(&self, id: NodeId) -> (r: bool)
        ensures
            r == self.has_id(id),
        decreases self,
    {
        match self {
            Node::Geometry(x) => *x == id,
            Node::Union(op) => op.id == id || op.left.contains_id(id) || op.right.contains_id(id),
            Node::Subtract(op) => op.id == id || op.left.contains_id(id) || op.right.contains_id(
                id,
            ),
        }
    }

    pub fn id(&self) -> (r: NodeId)
        ensures
            r == self.own_id(),
    {
        match self {
            Node::Geometry(x) => *x,
            Node::Union(op) => op.id,
            Node::Subtract(op) => op.id,
        }
    }
}

/// Both operands are well formed, share no identifier, and do not hold the
/// operation's own identifier.
pub open spec fn operands_well_formed(op: Operation) -> bool
    decreases op,
{
    &&& op.left.well_formed()
    &&& op.right.well_formed()
    &&& !op.left.has_id(op.id)
    &&& !op.right.has_id(op.id)
    &&& forall|x: NodeId| !(#[trigger] op.left.has_id(x) && #[trigger] op.right.has_id(x))
}

/// A leaf is a node: its identifier is one of the tree's identifiers.
pub proof fn lemma_leaf_is_id(n: Node, id: NodeId)
    requires
        n.has_leaf(id),
    ensures
        n.has_id(id),
    decreases n,
{
    match n {
        Node::Geometry(_) => {},
        Node::Union(op) => {
            if op.left.has_leaf(id) {
                lemma_leaf_is_id(*op.left, id);
            } else {
                lemma_leaf_is_id(*op.right, id);
            }
        },
        Node::Subtract(op) => {
            if op.left.has_leaf(id) {
                lemma_leaf_is_id(*op.left, id);
            } else {
                lemma_leaf_is_id(*op.right, id);
            }
        },
    }
}

/// Every tree is well formed, and no identifier occurs in two trees.
pub open spec fn forest_wf(roots: Seq<Node>) -> bool {
    &&& forall|i: int| 0 <= i < roots.len() ==> (#[trigger] roots[i]).well_formed()
    &&& forall|i: int, j: int, x: NodeId|
        0 <= i < roots.len() && 0 <= j < roots.len() && i != j ==> !(#[trigger] roots[i].has_id(x)
            && #[trigger] roots[j].has_id(x))
}

/// Some tree has a leaf for primitive `id`.
pub open spec fn forest_has_leaf(roots: Seq<Node>, id: NodeId) -> bool {
    exists|i: int| 0 <= i < roots.len() && (#[trigger] roots[i]).has_leaf(id)
}

/// Some node of some tree has identifier `id`.
pub open spec fn forest_has_id(roots: Seq<Node>, id: NodeId) -> bool {
    exists|i: int| 0 <= i < roots.len() && (#[trigger] roots[i]).has_id(id)
}

/// No identifier of tree `n` occurs in the forest.
pub open spec fn shares_no_id(roots: Seq<Node>, n: Node) -> bool {
    forall|x: NodeId| #[trigger] n.has_id(x) ==> !forest_has_id(roots, x)
}

/// Some tree has a leaf for `a` and a leaf for `b`.
pub open spec fn leaves_share_tree(roots: Seq<Node>, a: NodeId, b: NodeId) -> bool {
    exists|i: int| 0 <= i < roots.len() && (#[trigger] roots[i]).has_leaf(a) && roots[i].has_leaf(b)
}

/// `i` is the first tree with a leaf for `id`.
pub open spec fn is_first_root(roots: Seq<Node>, id: NodeId, i: int) -> bool {
    &&& 0 <= i < roots.len()
    &&& roots[i].has_leaf(id)
    &&& forall|j: int| 0 <= j < i ==> !(#[trigger] roots[j]).has_leaf(id)
}

/// The position of the first tree with a leaf for `id`; -1 where there is none.
pub open spec fn root_index(roots: Seq<Node>, id: NodeId) -> int {
    if exists|i: int| is_first_root(roots, id, i) {
        choose|i: int| is_first_root(roots, id, i)
    } else {
        -1
    }
}

/// Only one position is the first.
pub proof fn lemma_first_root_unique(roots: Seq<Node>, id: NodeId, i: int)
    requires
        is_first_root(roots, id, i),
    ensures
        root_index(roots, id) == i,
{
    let k = root_index(roots, id);
    assert(is_first_root(roots, id, k));
    if k < i {
        assert(!roots[k].has_leaf(id));
    } else if k > i {
        assert(!roots[i].has_leaf(id));
    }
}

/// `root_index` is a position exactly when some tree has the leaf.
pub proof fn lemma_root_index_found(roots: Seq<Node>, id: NodeId)
    ensures
        forest_has_leaf(roots, id) ==> is_first_root(roots, id, root_index(roots, id)),
        !forest_has_leaf(roots, id) ==> root_index(roots, id) == -1,
{
    if forest_has_leaf(roots, id) {
        let w = choose|i: int| 0 <= i < roots.len() && (#[trigger] roots[i]).has_leaf(id);
        lemma_first_root_at_or_before(roots, id, w);
    } else {
        if exists|i: int| is_first_root(roots, id, i) {
            let i = choose|i: int| is_first_root(roots, id, i);
            assert(roots[i].has_leaf(id));
        }
    }
}

/// Where tree `w` has the leaf, the first tree that has it is found.
proof fn lemma_first_root_at_or_before(roots: Seq<Node>, id: NodeId, w: int)
    requires
        0 <= w < roots.len(),
        roots[w].has_leaf(id),
    ensures
        is_first_root(roots, id, root_index(roots, id)),
    decreases w,
{
    if exists|j: int| 0 <= j < w && (#[trigger] roots[j]).has_leaf(id) {
        let j = choose|j: int| 0 <= j < w && (#[trigger] roots[j]).has_leaf(id);
        lemma_first_root_at_or_before(roots, id, j);
    } else {
        assert(is_first_root(roots, id, w));
        lemma_first_root_unique(roots, id, w);
    }
}

/// `s` without the elements at the distinct positions `i` and `j`, in order.
pub open spec fn remove_pair(s: Seq<Node>, i: int, j: int) -> Seq<Node> {
    if i < j {
        s.remove(j).remove(i)
    } else {
        s.remove(i).remove(j)
    }
}

/// The position in `s` of the element at position `k` of `remove_pair(s, i, j)`.
pub open spec fn pair_source(i: int, j: int, k: int) -> int {
    let lo = if i < j { i } else { j };
    let hi = if i < j { j } else { i };
    if k < lo {
        k
    } else if k < hi - 1 {
        k + 1
    } else {
        k + 2
    }
}

/// The position in `remove_pair(s, i, j)` of the element at position `k` of `s`.
pub open spec fn pair_target(i: int, j: int, k: int) -> int {
    let lo = if i < j { i } else { j };
    let hi = if i < j { j } else { i };
    if k < lo {
        k
    } else if k < hi {
        k - 1
    } else {
        k - 2
    }
}

/// Where each element of `remove_pair` comes from, and where each kept element goes.
pub proof fn lemma_remove_pair(s: Seq<Node>, i: int, j: int)
    requires
        0 <= i < s.len(),
        0 <= j < s.len(),
        i != j,
    ensures
        remove_pair(s, i, j).len() == s.len() - 2,
        forall|k: int|
            0 <= k < s.len() - 2 ==> {
                let m = pair_source(i, j, k);
                &&& 0 <= m < s.len()
                &&& m != i
                &&& m != j
                &&& #[trigger] remove_pair(s, i, j)[k] == s[m]
            },
        forall|k: int|
            0 <= k < s.len() && k != i && k != j ==> {
                let m = pair_target(i, j, k);
                &&& 0 <= m < s.len() - 2
                &&& pair_source(i, j, m) == k
                &&& remove_pair(s, i, j)[m] == #[trigger] s[k]
            },
{
}

/// The operation that `combine` builds over the trees `left` and `right`.
pub open spec fn combined_tree(
    kind: CsgOperation,
    id: NodeId,
    left: Node,
    right: Node,
    leaf_color: Rgb,
) -> Node {
    operation_node(
        kind,
        Operation {
            id,
            left: Box::new(left),
            right: Box::new(right),
            blend: 0,
            color: left.inherited_color(leaf_color),
        },
    )
}

/// What `combine` returns: `NotFound` where a leaf is in no tree,
/// `AlreadyCombined` where both leaves are in one tree, else the new identifier.
pub open spec fn combine_result(roots: Seq<Node>, a: NodeId, b: NodeId, next_id: NodeId) -> Result<
    NodeId,
    CombineError,
> {
    let ia = root_index(roots, a);
    let ib = root_index(roots, b);
    if ia < 0 || ib < 0 {
        Err(CombineError::NotFound)
    } else if ia == ib {
        Err(CombineError::AlreadyCombined)
    } else {
        Ok(next_id)
    }
}

/// The trees after `combine`: on success the two trees holding the leaves
/// leave the forest and the new operation over them is appended; otherwise
/// the forest is unchanged.
pub open spec fn combine_roots(
    roots: Seq<Node>,
    kind: CsgOperation,
    a: NodeId,
    b: NodeId,
    next_id: NodeId,
    leaf_a_color: Rgb,
) -> Seq<Node> {
    let ia = root_index(roots, a);
    let ib = root_index(roots, b);
    match combine_result(roots, a, b, next_id) {
        Ok(_) => remove_pair(roots, ia, ib).push(
            combined_tree(kind, next_id, roots[ia], roots[ib], leaf_a_color),
        ),
        Err(_) => roots,
    }
}

/// Combining keeps the forest well formed when the new identifier is fresh.
pub proof fn lemma_combine_preserves_wf(
    roots: Seq<Node>,
    kind: CsgOperation,
    a: NodeId,
    b: NodeId,
    next_id: NodeId,
    leaf_a_color: Rgb,
)
    requires
        forest_wf(roots),
        !forest_has_id(roots, next_id),
    ensures
        forest_wf(combine_roots(roots, kind, a, b, next_id, leaf_a_color)),
{
    let ia = root_index(roots, a);
    let ib = root_index(roots, b);
    if combine_result(roots, a, b, next_id) is Ok {
        lemma_root_index_found(roots, a);
        lemma_root_index_found(roots, b);
        let left = roots[ia];
        let right = roots[ib];
        let n = combined_tree(kind, next_id, left, right, leaf_a_color);
        let rest = remove_pair(roots, ia, ib);
        let out = rest.push(n);
        lemma_remove_pair(roots, ia, ib);
        assert(!left.has_id(next_id));
        assert(!right.has_id(next_id));
        assert forall|x: NodeId| #[trigger] n.has_id(x) <==> (x == next_id || left.has_id(x)
            || right.has_id(x)) by {}
        assert forall|x: NodeId| !(#[trigger] left.has_id(x) && #[trigger] right.has_id(x)) by {
            assert(!(roots[ia].has_id(x) && roots[ib].has_id(x)));
        }
        assert(n.well_formed());
        assert forall|i: int| 0 <= i < out.len() implies (#[trigger] out[i]).well_formed() by {
            if i < rest.len() {
                assert(out[i] == roots[pair_source(ia, ib, i)]);
            }
        }
        assert forall|i: int, j: int, x: NodeId|
            0 <= i < out.len() && 0 <= j < out.len() && i != j implies !(
            #[trigger] out[i].has_id(x) && #[trigger] out[j].has_id(x)) by {
            if i < rest.len() && j < rest.len() {
                assert(out[i] == roots[pair_source(ia, ib, i)]);
                assert(out[j] == roots[pair_source(ia, ib, j)]);
            } else if i < rest.len() {
                let k = pair_source(ia, ib, i);
                assert(out[i] == roots[k]);
                assert(!(roots[k].has_id(x) && roots[ia].has_id(x)));
                assert(!(roots[k].has_id(x) && roots[ib].has_id(x)));
                assert(!roots[k].has_id(next_id));
            } else if j < rest.len() {
                let k = pair_source(ia, ib, j);
                assert(out[j] == roots[k]);
                assert(!(roots[k].has_id(x) && roots[ia].has_id(x)));
                assert(!(roots[k].has_id(x) && roots[ib].has_id(x)));
                assert(!roots[k].has_id(next_id));
            }
        }
    }
}

/// In a well-formed forest, the tree that has a leaf is the only one.
pub proof fn lemma_root_of_leaf(roots: Seq<Node>, id: NodeId, i: int)
    requires
        forest_wf(roots),
        0 <= i < roots.len(),
        roots[i].has_leaf(id),
    ensures
        root_index(roots, id) == i,
{
    lemma_leaf_is_id(roots[i], id);
    assert forall|j: int| 0 <= j < i implies !(#[trigger] roots[j]).has_leaf(id) by {
        if roots[j].has_leaf(id) {
            lemma_leaf_is_id(roots[j], id);
            assert(!(roots[i].has_id(id) && roots[j].has_id(id)));
        }
    }
    lemma_first_root_unique(roots, id, i);
}

/// Combining two leaves that lie in different trees succeeds with the new
/// identifier and leaves one tree fewer: the last tree is the new operation,
/// which holds both leaves, and every other tree is still there.
pub proof fn lemma_combine_reduces_root_count(
    roots: Seq<Node>,
    kind: CsgOperation,
    a: NodeId,
    b: NodeId,
    next_id: NodeId,
    leaf_a_color: Rgb,
)
    requires
        forest_has_leaf(roots, a),
        forest_has_leaf(roots, b),
        root_index(roots, a) != root_index(roots, b),
    ensures
        ({
            let out = combine_roots(roots, kind, a, b, next_id, leaf_a_color);
            &&& combine_result(roots, a, b, next_id) == Ok::<NodeId, CombineError>(next_id)
            &&& out.len() == roots.len() - 1
            &&& out.last().own_id() == next_id
            &&& out.last().has_leaf(a)
            &&& out.last().has_leaf(b)
            &&& forall|k: int|
                0 <= k < roots.len() && k != root_index(roots, a) && k != root_index(roots, b)
                    ==> exists|m: int| 0 <= m < out.len() - 1 && out[m] == #[trigger] roots[k]
        }),
{
    lemma_root_index_found(roots, a);
    lemma_root_index_found(roots, b);
    let ia = root_index(roots, a);
    let ib = root_index(roots, b);
    lemma_remove_pair(roots, ia, ib);
    let out = combine_roots(roots, kind, a, b, next_id, leaf_a_color);
    assert forall|k: int|
        0 <= k < roots.len() && k != ia && k != ib implies exists|m: int|
        0 <= m < out.len() - 1 && out[m] == #[trigger] roots[k] by {
        let m = pair_target(ia, ib, k);
        assert(out[m] == roots[k]);
    }
}

/// Once two leaves of a well-formed forest have been combined, combining them
/// again is refused as `AlreadyCombined` and changes nothing.
pub proof fn lemma_combine_twice_rejected(
    roots: Seq<Node>,
    kind: CsgOperation,
    a: NodeId,
    b: NodeId,
    next_id: NodeId,
    leaf_a_color: Rgb,
    again_kind: CsgOperation,
    again_id: NodeId,
    again_color: Rgb,
)
    requires
        forest_wf(roots),
        combine_result(roots, a, b, next_id) is Ok,
    ensures
        ({
            let out = combine_roots(roots, kind, a, b, next_id, leaf_a_color);
            &&& combine_result(out, a, b, again_id) == Err::<NodeId, CombineError>(
                CombineError::AlreadyCombined,
            )
            &&& combine_roots(out, again_kind, a, b, again_id, again_color) == out
        }),
{
    lemma_root_index_found(roots, a);
    lemma_root_index_found(roots, b);
    let ia = root_index(roots, a);
    let ib = root_index(roots, b);
    lemma_remove_pair(roots, ia, ib);
    let out = combine_roots(roots, kind, a, b, next_id, leaf_a_color);
    let last = out.len() - 1;
    lemma_leaf_is_id(roots[ia], a);
    lemma_leaf_is_id(roots[ib], b);
    assert forall|j: int| 0 <= j < last implies !(#[trigger] out[j]).has_leaf(a) && !out[j].has_leaf(
        b,
    ) by {
        let k = pair_source(ia, ib, j);
        assert(out[j] == roots[k]);
        if roots[k].has_leaf(a) {
            lemma_leaf_is_id(roots[k], a);
            assert(!(roots[k].has_id(a) && roots[ia].has_id(a)));
        }
        if roots[k].has_leaf(b) {
            lemma_leaf_is_id(roots[k], b);
            assert(!(roots[k].has_id(b) && roots[ib].has_id(b)));
        }
    }
    assert(is_first_root(out, a, last));
    assert(is_first_root(out, b, last));
    lemma_first_root_unique(out, a, last);
    lemma_first_root_unique(out, b, last);
}

/// Combining two leaves that already share a tree of a well-formed forest is
/// refused as `AlreadyCombined` and changes nothing.
pub proof fn lemma_combine_same_tree_rejected(
    roots: Seq<Node>,
    kind: CsgOperation,
    a: NodeId,
    b: NodeId,
    next_id: NodeId,
    leaf_a_color: Rgb,
    i: int,
)
    requires
        forest_wf(roots),
        0 <= i < roots.len(),
        roots[i].has_leaf(a),
        roots[i].has_leaf(b),
    ensures
        combine_result(roots, a, b, next_id) == Err::<NodeId, CombineError>(
            CombineError::AlreadyCombined,
        ),
        combine_roots(roots, kind, a, b, next_id, leaf_a_color) == roots,
{
    lemma_root_of_leaf(roots, a, i);
    lemma_root_of_leaf(roots, b, i);
}

/// Where the first leaf is a bare primitive, the new operation takes that
/// primitive's colour.
pub proof fn lemma_color_inherited(
    roots: Seq<Node>,
    kind: CsgOperation,
    a: NodeId,
    b: NodeId,
    next_id: NodeId,
    leaf_a_color: Rgb,
)
    requires
        combine_result(roots, a, b, next_id) is Ok,
        roots[root_index(roots, a)] is Geometry,
    ensures
        match combine_roots(roots, kind, a, b, next_id, leaf_a_color).last() {
            Node::Union(op) => op.color == leaf_a_color,
            Node::Subtract(op) => op.color == leaf_a_color,
            Node::Geometry(_) => false,
        },
{
}

/// Every identifier in the forest is below `n`: the forest drew its
/// identifiers from a counter that now stands at `n`.
pub open spec fn ids_below(roots: Seq<Node>, n: u32) -> bool {
    forall|x: NodeId| #[trigger] forest_has_id(roots, x) ==> x@ < n
}

/// Combining adds the new identifier to the forest and no other.
pub proof fn lemma_combine_ids(
    roots: Seq<Node>,
    kind: CsgOperation,
    a: NodeId,
    b: NodeId,
    next_id: NodeId,
    leaf_a_color: Rgb,
)
    ensures
        forall|x: NodeId|
            #[trigger] forest_has_id(combine_roots(roots, kind, a, b, next_id, leaf_a_color), x)
                ==> forest_has_id(roots, x) || x == next_id,
{
    let ia = root_index(roots, a);
    let ib = root_index(roots, b);
    if combine_result(roots, a, b, next_id) is Ok {
        lemma_root_index_found(roots, a);
        lemma_root_index_found(roots, b);
        lemma_remove_pair(roots, ia, ib);
        let out = combine_roots(roots, kind, a, b, next_id, leaf_a_color);
        assert forall|x: NodeId| #[trigger] forest_has_id(out, x) implies forest_has_id(roots, x)
            || x == next_id by {
            let i = choose|i: int| 0 <= i < out.len() && (#[trigger] out[i]).has_id(x);
            if i < out.len() - 1 {
                assert(out[i] == roots[pair_source(ia, ib, i)]);
            } else {
                assert(roots[ia].has_id(x) || roots[ib].has_id(x) || x == next_id);
            }
        }
    }
}

/// An identifier at or above the counter is not in the forest.
pub proof fn lemma_fresh_id(roots: Seq<Node>, n: u32, id: NodeId)
    requires
        ids_below(roots, n),
        id@ >= n,
    ensures
        !forest_has_id(roots, id),
{
}

/// The trees that the user has built, in the order they were made.
#[derive(Debug)]
pub struct OperationsForest {
    pub roots: Vec<Node>,
}

impl OperationsForest {
    /// The forest's trees are well formed and share no identifier.
    pub open spec fn wf(&self) -> bool {
        forest_wf(self.roots@)
    }

    pub fn new() -> (r: OperationsForest)
        ensures
            r.roots@ == Seq::<Node>::empty(),
            r.wf(),
    {
        OperationsForest { roots: Vec::new() }
    }

    /// The position of the first tree with a leaf for `target`.
    pub fn find_root_index(&self, target: NodeId) -> (r: Option<usize>)
        ensures
            match r {
                Some(i) => forest_has_leaf(self.roots@, target) && i == root_index(
                    self.roots@,
                    target,
                ),
                None => !forest_has_leaf(self.roots@, target),
            },
    {
        let mut i: usize = 0;
        while i < self.roots.len()
            invariant
                i <= self.roots@.len(),
                forall|j: int| 0 <= j < i ==> !(#[trigger] self.roots@[j]).has_leaf(target),
            decreases self.roots@.len() - i,
        {
            if self.roots[i].contains(target) {
                proof {
                    assert(is_first_root(self.roots@, target, i as int));
                    lemma_first_root_unique(self.roots@, target, i as int);
                }
                return Some(i);
            }
            i = i + 1;
        }
        None
    }

    /// The tree that has a leaf for `target`, if any.
    pub fn find_root(&self, target: NodeId) -> (r: Option<&Node>)
        ensures
            match r {
                Some(n) => forest_has_leaf(self.roots@, target) && *n == self.roots@[root_index(
                    self.roots@,
                    target,
                )],
                None => !forest_has_leaf(self.roots@, target),
            },
    {
        match self.find_root_index(target) {
            Some(i) => Some(&self.roots[i]),
            None => None,
        }
    }

    /// Appends a leaf for a newly placed primitive as a tree of its own.
    pub fn push_leaf(&mut self, id: NodeId)
        ensures
            final(self).roots@ == old(self).roots@.push(Node::Geometry(id)),
            old(self).wf() && !forest_has_id(old(self).roots@, id) ==> final(self).wf(),
    {
        self.insert_root(Node::Geometry(id));
    }

    /// Appends a tree to the forest.
    pub fn insert_root(&mut self, node: Node)
        ensures
            final(self).roots@ == old(self).roots@.push(node),
            old(self).wf() && node.well_formed() && shares_no_id(old(self).roots@, node)
                ==> final(self).wf(),
    {
        self.roots.push(node);
        proof {
            let s = self.roots@;
            if old(self).wf() && node.well_formed() && shares_no_id(old(self).roots@, node) {
                assert forall|i: int, j: int, x: NodeId|
                    0 <= i < s.len() && 0 <= j < s.len() && i != j implies !(
                    #[trigger] s[i].has_id(x) && #[trigger] s[j].has_id(x)) by {
                    if i == s.len() - 1 && s[i].has_id(x) {
                        assert(!forest_has_id(old(self).roots@, x));
                        assert(s[j] == old(self).roots@[j]);
                    } else if j == s.len() - 1 && s[j].has_id(x) {
                        assert(!forest_has_id(old(self).roots@, x));
                        assert(s[i] == old(self).roots@[i]);
                    }
                }
            }
        }
    }

    /// Removes and returns the first tree whose own identifier is `target`.
    pub fn take_root(&mut self, target: NodeId) -> (r: Option<Node>)
        ensures
            match r {
                Some(n) => exists|i: int|
                    0 <= i < old(self).roots@.len() && old(self).roots@[i].own_id() == target
                        && (forall|j: int|
                        0 <= j < i ==> (#[trigger] old(self).roots@[j]).own_id() != target) && n
                        == old(self).roots@[i] && final(self).roots@ == old(self).roots@.remove(
                        i,
                    ),
                None => final(self).roots@ == old(self).roots@ && forall|i: int|
                    0 <= i < old(self).roots@.len() ==> (#[trigger] old(self).roots@[i]).own_id()
                        != target,
            },
    {
        let mut i: usize = 0;
        while i < self.roots.len()
            invariant
                self.roots@ == old(self).roots@,
                i <= self.roots@.len(),
                forall|j: int| 0 <= j < i ==> (#[trigger] self.roots@[j]).own_id() != target,
            decreases self.roots@.len() - i,
        {
            if self.roots[i].id() == target {
                let n = self.roots.remove(i);
                return Some(n);
            }
            i = i + 1;
        }
        None
    }

    /// Joins the tree holding leaf `leaf_a` and the tree holding leaf `leaf_b`
    /// under a new operation `kind` with identifier `next_id`, which becomes
    /// the last tree of the forest. The first operand is the tree of
    /// `leaf_a`; the operation takes its colour, which is `leaf_a_color`, the
    /// colour of primitive `leaf_a`, where that tree is a bare leaf.
    pub fn combine(
        &mut self,
        kind: CsgOperation,
        leaf_a: NodeId,
        leaf_b: NodeId,
        next_id: NodeId,
        leaf_a_color: Rgb,
    ) -> (r: Result<NodeId, CombineError>)
        ensures
            r == combine_result(old(self).roots@, leaf_a, leaf_b, next_id),
            final(self).roots@ == combine_roots(
                old(self).roots@,
                kind,
                leaf_a,
                leaf_b,
                next_id,
                leaf_a_color,
            ),
            old(self).wf() && !forest_has_id(old(self).roots@, next_id) ==> final(self).wf(),
            old(self).wf() && leaves_share_tree(old(self).roots@, leaf_a, leaf_b)
                ==> r == Err::<NodeId, CombineError>(CombineError::AlreadyCombined)
                && final(self).roots@ == old(self).roots@,
            r is Ok && old(self).roots@[root_index(old(self).roots@, leaf_a)] is Geometry
                ==> match final(self).roots@.last() {
                Node::Union(op) => op.color == leaf_a_color,
                Node::Subtract(op) => op.color == leaf_a_color,
                Node::Geometry(_) => false,
            },
    {
        proof {
            lemma_root_index_found(self.roots@, leaf_a);
            lemma_root_index_found(self.roots@, leaf_b);
            if old(self).wf() && leaves_share_tree(old(self).roots@, leaf_a, leaf_b) {
                let i = choose|i: int|
                    0 <= i < old(self).roots@.len() && (#[trigger] old(self).roots@[i]).has_leaf(leaf_a)
                        && old(self).roots@[i].has_leaf(leaf_b);
                lemma_combine_same_tree_rejected(
                    old(self).roots@,
                    kind,
                    leaf_a,
                    leaf_b,
                    next_id,
                    leaf_a_color,
                    i,
                );
            }
            if combine_result(old(self).roots@, leaf_a, leaf_b, next_id) is Ok
                && old(self).roots@[root_index(old(self).roots@, leaf_a)] is Geometry {
                lemma_color_inherited(old(self).roots@, kind, leaf_a, leaf_b, next_id, leaf_a_color);
            }
            if old(self).wf() && !forest_has_id(old(self).roots@, next_id) {
                lemma_combine_preserves_wf(
                    old(self).roots@,
                    kind,
                    leaf_a,
                    leaf_b,
                    next_id,
                    leaf_a_color,
                );
            }
        }
        let ia = match self.find_root_index(leaf_a) {
            Some(i) => i,
            None => return Err(CombineError::NotFound),
        };
        let ib = match self.find_root_index(leaf_b) {
            Some(i) => i,
            None => return Err(CombineError::NotFound),
        };
        if ia == ib {
            return Err(CombineError::AlreadyCombined);
        }
        let ghost before = self.roots@;
        // the later position goes first, so that the earlier one stays put
        let (left, right) = if ia < ib {
            let right = self.roots.remove(ib);
            let left = self.roots.remove(ia);
            (left, right)
        } else {
            let left = self.roots.remove(ia);
            let right = self.roots.remove(ib);
            (left, right)
        };
        assert(self.roots@ == remove_pair(before, ia as int, ib as int));
        let color = match &left {
            Node::Geometry(_) => leaf_a_color,
            Node::Union(op) => op.color,
            Node::Subtract(op) => op.color,
        };
        let op = Operation {
            id: next_id,
            left: Box::new(left),
            right: Box::new(right),
            blend: 0,
            color,
        };
        let node = match kind {
            CsgOperation::Union => Node::Union(op),
            CsgOperation::Subtract => Node::Subtract(op),
        };
        self.roots.push(node);
        Ok(next_id)
    }

    /// The first tree with a leaf for `target`, to edit in place.
    pub fn find_root_mut(&mut self, target: NodeId) -> (r: Option<&mut Node>)
        ensures
            match r {
                Some(n) => {
                    &&& forest_has_leaf(old(self).roots@, target)
                    &&& *n == old(self).roots@[root_index(old(self).roots@, target)]
                    &&& final(self).roots@ == old(self).roots@.update(
                        root_index(old(self).roots@, target),
                        *final(n),
                    )
                },
                None => !forest_has_leaf(old(self).roots@, target) && final(self).roots@ == old(
                    self,
                ).roots@,
            },
    {
        match self.find_root_index(target) {
            Some(i) => Some(&mut self.roots[i]),
            None => None,
        }
    }

    /// Removes and returns the whole tree that has a leaf for `leaf`, as when
    /// that primitive is deleted.
    pub fn remove_tree_of(&mut self, leaf: NodeId) -> (r: Option<Node>)
        ensures
            match r {
                Some(n) => {
                    &&& forest_has_leaf(old(self).roots@, leaf)
                    &&& n == old(self).roots@[root_index(old(self).roots@, leaf)]
                    &&& final(self).roots@ == old(self).roots@.remove(
                        root_index(old(self).roots@, leaf),
                    )
                },
                None => !forest_has_leaf(old(self).roots@, leaf) && final(self).roots@ == old(
                    self,
                ).roots@,
            },
            old(self).wf() ==> final(self).wf(),
    {
        match self.find_root_index(leaf) {
            Some(i) => {
                let n = self.roots.remove(i);
                proof {
                    let (s, t) = (old(self).roots@, self.roots@);
                    assert forall|k: int| 0 <= k < t.len() implies t[k] == s[if k < i {
                        k
                    } else {
                        k + 1
                    }] by {}
                    if old(self).wf() {
                        assert forall|a: int, b: int, x: NodeId|
                            0 <= a < t.len() && 0 <= b < t.len() && a != b implies !(
                            #[trigger] t[a].has_id(x) && #[trigger] t[b].has_id(x)) by {
                            let (sa, sb) = (if a < i { a } else { a + 1 }, if b < i { b } else { b + 1 });
                            assert(t[a] == s[sa] && t[b] == s[sb]);
                        }
                        assert forall|a: int| 0 <= a < t.len() implies (#[trigger] t[a]).well_formed() by {
                            assert(t[a] == s[if a < i { a } else { a + 1 }]);
                        }
                    }
                }
                Some(n)
            },
            None => None,
        }
    }

    /// Whether some node of the forest has identifier `id`.
    pub fn has_id(&self, id: NodeId) -> (r: bool)
        ensures
            r == forest_has_id(self.roots@, id),
    {
        let mut i: usize = 0;
        while i < self.roots.len()
            invariant
                i <= self.roots@.len(),
                forall|j: int| 0 <= j < i ==> !(#[trigger] self.roots@[j]).has_id(id),
            decreases self.roots@.len() - i,
        {
            if self.roots[i].contains_id(id) {
                return true;
            }
            i = i + 1;
        }
        false
    }
}

/// Acts on a request to combine the two selected primitives with `kind`.
/// Outside the mode for `kind`, or unless exactly two primitives are
/// selected, nothing happens. Otherwise the mode returns to `Select`, and the
/// tree of the first selected primitive is combined with the tree of the
/// second under the identifier that `new_id` hands out next, which is drawn
/// only when the combine succeeds.
pub fn perform_csg_operation(
    control_mode: &mut ControlMode,
    selected: &Vec<SelectedPrimitive>,
    operations: &mut OperationsForest,
    new_id: &mut GlobalId,
    operation_type: CsgOperation,
) -> (r: CsgOutcome)
    ensures
        !request_applies(*old(control_mode), selected@, operation_type) ==> {
            &&& r == CsgOutcome::Ignored
            &&& *final(control_mode) == *old(control_mode)
            &&& final(operations).roots@ == old(operations).roots@
            &&& final(new_id)@ == old(new_id)@
        },
        request_applies(*old(control_mode), selected@, operation_type) ==> *final(control_mode)
            == ControlMode::Select,
        request_applies(*old(control_mode), selected@, operation_type) && old(new_id)@
            >= MODULUS ==> {
            &&& r == CsgOutcome::IdsExhausted
            &&& final(operations).roots@ == old(operations).roots@
            &&& final(new_id)@ == old(new_id)@
        },
        request_applies(*old(control_mode), selected@, operation_type) && old(new_id)@
            < MODULUS ==> {
            let (a, b) = (selected@[0], selected@[1]);
            let id = node_id_of(old(new_id)@);
            let result = combine_result(old(operations).roots@, a.id, b.id, id);
            &&& r == outcome_of(result)
            &&& final(operations).roots@ == combine_roots(
                old(operations).roots@,
                operation_type,
                a.id,
                b.id,
                id,
                a.color,
            )
            &&& final(new_id)@ == if result is Ok {
                old(new_id)@ + 1
            } else {
                old(new_id)@ as int
            }
        },
        old(operations).wf() && !forest_has_id(old(operations).roots@, node_id_of(old(new_id)@))
            ==> final(operations).wf(),
        old(operations).wf() && ids_below(old(operations).roots@, old(new_id)@)
            ==> final(operations).wf() && ids_below(final(operations).roots@, final(new_id)@),
        request_applies(*old(control_mode), selected@, operation_type) && old(new_id)@ < MODULUS
            && old(operations).wf() && leaves_share_tree(
            old(operations).roots@,
            selected@[0].id,
            selected@[1].id,
        ) ==> r == CsgOutcome::Refused(CombineError::AlreadyCombined) && final(operations).roots@
            == old(operations).roots@ && final(new_id)@ == old(new_id)@,
        r is Performed && old(operations).roots@[root_index(
            old(operations).roots@,
            selected@[0].id,
        )] is Geometry ==> match final(operations).roots@.last() {
            Node::Union(op) => op.color == selected@[0].color,
            Node::Subtract(op) => op.color == selected@[0].color,
            Node::Geometry(_) => false,
        },
{
    proof {
        let id = node_id_of(old(new_id)@);
        if request_applies(*old(control_mode), selected@, operation_type) && old(operations).wf()
            && leaves_share_tree(old(operations).roots@, selected@[0].id, selected@[1].id) {
            let i = choose|i: int|
                0 <= i < old(operations).roots@.len() && (#[trigger] old(
                    operations,
                ).roots@[i]).has_leaf(selected@[0].id) && old(operations).roots@[i].has_leaf(
                    selected@[1].id,
                );
            lemma_combine_same_tree_rejected(
                old(operations).roots@,
                operation_type,
                selected@[0].id,
                selected@[1].id,
                id,
                selected@[0].color,
                i,
            );
        }
        if request_applies(*old(control_mode), selected@, operation_type) && old(new_id)@ < MODULUS
            && combine_result(old(operations).roots@, selected@[0].id, selected@[1].id, id) is Ok
            && old(operations).roots@[root_index(old(operations).roots@, selected@[0].id)] is Geometry {
            lemma_color_inherited(
                old(operations).roots@,
                operation_type,
                selected@[0].id,
                selected@[1].id,
                id,
                selected@[0].color,
            );
        }
        lemma_node_id_of(old(new_id)@, id);
        if old(new_id)@ < MODULUS && ids_below(old(operations).roots@, old(new_id)@) {
            lemma_fresh_id(old(operations).roots@, old(new_id)@, id);
        }
        if request_applies(*old(control_mode), selected@, operation_type) {
            lemma_combine_ids(
                old(operations).roots@,
                operation_type,
                selected@[0].id,
                selected@[1].id,
                id,
                selected@[0].color,
            );
        }
    }
    if !is_in_expected_control_mode(operation_type, control_mode) || selected.len() != 2 {
        return CsgOutcome::Ignored;
    }
    let first = selected[0];
    let second = selected[1];
    *control_mode = ControlMode::Select;
    let id = match new_id.peek() {
        Some(id) => id,
        None => return CsgOutcome::IdsExhausted,
    };
    match operations.combine(operation_type, first.id, second.id, id, first.color) {
        Ok(made) => {
            let _ = new_id.next();
            CsgOutcome::Performed(made)
        },
        Err(e) => CsgOutcome::Refused(e),
    }
}

/// Places a new primitive, at a spot the user clicked, in `PlaceGeometry`
/// mode: it gets the identifier that `new_id` hands out next, becomes a tree
/// of its own, and the mode returns to `Select`. In any other mode, or once
/// no identifier is left, nothing changes.
pub fn place_primitive(
    control_mode: &mut ControlMode,
    operations: &mut OperationsForest,
    new_id: &mut GlobalId,
) -> (r: Option<NodeId>)
    ensures
        *old(control_mode) != ControlMode::PlaceGeometry || old(new_id)@ >= MODULUS ==> {
            &&& r is None
            &&& *final(control_mode) == *old(control_mode)
            &&& final(operations).roots@ == old(operations).roots@
            &&& final(new_id)@ == old(new_id)@
        },
        *old(control_mode) == ControlMode::PlaceGeometry && old(new_id)@ < MODULUS ==> {
            let id = node_id_of(old(new_id)@);
            &&& r == Some(id)
            &&& *final(control_mode) == ControlMode::Select
            &&& final(operations).roots@ == old(operations).roots@.push(Node::Geometry(id))
            &&& final(new_id)@ == old(new_id)@ + 1
        },
        old(operations).wf() && ids_below(old(operations).roots@, old(new_id)@)
            ==> final(operations).wf() && ids_below(final(operations).roots@, final(new_id)@),
{
    if *control_mode != ControlMode::PlaceGeometry {
        return None;
    }
    let id = match new_id.next() {
        Some(id) => id,
        None => return None,
    };
    proof {
        if ids_below(old(operations).roots@, old(new_id)@) {
            lemma_fresh_id(old(operations).roots@, old(new_id)@, id);
        }
    }
    operations.push_leaf(id);
    *control_mode = ControlMode::Select;
    proof {
        let out = operations.roots@;
        assert forall|x: NodeId| #[trigger] forest_has_id(out, x) implies forest_has_id(
            old(operations).roots@,
            x,
        ) || x == id by {
            let i = choose|i: int| 0 <= i < out.len() && (#[trigger] out[i]).has_id(x);
            if i < out.len() - 1 {
                assert(out[i] == old(operations).roots@[i]);
            }
        }
    }
    Some(id)
}

} // verus!
