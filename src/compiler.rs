//! Flattens the forest into one instruction list that an evaluator runs in a
//! single forward pass: every operation refers only to records before it.

use crate::node_id::{NodeId, Rgb};
use crate::operations::{CsgOperation, Node, Operation, OperationsForest};
use vstd::prelude::*;

verus! {

/// One instruction of the compiled forest.
#[derive(Clone, Copy, Debug, PartialEq, Eq, Structural)]
pub enum OpRecord {
    /// Evaluate the primitive at `index` of the id-sorted primitive list.
    Primitive { index: usize },
    /// Combine the results of the records at `left` and `right`.
    Combine { kind: CsgOperation, left: usize, right: usize, blend: u8, color: Rgb },
}

/// The instruction list, and the position of each tree's last record, in
/// the order of the forest's trees.
#[derive(Debug)]
pub struct CompiledForest {
    pub ops: Vec<OpRecord>,
    pub roots: Vec<usize>,
}

/// How many identifiers of `prims` are below `v`.
pub open spec fn count_below(prims: Seq<NodeId>, v: u32) -> nat
    decreases prims.len(),
{
    if prims.len() == 0 {
        0
    } else {
        count_below(prims.drop_last(), v) + if prims.last()@ < v {
            1nat
        } else {
            0nat
        }
    }
}

/// The position of primitive `id` in the id-sorted list of the distinct
/// identifiers `prims`: the number of them below it.
pub open spec fn primitive_index(prims: Seq<NodeId>, id: NodeId) -> nat {
    count_below(prims, id@)
}

/// Every leaf of `n` stands for a primitive of `prims`.
pub open spec fn leaves_listed(n: Node, prims: Seq<NodeId>) -> bool
    decreases n,
{
    match n {
        Node::Geometry(id) => prims.contains(id),
        Node::Union(op) => leaves_listed(*op.left, prims) && leaves_listed(*op.right, prims),
        Node::Subtract(op) => leaves_listed(*op.left, prims) && leaves_listed(*op.right, prims),
    }
}

/// Every leaf of the forest stands for a primitive of `prims`.
pub open spec fn all_leaves_listed(roots: Seq<Node>, prims: Seq<NodeId>) -> bool {
    forall|i: int| 0 <= i < roots.len() ==> leaves_listed(#[trigger] roots[i], prims)
}

/// The records of tree `n` in postorder, for a list in which they start at
/// position `base`.
pub open spec fn flatten(n: Node, base: nat, prims: Seq<NodeId>) -> Seq<OpRecord>
    decreases n,
{
    match n {
        Node::Geometry(id) => seq![OpRecord::Primitive { index: primitive_index(prims, id) as usize }],
        Node::Union(op) => flatten_operation(CsgOperation::Union, op, base, prims),
        Node::Subtract(op) => flatten_operation(CsgOperation::Subtract, op, base, prims),
    }
}

/// The records of the left operand, then of the right one, then the
/// operation's own record, which refers to the last record of each operand.
pub open spec fn flatten_operation(
    kind: CsgOperation,
    op: Operation,
    base: nat,
    prims: Seq<NodeId>,
) -> Seq<OpRecord>
    decreases op,
{
    let l = flatten(*op.left, base, prims);
    let r = flatten(*op.right, base + l.len(), prims);
    l + r + seq![
        OpRecord::Combine {
            kind,
            left: (base + l.len() - 1) as usize,
            right: (base + l.len() + r.len() - 1) as usize,
            blend: op.blend,
            color: op.color,
        },
    ]
}

/// The records of all trees one after the other, and the position of each
/// tree's last record.
pub open spec fn flatten_roots(roots: Seq<Node>, prims: Seq<NodeId>) -> (Seq<OpRecord>, Seq<usize>)
    decreases roots.len(),
{
    if roots.len() == 0 {
        (Seq::empty(), Seq::empty())
    } else {
        let (ops, tops) = flatten_roots(roots.drop_last(), prims);
        let f = flatten(roots.last(), ops.len(), prims);
        (ops + f, tops.push((ops.len() + f.len() - 1) as usize))
    }
}

/// The number of nodes of all trees.
pub open spec fn forest_size(roots: Seq<Node>) -> nat
    decreases roots.len(),
{
    if roots.len() == 0 {
        0
    } else {
        forest_size(roots.drop_last()) + roots.last().size()
    }
}

/// Record `r`, at position `i`, refers only to records before it.
pub open spec fn refs_earlier(r: OpRecord, i: int) -> bool {
    match r {
        OpRecord::Primitive { .. } => true,
        OpRecord::Combine { left, right, .. } => left < i && right < i,
    }
}

/// `c` is the compilation of the trees `roots` over the primitives `prims`.
pub open spec fn compiled_from(c: CompiledForest, roots: Seq<Node>, prims: Seq<NodeId>) -> bool {
    &&& c.ops@ == flatten_roots(roots, prims).0
    &&& c.roots@ == flatten_roots(roots, prims).1
}

/// A tree gives one record per node.
pub proof fn lemma_flatten_size(n: Node, base: nat, prims: Seq<NodeId>)
    ensures
        flatten(n, base, prims).len() == n.size(),
        n.size() >= 1,
    decreases n,
{
    match n {
        Node::Geometry(_) => {},
        Node::Union(op) => {
            lemma_flatten_size(*op.left, base, prims);
            let l = flatten(*op.left, base, prims);
            lemma_flatten_size(*op.right, base + l.len(), prims);
        },
        Node::Subtract(op) => {
            lemma_flatten_size(*op.left, base, prims);
            let l = flatten(*op.left, base, prims);
            lemma_flatten_size(*op.right, base + l.len(), prims);
        },
    }
}

/// Each record of a tree refers only to records before it.
pub proof fn lemma_flatten_order(n: Node, base: nat, prims: Seq<NodeId>)
    requires
        base + n.size() <= usize::MAX + 1,
    ensures
        forall|k: int|
            0 <= k < flatten(n, base, prims).len() ==> refs_earlier(
                #[trigger] flatten(n, base, prims)[k],
                base + k,
            ),
    decreases n,
{
    lemma_flatten_size(n, base, prims);
    match n {
        Node::Geometry(id) => {
            let f = flatten(n, base, prims);
            assert forall|k: int| 0 <= k < f.len() implies refs_earlier(#[trigger] f[k], base + k) by {
                assert(f[k] is Primitive);
            }
        },
        Node::Union(op) => {
            assert(flatten(n, base, prims) == flatten_operation(CsgOperation::Union, op, base, prims));
            lemma_flatten_operation_order(CsgOperation::Union, op, base, prims);
        },
        Node::Subtract(op) => {
            assert(flatten(n, base, prims) == flatten_operation(CsgOperation::Subtract, op, base, prims));
            lemma_flatten_operation_order(CsgOperation::Subtract, op, base, prims);
        },
    }
}

proof fn lemma_flatten_operation_order(kind: CsgOperation, op: Operation, base: nat, prims: Seq<NodeId>)
    requires
        base + op.left.size() + op.right.size() + 1 <= usize::MAX + 1,
    ensures
        forall|k: int|
            0 <= k < flatten_operation(kind, op, base, prims).len() ==> refs_earlier(
                #[trigger] flatten_operation(kind, op, base, prims)[k],
                base + k,
            ),
    decreases op,
{
    let l = flatten(*op.left, base, prims);
    let r = flatten(*op.right, base + l.len(), prims);
    lemma_flatten_size(*op.left, base, prims);
    lemma_flatten_size(*op.right, base + l.len(), prims);
    lemma_flatten_order(*op.left, base, prims);
    lemma_flatten_order(*op.right, base + l.len(), prims);
    let all = flatten_operation(kind, op, base, prims);
    assert forall|k: int| 0 <= k < all.len() implies refs_earlier(#[trigger] all[k], base + k) by {
        if k < l.len() {
            assert(all[k] == l[k]);
        } else if k < l.len() + r.len() {
            assert(all[k] == r[k - l.len()]);
        }
    }
}

/// The forest gives one record per node and one top position per tree.
pub proof fn lemma_flatten_roots_size(roots: Seq<Node>, prims: Seq<NodeId>)
    ensures
        flatten_roots(roots, prims).0.len() == forest_size(roots),
        flatten_roots(roots, prims).1.len() == roots.len(),
    decreases roots.len(),
{
    if roots.len() > 0 {
        lemma_flatten_roots_size(roots.drop_last(), prims);
        let ops = flatten_roots(roots.drop_last(), prims).0;
        lemma_flatten_size(roots.last(), ops.len(), prims);
    }
}

/// Each record of the compiled forest refers only to records before it.
pub proof fn lemma_flatten_roots_order(roots: Seq<Node>, prims: Seq<NodeId>)
    requires
        forest_size(roots) <= usize::MAX + 1,
    ensures
        forall|k: int|
            0 <= k < flatten_roots(roots, prims).0.len() ==> refs_earlier(
                #[trigger] flatten_roots(roots, prims).0[k],
                k,
            ),
    decreases roots.len(),
{
    if roots.len() > 0 {
        let (ops, _) = flatten_roots(roots.drop_last(), prims);
        let f = flatten(roots.last(), ops.len(), prims);
        lemma_flatten_roots_size(roots.drop_last(), prims);
        lemma_flatten_roots_order(roots.drop_last(), prims);
        lemma_flatten_order(roots.last(), ops.len(), prims);
        let all = flatten_roots(roots, prims).0;
        assert forall|k: int| 0 <= k < all.len() implies refs_earlier(#[trigger] all[k], k) by {
            if k < ops.len() {
                assert(all[k] == ops[k]);
            } else {
                assert(all[k] == f[k - ops.len()]);
            }
        }
    }
}

/// Compiling the same forest over the same primitives twice gives the same
/// records and the same top positions.
pub proof fn lemma_compile_deterministic(
    first: CompiledForest,
    second: CompiledForest,
    roots: Seq<Node>,
    prims: Seq<NodeId>,
)
    requires
        compiled_from(first, roots, prims),
        compiled_from(second, roots, prims),
    ensures
        first.ops@ == second.ops@,
        first.roots@ == second.roots@,
{
}

/// Whether primitive `id` is among `prims`.
fn is_listed(prims: &Vec<NodeId>, id: NodeId) -> (r: bool)
    ensures
        r == prims@.contains(id),
{
    let mut i: usize = 0;
    while i < prims.len()
        invariant
            i <= prims@.len(),
            forall|j: int| 0 <= j < i ==> prims@[j] != id,
        decreases prims@.len() - i,
    {
        if prims[i] == id {
            return true;
        }
        i = i + 1;
    }
    false
}

fn tree_leaves_listed(n: &Node, prims: &Vec<NodeId>) -> (r: bool)
    ensures
        r == leaves_listed(*n, prims@),
    decreases n,
{
    match n {
        Node::Geometry(id) => is_listed(prims, *id),
        Node::Union(op) => tree_leaves_listed(&op.left, prims) && tree_leaves_listed(&op.right, prims),
        Node::Subtract(op) => tree_leaves_listed(&op.left, prims) && tree_leaves_listed(
            &op.right,
            prims,
        ),
    }
}

/// The position of primitive `id` in the id-sorted list of the distinct
/// identifiers `prims`.
pub fn primitive_index_of(prims: &Vec<NodeId>, id: NodeId) -> (r: usize)
    ensures
        r == primitive_index(prims@, id),
{
    let v = id.value();
    let mut count: usize = 0;
    let mut i: usize = 0;
    while i < prims.len()
        invariant
            i <= prims@.len(),
            count <= i,
            count == count_below(prims@.take(i as int), v),
            v == id@,
        decreases prims@.len() - i,
    {
        proof {
            assert(prims@.take(i as int + 1).drop_last() =~= prims@.take(i as int));
        }
        if prims[i].value() < v {
            count = count + 1;
        }
        i = i + 1;
    }
    proof {
        assert(prims@.take(prims@.len() as int) =~= prims@);
    }
    count
}

fn flatten_into(n: &Node, prims: &Vec<NodeId>, ops: &mut Vec<OpRecord>)
    ensures
        final(ops)@ == old(ops)@ + flatten(*n, old(ops)@.len(), prims@),
    decreases n,
{
    match n {
        Node::Geometry(id) => {
            let index = primitive_index_of(prims, *id);
            ops.push(OpRecord::Primitive { index });
            assert(ops@ =~= old(ops)@ + flatten(*n, old(ops)@.len(), prims@));
        },
        Node::Union(op) => flatten_operation_into(CsgOperation::Union, op, prims, ops),
        Node::Subtract(op) => flatten_operation_into(CsgOperation::Subtract, op, prims, ops),
    }
}

fn flatten_operation_into(
    kind: CsgOperation,
    op: &Operation,
    prims: &Vec<NodeId>,
    ops: &mut Vec<OpRecord>,
)
    ensures
        final(ops)@ == old(ops)@ + flatten_operation(kind, *op, old(ops)@.len(), prims@),
    decreases op,
{
    let ghost base = old(ops)@.len();
    let ghost l = flatten(*op.left, base, prims@);
    proof {
        lemma_flatten_size(*op.left, base, prims@);
        lemma_flatten_size(*op.right, base + l.len(), prims@);
    }
    flatten_into(&op.left, prims, ops);
    let left = ops.len() - 1;
    flatten_into(&op.right, prims, ops);
    let right = ops.len() - 1;
    ops.push(OpRecord::Combine { kind, left, right, blend: op.blend, color: op.color });
    assert(ops@ =~= old(ops)@ + flatten_operation(kind, *op, base, prims@));
}

/// Compiles the forest over the live primitives `primitives`, given by their
/// distinct identifiers in any order: each leaf refers to its primitive's
/// position in the id-sorted list. `None` where a leaf stands for no live
/// primitive.
pub fn compile(forest: &OperationsForest, primitives: &Vec<NodeId>) -> (r: Option<CompiledForest>)
    ensures
        match r {
            Some(c) => {
                &&& all_leaves_listed(forest.roots@, primitives@)
                &&& compiled_from(c, forest.roots@, primitives@)
                &&& c.ops@.len() == forest_size(forest.roots@)
                &&& c.roots@.len() == forest.roots@.len()
                &&& forall|i: int| 0 <= i < c.ops@.len() ==> refs_earlier(#[trigger] c.ops@[i], i)
            },
            None => !all_leaves_listed(forest.roots@, primitives@),
        },
{
    let mut i: usize = 0;
    while i < forest.roots.len()
        invariant
            i <= forest.roots@.len(),
            forall|j: int| 0 <= j < i ==> leaves_listed(#[trigger] forest.roots@[j], primitives@),
        decreases forest.roots@.len() - i,
    {
        if !tree_leaves_listed(&forest.roots[i], primitives) {
            assert(!leaves_listed(forest.roots@[i as int], primitives@));
            return None;
        }
        i = i + 1;
    }
    let mut ops: Vec<OpRecord> = Vec::new();
    let mut tops: Vec<usize> = Vec::new();
    let mut i: usize = 0;
    while i < forest.roots.len()
        invariant
            i <= forest.roots@.len(),
            ops@ == flatten_roots(forest.roots@.take(i as int), primitives@).0,
            ops@.len() <= usize::MAX,
            tops@ == flatten_roots(forest.roots@.take(i as int), primitives@).1,
        decreases forest.roots@.len() - i,
    {
        proof {
            let next = forest.roots@.take(i as int + 1);
            assert(next.drop_last() =~= forest.roots@.take(i as int));
            assert(next.last() == forest.roots@[i as int]);
            lemma_flatten_size(forest.roots@[i as int], ops@.len(), primitives@);
        }
        flatten_into(&forest.roots[i], primitives, &mut ops);
        tops.push(ops.len() - 1);
        i = i + 1;
    }
    proof {
        assert(forest.roots@.take(forest.roots@.len() as int) =~= forest.roots@);
        lemma_flatten_roots_size(forest.roots@, primitives@);
        lemma_flatten_roots_order(forest.roots@, primitives@);
    }
    Some(CompiledForest { ops, roots: tops })
}

} // verus!
