//! The syntax-complexity analyzer's core: a depth-weighted walk over a
//! syntax tree whose nodes carry only a grammar kind tag and their children.

use vstd::prelude::*;
use vstd::seq_lib::*;

verus! {

broadcast use
    vstd::seq::axiom_seq_index_decreases,
    vstd::seq::axiom_seq_subrange_decreases,
    vstd::std_specs::vec::axiom_vec_decreases_to_view;

/// One node of a parsed syntax tree: the grammar's kind tag and the ordered
/// child nodes. The analyzer reads nothing else of a node.
pub struct SyntaxNode {
    pub kind: String,
    pub children: Vec<SyntaxNode>,
}

/// Kinds that open a branch in control flow; each occurrence is weighted by
/// how deeply it is nested.
pub open spec fn spec_is_branching(kind: Seq<char>) -> bool {
    ||| kind == "if_expression"@
    ||| kind == "while_expression"@
    ||| kind == "for_expression"@
    ||| kind == "match_arm"@
    ||| kind == "loop_expression"@
    ||| kind == "match_expression"@
}

/// Kinds that declare a function; each occurrence counts once, independent of
/// depth.
pub open spec fn spec_is_declaration(kind: Seq<char>) -> bool {
    kind == "function_item"@
}

/// What one node adds to the total when it stands at nesting depth `depth`.
pub open spec fn node_weight(kind: Seq<char>, depth: nat) -> nat {
    if spec_is_branching(kind) {
        1 + depth
    } else if spec_is_declaration(kind) {
        1
    } else {
        0
    }
}

/// Complexity of the tree rooted at `node`, with `node` standing at nesting
/// depth `depth`: the node's own weight plus the complexity of every child
/// one level deeper.
pub open spec fn complexity(node: SyntaxNode, depth: nat) -> nat
    decreases node,
{
    node_weight(node.kind@, depth) + children_complexity(node.children@, (depth + 1) as nat)
}

/// Sum of the complexities of `nodes`, each standing at depth `depth`.
pub open spec fn children_complexity(nodes: Seq<SyntaxNode>, depth: nat) -> nat
    decreases nodes,
{
    if nodes.len() == 0 {
        0
    } else {
        complexity(nodes[0], depth) + children_complexity(nodes.drop_first(), depth)
    }
}

/// `n` held to what a 64-bit counter can carry.
pub open spec fn cap64(n: nat) -> nat {
    if n > u64::MAX {
        u64::MAX as nat
    } else {
        n
    }
}

fn sat_add_u64(a: u64, b: u64) -> (r: u64)
    ensures
        r == cap64((a + b) as nat),
{
    if a <= u64::MAX - b {
        a + b
    } else {
        u64::MAX
    }
}

/// Whether `kind` is one of the branching constructs.
pub fn is_branching_kind(kind: &String) -> (r: bool)
    ensures
        r == spec_is_branching(kind@),
{
    *kind == "if_expression".to_owned() || *kind == "while_expression".to_owned() || *kind
        == "for_expression".to_owned() || *kind == "match_arm".to_owned() || *kind
        == "loop_expression".to_owned() || *kind == "match_expression".to_owned()
}

/// Whether `kind` is a function declaration.
pub fn is_declaration_kind(kind: &String) -> (r: bool)
    ensures
        r == spec_is_declaration(kind@),
{
    *kind == "function_item".to_owned()
}

/// Sum of the complexities still owed by the worklist: each pending node at
/// its own recorded depth.
spec fn pending_sum(items: Seq<(&SyntaxNode, u64)>, depths: Seq<nat>) -> nat
    decreases items.len(),
{
    if items.len() == 0 || depths.len() != items.len() {
        0
    } else {
        complexity(*items.last().0, depths.last()) + pending_sum(
            items.drop_last(),
            depths.drop_last(),
        )
    }
}

/// Number of nodes in the tree under `node`, the measure that shrinks as the
/// iterative walk makes progress.
spec fn tree_size(node: SyntaxNode) -> nat
    decreases node,
{
    1 + forest_size(node.children@)
}

spec fn forest_size(nodes: Seq<SyntaxNode>) -> nat
    decreases nodes,
{
    if nodes.len() == 0 {
        0
    } else {
        tree_size(nodes[0]) + forest_size(nodes.drop_first())
    }
}

spec fn stack_sizes(items: Seq<(&SyntaxNode, u64)>) -> nat
    decreases items.len(),
{
    if items.len() == 0 {
        0
    } else {
        tree_size(*items.last().0) + stack_sizes(items.drop_last())
    }
}

proof fn lemma_forest_tail(nodes: Seq<SyntaxNode>, j: int)
    requires
        0 <= j < nodes.len(),
    ensures
        forest_size(nodes.skip(j)) == tree_size(nodes[j]) + forest_size(nodes.skip(j + 1)),
{
    assert(nodes.skip(j).len() > 0);
    assert(nodes.skip(j)[0] == nodes[j]);
    assert(nodes.skip(j).drop_first() =~= nodes.skip(j + 1));
}

proof fn lemma_children_tail(nodes: Seq<SyntaxNode>, depth: nat, j: int)
    requires
        0 <= j < nodes.len(),
    ensures
        children_complexity(nodes.skip(j), depth) == complexity(nodes[j], depth)
            + children_complexity(nodes.skip(j + 1), depth),
{
    assert(nodes.skip(j).len() > 0);
    assert(nodes.skip(j)[0] == nodes[j]);
    assert(nodes.skip(j).drop_first() =~= nodes.skip(j + 1));
}

/// The depth-weighted complexity of the tree under `root`, `root` itself at
/// depth zero. The walk is iterative so that arbitrarily deep trees cannot
/// exhaust the call stack; the total saturates at `u64::MAX`.
pub fn complexity_of(root: &SyntaxNode) -> (r: u64)
    ensures
        r == cap64(complexity(*root, 0)),
{
    let mut stack: Vec<(&SyntaxNode, u64)> = Vec::new();
    stack.push((root, 0));
    let ghost mut depths: Seq<nat> = seq![0nat];
    let ghost mut processed: nat = 0;
    let mut total: u64 = 0;
    proof {
        assert(stack@.last() == (root, 0u64));
        assert(depths.last() == 0nat);
        assert(stack@.drop_last() =~= Seq::<(&SyntaxNode, u64)>::empty());
        assert(depths.drop_last() =~= Seq::<nat>::empty());
        assert(pending_sum(Seq::<(&SyntaxNode, u64)>::empty(), Seq::<nat>::empty()) == 0);
        assert(pending_sum(stack@, depths) == complexity(*root, 0));
    }
    while stack.len() > 0
        invariant
            depths.len() == stack@.len(),
            forall|i: int|
                0 <= i < stack@.len() ==> (#[trigger] stack@[i].1) == cap64(depths[i]),
            total == cap64(processed),
            processed + pending_sum(stack@, depths) == complexity(*root, 0),
        decreases stack_sizes(stack@),
    {
        let ghost old_stack = stack@;
        let ghost old_depths = depths;
        let ghost size_target: nat = (stack_sizes(stack@) - 1) as nat;
        let (node, d) = stack.pop().unwrap();
        let ghost dt: nat = depths.last();
        proof {
            depths = depths.drop_last();
            assert(old_stack.last().0 == node && old_stack.last().1 == d);
            assert(pending_sum(old_stack, old_depths) == complexity(*node, dt) + pending_sum(
                stack@,
                depths,
            ));
            assert(stack_sizes(old_stack) == tree_size(*node) + stack_sizes(stack@));
            assert(node.children@.skip(0) =~= node.children@);
        }
        let w: u64 = if is_branching_kind(&node.kind) {
            sat_add_u64(1, d)
        } else if is_declaration_kind(&node.kind) {
            1
        } else {
            0
        };
        assert(w == cap64(node_weight(node.kind@, dt)));
        total = sat_add_u64(total, w);
        proof {
            processed = processed + node_weight(node.kind@, dt);
            assert(total == cap64(processed));
        }
        let dc: u64 = if d < u64::MAX {
            d + 1
        } else {
            d
        };
        let ghost dtc: nat = dt + 1;
        assert(dc == cap64(dtc));
        let mut j: usize = 0;
        while j < node.children.len()
            invariant
                0 <= j <= node.children.len(),
                depths.len() == stack@.len(),
                forall|i: int|
                    0 <= i < stack@.len() ==> (#[trigger] stack@[i].1) == cap64(depths[i]),
                total == cap64(processed),
                dc == cap64(dtc),
                processed + pending_sum(stack@, depths) + children_complexity(
                    node.children@.skip(j as int),
                    dtc,
                ) == complexity(*root, 0),
                stack_sizes(stack@) + forest_size(node.children@.skip(j as int)) == size_target,
            decreases node.children@.len() - j,
        {
            let ghost pre_stack = stack@;
            let ghost pre_depths = depths;
            stack.push((&node.children[j], dc));
            proof {
                depths = depths.push(dtc);
                assert(stack@.drop_last() =~= pre_stack);
                assert(depths.drop_last() =~= pre_depths);
                assert(pending_sum(stack@, depths) == complexity(node.children@[j as int], dtc)
                    + pending_sum(pre_stack, pre_depths));
                assert(stack_sizes(stack@) == tree_size(node.children@[j as int]) + stack_sizes(
                    pre_stack,
                ));
                lemma_children_tail(node.children@, dtc, j as int);
                lemma_forest_tail(node.children@, j as int);
            }
            j = j + 1;
        }
        proof {
            assert(node.children@.skip(node.children@.len() as int).len() == 0);
        }
    }
    proof {
        assert(pending_sum(stack@, depths) == 0);
    }
    total
}

/// Whether the tree under `node` holds no branching node and no declaration
/// node at all.
pub open spec fn has_no_counted_node(node: SyntaxNode) -> bool
    decreases node,
{
    &&& !spec_is_branching(node.kind@)
    &&& !spec_is_declaration(node.kind@)
    &&& forest_has_no_counted_node(node.children@)
}

pub open spec fn forest_has_no_counted_node(nodes: Seq<SyntaxNode>) -> bool
    decreases nodes,
{
    nodes.len() == 0 || (has_no_counted_node(nodes[0]) && forest_has_no_counted_node(
        nodes.drop_first(),
    ))
}

/// A tree with no branching and no declaration node scores zero, whatever
/// depth it stands at.
pub proof fn lemma_no_counted_node_scores_zero(node: SyntaxNode, depth: nat)
    requires
        has_no_counted_node(node),
    ensures
        complexity(node, depth) == 0,
    decreases node,
{
    lemma_forest_no_counted(node.children@, (depth + 1) as nat);
}

proof fn lemma_forest_no_counted(nodes: Seq<SyntaxNode>, depth: nat)
    requires
        forest_has_no_counted_node(nodes),
    ensures
        children_complexity(nodes, depth) == 0,
    decreases nodes,
{
    if nodes.len() > 0 {
        lemma_no_counted_node_scores_zero(nodes[0], depth);
        lemma_forest_no_counted(nodes.drop_first(), depth);
    }
}

proof fn lemma_children_complexity_fold(nodes: Seq<SyntaxNode>, depth: nat)
    ensures
        children_complexity(nodes, depth) == nodes.fold_right_alt(
            (|n: SyntaxNode, acc: nat| complexity(n, depth) + acc),
            0nat,
        ),
    decreases nodes.len(),
{
    if nodes.len() > 0 {
        lemma_children_complexity_fold(nodes.drop_first(), depth);
    }
}

/// Sibling order never matters: two sequences of siblings holding the same
/// nodes, in any orders, sum to the same total at the same depth.
pub proof fn lemma_sibling_permutation(
    left: Seq<SyntaxNode>,
    right: Seq<SyntaxNode>,
    depth: nat,
)
    requires
        left.to_multiset() == right.to_multiset(),
    ensures
        children_complexity(left, depth) == children_complexity(right, depth),
{
    let f = |n: SyntaxNode, acc: nat| complexity(n, depth) + acc;
    lemma_children_complexity_fold(left, depth);
    lemma_children_complexity_fold(right, depth);
    assert(commutative_foldr(f)) by {
        assert(forall|x: SyntaxNode, y: SyntaxNode, v: nat|
            #[trigger] f(x, f(y, v)) == f(y, f(x, v)));
    }
    lemma_fold_right_permutation(left, right, f, 0nat);
    left.lemma_fold_right_alt(f, 0nat);
    right.lemma_fold_right_alt(f, 0nat);
}

/// Permuting the children of a node leaves its complexity unchanged.
pub proof fn lemma_sibling_order_irrelevant(a: SyntaxNode, b: SyntaxNode, depth: nat)
    requires
        a.kind@ == b.kind@,
        a.children@.to_multiset() == b.children@.to_multiset(),
    ensures
        complexity(a, depth) == complexity(b, depth),
{
    lemma_sibling_permutation(a.children@, b.children@, (depth + 1) as nat);
}

} // verus!
