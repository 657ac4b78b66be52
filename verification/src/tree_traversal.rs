//! Binary tree traversals in all three orders, each in a recursive and an
//! iterative form that provably produce the same sequence.
//!
//! Trees live in an arena of nodes addressed by index, with child links
//! stored as indices. A node's children are always created before it, so
//! every link points strictly below its owner: that well-formedness
//! invariant rules out cycles and is what every traversal's termination
//! rests on.

use vstd::prelude::*;

verus! {

/// A node of a binary tree held in a `TreeArena`. Child links are arena
/// indices of nodes created earlier.
pub struct TreeNode {
    pub val: i32,
    pub left: Option<usize>,
    pub right: Option<usize>,
}

/// An arena of tree nodes. An `Option<usize>` into it is a (sub)tree:
/// `None` is the empty tree.
pub struct TreeArena {
    pub nodes: Vec<TreeNode>,
}

/// Every child link points strictly below its owner.
pub open spec fn arena_wf(ns: Seq<TreeNode>) -> bool {
    forall|i: int|
        0 <= i < ns.len() ==> {
            &&& ((#[trigger] ns[i]).left matches Some(l) ==> (l as int) < i)
            &&& (ns[i].right matches Some(r) ==> (r as int) < i)
        }
}

/// The link denotes a node of the arena (or nothing).
pub open spec fn link_ok(ns: Seq<TreeNode>, t: Option<usize>) -> bool {
    match t {
        None => true,
        Some(i) => (i as int) < ns.len(),
    }
}

/// Number of nodes of the subtree.
pub open spec fn link_size(ns: Seq<TreeNode>, t: Option<usize>) -> int
    decreases (match t {
        None => 0int,
        Some(i) => i as int + 1,
    })
        when arena_wf(ns) && link_ok(ns, t)
{
    match t {
        None => 0,
        Some(i) => 1 + link_size(ns, ns[i as int].left) + link_size(ns, ns[i as int].right),
    }
}

/// Left subtree, then node, then right subtree.
pub open spec fn link_inorder(ns: Seq<TreeNode>, t: Option<usize>) -> Seq<i32>
    decreases (match t {
        None => 0int,
        Some(i) => i as int + 1,
    })
        when arena_wf(ns) && link_ok(ns, t)
{
    match t {
        None => seq![],
        Some(i) => link_inorder(ns, ns[i as int].left) + seq![ns[i as int].val] + link_inorder(
            ns,
            ns[i as int].right,
        ),
    }
}

/// Node, then left subtree, then right subtree.
pub open spec fn link_preorder(ns: Seq<TreeNode>, t: Option<usize>) -> Seq<i32>
    decreases (match t {
        None => 0int,
        Some(i) => i as int + 1,
    })
        when arena_wf(ns) && link_ok(ns, t)
{
    match t {
        None => seq![],
        Some(i) => seq![ns[i as int].val] + link_preorder(ns, ns[i as int].left) + link_preorder(
            ns,
            ns[i as int].right,
        ),
    }
}

/// Left subtree, then right subtree, then node.
pub open spec fn link_postorder(ns: Seq<TreeNode>, t: Option<usize>) -> Seq<i32>
    decreases (match t {
        None => 0int,
        Some(i) => i as int + 1,
    })
        when arena_wf(ns) && link_ok(ns, t)
{
    match t {
        None => seq![],
        Some(i) => link_postorder(ns, ns[i as int].left) + link_postorder(
            ns,
            ns[i as int].right,
        ) + seq![ns[i as int].val],
    }
}

/// Growing the arena with fresh nodes leaves the traversals of links into
/// the old part unchanged.
pub proof fn lemma_traversals_stable(ns1: Seq<TreeNode>, ns2: Seq<TreeNode>, t: Option<usize>)
    requires
        arena_wf(ns1),
        arena_wf(ns2),
        ns1.len() <= ns2.len(),
        forall|i: int| 0 <= i < ns1.len() ==> ns2[i] == ns1[i],
        link_ok(ns1, t),
    ensures
        link_inorder(ns2, t) == link_inorder(ns1, t),
        link_preorder(ns2, t) == link_preorder(ns1, t),
        link_postorder(ns2, t) == link_postorder(ns1, t),
        link_size(ns2, t) == link_size(ns1, t),
    decreases (match t {
        None => 0int,
        Some(i) => i as int + 1,
    }),
{
    match t {
        None => {},
        Some(i) => {
            assert(ns2[i as int] == ns1[i as int]);
            lemma_traversals_stable(ns1, ns2, ns1[i as int].left);
            lemma_traversals_stable(ns1, ns2, ns1[i as int].right);
        },
    }
}

impl TreeArena {
    /// An empty arena.
    pub fn new() -> (a: TreeArena)
        ensures
            a.nodes@.len() == 0,
            arena_wf(a.nodes@),
    {
        TreeArena { nodes: Vec::new() }
    }
}

impl TreeNode {
    /// Adds a leaf holding `val` to the arena and returns its link.
    pub fn new(arena: &mut TreeArena, val: i32) -> (t: Option<usize>)
        requires
            arena_wf(old(arena).nodes@),
        ensures
            final(arena).nodes@ == old(arena).nodes@.push(
                TreeNode { val, left: None, right: None },
            ),
            arena_wf(final(arena).nodes@),
            link_ok(final(arena).nodes@, t),
            link_inorder(final(arena).nodes@, t) == seq![val],
            link_preorder(final(arena).nodes@, t) == seq![val],
            link_postorder(final(arena).nodes@, t) == seq![val],
    {
        let idx = arena.nodes.len();
        arena.nodes.push(TreeNode { val, left: None, right: None });
        proof {
            assert forall|i: int| 0 <= i < arena.nodes@.len() implies {
                &&& ((#[trigger] arena.nodes@[i]).left matches Some(l) ==> (l as int) < i)
                &&& (arena.nodes@[i].right matches Some(r) ==> (r as int) < i)
            } by {
                if i < idx as int {
                    assert(arena.nodes@[i] == old(arena).nodes@[i]);
                }
            }
            assert(arena.nodes@[idx as int] == (TreeNode { val, left: None, right: None }));
            assert(link_inorder(arena.nodes@, Option::<usize>::None) == Seq::<i32>::empty());
            assert(link_preorder(arena.nodes@, Option::<usize>::None) == Seq::<i32>::empty());
            assert(link_postorder(arena.nodes@, Option::<usize>::None) == Seq::<i32>::empty());
            assert(link_inorder(arena.nodes@, Some(idx)) =~= seq![val]);
            assert(link_preorder(arena.nodes@, Some(idx)) =~= seq![val]);
            assert(link_postorder(arena.nodes@, Some(idx)) =~= seq![val]);
        }
        Some(idx)
    }

    /// Adds a node holding `val` with the given subtrees to the arena and
    /// returns its link. The subtrees must already live in the arena.
    pub fn with_children(
        arena: &mut TreeArena,
        val: i32,
        left: Option<usize>,
        right: Option<usize>,
    ) -> (t: Option<usize>)
        requires
            arena_wf(old(arena).nodes@),
            link_ok(old(arena).nodes@, left),
            link_ok(old(arena).nodes@, right),
        ensures
            final(arena).nodes@ == old(arena).nodes@.push(TreeNode { val, left, right }),
            arena_wf(final(arena).nodes@),
            link_ok(final(arena).nodes@, t),
            link_inorder(final(arena).nodes@, t) == link_inorder(old(arena).nodes@, left)
                + seq![val] + link_inorder(old(arena).nodes@, right),
            link_preorder(final(arena).nodes@, t) == seq![val] + link_preorder(
                old(arena).nodes@,
                left,
            ) + link_preorder(old(arena).nodes@, right),
            link_postorder(final(arena).nodes@, t) == link_postorder(old(arena).nodes@, left)
                + link_postorder(old(arena).nodes@, right) + seq![val],
    {
        let idx = arena.nodes.len();
        arena.nodes.push(TreeNode { val, left, right });
        proof {
            assert forall|i: int| 0 <= i < arena.nodes@.len() implies {
                &&& ((#[trigger] arena.nodes@[i]).left matches Some(l) ==> (l as int) < i)
                &&& (arena.nodes@[i].right matches Some(r) ==> (r as int) < i)
            } by {
                if i < idx as int {
                    assert(arena.nodes@[i] == old(arena).nodes@[i]);
                }
            }
            lemma_traversals_stable(old(arena).nodes@, arena.nodes@, left);
            lemma_traversals_stable(old(arena).nodes@, arena.nodes@, right);
        }
        Some(idx)
    }
}

/// The sizes of a tree and its parts are non-negative.
proof fn lemma_link_size_nonneg(ns: Seq<TreeNode>, t: Option<usize>)
    requires
        arena_wf(ns),
        link_ok(ns, t),
    ensures
        link_size(ns, t) >= 0,
    decreases (match t {
        None => 0int,
        Some(i) => i as int + 1,
    }),
{
    match t {
        None => {},
        Some(i) => {
            lemma_link_size_nonneg(ns, ns[i as int].left);
            lemma_link_size_nonneg(ns, ns[i as int].right);
        },
    }
}

/// Appends the inorder traversal of `t` to `result`.
fn inorder_collect(arena: &TreeArena, t: Option<usize>, result: &mut Vec<i32>)
    requires
        arena_wf(arena.nodes@),
        link_ok(arena.nodes@, t),
    ensures
        final(result)@ == old(result)@ + link_inorder(arena.nodes@, t),
    decreases (match t {
        None => 0int,
        Some(i) => i as int + 1,
    }),
{
    match t {
        None => {
            proof {
                assert(final(result)@ =~= old(result)@ + link_inorder(arena.nodes@, t));
            }
        },
        Some(i) => {
            let node_left = arena.nodes[i].left;
            let node_right = arena.nodes[i].right;
            inorder_collect(arena, node_left, result);
            result.push(arena.nodes[i].val);
            inorder_collect(arena, node_right, result);
            proof {
                assert(result@ =~= old(result)@ + link_inorder(arena.nodes@, t));
            }
        },
    }
}

/// Inorder (left, node, right), by recursion.
pub fn inorder_recursive(arena: &TreeArena, root: Option<usize>) -> (result: Vec<i32>)
    requires
        arena_wf(arena.nodes@),
        link_ok(arena.nodes@, root),
    ensures
        result@ == link_inorder(arena.nodes@, root),
{
    let mut result: Vec<i32> = Vec::new();
    inorder_collect(arena, root, &mut result);
    result
}

/// Appends the preorder traversal of `t` to `result`.
fn preorder_collect(arena: &TreeArena, t: Option<usize>, result: &mut Vec<i32>)
    requires
        arena_wf(arena.nodes@),
        link_ok(arena.nodes@, t),
    ensures
        final(result)@ == old(result)@ + link_preorder(arena.nodes@, t),
    decreases (match t {
        None => 0int,
        Some(i) => i as int + 1,
    }),
{
    match t {
        None => {
            proof {
                assert(final(result)@ =~= old(result)@ + link_preorder(arena.nodes@, t));
            }
        },
        Some(i) => {
            let node_left = arena.nodes[i].left;
            let node_right = arena.nodes[i].right;
            result.push(arena.nodes[i].val);
            preorder_collect(arena, node_left, result);
            preorder_collect(arena, node_right, result);
            proof {
                assert(result@ =~= old(result)@ + link_preorder(arena.nodes@, t));
            }
        },
    }
}

/// Preorder (node, left, right), by recursion.
pub fn preorder_recursive(arena: &TreeArena, root: Option<usize>) -> (result: Vec<i32>)
    requires
        arena_wf(arena.nodes@),
        link_ok(arena.nodes@, root),
    ensures
        result@ == link_preorder(arena.nodes@, root),
{
    let mut result: Vec<i32> = Vec::new();
    preorder_collect(arena, root, &mut result);
    result
}

/// Appends the postorder traversal of `t` to `result`.
fn postorder_collect(arena: &TreeArena, t: Option<usize>, result: &mut Vec<i32>)
    requires
        arena_wf(arena.nodes@),
        link_ok(arena.nodes@, t),
    ensures
        final(result)@ == old(result)@ + link_postorder(arena.nodes@, t),
    decreases (match t {
        None => 0int,
        Some(i) => i as int + 1,
    }),
{
    match t {
        None => {
            proof {
                assert(final(result)@ =~= old(result)@ + link_postorder(arena.nodes@, t));
            }
        },
        Some(i) => {
            let node_left = arena.nodes[i].left;
            let node_right = arena.nodes[i].right;
            postorder_collect(arena, node_left, result);
            postorder_collect(arena, node_right, result);
            result.push(arena.nodes[i].val);
            proof {
                assert(result@ =~= old(result)@ + link_postorder(arena.nodes@, t));
            }
        },
    }
}

/// Postorder (left, right, node), by recursion.
pub fn postorder_recursive(arena: &TreeArena, root: Option<usize>) -> (result: Vec<i32>)
    requires
        arena_wf(arena.nodes@),
        link_ok(arena.nodes@, root),
    ensures
        result@ == link_postorder(arena.nodes@, root),
{
    let mut result: Vec<i32> = Vec::new();
    postorder_collect(arena, root, &mut result);
    result
}

/// What an inorder stack still owes, topmost entry first: each entry's
/// value, then its right subtree, then what lies beneath it.
spec fn stack_inorder_todo(ns: Seq<TreeNode>, st: Seq<usize>) -> Seq<i32>
    decreases st.len(),
{
    if st.len() == 0 {
        seq![]
    } else {
        seq![ns[st.last() as int].val] + link_inorder(ns, ns[st.last() as int].right)
            + stack_inorder_todo(ns, st.drop_last())
    }
}

/// Node count behind `stack_inorder_todo`.
spec fn stack_inorder_size(ns: Seq<TreeNode>, st: Seq<usize>) -> int
    decreases st.len(),
{
    if st.len() == 0 {
        0
    } else {
        1 + link_size(ns, ns[st.last() as int].right) + stack_inorder_size(ns, st.drop_last())
    }
}

proof fn lemma_stack_inorder_size_nonneg(ns: Seq<TreeNode>, st: Seq<usize>)
    requires
        arena_wf(ns),
        forall|k: int| 0 <= k < st.len() ==> (#[trigger] st[k] as int) < ns.len(),
    ensures
        stack_inorder_size(ns, st) >= 0,
    decreases st.len(),
{
    if st.len() > 0 {
        lemma_link_size_nonneg(ns, ns[st.last() as int].right);
        lemma_stack_inorder_size_nonneg(ns, st.drop_last());
    }
}

/// Inorder, with an explicit stack: slide down the left spine, then emit
/// and turn right.
pub fn inorder_iterative(arena: &TreeArena, root: Option<usize>) -> (result: Vec<i32>)
    requires
        arena_wf(arena.nodes@),
        link_ok(arena.nodes@, root),
    ensures
        result@ == link_inorder(arena.nodes@, root),
{
    let ghost ns = arena.nodes@;
    let mut result: Vec<i32> = Vec::new();
    let mut stack: Vec<usize> = Vec::new();
    let mut cur: Option<usize> = root;
    while cur.is_some() || stack.len() > 0
        invariant
            ns == arena.nodes@,
            arena_wf(ns),
            link_ok(ns, cur),
            forall|k: int| 0 <= k < stack@.len() ==> (#[trigger] stack@[k] as int) < ns.len(),
            result@ + link_inorder(ns, cur) + stack_inorder_todo(ns, stack@) == link_inorder(
                ns,
                root,
            ),
        decreases link_size(ns, cur) + stack_inorder_size(ns, stack@), link_size(ns, cur),
    {
        let ghost st0 = stack@;
        let ghost cur0 = cur;
        let ghost res0 = result@;
        match cur {
            Some(i) => {
                stack.push(i);
                cur = arena.nodes[i].left;
                proof {
                    assert(stack@.last() == i && stack@.drop_last() =~= st0);
                    lemma_link_size_nonneg(ns, ns[i as int].left);
                    lemma_link_size_nonneg(ns, ns[i as int].right);
                    lemma_stack_inorder_size_nonneg(ns, stack@);
                    assert(result@ + link_inorder(ns, cur) + stack_inorder_todo(ns, stack@)
                        =~= res0 + link_inorder(ns, cur0) + stack_inorder_todo(ns, st0));
                }
            },
            None => {
                let i = match stack.pop() {
                    Some(x) => x,
                    None => 0,
                };
                result.push(arena.nodes[i].val);
                cur = arena.nodes[i].right;
                proof {
                    assert(st0.last() == i && stack@ =~= st0.drop_last());
                    lemma_link_size_nonneg(ns, cur);
                    lemma_stack_inorder_size_nonneg(ns, stack@);
                    assert(result@ + link_inorder(ns, cur) + stack_inorder_todo(ns, stack@)
                        =~= res0 + link_inorder(ns, cur0) + stack_inorder_todo(ns, st0));
                }
            },
        }
    }
    proof {
        assert(result@ =~= link_inorder(ns, root));
    }
    result
}

/// What a preorder stack still owes: each entry's whole subtree, topmost
/// entry first.
spec fn stack_preorder_todo(ns: Seq<TreeNode>, st: Seq<usize>) -> Seq<i32>
    decreases st.len(),
{
    if st.len() == 0 {
        seq![]
    } else {
        link_preorder(ns, Some(st.last())) + stack_preorder_todo(ns, st.drop_last())
    }
}

/// Node count behind `stack_preorder_todo`.
spec fn stack_preorder_size(ns: Seq<TreeNode>, st: Seq<usize>) -> int
    decreases st.len(),
{
    if st.len() == 0 {
        0
    } else {
        link_size(ns, Some(st.last())) + stack_preorder_size(ns, st.drop_last())
    }
}

proof fn lemma_stack_preorder_size_nonneg(ns: Seq<TreeNode>, st: Seq<usize>)
    requires
        arena_wf(ns),
        forall|k: int| 0 <= k < st.len() ==> (#[trigger] st[k] as int) < ns.len(),
    ensures
        stack_preorder_size(ns, st) >= 0,
    decreases st.len(),
{
    if st.len() > 0 {
        lemma_link_size_nonneg(ns, Some(st.last()));
        lemma_stack_preorder_size_nonneg(ns, st.drop_last());
    }
}

/// Preorder, with an explicit stack: the right child is pushed before the
/// left one, so the left subtree is processed first.
pub fn preorder_iterative(arena: &TreeArena, root: Option<usize>) -> (result: Vec<i32>)
    requires
        arena_wf(arena.nodes@),
        link_ok(arena.nodes@, root),
    ensures
        result@ == link_preorder(arena.nodes@, root),
{
    let ghost ns = arena.nodes@;
    let mut result: Vec<i32> = Vec::new();
    let mut stack: Vec<usize> = Vec::new();
    if let Some(i) = root {
        stack.push(i);
        proof {
            assert(stack@.last() == i && stack@.drop_last() =~= Seq::<usize>::empty());
            assert(stack_preorder_todo(ns, Seq::<usize>::empty()) == Seq::<i32>::empty());
            assert(result@ + stack_preorder_todo(ns, stack@) =~= link_preorder(ns, root));
        }
    } else {
        proof {
            assert(stack_preorder_todo(ns, stack@) == Seq::<i32>::empty());
            assert(result@ + stack_preorder_todo(ns, stack@) =~= link_preorder(ns, root));
        }
    }
    while stack.len() > 0
        invariant
            ns == arena.nodes@,
            arena_wf(ns),
            forall|k: int| 0 <= k < stack@.len() ==> (#[trigger] stack@[k] as int) < ns.len(),
            result@ + stack_preorder_todo(ns, stack@) == link_preorder(ns, root),
        decreases stack_preorder_size(ns, stack@),
    {
        let ghost st0 = stack@;
        let ghost res0 = result@;
        let i = match stack.pop() {
            Some(x) => x,
            None => 0,
        };
        result.push(arena.nodes[i].val);
        let ghost st1 = stack@;
        if let Some(r) = arena.nodes[i].right {
            stack.push(r);
        }
        let ghost st2 = stack@;
        if let Some(l) = arena.nodes[i].left {
            stack.push(l);
        }
        proof {
            assert(st0.last() == i && st1 =~= st0.drop_last());
            if arena.nodes@[i as int].right is Some {
                assert(st2.last() == ns[i as int].right.unwrap() && st2.drop_last() =~= st1);
            }
            if arena.nodes@[i as int].left is Some {
                assert(stack@.last() == ns[i as int].left.unwrap() && stack@.drop_last() =~= st2);
            }
            assert(stack_preorder_todo(ns, st2) =~= link_preorder(ns, ns[i as int].right)
                + stack_preorder_todo(ns, st1));
            assert(stack_preorder_todo(ns, stack@) =~= link_preorder(ns, ns[i as int].left)
                + link_preorder(ns, ns[i as int].right) + stack_preorder_todo(ns, st1));
            assert(result@ + stack_preorder_todo(ns, stack@) =~= res0 + stack_preorder_todo(
                ns,
                st0,
            ));
            lemma_link_size_nonneg(ns, ns[i as int].left);
            lemma_link_size_nonneg(ns, ns[i as int].right);
            lemma_stack_preorder_size_nonneg(ns, st1);
            assert(stack_preorder_size(ns, st2) == link_size(ns, ns[i as int].right)
                + stack_preorder_size(ns, st1));
            assert(stack_preorder_size(ns, stack@) == link_size(ns, ns[i as int].left) + link_size(
                ns,
                ns[i as int].right,
            ) + stack_preorder_size(ns, st1));
        }
    }
    proof {
        assert(result@ =~= link_preorder(ns, root));
    }
    result
}

/// Node, then right subtree, then left subtree: preorder's mirror, whose
/// reverse is exactly postorder.
spec fn link_nrl(ns: Seq<TreeNode>, t: Option<usize>) -> Seq<i32>
    decreases (match t {
        None => 0int,
        Some(i) => i as int + 1,
    })
        when arena_wf(ns) && link_ok(ns, t)
{
    match t {
        None => seq![],
        Some(i) => seq![ns[i as int].val] + link_nrl(ns, ns[i as int].right) + link_nrl(
            ns,
            ns[i as int].left,
        ),
    }
}

/// Reversing the node-right-left order yields postorder.
proof fn lemma_nrl_reverse(ns: Seq<TreeNode>, t: Option<usize>)
    requires
        arena_wf(ns),
        link_ok(ns, t),
    ensures
        link_nrl(ns, t).reverse() == link_postorder(ns, t),
    decreases (match t {
        None => 0int,
        Some(i) => i as int + 1,
    }),
{
    match t {
        None => {
            assert(link_nrl(ns, t).reverse() =~= link_postorder(ns, t));
        },
        Some(i) => {
            lemma_nrl_reverse(ns, ns[i as int].left);
            lemma_nrl_reverse(ns, ns[i as int].right);
            assert(link_nrl(ns, t).reverse() =~= link_postorder(ns, t));
        },
    }
}

/// What a node-right-left stack still owes, topmost entry first.
spec fn stack_nrl_todo(ns: Seq<TreeNode>, st: Seq<usize>) -> Seq<i32>
    decreases st.len(),
{
    if st.len() == 0 {
        seq![]
    } else {
        link_nrl(ns, Some(st.last())) + stack_nrl_todo(ns, st.drop_last())
    }
}

/// Postorder, with an explicit stack: collect in node-right-left order
/// (the left child pushed before the right one), then reverse.
pub fn postorder_iterative(arena: &TreeArena, root: Option<usize>) -> (result: Vec<i32>)
    requires
        arena_wf(arena.nodes@),
        link_ok(arena.nodes@, root),
    ensures
        result@ == link_postorder(arena.nodes@, root),
{
    let ghost ns = arena.nodes@;
    let mut buf: Vec<i32> = Vec::new();
    let mut stack: Vec<usize> = Vec::new();
    if let Some(i) = root {
        stack.push(i);
        proof {
            assert(stack@.last() == i && stack@.drop_last() =~= Seq::<usize>::empty());
            assert(stack_nrl_todo(ns, Seq::<usize>::empty()) == Seq::<i32>::empty());
            assert(buf@ + stack_nrl_todo(ns, stack@) =~= link_nrl(ns, root));
        }
    } else {
        proof {
            assert(stack_nrl_todo(ns, stack@) == Seq::<i32>::empty());
            assert(buf@ + stack_nrl_todo(ns, stack@) =~= link_nrl(ns, root));
        }
    }
    while stack.len() > 0
        invariant
            ns == arena.nodes@,
            arena_wf(ns),
            forall|k: int| 0 <= k < stack@.len() ==> (#[trigger] stack@[k] as int) < ns.len(),
            buf@ + stack_nrl_todo(ns, stack@) == link_nrl(ns, root),
        decreases stack_preorder_size(ns, stack@),
    {
        let ghost st0 = stack@;
        let ghost buf0 = buf@;
        let i = match stack.pop() {
            Some(x) => x,
            None => 0,
        };
        buf.push(arena.nodes[i].val);
        let ghost st1 = stack@;
        if let Some(l) = arena.nodes[i].left {
            stack.push(l);
        }
        let ghost st2 = stack@;
        if let Some(r) = arena.nodes[i].right {
            stack.push(r);
        }
        proof {
            assert(st0.last() == i && st1 =~= st0.drop_last());
            if arena.nodes@[i as int].left is Some {
                assert(st2.last() == ns[i as int].left.unwrap() && st2.drop_last() =~= st1);
            }
            if arena.nodes@[i as int].right is Some {
                assert(stack@.last() == ns[i as int].right.unwrap() && stack@.drop_last() =~= st2);
            }
            assert(stack_nrl_todo(ns, st2) =~= link_nrl(ns, ns[i as int].left) + stack_nrl_todo(
                ns,
                st1,
            ));
            assert(stack_nrl_todo(ns, stack@) =~= link_nrl(ns, ns[i as int].right) + link_nrl(
                ns,
                ns[i as int].left,
            ) + stack_nrl_todo(ns, st1));
            assert(buf@ + stack_nrl_todo(ns, stack@) =~= buf0 + stack_nrl_todo(ns, st0));
            lemma_link_size_nonneg(ns, ns[i as int].left);
            lemma_link_size_nonneg(ns, ns[i as int].right);
            lemma_stack_preorder_size_nonneg(ns, st1);
            assert(stack_preorder_size(ns, st2) == link_size(ns, ns[i as int].left)
                + stack_preorder_size(ns, st1));
            assert(stack_preorder_size(ns, stack@) == link_size(ns, ns[i as int].right) + link_size(
                ns,
                ns[i as int].left,
            ) + stack_preorder_size(ns, st1));
        }
    }
    proof {
        assert(buf@ =~= link_nrl(ns, root));
    }
    let mut result: Vec<i32> = Vec::new();
    let mut k = buf.len();
    while k > 0
        invariant
            k <= buf@.len(),
            result@.len() == buf@.len() - k,
            forall|j: int|
                0 <= j < result@.len() ==> #[trigger] result@[j] == buf@[buf@.len() - 1 - j],
        decreases k,
    {
        k = k - 1;
        let v = buf[k];
        result.push(v);
    }
    proof {
        assert(result@ =~= buf@.reverse());
        lemma_nrl_reverse(ns, root);
    }
    result
}

} // verus!
