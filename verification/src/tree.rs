//! Array-backed binary tree: nodes live in a fixed arena of `N` slots and
//! refer to their children by index instead of by pointer. The arena only
//! grows — there is no deletion — and every insertion links a brand-new slot
//! under exactly one existing node, so the indices always form a tree.

use vstd::prelude::*;

verus! {

/// One arena node as the specifications see it: payload plus optional child
/// indices.
pub struct NodeModel<T> {
    pub data: T,
    pub left: Option<int>,
    pub right: Option<int>,
}

/// An optional index as the specifications see it.
pub open spec fn opt_index(o: Option<usize>) -> Option<int> {
    match o {
        Some(u) => Some(u as int),
        None => None,
    }
}

/// A child reference of node `i` stays inside the populated arena prefix and
/// always points downward in allocation order (children are allocated after
/// their parent).
pub open spec fn child_ok(count: int, c: Option<int>, i: int) -> bool {
    match c {
        None => true,
        Some(j) => i < j < count,
    }
}

/// Node `i` references node `c` as one of its children.
pub open spec fn points_to<T>(nodes: Seq<Option<NodeModel<T>>>, i: int, c: int) -> bool {
    &&& 0 <= i < nodes.len()
    &&& nodes[i] is Some
    &&& (nodes[i]->0.left == Some(c) || nodes[i]->0.right == Some(c))
}

/// The arena invariant: exactly the first `count` slots are populated, child
/// references point forward into the populated prefix, the two children of a
/// node are distinct, and no slot is referenced as a child twice.
pub open spec fn arena_wf<T>(nodes: Seq<Option<NodeModel<T>>>, count: int) -> bool {
    &&& 0 <= count <= nodes.len()
    &&& forall|i: int| 0 <= i < nodes.len() ==> ((#[trigger] nodes[i]) is Some <==> i < count)
    &&& forall|i: int|
        0 <= i < count ==> child_ok(count, (#[trigger] nodes[i])->0.left, i) && child_ok(
            count,
            nodes[i]->0.right,
            i,
        )
    &&& forall|i: int|
        0 <= i < count && (#[trigger] nodes[i])->0.left is Some && nodes[i]->0.right is Some
            ==> nodes[i]->0.left != nodes[i]->0.right
    &&& forall|i: int, j: int, c: int|
        #[trigger] points_to(nodes, i, c) && #[trigger] points_to(nodes, j, c) ==> i == j
}

/// The whole-tree invariant: a well-formed arena whose root, if set, is a
/// populated slot that no node references as a child.
pub open spec fn tree_wf<T>(nodes: Seq<Option<NodeModel<T>>>, root: Option<int>, count: int) -> bool {
    &&& arena_wf(nodes, count)
    &&& match root {
        None => true,
        Some(r) => 0 <= r < count,
    }
    &&& forall|i: int, c: int| #[trigger] points_to(nodes, i, c) ==> root != Some(c)
}

#[derive(Debug, Clone, Copy)]
struct TreeNode<T> {
    data: T,
    left: Option<usize>,
    right: Option<usize>,
}

/// Index-arena binary tree with capacity `N`, fixed at construction.
pub struct ArrayBinaryTree<T, const N: usize> {
    nodes: Vec<Option<TreeNode<T>>>,
    root: Option<usize>,
    next_index: usize,
}

impl<T: Copy, const N: usize> ArrayBinaryTree<T, N> {
    /// The arena as the specifications see it.
    pub closed spec fn model(&self) -> Seq<Option<NodeModel<T>>> {
        Seq::new(
            self.nodes@.len(),
            |i: int|
                match self.nodes@[i] {
                    Some(n) => Some(
                        NodeModel {
                            data: n.data,
                            left: opt_index(n.left),
                            right: opt_index(n.right),
                        },
                    ),
                    None => None,
                },
        )
    }

    /// The root slot, if any.
    pub closed spec fn spec_root(&self) -> Option<int> {
        opt_index(self.root)
    }

    /// Number of nodes allocated so far.
    pub closed spec fn spec_count(&self) -> int {
        self.next_index as int
    }

    /// The arena spans exactly `N` slots and satisfies the tree invariant.
    pub open spec fn wf(&self) -> bool {
        &&& self.model().len() == N as int
        &&& tree_wf(self.model(), self.spec_root(), self.spec_count())
    }

    /// Create a new empty tree with all `N` slots unpopulated.
    pub fn new() -> (t: Self)
        ensures
            t.wf(),
            t.spec_count() == 0,
            t.spec_root() is None,
    {
        let mut nodes: Vec<Option<TreeNode<T>>> = Vec::new();
        while nodes.len() < N
            invariant
                nodes@.len() <= N as int,
                forall|i: int| 0 <= i < nodes@.len() ==> nodes@[i] is None,
            decreases N as int - nodes@.len(),
        {
            nodes.push(None);
        }
        ArrayBinaryTree { nodes, root: None, next_index: 0 }
    }

    /// Allocate the next free arena slot for a fresh, childless node.
    fn insert_node(&mut self, data: T, left: Option<usize>, right: Option<usize>) -> (r: Result<
        usize,
        &'static str,
    >)
        requires
            old(self).wf(),
            left is None,
            right is None,
        ensures
            final(self).wf(),
            old(self).spec_count() == N as int ==> (r matches Err(m) && m@ == "Tree is full"@)
                && *final(self) == *old(self),
            old(self).spec_count() < N as int ==> (r matches Ok(idx) && idx as int == old(self).spec_count() && final(self).spec_count() == old(self).spec_count() + 1 && final(self).spec_root() == old(self).spec_root() && final(self).model() == old(self).model().update(
                old(self).spec_count(),
                Some(NodeModel { data, left: None, right: None }),
            )),
    {
        if self.next_index >= N {
            return Err("Tree is full");
        }
        let idx = self.next_index;
        self.nodes[idx] = Some(TreeNode { data, left, right });
        self.next_index = self.next_index + 1;
        proof {
            assert(self.model() =~= old(self).model().update(
                old(self).spec_count(),
                Some(NodeModel { data, left: None, right: None }),
            ));
            let m1 = old(self).model();
            let m2 = self.model();
            let c = old(self).spec_count();
            assert forall|i: int, j: int, cc: int|
                points_to(m2, i, cc) && points_to(m2, j, cc) implies i == j by {
                if i != c {
                    assert(points_to(m1, i, cc));
                }
                if j != c {
                    assert(points_to(m1, j, cc));
                }
            };
            assert forall|i: int, cc: int| points_to(m2, i, cc) implies self.spec_root() != Some(
                cc,
            ) by {
                if i != c {
                    assert(points_to(m1, i, cc));
                }
            };
        }
        Ok(idx)
    }

    /// Insert the root node; fails if a root is already set or the arena is
    /// exhausted.
    pub fn insert_root(&mut self, data: T) -> (r: Result<(), &'static str>)
        requires
            old(self).wf(),
        ensures
            final(self).wf(),
            old(self).spec_root() is Some ==> (r matches Err(m) && m@ == "Root already exists"@)
                && *final(self) == *old(self),
            old(self).spec_root() is None && old(self).spec_count() == N as int ==> (r matches Err(m)
                && m@ == "Tree is full"@) && *final(self) == *old(self),
            old(self).spec_root() is None && old(self).spec_count() < N as int ==> r is Ok && final(self).spec_root() == Some(old(self).spec_count()) && final(self).spec_count() == old(self).spec_count() + 1 && final(self).model() == old(self).model().update(
                old(self).spec_count(),
                Some(NodeModel { data, left: None, right: None }),
            ),
    {
        if self.root.is_some() {
            return Err("Root already exists");
        }
        match self.insert_node(data, None, None) {
            Ok(idx) => {
                self.root = Some(idx);
                Ok(())
            },
            Err(e) => Err(e),
        }
    }

    /// Insert a left child under `parent`; fails if `parent` is not a
    /// populated slot, already has a left child, or the arena is exhausted.
    pub fn insert_left(&mut self, parent: usize, data: T) -> (r: Result<usize, &'static str>)
        requires
            old(self).wf(),
            parent < N,
        ensures
            final(self).wf(),
            (parent as int) >= old(self).spec_count() ==> (r matches Err(m) && m@
                == "Invalid parent index"@) && *final(self) == *old(self),
            (parent as int) < old(self).spec_count() && old(self).model()[parent as int]->0.left
                is Some ==> (r matches Err(m) && m@ == "Left child already exists"@) && *final(self)
                == *old(self),
            (parent as int) < old(self).spec_count() && old(self).model()[parent as int]->0.left
                is None && old(self).spec_count() == N as int ==> (r matches Err(m) && m@
                == "Tree is full"@) && *final(self) == *old(self),
            (parent as int) < old(self).spec_count() && old(self).model()[parent as int]->0.left
                is None && old(self).spec_count() < N as int ==> (r matches Ok(idx) && idx as int
                == old(self).spec_count() && final(self).spec_count() == old(self).spec_count() + 1
                && final(self).spec_root() == old(self).spec_root() && final(self).model() == old(self).model().update(
                old(self).spec_count(),
                Some(NodeModel { data, left: None, right: None }),
            ).update(
                parent as int,
                Some(
                    NodeModel {
                        data: old(self).model()[parent as int]->0.data,
                        left: Some(old(self).spec_count()),
                        right: old(self).model()[parent as int]->0.right,
                    },
                ),
            )),
    {
        if self.nodes[parent].is_none() {
            return Err("Invalid parent index");
        }
        let pnode = self.nodes[parent].unwrap();
        if pnode.left.is_some() {
            return Err("Left child already exists");
        }
        match self.insert_node(data, None, None) {
            Ok(idx) => {
                self.nodes[parent] = Some(
                    TreeNode { data: pnode.data, left: Some(idx), right: pnode.right },
                );
                proof {
                    assert(self.model() =~= old(self).model().update(
                        old(self).spec_count(),
                        Some(NodeModel { data, left: None, right: None }),
                    ).update(
                        parent as int,
                        Some(
                            NodeModel {
                                data: old(self).model()[parent as int]->0.data,
                                left: Some(old(self).spec_count()),
                                right: old(self).model()[parent as int]->0.right,
                            },
                        ),
                    ));
                
                    let m1 = old(self).model();
                    let m2 = self.model();
                    let c = old(self).spec_count();
                    let p = parent as int;
                    assert forall|i: int, j: int, cc: int|
                        points_to(m2, i, cc) && points_to(m2, j, cc) implies i == j by {
                        if i != c && i != p {
                            assert(points_to(m1, i, cc));
                        }
                        if j != c && j != p {
                            assert(points_to(m1, j, cc));
                        }
                        if i == p && cc != c {
                            assert(points_to(m1, p, cc));
                        }
                        if j == p && cc != c {
                            assert(points_to(m1, p, cc));
                        }
                    };
                    assert forall|i: int, cc: int|
                        points_to(m2, i, cc) implies self.spec_root() != Some(cc) by {
                        if i != c && i != p {
                            assert(points_to(m1, i, cc));
                        }
                        if i == p && cc != c {
                            assert(points_to(m1, p, cc));
                        }
                    };
                }
                Ok(idx)
            },
            Err(e) => Err(e),
        }
    }

    /// Insert a right child under `parent`; fails if `parent` is not a
    /// populated slot, already has a right child, or the arena is exhausted.
    pub fn insert_right(&mut self, parent: usize, data: T) -> (r: Result<usize, &'static str>)
        requires
            old(self).wf(),
            parent < N,
        ensures
            final(self).wf(),
            (parent as int) >= old(self).spec_count() ==> (r matches Err(m) && m@
                == "Invalid parent index"@) && *final(self) == *old(self),
            (parent as int) < old(self).spec_count() && old(self).model()[parent as int]->0.right
                is Some ==> (r matches Err(m) && m@ == "Right child already exists"@) && *final(self)
                == *old(self),
            (parent as int) < old(self).spec_count() && old(self).model()[parent as int]->0.right
                is None && old(self).spec_count() == N as int ==> (r matches Err(m) && m@
                == "Tree is full"@) && *final(self) == *old(self),
            (parent as int) < old(self).spec_count() && old(self).model()[parent as int]->0.right
                is None && old(self).spec_count() < N as int ==> (r matches Ok(idx) && idx as int
                == old(self).spec_count() && final(self).spec_count() == old(self).spec_count() + 1
                && final(self).spec_root() == old(self).spec_root() && final(self).model() == old(self).model().update(
                old(self).spec_count(),
                Some(NodeModel { data, left: None, right: None }),
            ).update(
                parent as int,
                Some(
                    NodeModel {
                        data: old(self).model()[parent as int]->0.data,
                        left: old(self).model()[parent as int]->0.left,
                        right: Some(old(self).spec_count()),
                    },
                ),
            )),
    {
        if self.nodes[parent].is_none() {
            return Err("Invalid parent index");
        }
        let pnode = self.nodes[parent].unwrap();
        if pnode.right.is_some() {
            return Err("Right child already exists");
        }
        match self.insert_node(data, None, None) {
            Ok(idx) => {
                self.nodes[parent] = Some(
                    TreeNode { data: pnode.data, left: pnode.left, right: Some(idx) },
                );
                proof {
                    assert(self.model() =~= old(self).model().update(
                        old(self).spec_count(),
                        Some(NodeModel { data, left: None, right: None }),
                    ).update(
                        parent as int,
                        Some(
                            NodeModel {
                                data: old(self).model()[parent as int]->0.data,
                                left: old(self).model()[parent as int]->0.left,
                                right: Some(old(self).spec_count()),
                            },
                        ),
                    ));
                
                    let m1 = old(self).model();
                    let m2 = self.model();
                    let c = old(self).spec_count();
                    let p = parent as int;
                    assert forall|i: int, j: int, cc: int|
                        points_to(m2, i, cc) && points_to(m2, j, cc) implies i == j by {
                        if i != c && i != p {
                            assert(points_to(m1, i, cc));
                        }
                        if j != c && j != p {
                            assert(points_to(m1, j, cc));
                        }
                        if i == p && cc != c {
                            assert(points_to(m1, p, cc));
                        }
                        if j == p && cc != c {
                            assert(points_to(m1, p, cc));
                        }
                    };
                    assert forall|i: int, cc: int|
                        points_to(m2, i, cc) implies self.spec_root() != Some(cc) by {
                        if i != c && i != p {
                            assert(points_to(m1, i, cc));
                        }
                        if i == p && cc != c {
                            assert(points_to(m1, p, cc));
                        }
                    };
                }
                Ok(idx)
            },
            Err(e) => Err(e),
        }
    }

    /// Total number of nodes ever allocated (equals the live nodes, since
    /// nothing is ever deleted).
    pub fn node_count(&self) -> (r: usize)
        ensures
            r as int == self.spec_count(),
    {
        self.next_index
    }

    /// Get the root node index.
    pub fn root_index(&self) -> (r: Option<usize>)
        ensures
            opt_index(r) == self.spec_root(),
    {
        self.root
    }

    /// Borrow the payload of the node at `index`; `None` for an index that
    /// is out of range or unpopulated.
    pub fn get_data(&self, index: usize) -> (r: Option<&T>)
        requires
            self.wf(),
        ensures
            (index as int) < self.spec_count() ==> (r matches Some(v) && *v == self.model()[index as int]->0.data),
            (index as int) >= self.spec_count() ==> r is None,
    {
        if index >= self.nodes.len() {
            return None;
        }
        match &self.nodes[index] {
            Some(n) => Some(&n.data),
            None => None,
        }
    }

    /// Visit every node iteratively with an explicit stack, parent before
    /// children, left subtree before right, and collect the payloads in
    /// visit order.
    pub fn preorder(&self) -> (r: Vec<T>)
        requires
            self.wf(),
        ensures
            r@ == pre_seq(self.model(), self.spec_root()),
    {
        let ghost nodes = self.model();
        let ghost count = self.spec_count();
        let mut result: Vec<T> = Vec::new();
        let mut stack: Vec<usize> = Vec::new();

        if let Some(root_idx) = self.root {
            stack.push(root_idx);
        }
        proof {
            assert(pre_stack_seq(nodes, Seq::<usize>::empty()) == Seq::<T>::empty());
            if stack@.len() > 0 {
                assert(stack@.drop_last() =~= Seq::<usize>::empty());
            }
            assert(result@ + pre_stack_seq(nodes, stack@) =~= pre_seq(nodes, self.spec_root()));
        }

        while stack.len() > 0
            invariant
                self.wf(),
                nodes == self.model(),
                count == self.spec_count(),
                forall|j: int| 0 <= j < stack@.len() ==> (#[trigger] stack@[j] as int) < count,
                result@ + pre_stack_seq(nodes, stack@) == pre_seq(nodes, self.spec_root()),
            decreases pre_stack_seq(nodes, stack@).len(),
        {
            let ghost prev_stack = stack@;
            let ghost prev_result = result@;
            let idx = stack.pop().unwrap();
            let node = self.nodes[idx].unwrap();
            result.push(node.data);

            proof {
                assert(prev_stack.drop_last() =~= stack@);
                assert(node_ok(nodes, idx as int));
                assert(nodes[idx as int]->0.left == opt_index(node.left));
                assert(nodes[idx as int]->0.right == opt_index(node.right));
            }

            if let Some(right) = node.right {
                stack.push(right);
            }
            let ghost mid_stack = stack@;
            proof {
                if node.right is Some {
                    assert(mid_stack.drop_last() =~= prev_stack.drop_last());
                }
                assert(pre_stack_seq(nodes, mid_stack) == pre_seq(nodes, opt_index(node.right))
                    + pre_stack_seq(nodes, prev_stack.drop_last()));
            }

            if let Some(left) = node.left {
                stack.push(left);
            }
            proof {
                if node.left is Some {
                    assert(stack@.drop_last() =~= mid_stack);
                }
                assert(pre_stack_seq(nodes, stack@) == pre_seq(nodes, opt_index(node.left))
                    + pre_stack_seq(nodes, mid_stack));
                assert(result@ + pre_stack_seq(nodes, stack@) =~= prev_result + pre_stack_seq(
                    nodes,
                    prev_stack,
                ));
            }
        }
        result
    }

    /// Visit every node iteratively with an explicit stack, left subtree
    /// first, then the node, then its right subtree, and collect the
    /// payloads in visit order.
    pub fn inorder(&self) -> (r: Vec<T>)
        requires
            self.wf(),
        ensures
            r@ == in_seq(self.model(), self.spec_root()),
    {
        let ghost nodes = self.model();
        let ghost count = self.spec_count();
        let mut result: Vec<T> = Vec::new();
        let mut stack: Vec<usize> = Vec::new();
        let mut current: Option<usize> = self.root;

        proof {
            assert(result@ + in_seq(nodes, opt_index(current)) + in_stack_seq(nodes, stack@)
                =~= in_seq(nodes, self.spec_root()));
        }

        while current.is_some() || stack.len() > 0
            invariant
                self.wf(),
                nodes == self.model(),
                count == self.spec_count(),
                forall|j: int| 0 <= j < stack@.len() ==> (#[trigger] stack@[j] as int) < count,
                current matches Some(c) ==> (c as int) < count,
                result@ + in_seq(nodes, opt_index(current)) + in_stack_seq(nodes, stack@) == in_seq(
                    nodes,
                    self.spec_root(),
                ),
            decreases
                    in_seq(nodes, opt_index(current)).len() + in_stack_seq(nodes, stack@).len(),
                    opt_measure(nodes, opt_index(current)),
        {
            let ghost prev_stack = stack@;
            match current {
                Some(idx) => {
                    let node = self.nodes[idx].unwrap();
                    proof {
                        assert(node_ok(nodes, idx as int));
                        assert(nodes[idx as int]->0.left == opt_index(node.left));
                        assert(nodes[idx as int]->0.right == opt_index(node.right));
                    }
                    stack.push(idx);
                    current = node.left;
                    proof {
                        assert(stack@.drop_last() =~= prev_stack);
                        assert(result@ + in_seq(nodes, opt_index(current)) + in_stack_seq(
                            nodes,
                            stack@,
                        ) =~= result@ + in_seq(nodes, Some(idx as int)) + in_stack_seq(
                            nodes,
                            prev_stack,
                        ));
                    }
                },
                None => {
                    let ghost prev_result = result@;
                    let idx = stack.pop().unwrap();
                    let node = self.nodes[idx].unwrap();
                    result.push(node.data);
                    current = node.right;
                    proof {
                        assert(prev_stack.drop_last() =~= stack@);
                        assert(node_ok(nodes, idx as int));
                        assert(nodes[idx as int]->0.right == opt_index(node.right));
                        assert(result@ + in_seq(nodes, opt_index(current)) + in_stack_seq(
                            nodes,
                            stack@,
                        ) =~= prev_result + in_seq(nodes, Option::<int>::None) + in_stack_seq(
                            nodes,
                            prev_stack,
                        ));
                    }
                },
            }
        }
        result
    }

    /// Visit every node iteratively, left subtree first, then right
    /// subtree, then the node itself, and collect the payloads in visit
    /// order. The walk tracks the last visited node to tell a right subtree
    /// that is still unexplored apart from one that has just been finished.
    #[verifier::rlimit(100)]
    pub fn postorder(&self) -> (r: Vec<T>)
        requires
            self.wf(),
        ensures
            r@ == post_seq(self.model(), self.spec_root()),
    {
        let ghost nodes = self.model();
        let ghost count = self.spec_count();
        proof {
            lemma_wf_traversable(nodes, self.spec_root(), count);
        }
        let mut result: Vec<T> = Vec::new();
        let mut stack: Vec<usize> = Vec::new();
        let mut last_visited: Option<usize> = None;
        let mut current: Option<usize> = self.root;
        let ghost mut top_done: bool = false;

        proof {
            assert forall|c: int|
                post_frames(nodes, Seq::<usize>::empty(), c) == Seq::<T>::empty() by {};
            assert(result@ + post_remaining(nodes, stack@, opt_index(current), top_done)
                =~= post_seq(nodes, self.spec_root()));
        }

        while current.is_some() || stack.len() > 0
            invariant
                self.wf(),
                nodes == self.model(),
                count == self.spec_count(),
                arena_traversable(nodes),
                forall|j: int| 0 <= j < stack@.len() ==> (#[trigger] stack@[j] as int) < count,
                forall|j: int| 0 <= j < stack@.len() ==> j <= #[trigger] stack@[j] as int,
                forall|j: int|
                    0 <= j < stack@.len() - 1 ==> points_to(
                        nodes,
                        #[trigger] stack@[j] as int,
                        stack@[j + 1] as int,
                    ),
                current matches Some(cc) ==> (cc as int) < count && (stack@.len() > 0
                    ==> points_to(nodes, stack@.last() as int, cc as int)),
                last_visited matches Some(lv) ==> (lv as int) < count,
                result@ + post_remaining(nodes, stack@, opt_index(current), top_done) == post_seq(
                    nodes,
                    self.spec_root(),
                ),
                (match (current, last_visited) {
                    (Some(cc), Some(lv)) => !in_subtree(nodes, Some(cc as int), lv as int),
                    _ => true,
                }),
                current is None && stack@.len() > 0 ==> resolve_ok(
                    nodes,
                    stack@.last() as int,
                    top_done,
                    opt_index(last_visited),
                ),
            decreases
                    post_remaining(nodes, stack@, opt_index(current), top_done).len(),
                    N as int - stack@.len(),
                    (if current is None {
                        1int
                    } else {
                        0int
                    }),
        {
            let ghost prev_stack = stack@;
            let ghost prev_td = top_done;
            let ghost prev_result = result@;
            match current {
                Some(idx) => {
                    // descend: remember this node and go to its left child
                    let node = self.nodes[idx].unwrap();
                    proof {
                        assert(nodes[idx as int] is Some);
                        assert(node_ok(nodes, idx as int));
                        assert(nodes[idx as int]->0.left == opt_index(node.left));
                        assert(nodes[idx as int]->0.right == opt_index(node.right));
                        if stack@.len() > 0 {
                            assert(stack@[stack@.len() - 1] as int >= stack@.len() - 1);
                            assert(points_to(nodes, stack@.last() as int, idx as int));
                        }
                    }
                    stack.push(idx);
                    current = node.left;
                    proof {
                        if node.left is None {
                            top_done = false;
                        }
                        assert(stack@.drop_last() =~= prev_stack);
                        assert(stack@.last() == idx);
                        assert(post_seq(nodes, Some(idx as int)) == post_seq(
                            nodes,
                            opt_index(node.left),
                        ) + post_seq(nodes, opt_index(node.right)) + seq![
                            nodes[idx as int]->0.data,
                        ]);
                        match node.left {
                            Some(l) => {
                                assert(nodes[idx as int]->0.right != Some(l as int));
                                assert(post_frames(nodes, stack@, l as int) == post_frame(
                                    nodes,
                                    idx as int,
                                    l as int,
                                ) + post_frames(nodes, prev_stack, idx as int));
                            },
                            None => {
                                assert(post_frame_top(nodes, idx as int, false) == post_seq(
                                    nodes,
                                    opt_index(node.right),
                                ) + seq![nodes[idx as int]->0.data]);
                            },
                        }
                        assert(result@ + post_remaining(nodes, stack@, opt_index(current), top_done)
                            =~= prev_result + post_remaining(
                            nodes,
                            prev_stack,
                            Some(idx as int),
                            prev_td,
                        ));
                        match last_visited {
                            Some(lv) => {
                                assert(!in_subtree(nodes, Some(idx as int), lv as int));
                                assert(!in_subtree(nodes, nodes[idx as int]->0.left, lv as int));
                                assert(!in_subtree(nodes, nodes[idx as int]->0.right, lv as int));
                                match node.right {
                                    Some(rr) => {
                                        if lv == rr {
                                            assert(nodes[rr as int] is Some);
                                            assert(node_ok(nodes, rr as int));
                                            assert(in_subtree(nodes, Some(rr as int), rr as int));
                                            assert(false);
                                        }
                                    },
                                    None => {},
                                }
                            },
                            None => {},
                        }
                    }
                },
                None => {
                    // resolve the top of the stack: explore its right
                    // subtree unless that subtree was just finished
                    let idx = stack[stack.len() - 1];
                    let node = self.nodes[idx].unwrap();
                    proof {
                        assert(stack@.last() == idx);
                        assert(nodes[idx as int] is Some);
                        assert(node_ok(nodes, idx as int));
                        assert(nodes[idx as int]->0.left == opt_index(node.left));
                        assert(nodes[idx as int]->0.right == opt_index(node.right));
                        assert(stack@[stack@.len() - 1] as int >= stack@.len() - 1);
                    }
                    let right_pending = match (node.right, last_visited) {
                        (Some(rr), Some(lv)) => rr != lv,
                        (Some(_), None) => true,
                        (None, _) => false,
                    };
                    if right_pending {
                        current = node.right;
                        proof {
                            assert(!prev_td);
                            let rr = nodes[idx as int]->0.right->0;
                            assert(post_frame(nodes, idx as int, rr) == seq![
                                nodes[idx as int]->0.data,
                            ]);
                            assert(result@ + post_remaining(
                                nodes,
                                stack@,
                                opt_index(current),
                                top_done,
                            ) =~= prev_result + post_remaining(
                                nodes,
                                prev_stack,
                                Option::<int>::None,
                                prev_td,
                            ));
                        }
                    } else {
                        // both subtrees are done: visit the node and pop it
                        let popped = stack.pop().unwrap();
                        result.push(node.data);
                        last_visited = Some(popped);
                        proof {
                            assert(popped == idx);
                            assert(prev_stack.drop_last() =~= stack@);
                            assert(post_frame_top(nodes, idx as int, prev_td) == seq![
                                nodes[idx as int]->0.data,
                            ]);
                            if stack@.len() > 0 {
                                let t2 = stack@.last() as int;
                                top_done = nodes[t2]->0.right == Some(idx as int);
                                assert(points_to(nodes, t2, idx as int));
                                assert(t2 < count);
                                match nodes[t2]->0.right {
                                    Some(r2) => {
                                        if nodes[t2]->0.right != Some(idx as int) {
                                            assert(nodes[t2]->0.left == Some(idx as int));
                                            lemma_sibling_not_in_right(
                                                nodes,
                                                self.spec_root(),
                                                count,
                                                t2,
                                                idx as int,
                                                r2,
                                            );
                                        }
                                    },
                                    None => {},
                                }
                                assert(post_frame_top(nodes, t2, top_done) == post_frame(
                                    nodes,
                                    t2,
                                    idx as int,
                                ));
                            } else {
                                top_done = false;
                            }
                            assert(result@ + post_remaining(
                                nodes,
                                stack@,
                                opt_index(current),
                                top_done,
                            ) =~= prev_result + post_remaining(
                                nodes,
                                prev_stack,
                                Option::<int>::None,
                                prev_td,
                            ));
                        }
                    }
                },
            }
        }
        result
    }

    /// Calculate the maximum depth of the tree (recursive).
    pub fn depth(&self) -> (r: usize)
        requires
            self.wf(),
        ensures
            r as int == depth_of(self.model(), self.spec_root()),
    {
        self.depth_helper(self.root)
    }

    /// Recursive helper: depth of the subtree rooted at `node`.
    fn depth_helper(&self, node: Option<usize>) -> (r: usize)
        requires
            self.wf(),
            node matches Some(i) ==> (i as int) < self.spec_count(),
        ensures
            r as int == depth_of(self.model(), opt_index(node)),
        decreases opt_measure(self.model(), opt_index(node)),
    {
        match node {
            Some(idx) => {
                let node_ref = self.nodes[idx].unwrap();
                proof {
                    assert(node_ok(self.model(), idx as int));
                    assert(self.model()[idx as int]->0.left == opt_index(node_ref.left));
                    assert(self.model()[idx as int]->0.right == opt_index(node_ref.right));
                    lemma_wf_traversable(self.model(), self.spec_root(), self.spec_count());
                    lemma_depth_bounds(self.model(), opt_index(node_ref.left));
                    lemma_depth_bounds(self.model(), opt_index(node_ref.right));
                }
                let left_depth = self.depth_helper(node_ref.left);
                let right_depth = self.depth_helper(node_ref.right);
                if left_depth >= right_depth {
                    1 + left_depth
                } else {
                    1 + right_depth
                }
            },
            None => 0,
        }
    }

    /// Iteratively calculate the maximum depth of the tree by walking it
    /// level by level with two bounded buffers; agrees with `depth` on
    /// every tree.
    pub fn depth_iterative(&self) -> (r: usize)
        requires
            self.wf(),
        ensures
            r as int == depth_of(self.model(), self.spec_root()),
    {
        let ghost nodes = self.model();
        let ghost count = self.spec_count();
        if self.root.is_none() {
            return 0;
        }
        let root_idx = self.root.unwrap();
        let mut current_queue: Vec<usize> = Vec::new();
        current_queue.push(root_idx);
        let mut depth: usize = 0;
        proof {
            lemma_wf_traversable(nodes, self.spec_root(), count);
            lemma_depth_bounds(nodes, self.spec_root());
            assert(current_queue@.subrange(1, 1) =~= Seq::<usize>::empty());
            assert(level_max(nodes, Seq::<usize>::empty()) == 0);
            assert(level_max(nodes, current_queue@) == depth_of(nodes, self.spec_root()));
        }
        while current_queue.len() > 0
            invariant
                self.wf(),
                nodes == self.model(),
                count == self.spec_count(),
                arena_traversable(nodes),
                entries_populated(nodes, current_queue@),
                depth as int + level_max(nodes, current_queue@) == depth_of(
                    nodes,
                    self.spec_root(),
                ),
                depth_of(nodes, self.spec_root()) <= nodes.len(),
                depth as int <= depth_of(nodes, self.spec_root()),
            decreases level_max(nodes, current_queue@),
        {
            proof {
                let q0 = current_queue@[0] as int;
                assert(nodes[q0] is Some);
                lemma_depth_bounds(nodes, nodes[q0]->0.left);
                lemma_depth_bounds(nodes, nodes[q0]->0.right);
                assert(depth_of(nodes, Some(q0)) >= 1);
                assert(level_max(nodes, current_queue@) >= 1);
            }
            let ghost prev_level = level_max(nodes, current_queue@);
            depth = depth + 1;
            let mut next_queue: Vec<usize> = Vec::new();
            let mut i: usize = 0;
            proof {
                assert(current_queue@.subrange(0, 0) =~= Seq::<usize>::empty());
            }
            while i < current_queue.len()
                invariant
                    self.wf(),
                    nodes == self.model(),
                    arena_traversable(nodes),
                    entries_populated(nodes, current_queue@),
                    entries_populated(nodes, next_queue@),
                    i <= current_queue@.len(),
                    level_max(nodes, next_queue@) == (if level_max(
                        nodes,
                        current_queue@.subrange(0, i as int),
                    ) >= 1 {
                        level_max(nodes, current_queue@.subrange(0, i as int)) - 1
                    } else {
                        0
                    }),
                decreases current_queue@.len() - i,
            {
                let idx = current_queue[i];
                let node = self.nodes[idx].unwrap();
                proof {
                    assert(nodes[idx as int] is Some);
                    assert(nodes[idx as int]->0.left == opt_index(node.left));
                    assert(nodes[idx as int]->0.right == opt_index(node.right));
                    lemma_depth_bounds(nodes, opt_index(node.left));
                    lemma_depth_bounds(nodes, opt_index(node.right));
                    lemma_level_max_nonneg(nodes, next_queue@);
                    lemma_level_max_nonneg(nodes, current_queue@.subrange(0, i as int));
                }
                if let Some(l) = node.left {
                    proof {
                        lemma_level_max_push(nodes, next_queue@, l);
                    }
                    next_queue.push(l);
                }
                if let Some(rr) = node.right {
                    proof {
                        lemma_level_max_push(nodes, next_queue@, rr);
                    }
                    next_queue.push(rr);
                }
                i = i + 1;
                proof {
                    assert(current_queue@.subrange(0, i as int) =~= current_queue@.subrange(
                        0,
                        i as int - 1,
                    ).push(current_queue@[i as int - 1]));
                    lemma_level_max_push(
                        nodes,
                        current_queue@.subrange(0, i as int - 1),
                        current_queue@[i as int - 1],
                    );
                    assert(depth_of(nodes, Some(idx as int)) == 1 + int_max(
                        depth_of(nodes, opt_index(node.left)),
                        depth_of(nodes, opt_index(node.right)),
                    ));
                }
            }
            proof {
                assert(current_queue@.subrange(0, current_queue@.len() as int) =~= current_queue@);
            }
            current_queue = next_queue;
        }
        depth
    }
}

/// A node slot that a traversal may enter: populated, with both child
/// references inside the arena and pointing past the node itself.
pub open spec fn node_ok<T>(nodes: Seq<Option<NodeModel<T>>>, i: int) -> bool {
    &&& 0 <= i < nodes.len()
    &&& nodes[i] is Some
    &&& child_ok(nodes.len() as int, nodes[i]->0.left, i)
    &&& child_ok(nodes.len() as int, nodes[i]->0.right, i)
}

/// Termination measure for walking down from slot `o`: children always have
/// larger indices, so the distance to the end of the arena shrinks.
pub open spec fn opt_measure<T>(nodes: Seq<Option<NodeModel<T>>>, o: Option<int>) -> int {
    match o {
        Some(i) => nodes.len() - i,
        None => 0,
    }
}

/// Preorder of the subtree rooted at `o`: node, then left subtree, then
/// right subtree.
pub open spec fn pre_seq<T>(nodes: Seq<Option<NodeModel<T>>>, o: Option<int>) -> Seq<T>
    decreases opt_measure(nodes, o),
        when (match o {
            Some(i) => node_ok(nodes, i),
            None => true,
        })
{
    match o {
        None => Seq::empty(),
        Some(i) => {
            let n = nodes[i]->0;
            seq![n.data] + pre_seq(nodes, n.left) + pre_seq(nodes, n.right)
        },
    }
}

/// Inorder of the subtree rooted at `o`: left subtree, then node, then
/// right subtree.
pub open spec fn in_seq<T>(nodes: Seq<Option<NodeModel<T>>>, o: Option<int>) -> Seq<T>
    decreases opt_measure(nodes, o),
        when (match o {
            Some(i) => node_ok(nodes, i),
            None => true,
        })
{
    match o {
        None => Seq::empty(),
        Some(i) => {
            let n = nodes[i]->0;
            in_seq(nodes, n.left) + seq![n.data] + in_seq(nodes, n.right)
        },
    }
}

/// Postorder of the subtree rooted at `o`: left subtree, then right
/// subtree, then the node.
pub open spec fn post_seq<T>(nodes: Seq<Option<NodeModel<T>>>, o: Option<int>) -> Seq<T>
    decreases opt_measure(nodes, o),
        when (match o {
            Some(i) => node_ok(nodes, i),
            None => true,
        })
{
    match o {
        None => Seq::empty(),
        Some(i) => {
            let n = nodes[i]->0;
            post_seq(nodes, n.left) + post_seq(nodes, n.right) + seq![n.data]
        },
    }
}

/// Depth of the subtree rooted at `o`: longest root-to-leaf path counted in
/// nodes (0 for an empty subtree).
pub open spec fn depth_of<T>(nodes: Seq<Option<NodeModel<T>>>, o: Option<int>) -> int
    decreases opt_measure(nodes, o),
        when (match o {
            Some(i) => node_ok(nodes, i),
            None => true,
        })
{
    match o {
        None => 0,
        Some(i) => {
            let n = nodes[i]->0;
            let dl = depth_of(nodes, n.left);
            let dr = depth_of(nodes, n.right);
            if dl >= dr {
                1 + dl
            } else {
                1 + dr
            }
        },
    }
}

/// Every populated slot of the arena can be traversed: its children lie
/// inside the arena, past the node itself, and are populated too.
pub open spec fn arena_traversable<T>(nodes: Seq<Option<NodeModel<T>>>) -> bool {
    forall|i: int|
        0 <= i < nodes.len() && (#[trigger] nodes[i]) is Some ==> node_ok(nodes, i) && (
        nodes[i]->0.left matches Some(l) ==> nodes[l] is Some) && (
        nodes[i]->0.right matches Some(r) ==> nodes[r] is Some)
}

/// A well-formed tree arena is traversable.
pub proof fn lemma_wf_traversable<T>(
    nodes: Seq<Option<NodeModel<T>>>,
    root: Option<int>,
    count: int,
)
    requires
        tree_wf(nodes, root, count),
    ensures
        arena_traversable(nodes),
{
    assert forall|i: int| 0 <= i < nodes.len() && (#[trigger] nodes[i]) is Some implies node_ok(
        nodes,
        i,
    ) && (nodes[i]->0.left matches Some(l) ==> nodes[l] is Some) && (
    nodes[i]->0.right matches Some(r) ==> nodes[r] is Some) by {
        assert(i < count);
    };
}

/// The depth of a subtree is non-negative and bounded by the number of
/// slots between its root and the end of the arena.
pub proof fn lemma_depth_bounds<T>(nodes: Seq<Option<NodeModel<T>>>, o: Option<int>)
    requires
        arena_traversable(nodes),
        o matches Some(i) ==> 0 <= i < nodes.len() && nodes[i] is Some,
    ensures
        0 <= depth_of(nodes, o) <= opt_measure(nodes, o),
    decreases opt_measure(nodes, o),
{
    match o {
        None => {},
        Some(i) => {
            let n = nodes[i]->0;
            lemma_depth_bounds(nodes, n.left);
            lemma_depth_bounds(nodes, n.right);
        },
    }
}

/// The larger of two integers.
pub open spec fn int_max(a: int, b: int) -> int {
    if a >= b {
        a
    } else {
        b
    }
}

/// Every entry of a level-order buffer is a populated arena slot.
pub open spec fn entries_populated<T>(nodes: Seq<Option<NodeModel<T>>>, q: Seq<usize>) -> bool {
    forall|j: int| 0 <= j < q.len() ==> (#[trigger] q[j] as int) < nodes.len() && nodes[q[j] as int] is Some
}

/// The largest subtree depth among the entries of a level-order buffer
/// (0 for an empty buffer).
pub open spec fn level_max<T>(nodes: Seq<Option<NodeModel<T>>>, q: Seq<usize>) -> int
    decreases q.len(),
{
    if q.len() == 0 {
        0
    } else {
        int_max(
            depth_of(nodes, Some(q[0] as int)),
            level_max(nodes, q.subrange(1, q.len() as int)),
        )
    }
}

/// The largest subtree depth over a buffer is never negative.
pub proof fn lemma_level_max_nonneg<T>(nodes: Seq<Option<NodeModel<T>>>, q: Seq<usize>)
    requires
        arena_traversable(nodes),
        entries_populated(nodes, q),
    ensures
        level_max(nodes, q) >= 0,
    decreases q.len(),
{
    if q.len() > 0 {
        lemma_depth_bounds(nodes, Some(q[0] as int));
        assert(entries_populated(nodes, q.subrange(1, q.len() as int)));
        lemma_level_max_nonneg(nodes, q.subrange(1, q.len() as int));
    }
}

/// Appending an entry to a buffer raises its largest subtree depth to the
/// larger of the old bound and the entry's own depth.
pub proof fn lemma_level_max_push<T>(nodes: Seq<Option<NodeModel<T>>>, q: Seq<usize>, x: usize)
    requires
        arena_traversable(nodes),
        entries_populated(nodes, q),
        (x as int) < nodes.len(),
        nodes[x as int] is Some,
    ensures
        level_max(nodes, q.push(x)) == int_max(
            level_max(nodes, q),
            depth_of(nodes, Some(x as int)),
        ),
    decreases q.len(),
{
    if q.len() == 0 {
        assert(q.push(x)[0] == x);
        assert(q.push(x).subrange(1, 1) =~= Seq::<usize>::empty());
        assert(level_max(nodes, Seq::<usize>::empty()) == 0);
        lemma_depth_bounds(nodes, Some(x as int));
    } else {
        assert(q.push(x).subrange(1, q.push(x).len() as int) =~= q.subrange(
            1,
            q.len() as int,
        ).push(x));
        assert(entries_populated(nodes, q.subrange(1, q.len() as int)));
        lemma_level_max_push(nodes, q.subrange(1, q.len() as int), x);
    }
}

/// Concatenated preorders of the subtrees on an explicit traversal stack,
/// topmost entry first.
pub open spec fn pre_stack_seq<T>(nodes: Seq<Option<NodeModel<T>>>, stack: Seq<usize>) -> Seq<T>
    decreases stack.len(),
{
    if stack.len() == 0 {
        Seq::empty()
    } else {
        pre_seq(nodes, Some(stack.last() as int)) + pre_stack_seq(nodes, stack.drop_last())
    }
}

/// Remaining work recorded on an explicit inorder stack, topmost entry
/// first: each entry still owes its own payload and its right subtree.
pub open spec fn in_stack_seq<T>(nodes: Seq<Option<NodeModel<T>>>, stack: Seq<usize>) -> Seq<T>
    decreases stack.len(),
{
    if stack.len() == 0 {
        Seq::empty()
    } else {
        seq![nodes[stack.last() as int]->0.data] + in_seq(
            nodes,
            nodes[stack.last() as int]->0.right,
        ) + in_stack_seq(nodes, stack.drop_last())
    }
}

/// Whether slot `x` lies in the subtree rooted at `o` (including its root).
pub open spec fn in_subtree<T>(nodes: Seq<Option<NodeModel<T>>>, o: Option<int>, x: int) -> bool
    decreases opt_measure(nodes, o),
        when (match o {
            Some(i) => node_ok(nodes, i),
            None => true,
        })
{
    match o {
        None => false,
        Some(i) => {
            let n = nodes[i]->0;
            x == i || in_subtree(nodes, n.left, x) || in_subtree(nodes, n.right, x)
        },
    }
}

/// A subtree member lies between the subtree's root and the end of the
/// arena, and its slot is populated.
pub proof fn lemma_subtree_member<T>(nodes: Seq<Option<NodeModel<T>>>, i: int, x: int)
    requires
        arena_traversable(nodes),
        0 <= i < nodes.len(),
        nodes[i] is Some,
        in_subtree(nodes, Some(i), x),
    ensures
        i <= x < nodes.len(),
        nodes[x] is Some,
    decreases nodes.len() - i,
{
    assert(node_ok(nodes, i));
    let n = nodes[i]->0;
    if x == i {
    } else if in_subtree(nodes, n.left, x) {
        assert(n.left is Some);
        let l = n.left->0;
        assert(nodes[l] is Some);
        lemma_subtree_member(nodes, l, x);
    } else {
        assert(in_subtree(nodes, n.right, x));
        assert(n.right is Some);
        let r = n.right->0;
        assert(nodes[r] is Some);
        lemma_subtree_member(nodes, r, x);
    }
}

/// A strict subtree member is referenced as a child by some node of the
/// same subtree.
pub proof fn lemma_member_has_parent<T>(nodes: Seq<Option<NodeModel<T>>>, i: int, x: int)
    requires
        arena_traversable(nodes),
        0 <= i < nodes.len(),
        nodes[i] is Some,
        in_subtree(nodes, Some(i), x),
        x != i,
    ensures
        exists|y: int| #[trigger] points_to(nodes, y, x) && in_subtree(nodes, Some(i), y),
    decreases nodes.len() - i,
{
    assert(node_ok(nodes, i));
    let n = nodes[i]->0;
    if in_subtree(nodes, n.left, x) {
        assert(n.left is Some);
        let l = n.left->0;
        assert(nodes[l] is Some);
        if x == l {
            assert(points_to(nodes, i, x) && in_subtree(nodes, Some(i), i));
        } else {
            lemma_member_has_parent(nodes, l, x);
            let y = choose|y: int| #[trigger] points_to(nodes, y, x) && in_subtree(
                nodes,
                Some(l),
                y,
            );
            assert(points_to(nodes, y, x) && in_subtree(nodes, Some(i), y));
        }
    } else {
        assert(in_subtree(nodes, n.right, x));
        assert(n.right is Some);
        let r = n.right->0;
        assert(nodes[r] is Some);
        if x == r {
            assert(points_to(nodes, i, x) && in_subtree(nodes, Some(i), i));
        } else {
            lemma_member_has_parent(nodes, r, x);
            let y = choose|y: int| #[trigger] points_to(nodes, y, x) && in_subtree(
                nodes,
                Some(r),
                y,
            );
            assert(points_to(nodes, y, x) && in_subtree(nodes, Some(i), y));
        }
    }
}

/// A left child never appears inside its sibling's (the right child's)
/// subtree: every node has at most one parent.
pub proof fn lemma_sibling_not_in_right<T>(
    nodes: Seq<Option<NodeModel<T>>>,
    root: Option<int>,
    count: int,
    p: int,
    t: int,
    rr: int,
)
    requires
        tree_wf(nodes, root, count),
        0 <= p < count,
        nodes[p]->0.left == Some(t),
        nodes[p]->0.right == Some(rr),
    ensures
        !in_subtree(nodes, Some(rr), t),
{
    lemma_wf_traversable(nodes, root, count);
    assert(nodes[p] is Some);
    assert(t != rr);
    if in_subtree(nodes, Some(rr), t) {
        lemma_member_has_parent(nodes, rr, t);
        let y = choose|y: int| #[trigger] points_to(nodes, y, t) && in_subtree(nodes, Some(rr), y);
        lemma_subtree_member(nodes, rr, y);
        assert(points_to(nodes, p, t));
        assert(y == p);
        assert(rr <= p);
        assert(p < rr);
        assert(false);
    }
}

/// Remaining postorder output owed by one ancestor `t` on the traversal
/// stack, given that control is currently inside the subtree of its child
/// `child`: if that child is the left one, the right subtree and the node
/// itself are still owed; if it is the right one, only the node itself.
pub open spec fn post_frame<T>(nodes: Seq<Option<NodeModel<T>>>, t: int, child: int) -> Seq<T> {
    match nodes[t]->0.right {
        Some(r) => if r != child {
            post_seq(nodes, Some(r)) + seq![nodes[t]->0.data]
        } else {
            seq![nodes[t]->0.data]
        },
        None => seq![nodes[t]->0.data],
    }
}

/// Remaining postorder output owed by a whole ancestor stack, topmost entry
/// first; `child` is the node whose subtree control currently sits in.
pub open spec fn post_frames<T>(nodes: Seq<Option<NodeModel<T>>>, stack: Seq<usize>, child: int) -> Seq<T>
    decreases stack.len(),
{
    if stack.len() == 0 {
        Seq::empty()
    } else {
        post_frame(nodes, stack.last() as int, child) + post_frames(
            nodes,
            stack.drop_last(),
            stack.last() as int,
        )
    }
}

/// Remaining postorder output owed by the top of the stack while no descent
/// is in progress; `top_done` records whether its right subtree has already
/// been emitted.
pub open spec fn post_frame_top<T>(nodes: Seq<Option<NodeModel<T>>>, t: int, top_done: bool) -> Seq<T> {
    match nodes[t]->0.right {
        Some(r) => if !top_done {
            post_seq(nodes, Some(r)) + seq![nodes[t]->0.data]
        } else {
            seq![nodes[t]->0.data]
        },
        None => seq![nodes[t]->0.data],
    }
}

/// Everything the iterative postorder walk still has to emit, given its
/// stack, the subtree it is currently descending into (if any), and whether
/// the top entry's right subtree is already done.
pub open spec fn post_remaining<T>(
    nodes: Seq<Option<NodeModel<T>>>,
    stack: Seq<usize>,
    cur: Option<int>,
    top_done: bool,
) -> Seq<T> {
    match cur {
        Some(cc) => post_seq(nodes, Some(cc)) + post_frames(nodes, stack, cc),
        None => if stack.len() == 0 {
            Seq::empty()
        } else {
            post_frame_top(nodes, stack.last() as int, top_done) + post_frames(
                nodes,
                stack.drop_last(),
                stack.last() as int,
            )
        },
    }
}

/// The bookkeeping that ties `last_visited` to the decision the walk makes
/// at the top of the stack: the right subtree counts as done exactly when
/// its root was the last node visited, and while it is pending the last
/// visited node lies outside it.
pub open spec fn resolve_ok<T>(
    nodes: Seq<Option<NodeModel<T>>>,
    t: int,
    top_done: bool,
    lv: Option<int>,
) -> bool {
    match nodes[t]->0.right {
        Some(r) => (top_done <==> lv == Some(r)) && (!top_done ==> (match lv {
            Some(l) => !in_subtree(nodes, Some(r), l),
            None => true,
        })),
        None => true,
    }
}

} // verus!
