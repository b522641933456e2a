//! The folder tree of a file system image, kept in an `indextree` arena.
use vstd::prelude::*;

verus! {

/// An `indextree` arena that is only grown by appending children, together
/// with the ids of its nodes in the order they were created. Each node's
/// data is a number chosen by the caller.
#[verifier::external_body]
pub struct Tree {
    arena: indextree::Arena<usize>,
    ids: Vec<indextree::NodeId>,
}

/// The nodes of `t` in creation order: each node's data and the position of
/// its parent, `None` for the root.
pub uninterp spec fn tree_nodes(t: Tree) -> Seq<(usize, Option<usize>)>;

/// Whether every node's parent was created before it.
pub open spec fn parents_first(nodes: Seq<(usize, Option<usize>)>) -> bool {
    forall|k: int|
        0 <= k < nodes.len() ==> match #[trigger] nodes[k].1 {
            Some(p) => p < k,
            None => true,
        }
}

/// Whether `k` is a child of `p`.
pub open spec fn is_child_of(nodes: Seq<(usize, Option<usize>)>, k: int, p: int) -> bool {
    nodes[k].1 == Some(p as usize)
}

/// The child of the parent of `pos` that was appended just before `pos`.
pub open spec fn previous_sibling(nodes: Seq<(usize, Option<usize>)>, pos: int) -> Option<int> {
    match nodes[pos].1 {
        None => None,
        Some(p) => if exists|k: int| 0 <= k < pos && #[trigger] is_child_of(nodes, k, p as int) {
            Some(
                choose|k: int|
                    0 <= k < pos && is_child_of(nodes, k, p as int) && forall|j: int|
                        k < j < pos ==> !#[trigger] is_child_of(nodes, j, p as int),
            )
        } else {
            None
        },
    }
}

/// The subtree of `r` in depth-first pre-order: `r`, then the subtrees of its
/// children in the order they were appended.
pub open spec fn preorder(nodes: Seq<(usize, Option<usize>)>, r: int) -> Seq<int>
    decreases nodes.len() - r, 0int,
{
    seq![r] + if r + 1 <= nodes.len() {
        preorder_children(nodes, r, r + 1)
    } else {
        Seq::empty()
    }
}

/// The subtrees of the children of `r` that were created at position `k` or later.
pub open spec fn preorder_children(nodes: Seq<(usize, Option<usize>)>, r: int, k: int) -> Seq<int>
    decreases nodes.len() - k, 1int,
{
    if k >= nodes.len() || k < 0 {
        Seq::empty()
    } else {
        (if is_child_of(nodes, k, r) {
            preorder(nodes, k)
        } else {
            Seq::empty()
        }) + preorder_children(nodes, r, k + 1)
    }
}

/// The data of the nodes at `positions`.
pub open spec fn data_at(nodes: Seq<(usize, Option<usize>)>, positions: Seq<int>) -> Seq<usize> {
    positions.map_values(|k: int| nodes[k].0)
}

impl Tree {
    /// A tree of one node, the root, holding `value`
    /// (`indextree::Arena::new` and `Arena::new_node`).
    #[verifier::external_body]
    pub(crate) fn new(value: usize) -> (t: Tree)
        ensures
            tree_nodes(t) == seq![(value, None::<usize>)],
    {
        let mut arena = indextree::Arena::new();
        let id = arena.new_node(value);
        Tree { arena, ids: vec![id] }
    }

    /// Appends a node holding `value` as the last child of the node at
    /// position `parent` (`indextree::NodeId::append_value`), and returns
    /// its position.
    #[verifier::external_body]
    pub(crate) fn append(&mut self, parent: usize, value: usize) -> (pos: usize)
        requires
            parent < tree_nodes(*old(self)).len(),
            tree_nodes(*old(self)).len() + 1 < usize::MAX,
        ensures
            pos == tree_nodes(*old(self)).len(),
            tree_nodes(*final(self)) == tree_nodes(*old(self)).push((value, Some(parent))),
    {
        let id = self.ids[parent].append_value(value, &mut self.arena);
        let pos = self.ids.len();
        self.ids.push(id);
        pos
    }

    /// The data of the parent of the node at `pos` (`indextree::NodeId::parent`).
    #[verifier::external_body]
    pub(crate) fn parent_value(&self, pos: usize) -> (r: Option<usize>)
        requires
            pos < tree_nodes(*self).len(),
            parents_first(tree_nodes(*self)),
        ensures
            r == match tree_nodes(*self)[pos as int].1 {
                Some(p) => Some(tree_nodes(*self)[p as int].0),
                None => None,
            },
    {
        self.ids[pos].parent(&self.arena).map(|p| *self.arena[p].get())
    }

    /// The data of the sibling just before the node at `pos`
    /// (`indextree::NodeId::preceding_siblings`, whose first item is the node
    /// itself, then `nth(1)`).
    #[verifier::external_body]
    pub(crate) fn previous_sibling_value(&self, pos: usize) -> (r: Option<usize>)
        requires
            pos < tree_nodes(*self).len(),
            parents_first(tree_nodes(*self)),
        ensures
            r == match previous_sibling(tree_nodes(*self), pos as int) {
                Some(k) => Some(tree_nodes(*self)[k].0),
                None => None,
            },
    {
        self.ids[pos].preceding_siblings(&self.arena).nth(1).map(|s| *self.arena[s].get())
    }

    /// The data of the subtree of the node at `pos` in depth-first
    /// pre-order (`indextree::NodeId::descendants`, which starts with the
    /// node itself).
    #[verifier::external_body]
    pub(crate) fn descendant_values(&self, pos: usize) -> (r: Vec<usize>)
        requires
            pos < tree_nodes(*self).len(),
            parents_first(tree_nodes(*self)),
        ensures
            r@ == data_at(tree_nodes(*self), preorder(tree_nodes(*self), pos as int)),
    {
        self.ids[pos].descendants(&self.arena).map(|d| *self.arena[d].get()).collect()
    }
}

} // verus!
