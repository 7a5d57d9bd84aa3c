//! The nodes of the reconstructed subvolume tree.

use vstd::prelude::*;

use crate::path::{copy_text, text};

verus! {

/// One subvolume in the tree, with the subvolumes directly below it.
#[derive(Debug, PartialEq, Eq)]
pub struct Node {
    /// The id of the subvolume.
    pub id: u64,
    /// The UUID of the subvolume.
    pub unique_id: [u8; 16],
    /// The path below the parent; `None` for the root and for a subvolume
    /// whose path could not be resolved.
    pub relative_path: Option<String>,
    /// Where the subvolume is mounted, if it is.
    pub mountpoint: Option<String>,
    /// The subvolumes directly below, ascending by id.
    pub children: Vec<Node>,
}

/// A tree of subvolumes as a mathematical value.
pub ghost struct NodeView {
    pub id: u64,
    pub unique_id: Seq<u8>,
    pub relative_path: Option<Seq<char>>,
    pub mountpoint: Option<Seq<char>>,
    pub children: Seq<NodeView>,
}

/// The trees of a list of nodes, in its order.
pub open spec fn forest_of(nodes: Seq<Node>) -> Seq<NodeView>
    decreases nodes, 0int,
{
    if nodes.len() == 0 {
        Seq::empty()
    } else {
        forest_of(nodes.drop_last()).push(tree_of(nodes.last()))
    }
}

/// The tree of a node: its own fields as plain values over the trees of
/// its children.
pub open spec fn tree_of(node: Node) -> NodeView
    decreases node, 1int,
{
    NodeView {
        id: node.id,
        unique_id: node.unique_id@,
        relative_path: text(node.relative_path),
        mountpoint: text(node.mountpoint),
        children: forest_of(node.children@),
    }
}

impl View for Node {
    type V = NodeView;

    open spec fn view(&self) -> NodeView {
        tree_of(*self)
    }
}

/// The number of nodes of a tree.
pub open spec fn node_count(t: NodeView) -> nat
    decreases t, 1int,
{
    1 + forest_count(t.children)
}

/// The number of nodes of a list of trees.
pub open spec fn forest_count(trees: Seq<NodeView>) -> nat
    decreases trees, 0int,
{
    if trees.len() == 0 {
        0
    } else {
        forest_count(trees.drop_last()) + node_count(trees.last())
    }
}

/// The trees that a list of nodes stands for.
pub open spec fn node_views(nodes: Seq<Node>) -> Seq<NodeView> {
    Seq::new(nodes.len(), |i: int| nodes[i]@)
}

/// The ids of a list of trees.
pub open spec fn ids(nodes: Seq<NodeView>) -> Seq<u64> {
    Seq::new(nodes.len(), |i: int| nodes[i].id)
}

/// Where a node with id `id` goes among siblings with the ids `siblings`:
/// behind the leading run of those whose id is not greater.
pub open spec fn slot_for(siblings: Seq<u64>, id: u64) -> int
    decreases siblings.len(),
{
    if siblings.len() > 0 && siblings[0] <= id {
        1 + slot_for(siblings.drop_first(), id)
    } else {
        0
    }
}

/// Whether ids never descend along the list.
pub open spec fn ascending(ids: Seq<u64>) -> bool {
    forall|a: int, b: int| 0 <= a < b < ids.len() ==> ids[a] <= ids[b]
}

/// Whether ids rise strictly along the list.
pub open spec fn strictly_ascending(ids: Seq<u64>) -> bool {
    forall|a: int, b: int| 0 <= a < b < ids.len() ==> ids[a] < ids[b]
}

/// `forest_of` takes the tree of each node.
pub proof fn lemma_forest(nodes: Seq<Node>)
    ensures
        forest_of(nodes) == node_views(nodes),
    decreases nodes.len(),
{
    if nodes.len() > 0 {
        lemma_forest(nodes.drop_last());
    }
    assert(forest_of(nodes) =~= node_views(nodes));
}

/// The tree of a node, field by field.
pub proof fn lemma_view_fields(node: Node)
    ensures
        node@.id == node.id,
        node@.unique_id == node.unique_id@,
        node@.relative_path == text(node.relative_path),
        node@.mountpoint == text(node.mountpoint),
        node@.children == node_views(node.children@),
{
    lemma_forest(node.children@);
}

/// A tree put into a list adds its nodes to those of the list.
pub proof fn lemma_forest_count_insert(trees: Seq<NodeView>, at: int, tree: NodeView)
    requires
        0 <= at <= trees.len(),
    ensures
        forest_count(trees.insert(at, tree)) == forest_count(trees) + node_count(tree),
    decreases trees.len() - at,
{
    let grown = trees.insert(at, tree);
    if at == trees.len() {
        assert(grown.drop_last() =~= trees);
        assert(grown.last() == tree);
    } else {
        lemma_forest_count_insert(trees.drop_last(), at, tree);
        assert(grown.drop_last() =~= trees.drop_last().insert(at, tree));
        assert(grown.last() == trees.last());
    }
}

/// A tree that takes the place of another in a list changes the number of
/// nodes by the difference of the two.
pub proof fn lemma_forest_count_update(trees: Seq<NodeView>, at: int, tree: NodeView)
    requires
        0 <= at < trees.len(),
    ensures
        forest_count(trees.update(at, tree)) + node_count(trees[at]) == forest_count(trees)
            + node_count(tree),
    decreases trees.len(),
{
    let changed = trees.update(at, tree);
    if at == trees.len() - 1 {
        assert(changed.drop_last() =~= trees.drop_last());
    } else {
        lemma_forest_count_update(trees.drop_last(), at, tree);
        assert(changed.drop_last() =~= trees.drop_last().update(at, tree));
    }
}

/// `slot_for` is the first position that the leading run of not greater ids
/// does not reach.
pub proof fn lemma_slot_for(siblings: Seq<u64>, id: u64, slot: int)
    requires
        0 <= slot <= siblings.len(),
        forall|b: int| 0 <= b < slot ==> siblings[b] <= id,
        slot < siblings.len() ==> siblings[slot] > id,
    ensures
        slot_for(siblings, id) == slot,
    decreases slot,
{
    if slot > 0 {
        let rest = siblings.drop_first();
        assert forall|b: int| 0 <= b < slot - 1 implies rest[b] <= id by {
            assert(rest[b] == siblings[b + 1]);
        }
        lemma_slot_for(rest, id, slot - 1);
    }
}

/// `slot_for` lies within the list, with no greater id before it; where the
/// list ascends, every id from it on is greater.
pub proof fn lemma_slot_for_bounds(siblings: Seq<u64>, id: u64)
    ensures
        0 <= slot_for(siblings, id) <= siblings.len(),
        forall|b: int| 0 <= b < slot_for(siblings, id) ==> siblings[b] <= id,
        ascending(siblings) ==> forall|b: int|
            slot_for(siblings, id) <= b < siblings.len() ==> siblings[b] > id,
    decreases siblings.len(),
{
    if siblings.len() > 0 && siblings[0] <= id {
        let rest = siblings.drop_first();
        lemma_slot_for_bounds(rest, id);
        assert forall|b: int| 0 <= b < slot_for(siblings, id) implies siblings[b] <= id by {
            if b > 0 {
                assert(siblings[b] == rest[b - 1]);
            }
        }
        if ascending(siblings) {
            assert forall|a: int, b: int| 0 <= a < b < rest.len() implies rest[a] <= rest[b] by {
                assert(rest[a] == siblings[a + 1] && rest[b] == siblings[b + 1]);
            }
            assert forall|b: int| slot_for(siblings, id) <= b < siblings.len() implies siblings[b]
                > id by {
                assert(siblings[b] == rest[b - 1]);
            }
        }
    } else if ascending(siblings) {
        assert forall|b: int| 0 <= b < siblings.len() implies siblings[b] > id by {
            assert(siblings[0] <= siblings[b]);
        }
    }
}

/// An id put at its slot leaves ids that never descend in that order.
pub proof fn lemma_slot_keeps_ascending(siblings: Seq<u64>, id: u64)
    requires
        ascending(siblings),
    ensures
        ascending(siblings.insert(slot_for(siblings, id), id)),
{
    let slot = slot_for(siblings, id);
    lemma_slot_for_bounds(siblings, id);
    siblings.insert_ensures(slot, id);
    let grown = siblings.insert(slot, id);
    assert forall|a: int, b: int| 0 <= a < b < grown.len() implies grown[a] <= grown[b] by {
        if a > slot {
            assert(grown[(a - 1) + 1] == siblings[a - 1]);
        }
        if b > slot {
            assert(grown[(b - 1) + 1] == siblings[b - 1]);
        }
    }
}

impl Clone for Node {
    /// A copy of the node and of everything below it.
    fn clone(&self) -> (copy: Node)
        ensures
            copy@ == self@,
        decreases self,
    {
        let mut children: Vec<Node> = Vec::new();
        let mut i: usize = 0;
        while i < self.children.len()
            invariant
                i <= self.children.len(),
                children.len() == i,
                forall|k: int| 0 <= k < i ==> children[k]@ == self.children[k]@,
            decreases self.children.len() - i,
        {
            children.push(self.children[i].clone());
            i += 1;
        }
        let copy = Node {
            id: self.id,
            unique_id: self.unique_id,
            relative_path: copy_text(&self.relative_path),
            mountpoint: copy_text(&self.mountpoint),
            children,
        };
        proof {
            lemma_view_fields(copy);
            lemma_view_fields(*self);
            assert(node_views(copy.children@) =~= node_views(self.children@));
        }
        copy
    }
}

impl Node {
    /// A node without children.
    pub fn leaf(
        id: u64,
        unique_id: [u8; 16],
        relative_path: Option<String>,
        mountpoint: Option<String>,
    ) -> (node: Node)
        ensures
            node@ == (NodeView {
                id,
                unique_id: unique_id@,
                relative_path: text(relative_path),
                mountpoint: text(mountpoint),
                children: Seq::empty(),
            }),
    {
        let node = Node { id, unique_id, relative_path, mountpoint, children: Vec::new() };
        proof {
            lemma_view_fields(node);
            assert(node@.children =~= Seq::empty());
        }
        node
    }

    /// Puts `child` among the children, behind those whose id is not
    /// greater, so that children that ascend by id still do.
    pub fn insert_child(&mut self, child: Node)
        ensures
            final(self)@ == (NodeView {
                children: old(self)@.children.insert(
                    slot_for(ids(old(self)@.children), child.id),
                    child@,
                ),
                ..old(self)@
            }),
            ascending(ids(old(self)@.children)) ==> ascending(ids(final(self)@.children)),
    {
        let ghost before = self.children@;
        let mut slot: usize = 0;
        while slot < self.children.len() && self.children[slot].id <= child.id
            invariant
                slot <= self.children.len(),
                self.children@ == before,
                forall|b: int| 0 <= b < slot ==> self.children[b].id <= child.id,
            decreases self.children.len() - slot,
        {
            slot += 1;
        }
        proof {
            let siblings = ids(old(self)@.children);
            lemma_view_fields(*old(self));
            assert forall|b: int| 0 <= b < siblings.len() implies siblings[b] == before[b].id by {
                lemma_view_fields(before[b]);
            }
            lemma_slot_for(siblings, child.id, slot as int);
        }
        self.children.insert(slot, child);
        proof {
            lemma_view_fields(*self);
            assert(self@.children =~= old(self)@.children.insert(slot as int, child@));
            if ascending(ids(old(self)@.children)) {
                lemma_slot_keeps_ascending(ids(old(self)@.children), child.id);
                assert(ids(self@.children) =~= ids(old(self)@.children).insert(
                    slot as int,
                    child.id,
                ));
            }
        }
    }
}

} // verus!
