//! Building the tree: records are attached last to first, each to the
//! parent found among the records still waiting or, failing that, among
//! those already attached to the root.

use std::collections::HashMap;
use vstd::prelude::*;

use crate::error::TreeError;
use crate::laws::{
    lemma_mounted_as_overlay, lemma_siblings_ascend, mounted_as, siblings_never_descend,
};
use crate::node::{
    forest_count, ids, lemma_forest_count_insert, lemma_forest_count_update, lemma_slot_for,
    lemma_slot_for_bounds, lemma_view_fields, node_count, node_views, slot_for, Node, NodeView,
};
use crate::path::{copy_text, relative_to, text, without_separator};
use crate::record::{views, RecordView, SubvolumeRecord};
use crate::topology::{
    children_of, has_earlier_parent, is_earlier_parent, is_last_orphan, is_later_parent,
    is_parent, lemma_children_behind, lemma_children_of, lemma_parent_unique, precedes,
    record_ids, resolvable, Parent,
};
use crate::tree::{
    holds_record, is_subtree, is_tree, lemma_child_ids, mountpoint_of, relative_path_under,
};

verus! {

broadcast use vstd::std_specs::hash::group_hash_axioms;

/// A node on its way into the tree, with the absolute path that the paths
/// of its children are taken relative to.
struct Pending {
    node: Node,
    absolute_path: Option<String>,
}

/// The ids of a list of pending nodes.
spec fn pending_ids(list: Seq<Pending>) -> Seq<u64> {
    Seq::new(list.len(), |a: int| list[a].node.id)
}

/// The trees of a list of pending nodes.
spec fn pending_trees(list: Seq<Pending>) -> Seq<NodeView> {
    Seq::new(list.len(), |a: int| list[a].node@)
}

/// The number of nodes that a list of pending nodes holds, with all that
/// is attached below them.
spec fn pending_count(list: Seq<Pending>) -> nat {
    forest_count(pending_trees(list))
}

/// Whether `p` stands for the `i`-th record with the children that it has
/// among the records from `from` on.
spec fn awaits(
    p: Pending,
    rs: Seq<RecordView>,
    root_id: u64,
    overlay: Map<u64, String>,
    i: int,
    from: int,
) -> bool {
    &&& text(p.absolute_path) == rs[i].absolute_path
    &&& holds_record(p.node@, rs, root_id, overlay, i, from)
}

/// Whether the work list holds the first records of the enumeration, each
/// with the children found behind the list.
spec fn work_ok(
    work: Seq<Pending>,
    rs: Seq<RecordView>,
    root_id: u64,
    overlay: Map<u64, String>,
) -> bool {
    &&& work.len() <= rs.len()
    &&& forall|j: int|
        0 <= j < work.len() ==> awaits(#[trigger] work[j], rs, root_id, overlay, j, work.len() as int)
}

/// Whether `tops` holds the records from `from` on that are directly below
/// the root, in the order of the root's children, each with the children
/// found from `from` on.
spec fn tops_ok(
    tops: Seq<Pending>,
    rs: Seq<RecordView>,
    root_id: u64,
    overlay: Map<u64, String>,
    from: int,
) -> bool {
    let kids = children_of(rs, root_id, Parent::Root, from);
    &&& tops.len() == kids.len()
    &&& forall|a: int|
        0 <= a < tops.len() ==> {
            &&& awaits(#[trigger] tops[a], rs, root_id, overlay, kids[a], from)
            &&& tops[a].node@.relative_path == relative_path_under(rs, kids[a], Parent::Root)
        }
}

/// The node of a parent with `child` put among its children.
spec fn with_child(t: NodeView, child: NodeView) -> NodeView {
    NodeView { children: t.children.insert(slot_for(ids(t.children), child.id), child), ..t }
}

/// Taking the last node from the work list and putting a node with the
/// same children among those attached to the root moves its nodes from one
/// list to the other.
proof fn lemma_count_top(work: Seq<Pending>, tops: Seq<Pending>, p: Pending, slot: int)
    requires
        work.len() > 0,
        0 <= slot <= tops.len(),
        p.node@.children == work.last().node@.children,
    ensures
        pending_count(work.drop_last()) + pending_count(tops.insert(slot, p)) == pending_count(work)
            + pending_count(tops),
{
    assert(pending_trees(work.drop_last()) =~= pending_trees(work).drop_last());
    assert(pending_trees(work).last() == work.last().node@);
    assert(pending_trees(tops.insert(slot, p)) =~= pending_trees(tops).insert(slot, p.node@));
    lemma_forest_count_insert(pending_trees(tops), slot, p.node@);
    lemma_count_last(work);
    assert(node_count(p.node@) == 1 + forest_count(p.node@.children));
    assert(node_count(work.last().node@) == 1 + forest_count(work.last().node@.children));
}

/// A node of a list that takes a child gains the nodes of the child.
proof fn lemma_count_adopted(list: Seq<Pending>, after: Seq<Pending>, j: int, child: NodeView)
    requires
        0 <= j < list.len(),
        after.len() == list.len(),
        forall|k: int| 0 <= k < list.len() && k != j ==> after[k] == list[k],
        after[j].node@ == with_child(list[j].node@, child),
    ensures
        pending_count(after) == pending_count(list) + node_count(child),
{
    let t = list[j].node@;
    let slot = slot_for(ids(t.children), child.id);
    lemma_slot_for_bounds(ids(t.children), child.id);
    lemma_forest_count_insert(t.children, slot, child);
    assert(pending_trees(after) =~= pending_trees(list).update(j, after[j].node@));
    lemma_forest_count_update(pending_trees(list), j, after[j].node@);
}

/// The last node of a list holds the nodes that the list holds more than
/// the list without it.
proof fn lemma_count_last(list: Seq<Pending>)
    requires
        list.len() > 0,
    ensures
        pending_count(list) == pending_count(list.drop_last()) + node_count(list.last().node@),
{
    assert(pending_trees(list.drop_last()) =~= pending_trees(list).drop_last());
    assert(pending_trees(list).last() == list.last().node@);
}

/// A record that is attached elsewhere leaves the children of the `i`-th
/// record as they are.
proof fn lemma_unchanged(
    t: NodeView,
    rs: Seq<RecordView>,
    root_id: u64,
    overlay: Map<u64, String>,
    i: int,
    from: int,
)
    requires
        0 <= from < rs.len(),
        holds_record(t, rs, root_id, overlay, i, from + 1),
        !is_parent(rs, root_id, from, Parent::Record(i)),
    ensures
        holds_record(t, rs, root_id, overlay, i, from),
{
    assert(children_of(rs, root_id, Parent::Record(i), from) == children_of(
        rs,
        root_id,
        Parent::Record(i),
        from + 1,
    ));
}

/// Attaching the last waiting record to its parent gives the parent the
/// children that it has from that record on.
proof fn lemma_adopted(
    t: NodeView,
    child: NodeView,
    rs: Seq<RecordView>,
    root_id: u64,
    overlay: Map<u64, String>,
    j: int,
    i: int,
)
    requires
        0 <= i < rs.len(),
        holds_record(t, rs, root_id, overlay, j, i + 1),
        is_parent(rs, root_id, i, Parent::Record(j)),
        holds_record(child, rs, root_id, overlay, i, i + 1),
        child.relative_path == relative_path_under(rs, i, Parent::Record(j)),
    ensures
        holds_record(with_child(t, child), rs, root_id, overlay, j, i),
{
    let kids = children_of(rs, root_id, Parent::Record(j), i + 1);
    let grown = children_of(rs, root_id, Parent::Record(j), i);
    let slot = slot_for(ids(t.children), child.id);
    lemma_child_ids(t, rs, root_id, overlay, j, i + 1);
    lemma_slot_for_bounds(ids(t.children), child.id);
    assert(grown == kids.insert(slot, i));
    lemma_children_behind(rs, root_id, i, 0);
    assert(holds_record(child, rs, root_id, overlay, i, 0));
    t.children.insert_ensures(slot, child);
    kids.insert_ensures(slot, i);
    let after = with_child(t, child);
    assert forall|a: int| 0 <= a < after.children.len() implies {
        &&& (#[trigger] after.children[a]).relative_path == relative_path_under(
            rs,
            grown[a],
            Parent::Record(j),
        )
        &&& holds_record(after.children[a], rs, root_id, overlay, grown[a], 0)
    } by {
        if a < slot {
            assert(after.children[a] == t.children[a] && grown[a] == kids[a]);
        } else if a > slot {
            assert(after.children[(a - 1) + 1] == t.children[a - 1]);
            assert(grown[(a - 1) + 1] == kids[a - 1]);
        }
    }
}

/// One step of the reconstruction, for a record directly below the root.
proof fn lemma_step_top(
    work: Seq<Pending>,
    tops: Seq<Pending>,
    p: Pending,
    rs: Seq<RecordView>,
    root_id: u64,
    overlay: Map<u64, String>,
)
    requires
        work.len() > 0,
        work_ok(work, rs, root_id, overlay),
        tops_ok(tops, rs, root_id, overlay, work.len() as int),
        rs[work.len() - 1].parent_id == root_id,
        awaits(p, rs, root_id, overlay, work.len() - 1, work.len() as int),
        p.node@.relative_path == relative_path_under(rs, work.len() - 1, Parent::Root),
    ensures
        work_ok(work.drop_last(), rs, root_id, overlay),
        tops_ok(
            tops.insert(slot_for(pending_ids(tops), p.node.id), p),
            rs,
            root_id,
            overlay,
            work.len() - 1,
        ),
        !is_parent(rs, root_id, work.len() - 1, Parent::Missing),
{
    let i = work.len() - 1;
    let rest = work.drop_last();
    assert forall|j: int| 0 <= j < rest.len() implies awaits(
        #[trigger] rest[j],
        rs,
        root_id,
        overlay,
        j,
        rest.len() as int,
    ) by {
        assert(rest[j] == work[j]);
        lemma_unchanged(work[j].node@, rs, root_id, overlay, j, i);
    }
    let kids = children_of(rs, root_id, Parent::Root, i + 1);
    let grown = children_of(rs, root_id, Parent::Root, i);
    let slot = slot_for(pending_ids(tops), p.node.id);
    assert(pending_ids(tops) =~= record_ids(rs, kids)) by {
        assert forall|a: int| 0 <= a < tops.len() implies pending_ids(tops)[a] == record_ids(
            rs,
            kids,
        )[a] by {
            assert(awaits(tops[a], rs, root_id, overlay, kids[a], i + 1));
        }
    }
    lemma_slot_for_bounds(pending_ids(tops), p.node.id);
    assert(grown == kids.insert(slot, i));
    tops.insert_ensures(slot, p);
    kids.insert_ensures(slot, i);
    let after = tops.insert(slot, p);
    lemma_children_of(rs, root_id, Parent::Root, i + 1);
    assert forall|a: int| 0 <= a < after.len() implies {
        &&& awaits(#[trigger] after[a], rs, root_id, overlay, grown[a], i)
        &&& after[a].node@.relative_path == relative_path_under(rs, grown[a], Parent::Root)
    } by {
        if a < slot {
            assert(after[a] == tops[a] && grown[a] == kids[a]);
            lemma_unchanged(tops[a].node@, rs, root_id, overlay, kids[a], i);
        } else if a > slot {
            assert(after[(a - 1) + 1] == tops[a - 1]);
            assert(grown[(a - 1) + 1] == kids[a - 1]);
            lemma_unchanged(tops[a - 1].node@, rs, root_id, overlay, kids[a - 1], i);
        } else {
            lemma_unchanged(p.node@, rs, root_id, overlay, i, i);
        }
    }
}

/// One step of the reconstruction, for a record whose parent still waits.
proof fn lemma_step_earlier(
    work: Seq<Pending>,
    tops: Seq<Pending>,
    after: Seq<Pending>,
    j: int,
    child: NodeView,
    rs: Seq<RecordView>,
    root_id: u64,
    overlay: Map<u64, String>,
)
    requires
        work.len() > 0,
        work_ok(work, rs, root_id, overlay),
        tops_ok(tops, rs, root_id, overlay, work.len() as int),
        rs[work.len() - 1].parent_id != root_id,
        is_earlier_parent(rs, work.len() - 1, j),
        holds_record(child, rs, root_id, overlay, work.len() - 1, work.len() as int),
        child.relative_path == relative_path_under(rs, work.len() - 1, Parent::Record(j)),
        after.len() == work.len() - 1,
        forall|k: int| 0 <= k < after.len() && k != j ==> after[k] == work[k],
        after[j].absolute_path == work[j].absolute_path,
        after[j].node@ == with_child(work[j].node@, child),
    ensures
        work_ok(after, rs, root_id, overlay),
        tops_ok(tops, rs, root_id, overlay, work.len() - 1),
        !is_parent(rs, root_id, work.len() - 1, Parent::Missing),
{
    let i = work.len() - 1;
    assert(is_parent(rs, root_id, i, Parent::Record(j)));
    assert(!is_parent(rs, root_id, i, Parent::Missing)) by {
        if is_parent(rs, root_id, i, Parent::Missing) {
            lemma_parent_unique(rs, root_id, i, Parent::Record(j), Parent::Missing);
        }
    }
    assert forall|k: int| 0 <= k < after.len() implies awaits(
        #[trigger] after[k],
        rs,
        root_id,
        overlay,
        k,
        after.len() as int,
    ) by {
        if k == j {
            lemma_adopted(work[j].node@, child, rs, root_id, overlay, j, i);
        } else {
            if is_parent(rs, root_id, i, Parent::Record(k)) {
                lemma_parent_unique(rs, root_id, i, Parent::Record(j), Parent::Record(k));
            }
            lemma_unchanged(work[k].node@, rs, root_id, overlay, k, i);
        }
    }
    let kids = children_of(rs, root_id, Parent::Root, i + 1);
    assert(children_of(rs, root_id, Parent::Root, i) == kids);
    lemma_children_of(rs, root_id, Parent::Root, i + 1);
    assert forall|a: int| 0 <= a < tops.len() implies awaits(
        #[trigger] tops[a],
        rs,
        root_id,
        overlay,
        kids[a],
        i,
    ) by {
        if is_parent(rs, root_id, i, Parent::Record(kids[a])) {
            lemma_parent_unique(rs, root_id, i, Parent::Record(j), Parent::Record(kids[a]));
        }
        lemma_unchanged(tops[a].node@, rs, root_id, overlay, kids[a], i);
    }
}

/// The first node among those attached to the root that has the id a
/// record names is the last such record behind it.
proof fn lemma_first_top_is_later_parent(
    work: Seq<Pending>,
    tops: Seq<Pending>,
    a: int,
    rs: Seq<RecordView>,
    root_id: u64,
    overlay: Map<u64, String>,
)
    requires
        work.len() > 0,
        work_ok(work, rs, root_id, overlay),
        tops_ok(tops, rs, root_id, overlay, work.len() as int),
        rs[work.len() - 1].parent_id != root_id,
        forall|k: int| 0 <= k < work.len() - 1 ==> work[k].node.id != rs[work.len() - 1].parent_id,
        0 <= a < tops.len(),
        tops[a].node.id == rs[work.len() - 1].parent_id,
        forall|b: int| 0 <= b < a ==> tops[b].node.id != rs[work.len() - 1].parent_id,
    ensures
        !has_earlier_parent(rs, work.len() - 1),
        is_later_parent(
            rs,
            root_id,
            work.len() - 1,
            children_of(rs, root_id, Parent::Root, work.len() as int)[a],
        ),
        is_parent(
            rs,
            root_id,
            work.len() - 1,
            Parent::Record(children_of(rs, root_id, Parent::Root, work.len() as int)[a]),
        ),
{
    let i = work.len() - 1;
    let kids = children_of(rs, root_id, Parent::Root, i + 1);
    lemma_not_earlier(work, rs, root_id, overlay);
    lemma_children_of(rs, root_id, Parent::Root, i + 1);
    let k = kids[a];
    assert(awaits(tops[a], rs, root_id, overlay, k, i + 1));
    assert forall|l: int| k < l < rs.len() && (#[trigger] rs[l]).parent_id == root_id implies rs[l].id
        != rs[i].parent_id by {
        if rs[l].id == rs[i].parent_id {
            assert(is_parent(rs, root_id, l, Parent::Root));
            assert(kids.contains(l));
            let b = choose|b: int| 0 <= b < kids.len() && kids[b] == l;
            assert(awaits(tops[b], rs, root_id, overlay, l, i + 1));
            assert(tops[b].node.id == rs[i].parent_id);
            assert(a < b);
            assert(precedes(rs, kids[a], kids[b]));
        }
    }
}

/// No record before the last waiting one has the id it names, where no
/// waiting node has it.
proof fn lemma_not_earlier(
    work: Seq<Pending>,
    rs: Seq<RecordView>,
    root_id: u64,
    overlay: Map<u64, String>,
)
    requires
        work.len() > 0,
        work_ok(work, rs, root_id, overlay),
        forall|k: int| 0 <= k < work.len() - 1 ==> work[k].node.id != rs[work.len() - 1].parent_id,
    ensures
        !has_earlier_parent(rs, work.len() - 1),
{
    let i = work.len() - 1;
    assert forall|k: int| 0 <= k < i implies (#[trigger] rs[k]).id != rs[i].parent_id by {
        assert(awaits(work[k], rs, root_id, overlay, k, i + 1));
    }
}

/// One step of the reconstruction, for a record whose parent is already
/// attached to the root.
proof fn lemma_step_later(
    work: Seq<Pending>,
    tops: Seq<Pending>,
    after: Seq<Pending>,
    a: int,
    child: NodeView,
    rs: Seq<RecordView>,
    root_id: u64,
    overlay: Map<u64, String>,
)
    requires
        work.len() > 0,
        work_ok(work, rs, root_id, overlay),
        tops_ok(tops, rs, root_id, overlay, work.len() as int),
        0 <= a < tops.len(),
        is_parent(
            rs,
            root_id,
            work.len() - 1,
            Parent::Record(children_of(rs, root_id, Parent::Root, work.len() as int)[a]),
        ),
        holds_record(child, rs, root_id, overlay, work.len() - 1, work.len() as int),
        child.relative_path == relative_path_under(
            rs,
            work.len() - 1,
            Parent::Record(children_of(rs, root_id, Parent::Root, work.len() as int)[a]),
        ),
        after.len() == tops.len(),
        forall|b: int| 0 <= b < after.len() && b != a ==> after[b] == tops[b],
        after[a].absolute_path == tops[a].absolute_path,
        after[a].node@ == with_child(tops[a].node@, child),
    ensures
        work_ok(work.drop_last(), rs, root_id, overlay),
        tops_ok(after, rs, root_id, overlay, work.len() - 1),
        !is_parent(rs, root_id, work.len() - 1, Parent::Missing),
{
    let i = work.len() - 1;
    let kids = children_of(rs, root_id, Parent::Root, i + 1);
    let parent = Parent::Record(kids[a]);
    assert(!is_parent(rs, root_id, i, Parent::Missing)) by {
        if is_parent(rs, root_id, i, Parent::Missing) {
            lemma_parent_unique(rs, root_id, i, parent, Parent::Missing);
        }
    }
    assert(!is_parent(rs, root_id, i, Parent::Root));
    let rest = work.drop_last();
    assert forall|j: int| 0 <= j < rest.len() implies awaits(
        #[trigger] rest[j],
        rs,
        root_id,
        overlay,
        j,
        rest.len() as int,
    ) by {
        assert(rest[j] == work[j]);
        lemma_children_of(rs, root_id, Parent::Root, i + 1);
        if is_parent(rs, root_id, i, Parent::Record(j)) {
            lemma_parent_unique(rs, root_id, i, parent, Parent::Record(j));
        }
        lemma_unchanged(work[j].node@, rs, root_id, overlay, j, i);
    }
    assert(children_of(rs, root_id, Parent::Root, i) == kids);
    lemma_children_of(rs, root_id, Parent::Root, i + 1);
    assert forall|b: int| 0 <= b < after.len() implies {
        &&& awaits(#[trigger] after[b], rs, root_id, overlay, kids[b], i)
        &&& after[b].node@.relative_path == relative_path_under(rs, kids[b], Parent::Root)
    } by {
        assert(awaits(tops[b], rs, root_id, overlay, kids[b], i + 1));
        if b == a {
            lemma_adopted(tops[a].node@, child, rs, root_id, overlay, kids[a], i);
        } else {
            if is_parent(rs, root_id, i, Parent::Record(kids[b])) {
                lemma_parent_unique(rs, root_id, i, parent, Parent::Record(kids[b]));
                assert(precedes(rs, kids[a], kids[b]) || precedes(
                    rs,
                    kids[b],
                    kids[a],
                ));
            }
            lemma_unchanged(tops[b].node@, rs, root_id, overlay, kids[b], i);
        }
    }
}

/// A record whose parent neither waits nor is attached to the root has no
/// parent to go to.
proof fn lemma_orphan(
    work: Seq<Pending>,
    tops: Seq<Pending>,
    rs: Seq<RecordView>,
    root_id: u64,
    overlay: Map<u64, String>,
)
    requires
        work.len() > 0,
        work_ok(work, rs, root_id, overlay),
        tops_ok(tops, rs, root_id, overlay, work.len() as int),
        rs[work.len() - 1].parent_id != root_id,
        forall|k: int| 0 <= k < work.len() - 1 ==> work[k].node.id != rs[work.len() - 1].parent_id,
        forall|a: int| 0 <= a < tops.len() ==> tops[a].node.id != rs[work.len() - 1].parent_id,
    ensures
        is_parent(rs, root_id, work.len() - 1, Parent::Missing),
{
    let i = work.len() - 1;
    let kids = children_of(rs, root_id, Parent::Root, i + 1);
    lemma_not_earlier(work, rs, root_id, overlay);
    lemma_children_of(rs, root_id, Parent::Root, i + 1);
    assert forall|k: int|
        i < k < rs.len() && (#[trigger] rs[k]).parent_id == root_id implies rs[k].id
        != rs[i].parent_id by {
        assert(is_parent(rs, root_id, k, Parent::Root));
        assert(kids.contains(k));
        let b = choose|b: int| 0 <= b < kids.len() && kids[b] == k;
        assert(awaits(tops[b], rs, root_id, overlay, k, i + 1));
    }
}

/// Where the overlay says the subvolume `id` is mounted.
fn mountpoint_for(overlay: &HashMap<u64, String>, id: u64) -> (mountpoint: Option<String>)
    ensures
        text(mountpoint) == mountpoint_of(overlay@, id),
{
    match overlay.get(&id) {
        Some(path) => Some(path.clone()),
        None => None,
    }
}

/// A node without children for every record, in the order of the
/// enumeration.
fn materialize(records: &Vec<SubvolumeRecord>, root_id: u64, overlay: &HashMap<u64, String>) -> (work:
    Vec<Pending>)
    ensures
        work.len() == records.len(),
        work_ok(work@, views(records@), root_id, overlay@),
        pending_count(work@) == records.len(),
{
    let ghost rs = views(records@);
    let mut work: Vec<Pending> = Vec::new();
    let mut j: usize = 0;
    assert(pending_trees(work@) =~= Seq::empty());
    while j < records.len()
        invariant
            j <= records.len(),
            work.len() == j,
            rs == views(records@),
            pending_count(work@) == j,
            forall|k: int|
                0 <= k < j ==> awaits(
                    #[trigger] work[k],
                    rs,
                    root_id,
                    overlay@,
                    k,
                    records.len() as int,
                ),
        decreases records.len() - j,
    {
        let record = &records[j];
        let node = Node::leaf(record.id, record.unique_id, None, mountpoint_for(overlay, record.id));
        let ghost before = work@;
        work.push(Pending { node, absolute_path: copy_text(&record.absolute_path) });
        proof {
            assert(work@.drop_last() =~= before);
            lemma_count_last(work@);
            assert(forest_count(Seq::<NodeView>::empty()) == 0);
        }
        j += 1;
    }
    work
}

/// The first node of `list` with the id `id`.
fn find_pending(list: &Vec<Pending>, id: u64) -> (found: Option<usize>)
    ensures
        match found {
            Some(j) => {
                &&& j < list.len()
                &&& list[j as int].node.id == id
                &&& forall|k: int| 0 <= k < j ==> list[k].node.id != id
            },
            None => forall|k: int| 0 <= k < list.len() ==> list[k].node.id != id,
        },
{
    let mut j: usize = 0;
    while j < list.len()
        invariant
            j <= list.len(),
            forall|k: int| 0 <= k < j ==> list[k].node.id != id,
        decreases list.len() - j,
    {
        if list[j].node.id == id {
            return Some(j);
        }
        j += 1;
    }
    None
}

/// Puts `p` into `list` behind the nodes whose id is not greater.
fn insert_pending(list: &mut Vec<Pending>, p: Pending)
    ensures
        final(list)@ == old(list)@.insert(slot_for(pending_ids(old(list)@), p.node.id), p),
{
    let mut slot: usize = 0;
    while slot < list.len() && list[slot].node.id <= p.node.id
        invariant
            slot <= list.len(),
            list@ == old(list)@,
            forall|b: int| 0 <= b < slot ==> list[b].node.id <= p.node.id,
        decreases list.len() - slot,
    {
        slot += 1;
    }
    proof {
        lemma_slot_for(pending_ids(list@), p.node.id, slot as int);
    }
    list.insert(slot, p);
}

/// The nodes of a list of pending nodes, in its order.
fn release(list: Vec<Pending>) -> (nodes: Vec<Node>)
    ensures
        nodes.len() == list.len(),
        forall|a: int| 0 <= a < nodes.len() ==> nodes[a] == list[a].node,
{
    let mut nodes: Vec<Node> = Vec::new();
    for p in it: list
        invariant
            nodes.len() == it.index(),
            forall|a: int| 0 <= a < nodes.len() ==> nodes[a] == list[a].node,
    {
        nodes.push(p.node);
    }
    nodes
}

/// Builds the tree of the subvolumes in `records` below `root`.
///
/// `records` is the enumeration of the subvolumes below the root, without
/// the root itself; `root` is the record of the root, whose id is the one
/// that the records directly below it name as their parent; `overlay` maps
/// the ids of mounted subvolumes to their mount points.
///
/// Records are attached last to first. An enumeration that yields every
/// subvolume behind its parent always gives a tree. The result is an error
/// exactly where some record names a parent that is found neither among
/// the records before it nor among those behind it that are directly below
/// the root; the error names the last such record.
pub fn build_tree(
    root: &SubvolumeRecord,
    records: &Vec<SubvolumeRecord>,
    overlay: &HashMap<u64, String>,
) -> (result: Result<Node, TreeError>)
    ensures
        result is Ok <==> resolvable(views(records@), root.id),
        match result {
            Ok(tree) => {
                &&& is_tree(tree@, root@, views(records@), overlay@)
                &&& node_count(tree@) == records.len() + 1
                &&& mounted_as(tree@, overlay@)
                &&& siblings_never_descend(tree@)
            },
            Err(e) => exists|i: int|
                is_last_orphan(views(records@), root.id, i) && e == (TreeError::TopologyViolation {
                    id: (#[trigger] views(records@)[i]).id,
                }),
        },
{
    let ghost rs = views(records@);
    let root_id: u64 = root.id;
    let mut work = materialize(records, root_id, overlay);
    let mut tops: Vec<Pending> = Vec::new();
    assert(pending_trees(tops@) =~= Seq::empty());
    while work.len() > 0
        invariant
            rs == views(records@),
            root_id == root.id,
            work_ok(work@, rs, root_id, overlay@),
            tops_ok(tops@, rs, root_id, overlay@, work.len() as int),
            pending_count(work@) + pending_count(tops@) == rs.len(),
            forall|k: int| work.len() <= k < rs.len() ==> !is_parent(rs, root_id, k, Parent::Missing),
        decreases work.len(),
    {
        let ghost work_before = work@;
        let ghost tops_before = tops@;
        let i: usize = work.len() - 1;
        let Pending { node, absolute_path } = work.pop().unwrap();
        let mut node = node;
        let parent_id: u64 = records[i].parent_id;
        assert(awaits(work_before[i as int], rs, root_id, overlay@, i as int, i + 1));
        assert(work@ == work_before.drop_last());
        assert(parent_id == rs[i as int].parent_id);
        if parent_id == root_id {
            node.relative_path = match &absolute_path {
                Some(path) => Some(without_separator(path.as_str()).to_owned()),
                None => None,
            };
            let p = Pending { node, absolute_path };
            proof {
                lemma_step_top(work_before, tops_before, p, rs, root_id, overlay@);
                lemma_slot_for_bounds(pending_ids(tops_before), p.node.id);
                lemma_count_top(
                    work_before,
                    tops_before,
                    p,
                    slot_for(pending_ids(tops_before), p.node.id),
                );
            }
            insert_pending(&mut tops, p);
        } else {
            match find_pending(&work, parent_id) {
                Some(j) => {
                    node.relative_path = match &absolute_path {
                        Some(path) => Some(relative_to(path.as_str(), &work[j].absolute_path)),
                        None => None,
                    };
                    let ghost child = node@;
                    let ghost work_rest = work@;
                    proof {
                        lemma_count_last(work_before);
                        assert(awaits(work_before[j as int], rs, root_id, overlay@, j as int, i + 1));
                        assert forall|k: int| 0 <= k < j implies (#[trigger] rs[k]).id
                            != rs[i as int].parent_id by {
                            assert(work@[k] == work_before[k]);
                            assert(awaits(work_before[k], rs, root_id, overlay@, k, i + 1));
                            lemma_view_fields(work_before[k].node);
                        }
                        assert(work@[j as int] == work_before[j as int]);
                        lemma_view_fields(work_before[j as int].node);
                        assert(is_earlier_parent(rs, i as int, j as int));
                    }
                    work[j].node.insert_child(node);
                    proof {
                        lemma_count_adopted(work_rest, work@, j as int, child);
                        lemma_step_earlier(
                            work_before,
                            tops_before,
                            work@,
                            j as int,
                            child,
                            rs,
                            root_id,
                            overlay@,
                        );
                    }
                },
                None => match find_pending(&tops, parent_id) {
                    Some(a) => {
                        proof {
                            assert forall|k: int| 0 <= k < i implies work_before[k].node.id
                                != rs[i as int].parent_id by {
                                assert(work@[k] == work_before[k]);
                            }
                            lemma_first_top_is_later_parent(
                                work_before,
                                tops_before,
                                a as int,
                                rs,
                                root_id,
                                overlay@,
                            );
                        }
                        node.relative_path = match &absolute_path {
                            Some(path) => Some(relative_to(path.as_str(), &tops[a].absolute_path)),
                            None => None,
                        };
                        let ghost child = node@;
                        assert(awaits(
                            tops_before[a as int],
                            rs,
                            root_id,
                            overlay@,
                            children_of(rs, root_id, Parent::Root, i + 1)[a as int],
                            i + 1,
                        ));
                        tops[a].node.insert_child(node);
                        proof {
                            lemma_count_last(work_before);
                            lemma_count_adopted(tops_before, tops@, a as int, child);
                            lemma_step_later(
                                work_before,
                                tops_before,
                                tops@,
                                a as int,
                                child,
                                rs,
                                root_id,
                                overlay@,
                            );
                        }
                    },
                    None => {
                        proof {
                            assert forall|k: int| 0 <= k < i implies work_before[k].node.id
                                != rs[i as int].parent_id by {
                                assert(work@[k] == work_before[k]);
                            }
                            lemma_orphan(work_before, tops_before, rs, root_id, overlay@);
                            assert(is_last_orphan(rs, root_id, i as int));
                        }
                        return Err(TreeError::TopologyViolation { id: records[i].id });
                    },
                },
            }
        }
    }
    let mountpoint = mountpoint_for(overlay, root_id);
    let ghost tops_view = tops@;
    let children = release(tops);
    let tree = Node {
        id: root_id,
        unique_id: root.unique_id,
        relative_path: None,
        mountpoint,
        children,
    };
    proof {
        lemma_view_fields(tree);
        let kids = children_of(rs, root_id, Parent::Root, 0);
        assert forall|a: int| 0 <= a < tree@.children.len() implies is_subtree(
            #[trigger] tree@.children[a],
            rs,
            root_id,
            overlay@,
            kids[a],
            Parent::Root,
        ) by {
            assert(awaits(tops_view[a], rs, root_id, overlay@, kids[a], 0));
        }
        assert(tree@.children =~= pending_trees(tops_view));
        lemma_mounted_as_overlay(tree@, root@, rs, overlay@);
        lemma_siblings_ascend(tree@, root@, rs, overlay@);
    }
    Ok(tree)
}

} // verus!
