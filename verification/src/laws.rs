//! What holds of every tree that is built from an enumeration.

use vstd::prelude::*;

use crate::node::{ascending, ids, strictly_ascending, NodeView};
use crate::path::{relativize, strip_prefix, strip_separator, SEPARATOR};
use crate::record::RecordView;
use crate::topology::{
    children_of, has_earlier_parent, is_earlier_parent, is_later_parent, is_parent,
    lemma_children_of, precedes, record_ids, resolvable, Parent,
};
use crate::tree::{holds_record, is_subtree, is_tree, lemma_child_ids, mountpoint_of};

verus! {

/// Whether the enumeration yields every subvolume behind its parent: each
/// record is directly below the root or names the id of a record before it.
pub open spec fn parents_first(rs: Seq<RecordView>, root_id: u64) -> bool {
    forall|i: int|
        0 <= i < rs.len() ==> (#[trigger] rs[i]).parent_id == root_id || has_earlier_parent(rs, i)
}

/// Whether no two records have one id.
pub open spec fn distinct_ids(rs: Seq<RecordView>) -> bool {
    forall|i: int, j: int|
        0 <= i < j < rs.len() ==> (#[trigger] rs[i]).id != (#[trigger] rs[j]).id
}

/// Whether following the parent ids from the subvolume `id` arrives at the
/// root within `steps` records.
pub open spec fn reaches_root(rs: Seq<RecordView>, root_id: u64, id: u64, steps: nat) -> bool
    decreases steps,
{
    id == root_id || (steps > 0 && exists|j: int|
        0 <= j < rs.len() && (#[trigger] rs[j]).id == id && reaches_root(
            rs,
            root_id,
            rs[j].parent_id,
            (steps - 1) as nat,
        ))
}

/// Whether the children of every node of `t` stand in strictly rising order
/// of their ids.
pub open spec fn siblings_ascend(t: NodeView) -> bool
    decreases t,
{
    &&& strictly_ascending(ids(t.children))
    &&& forall|a: int| 0 <= a < t.children.len() ==> siblings_ascend(#[trigger] t.children[a])
}

/// Whether the children of every node of `t` stand in an order in which
/// their ids never descend.
pub open spec fn siblings_never_descend(t: NodeView) -> bool
    decreases t,
{
    &&& ascending(ids(t.children))
    &&& forall|a: int|
        0 <= a < t.children.len() ==> siblings_never_descend(#[trigger] t.children[a])
}

/// Whether every node of `t` has the mount point that `overlay` holds for
/// its id, and none where `overlay` holds none.
pub open spec fn mounted_as(t: NodeView, overlay: Map<u64, String>) -> bool
    decreases t,
{
    &&& t.mountpoint == mountpoint_of(overlay, t.id)
    &&& forall|a: int| 0 <= a < t.children.len() ==> mounted_as(#[trigger] t.children[a], overlay)
}

/// Whether the path of the `i`-th record is known and is `above`, a
/// separator and a rest.
pub open spec fn extends(rs: Seq<RecordView>, i: int, above: Seq<char>) -> bool {
    rs[i].absolute_path matches Some(path) && (above + seq![SEPARATOR]).is_prefix_of(path)
}

/// `above`, a separator and `relative`.
pub open spec fn joined(above: Seq<char>, relative: Seq<char>) -> Seq<char> {
    above + seq![SEPARATOR] + relative
}

/// Whether `t`, the subtree of the `i`-th record below ancestors whose
/// relative paths, the root's counted as empty, join to `above`, gives
/// back the absolute paths of its records: where the path of the record
/// extends `above`, the relative path of `t` joined to `above` is the path
/// of the record, and the same holds of the children of `t` below the
/// joined path.
pub open spec fn rejoins(
    t: NodeView,
    rs: Seq<RecordView>,
    root_id: u64,
    i: int,
    above: Seq<char>,
) -> bool
    decreases t,
{
    let kids = children_of(rs, root_id, Parent::Record(i), 0);
    extends(rs, i, above) ==> {
        &&& t.relative_path matches Some(relative) && rs[i].absolute_path == Some(
            joined(above, relative),
        ) && forall|a: int|
            0 <= a < t.children.len() ==> rejoins(
                #[trigger] t.children[a],
                rs,
                root_id,
                kids[a],
                joined(above, relative),
            )
    }
}

/// More steps reach the root where fewer do.
proof fn lemma_reaches_root_later(
    rs: Seq<RecordView>,
    root_id: u64,
    id: u64,
    steps: nat,
    more: nat,
)
    requires
        reaches_root(rs, root_id, id, steps),
        steps <= more,
    ensures
        reaches_root(rs, root_id, id, more),
    decreases steps,
{
    if id != root_id {
        let j = choose|j: int|
            0 <= j < rs.len() && (#[trigger] rs[j]).id == id && reaches_root(
                rs,
                root_id,
                rs[j].parent_id,
                (steps - 1) as nat,
            );
        lemma_reaches_root_later(rs, root_id, rs[j].parent_id, (steps - 1) as nat, (more - 1) as nat);
    }
}

/// The `i`-th record of an enumeration that yields parents first reaches
/// the root within `i + 1` steps.
proof fn lemma_reaches_root_within(rs: Seq<RecordView>, root_id: u64, i: int)
    requires
        parents_first(rs, root_id),
        0 <= i < rs.len(),
    ensures
        reaches_root(rs, root_id, rs[i].id, (i + 1) as nat),
    decreases i,
{
    if rs[i].id != root_id {
        if rs[i].parent_id != root_id {
            assert(has_earlier_parent(rs, i));
            let j = choose|j: int| 0 <= j < i && (#[trigger] rs[j]).id == rs[i].parent_id;
            lemma_reaches_root_within(rs, root_id, j);
            lemma_reaches_root_later(rs, root_id, rs[j].id, (j + 1) as nat, i as nat);
        }
        assert(reaches_root(rs, root_id, rs[i].parent_id, i as nat));
    }
}

/// Topological closure: where the enumeration yields every subvolume behind
/// its parent, every record finds a parent, so that the tree is built, and
/// the chain of parent ids of every record ends at the root within as many
/// steps as there are records.
pub proof fn lemma_parents_first_reach_root(rs: Seq<RecordView>, root_id: u64)
    requires
        parents_first(rs, root_id),
    ensures
        resolvable(rs, root_id),
        forall|i: int|
            0 <= i < rs.len() ==> reaches_root(rs, root_id, (#[trigger] rs[i]).id, rs.len()),
{
    assert forall|i: int| 0 <= i < rs.len() implies !is_parent(rs, root_id, i, Parent::Missing) by {
        assert(rs[i].parent_id == root_id || has_earlier_parent(rs, i));
    }
    assert forall|i: int| 0 <= i < rs.len() implies reaches_root(
        rs,
        root_id,
        (#[trigger] rs[i]).id,
        rs.len(),
    ) by {
        lemma_reaches_root_within(rs, root_id, i);
        lemma_reaches_root_later(rs, root_id, rs[i].id, (i + 1) as nat, rs.len());
    }
}

/// The ids of the children that a parent has from `from` on rise strictly
/// where no two records have one id.
proof fn lemma_children_rise(rs: Seq<RecordView>, root_id: u64, parent: Parent, from: int)
    requires
        0 <= from <= rs.len(),
        distinct_ids(rs),
    ensures
        strictly_ascending(record_ids(rs, children_of(rs, root_id, parent, from))),
{
    let kids = children_of(rs, root_id, parent, from);
    lemma_children_of(rs, root_id, parent, from);
    assert forall|a: int, b: int| 0 <= a < b < kids.len() implies record_ids(rs, kids)[a]
        < record_ids(rs, kids)[b] by {
        assert(precedes(rs, kids[a], kids[b]));
        let x = kids[a];
        let y = kids[b];
        if x < y {
            assert(rs[x].id != rs[y].id);
        } else if y < x {
            assert(rs[y].id != rs[x].id);
        }
    }
}

proof fn lemma_subtree_ascends(
    t: NodeView,
    rs: Seq<RecordView>,
    root_id: u64,
    overlay: Map<u64, String>,
    i: int,
)
    requires
        holds_record(t, rs, root_id, overlay, i, 0),
    ensures
        siblings_never_descend(t),
        distinct_ids(rs) ==> siblings_ascend(t),
    decreases t,
{
    let kids = children_of(rs, root_id, Parent::Record(i), 0);
    lemma_child_ids(t, rs, root_id, overlay, i, 0);
    lemma_children_of(rs, root_id, Parent::Record(i), 0);
    if distinct_ids(rs) {
        lemma_children_rise(rs, root_id, Parent::Record(i), 0);
    }
    assert forall|a: int| 0 <= a < t.children.len() implies siblings_never_descend(
        #[trigger] t.children[a],
    ) && (distinct_ids(rs) ==> siblings_ascend(t.children[a])) by {
        lemma_subtree_ascends(t.children[a], rs, root_id, overlay, kids[a]);
    }
}

/// The ids of the children of the root of a tree are the ids of the records
/// directly below the root.
proof fn lemma_top_ids(
    t: NodeView,
    root: RecordView,
    rs: Seq<RecordView>,
    overlay: Map<u64, String>,
)
    requires
        is_tree(t, root, rs, overlay),
    ensures
        ids(t.children) == record_ids(rs, children_of(rs, root.id, Parent::Root, 0)),
{
    let kids = children_of(rs, root.id, Parent::Root, 0);
    assert forall|a: int| 0 <= a < t.children.len() implies ids(t.children)[a] == record_ids(
        rs,
        kids,
    )[a] by {
        assert(is_subtree(t.children[a], rs, root.id, overlay, kids[a], Parent::Root));
    }
    assert(ids(t.children) =~= record_ids(rs, kids));
}

/// Sibling order: in every tree the ids of the children of a node never
/// descend, in whatever order the enumeration yielded them; where no two
/// records have one id they rise strictly, so that the order of siblings
/// is the order of their ids alone.
pub proof fn lemma_siblings_ascend(
    t: NodeView,
    root: RecordView,
    rs: Seq<RecordView>,
    overlay: Map<u64, String>,
)
    requires
        is_tree(t, root, rs, overlay),
    ensures
        siblings_never_descend(t),
        distinct_ids(rs) ==> siblings_ascend(t),
{
    let kids = children_of(rs, root.id, Parent::Root, 0);
    lemma_top_ids(t, root, rs, overlay);
    lemma_children_of(rs, root.id, Parent::Root, 0);
    if distinct_ids(rs) {
        lemma_children_rise(rs, root.id, Parent::Root, 0);
    }
    assert forall|a: int| 0 <= a < t.children.len() implies siblings_never_descend(
        #[trigger] t.children[a],
    ) && (distinct_ids(rs) ==> siblings_ascend(t.children[a])) by {
        assert(is_subtree(t.children[a], rs, root.id, overlay, kids[a], Parent::Root));
        lemma_subtree_ascends(t.children[a], rs, root.id, overlay, kids[a]);
    }
}

proof fn lemma_subtree_mounted(
    t: NodeView,
    rs: Seq<RecordView>,
    root_id: u64,
    overlay: Map<u64, String>,
    i: int,
    from: int,
)
    requires
        holds_record(t, rs, root_id, overlay, i, from),
    ensures
        mounted_as(t, overlay),
    decreases t,
{
    let kids = children_of(rs, root_id, Parent::Record(i), from);
    assert forall|a: int| 0 <= a < t.children.len() implies mounted_as(
        #[trigger] t.children[a],
        overlay,
    ) by {
        lemma_subtree_mounted(t.children[a], rs, root_id, overlay, kids[a], 0);
    }
}

/// Mount points: a node of a tree has a mount point if and only if the
/// overlay holds one for its id, and then it is that one.
pub proof fn lemma_mounted_as_overlay(
    t: NodeView,
    root: RecordView,
    rs: Seq<RecordView>,
    overlay: Map<u64, String>,
)
    requires
        is_tree(t, root, rs, overlay),
    ensures
        mounted_as(t, overlay),
{
    let kids = children_of(rs, root.id, Parent::Root, 0);
    assert forall|a: int| 0 <= a < t.children.len() implies mounted_as(
        #[trigger] t.children[a],
        overlay,
    ) by {
        assert(is_subtree(t.children[a], rs, root.id, overlay, kids[a], Parent::Root));
        lemma_subtree_mounted(t.children[a], rs, root.id, overlay, kids[a], 0);
    }
}

/// A path that is `above`, a separator and a rest is given back by
/// `above`, a separator and the path relative to `above`.
pub proof fn lemma_relativize_rejoins(path: Seq<char>, above: Seq<char>)
    requires
        (above + seq![SEPARATOR]).is_prefix_of(path),
    ensures
        joined(above, relativize(path, Some(above))) == path,
        above.len() == 0 ==> relativize(path, Some(above)) == strip_separator(path),
{
    let joint = above + seq![SEPARATOR];
    assert(joint =~= path.subrange(0, joint.len() as int));
    assert(above =~= path.subrange(0, above.len() as int)) by {
        assert forall|k: int| 0 <= k < above.len() implies above[k] == path[k] by {
            assert(joint[k] == path.subrange(0, joint.len() as int)[k]);
        }
    }
    assert(above.is_prefix_of(path));
    let rest = strip_prefix(path, above);
    assert(rest == path.skip(above.len() as int));
    assert(rest[0] == SEPARATOR) by {
        assert(joint[above.len() as int] == path.subrange(0, joint.len() as int)[above.len() as int]);
    }
    assert(strip_separator(rest) =~= path.skip(above.len() as int + 1));
    assert(above + seq![SEPARATOR] + path.skip(above.len() as int + 1) =~= path);
    if above.len() == 0 {
        assert(rest =~= path);
    }
}

proof fn lemma_subtree_rejoins(
    t: NodeView,
    rs: Seq<RecordView>,
    root_id: u64,
    overlay: Map<u64, String>,
    i: int,
    above: Seq<char>,
)
    requires
        holds_record(t, rs, root_id, overlay, i, 0),
        extends(rs, i, above) ==> t.relative_path == Some(
            relativize(rs[i].absolute_path->0, Some(above)),
        ),
    ensures
        rejoins(t, rs, root_id, i, above),
    decreases t,
{
    if extends(rs, i, above) {
        let path = rs[i].absolute_path->0;
        let kids = children_of(rs, root_id, Parent::Record(i), 0);
        lemma_relativize_rejoins(path, above);
        assert forall|a: int| 0 <= a < t.children.len() implies rejoins(
            #[trigger] t.children[a],
            rs,
            root_id,
            kids[a],
            path,
        ) by {
            lemma_subtree_rejoins(t.children[a], rs, root_id, overlay, kids[a], path);
        }
    }
}

/// Path round trip: below the root, whose own path counts as empty, every
/// node whose record and whose ancestors' records each extend the path of
/// the parent by a separator and a rest gives back the absolute path of
/// its record, when the relative paths from the root down to it are joined
/// by single separators.
pub proof fn lemma_paths_rejoin(
    t: NodeView,
    root: RecordView,
    rs: Seq<RecordView>,
    overlay: Map<u64, String>,
)
    requires
        is_tree(t, root, rs, overlay),
    ensures
        forall|a: int|
            0 <= a < t.children.len() ==> rejoins(
                #[trigger] t.children[a],
                rs,
                root.id,
                children_of(rs, root.id, Parent::Root, 0)[a],
                Seq::empty(),
            ),
{
    let kids = children_of(rs, root.id, Parent::Root, 0);
    assert forall|a: int| 0 <= a < t.children.len() implies rejoins(
        #[trigger] t.children[a],
        rs,
        root.id,
        kids[a],
        Seq::empty(),
    ) by {
        assert(is_subtree(t.children[a], rs, root.id, overlay, kids[a], Parent::Root));
        if extends(rs, kids[a], Seq::empty()) {
            lemma_relativize_rejoins(rs[kids[a]].absolute_path->0, Seq::empty());
        }
        lemma_subtree_rejoins(t.children[a], rs, root.id, overlay, kids[a], Seq::empty());
    }
}

/// Whether two enumerations hold the same records, in whatever order.
pub open spec fn same_records(a: Seq<RecordView>, b: Seq<RecordView>) -> bool {
    &&& forall|i: int| 0 <= i < a.len() ==> b.contains(#[trigger] a[i])
    &&& forall|j: int| 0 <= j < b.len() ==> a.contains(#[trigger] b[j])
}

/// Whether `p` in the enumeration `a` and `q` in the enumeration `b` are
/// the same place to attach a record: the root, or the same record.
pub open spec fn same_parent(a: Seq<RecordView>, p: Parent, b: Seq<RecordView>, q: Parent) -> bool {
    match (p, q) {
        (Parent::Root, Parent::Root) => true,
        (Parent::Record(i), Parent::Record(j)) => 0 <= i < a.len() && 0 <= j < b.len() && a[i]
            == b[j],
        _ => false,
    }
}

/// Two lists of strictly rising ids that hold the same ids are one list.
proof fn lemma_same_ascending(x: Seq<u64>, y: Seq<u64>)
    requires
        strictly_ascending(x),
        strictly_ascending(y),
        forall|v: u64| x.contains(v) <==> y.contains(v),
    ensures
        x == y,
    decreases x.len(),
{
    if x.len() == 0 {
        if y.len() > 0 {
            assert(y.contains(y[0]));
        }
        assert(x =~= y);
    } else {
        let m = x.last();
        assert(x.contains(m));
        assert(y.contains(m));
        let k = choose|k: int| 0 <= k < y.len() && y[k] == m;
        assert(y.contains(y.last()));
        assert(x.contains(y.last()));
        let j = choose|j: int| 0 <= j < x.len() && x[j] == y.last();
        assert(y.last() == m);
        let shorter = x.drop_last();
        let other = y.drop_last();
        assert forall|v: u64| shorter.contains(v) <==> other.contains(v) by {
            if shorter.contains(v) {
                let a = choose|a: int| 0 <= a < shorter.len() && shorter[a] == v;
                assert(x[a] == v && x[a] < m);
                assert(x.contains(v));
                let b = choose|b: int| 0 <= b < y.len() && y[b] == v;
                assert(other[b] == v);
            }
            if other.contains(v) {
                let b = choose|b: int| 0 <= b < other.len() && other[b] == v;
                assert(y[b] == v && y[b] < m);
                assert(y.contains(v));
                let a = choose|a: int| 0 <= a < x.len() && x[a] == v;
                assert(shorter[a] == v);
            }
        }
        lemma_same_ascending(shorter, other);
        assert(x =~= shorter.push(m));
        assert(y =~= other.push(m));
    }
}

/// Where no two records have one id, a record that finds a parent is
/// attached to the record that has the id it names.
proof fn lemma_parent_by_id(rs: Seq<RecordView>, root_id: u64, i: int, p: int)
    requires
        distinct_ids(rs),
        0 <= i < rs.len(),
        0 <= p < rs.len(),
        rs[i].parent_id != root_id,
        rs[p].id == rs[i].parent_id,
        !is_parent(rs, root_id, i, Parent::Missing),
    ensures
        is_parent(rs, root_id, i, Parent::Record(p)),
{
    assert forall|k: int| 0 <= k < rs.len() && k != p implies (#[trigger] rs[k]).id != rs[p].id by {
        if k < p {
            assert(rs[k].id != rs[p].id);
        } else {
            assert(rs[p].id != rs[k].id);
        }
    }
    if has_earlier_parent(rs, i) {
        let j = choose|j: int| 0 <= j < i && (#[trigger] rs[j]).id == rs[i].parent_id;
        assert(j == p);
        assert(is_earlier_parent(rs, i, p));
    } else {
        let k = choose|k: int|
            i < k < rs.len() && (#[trigger] rs[k]).parent_id == root_id && rs[k].id
                == rs[i].parent_id;
        assert(k == p);
        assert(is_later_parent(rs, root_id, i, p));
    }
}

/// A record that is attached at a place in one enumeration is attached at
/// the same place in another that holds the same records.
proof fn lemma_same_place(
    a: Seq<RecordView>,
    b: Seq<RecordView>,
    root_id: u64,
    p: Parent,
    q: Parent,
    c: int,
    d: int,
)
    requires
        distinct_ids(b),
        resolvable(b, root_id),
        same_parent(a, p, b, q),
        0 <= c < a.len(),
        0 <= d < b.len(),
        a[c] == b[d],
        is_parent(a, root_id, c, p),
    ensures
        is_parent(b, root_id, d, q),
{
    match (p, q) {
        (Parent::Record(i), Parent::Record(j)) => {
            assert(a[i].id == a[c].parent_id) by {
                if is_earlier_parent(a, c, i) {
                } else {
                    assert(is_later_parent(a, root_id, c, i));
                }
            }
            lemma_parent_by_id(b, root_id, d, j);
        },
        _ => {},
    }
}

/// The ids of the children of one place are the same in two enumerations
/// that hold the same records.
proof fn lemma_same_child_ids(
    a: Seq<RecordView>,
    b: Seq<RecordView>,
    root_id: u64,
    p: Parent,
    q: Parent,
    v: u64,
)
    requires
        distinct_ids(b),
        resolvable(b, root_id),
        same_records(a, b),
        same_parent(a, p, b, q),
        record_ids(a, children_of(a, root_id, p, 0)).contains(v),
    ensures
        record_ids(b, children_of(b, root_id, q, 0)).contains(v),
{
    let kids = children_of(a, root_id, p, 0);
    let others = children_of(b, root_id, q, 0);
    lemma_children_of(a, root_id, p, 0);
    lemma_children_of(b, root_id, q, 0);
    let x = choose|x: int| 0 <= x < kids.len() && record_ids(a, kids)[x] == v;
    let c = kids[x];
    assert(b.contains(a[c]));
    let d = choose|d: int| 0 <= d < b.len() && b[d] == a[c];
    lemma_same_place(a, b, root_id, p, q, c, d);
    assert(others.contains(d));
    let y = choose|y: int| 0 <= y < others.len() && others[y] == d;
    assert(record_ids(b, others)[y] == v);
}

/// The children of one place are the same records, in the same order, in
/// two enumerations that hold the same records.
proof fn lemma_same_children(
    a: Seq<RecordView>,
    b: Seq<RecordView>,
    root_id: u64,
    p: Parent,
    q: Parent,
)
    requires
        distinct_ids(a),
        distinct_ids(b),
        resolvable(a, root_id),
        resolvable(b, root_id),
        same_records(a, b),
        same_parent(a, p, b, q),
    ensures
        children_of(a, root_id, p, 0).len() == children_of(b, root_id, q, 0).len(),
        forall|x: int|
            0 <= x < children_of(a, root_id, p, 0).len() ==> {
                let c = #[trigger] children_of(a, root_id, p, 0)[x];
                let d = children_of(b, root_id, q, 0)[x];
                0 <= c < a.len() && 0 <= d < b.len() && a[c] == b[d]
            },
{
    let kids = children_of(a, root_id, p, 0);
    let others = children_of(b, root_id, q, 0);
    lemma_children_of(a, root_id, p, 0);
    lemma_children_of(b, root_id, q, 0);
    lemma_children_rise(a, root_id, p, 0);
    lemma_children_rise(b, root_id, q, 0);
    assert(same_parent(b, q, a, p));
    assert forall|v: u64| record_ids(a, kids).contains(v) <==> record_ids(b, others).contains(
        v,
    ) by {
        if record_ids(a, kids).contains(v) {
            lemma_same_child_ids(a, b, root_id, p, q, v);
        }
        if record_ids(b, others).contains(v) {
            lemma_same_child_ids(b, a, root_id, q, p, v);
        }
    }
    lemma_same_ascending(record_ids(a, kids), record_ids(b, others));
    assert forall|x: int| 0 <= x < kids.len() implies {
        let c = #[trigger] kids[x];
        let d = others[x];
        0 <= c < a.len() && 0 <= d < b.len() && a[c] == b[d]
    } by {
        let c = kids[x];
        let d = others[x];
        assert(record_ids(a, kids)[x] == record_ids(b, others)[x]);
        assert(b.contains(a[c]));
        let e = choose|e: int| 0 <= e < b.len() && b[e] == a[c];
        if e < d {
            assert(b[e].id != b[d].id);
        } else if d < e {
            assert(b[d].id != b[e].id);
        }
    }
}

/// The subtrees of one record are the same in two enumerations that hold
/// the same records.
proof fn lemma_same_subtree(
    s: NodeView,
    t: NodeView,
    a: Seq<RecordView>,
    b: Seq<RecordView>,
    root_id: u64,
    overlay: Map<u64, String>,
    i: int,
    j: int,
)
    requires
        distinct_ids(a),
        distinct_ids(b),
        resolvable(a, root_id),
        resolvable(b, root_id),
        same_records(a, b),
        0 <= i < a.len(),
        0 <= j < b.len(),
        a[i] == b[j],
        holds_record(s, a, root_id, overlay, i, 0),
        holds_record(t, b, root_id, overlay, j, 0),
        s.relative_path == t.relative_path,
    ensures
        s == t,
    decreases s,
{
    let kids = children_of(a, root_id, Parent::Record(i), 0);
    let others = children_of(b, root_id, Parent::Record(j), 0);
    lemma_same_children(a, b, root_id, Parent::Record(i), Parent::Record(j));
    assert forall|x: int| 0 <= x < s.children.len() implies s.children[x] == t.children[x] by {
        let c = kids[x];
        let d = others[x];
        assert(a[c] == b[d]);
        assert(holds_record(s.children[x], a, root_id, overlay, c, 0));
        assert(holds_record(t.children[x], b, root_id, overlay, d, 0));
        lemma_same_subtree(s.children[x], t.children[x], a, b, root_id, overlay, c, d);
    }
    assert(s.children =~= t.children);
}

/// The order of the enumeration does not show in the tree: two
/// enumerations that hold the same records, no two of them with one id,
/// and in which every record finds its parent give the same tree, with the
/// same order of siblings.
pub proof fn lemma_order_of_enumeration_is_immaterial(
    s: NodeView,
    t: NodeView,
    root: RecordView,
    a: Seq<RecordView>,
    b: Seq<RecordView>,
    overlay: Map<u64, String>,
)
    requires
        is_tree(s, root, a, overlay),
        is_tree(t, root, b, overlay),
        same_records(a, b),
        distinct_ids(a),
        distinct_ids(b),
        resolvable(a, root.id),
        resolvable(b, root.id),
    ensures
        s == t,
{
    let kids = children_of(a, root.id, Parent::Root, 0);
    let others = children_of(b, root.id, Parent::Root, 0);
    lemma_same_children(a, b, root.id, Parent::Root, Parent::Root);
    assert forall|x: int| 0 <= x < s.children.len() implies s.children[x] == t.children[x] by {
        let c = kids[x];
        let d = others[x];
        assert(a[c] == b[d]);
        assert(is_subtree(s.children[x], a, root.id, overlay, c, Parent::Root));
        assert(is_subtree(t.children[x], b, root.id, overlay, d, Parent::Root));
        lemma_same_subtree(s.children[x], t.children[x], a, b, root.id, overlay, c, d);
    }
    assert(s.children =~= t.children);
}

} // verus!
