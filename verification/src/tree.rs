//! The tree of subvolumes that an enumeration describes.

use vstd::prelude::*;

use crate::node::{ids, NodeView};
use crate::path::{relativize, strip_separator};
use crate::record::RecordView;
use crate::topology::{children_of, record_ids, Parent};

verus! {

/// Where the overlay says the subvolume `id` is mounted.
pub open spec fn mountpoint_of(overlay: Map<u64, String>, id: u64) -> Option<Seq<char>> {
    if overlay.contains_key(id) {
        Some(overlay[id]@)
    } else {
        None
    }
}

/// The path of the `i`-th record as seen from where it is attached: below
/// the root without one leading separator, below another record relative to
/// that record's path. A path that was not resolved stays unknown.
pub open spec fn relative_path_under(rs: Seq<RecordView>, i: int, parent: Parent) -> Option<
    Seq<char>,
> {
    match rs[i].absolute_path {
        None => None,
        Some(path) => Some(
            match parent {
                Parent::Root => strip_separator(path),
                Parent::Record(j) => relativize(path, rs[j].absolute_path),
                Parent::Missing => path,
            },
        ),
    }
}

/// Whether `t` stands for the `i`-th record with the children that it has
/// among the records from `from` on, each of them a whole subtree.
pub open spec fn holds_record(
    t: NodeView,
    rs: Seq<RecordView>,
    root_id: u64,
    overlay: Map<u64, String>,
    i: int,
    from: int,
) -> bool
    decreases t,
{
    let kids = children_of(rs, root_id, Parent::Record(i), from);
    &&& t.id == rs[i].id
    &&& t.unique_id == rs[i].unique_id
    &&& t.mountpoint == mountpoint_of(overlay, rs[i].id)
    &&& t.children.len() == kids.len()
    &&& forall|a: int|
        0 <= a < t.children.len() ==> {
            &&& (#[trigger] t.children[a]).relative_path == relative_path_under(
                rs,
                kids[a],
                Parent::Record(i),
            )
            &&& holds_record(t.children[a], rs, root_id, overlay, kids[a], 0)
        }
}

/// Whether `t` is the subtree of the `i`-th record, attached at `parent`.
pub open spec fn is_subtree(
    t: NodeView,
    rs: Seq<RecordView>,
    root_id: u64,
    overlay: Map<u64, String>,
    i: int,
    parent: Parent,
) -> bool {
    &&& t.relative_path == relative_path_under(rs, i, parent)
    &&& holds_record(t, rs, root_id, overlay, i, 0)
}

/// Whether `t` is the tree of the enumeration `rs` below the root record
/// `root`, with the mount points of `overlay`.
pub open spec fn is_tree(
    t: NodeView,
    root: RecordView,
    rs: Seq<RecordView>,
    overlay: Map<u64, String>,
) -> bool {
    let kids = children_of(rs, root.id, Parent::Root, 0);
    &&& t.id == root.id
    &&& t.unique_id == root.unique_id
    &&& t.relative_path is None
    &&& t.mountpoint == mountpoint_of(overlay, root.id)
    &&& t.children.len() == kids.len()
    &&& forall|a: int|
        0 <= a < t.children.len() ==> is_subtree(
            #[trigger] t.children[a],
            rs,
            root.id,
            overlay,
            kids[a],
            Parent::Root,
        )
}

/// The ids of the children of a node that stands for a record are the ids
/// of the records that are its children.
pub proof fn lemma_child_ids(
    t: NodeView,
    rs: Seq<RecordView>,
    root_id: u64,
    overlay: Map<u64, String>,
    i: int,
    from: int,
)
    requires
        holds_record(t, rs, root_id, overlay, i, from),
    ensures
        ids(t.children) == record_ids(rs, children_of(rs, root_id, Parent::Record(i), from)),
{
    let kids = children_of(rs, root_id, Parent::Record(i), from);
    assert forall|a: int| 0 <= a < t.children.len() implies ids(t.children)[a] == record_ids(
        rs,
        kids,
    )[a] by {
        assert(holds_record(t.children[a], rs, root_id, overlay, kids[a], 0));
    }
    assert(ids(t.children) =~= record_ids(rs, kids));
}

} // verus!
