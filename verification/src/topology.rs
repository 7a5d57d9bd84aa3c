//! Which record is the parent of which, and in what order the children of
//! one parent stand.
//!
//! The records of an enumeration are attached last to first. A record
//! directly below the root goes to the root. Any other record goes to the
//! first record before it that has the id it names as its parent; where
//! there is none, it goes to the record behind it that is directly below
//! the root and has that id, the last such where there are several. A
//! record for which neither exists has no parent to go to.

use vstd::prelude::*;

use crate::node::{ascending, lemma_slot_for_bounds, slot_for};
use crate::record::RecordView;

verus! {

/// Where a record is attached.
pub ghost enum Parent {
    /// Directly below the root.
    Root,
    /// Below the record at this position of the enumeration.
    Record(int),
    /// Nowhere: the enumeration holds no parent for it.
    Missing,
}

/// Whether some record before the `i`-th has the id that the `i`-th names
/// as its parent.
pub open spec fn has_earlier_parent(rs: Seq<RecordView>, i: int) -> bool {
    exists|j: int| 0 <= j < i && (#[trigger] rs[j]).id == rs[i].parent_id
}

/// Whether the `j`-th record is the first before the `i`-th with the id
/// that the `i`-th names as its parent.
pub open spec fn is_earlier_parent(rs: Seq<RecordView>, i: int, j: int) -> bool {
    &&& 0 <= j < i
    &&& rs[j].id == rs[i].parent_id
    &&& forall|k: int| 0 <= k < j ==> (#[trigger] rs[k]).id != rs[i].parent_id
}

/// Whether some record behind the `i`-th is directly below the root and
/// has the id that the `i`-th names as its parent.
pub open spec fn has_later_parent(rs: Seq<RecordView>, root_id: u64, i: int) -> bool {
    exists|k: int|
        i < k < rs.len() && (#[trigger] rs[k]).parent_id == root_id && rs[k].id == rs[i].parent_id
}

/// Whether the `k`-th record is the last behind the `i`-th that is directly
/// below the root and has the id that the `i`-th names as its parent.
pub open spec fn is_later_parent(rs: Seq<RecordView>, root_id: u64, i: int, k: int) -> bool {
    &&& i < k < rs.len()
    &&& rs[k].parent_id == root_id
    &&& rs[k].id == rs[i].parent_id
    &&& forall|l: int|
        k < l < rs.len() && (#[trigger] rs[l]).parent_id == root_id ==> rs[l].id
            != rs[i].parent_id
}

/// Whether the `i`-th record is attached at `parent`.
pub open spec fn is_parent(rs: Seq<RecordView>, root_id: u64, i: int, parent: Parent) -> bool {
    match parent {
        Parent::Root => rs[i].parent_id == root_id,
        Parent::Record(j) => {
            &&& rs[i].parent_id != root_id
            &&& (is_earlier_parent(rs, i, j) || (!has_earlier_parent(rs, i) && is_later_parent(
                rs,
                root_id,
                i,
                j,
            )))
        },
        Parent::Missing => {
            &&& rs[i].parent_id != root_id
            &&& !has_earlier_parent(rs, i)
            &&& !has_later_parent(rs, root_id, i)
        },
    }
}

/// Whether every record has a parent to go to.
pub open spec fn resolvable(rs: Seq<RecordView>, root_id: u64) -> bool {
    forall|i: int| 0 <= i < rs.len() ==> !is_parent(rs, root_id, i, Parent::Missing)
}

/// Whether the `i`-th record is the last one without a parent to go to.
pub open spec fn is_last_orphan(rs: Seq<RecordView>, root_id: u64, i: int) -> bool {
    &&& 0 <= i < rs.len()
    &&& is_parent(rs, root_id, i, Parent::Missing)
    &&& forall|k: int| i < k < rs.len() ==> !is_parent(rs, root_id, k, Parent::Missing)
}

/// The ids of the records at the positions `indices`.
pub open spec fn record_ids(rs: Seq<RecordView>, indices: Seq<int>) -> Seq<u64> {
    Seq::new(indices.len(), |a: int| rs[indices[a]].id)
}

/// The order of siblings: by id, and of two with one id the later record
/// first.
pub open spec fn precedes(rs: Seq<RecordView>, x: int, y: int) -> bool {
    rs[x].id < rs[y].id || (rs[x].id == rs[y].id && x > y)
}

/// The positions of the records from `from` on that are attached at
/// `parent`, in the order of its children. Records are attached last to
/// first, each behind the children whose id is not greater.
pub open spec fn children_of(rs: Seq<RecordView>, root_id: u64, parent: Parent, from: int) -> Seq<
    int,
>
    decreases rs.len() - from,
{
    if from >= rs.len() {
        Seq::empty()
    } else {
        let later = children_of(rs, root_id, parent, from + 1);
        if is_parent(rs, root_id, from, parent) {
            later.insert(slot_for(record_ids(rs, later), rs[from].id), from)
        } else {
            later
        }
    }
}

/// A record is attached at one place only.
pub proof fn lemma_parent_unique(
    rs: Seq<RecordView>,
    root_id: u64,
    i: int,
    p: Parent,
    q: Parent,
)
    requires
        is_parent(rs, root_id, i, p),
        is_parent(rs, root_id, i, q),
    ensures
        p == q,
{
    match (p, q) {
        (Parent::Record(j), Parent::Record(k)) => {
            if is_earlier_parent(rs, i, j) {
                assert(rs[j].id == rs[i].parent_id);
                if is_earlier_parent(rs, i, k) {
                    assert(rs[k].id == rs[i].parent_id);
                    assert(j == k);
                }
            } else {
                if is_earlier_parent(rs, i, k) {
                    assert(rs[k].id == rs[i].parent_id);
                } else {
                    assert(rs[j].parent_id == root_id && rs[k].parent_id == root_id);
                    assert(j == k);
                }
            }
        },
        (Parent::Record(j), Parent::Missing) => {
            if is_earlier_parent(rs, i, j) {
                assert(rs[j].id == rs[i].parent_id);
            } else {
                assert(rs[j].parent_id == root_id);
            }
        },
        (Parent::Missing, Parent::Record(k)) => {
            if is_earlier_parent(rs, i, k) {
                assert(rs[k].id == rs[i].parent_id);
            } else {
                assert(rs[k].parent_id == root_id);
            }
        },
        _ => {},
    }
}

/// What `children_of` holds: the records from `from` on that are attached
/// at `parent`, each once, in the order of siblings, so that their ids never
/// descend.
pub proof fn lemma_children_of(rs: Seq<RecordView>, root_id: u64, parent: Parent, from: int)
    requires
        0 <= from <= rs.len(),
    ensures
        forall|a: int|
            0 <= a < children_of(rs, root_id, parent, from).len() ==> {
                let c = #[trigger] children_of(rs, root_id, parent, from)[a];
                from <= c < rs.len() && is_parent(rs, root_id, c, parent)
            },
        forall|c: int|
            from <= c < rs.len() && is_parent(rs, root_id, c, parent) ==> children_of(
                rs,
                root_id,
                parent,
                from,
            ).contains(c),
        forall|a: int, b: int|
            0 <= a < b < children_of(rs, root_id, parent, from).len() ==> precedes(
                rs,
                #[trigger] children_of(rs, root_id, parent, from)[a],
                #[trigger] children_of(rs, root_id, parent, from)[b],
            ),
        ascending(record_ids(rs, children_of(rs, root_id, parent, from))),
    decreases rs.len() - from,
{
    let kids = children_of(rs, root_id, parent, from);
    if from < rs.len() {
        let later = children_of(rs, root_id, parent, from + 1);
        lemma_children_of(rs, root_id, parent, from + 1);
        if is_parent(rs, root_id, from, parent) {
            let later_ids = record_ids(rs, later);
            let slot = slot_for(later_ids, rs[from].id);
            lemma_slot_for_bounds(later_ids, rs[from].id);
            later.insert_ensures(slot, from);
            assert forall|a: int| 0 <= a < kids.len() implies {
                let c = #[trigger] kids[a];
                from <= c < rs.len() && is_parent(rs, root_id, c, parent)
            } by {
                if a < slot {
                    assert(kids[a] == later[a]);
                } else if a > slot {
                    assert(kids[(a - 1) + 1] == later[a - 1]);
                }
            }
            assert forall|c: int|
                from <= c < rs.len() && is_parent(rs, root_id, c, parent) implies kids.contains(
                c,
            ) by {
                if c == from {
                    assert(kids[slot] == c);
                } else {
                    assert(later.contains(c));
                    let a = choose|a: int| 0 <= a < later.len() && later[a] == c;
                    if a < slot {
                        assert(kids[a] == c);
                    } else {
                        assert(kids[a + 1] == c);
                    }
                }
            }
            assert forall|a: int, b: int| 0 <= a < b < kids.len() implies precedes(
                rs,
                #[trigger] kids[a],
                #[trigger] kids[b],
            ) by {
                let x = if a < slot { a } else { a - 1 };
                let y = if b < slot { b } else { b - 1 };
                if a != slot {
                    assert(kids[a] == later[x]) by {
                        if a > slot {
                            assert(kids[(a - 1) + 1] == later[a - 1]);
                        }
                    }
                    assert(later_ids[x] == rs[later[x]].id);
                }
                if b != slot {
                    assert(kids[b] == later[y]) by {
                        if b > slot {
                            assert(kids[(b - 1) + 1] == later[b - 1]);
                        }
                    }
                    assert(later_ids[y] == rs[later[y]].id);
                }
                if a != slot && b != slot {
                    assert(precedes(rs, later[x], later[y]));
                }
            }
            assert forall|a: int, b: int| 0 <= a < b < kids.len() implies record_ids(rs, kids)[a]
                <= record_ids(rs, kids)[b] by {
                assert(precedes(rs, kids[a], kids[b]));
            }
        }
    } else {
        assert(kids.len() == 0);
    }
}

/// A record that is not directly below the root has all its children
/// behind it.
pub proof fn lemma_children_behind(rs: Seq<RecordView>, root_id: u64, i: int, from: int)
    requires
        0 <= from <= i < rs.len(),
        rs[i].parent_id != root_id,
    ensures
        children_of(rs, root_id, Parent::Record(i), from) == children_of(
            rs,
            root_id,
            Parent::Record(i),
            i + 1,
        ),
    decreases i - from,
{
    if from < i {
        lemma_children_behind(rs, root_id, i, from + 1);
    }
    assert(!is_parent(rs, root_id, from, Parent::Record(i)));
}

} // verus!
