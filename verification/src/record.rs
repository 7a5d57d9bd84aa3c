//! The rows that the subvolume enumeration yields.

use vstd::prelude::*;

use crate::path::text;

verus! {

/// The id of the top-level subvolume of every btrfs filesystem.
pub const ROOT_SUBVOLUME_ID: u64 = 5;

/// One subvolume as the enumeration reports it.
#[derive(Clone, Debug, PartialEq, Eq)]
pub struct SubvolumeRecord {
    /// The id of the subvolume, stable while it exists.
    pub id: u64,
    /// The id of the subvolume that contains it.
    pub parent_id: u64,
    /// The UUID of the subvolume.
    pub unique_id: [u8; 16],
    /// The path from the top of the filesystem, where it could be resolved.
    pub absolute_path: Option<String>,
}

/// A subvolume record as a mathematical value.
pub ghost struct RecordView {
    pub id: u64,
    pub parent_id: u64,
    pub unique_id: Seq<u8>,
    pub absolute_path: Option<Seq<char>>,
}

impl View for SubvolumeRecord {
    type V = RecordView;

    open spec fn view(&self) -> RecordView {
        RecordView {
            id: self.id,
            parent_id: self.parent_id,
            unique_id: self.unique_id@,
            absolute_path: text(self.absolute_path),
        }
    }
}

/// The records of an enumeration as mathematical values, in its order.
pub open spec fn views(records: Seq<SubvolumeRecord>) -> Seq<RecordView> {
    Seq::new(records.len(), |i: int| records[i]@)
}

} // verus!
