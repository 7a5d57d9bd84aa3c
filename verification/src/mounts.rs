//! The overlay of mount points: which subvolume of the filesystem that
//! serves a path is mounted where.

use std::collections::HashMap;
use vstd::prelude::*;

use crate::decimal::{parse_u64, parsed_u64};
use crate::error::TreeError;
use crate::path::{same_text, starts_with, trim_start, without_repeated_prefix};

verus! {

broadcast use vstd::std_specs::hash::group_hash_axioms;

/// One row of the table of active mounts.
#[derive(Clone, Debug, PartialEq, Eq)]
pub struct MountRow {
    /// The device or volume that is mounted.
    pub device_source: String,
    /// Where it is mounted.
    pub mount_path: String,
    /// The type of the filesystem on it.
    pub filesystem_type: String,
    /// The options it is mounted with.
    pub options: Vec<String>,
}

/// A row of the mount table as a mathematical value.
pub ghost struct MountRowView {
    pub device_source: Seq<char>,
    pub mount_path: Seq<char>,
    pub filesystem_type: Seq<char>,
    pub options: Seq<Seq<char>>,
}

/// The texts of a list of strings.
pub open spec fn texts(strings: Seq<String>) -> Seq<Seq<char>> {
    Seq::new(strings.len(), |i: int| strings[i]@)
}

impl View for MountRow {
    type V = MountRowView;

    open spec fn view(&self) -> MountRowView {
        MountRowView {
            device_source: self.device_source@,
            mount_path: self.mount_path@,
            filesystem_type: self.filesystem_type@,
            options: texts(self.options@),
        }
    }
}

/// The rows of a mount table as mathematical values, in its order.
pub open spec fn row_views(rows: Seq<MountRow>) -> Seq<MountRowView> {
    Seq::new(rows.len(), |i: int| rows[i]@)
}

/// What a mount says of the subvolume it is bound to.
#[derive(Clone, Copy, Debug, PartialEq, Eq, Structural)]
pub enum Binding {
    /// No option names a subvolume id.
    Unbound,
    /// The mount is bound to the subvolume with this id.
    Bound(u64),
    /// The option that names the subvolume id does not hold a number.
    Malformed,
}

/// The name of the filesystem type whose mounts are looked at.
pub open spec fn btrfs() -> Seq<char> {
    "btrfs"@
}

/// The start of the mount option that names a subvolume id.
pub open spec fn subvolid_key() -> Seq<char> {
    "subvolid="@
}

/// What stands behind the key in the first option that starts with
/// `subvolid=`, the key taken from its front as often as it stands there.
pub open spec fn subvolid_text(options: Seq<Seq<char>>) -> Option<Seq<char>>
    decreases options.len(),
{
    if options.len() == 0 {
        None
    } else if subvolid_key().is_prefix_of(options[0]) {
        Some(trim_start(options[0], subvolid_key()))
    } else {
        subvolid_text(options.drop_first())
    }
}

/// The binding that a list of mount options states.
pub open spec fn binding_of(options: Seq<Seq<char>>) -> Binding {
    match subvolid_text(options) {
        None => Binding::Unbound,
        Some(number) => match parsed_u64(number) {
            Some(id) => Binding::Bound(id),
            None => Binding::Malformed,
        },
    }
}

/// Whether `row` is a btrfs mount at a path that `query` starts with.
pub open spec fn serves(row: MountRowView, query: Seq<char>) -> bool {
    row.filesystem_type == btrfs() && row.mount_path.is_prefix_of(query)
}

/// Whether the `i`-th row is the mount that serves `query`: of the btrfs
/// mounts at a path that `query` starts with the one with the longest path,
/// and the first of those where several have it.
pub open spec fn is_serving_row(rows: Seq<MountRowView>, query: Seq<char>, i: int) -> bool {
    &&& 0 <= i < rows.len()
    &&& serves(rows[i], query)
    &&& forall|k: int|
        0 <= k < rows.len() && serves(#[trigger] rows[k], query) ==> rows[k].mount_path.len()
            <= rows[i].mount_path.len()
    &&& forall|k: int|
        0 <= k < i && serves(#[trigger] rows[k], query) ==> rows[k].mount_path.len()
            < rows[i].mount_path.len()
}

/// Whether `row` is a btrfs mount of the device `device`.
pub open spec fn on_device(row: MountRowView, device: Seq<char>) -> bool {
    row.filesystem_type == btrfs() && row.device_source == device
}

/// Whether some btrfs mount of `device` has an option for the subvolume id
/// that holds no number.
pub open spec fn has_malformed_binding(rows: Seq<MountRowView>, device: Seq<char>) -> bool {
    exists|k: int|
        0 <= k < rows.len() && on_device(#[trigger] rows[k], device) && binding_of(rows[k].options)
            == Binding::Malformed
}

/// The last of the first `upto` rows that is a btrfs mount of `device`
/// bound to the subvolume `id`.
pub open spec fn last_binding(rows: Seq<MountRowView>, device: Seq<char>, id: u64, upto: int) -> Option<
    int,
>
    decreases upto,
{
    if upto <= 0 {
        None
    } else if on_device(rows[upto - 1], device) && binding_of(rows[upto - 1].options)
        == Binding::Bound(id) {
        Some(upto - 1)
    } else {
        last_binding(rows, device, id, upto - 1)
    }
}

/// Whether `overlay` maps every subvolume id that one of the first `upto`
/// rows binds on `device` to the mount path of the last such row, and no
/// other id.
pub open spec fn is_overlay(
    overlay: Map<u64, String>,
    rows: Seq<MountRowView>,
    device: Seq<char>,
    upto: int,
) -> bool {
    forall|id: u64|
        match #[trigger] last_binding(rows, device, id, upto) {
            Some(k) => overlay.contains_key(id) && overlay[id]@ == rows[k].mount_path,
            None => !overlay.contains_key(id),
        }
}

/// Reads from the options of a mount the subvolume it is bound to.
pub fn binding(options: &Vec<String>) -> (bound: Binding)
    ensures
        bound == binding_of(texts(options@)),
{
    let ghost all = texts(options@);
    let mut i: usize = 0;
    assert(all.skip(0) =~= all);
    while i < options.len()
        invariant
            i <= options.len(),
            all == texts(options@),
            subvolid_text(all) == subvolid_text(all.skip(i as int)),
        decreases options.len() - i,
    {
        let option: &str = options[i].as_str();
        proof {
            assert(all.skip(i as int)[0] == option@);
            assert(all.skip(i as int).drop_first() =~= all.skip(i + 1));
        }
        if starts_with(option, "subvolid=") {
            return match parse_u64(without_repeated_prefix(option, "subvolid=")) {
                Some(id) => Binding::Bound(id),
                None => Binding::Malformed,
            };
        }
        i += 1;
    }
    Binding::Unbound
}

/// Finds the mount that serves `query`.
pub fn serving_row(rows: &Vec<MountRow>, query: &str) -> (found: Option<usize>)
    ensures
        match found {
            Some(i) => is_serving_row(row_views(rows@), query@, i as int),
            None => forall|k: int|
                0 <= k < rows.len() ==> !serves(#[trigger] row_views(rows@)[k], query@),
        },
{
    let ghost all = row_views(rows@);
    let mut found: Option<usize> = None;
    let mut longest: usize = 0;
    let mut k: usize = 0;
    while k < rows.len()
        invariant
            k <= rows.len(),
            all == row_views(rows@),
            match found {
                Some(i) => {
                    &&& i < k
                    &&& longest == all[i as int].mount_path.len()
                    &&& serves(all[i as int], query@)
                    &&& forall|j: int|
                        0 <= j < k && serves(#[trigger] all[j], query@) ==> all[j].mount_path.len()
                            <= longest
                    &&& forall|j: int|
                        0 <= j < i && serves(#[trigger] all[j], query@) ==> all[j].mount_path.len()
                            < longest
                },
                None => forall|j: int| 0 <= j < k ==> !serves(#[trigger] all[j], query@),
            },
        decreases rows.len() - k,
    {
        let row = &rows[k];
        if same_text(row.filesystem_type.as_str(), "btrfs") && starts_with(
            query,
            row.mount_path.as_str(),
        ) {
            let length: usize = row.mount_path.as_str().unicode_len();
            if found.is_none() || length > longest {
                found = Some(k);
                longest = length;
            }
        }
        k += 1;
    }
    found
}

/// Builds the overlay of mount points for the filesystem that serves
/// `query`.
///
/// Of the btrfs mounts in `rows`, the one at the longest path that `query`
/// starts with names the device. Every btrfs mount of that device that is
/// bound to a subvolume id maps that id to its mount path; where several
/// are bound to one id the last one counts. Where no mount serves `query`
/// the overlay is empty. A mount of the device whose option for the
/// subvolume id holds no number makes the whole overlay fail.
pub fn mount_overlay(rows: &Vec<MountRow>, query: &str) -> (result: Result<
    HashMap<u64, String>,
    TreeError,
>)
    ensures
        (forall|k: int| 0 <= k < rows.len() ==> !serves(#[trigger] row_views(rows@)[k], query@))
            ==> (result matches Ok(overlay) && overlay@ == Map::<u64, String>::empty()),
        forall|i: int|
            is_serving_row(row_views(rows@), query@, i) ==> {
                let device = (#[trigger] row_views(rows@)[i]).device_source;
                match result {
                    Ok(overlay) => {
                        &&& !has_malformed_binding(row_views(rows@), device)
                        &&& is_overlay(overlay@, row_views(rows@), device, rows.len() as int)
                    },
                    Err(e) => {
                        &&& has_malformed_binding(row_views(rows@), device)
                        &&& e == TreeError::MountParseFailure
                    },
                }
            },
{
    let ghost all = row_views(rows@);
    let mut overlay: HashMap<u64, String> = HashMap::new();
    let serving: usize = match serving_row(rows, query) {
        Some(i) => i,
        None => {
            assert forall|i: int| is_serving_row(all, query@, i) implies false by {
                assert(serves(all[i], query@));
            }
            return Ok(overlay);
        },
    };
    let ghost device = all[serving as int].device_source;
    proof {
        assert forall|i: int| is_serving_row(all, query@, i) implies i == serving by {
            assert(serves(all[i], query@) && serves(all[serving as int], query@));
        }
        assert(serves(all[serving as int], query@));
    }
    let mut k: usize = 0;
    while k < rows.len()
        invariant
            k <= rows.len(),
            serving < rows.len(),
            all == row_views(rows@),
            device == all[serving as int].device_source,
            serves(all[serving as int], query@),
            forall|i: int| is_serving_row(all, query@, i) ==> i == serving,
            is_overlay(overlay@, all, device, k as int),
            forall|j: int|
                0 <= j < k && on_device(#[trigger] all[j], device) ==> binding_of(all[j].options)
                    != Binding::Malformed,
        decreases rows.len() - k,
    {
        let row = &rows[k];
        let ghost before = overlay@;
        if same_text(row.filesystem_type.as_str(), "btrfs") && row.device_source
            == rows[serving].device_source {
            match binding(&row.options) {
                Binding::Bound(id) => {
                    overlay.insert(id, row.mount_path.clone());
                    proof {
                        assert forall|other: u64|
                            match #[trigger] last_binding(all, device, other, k + 1) {
                                Some(j) => overlay@.contains_key(other) && overlay@[other]@
                                    == all[j].mount_path,
                                None => !overlay@.contains_key(other),
                            } by {
                            let earlier = last_binding(all, device, other, k as int);
                            assert(match earlier {
                                Some(j) => before.contains_key(other) && before[other]@
                                    == all[j].mount_path,
                                None => !before.contains_key(other),
                            });
                        }
                    }
                },
                Binding::Unbound => {
                    proof {
                        assert forall|other: u64|
                            #[trigger] last_binding(all, device, other, k + 1) == last_binding(
                                all,
                                device,
                                other,
                                k as int,
                            ) by {}
                    }
                },
                Binding::Malformed => {
                    assert(on_device(all[k as int], device));
                    return Err(TreeError::MountParseFailure);
                },
            }
        } else {
            proof {
                assert forall|other: u64|
                    #[trigger] last_binding(all, device, other, k + 1) == last_binding(
                        all,
                        device,
                        other,
                        k as int,
                    ) by {}
            }
        }
        k += 1;
    }
    assert(!has_malformed_binding(all, device));
    Ok(overlay)
}

} // verus!
