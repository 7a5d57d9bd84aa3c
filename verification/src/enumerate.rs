//! Draining the enumeration of subvolumes.
//!
//! libbtrfsutil hands out the subvolumes below a given one through a handle
//! that is created for a path, asked for one subvolume after the other, and
//! destroyed. The caller makes those calls; the iterator here decides what
//! each answer means. Any failure ends the enumeration and leaves no
//! records behind.

use vstd::prelude::*;

use vstd::string::*;

use crate::error::{
    check_path, check_status, failure, is_failure_of, is_first_nul, Error, TreeError,
    BTRFS_UTIL_ERROR_STOP_ITERATION, BTRFS_UTIL_OK,
};
use crate::record::{views, RecordView, SubvolumeRecord};

verus! {

/// How far an enumeration has come.
#[derive(Clone, Copy, Debug, PartialEq, Eq, Structural)]
pub enum Progress {
    /// The path was accepted; the handle has still to be created.
    Created,
    /// The handle exists and may hold further subvolumes.
    Open,
    /// Every subvolume was handed out.
    Finished,
    /// The handle could not be created.
    Unavailable(Error),
    /// The request for a subvolume failed.
    Failed(Error),
}

/// The state of one enumeration of the subvolumes below `top`.
pub struct SubvolumeIterator {
    top: u64,
    flags: i32,
    progress: Progress,
    records: Vec<SubvolumeRecord>,
}

/// An enumeration as a mathematical value.
pub ghost struct IteratorView {
    pub top: u64,
    pub flags: i32,
    pub progress: Progress,
    pub records: Seq<RecordView>,
}

impl View for SubvolumeIterator {
    type V = IteratorView;

    closed spec fn view(&self) -> IteratorView {
        IteratorView {
            top: self.top,
            flags: self.flags,
            progress: self.progress,
            records: views(self.records@),
        }
    }
}

impl SubvolumeIterator {
    /// Starts an enumeration of the subvolumes below `top` of the
    /// filesystem at `path`. A path with a NUL byte cannot be handed to
    /// libbtrfsutil.
    pub fn new(path: &str, top: u64, flags: i32) -> (result: Result<Self, Error>)
        ensures
            match result {
                Ok(iterator) => {
                    &&& forall|i: int|
                        0 <= i < path.spec_bytes().len() ==> path.spec_bytes()[i] != 0
                    &&& iterator@ == (IteratorView {
                        top,
                        flags,
                        progress: Progress::Created,
                        records: Seq::empty(),
                    })
                },
                Err(error) => exists|position: int|
                    is_first_nul(path.spec_bytes(), position) && error == Error::NulError(
                        position as usize,
                    ),
            },
    {
        match check_path(path) {
            Ok(_) => {
                let iterator = SubvolumeIterator {
                    top,
                    flags,
                    progress: Progress::Created,
                    records: Vec::new(),
                };
                assert(iterator@.records =~= Seq::empty());
                Ok(iterator)
            },
            Err(error) => Err(error),
        }
    }

    /// The subvolume below which the enumeration runs.
    pub fn top(&self) -> (top: u64)
        ensures
            top == self@.top,
    {
        self.top
    }

    /// The flags that the handle is created with.
    pub fn flags(&self) -> (flags: i32)
        ensures
            flags == self@.flags,
    {
        self.flags
    }

    /// How far the enumeration has come.
    pub fn progress(&self) -> (progress: Progress)
        ensures
            progress == self@.progress,
    {
        self.progress
    }

    /// Takes the status with which libbtrfsutil answered the creation of
    /// the handle. Success opens the enumeration; anything else makes it
    /// unavailable and is given back as the failure it stands for. An
    /// enumeration that is past its creation stays as it is and gives the
    /// failure that ended it, if one did.
    pub fn opened(&mut self, status: u32) -> (result: Result<(), Error>)
        ensures
            old(self)@.progress == Progress::Created && status == BTRFS_UTIL_OK ==> result is Ok
                && final(self)@ == (IteratorView { progress: Progress::Open, ..old(self)@ }),
            old(self)@.progress == Progress::Created && status != BTRFS_UTIL_OK ==> (result matches Err(
                error,
            ) && is_failure_of(status, error) && final(self)@ == (IteratorView {
                progress: Progress::Unavailable(error),
                ..old(self)@
            })),
            old(self)@.progress != Progress::Created ==> final(self)@ == old(self)@ && (
            match old(self)@.progress {
                Progress::Unavailable(error) => result == Err::<(), Error>(error),
                Progress::Failed(error) => result == Err::<(), Error>(error),
                _ => result is Ok,
            }),
    {
        match self.progress {
            Progress::Created => match check_status(status) {
                Ok(_) => {
                    self.progress = Progress::Open;
                    Ok(())
                },
                Err(error) => {
                    self.progress = Progress::Unavailable(error);
                    Err(error)
                },
            },
            Progress::Unavailable(error) => Err(error),
            Progress::Failed(error) => Err(error),
            _ => Ok(()),
        }
    }

    /// Takes one answer of libbtrfsutil to the request for the next
    /// subvolume: its status and the record it filled in.
    ///
    /// On success the record joins the enumeration and the result is
    /// `Some(Ok(..))`. The status that ends the enumeration finishes it and
    /// gives `None`. Any other status fails the enumeration, drops the
    /// records it held and gives the failure. An enumeration that is not
    /// open stays as it is and gives `None`.
    pub fn next(&mut self, status: u32, record: SubvolumeRecord) -> (item: Option<Result<(), Error>>)
        ensures
            old(self)@.progress != Progress::Open ==> item is None && final(self)@ == old(self)@,
            old(self)@.progress == Progress::Open && status == BTRFS_UTIL_OK ==> item == Some(
                Ok::<(), Error>(()),
            ) && final(self)@ == (IteratorView {
                records: old(self)@.records.push(record@),
                ..old(self)@
            }),
            old(self)@.progress == Progress::Open && status == BTRFS_UTIL_ERROR_STOP_ITERATION
                ==> item is None && final(self)@ == (IteratorView {
                progress: Progress::Finished,
                ..old(self)@
            }),
            old(self)@.progress == Progress::Open && status != BTRFS_UTIL_OK && status
                != BTRFS_UTIL_ERROR_STOP_ITERATION ==> (item matches Some(Err(error))
                && is_failure_of(status, error) && final(self)@ == (IteratorView {
                progress: Progress::Failed(error),
                records: Seq::empty(),
                ..old(self)@
            })),
    {
        match self.progress {
            Progress::Open => {
                if status == BTRFS_UTIL_OK {
                    self.records.push(record);
                    assert(self@.records =~= old(self)@.records.push(record@));
                    Some(Ok(()))
                } else if status == BTRFS_UTIL_ERROR_STOP_ITERATION {
                    self.progress = Progress::Finished;
                    None
                } else {
                    let error = failure(status);
                    self.progress = Progress::Failed(error);
                    self.records = Vec::new();
                    assert(self@.records =~= Seq::empty());
                    Some(Err(error))
                }
            },
            _ => None,
        }
    }

    /// What the enumeration came to, once it has ended: its records, in
    /// its order, where it finished, and no records but the failure where
    /// the handle could not be created or a request failed. An enumeration
    /// that has not ended gives `None`.
    pub fn into_records(self) -> (result: Option<Result<Vec<SubvolumeRecord>, TreeError>>)
        ensures
            match self@.progress {
                Progress::Created | Progress::Open => result is None,
                Progress::Finished => result matches Some(Ok(records)) && views(records@)
                    == self@.records,
                Progress::Unavailable(error) => result == Some(
                    Err::<Vec<SubvolumeRecord>, TreeError>(TreeError::SourceUnavailable(error)),
                ),
                Progress::Failed(error) => result == Some(
                    Err::<Vec<SubvolumeRecord>, TreeError>(TreeError::EnumerationFailure(error)),
                ),
            },
    {
        match self.progress {
            Progress::Finished => Some(Ok(self.records)),
            Progress::Unavailable(error) => Some(Err(TreeError::SourceUnavailable(error))),
            Progress::Failed(error) => Some(Err(TreeError::EnumerationFailure(error))),
            _ => None,
        }
    }
}

/// What the lookup of the root subvolume gave: the record where
/// libbtrfsutil answered with success, and else the failure.
pub fn root_lookup(status: u32, record: SubvolumeRecord) -> (result: Result<
    SubvolumeRecord,
    TreeError,
>)
    ensures
        status == BTRFS_UTIL_OK ==> result == Ok::<SubvolumeRecord, TreeError>(record),
        status != BTRFS_UTIL_OK ==> (result matches Err(TreeError::SourceUnavailable(error))
            && is_failure_of(status, error)),
{
    match check_status(status) {
        Ok(_) => Ok(record),
        Err(error) => Err(TreeError::SourceUnavailable(error)),
    }
}

} // verus!
