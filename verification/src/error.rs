//! Error kinds reported by libbtrfsutil and by this library.

use vstd::prelude::*;
use vstd::string::*;

verus! {

/// The code libbtrfsutil returns on success.
pub const BTRFS_UTIL_OK: u32 = 0;

/// The code with which libbtrfsutil ends an enumeration.
pub const BTRFS_UTIL_ERROR_STOP_ITERATION: u32 = 1;

/// The failures libbtrfsutil reports, in the order of its `enum btrfs_util_error`.
#[derive(Clone, Copy, Debug, PartialEq, Eq, Structural)]
pub enum BtrfsError {
    StopIteration,
    NoMemory,
    InvalidArgument,
    NotBtrfs,
    NotSubvolume,
    SubvolumeNotFound,
    OpenFailed,
    RmdirFailed,
    UnlinkFailed,
    StatFailed,
    StatfsFailed,
    SearchFailed,
    InoLookupFailed,
    SubvolGetflagsFailed,
    SubvolSetflagsFailed,
    SubvolCreateFailed,
    SnapCreateFailed,
    SnapDestroyFailed,
    DefaultSubvolFailed,
    SyncFailed,
    StartSyncFailed,
    WaitSyncFailed,
    GetSubvolInfoFailed,
    GetSubvolRootrefFailed,
    InoLookupUserFailed,
    FsInfoFailed,
}

impl BtrfsError {
    /// The numeric code libbtrfsutil uses for this failure.
    pub open spec fn code(self) -> u32 {
        match self {
            BtrfsError::StopIteration => 1,
            BtrfsError::NoMemory => 2,
            BtrfsError::InvalidArgument => 3,
            BtrfsError::NotBtrfs => 4,
            BtrfsError::NotSubvolume => 5,
            BtrfsError::SubvolumeNotFound => 6,
            BtrfsError::OpenFailed => 7,
            BtrfsError::RmdirFailed => 8,
            BtrfsError::UnlinkFailed => 9,
            BtrfsError::StatFailed => 10,
            BtrfsError::StatfsFailed => 11,
            BtrfsError::SearchFailed => 12,
            BtrfsError::InoLookupFailed => 13,
            BtrfsError::SubvolGetflagsFailed => 14,
            BtrfsError::SubvolSetflagsFailed => 15,
            BtrfsError::SubvolCreateFailed => 16,
            BtrfsError::SnapCreateFailed => 17,
            BtrfsError::SnapDestroyFailed => 18,
            BtrfsError::DefaultSubvolFailed => 19,
            BtrfsError::SyncFailed => 20,
            BtrfsError::StartSyncFailed => 21,
            BtrfsError::WaitSyncFailed => 22,
            BtrfsError::GetSubvolInfoFailed => 23,
            BtrfsError::GetSubvolRootrefFailed => 24,
            BtrfsError::InoLookupUserFailed => 25,
            BtrfsError::FsInfoFailed => 26,
        }
    }

    /// The failure a raw libbtrfsutil code stands for, if it stands for one.
    pub fn from_raw(raw: u32) -> (kind: Option<Self>)
        ensures
            kind matches Some(e) ==> e.code() == raw,
            kind is None <==> !(1 <= raw <= 26),
    {
        match raw {
            1 => Some(BtrfsError::StopIteration),
            2 => Some(BtrfsError::NoMemory),
            3 => Some(BtrfsError::InvalidArgument),
            4 => Some(BtrfsError::NotBtrfs),
            5 => Some(BtrfsError::NotSubvolume),
            6 => Some(BtrfsError::SubvolumeNotFound),
            7 => Some(BtrfsError::OpenFailed),
            8 => Some(BtrfsError::RmdirFailed),
            9 => Some(BtrfsError::UnlinkFailed),
            10 => Some(BtrfsError::StatFailed),
            11 => Some(BtrfsError::StatfsFailed),
            12 => Some(BtrfsError::SearchFailed),
            13 => Some(BtrfsError::InoLookupFailed),
            14 => Some(BtrfsError::SubvolGetflagsFailed),
            15 => Some(BtrfsError::SubvolSetflagsFailed),
            16 => Some(BtrfsError::SubvolCreateFailed),
            17 => Some(BtrfsError::SnapCreateFailed),
            18 => Some(BtrfsError::SnapDestroyFailed),
            19 => Some(BtrfsError::DefaultSubvolFailed),
            20 => Some(BtrfsError::SyncFailed),
            21 => Some(BtrfsError::StartSyncFailed),
            22 => Some(BtrfsError::WaitSyncFailed),
            23 => Some(BtrfsError::GetSubvolInfoFailed),
            24 => Some(BtrfsError::GetSubvolRootrefFailed),
            25 => Some(BtrfsError::InoLookupUserFailed),
            26 => Some(BtrfsError::FsInfoFailed),
            _ => None,
        }
    }

    /// The numeric code libbtrfsutil uses for this failure.
    pub fn as_raw(self) -> (raw: u32)
        ensures
            raw == self.code(),
    {
        match self {
            BtrfsError::StopIteration => 1,
            BtrfsError::NoMemory => 2,
            BtrfsError::InvalidArgument => 3,
            BtrfsError::NotBtrfs => 4,
            BtrfsError::NotSubvolume => 5,
            BtrfsError::SubvolumeNotFound => 6,
            BtrfsError::OpenFailed => 7,
            BtrfsError::RmdirFailed => 8,
            BtrfsError::UnlinkFailed => 9,
            BtrfsError::StatFailed => 10,
            BtrfsError::StatfsFailed => 11,
            BtrfsError::SearchFailed => 12,
            BtrfsError::InoLookupFailed => 13,
            BtrfsError::SubvolGetflagsFailed => 14,
            BtrfsError::SubvolSetflagsFailed => 15,
            BtrfsError::SubvolCreateFailed => 16,
            BtrfsError::SnapCreateFailed => 17,
            BtrfsError::SnapDestroyFailed => 18,
            BtrfsError::DefaultSubvolFailed => 19,
            BtrfsError::SyncFailed => 20,
            BtrfsError::StartSyncFailed => 21,
            BtrfsError::WaitSyncFailed => 22,
            BtrfsError::GetSubvolInfoFailed => 23,
            BtrfsError::GetSubvolRootrefFailed => 24,
            BtrfsError::InoLookupUserFailed => 25,
            BtrfsError::FsInfoFailed => 26,
        }
    }

    /// Every failure has a code of its own, and none has the code of
    /// success.
    pub proof fn lemma_codes_differ(self, other: BtrfsError)
        ensures
            1 <= self.code() <= 26,
            self.code() == other.code() ==> self == other,
    {
    }
}

/// A failure of a call into libbtrfsutil.
#[derive(Clone, Copy, Debug, PartialEq, Eq, Structural)]
pub enum Error {
    /// libbtrfsutil reported this failure.
    BtrfsError(BtrfsError),
    /// The path holds a NUL byte, at this position.
    NulError(usize),
    /// libbtrfsutil returned a code that stands for no failure it names.
    UnknownBtrfsError,
}

impl From<BtrfsError> for Error {
    fn from(err: BtrfsError) -> (error: Error) {
        Error::BtrfsError(err)
    }
}

impl vstd::std_specs::convert::FromSpecImpl<BtrfsError> for Error {
    open spec fn obeys_from_spec() -> bool {
        true
    }

    open spec fn from_spec(err: BtrfsError) -> Error {
        Error::BtrfsError(err)
    }
}

impl From<Option<BtrfsError>> for Error {
    fn from(err: Option<BtrfsError>) -> (error: Error) {
        match err {
            Some(err) => Error::BtrfsError(err),
            None => Error::UnknownBtrfsError,
        }
    }
}

impl vstd::std_specs::convert::FromSpecImpl<Option<BtrfsError>> for Error {
    open spec fn obeys_from_spec() -> bool {
        true
    }

    open spec fn from_spec(err: Option<BtrfsError>) -> Error {
        match err {
            Some(err) => Error::BtrfsError(err),
            None => Error::UnknownBtrfsError,
        }
    }
}

/// Whether `error` is what the status code `code` of libbtrfsutil, which is
/// not the code of success, stands for: the failure with that code, or the
/// unknown failure where no failure has it.
pub open spec fn is_failure_of(code: u32, error: Error) -> bool {
    match error {
        Error::BtrfsError(kind) => kind.code() == code,
        Error::UnknownBtrfsError => !(1 <= code <= 26),
        Error::NulError(_) => false,
    }
}

/// The failure that a status code of libbtrfsutil stands for.
pub fn failure(code: u32) -> (error: Error)
    ensures
        is_failure_of(code, error),
{
    match BtrfsError::from_raw(code) {
        Some(kind) => Error::BtrfsError(kind),
        None => Error::UnknownBtrfsError,
    }
}

/// What a status code of libbtrfsutil says of the call that returned it.
pub fn check_status(code: u32) -> (result: Result<(), Error>)
    ensures
        result is Ok <==> code == BTRFS_UTIL_OK,
        result matches Err(error) ==> is_failure_of(code, error),
{
    if code == BTRFS_UTIL_OK {
        Ok(())
    } else {
        Err(failure(code))
    }
}

/// Whether the first NUL byte of `bytes` stands at `position`.
pub open spec fn is_first_nul(bytes: Seq<u8>, position: int) -> bool {
    &&& 0 <= position < bytes.len()
    &&& bytes[position] == 0
    &&& forall|i: int| 0 <= i < position ==> bytes[i] != 0
}

/// Whether libbtrfsutil can take `path`: a path must not hold a NUL byte.
/// The error names the position of the first one.
pub fn check_path(path: &str) -> (result: Result<(), Error>)
    ensures
        match result {
            Ok(_) => forall|i: int|
                0 <= i < path.spec_bytes().len() ==> path.spec_bytes()[i] != 0,
            Err(error) => exists|position: int|
                is_first_nul(path.spec_bytes(), position) && error == Error::NulError(
                    position as usize,
                ),
        },
{
    let bytes = path.as_bytes();
    let mut i: usize = 0;
    while i < bytes.len()
        invariant
            i <= bytes.len(),
            bytes@ == path.spec_bytes(),
            forall|k: int| 0 <= k < i ==> bytes[k] != 0,
        decreases bytes.len() - i,
    {
        if bytes[i] == 0 {
            assert(is_first_nul(path.spec_bytes(), i as int));
            return Err(Error::NulError(i));
        }
        i += 1;
    }
    Ok(())
}

/// Why no tree of subvolumes could be built.
#[derive(Clone, Copy, Debug, PartialEq, Eq, Structural)]
pub enum TreeError {
    /// The root subvolume could not be looked up: the path is not on a
    /// btrfs filesystem, or the lookup failed otherwise.
    SourceUnavailable(Error),
    /// The enumeration of subvolumes failed before it ended.
    EnumerationFailure(Error),
    /// The subvolume `id` names a parent that the enumeration holds neither
    /// before it nor, directly below the root, behind it.
    TopologyViolation { id: u64 },
    /// A `subvolid=` mount option does not hold a number.
    MountParseFailure,
}

} // verus!
