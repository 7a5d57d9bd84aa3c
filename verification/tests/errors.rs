use btrfs_subvolume_tree::enumerate::{root_lookup, Progress, SubvolumeIterator};
use btrfs_subvolume_tree::error::{
    check_path, check_status, failure, BtrfsError, Error, TreeError,
    BTRFS_UTIL_ERROR_STOP_ITERATION, BTRFS_UTIL_OK,
};
use btrfs_subvolume_tree::record::SubvolumeRecord;

fn record(id: u64) -> SubvolumeRecord {
    SubvolumeRecord { id, parent_id: 5, unique_id: [id as u8; 16], absolute_path: None }
}

fn all_kinds() -> Vec<BtrfsError> {
    vec![
        BtrfsError::StopIteration,
        BtrfsError::NoMemory,
        BtrfsError::InvalidArgument,
        BtrfsError::NotBtrfs,
        BtrfsError::NotSubvolume,
        BtrfsError::SubvolumeNotFound,
        BtrfsError::OpenFailed,
        BtrfsError::RmdirFailed,
        BtrfsError::UnlinkFailed,
        BtrfsError::StatFailed,
        BtrfsError::StatfsFailed,
        BtrfsError::SearchFailed,
        BtrfsError::InoLookupFailed,
        BtrfsError::SubvolGetflagsFailed,
        BtrfsError::SubvolSetflagsFailed,
        BtrfsError::SubvolCreateFailed,
        BtrfsError::SnapCreateFailed,
        BtrfsError::SnapDestroyFailed,
        BtrfsError::DefaultSubvolFailed,
        BtrfsError::SyncFailed,
        BtrfsError::StartSyncFailed,
        BtrfsError::WaitSyncFailed,
        BtrfsError::GetSubvolInfoFailed,
        BtrfsError::GetSubvolRootrefFailed,
        BtrfsError::InoLookupUserFailed,
        BtrfsError::FsInfoFailed,
    ]
}

#[test]
fn codes_follow_the_order_of_the_kinds() {
    for (position, kind) in all_kinds().into_iter().enumerate() {
        assert_eq!(kind.as_raw(), position as u32 + 1);
    }
}

#[test]
fn from_raw_gives_back_every_kind() {
    for kind in all_kinds() {
        assert_eq!(BtrfsError::from_raw(kind.as_raw()), Some(kind));
    }
}

#[test]
fn from_raw_knows_named_codes() {
    assert_eq!(BtrfsError::from_raw(1), Some(BtrfsError::StopIteration));
    assert_eq!(BtrfsError::from_raw(4), Some(BtrfsError::NotBtrfs));
    assert_eq!(BtrfsError::from_raw(6), Some(BtrfsError::SubvolumeNotFound));
    assert_eq!(BtrfsError::from_raw(26), Some(BtrfsError::FsInfoFailed));
}

#[test]
fn from_raw_refuses_other_codes() {
    assert_eq!(BtrfsError::from_raw(0), None);
    assert_eq!(BtrfsError::from_raw(27), None);
    assert_eq!(BtrfsError::from_raw(u32::MAX), None);
}

#[test]
fn success_and_stop_codes() {
    assert_eq!(BTRFS_UTIL_OK, 0);
    assert_eq!(BTRFS_UTIL_ERROR_STOP_ITERATION, BtrfsError::StopIteration.as_raw());
}

#[test]
fn error_from_a_kind() {
    assert_eq!(Error::from(BtrfsError::NotBtrfs), Error::BtrfsError(BtrfsError::NotBtrfs));
}

#[test]
fn error_from_an_optional_kind() {
    assert_eq!(Error::from(Some(BtrfsError::NoMemory)), Error::BtrfsError(BtrfsError::NoMemory));
    assert_eq!(Error::from(None), Error::UnknownBtrfsError);
}

#[test]
fn failure_of_a_code() {
    assert_eq!(failure(4), Error::BtrfsError(BtrfsError::NotBtrfs));
    assert_eq!(failure(77), Error::UnknownBtrfsError);
    assert_eq!(failure(0), Error::UnknownBtrfsError);
}

#[test]
fn check_status_accepts_only_success() {
    assert_eq!(check_status(0), Ok(()));
    assert_eq!(check_status(1), Err(Error::BtrfsError(BtrfsError::StopIteration)));
    assert_eq!(check_status(12), Err(Error::BtrfsError(BtrfsError::SearchFailed)));
    assert_eq!(check_status(1000), Err(Error::UnknownBtrfsError));
}

#[test]
fn check_path_finds_the_first_nul() {
    assert_eq!(check_path("/"), Ok(()));
    assert_eq!(check_path(""), Ok(()));
    assert_eq!(check_path("/mnt/é"), Ok(()));
    assert_eq!(check_path("\0"), Err(Error::NulError(0)));
    assert_eq!(check_path("/a\0b\0"), Err(Error::NulError(2)));
    assert_eq!(check_path("é\0"), Err(Error::NulError(2)));
}

#[test]
fn iterator_refuses_a_path_with_nul() {
    assert!(matches!(SubvolumeIterator::new("/a\0", 5, 0), Err(Error::NulError(2))));
}

#[test]
fn iterator_starts_created() {
    let iterator = SubvolumeIterator::new("/", 5, 3).unwrap();
    assert_eq!(iterator.top(), 5);
    assert_eq!(iterator.flags(), 3);
    assert_eq!(iterator.progress(), Progress::Created);
}

#[test]
fn iterator_collects_until_the_stop_code() {
    let mut iterator = SubvolumeIterator::new("/", 5, 0).unwrap();
    assert_eq!(iterator.opened(BTRFS_UTIL_OK), Ok(()));
    assert_eq!(iterator.progress(), Progress::Open);
    assert_eq!(iterator.next(BTRFS_UTIL_OK, record(256)), Some(Ok(())));
    assert_eq!(iterator.next(BTRFS_UTIL_OK, record(257)), Some(Ok(())));
    assert_eq!(iterator.progress(), Progress::Open);
    assert_eq!(iterator.next(BTRFS_UTIL_ERROR_STOP_ITERATION, record(0)), None);
    assert_eq!(iterator.progress(), Progress::Finished);
    assert_eq!(iterator.next(BTRFS_UTIL_OK, record(999)), None);
    assert_eq!(iterator.into_records(), Some(Ok(vec![record(256), record(257)])));
}

#[test]
fn iterator_fails_fast_and_drops_its_records() {
    let mut iterator = SubvolumeIterator::new("/", 5, 0).unwrap();
    assert_eq!(iterator.opened(BTRFS_UTIL_OK), Ok(()));
    assert_eq!(iterator.next(BTRFS_UTIL_OK, record(256)), Some(Ok(())));
    let search_failed = Error::BtrfsError(BtrfsError::SearchFailed);
    assert_eq!(iterator.next(12, record(0)), Some(Err(search_failed)));
    assert_eq!(iterator.progress(), Progress::Failed(search_failed));
    assert_eq!(iterator.next(BTRFS_UTIL_OK, record(257)), None);
    assert_eq!(iterator.opened(BTRFS_UTIL_OK), Err(search_failed));
    assert_eq!(iterator.into_records(), Some(Err(TreeError::EnumerationFailure(search_failed))));
}

#[test]
fn iterator_fails_on_an_unknown_code() {
    let mut iterator = SubvolumeIterator::new("/", 5, 0).unwrap();
    assert_eq!(iterator.opened(BTRFS_UTIL_OK), Ok(()));
    assert_eq!(iterator.next(500, record(0)), Some(Err(Error::UnknownBtrfsError)));
    assert_eq!(
        iterator.into_records(),
        Some(Err(TreeError::EnumerationFailure(Error::UnknownBtrfsError)))
    );
}

#[test]
fn iterator_that_cannot_be_opened_fails() {
    let mut iterator = SubvolumeIterator::new("/", 5, 0).unwrap();
    let not_btrfs = Error::BtrfsError(BtrfsError::NotBtrfs);
    assert_eq!(iterator.opened(4), Err(not_btrfs));
    assert_eq!(iterator.progress(), Progress::Unavailable(not_btrfs));
    assert_eq!(iterator.next(BTRFS_UTIL_OK, record(256)), None);
    assert_eq!(iterator.opened(BTRFS_UTIL_OK), Err(not_btrfs));
    assert_eq!(iterator.into_records(), Some(Err(TreeError::SourceUnavailable(not_btrfs))));
}

#[test]
fn iterator_takes_nothing_before_it_is_opened() {
    let mut iterator = SubvolumeIterator::new("/", 5, 0).unwrap();
    assert_eq!(iterator.next(BTRFS_UTIL_OK, record(256)), None);
    assert_eq!(iterator.progress(), Progress::Created);
    assert_eq!(iterator.into_records(), None);
}

#[test]
fn iterator_that_was_not_drained_gives_no_records() {
    let mut iterator = SubvolumeIterator::new("/", 5, 0).unwrap();
    assert_eq!(iterator.opened(BTRFS_UTIL_OK), Ok(()));
    assert_eq!(iterator.opened(4), Ok(()));
    assert_eq!(iterator.next(BTRFS_UTIL_OK, record(256)), Some(Ok(())));
    assert_eq!(iterator.into_records(), None);
}

#[test]
fn root_lookup_passes_the_record_on() {
    assert_eq!(root_lookup(BTRFS_UTIL_OK, record(5)), Ok(record(5)));
}

#[test]
fn root_lookup_failure_is_source_unavailable() {
    assert_eq!(
        root_lookup(4, record(0)),
        Err(TreeError::SourceUnavailable(Error::BtrfsError(BtrfsError::NotBtrfs)))
    );
    assert_eq!(
        root_lookup(99, record(0)),
        Err(TreeError::SourceUnavailable(Error::UnknownBtrfsError))
    );
}
