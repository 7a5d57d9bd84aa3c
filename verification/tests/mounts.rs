use std::collections::HashMap;

use btrfs_subvolume_tree::error::TreeError;
use btrfs_subvolume_tree::mounts::{binding, mount_overlay, serving_row, Binding, MountRow};

fn row(device: &str, path: &str, fstype: &str, options: &[&str]) -> MountRow {
    MountRow {
        device_source: device.to_owned(),
        mount_path: path.to_owned(),
        filesystem_type: fstype.to_owned(),
        options: options.iter().map(|option| (*option).to_owned()).collect(),
    }
}

fn options(list: &[&str]) -> Vec<String> {
    list.iter().map(|option| (*option).to_owned()).collect()
}

fn overlay(entries: &[(u64, &str)]) -> HashMap<u64, String> {
    entries.iter().map(|(id, path)| (*id, (*path).to_owned())).collect()
}

#[test]
fn binding_reads_the_subvolume_id() {
    assert_eq!(binding(&options(&["rw", "subvolid=256", "subvol=/home"])), Binding::Bound(256));
    assert_eq!(binding(&options(&["subvolid=5"])), Binding::Bound(5));
    assert_eq!(binding(&options(&["subvolid=+7"])), Binding::Bound(7));
}

#[test]
fn binding_without_the_option_is_unbound() {
    assert_eq!(binding(&options(&[])), Binding::Unbound);
    assert_eq!(binding(&options(&["rw", "relatime", "subvol=/home"])), Binding::Unbound);
    assert_eq!(binding(&options(&["xsubvolid=5", "subvolid"])), Binding::Unbound);
}

#[test]
fn binding_that_holds_no_number_is_malformed() {
    assert_eq!(binding(&options(&["subvolid="])), Binding::Malformed);
    assert_eq!(binding(&options(&["subvolid=abc"])), Binding::Malformed);
    assert_eq!(binding(&options(&["subvolid=-1"])), Binding::Malformed);
    assert_eq!(binding(&options(&["subvolid=99999999999999999999"])), Binding::Malformed);
}

#[test]
fn binding_goes_by_the_first_option_with_the_key() {
    assert_eq!(binding(&options(&["subvolid=1", "subvolid=2"])), Binding::Bound(1));
    assert_eq!(binding(&options(&["subvolid=x", "subvolid=2"])), Binding::Malformed);
}

#[test]
fn binding_takes_a_repeated_key_away() {
    assert_eq!(binding(&options(&["subvolid=subvolid=9"])), Binding::Bound(9));
}

#[test]
fn serving_row_is_the_longest_prefix() {
    let rows = vec![
        row("/dev/sda1", "/", "btrfs", &[]),
        row("/dev/sdb1", "/home", "btrfs", &[]),
        row("/dev/sdc1", "/home/alice", "btrfs", &[]),
        row("/dev/sdd1", "/home/alice/data", "ext4", &[]),
        row("/dev/sde1", "/srv", "btrfs", &[]),
    ];
    assert_eq!(serving_row(&rows, "/"), Some(0));
    assert_eq!(serving_row(&rows, "/home"), Some(1));
    assert_eq!(serving_row(&rows, "/home/bob"), Some(1));
    assert_eq!(serving_row(&rows, "/home/alice/data/x"), Some(2));
    assert_eq!(serving_row(&rows, "/srv/www"), Some(4));
    assert_eq!(serving_row(&rows, "relative"), None);
}

#[test]
fn serving_row_takes_the_first_of_equally_long_paths() {
    let rows = vec![
        row("/dev/sda1", "/mnt", "btrfs", &[]),
        row("/dev/sdb1", "/mnt", "btrfs", &[]),
        row("/dev/sdc1", "/", "btrfs", &[]),
    ];
    assert_eq!(serving_row(&rows, "/mnt/x"), Some(0));
}

#[test]
fn serving_row_skips_other_filesystems() {
    let rows =
        vec![row("/dev/sda1", "/", "ext4", &[]), row("proc", "/proc", "proc", &[])];
    assert_eq!(serving_row(&rows, "/"), None);
    assert_eq!(serving_row(&Vec::new(), "/"), None);
}

#[test]
fn overlay_maps_ids_to_mount_paths_of_the_serving_device() {
    let rows = vec![
        row("/dev/sda2", "/", "btrfs", &["rw", "subvolid=256", "subvol=/@"]),
        row("/dev/sda2", "/home", "btrfs", &["rw", "subvolid=257", "subvol=/@home"]),
        row("/dev/sda1", "/boot", "ext4", &["rw", "subvolid=300"]),
        row("/dev/sdb1", "/data", "btrfs", &["rw", "subvolid=258"]),
        row("/dev/sda2", "/top", "btrfs", &["rw"]),
        row("proc", "/proc", "proc", &["rw"]),
    ];
    assert_eq!(mount_overlay(&rows, "/"), Ok(overlay(&[(256, "/"), (257, "/home")])));
    assert_eq!(mount_overlay(&rows, "/data/x"), Ok(overlay(&[(258, "/data")])));
}

#[test]
fn overlay_is_empty_where_nothing_serves_the_path() {
    let rows = vec![row("/dev/sda1", "/", "ext4", &["subvolid=5"])];
    assert_eq!(mount_overlay(&rows, "/"), Ok(HashMap::new()));
    assert_eq!(mount_overlay(&Vec::new(), "/"), Ok(HashMap::new()));
}

#[test]
fn overlay_keeps_the_last_mount_of_an_id() {
    let rows = vec![
        row("/dev/sda2", "/", "btrfs", &["subvolid=256"]),
        row("/dev/sda2", "/first", "btrfs", &["subvolid=300"]),
        row("/dev/sda2", "/second", "btrfs", &["subvolid=300"]),
    ];
    assert_eq!(mount_overlay(&rows, "/"), Ok(overlay(&[(256, "/"), (300, "/second")])));
}

#[test]
fn overlay_fails_on_a_malformed_id_of_the_serving_device() {
    let rows = vec![
        row("/dev/sda2", "/", "btrfs", &["subvolid=256"]),
        row("/dev/sda2", "/home", "btrfs", &["subvolid=two"]),
    ];
    assert_eq!(mount_overlay(&rows, "/"), Err(TreeError::MountParseFailure));
}

#[test]
fn overlay_ignores_a_malformed_id_elsewhere() {
    let rows = vec![
        row("/dev/sda2", "/", "btrfs", &["subvolid=256"]),
        row("/dev/sdb1", "/data", "btrfs", &["subvolid=two"]),
        row("/dev/sda2", "/old", "ext4", &["subvolid=three"]),
    ];
    assert_eq!(mount_overlay(&rows, "/"), Ok(overlay(&[(256, "/")])));
}

#[test]
fn overlay_narrows_to_the_device_of_the_longest_prefix() {
    let rows = vec![
        row("/dev/sda2", "/", "btrfs", &["subvolid=256"]),
        row("/dev/sdb1", "/srv", "btrfs", &["subvolid=5"]),
        row("/dev/sdb1", "/srv/www", "btrfs", &["subvolid=260"]),
    ];
    assert_eq!(mount_overlay(&rows, "/srv/www/site"), Ok(overlay(&[(5, "/srv"), (260, "/srv/www")])));
    assert_eq!(mount_overlay(&rows, "/etc"), Ok(overlay(&[(256, "/")])));
}
