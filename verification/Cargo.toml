[package]
name = "btrfs_subvolume_tree"
version = "0.1.0"
edition = "2021"
publish = false

[dependencies]
libc = "0.2"
proc-mounts = "*"
ptree = { version = "*", default-features = false }
uuid = "1"
