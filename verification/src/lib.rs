//! Reconstruction of the btrfs subvolume hierarchy from a flat enumeration
//! of subvolume records and the table of active mounts.
//!
//! libbtrfsutil lists the subvolumes of a filesystem one by one, each with
//! its id, the id of its parent and its path. [`build_tree`] turns such a
//! list into the tree it describes: every subvolume below its parent, with
//! its path relative to the parent, siblings ordered by id, and the mount
//! point of every subvolume that [`mount_overlay`] found mounted. Every
//! function is verified against a contract over plain mathematical values;
//! [`laws`] proves what holds of every tree that is built.
//!
//! The library makes no system call. [`SubvolumeIterator`] and the
//! functions of [`error`] decide what the answers of libbtrfsutil mean;
//! the calls themselves are the caller's.

pub mod decimal;
pub mod enumerate;
pub mod error;
pub mod laws;
pub mod mounts;
pub mod node;
pub mod path;
pub mod reconstruct;
pub mod record;
pub mod render;
pub mod topology;
pub mod tree;

pub use enumerate::SubvolumeIterator;
pub use error::{BtrfsError, Error, TreeError};
pub use mounts::{mount_overlay, MountRow};
pub use node::Node;
pub use reconstruct::build_tree;
pub use record::SubvolumeRecord;
