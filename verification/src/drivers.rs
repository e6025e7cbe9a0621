//! Backends that enumerate a directory tree, and the data they produce.

pub mod arg;
pub mod common;
pub mod fs;
pub mod paths;
pub mod sftp;
pub mod theorems;

pub use common::{
    concluded, conclude_snapshot, distinct_paths, first_repeat, has_path, is_first_repeat,
    item_outcome, item_views, lemma_first_repeat_unique, lemma_lookup_at, lookup, make_snapshot,
    position_of, request_stop, snapshot_of, snapshot_outcome, stop_requested, Driver, DriverError,
    DriverErrorView, DriverFileMetadata, DriverItem, DriverItemMetadata, EntryPath,
    EntryPathView, EntryStat, IgnoreSet, ItemKind, ItemView, MetadataField, Snapshot,
    SnapshotView,
};
