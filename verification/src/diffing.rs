//! The classified difference between two snapshots.

pub mod categorized;
pub mod diff;
pub mod order;
pub mod theorems;

pub use diff::{
    build_diff, change_at, classify, diff_views, is_diff_of, reports, Diff, DiffItem, DiffItemAdded,
    DiffItemDeleted, DiffItemModified, DiffItemTypeChanged, DiffItemView, DiffType,
};
pub use categorized::{categorized, CategorizedDiff, CategorizedDiffView};
pub use order::{item_le, path_le, rank, records_like, same_place, sorted};
