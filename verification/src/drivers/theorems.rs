use crate::drivers::common::{
    distinct_paths, first_repeat, has_path, is_first_repeat, snapshot_of, DriverErrorView,
    ItemView, SnapshotView,
};
use crate::drivers::sftp::{remote_item_of, RemoteEntryView};
use vstd::prelude::*;

verus! {

/// Items that do not all have distinct paths hold a first item that repeats a path.
proof fn lemma_first_repeat_exists(items: Seq<ItemView>, n: int)
    requires
        0 <= n <= items.len(),
        distinct_paths(items.take(n)),
        !distinct_paths(items),
    ensures
        is_first_repeat(items, first_repeat(items)),
    decreases items.len() - n,
{
    if n == items.len() {
        assert(items.take(n) =~= items);
    } else if has_path(items.take(n), items[n].path) {
        assert(is_first_repeat(items, n));
    } else {
        let next = items.take(n + 1);
        assert forall|a: int, b: int| 0 <= a < b < next.len() implies next[a].path
            != next[b].path by {
            if b < n {
                assert(items.take(n)[a].path != items.take(n)[b].path);
            } else if items[a].path == items[n].path {
                assert(items.take(n)[a].path == items[n].path);
            }
        }
        lemma_first_repeat_exists(items, n + 1);
    }
}

/// A snapshot is never made of items of which two share a path: the build then fails with
/// `DuplicateItem`, which names the path of the first item that repeats an earlier one.
pub proof fn theorem_duplicates_are_refused(path: Seq<char>, items: Seq<ItemView>, i: int, j: int)
    requires
        0 <= i < j < items.len(),
        items[i].path == items[j].path,
    ensures
        is_first_repeat(items, first_repeat(items)),
        first_repeat(items) <= j,
        snapshot_of(path, items) == Err::<SnapshotView, DriverErrorView>(
            DriverErrorView::DuplicateItem { path: items[first_repeat(items)].path },
        ),
{
    assert(items.take(0) =~= Seq::<ItemView>::empty());
    lemma_first_repeat_exists(items, 0);
    let k = first_repeat(items);
    if k > j {
        assert(items.take(k)[i].path == items.take(k)[j].path);
    }
}

/// Items with distinct paths always make a snapshot, and it holds just these items.
pub proof fn theorem_distinct_items_make_snapshot(path: Seq<char>, items: Seq<ItemView>)
    requires
        distinct_paths(items),
    ensures
        snapshot_of(path, items) == Ok::<SnapshotView, DriverErrorView>(
            SnapshotView { path, items },
        ),
{
}

/// Once the stop request is seen, an entry of a remote listing comes to `Cancelled`,
/// whatever it is and whatever is ignored: nothing else about it is looked at.
pub proof fn theorem_stop_request_cancels_entry(
    root: Seq<char>,
    ignore: Set<Seq<char>>,
    entry: RemoteEntryView,
)
    ensures
        remote_item_of(true, root, ignore, entry) == Err::<Option<ItemView>, DriverErrorView>(
            DriverErrorView::Cancelled,
        ),
{
}

} // verus!
