use crate::diffing::diff::{
    change_at, is_diff_of, reports, DiffItemAdded, DiffItemDeleted, DiffItemModified,
    DiffItemTypeChanged, DiffItemView, DiffType,
};
use crate::diffing::categorized::{as_added, as_deleted, as_modified, as_type_changed, categorized};
use crate::diffing::order::{
    item_le, lemma_le_both_ways_same_place, lemma_same_place_le, path_le, records_like,
    same_place, sorted,
};
use crate::drivers::common::{
    has_path, lookup, DriverFileMetadata, DriverItemMetadata, ItemView,
};
use vstd::prelude::*;
use vstd::seq_lib::to_multiset_contains;

verus! {

/// Diffing a tree against an identical copy of itself yields no record at all.
pub proof fn theorem_identical_sides_give_empty_diff(
    diff: Seq<DiffItemView>,
    source: Seq<ItemView>,
    dest: Seq<ItemView>,
)
    requires
        source == dest,
        is_diff_of(diff, source, dest),
    ensures
        diff.len() == 0,
{
    if diff.len() > 0 {
        assert(change_at(source, dest, diff[0].path) == Some(diff[0].status));
    }
}

/// The same change, seen with source and destination exchanged.
pub open spec fn mirrored(status: DiffType) -> DiffType {
    match status {
        DiffType::Added(a) => DiffType::Deleted(DiffItemDeleted { prev: a.new }),
        DiffType::Modified(m) => DiffType::Modified(DiffItemModified { prev: m.new, new: m.prev }),
        DiffType::TypeChanged(t) => DiffType::TypeChanged(
            DiffItemTypeChanged { prev: t.new, new: t.prev },
        ),
        DiffType::Deleted(d) => DiffType::Added(DiffItemAdded { new: d.prev }),
    }
}

/// Every record of `diff`, seen with source and destination exchanged.
pub open spec fn mirrored_diff(diff: Seq<DiffItemView>) -> Seq<DiffItemView> {
    Seq::new(
        diff.len(),
        |i: int| DiffItemView { path: diff[i].path, status: mirrored(diff[i].status) },
    )
}

/// Exchanging source and destination exchanges `prev` and `new` in the change that a
/// path shows: an addition becomes a deletion and back, and no change stays no change.
pub proof fn theorem_exchange_mirrors_change(
    source: Seq<ItemView>,
    dest: Seq<ItemView>,
    path: Seq<char>,
)
    ensures
        change_at(dest, source, path) == match change_at(source, dest, path) {
            Some(status) => Some(mirrored(status)),
            None => None,
        },
{
}

/// A path that is `Modified` from `prev` to `new` one way round is `Modified` from `new`
/// to `prev` the other way round.
pub proof fn theorem_exchange_swaps_modified(
    source: Seq<ItemView>,
    dest: Seq<ItemView>,
    path: Seq<char>,
    prev: DriverFileMetadata,
    new: DriverFileMetadata,
)
    ensures
        change_at(source, dest, path) == Some(DiffType::Modified(DiffItemModified { prev, new }))
            <==> change_at(dest, source, path) == Some(
            DiffType::Modified(DiffItemModified { prev: new, new: prev }),
        ),
{
}

/// The difference the other way round is the mirrored difference.
pub proof fn theorem_exchange_mirrors_diff(
    diff: Seq<DiffItemView>,
    source: Seq<ItemView>,
    dest: Seq<ItemView>,
)
    requires
        is_diff_of(diff, source, dest),
    ensures
        is_diff_of(mirrored_diff(diff), dest, source),
{
    let m = mirrored_diff(diff);
    assert forall|i: int| 0 <= i < m.len() implies change_at(dest, source, #[trigger] m[i].path)
        == Some(m[i].status) by {
        assert(change_at(source, dest, diff[i].path) == Some(diff[i].status));
        theorem_exchange_mirrors_change(source, dest, diff[i].path);
    }
    assert forall|p: Seq<char>| #[trigger] change_at(dest, source, p) is Some implies reports(
        m,
        p,
    ) by {
        theorem_exchange_mirrors_change(dest, source, p);
        assert(change_at(source, dest, p) is Some);
        let i = choose|i: int| 0 <= i < diff.len() && #[trigger] diff[i].path == p;
        assert(m[i].path == p);
    }
}

/// `diff` holds exactly one record about `path`, and that record says `status`.
pub open spec fn records_once(diff: Seq<DiffItemView>, path: Seq<char>, status: DiffType) -> bool {
    exists|i: int|
        {
            &&& 0 <= i < diff.len()
            &&& #[trigger] diff[i] == (DiffItemView { path, status })
            &&& forall|j: int| 0 <= j < diff.len() && #[trigger] diff[j].path == path ==> j == i
        }
}

/// Neither side changed what it records for a path: it is on neither side, a directory on
/// both, or the same file on both.
pub open spec fn unchanged(
    source: Option<DriverItemMetadata>,
    dest: Option<DriverItemMetadata>,
) -> bool {
    ||| source is None && dest is None
    ||| source == Some(DriverItemMetadata::Directory) && dest == Some(
        DriverItemMetadata::Directory,
    )
    ||| source is Some && source->0 is File && dest == source
}

/// For every path, exactly one of five cases holds, and the diff shows which: the path is
/// unchanged and has no record; or it has exactly one record, which is `Added` when only
/// the source has the path, `Deleted` when only the destination has it, `TypeChanged` when
/// one side has a directory and the other a file, and `Modified` when both have a file
/// and the two differ. A path on neither side has no record.
pub proof fn theorem_records_partition_paths(
    diff: Seq<DiffItemView>,
    source: Seq<ItemView>,
    dest: Seq<ItemView>,
    path: Seq<char>,
)
    requires
        is_diff_of(diff, source, dest),
    ensures
        !has_path(source, path) && !has_path(dest, path) ==> !reports(diff, path),
        match (lookup(source, path), lookup(dest, path)) {
            (Some(s), None) => records_once(
                diff,
                path,
                DiffType::Added(DiffItemAdded { new: s }),
            ),
            (None, Some(d)) => records_once(
                diff,
                path,
                DiffType::Deleted(DiffItemDeleted { prev: d }),
            ),
            (Some(DriverItemMetadata::File(s)), Some(DriverItemMetadata::File(d))) if s != d
                => records_once(
                diff,
                path,
                DiffType::Modified(DiffItemModified { prev: d, new: s }),
            ),
            (Some(s), Some(d)) if (s is Directory) != (d is Directory) => records_once(
                diff,
                path,
                DiffType::TypeChanged(DiffItemTypeChanged { prev: d, new: s }),
            ),
            (s, d) => unchanged(s, d) && !reports(diff, path),
        },
{
    match change_at(source, dest, path) {
        Some(status) => {
            let i = choose|i: int| 0 <= i < diff.len() && #[trigger] diff[i].path == path;
            assert(change_at(source, dest, diff[i].path) == Some(diff[i].status));
            assert(diff[i] == DiffItemView { path, status });
            assert forall|j: int| 0 <= j < diff.len() && #[trigger] diff[j].path == path implies j
                == i by {
                if j < i {
                    assert(diff[j].path != diff[i].path);
                } else if i < j {
                    assert(diff[i].path != diff[j].path);
                }
            }
            assert(records_once(diff, path, status));
        },
        None => {
            if reports(diff, path) {
                let i = choose|i: int| 0 <= i < diff.len() && #[trigger] diff[i].path == path;
                assert(change_at(source, dest, diff[i].path) == Some(diff[i].status));
            }
        },
    }
}

/// Putting the records of a diff in another order leaves it the diff of the same two
/// sides: sorting, which neither loses nor makes up a record, does not change what a diff
/// says.
pub proof fn theorem_reordering_keeps_diff(
    diff: Seq<DiffItemView>,
    reordered: Seq<DiffItemView>,
    source: Seq<ItemView>,
    dest: Seq<ItemView>,
)
    requires
        is_diff_of(diff, source, dest),
        reordered.to_multiset() == diff.to_multiset(),
    ensures
        is_diff_of(reordered, source, dest),
{
    assert forall|i: int| 0 <= i < reordered.len() implies diff.contains(
        #[trigger] reordered[i],
    ) by {
        assert(reordered.contains(reordered[i]));
        to_multiset_contains(reordered, reordered[i]);
        to_multiset_contains(diff, reordered[i]);
    }
    assert forall|i: int| 0 <= i < diff.len() implies reordered.contains(#[trigger] diff[i]) by {
        assert(diff.contains(diff[i]));
        to_multiset_contains(reordered, diff[i]);
        to_multiset_contains(diff, diff[i]);
    }
    assert(diff.no_duplicates()) by {
        assert forall|i: int, j: int|
            0 <= i < diff.len() && 0 <= j < diff.len() && i != j implies diff[i] != diff[j] by {
            if i < j {
                assert(diff[i].path != diff[j].path);
            } else {
                assert(diff[j].path != diff[i].path);
            }
        }
    }
    diff.lemma_multiset_has_no_duplicates();
    reordered.lemma_multiset_has_no_duplicates_conv();
    assert forall|i: int, j: int| 0 <= i < j < reordered.len() implies reordered[i].path
        != reordered[j].path by {
        let a = choose|a: int| 0 <= a < diff.len() && diff[a] == reordered[i];
        let b = choose|b: int| 0 <= b < diff.len() && diff[b] == reordered[j];
        assert(reordered[i] != reordered[j]);
        if a < b {
            assert(diff[a].path != diff[b].path);
        } else if b < a {
            assert(diff[b].path != diff[a].path);
        }
    }
    assert forall|i: int| 0 <= i < reordered.len() implies change_at(
        source,
        dest,
        #[trigger] reordered[i].path,
    ) == Some(reordered[i].status) by {
        let a = choose|a: int| 0 <= a < diff.len() && diff[a] == reordered[i];
        assert(change_at(source, dest, diff[a].path) == Some(diff[a].status));
    }
    assert forall|p: Seq<char>| #[trigger] change_at(source, dest, p) is Some implies reports(
        reordered,
        p,
    ) by {
        let a = choose|a: int| 0 <= a < diff.len() && #[trigger] diff[a].path == p;
        let b = choose|b: int| 0 <= b < reordered.len() && reordered[b] == diff[a];
        assert(reordered[b].path == p);
    }
}

/// There is only one way to sort: two sorted sequences in which the records of every
/// kind and path stand in the same order are the same sequence.
pub proof fn theorem_sorted_order_is_unique(a: Seq<DiffItemView>, b: Seq<DiffItemView>)
    requires
        sorted(a),
        sorted(b),
        forall|like: DiffItemView| #[trigger] records_like(a, like) == records_like(b, like),
    ensures
        a == b,
    decreases a.len() + b.len(),
{
    if a.len() == 0 && b.len() == 0 {
        assert(a =~= b);
    } else {
        let pivot = if a.len() > 0 {
            a.last()
        } else {
            b.last()
        };
        // The sequence that holds `pivot` at its end shows that the other one is not empty.
        lemma_records_like_last(a, pivot);
        lemma_records_like_last(b, pivot);
        assert(records_like(a, pivot) == records_like(b, pivot));
        assert(a.len() > 0 && b.len() > 0) by {
            if a.len() == 0 {
                assert(records_like(a, pivot).len() == 0) by {
                    a.lemma_filter_len(|other: DiffItemView| same_place(pivot, other));
                }
            }
            if b.len() == 0 {
                assert(records_like(b, pivot).len() == 0) by {
                    b.lemma_filter_len(|other: DiffItemView| same_place(pivot, other));
                }
            }
        }
        let x = a.last();
        let y = b.last();
        lemma_last_is_greatest(a, b);
        lemma_last_is_greatest(b, a);
        lemma_le_both_ways_same_place(x, y);
        lemma_records_like_last(a, x);
        lemma_records_like_last(b, x);
        assert(records_like(a, x) == records_like(b, x));
        assert(x == y) by {
            assert(records_like(a, x).last() == x);
            assert(records_like(b, x).last() == y);
        }
        assert forall|like: DiffItemView| #[trigger]
            records_like(a.drop_last(), like) == records_like(b.drop_last(), like) by {
            lemma_records_like_last(a, like);
            lemma_records_like_last(b, like);
            assert(records_like(a, like) == records_like(b, like));
            if same_place(like, x) {
                assert(records_like(a.drop_last(), like) =~= records_like(a, like).drop_last());
                assert(records_like(b.drop_last(), like) =~= records_like(b, like).drop_last());
            }
        }
        assert(sorted(a.drop_last())) by {
            assert forall|i: int, j: int| 0 <= i < j < a.drop_last().len() implies item_le(
                a.drop_last()[i],
                a.drop_last()[j],
            ) by {
                assert(item_le(a[i], a[j]));
            }
        }
        assert(sorted(b.drop_last())) by {
            assert forall|i: int, j: int| 0 <= i < j < b.drop_last().len() implies item_le(
                b.drop_last()[i],
                b.drop_last()[j],
            ) by {
                assert(item_le(b[i], b[j]));
            }
        }
        theorem_sorted_order_is_unique(a.drop_last(), b.drop_last());
        assert(a =~= a.drop_last().push(x));
        assert(b =~= b.drop_last().push(y));
    }
}

/// The records like `like` of a sequence are those of all but its last record, and the
/// last record too if it is like `like`.
proof fn lemma_records_like_last(items: Seq<DiffItemView>, like: DiffItemView)
    ensures
        items.len() > 0 ==> records_like(items, like) == if same_place(like, items.last()) {
            records_like(items.drop_last(), like).push(items.last())
        } else {
            records_like(items.drop_last(), like)
        },
{
    if items.len() > 0 {
        items.drop_last().lemma_filter_push(
            items.last(),
            |other: DiffItemView| same_place(like, other),
        );
        assert(items.drop_last().push(items.last()) =~= items);
    }
}

/// Where two sorted sequences hold records of the same kinds and paths, the last record
/// of the first may stand before the last record of the second.
proof fn lemma_last_is_greatest(a: Seq<DiffItemView>, b: Seq<DiffItemView>)
    requires
        a.len() > 0,
        b.len() > 0,
        sorted(b),
        forall|like: DiffItemView| #[trigger] records_like(a, like) == records_like(b, like),
    ensures
        item_le(a.last(), b.last()),
{
    let x = a.last();
    let p = |other: DiffItemView| same_place(x, other);
    lemma_records_like_last(a, x);
    assert(records_like(a, x) == records_like(b, x));
    let found = records_like(b, x);
    let last = (found.len() - 1) as int;
    assert(found[last] == x);
    assert(found.contains(x));
    b.lemma_filter_contains_rev(p, x);
    let k = choose|k: int| 0 <= k < b.len() && b[k] == x;
    if k < b.len() - 1 {
        assert(item_le(b[k], b[b.len() - 1]));
    } else {
        lemma_same_place_le(x, b.last());
    }
}

/// What a function picks from a sorted sequence stands in the order of the records that
/// it was picked from.
proof fn lemma_picked_in_order<B>(
    diff: Seq<DiffItemView>,
    pick: spec_fn(DiffItemView) -> Option<B>,
    i: int,
    j: int,
) -> (at: (int, int))
    requires
        0 <= i < j < diff.filter_map(pick).len(),
    ensures
        0 <= at.0 < at.1 < diff.len(),
        pick(diff[at.0]) == Some(diff.filter_map(pick)[i]),
        pick(diff[at.1]) == Some(diff.filter_map(pick)[j]),
    decreases diff.len(),
{
    let picked = diff.filter_map(pick);
    let before = diff.drop_last().filter_map(pick);
    if j < before.len() {
        let at = lemma_picked_in_order(diff.drop_last(), pick, i, j);
        at
    } else {
        assert(pick(diff.last()) is Some);
        assert(picked =~= before + seq![pick(diff.last())->0]);
        let first = lemma_picked_before(diff.drop_last(), pick, i);
        (first, diff.len() - 1)
    }
}

/// Whatever a function picks from a sequence, it picks from some record of it.
proof fn lemma_picked_before<B>(
    diff: Seq<DiffItemView>,
    pick: spec_fn(DiffItemView) -> Option<B>,
    i: int,
) -> (at: int)
    requires
        0 <= i < diff.filter_map(pick).len(),
    ensures
        0 <= at < diff.len(),
        pick(diff[at]) == Some(diff.filter_map(pick)[i]),
    decreases diff.len(),
{
    let before = diff.drop_last().filter_map(pick);
    if i < before.len() {
        let at = lemma_picked_before(diff.drop_last(), pick, i);
        at
    } else {
        assert(pick(diff.last()) is Some);
        diff.len() - 1
    }
}

/// The paths of a list ascend.
pub open spec fn paths_ascend<P>(entries: Seq<(Seq<char>, P)>) -> bool {
    forall|i: int, j: int| 0 <= i < j < entries.len() ==> path_le(entries[i].0, entries[j].0)
}

/// The lists that a sorted diff is sorted into are each sorted by path.
pub proof fn theorem_sorted_diff_gives_sorted_lists(diff: Seq<DiffItemView>)
    requires
        sorted(diff),
    ensures
        paths_ascend(categorized(diff).added),
        paths_ascend(categorized(diff).modified),
        paths_ascend(categorized(diff).type_changed),
        paths_ascend(categorized(diff).deleted),
{
    let lists = categorized(diff);
    assert forall|i: int, j: int| 0 <= i < j < lists.added.len() implies path_le(
        lists.added[i].0,
        lists.added[j].0,
    ) by {
        let at = lemma_picked_in_order(diff, |item: DiffItemView| as_added(item), i, j);
        assert(item_le(diff[at.0], diff[at.1]));
    }
    assert forall|i: int, j: int| 0 <= i < j < lists.modified.len() implies path_le(
        lists.modified[i].0,
        lists.modified[j].0,
    ) by {
        let at = lemma_picked_in_order(diff, |item: DiffItemView| as_modified(item), i, j);
        assert(item_le(diff[at.0], diff[at.1]));
    }
    assert forall|i: int, j: int| 0 <= i < j < lists.type_changed.len() implies path_le(
        lists.type_changed[i].0,
        lists.type_changed[j].0,
    ) by {
        let at = lemma_picked_in_order(diff, |item: DiffItemView| as_type_changed(item), i, j);
        assert(item_le(diff[at.0], diff[at.1]));
    }
    assert forall|i: int, j: int| 0 <= i < j < lists.deleted.len() implies path_le(
        lists.deleted[i].0,
        lists.deleted[j].0,
    ) by {
        let at = lemma_picked_in_order(diff, |item: DiffItemView| as_deleted(item), i, j);
        assert(item_le(diff[at.0], diff[at.1]));
    }
}

} // verus!
