use crate::drivers::common::{
    distinct_paths, has_path, item_views, lemma_lookup_at, lookup, position_of,
    DriverFileMetadata, DriverItem, DriverItemMetadata, ItemView, Snapshot,
};
use crate::diffing::order::{lemma_merge_sorted, merge_sort, records_like, sorted};
use vstd::hash_map::StringHashMap;
use vstd::prelude::*;

verus! {

/// The path exists in the source only.
#[derive(Debug, Clone, Copy, PartialEq, Eq, Structural, PartialOrd, Ord)]
pub struct DiffItemAdded {
    pub new: DriverItemMetadata,
}

/// The path is a file on both sides, and its size or modification time differs.
#[derive(Debug, Clone, Copy, PartialEq, Eq, Structural, PartialOrd, Ord)]
pub struct DiffItemModified {
    pub prev: DriverFileMetadata,
    pub new: DriverFileMetadata,
}

/// The path is a directory on one side and a file on the other.
#[derive(Debug, Clone, Copy, PartialEq, Eq, Structural, PartialOrd, Ord)]
pub struct DiffItemTypeChanged {
    pub prev: DriverItemMetadata,
    pub new: DriverItemMetadata,
}

/// The path exists in the destination only.
#[derive(Debug, Clone, Copy, PartialEq, Eq, Structural, PartialOrd, Ord)]
pub struct DiffItemDeleted {
    pub prev: DriverItemMetadata,
}

/// How a path differs between source and destination. `new` is always the source's
/// metadata and `prev` the destination's.
#[derive(Debug, Clone, Copy, PartialEq, Eq, Structural, PartialOrd, Ord)]
pub enum DiffType {
    Added(DiffItemAdded),
    Modified(DiffItemModified),
    TypeChanged(DiffItemTypeChanged),
    Deleted(DiffItemDeleted),
}

/// One change record: a path and how it differs.
#[derive(Debug, PartialEq, Eq)]
pub struct DiffItem {
    pub path: String,
    pub status: DiffType,
}

/// The mathematical value of a [`DiffItem`].
pub struct DiffItemView {
    pub path: Seq<char>,
    pub status: DiffType,
}

impl View for DiffItem {
    type V = DiffItemView;

    open spec fn view(&self) -> DiffItemView {
        DiffItemView { path: self.path@, status: self.status }
    }
}

/// The values of a sequence of change records, in the same order.
pub open spec fn diff_views(items: Seq<DiffItem>) -> Seq<DiffItemView> {
    Seq::new(items.len(), |i: int| items[i]@)
}

/// The change records of one comparison, in no particular order until sorted.
#[derive(Debug)]
pub struct Diff(Vec<DiffItem>);

impl View for Diff {
    type V = Seq<DiffItemView>;

    closed spec fn view(&self) -> Seq<DiffItemView> {
        diff_views(self.0@)
    }
}

impl Diff {
    /// A diff of the given records, in the given order.
    pub fn new(items: Vec<DiffItem>) -> (r: Self)
        ensures
            r@ == diff_views(items@),
    {
        Self(items)
    }

    /// The records, in their present order.
    pub fn items(&self) -> (r: &[DiffItem])
        ensures
            diff_views(r@) == self@,
    {
        self.0.as_slice()
    }

    /// Sorts the records by kind, additions first, then modifications, changes of type and
    /// deletions, and by path within one kind. No record is lost or made up, and records
    /// of the same kind and path stay in the order they had.
    pub fn sort(&mut self)
        ensures
            sorted(final(self)@),
            final(self)@.to_multiset() == old(self)@.to_multiset(),
            forall|like: DiffItemView| #[trigger]
                records_like(final(self)@, like) == records_like(old(self)@, like),
    {
        let mut items: Vec<DiffItem> = Vec::new();
        std::mem::swap(&mut self.0, &mut items);
        proof {
            lemma_merge_sorted(diff_views(items@));
        }
        self.0 = merge_sort(items);
    }

    /// Hands the records over, in their present order.
    pub fn into_items(self) -> (r: Vec<DiffItem>)
        ensures
            diff_views(r@) == self@,
    {
        self.0
    }
}

/// The change that one path shows, given what the source and the destination record for
/// it; `None` where there is nothing to report.
pub open spec fn classify(
    source: Option<DriverItemMetadata>,
    dest: Option<DriverItemMetadata>,
) -> Option<DiffType> {
    match (source, dest) {
        (None, None) => None,
        (Some(s), None) => Some(DiffType::Added(DiffItemAdded { new: s })),
        (None, Some(d)) => Some(DiffType::Deleted(DiffItemDeleted { prev: d })),
        (Some(DriverItemMetadata::Directory), Some(DriverItemMetadata::Directory)) => None,
        (Some(DriverItemMetadata::File(s)), Some(DriverItemMetadata::File(d))) => if s == d {
            None
        } else {
            Some(DiffType::Modified(DiffItemModified { prev: d, new: s }))
        },
        (Some(s), Some(d)) => Some(DiffType::TypeChanged(DiffItemTypeChanged { prev: d, new: s })),
    }
}

/// The change that `path` shows between the items of the source and of the destination.
pub open spec fn change_at(source: Seq<ItemView>, dest: Seq<ItemView>, path: Seq<char>) -> Option<
    DiffType,
> {
    classify(lookup(source, path), lookup(dest, path))
}

/// `diff` is the difference between `source` and `dest`: it holds one record for each path
/// that shows a change, that record states the change, and it holds nothing else.
pub open spec fn is_diff_of(diff: Seq<DiffItemView>, source: Seq<ItemView>, dest: Seq<ItemView>) -> bool {
    &&& forall|i: int, j: int| 0 <= i < j < diff.len() ==> diff[i].path != diff[j].path
    &&& forall|i: int|
        0 <= i < diff.len() ==> change_at(source, dest, #[trigger] diff[i].path) == Some(
            diff[i].status,
        )
    &&& forall|p: Seq<char>| #[trigger] change_at(source, dest, p) is Some ==> reports(diff, p)
}

/// Some record of `diff` is about `path`.
pub open spec fn reports(diff: Seq<DiffItemView>, path: Seq<char>) -> bool {
    exists|i: int| 0 <= i < diff.len() && #[trigger] diff[i].path == path
}

/// The change between two items that share a path, if there is one.
fn compare_metadata(source: DriverItemMetadata, dest: DriverItemMetadata) -> (r: Option<DiffType>)
    ensures
        r == classify(Some(source), Some(dest)),
{
    match (source, dest) {
        (DriverItemMetadata::Directory, DriverItemMetadata::Directory) => None,
        (DriverItemMetadata::File(source_data), DriverItemMetadata::File(backed_up_data)) => {
            if source_data == backed_up_data {
                None
            } else {
                Some(DiffType::Modified(DiffItemModified { prev: backed_up_data, new: source_data }))
            }
        },
        _ => Some(DiffType::TypeChanged(DiffItemTypeChanged { prev: dest, new: source })),
    }
}

/// Indexes the items of a snapshot by path.
fn build_item_names_hashmap(items: &Vec<DriverItem>) -> (map: StringHashMap<DriverItemMetadata>)
    requires
        distinct_paths(item_views(items@)),
    ensures
        forall|p: Seq<char>| map@.contains_key(p) <==> has_path(item_views(items@), p),
        forall|p: Seq<char>| #[trigger]
            map@.contains_key(p) ==> lookup(item_views(items@), p) == Some(map@[p]),
{
    let ghost views = item_views(items@);
    let mut map = StringHashMap::with_capacity(items.len());
    let mut i: usize = 0;
    while i < items.len()
        invariant
            0 <= i <= items.len(),
            views == item_views(items@),
            distinct_paths(views),
            forall|p: Seq<char>|
                map@.contains_key(p) <==> exists|k: int| 0 <= k < i && #[trigger] views[k].path == p,
            forall|k: int| 0 <= k < i ==> map@[#[trigger] views[k].path] == views[k].metadata,
        decreases items.len() - i,
    {
        let ghost before = map@;
        map.insert(items[i].path.clone(), items[i].metadata);
        proof {
            let here = views[i as int];
            assert(map@ == before.insert(here.path, here.metadata));
            assert forall|k: int| 0 <= k < i + 1 implies map@[#[trigger] views[k].path]
                == views[k].metadata by {
                if k < i {
                    assert(views[k].path != here.path);
                    assert(before[views[k].path] == views[k].metadata);
                }
            }
            assert forall|p: Seq<char>|
                map@.contains_key(p) <==> exists|k: int|
                    0 <= k < i + 1 && #[trigger] views[k].path == p by {
                if p == here.path {
                    assert(views[i as int].path == p);
                } else if before.contains_key(p) {
                    let k = choose|k: int| 0 <= k < i && #[trigger] views[k].path == p;
                    assert(views[k].path == p);
                }
            }
        }
        i += 1;
    }
    proof {
        assert forall|p: Seq<char>| map@.contains_key(p) <==> has_path(views, p) by {
            if map@.contains_key(p) {
                let k = choose|k: int| 0 <= k < i && #[trigger] views[k].path == p;
                assert(views[k].path == p);
            }
            if has_path(views, p) {
                let k = position_of(views, p);
                assert(views[k].path == p);
            }
        }
        assert forall|p: Seq<char>| #[trigger] map@.contains_key(p) implies lookup(views, p)
            == Some(map@[p]) by {
            let k = choose|k: int| 0 <= k < i && #[trigger] views[k].path == p;
            lemma_lookup_at(views, k);
        }
    }
    map
}

/// What holds of the records gathered once the first `seen_source` items of the source and
/// the first `seen_dest` items of the destination have been looked at.
spec fn gathered(
    diff: Seq<DiffItemView>,
    source: Seq<ItemView>,
    dest: Seq<ItemView>,
    seen_source: int,
    seen_dest: int,
) -> bool {
    &&& forall|i: int, j: int| 0 <= i < j < diff.len() ==> diff[i].path != diff[j].path
    &&& forall|i: int|
        0 <= i < diff.len() ==> change_at(source, dest, #[trigger] diff[i].path) == Some(
            diff[i].status,
        )
    &&& forall|i: int|
        0 <= i < diff.len() ==> {
            ||| has_path(source.take(seen_source), #[trigger] diff[i].path)
            ||| !has_path(source, diff[i].path) && has_path(dest.take(seen_dest), diff[i].path)
        }
    &&& forall|a: int|
        0 <= a < seen_source && change_at(source, dest, #[trigger] source[a].path) is Some
            ==> reports(diff, source[a].path)
    &&& forall|b: int|
        0 <= b < seen_dest && !has_path(source, #[trigger] dest[b].path) ==> reports(
            diff,
            dest[b].path,
        )
}

/// A path found among the first `n` items is found among the first `n + 1`, and so is
/// the path of item `n`.
proof fn lemma_has_path_grows(items: Seq<ItemView>, n: int)
    requires
        0 <= n < items.len(),
    ensures
        has_path(items.take(n + 1), items[n].path),
        forall|p: Seq<char>| has_path(items.take(n), p) ==> has_path(items.take(n + 1), p),
        forall|p: Seq<char>| has_path(items.take(n + 1), p) ==> has_path(items, p),
{
    assert(items.take(n + 1)[n].path == items[n].path);
    assert forall|p: Seq<char>| has_path(items.take(n), p) implies has_path(
        items.take(n + 1),
        p,
    ) by {
        let k = position_of(items.take(n), p);
        assert(items.take(n + 1)[k].path == p);
    }
    assert forall|p: Seq<char>| has_path(items.take(n + 1), p) implies has_path(items, p) by {
        let k = position_of(items.take(n + 1), p);
        assert(items[k].path == p);
    }
}

/// Among items with distinct paths, the path of item `n` is not among the first `n`.
proof fn lemma_fresh_path(items: Seq<ItemView>, n: int)
    requires
        distinct_paths(items),
        0 <= n < items.len(),
    ensures
        !has_path(items.take(n), items[n].path),
{
    if has_path(items.take(n), items[n].path) {
        let k = position_of(items.take(n), items[n].path);
        assert(items[k].path == items[n].path);
    }
}

/// A record that is reported stays reported when another record is added.
proof fn lemma_reports_grows(diff: Seq<DiffItemView>, item: DiffItemView)
    ensures
        reports(diff.push(item), item.path),
        forall|p: Seq<char>| reports(diff, p) ==> reports(diff.push(item), p),
{
    assert(diff.push(item)[diff.len() as int].path == item.path);
    assert forall|p: Seq<char>| reports(diff, p) implies reports(diff.push(item), p) by {
        let k = choose|k: int| 0 <= k < diff.len() && #[trigger] diff[k].path == p;
        assert(diff.push(item)[k].path == p);
    }
}

/// Looking at one more source item keeps [`gathered`], whether or not it yields a record.
proof fn lemma_gather_source(
    diff: Seq<DiffItemView>,
    source: Seq<ItemView>,
    dest: Seq<ItemView>,
    i: int,
)
    requires
        distinct_paths(source),
        0 <= i < source.len(),
        gathered(diff, source, dest, i, 0),
    ensures
        match change_at(source, dest, source[i].path) {
            Some(status) => gathered(
                diff.push(DiffItemView { path: source[i].path, status }),
                source,
                dest,
                i + 1,
                0,
            ),
            None => gathered(diff, source, dest, i + 1, 0),
        },
{
    lemma_has_path_grows(source, i);
    lemma_fresh_path(source, i);
    assert(dest.take(0) =~= Seq::<ItemView>::empty());
    match change_at(source, dest, source[i].path) {
        Some(status) => {
            let item = DiffItemView { path: source[i].path, status };
            let next = diff.push(item);
            lemma_reports_grows(diff, item);
            assert forall|a: int, b: int| 0 <= a < b < next.len() implies next[a].path
                != next[b].path by {
                if b == diff.len() {
                    assert(has_path(source.take(i), diff[a].path));
                }
            }
            assert forall|k: int| 0 <= k < next.len() implies has_path(
                source.take(i + 1),
                #[trigger] next[k].path,
            ) by {
                if k < diff.len() {
                    assert(has_path(source.take(i), diff[k].path));
                }
            }
        },
        None => {
            assert forall|k: int| 0 <= k < diff.len() implies has_path(
                source.take(i + 1),
                #[trigger] diff[k].path,
            ) by {
                assert(has_path(source.take(i), diff[k].path));
            }
        },
    }
}

/// Looking at one more destination item keeps [`gathered`], once the source is done.
proof fn lemma_gather_dest(
    diff: Seq<DiffItemView>,
    source: Seq<ItemView>,
    dest: Seq<ItemView>,
    j: int,
)
    requires
        distinct_paths(dest),
        0 <= j < dest.len(),
        gathered(diff, source, dest, source.len() as int, j),
    ensures
        if has_path(source, dest[j].path) {
            gathered(diff, source, dest, source.len() as int, j + 1)
        } else {
            gathered(
                diff.push(
                    DiffItemView {
                        path: dest[j].path,
                        status: DiffType::Deleted(DiffItemDeleted { prev: dest[j].metadata }),
                    },
                ),
                source,
                dest,
                source.len() as int,
                j + 1,
            )
        },
{
    lemma_has_path_grows(dest, j);
    lemma_fresh_path(dest, j);
    lemma_lookup_at(dest, j);
    assert(source.take(source.len() as int) =~= source);
    if has_path(source, dest[j].path) {
        assert forall|k: int| 0 <= k < diff.len() implies ({
            ||| has_path(source, #[trigger] diff[k].path)
            ||| !has_path(source, diff[k].path) && has_path(dest.take(j + 1), diff[k].path)
        }) by {
            if !has_path(source, diff[k].path) {
                assert(has_path(dest.take(j), diff[k].path));
            }
        }
    } else {
        let item = DiffItemView {
            path: dest[j].path,
            status: DiffType::Deleted(DiffItemDeleted { prev: dest[j].metadata }),
        };
        let next = diff.push(item);
        lemma_reports_grows(diff, item);
        assert forall|a: int, b: int| 0 <= a < b < next.len() implies next[a].path
            != next[b].path by {
            if b == diff.len() {
                if !has_path(source, diff[a].path) {
                    assert(has_path(dest.take(j), diff[a].path));
                }
            }
        }
        assert forall|k: int| 0 <= k < next.len() implies ({
            ||| has_path(source, #[trigger] next[k].path)
            ||| !has_path(source, next[k].path) && has_path(dest.take(j + 1), next[k].path)
        }) by {
            if k < diff.len() && !has_path(source, diff[k].path) {
                assert(has_path(dest.take(j), diff[k].path));
            }
        }
    }
}

/// Once every item of both sides has been looked at, the records are the difference.
proof fn lemma_gather_done(diff: Seq<DiffItemView>, source: Seq<ItemView>, dest: Seq<ItemView>)
    requires
        gathered(diff, source, dest, source.len() as int, dest.len() as int),
    ensures
        is_diff_of(diff, source, dest),
{
    assert forall|p: Seq<char>| #[trigger] change_at(source, dest, p) is Some implies reports(
        diff,
        p,
    ) by {
        if has_path(source, p) {
            let a = position_of(source, p);
            assert(source[a].path == p);
            assert(reports(diff, source[a].path));
        } else {
            let b = position_of(dest, p);
            assert(dest[b].path == p);
            assert(reports(diff, dest[b].path));
        }
    }
}

/// Computes the difference between two snapshots: one record for each path that exists on
/// one side only, changed type, or is a file whose size or modification time differs.
pub fn build_diff(source: Snapshot, dest_dir: Snapshot) -> (diff: Diff)
    ensures
        is_diff_of(diff@, source@.items, dest_dir@.items),
{
    let source_list = source.items();
    let dest_list = dest_dir.items();
    let ghost src = source@.items;
    let ghost dst = dest_dir@.items;
    let source_items = build_item_names_hashmap(source_list);
    let backed_up_items = build_item_names_hashmap(dest_list);

    let mut diff: Vec<DiffItem> = Vec::with_capacity(source_list.len());
    assert(diff_views(diff@) =~= Seq::<DiffItemView>::empty());

    let mut i: usize = 0;
    while i < source_list.len()
        invariant
            0 <= i <= source_list.len(),
            src == item_views(source_list@),
            distinct_paths(src),
            forall|p: Seq<char>| backed_up_items@.contains_key(p) <==> has_path(dst, p),
            forall|p: Seq<char>| #[trigger]
                backed_up_items@.contains_key(p) ==> lookup(dst, p) == Some(backed_up_items@[p]),
            gathered(diff_views(diff@), src, dst, i as int, 0),
        decreases source_list.len() - i,
    {
        let source_item = &source_list[i];
        let ghost before = diff_views(diff@);
        proof {
            lemma_lookup_at(src, i as int);
            lemma_gather_source(before, src, dst, i as int);
        }
        let status = match backed_up_items.get(source_item.path.as_str()) {
            None => Some(DiffType::Added(DiffItemAdded { new: source_item.metadata })),
            Some(backed_up) => compare_metadata(source_item.metadata, *backed_up),
        };
        assert(status == change_at(src, dst, src[i as int].path));
        if let Some(status) = status {
            diff.push(DiffItem { path: source_item.path.clone(), status });
            assert(diff_views(diff@) =~= before.push(
                DiffItemView { path: src[i as int].path, status },
            ));
        }
        i += 1;
    }

    let mut j: usize = 0;
    while j < dest_list.len()
        invariant
            0 <= j <= dest_list.len(),
            dst == item_views(dest_list@),
            distinct_paths(dst),
            forall|p: Seq<char>| source_items@.contains_key(p) <==> has_path(src, p),
            gathered(diff_views(diff@), src, dst, src.len() as int, j as int),
        decreases dest_list.len() - j,
    {
        let dest_item = &dest_list[j];
        let ghost before = diff_views(diff@);
        proof {
            lemma_gather_dest(before, src, dst, j as int);
        }
        if !source_items.contains_key(dest_item.path.as_str()) {
            diff.push(
                DiffItem {
                    path: dest_item.path.clone(),
                    status: DiffType::Deleted(DiffItemDeleted { prev: dest_item.metadata }),
                },
            );
            assert(diff_views(diff@) =~= before.push(
                DiffItemView {
                    path: dst[j as int].path,
                    status: DiffType::Deleted(DiffItemDeleted { prev: dst[j as int].metadata }),
                },
            ));
        }
        j += 1;
    }

    proof {
        lemma_gather_done(diff_views(diff@), src, dst);
    }
    Diff::new(diff)
}

} // verus!
