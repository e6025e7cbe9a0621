use std::sync::atomic::{AtomicBool, Ordering};
use std::sync::Arc;
use vstd::hash_set::StringHashSet;
use vstd::prelude::*;

verus! {

/// The fields of a regular file that take part in comparisons.
#[derive(Debug, Clone, Copy, PartialEq, Eq, Structural, PartialOrd, Ord)]
pub struct DriverFileMetadata {
    pub modification_date: i64,
    pub size: u64,
}

/// What a backend reports about one entry of a tree.
#[derive(Debug, Clone, Copy, PartialEq, Eq, Structural, PartialOrd, Ord)]
pub enum DriverItemMetadata {
    Directory,
    File(DriverFileMetadata),
}

impl DriverItemMetadata {
    /// The byte size of a file; a directory has none.
    pub fn size(&self) -> (r: Option<u64>)
        ensures
            r == match *self {
                DriverItemMetadata::Directory => None::<u64>,
                DriverItemMetadata::File(m) => Some(m.size),
            },
    {
        match self {
            Self::Directory => None,
            Self::File(m) => Some(m.size),
        }
    }

    /// Whether the entry is a directory.
    pub fn is_dir(&self) -> (r: bool)
        ensures
            r == (*self is Directory),
    {
        match self {
            Self::Directory => true,
            Self::File(_) => false,
        }
    }

    /// Whether the entry is a regular file.
    pub fn is_file(&self) -> (r: bool)
        ensures
            r == (*self is File),
    {
        match self {
            Self::Directory => false,
            Self::File(_) => true,
        }
    }
}

/// One entry of a tree: its path relative to the root, and its metadata.
#[derive(Debug, Clone, PartialEq, Eq)]
pub struct DriverItem {
    pub path: String,
    pub metadata: DriverItemMetadata,
}

/// The mathematical value of a [`DriverItem`].
pub struct ItemView {
    pub path: Seq<char>,
    pub metadata: DriverItemMetadata,
}

impl View for DriverItem {
    type V = ItemView;

    open spec fn view(&self) -> ItemView {
        ItemView { path: self.path@, metadata: self.metadata }
    }
}

/// The values of a sequence of items, in the same order.
pub open spec fn item_views(items: Seq<DriverItem>) -> Seq<ItemView> {
    Seq::new(items.len(), |i: int| items[i]@)
}

/// No two items share a path.
pub open spec fn distinct_paths(items: Seq<ItemView>) -> bool {
    forall|i: int, j: int| 0 <= i < j < items.len() ==> items[i].path != items[j].path
}

/// Some item of `items` has the path `path`.
pub open spec fn has_path(items: Seq<ItemView>, path: Seq<char>) -> bool {
    exists|i: int| 0 <= i < items.len() && #[trigger] items[i].path == path
}

/// The position of an item with the path `path`, where there is one.
pub open spec fn position_of(items: Seq<ItemView>, path: Seq<char>) -> int {
    choose|i: int| 0 <= i < items.len() && #[trigger] items[i].path == path
}

/// The metadata that `items` records for `path`, if any.
pub open spec fn lookup(items: Seq<ItemView>, path: Seq<char>) -> Option<DriverItemMetadata> {
    if has_path(items, path) {
        Some(items[position_of(items, path)].metadata)
    } else {
        None
    }
}

/// Item `j` repeats the path of an earlier item, and no item before it repeats one.
pub open spec fn is_first_repeat(items: Seq<ItemView>, j: int) -> bool {
    &&& 0 <= j < items.len()
    &&& has_path(items.take(j), items[j].path)
    &&& distinct_paths(items.take(j))
}

/// The first item that repeats the path of an earlier one, where there is one.
pub open spec fn first_repeat(items: Seq<ItemView>) -> int {
    choose|j: int| is_first_repeat(items, j)
}

/// Only one item is the first to repeat a path.
pub proof fn lemma_first_repeat_unique(items: Seq<ItemView>, j: int)
    requires
        is_first_repeat(items, j),
    ensures
        first_repeat(items) == j,
        !distinct_paths(items),
{
    let k = first_repeat(items);
    let a = position_of(items.take(j), items[j].path);
    assert(items.take(j)[a].path == items[j].path);
    assert(items[a].path == items[j].path);
    if k > j {
        assert(items.take(k)[a].path == items.take(k)[j].path);
    } else if j > k {
        let b = position_of(items.take(k), items[k].path);
        assert(items.take(k)[b].path == items[k].path);
        assert(items.take(j)[b].path == items.take(j)[k].path);
    }
}

/// Among items with distinct paths, looking up an item's path finds that item.
pub proof fn lemma_lookup_at(items: Seq<ItemView>, i: int)
    requires
        distinct_paths(items),
        0 <= i < items.len(),
    ensures
        has_path(items, items[i].path),
        position_of(items, items[i].path) == i,
        lookup(items, items[i].path) == Some(items[i].metadata),
{
    assert(items[i].path == items[i].path);
    let k = position_of(items, items[i].path);
    assert(0 <= k < items.len() && items[k].path == items[i].path);
    if k < i {
        assert(items[k].path != items[i].path);
    } else if i < k {
        assert(items[i].path != items[k].path);
    }
}

/// The names that a crawl leaves out, together with everything below them.
pub struct IgnoreSet {
    names: StringHashSet,
}

impl View for IgnoreSet {
    type V = Set<Seq<char>>;

    closed spec fn view(&self) -> Set<Seq<char>> {
        self.names@
    }
}

impl IgnoreSet {
    /// A set that leaves nothing out.
    pub fn new() -> (r: Self)
        ensures
            r@ == Set::<Seq<char>>::empty(),
    {
        IgnoreSet { names: StringHashSet::new() }
    }

    /// The set of the given names.
    pub fn from_names(names: &Vec<String>) -> (r: Self)
        ensures
            forall|name: Seq<char>|
                r@.contains(name) <==> exists|i: int|
                    0 <= i < names.len() && #[trigger] names@[i]@ == name,
    {
        let mut set = StringHashSet::new();
        let mut i: usize = 0;
        while i < names.len()
            invariant
                0 <= i <= names.len(),
                forall|name: Seq<char>|
                    set@.contains(name) <==> exists|k: int|
                        0 <= k < i && #[trigger] names@[k]@ == name,
            decreases names.len() - i,
        {
            let ghost before = set@;
            set.insert(names[i].clone());
            proof {
                assert forall|name: Seq<char>|
                    set@.contains(name) <==> exists|k: int|
                        0 <= k < i + 1 && #[trigger] names@[k]@ == name by {
                    if before.contains(name) {
                        let k = choose|k: int| 0 <= k < i && #[trigger] names@[k]@ == name;
                        assert(names@[k]@ == name);
                    }
                    if name == names@[i as int]@ {
                        assert(names@[i as int]@ == name);
                    }
                }
            }
            i += 1;
        }
        IgnoreSet { names: set }
    }

    /// Adds one name to the set.
    pub fn insert(&mut self, name: String)
        ensures
            final(self)@ == old(self)@.insert(name@),
    {
        self.names.insert(name);
    }

    /// Whether `name` is left out.
    pub fn contains(&self, name: &str) -> (r: bool)
        ensures
            r == self@.contains(name@),
    {
        self.names.contains(name)
    }
}

/// A metadata field that a backend may fail to report.
#[derive(Debug, Clone, Copy, PartialEq, Eq, Structural)]
pub enum MetadataField {
    ModificationTime,
    Size,
}

/// Why a crawl or a snapshot build failed. Every failure ends the crawl that met it.
#[derive(Debug, Clone, PartialEq, Eq)]
pub enum DriverError {
    /// The root does not exist or is not a directory.
    NotFound { path: String },
    /// A path is not valid UTF-8; `path` is a rendering of it for messages.
    InvalidEncoding { path: String },
    /// The entry is a symbolic link, or neither a regular file nor a directory.
    UnsupportedItemType { path: String },
    /// The backend did not report a field that the item needs.
    MissingMetadataField { path: String, field: MetadataField },
    /// Two items of one crawl have the same path.
    DuplicateItem { path: String },
    /// The crawl was asked to stop.
    Cancelled,
    /// The filesystem failed, or handed over something it should not have.
    Io { path: String, detail: String },
    /// The remote side failed, or handed over something it should not have.
    Protocol { path: String, detail: String },
}

/// The mathematical value of a [`DriverError`].
pub enum DriverErrorView {
    NotFound { path: Seq<char> },
    InvalidEncoding { path: Seq<char> },
    UnsupportedItemType { path: Seq<char> },
    MissingMetadataField { path: Seq<char>, field: MetadataField },
    DuplicateItem { path: Seq<char> },
    Cancelled,
    Io { path: Seq<char>, detail: Seq<char> },
    Protocol { path: Seq<char>, detail: Seq<char> },
}

impl View for DriverError {
    type V = DriverErrorView;

    open spec fn view(&self) -> DriverErrorView {
        match *self {
            DriverError::NotFound { path } => DriverErrorView::NotFound { path: path@ },
            DriverError::InvalidEncoding { path } => DriverErrorView::InvalidEncoding {
                path: path@,
            },
            DriverError::UnsupportedItemType { path } => DriverErrorView::UnsupportedItemType {
                path: path@,
            },
            DriverError::MissingMetadataField { path, field } => {
                DriverErrorView::MissingMetadataField { path: path@, field }
            },
            DriverError::DuplicateItem { path } => DriverErrorView::DuplicateItem { path: path@ },
            DriverError::Cancelled => DriverErrorView::Cancelled,
            DriverError::Io { path, detail } => DriverErrorView::Io {
                path: path@,
                detail: detail@,
            },
            DriverError::Protocol { path, detail } => DriverErrorView::Protocol {
                path: path@,
                detail: detail@,
            },
        }
    }
}

/// The value of what a step that yields one item returned.
pub open spec fn item_outcome(r: Result<DriverItem, DriverError>) -> Result<
    ItemView,
    DriverErrorView,
> {
    match r {
        Ok(item) => Ok(item@),
        Err(e) => Err(e@),
    }
}

/// What kind of thing an entry is, as one stat call tells it without following links.
#[derive(Debug, Clone, Copy, PartialEq, Eq, Structural)]
pub enum ItemKind {
    Directory,
    File,
    Symlink,
    Other,
}

/// What one stat call reports of an entry of the local filesystem.
#[derive(Debug, Clone, Copy, PartialEq, Eq, Structural)]
pub struct EntryStat {
    pub kind: ItemKind,
    pub modification_date: i64,
    pub size: u64,
}

/// The path of an entry as a backend hands it over: text, or something that is not valid
/// UTF-8, of which only a rendering for messages is kept.
#[derive(Debug, Clone, PartialEq, Eq)]
pub enum EntryPath {
    Utf8(String),
    NotUtf8(String),
}

/// The mathematical value of an [`EntryPath`].
pub enum EntryPathView {
    Utf8(Seq<char>),
    NotUtf8(Seq<char>),
}

impl View for EntryPath {
    type V = EntryPathView;

    open spec fn view(&self) -> EntryPathView {
        match *self {
            EntryPath::Utf8(path) => EntryPathView::Utf8(path@),
            EntryPath::NotUtf8(shown) => EntryPathView::NotUtf8(shown@),
        }
    }
}

/// Reads the stop request that the crawls of one session share. Another crawl may set it
/// at any moment, so nothing is known of the answer beforehand.
pub fn stop_requested(stop_request: &AtomicBool) -> bool {
    stop_request.load(Ordering::Relaxed)
}

/// Sets the stop request, so that the other crawl of the session ends early.
pub fn request_stop(stop_request: &AtomicBool) {
    stop_request.store(true, Ordering::Relaxed);
}

/// The mathematical value of a [`Snapshot`].
pub struct SnapshotView {
    pub path: Seq<char>,
    pub items: Seq<ItemView>,
}

/// The inventory of one tree: the root it was taken from and the items found under it.
/// No two of its items share a path.
#[derive(Debug)]
pub struct Snapshot {
    path: String,
    items: Vec<DriverItem>,
}

impl View for Snapshot {
    type V = SnapshotView;

    closed spec fn view(&self) -> SnapshotView {
        SnapshotView { path: self.path@, items: item_views(self.items@) }
    }
}

/// The snapshot that the items found under `path` make: none if two of them share a
/// path, and the failure then names the path of the first item that repeats an earlier one.
pub open spec fn snapshot_of(path: Seq<char>, items: Seq<ItemView>) -> Result<
    SnapshotView,
    DriverErrorView,
> {
    if distinct_paths(items) {
        Ok(SnapshotView { path, items })
    } else {
        Err(DriverErrorView::DuplicateItem { path: items[first_repeat(items)].path })
    }
}

/// The value of what building a snapshot returned.
pub open spec fn snapshot_outcome(r: Result<Snapshot, DriverError>) -> Result<
    SnapshotView,
    DriverErrorView,
> {
    match r {
        Ok(snapshot) => Ok(snapshot@),
        Err(e) => Err(e@),
    }
}

/// What a crawl came to, and the snapshot that it makes: a failed crawl makes none.
pub open spec fn concluded(path: Seq<char>, found: Result<Vec<DriverItem>, DriverError>) -> Result<
    SnapshotView,
    DriverErrorView,
> {
    match found {
        Ok(items) => snapshot_of(path, item_views(items@)),
        Err(e) => Err(e@),
    }
}

impl Snapshot {
    #[verifier::type_invariant]
    spec fn unique_paths(&self) -> bool {
        distinct_paths(item_views(self.items@))
    }

    /// Packages the items found under `path`, unless two of them share a path.
    pub fn new(path: String, items: Vec<DriverItem>) -> (r: Result<Snapshot, DriverError>)
        ensures
            snapshot_outcome(r) == snapshot_of(path@, item_views(items@)),
    {
        let ghost views = item_views(items@);
        let mut uniq = StringHashSet::new();
        let mut i: usize = 0;
        while i < items.len()
            invariant
                0 <= i <= items.len(),
                views == item_views(items@),
                distinct_paths(views.take(i as int)),
                forall|p: Seq<char>| uniq@.contains(p) <==> has_path(views.take(i as int), p),
            decreases items.len() - i,
        {
            let fresh = uniq.insert(items[i].path.clone());
            proof {
                let before = views.take(i as int);
                let after = views.take(i + 1);
                assert(after =~= before.push(views[i as int]));
                assert(views[i as int].path == items@[i as int].path@);
                assert forall|p: Seq<char>| uniq@.contains(p) <==> has_path(after, p) by {
                    if has_path(after, p) {
                        let k = position_of(after, p);
                        if k < i {
                            assert(before[k].path == p);
                        }
                    }
                    if has_path(before, p) {
                        let k = position_of(before, p);
                        assert(after[k].path == p);
                    }
                    assert(after[i as int].path == views[i as int].path);
                }
                if fresh {
                    assert forall|a: int, b: int| 0 <= a < b < after.len() implies after[a].path
                        != after[b].path by {
                        if b < i {
                            assert(before[a].path != before[b].path);
                        } else {
                            if after[a].path == after[b].path {
                                assert(before[a].path == views[i as int].path);
                                assert(has_path(before, views[i as int].path));
                            }
                        }
                    }
                }
            }
            if !fresh {
                let path = items[i].path.clone();
                proof {
                    assert(is_first_repeat(views, i as int));
                    lemma_first_repeat_unique(views, i as int);
                }
                return Err(DriverError::DuplicateItem { path });
            }
            i += 1;
        }
        assert(views.take(i as int) =~= views);
        Ok(Snapshot { path, items })
    }

    /// The root that the snapshot was taken from.
    pub fn path(&self) -> (r: &String)
        ensures
            r@ == self@.path,
    {
        &self.path
    }

    /// The items of the snapshot; no two of them share a path.
    pub fn items(&self) -> (r: &Vec<DriverItem>)
        ensures
            item_views(r@) == self@.items,
            distinct_paths(self@.items),
    {
        proof {
            use_type_invariant(self);
        }
        &self.items
    }
}

/// A backend that can enumerate a tree: the local filesystem, a remote host, or another.
pub trait Driver {
    /// Lists every item under `dir`, leaving out each entry whose name is in `ignore`
    /// together with all that lies below it. The crawl looks at `stop_request` before each
    /// item and ends with `Cancelled` once it finds the request set.
    fn find_all(&self, dir: &str, ignore: &IgnoreSet, stop_request: Arc<AtomicBool>) -> Result<
        Vec<DriverItem>,
        DriverError,
    >;
}

/// Turns what a crawl of `path` came to into a snapshot. The failure of the crawl is
/// handed on, and two items with one path are a failure too.
pub fn conclude_snapshot(path: String, found: Result<Vec<DriverItem>, DriverError>) -> (r: Result<
    Snapshot,
    DriverError,
>)
    ensures
        snapshot_outcome(r) == concluded(path@, found),
{
    match found {
        Ok(items) => Snapshot::new(path, items),
        Err(e) => Err(e),
    }
}

/// Builds the snapshot of the tree under `path` with the given backend. When the build
/// fails, for whatever reason, it sets the stop request before it returns the failure, so
/// that the other build of the session ends early; the contract is silent on this, as it
/// cannot speak of a flag that other threads share. A snapshot that is returned is of the
/// path that was asked for, and which items it holds is for the backend to say:
/// [`conclude_snapshot`] states what is made of whatever the backend returns.
pub fn make_snapshot(
    driver: &dyn Driver,
    path: String,
    ignore: &IgnoreSet,
    stop_request: Arc<AtomicBool>,
) -> (r: Result<Snapshot, DriverError>)
    ensures
        r matches Ok(snapshot) ==> snapshot@.path == path@ && distinct_paths(snapshot@.items),
{
    let found = driver.find_all(path.as_str(), ignore, Arc::clone(&stop_request));
    let built = conclude_snapshot(path, found);
    if built.is_err() {
        request_stop(&stop_request);
    }
    built
}

} // verus!
