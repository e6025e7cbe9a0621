use crate::drivers::common::{
    item_views, stop_requested, DriverError, DriverErrorView, DriverFileMetadata, DriverItem,
    DriverItemMetadata, EntryPath, EntryPathView, IgnoreSet, ItemView, MetadataField,
};
use crate::drivers::paths::{
    last_segment, last_segment_of, outside_root_detail, relative_to, strip_root, text_views,
};
use std::sync::atomic::AtomicBool;
use vstd::prelude::*;
use vstd::string::StringExecFns;

verus! {

/// What the remote side reports of an entry; it may leave any field out.
#[derive(Debug, Clone, Copy, PartialEq, Eq, Structural)]
pub struct RemoteStat {
    /// The size in bytes.
    pub size: Option<u64>,
    /// The mode: the permissions together with the bits that tell the type.
    pub perm: Option<u32>,
    /// The time of the last modification.
    pub mtime: Option<u64>,
}

/// One entry of a remote directory listing.
#[derive(Debug, Clone, PartialEq, Eq)]
pub struct RemoteEntry {
    pub path: EntryPath,
    pub stat: RemoteStat,
}

/// The mathematical value of a [`RemoteEntry`].
pub struct RemoteEntryView {
    pub path: EntryPathView,
    pub stat: RemoteStat,
}

impl View for RemoteEntry {
    type V = RemoteEntryView;

    open spec fn view(&self) -> RemoteEntryView {
        RemoteEntryView { path: self.path@, stat: self.stat }
    }
}

/// The values of the entries of a listing, in the same order.
pub open spec fn entry_views(entries: Seq<RemoteEntry>) -> Seq<RemoteEntryView> {
    Seq::new(entries.len(), |i: int| entries[i]@)
}

/// The bits of a mode that tell the type of the entry; a mode that was not reported
/// counts as zero.
pub open spec fn type_bits(perm: Option<u32>) -> u32 {
    match perm {
        Some(mode) => mode & 0o170000,
        None => 0,
    }
}

/// The mode is that of a directory.
pub open spec fn mode_is_dir(perm: Option<u32>) -> bool {
    type_bits(perm) == 0o040000
}

/// The mode is that of a regular file.
pub open spec fn mode_is_file(perm: Option<u32>) -> bool {
    type_bits(perm) == 0o100000
}

/// Asks `ssh2::FileStat::is_dir` whether a mode is that of a directory. Not proved here:
/// that it answers yes exactly when the type bits of the mode, taken as zero where no
/// mode was reported, are those of a directory.
#[verifier::external_body]
fn stat_is_dir(perm: Option<u32>) -> (r: bool)
    ensures
        r == mode_is_dir(perm),
{
    let stat = ssh2::FileStat { size: None, uid: None, gid: None, perm, atime: None, mtime: None };
    stat.is_dir()
}

/// Asks `ssh2::FileStat::is_file` whether a mode is that of a regular file. Not proved
/// here: that it answers yes exactly when the type bits of the mode, taken as zero where
/// no mode was reported, are those of a regular file.
#[verifier::external_body]
fn stat_is_file(perm: Option<u32>) -> (r: bool)
    ensures
        r == mode_is_file(perm),
{
    let stat = ssh2::FileStat { size: None, uid: None, gid: None, perm, atime: None, mtime: None };
    stat.is_file()
}

/// What a failure says when a path has no name at its end.
pub open spec fn missing_name_detail() -> Seq<char> {
    "Filename is missing on path"@
}

/// What a failure says when a modification time is too large to be kept.
pub open spec fn invalid_time_detail() -> Seq<char> {
    "Invalid modification time found for item"@
}

/// The name of the entry that a remote path leads to: its last segment, which must be
/// text and not empty.
pub open spec fn filename_of(path: EntryPathView) -> Result<Seq<char>, DriverErrorView> {
    match path {
        EntryPathView::NotUtf8(shown) => Err(DriverErrorView::InvalidEncoding { path: shown }),
        EntryPathView::Utf8(p) => if last_segment(p).len() == 0 {
            Err(DriverErrorView::Protocol { path: p, detail: missing_name_detail() })
        } else {
            Ok(last_segment(p))
        },
    }
}

/// Finds the name of the entry that a remote path leads to.
pub fn get_filename<'a>(path: &'a EntryPath) -> (r: Result<&'a str, DriverError>)
    ensures
        match r {
            Ok(name) => filename_of(path@) == Ok::<Seq<char>, DriverErrorView>(name@),
            Err(e) => filename_of(path@) == Err::<Seq<char>, DriverErrorView>(e@),
        },
{
    match path {
        EntryPath::NotUtf8(shown) => Err(DriverError::InvalidEncoding { path: shown.clone() }),
        EntryPath::Utf8(p) => {
            let name = last_segment_of(p.as_str());
            if name.unicode_len() == 0 {
                Err(
                    DriverError::Protocol {
                        path: p.clone(),
                        detail: String::from_str("Filename is missing on path"),
                    },
                )
            } else {
                Ok(name)
            }
        },
    }
}

/// The metadata of a remote entry that is a regular file: both its modification time and
/// its size must have been reported, and the time must fit the signed range.
pub open spec fn remote_file_metadata(path: Seq<char>, stat: RemoteStat) -> Result<
    DriverItemMetadata,
    DriverErrorView,
> {
    match stat.mtime {
        None => Err(
            DriverErrorView::MissingMetadataField { path, field: MetadataField::ModificationTime },
        ),
        Some(mtime) => if mtime > i64::MAX {
            Err(DriverErrorView::Protocol { path, detail: invalid_time_detail() })
        } else {
            match stat.size {
                None => Err(
                    DriverErrorView::MissingMetadataField { path, field: MetadataField::Size },
                ),
                Some(size) => Ok(
                    DriverItemMetadata::File(
                        DriverFileMetadata { modification_date: mtime as i64, size },
                    ),
                ),
            }
        },
    }
}

/// What one entry of a listing comes to: a failure, nothing where its name is ignored, or
/// an item. A stop request fails the entry before anything else is looked at.
pub open spec fn remote_item_of(
    cancelled: bool,
    root: Seq<char>,
    ignore: Set<Seq<char>>,
    entry: RemoteEntryView,
) -> Result<Option<ItemView>, DriverErrorView> {
    if cancelled {
        Err(DriverErrorView::Cancelled)
    } else {
        match filename_of(entry.path) {
            Err(e) => Err(e),
            Ok(name) => if ignore.contains(name) {
                Ok(None)
            } else {
                let path = entry.path->Utf8_0;
                match relative_to(path, root) {
                    None => Err(DriverErrorView::Protocol { path, detail: outside_root_detail() }),
                    Some(relative) => if mode_is_dir(entry.stat.perm) {
                        Ok(
                            Some(
                                ItemView {
                                    path: relative,
                                    metadata: DriverItemMetadata::Directory,
                                },
                            ),
                        )
                    } else if mode_is_file(entry.stat.perm) {
                        match remote_file_metadata(path, entry.stat) {
                            Err(e) => Err(e),
                            Ok(metadata) => Ok(Some(ItemView { path: relative, metadata })),
                        }
                    } else {
                        Err(DriverErrorView::UnsupportedItemType { path })
                    },
                }
            },
        }
    }
}

/// The value of what looking at one entry returned.
pub open spec fn entry_outcome(r: Result<Option<DriverItem>, DriverError>) -> Result<
    Option<ItemView>,
    DriverErrorView,
> {
    match r {
        Ok(Some(item)) => Ok(Some(item@)),
        Ok(None) => Ok(None),
        Err(e) => Err(e@),
    }
}

/// Looks at one entry of a listing, given whether a stop was requested.
pub fn remote_item(cancelled: bool, root: &str, ignore: &IgnoreSet, entry: &RemoteEntry) -> (r:
    Result<Option<DriverItem>, DriverError>)
    ensures
        entry_outcome(r) == remote_item_of(cancelled, root@, ignore@, entry@),
{
    if cancelled {
        return Err(DriverError::Cancelled);
    }
    let name = match get_filename(&entry.path) {
        Ok(name) => name,
        Err(e) => {
            return Err(e);
        },
    };
    if ignore.contains(name) {
        return Ok(None);
    }
    let item_path = match &entry.path {
        EntryPath::Utf8(p) => p,
        EntryPath::NotUtf8(shown) => shown,
    };
    let relative = match strip_root(item_path.as_str(), root) {
        Some(relative) => relative,
        None => {
            return Err(
                DriverError::Protocol {
                    path: item_path.clone(),
                    detail: String::from_str("Internal error: failed to strip prefix"),
                },
            );
        },
    };
    let stat = entry.stat;
    if stat_is_dir(stat.perm) {
        Ok(
            Some(
                DriverItem {
                    path: String::from_str(relative),
                    metadata: DriverItemMetadata::Directory,
                },
            ),
        )
    } else if stat_is_file(stat.perm) {
        let mtime = match stat.mtime {
            Some(mtime) => mtime,
            None => {
                return Err(
                    DriverError::MissingMetadataField {
                        path: item_path.clone(),
                        field: MetadataField::ModificationTime,
                    },
                );
            },
        };
        if mtime > i64::MAX as u64 {
            return Err(
                DriverError::Protocol {
                    path: item_path.clone(),
                    detail: String::from_str("Invalid modification time found for item"),
                },
            );
        }
        let size = match stat.size {
            Some(size) => size,
            None => {
                return Err(
                    DriverError::MissingMetadataField {
                        path: item_path.clone(),
                        field: MetadataField::Size,
                    },
                );
            },
        };
        Ok(
            Some(
                DriverItem {
                    path: String::from_str(relative),
                    metadata: DriverItemMetadata::File(
                        DriverFileMetadata { modification_date: mtime as i64, size },
                    ),
                },
            ),
        )
    } else {
        Err(DriverError::UnsupportedItemType { path: item_path.clone() })
    }
}

/// Why a directory could not be listed: the root of the crawl is then taken not to exist,
/// and for any other directory the remote side is taken to have failed.
pub open spec fn listing_failure_of(root: Seq<char>, dir: Seq<char>, detail: Seq<char>)
    -> DriverErrorView {
    if dir == root {
        DriverErrorView::NotFound { path: root }
    } else {
        DriverErrorView::Protocol { path: dir, detail }
    }
}

/// Names the failure of a crawl under `root` whose listing of `dir` the remote side
/// refused with the message `detail`.
pub fn listing_failure(root: &str, dir: &str, detail: String) -> (e: DriverError)
    ensures
        e@ == listing_failure_of(root@, dir@, detail@),
{
    if str_eq(dir, root) {
        DriverError::NotFound { path: String::from_str(root) }
    } else {
        DriverError::Protocol { path: String::from_str(dir), detail }
    }
}

/// Whether two texts are the same.
fn str_eq(a: &str, b: &str) -> (r: bool)
    ensures
        r == (a@ == b@),
{
    let a = String::from_str(a);
    let b = String::from_str(b);
    a == b
}

/// What one directory listing comes to: the items found in it, and the directories among
/// them, by their full paths, which are to be listed in turn.
#[derive(Debug)]
pub struct DirListing {
    pub items: Vec<DriverItem>,
    pub subdirs: Vec<String>,
}

/// The mathematical value of a [`DirListing`].
pub struct DirListingView {
    pub items: Seq<ItemView>,
    pub subdirs: Seq<Seq<char>>,
}

impl View for DirListing {
    type V = DirListingView;

    open spec fn view(&self) -> DirListingView {
        DirListingView { items: item_views(self.items@), subdirs: text_views(self.subdirs@) }
    }
}

/// What a whole listing comes to when no stop is requested: the first failure among its
/// entries in order; else the items of the entries that are not ignored, in order, and
/// the full paths of those of them that are directories.
pub open spec fn listing_of(root: Seq<char>, ignore: Set<Seq<char>>, entries: Seq<RemoteEntryView>)
    -> Result<DirListingView, DriverErrorView>
    decreases entries.len(),
{
    if entries.len() == 0 {
        Ok(DirListingView { items: Seq::empty(), subdirs: Seq::empty() })
    } else {
        match listing_of(root, ignore, entries.drop_last()) {
            Err(e) => Err(e),
            Ok(before) => match remote_item_of(false, root, ignore, entries.last()) {
                Err(e) => Err(e),
                Ok(None) => Ok(before),
                Ok(Some(item)) => Ok(
                    DirListingView {
                        items: before.items.push(item),
                        subdirs: if item.metadata is Directory {
                            before.subdirs.push(entries.last().path->Utf8_0)
                        } else {
                            before.subdirs
                        },
                    },
                ),
            },
        }
    }
}

/// The value of what working through a listing returned.
pub open spec fn listing_outcome(r: Result<DirListing, DriverError>) -> Result<
    DirListingView,
    DriverErrorView,
> {
    match r {
        Ok(listing) => Ok(listing@),
        Err(e) => Err(e@),
    }
}

/// The listing was cut short by a stop request: it is `Cancelled`, and the entries before
/// the one at which the request was seen had come to no failure.
pub open spec fn cut_short(
    outcome: Result<DirListingView, DriverErrorView>,
    root: Seq<char>,
    ignore: Set<Seq<char>>,
    entries: Seq<RemoteEntryView>,
) -> bool {
    &&& outcome == Err::<DirListingView, DriverErrorView>(DriverErrorView::Cancelled)
    &&& exists|seen: int|
        0 <= seen < entries.len() && #[trigger] listing_of(root, ignore, entries.take(seen)) is Ok
}

/// Works through the listing of one remote directory, looking at the stop request before
/// each entry. Whatever the stop request is found to be, the result is what the listing
/// comes to without a stop, or, where the request was seen before any entry had failed,
/// `Cancelled`.
pub fn stateful_read_dir(
    stop_request: &AtomicBool,
    root: &str,
    ignore: &IgnoreSet,
    listing: &Vec<RemoteEntry>,
) -> (r: Result<DirListing, DriverError>)
    ensures
        listing_outcome(r) == listing_of(root@, ignore@, entry_views(listing@)) || cut_short(
            listing_outcome(r),
            root@,
            ignore@,
            entry_views(listing@),
        ),
{
    let ghost entries = entry_views(listing@);
    let mut items: Vec<DriverItem> = Vec::new();
    let mut subdirs: Vec<String> = Vec::new();
    let mut i: usize = 0;
    assert(entries.take(0) =~= Seq::<RemoteEntryView>::empty());
    assert(item_views(items@) =~= Seq::<ItemView>::empty());
    assert(text_views(subdirs@) =~= Seq::<Seq<char>>::empty());
    while i < listing.len()
        invariant
            0 <= i <= listing.len(),
            entries == entry_views(listing@),
            listing_of(root@, ignore@, entries.take(i as int)) == Ok::<
                DirListingView,
                DriverErrorView,
            >(DirListingView { items: item_views(items@), subdirs: text_views(subdirs@) }),
        decreases listing.len() - i,
    {
        let cancelled = stop_requested(stop_request);
        let entry = &listing[i];
        let ghost before_items = item_views(items@);
        let ghost before_subdirs = text_views(subdirs@);
        proof {
            assert(entries.take(i + 1).drop_last() =~= entries.take(i as int));
            assert(entries.take(i + 1).last() == entry@);
        }
        match remote_item(cancelled, root, ignore, entry) {
            Err(e) => {
                proof {
                    if !cancelled {
                        lemma_listing_fails(root@, ignore@, entries, i as int);
                    } else {
                        assert(listing_of(root@, ignore@, entries.take(i as int)) is Ok);
                    }
                }
                return Err(e);
            },
            Ok(None) => {},
            Ok(Some(item)) => {
                if item.metadata.is_dir() {
                    let dir = match &entry.path {
                        EntryPath::Utf8(p) => p.clone(),
                        EntryPath::NotUtf8(shown) => shown.clone(),
                    };
                    subdirs.push(dir);
                    assert(text_views(subdirs@) =~= before_subdirs.push(entry@.path->Utf8_0));
                }
                items.push(item);
                assert(item_views(items@) =~= before_items.push(item@));
            },
        }
        i += 1;
    }
    assert(entries.take(i as int) =~= entries);
    Ok(DirListing { items, subdirs })
}

/// A listing whose first `i` entries come to no failure and whose next entry fails comes
/// to that failure as a whole.
proof fn lemma_listing_fails(
    root: Seq<char>,
    ignore: Set<Seq<char>>,
    entries: Seq<RemoteEntryView>,
    i: int,
)
    requires
        0 <= i < entries.len(),
        listing_of(root, ignore, entries.take(i)) is Ok,
        remote_item_of(false, root, ignore, entries[i]) is Err,
    ensures
        listing_of(root, ignore, entries) == Err::<DirListingView, DriverErrorView>(
            remote_item_of(false, root, ignore, entries[i])->Err_0,
        ),
    decreases entries.len() - i,
{
    let failure = remote_item_of(false, root, ignore, entries[i])->Err_0;
    assert(entries.take(i + 1).drop_last() =~= entries.take(i));
    assert(entries.take(i + 1).last() == entries[i]);
    assert(listing_of(root, ignore, entries.take(i + 1)) == Err::<DirListingView, DriverErrorView>(
        failure,
    ));
    lemma_failure_stays(root, ignore, entries, i + 1);
}

/// Once the first `n` entries of a listing come to a failure, the whole listing does.
proof fn lemma_failure_stays(
    root: Seq<char>,
    ignore: Set<Seq<char>>,
    entries: Seq<RemoteEntryView>,
    n: int,
)
    requires
        0 <= n <= entries.len(),
        listing_of(root, ignore, entries.take(n)) is Err,
    ensures
        listing_of(root, ignore, entries) == listing_of(root, ignore, entries.take(n)),
    decreases entries.len() - n,
{
    if n == entries.len() {
        assert(entries.take(n) =~= entries);
    } else {
        assert(entries.take(n + 1).drop_last() =~= entries.take(n));
        lemma_failure_stays(root, ignore, entries, n + 1);
    }
}

/// The bookkeeping of one remote crawl, which lists directories one by one, in any order
/// and possibly several at a time: the directories still to be listed, how many listings
/// are under way, the items found so far, and the first failure.
#[derive(Debug)]
pub struct RemoteCrawl {
    pending: Vec<String>,
    outstanding: usize,
    items: Vec<DriverItem>,
    failure: Option<DriverError>,
}

/// The mathematical value of a [`RemoteCrawl`].
pub struct RemoteCrawlView {
    /// The directories found and not yet handed out for listing.
    pub pending: Seq<Seq<char>>,
    /// The number of listings handed out and not yet completed.
    pub outstanding: nat,
    /// The items of the listings completed so far.
    pub items: Seq<ItemView>,
    /// The first failure that a listing reported.
    pub failure: Option<DriverErrorView>,
}

impl RemoteCrawlView {
    /// Nothing is under way and nothing is left to do: every directory found was listed,
    /// or a failure ended the crawl.
    pub open spec fn is_done(self) -> bool {
        self.outstanding == 0 && (self.failure is Some || self.pending.len() == 0)
    }

    /// The crawl after one listing has completed with `outcome`. The first failure is
    /// kept, and after a failure nothing more is taken in.
    pub open spec fn completed(self, outcome: Result<DirListingView, DriverErrorView>) -> Self {
        let outstanding = if self.outstanding > 0 {
            (self.outstanding - 1) as nat
        } else {
            0
        };
        match (self.failure, outcome) {
            (None, Ok(listing)) => RemoteCrawlView {
                pending: self.pending + listing.subdirs,
                outstanding,
                items: self.items + listing.items,
                failure: None,
            },
            (None, Err(e)) => RemoteCrawlView { outstanding, failure: Some(e), ..self },
            (Some(_), _) => RemoteCrawlView { outstanding, ..self },
        }
    }
}

/// The value of a failure that may be absent.
pub open spec fn failure_view(failure: Option<DriverError>) -> Option<DriverErrorView> {
    match failure {
        Some(e) => Some(e@),
        None => None,
    }
}

impl View for RemoteCrawl {
    type V = RemoteCrawlView;

    closed spec fn view(&self) -> RemoteCrawlView {
        RemoteCrawlView {
            pending: text_views(self.pending@),
            outstanding: self.outstanding as nat,
            items: item_views(self.items@),
            failure: failure_view(self.failure),
        }
    }
}

impl RemoteCrawl {
    /// A crawl that has the root still to list and nothing else.
    pub fn new(root: String) -> (r: Self)
        ensures
            r@ == (RemoteCrawlView {
                pending: seq![root@],
                outstanding: 0,
                items: Seq::empty(),
                failure: None,
            }),
    {
        let mut pending: Vec<String> = Vec::new();
        pending.push(root);
        let r = RemoteCrawl { pending, outstanding: 0, items: Vec::new(), failure: None };
        assert(r@.pending =~= seq![root@]);
        assert(r@.items =~= Seq::<ItemView>::empty());
        r
    }

    /// Hands out the next directory to list, and counts its listing as under way. There
    /// is none after a failure, when no directory is left, or when the count is full.
    pub fn next_dir(&mut self) -> (r: Option<String>)
        ensures
            match r {
                Some(dir) => {
                    &&& old(self)@.failure is None
                    &&& old(self)@.pending.len() > 0
                    &&& old(self)@.outstanding < usize::MAX
                    &&& dir@ == old(self)@.pending.last()
                    &&& final(self)@ == (RemoteCrawlView {
                        pending: old(self)@.pending.drop_last(),
                        outstanding: old(self)@.outstanding + 1,
                        ..old(self)@
                    })
                },
                None => {
                    &&& old(self)@.failure is Some || old(self)@.pending.len() == 0 || old(
                        self,
                    )@.outstanding == usize::MAX
                    &&& final(self)@ == old(self)@
                },
            },
    {
        if self.failure.is_some() || self.outstanding == usize::MAX {
            return None;
        }
        let ghost before = self.pending@;
        match self.pending.pop() {
            None => None,
            Some(dir) => {
                self.outstanding = self.outstanding + 1;
                assert(text_views(self.pending@) =~= text_views(before).drop_last());
                Some(dir)
            },
        }
    }

    /// Takes in what one listing came to, and counts it as no longer under way.
    pub fn complete(&mut self, outcome: Result<DirListing, DriverError>)
        ensures
            final(self)@ == old(self)@.completed(listing_outcome(outcome)),
    {
        if self.outstanding > 0 {
            self.outstanding = self.outstanding - 1;
        }
        if self.failure.is_none() {
            match outcome {
                Ok(listing) => {
                    let ghost items_before = self.items@;
                    let ghost pending_before = self.pending@;
                    let mut items = listing.items;
                    let mut subdirs = listing.subdirs;
                    self.items.append(&mut items);
                    self.pending.append(&mut subdirs);
                    assert(item_views(self.items@) =~= item_views(items_before) + listing@.items);
                    assert(text_views(self.pending@) =~= text_views(pending_before)
                        + listing@.subdirs);
                },
                Err(e) => {
                    self.failure = Some(e);
                },
            }
        }
    }

    /// Whether the crawl is over.
    pub fn is_done(&self) -> (r: bool)
        ensures
            r == self@.is_done(),
    {
        self.outstanding == 0 && (self.failure.is_some() || self.pending.len() == 0)
    }

    /// How many listings are under way.
    pub fn outstanding(&self) -> (r: usize)
        ensures
            r == self@.outstanding,
    {
        self.outstanding
    }

    /// What the crawl came to, once it is over: its first failure, or all the items found.
    /// There is no result while the crawl is still going.
    pub fn into_outcome(self) -> (r: Option<Result<Vec<DriverItem>, DriverError>>)
        ensures
            !self@.is_done() ==> r is None,
            self@.is_done() ==> match self@.failure {
                Some(e) => r matches Some(Err(f)) && f@ == e,
                None => r matches Some(Ok(items)) && item_views(items@) == self@.items,
            },
    {
        if !self.is_done() {
            return None;
        }
        match self.failure {
            Some(e) => Some(Err(e)),
            None => Some(Ok(self.items)),
        }
    }
}

} // verus!
