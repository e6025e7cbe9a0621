use crate::drivers::common::{
    item_outcome, stop_requested, DriverError, DriverErrorView, DriverFileMetadata, DriverItem,
    DriverItemMetadata, EntryPath, EntryPathView, EntryStat, IgnoreSet, ItemKind, ItemView,
};
use crate::drivers::paths::{
    has_ignored_segment, has_segment_in, outside_root_detail, relative_to, strip_root,
};
use std::sync::atomic::AtomicBool;
use vstd::prelude::*;
use vstd::string::StringExecFns;

verus! {

/// The root that a crawl of the local filesystem starts from: the resolved form of the
/// path that was asked for, which must exist, be text and be a directory.
pub open spec fn resolved_root(
    given: Seq<char>,
    resolved: Option<EntryPathView>,
    is_dir: bool,
) -> Result<Seq<char>, DriverErrorView> {
    match resolved {
        None => Err(DriverErrorView::NotFound { path: given }),
        Some(EntryPathView::NotUtf8(shown)) => Err(DriverErrorView::InvalidEncoding { path: shown }),
        Some(EntryPathView::Utf8(path)) => if is_dir {
            Ok(path)
        } else {
            Err(DriverErrorView::NotFound { path: given })
        },
    }
}

/// The value of a path that may be missing.
pub open spec fn resolved_view(resolved: Option<EntryPath>) -> Option<EntryPathView> {
    match resolved {
        Some(path) => Some(path@),
        None => None,
    }
}

/// Decides on the root of a crawl from what resolving the given path came to (`None`
/// where it could not be resolved) and whether the result is a directory.
pub fn resolve_root(given: &str, resolved: Option<EntryPath>, is_dir: bool) -> (r: Result<
    String,
    DriverError,
>)
    ensures
        match r {
            Ok(root) => resolved_root(given@, resolved_view(resolved), is_dir) == Ok::<
                Seq<char>,
                DriverErrorView,
            >(root@),
            Err(e) => resolved_root(given@, resolved_view(resolved), is_dir) == Err::<
                Seq<char>,
                DriverErrorView,
            >(e@),
        },
{
    match resolved {
        None => Err(DriverError::NotFound { path: String::from_str(given) }),
        Some(EntryPath::NotUtf8(shown)) => Err(DriverError::InvalidEncoding { path: shown }),
        Some(EntryPath::Utf8(path)) => {
            if is_dir {
                Ok(path)
            } else {
                Err(DriverError::NotFound { path: String::from_str(given) })
            }
        },
    }
}

/// Whether a crawl under `root` visits the entry at `path`: it does unless the entry's own
/// name, or the name of a directory between the root and the entry, is to be ignored.
pub open spec fn keeps_entry(root: Seq<char>, path: EntryPathView, ignore: Set<Seq<char>>) -> bool {
    match path {
        EntryPathView::NotUtf8(_) => true,
        EntryPathView::Utf8(p) => match relative_to(p, root) {
            None => true,
            Some(relative) => !has_segment_in(relative, ignore),
        },
    }
}

/// Decides whether the walk keeps an entry, and with it everything below the entry.
pub fn keep_entry(root: &str, path: &EntryPath, ignore: &IgnoreSet) -> (r: bool)
    ensures
        r == keeps_entry(root@, path@, ignore@),
{
    match path {
        EntryPath::NotUtf8(_) => true,
        EntryPath::Utf8(p) => match strip_root(p.as_str(), root) {
            None => true,
            Some(relative) => !has_ignored_segment(relative, ignore),
        },
    }
}

/// The path of an entry relative to the root of its crawl.
pub open spec fn relative_utf8_path(path: EntryPathView, source: Seq<char>) -> Result<
    Seq<char>,
    DriverErrorView,
> {
    match path {
        EntryPathView::NotUtf8(shown) => Err(DriverErrorView::InvalidEncoding { path: shown }),
        EntryPathView::Utf8(p) => match relative_to(p, source) {
            None => Err(DriverErrorView::Io { path: p, detail: outside_root_detail() }),
            Some(relative) => Ok(relative),
        },
    }
}

/// Computes the path of an entry relative to the root `source`. A path that is not text
/// is refused, and so is one that does not lie under the root.
pub fn get_relative_utf8_path<'a>(path: &'a EntryPath, source: &str) -> (r: Result<
    &'a str,
    DriverError,
>)
    ensures
        match r {
            Ok(relative) => relative_utf8_path(path@, source@) == Ok::<Seq<char>, DriverErrorView>(
                relative@,
            ),
            Err(e) => relative_utf8_path(path@, source@) == Err::<Seq<char>, DriverErrorView>(e@),
        },
{
    match path {
        EntryPath::NotUtf8(shown) => Err(DriverError::InvalidEncoding { path: shown.clone() }),
        EntryPath::Utf8(p) => match strip_root(p.as_str(), source) {
            None => Err(
                DriverError::Io {
                    path: p.clone(),
                    detail: String::from_str("Internal error: failed to strip prefix"),
                },
            ),
            Some(relative) => Ok(relative),
        },
    }
}

/// The item that a walked entry stands for. Its path must be text and lie under the
/// root; then a directory or a regular file gives an item, and anything else is refused.
pub open spec fn fs_item_of(root: Seq<char>, path: EntryPathView, stat: EntryStat) -> Result<
    ItemView,
    DriverErrorView,
> {
    match relative_utf8_path(path, root) {
        Err(e) => Err(e),
        Ok(relative) => match stat.kind {
            ItemKind::Directory => Ok(
                ItemView { path: relative, metadata: DriverItemMetadata::Directory },
            ),
            ItemKind::File => Ok(
                ItemView {
                    path: relative,
                    metadata: DriverItemMetadata::File(
                        DriverFileMetadata {
                            modification_date: stat.modification_date,
                            size: stat.size,
                        },
                    ),
                },
            ),
            _ => Err(DriverErrorView::UnsupportedItemType { path: path->Utf8_0 }),
        },
    }
}

/// Turns one walked entry into an item, from its path and what one stat call reported.
pub fn fs_item(root: &str, path: &EntryPath, stat: EntryStat) -> (r: Result<
    DriverItem,
    DriverError,
>)
    ensures
        item_outcome(r) == fs_item_of(root@, path@, stat),
{
    let relative = match get_relative_utf8_path(path, root) {
        Ok(relative) => relative,
        Err(e) => {
            return Err(e);
        },
    };
    let path_text = match path {
        EntryPath::Utf8(p) => p,
        EntryPath::NotUtf8(shown) => shown,
    };
    match stat.kind {
        ItemKind::Directory => Ok(
            DriverItem {
                path: String::from_str(relative),
                metadata: DriverItemMetadata::Directory,
            },
        ),
        ItemKind::File => Ok(
            DriverItem {
                path: String::from_str(relative),
                metadata: DriverItemMetadata::File(
                    DriverFileMetadata {
                        modification_date: stat.modification_date,
                        size: stat.size,
                    },
                ),
            },
        ),
        _ => Err(DriverError::UnsupportedItemType { path: path_text.clone() }),
    }
}

/// Reads the stop request and tells a crawl whether to go on, as [`go_on_unless`] decides
/// of what was read. Whatever was read, a failure is `Cancelled`.
pub fn ensure_running(stop_request: &AtomicBool) -> (r: Result<(), DriverError>)
    ensures
        r matches Err(e) ==> e@ == DriverErrorView::Cancelled,
{
    go_on_unless(stop_requested(stop_request))
}

/// Decides whether a crawl goes on, given what the stop request was found to be: the
/// crawl goes on while no stop is requested, and fails with `Cancelled` once one is.
pub fn go_on_unless(stop_requested: bool) -> (r: Result<(), DriverError>)
    ensures
        r is Ok <==> !stop_requested,
        r matches Err(e) ==> e@ == DriverErrorView::Cancelled,
{
    if stop_requested {
        Err(DriverError::Cancelled)
    } else {
        Ok(())
    }
}

} // verus!
