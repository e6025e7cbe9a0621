use snapdiff::drivers::fs::{
    ensure_running, fs_item, get_relative_utf8_path, go_on_unless, keep_entry, resolve_root,
};
use snapdiff::drivers::paths::{has_ignored_segment, last_segment_of, strip_root};
use snapdiff::drivers::sftp::{
    get_filename, listing_failure, remote_item, stateful_read_dir, DirListing, RemoteCrawl,
    RemoteEntry, RemoteStat,
};
use snapdiff::drivers::{
    DriverError, DriverFileMetadata, DriverItem, DriverItemMetadata, EntryPath, EntryStat,
    IgnoreSet, ItemKind, MetadataField,
};
use std::sync::atomic::AtomicBool;

fn ignore(names: &[&str]) -> IgnoreSet {
    IgnoreSet::from_names(&names.iter().map(|n| n.to_string()).collect())
}

fn utf8(path: &str) -> EntryPath {
    EntryPath::Utf8(path.to_string())
}

fn file(size: u64, mtime: i64) -> DriverItemMetadata {
    DriverItemMetadata::File(DriverFileMetadata { modification_date: mtime, size })
}

#[test]
fn strip_root_takes_root_and_separator_off() {
    assert_eq!(strip_root("/a/b/c.txt", "/a"), Some("b/c.txt"));
    assert_eq!(strip_root("/a/b/c.txt", "/a/b"), Some("c.txt"));
    assert_eq!(strip_root("/a", "/a"), Some(""));
    assert_eq!(strip_root("/a/b", "/"), Some("a/b"));
    assert_eq!(strip_root("/a/b", "/a/"), Some("b"));
    assert_eq!(strip_root("/ab", "/a"), None);
    assert_eq!(strip_root("/b/c", "/a"), None);
    assert_eq!(strip_root("/a", "/a/b"), None);
    assert_eq!(strip_root("/données/été/ça.txt", "/données"), Some("été/ça.txt"));
    assert_eq!(strip_root("/données/été", "/donnees"), None);
}

#[test]
fn segments_are_matched_whole() {
    let set = ignore(&["target", ".git"]);
    assert!(has_ignored_segment("target", &set));
    assert!(has_ignored_segment("a/target", &set));
    assert!(has_ignored_segment("a/target/b", &set));
    assert!(has_ignored_segment(".git/config", &set));
    assert!(!has_ignored_segment("a/targets/b", &set));
    assert!(!has_ignored_segment("mytarget", &set));
    assert!(!has_ignored_segment("", &set));
    assert!(!has_ignored_segment("a/b/c", &set));
    assert!(!has_ignored_segment("a/b", &IgnoreSet::new()));
    assert!(has_ignored_segment("a//b", &ignore(&[""])));
}

#[test]
fn ignore_set_holds_what_was_put_in() {
    let mut set = ignore(&["a", "b"]);
    assert!(set.contains("a"));
    assert!(set.contains("b"));
    assert!(!set.contains("c"));
    set.insert("c".to_string());
    assert!(set.contains("c"));
    assert!(!IgnoreSet::new().contains("a"));
}

#[test]
fn last_segment_is_the_name() {
    assert_eq!(last_segment_of("/a/b/c.txt"), "c.txt");
    assert_eq!(last_segment_of("c.txt"), "c.txt");
    assert_eq!(last_segment_of("/a/b/"), "");
    assert_eq!(last_segment_of(""), "");
    assert_eq!(last_segment_of("/données/été"), "été");
}

#[test]
fn root_must_exist_and_be_a_directory() {
    assert_eq!(resolve_root("./x", Some(utf8("/abs/x")), true), Ok("/abs/x".to_string()));
    assert_eq!(
        resolve_root("./x", Some(utf8("/abs/x")), false),
        Err(DriverError::NotFound { path: "./x".to_string() })
    );
    assert_eq!(
        resolve_root("./x", None, false),
        Err(DriverError::NotFound { path: "./x".to_string() })
    );
    assert_eq!(
        resolve_root("./x", Some(EntryPath::NotUtf8("/abs/\u{fffd}".to_string())), true),
        Err(DriverError::InvalidEncoding { path: "/abs/\u{fffd}".to_string() })
    );
}

#[test]
fn walk_keeps_what_is_not_ignored() {
    let set = ignore(&["node_modules", "a"]);
    assert!(keep_entry("/a", &utf8("/a/src/main.rs"), &set));
    assert!(!keep_entry("/a", &utf8("/a/node_modules"), &set));
    assert!(!keep_entry("/a", &utf8("/a/x/node_modules/y"), &set));
    assert!(!keep_entry("/a", &utf8("/a/a"), &set));
    assert!(keep_entry("/a", &utf8("/elsewhere/node_modules"), &set));
    assert!(keep_entry("/a", &EntryPath::NotUtf8("/a/node_modules".to_string()), &set));
}

#[test]
fn relative_path_of_an_entry() {
    assert_eq!(get_relative_utf8_path(&utf8("/r/x/y"), "/r"), Ok("x/y"));
    assert_eq!(
        get_relative_utf8_path(&utf8("/q/x/y"), "/r"),
        Err(DriverError::Io {
            path: "/q/x/y".to_string(),
            detail: "Internal error: failed to strip prefix".to_string(),
        })
    );
    assert_eq!(
        get_relative_utf8_path(&EntryPath::NotUtf8("/r/?".to_string()), "/r"),
        Err(DriverError::InvalidEncoding { path: "/r/?".to_string() })
    );
}

#[test]
fn walked_entries_become_items() {
    let stat = |kind| EntryStat { kind, modification_date: 77, size: 1234 };
    assert_eq!(
        fs_item("/r", &utf8("/r/d"), stat(ItemKind::Directory)),
        Ok(DriverItem { path: "d".to_string(), metadata: DriverItemMetadata::Directory })
    );
    assert_eq!(
        fs_item("/r", &utf8("/r/d/f.txt"), stat(ItemKind::File)),
        Ok(DriverItem { path: "d/f.txt".to_string(), metadata: file(1234, 77) })
    );
    assert_eq!(
        fs_item("/r", &utf8("/r/link"), stat(ItemKind::Symlink)),
        Err(DriverError::UnsupportedItemType { path: "/r/link".to_string() })
    );
    assert_eq!(
        fs_item("/r", &utf8("/r/pipe"), stat(ItemKind::Other)),
        Err(DriverError::UnsupportedItemType { path: "/r/pipe".to_string() })
    );
    assert_eq!(
        fs_item("/r", &EntryPath::NotUtf8("/r/?".to_string()), stat(ItemKind::File)),
        Err(DriverError::InvalidEncoding { path: "/r/?".to_string() })
    );
    assert_eq!(
        fs_item("/r", &utf8("/other/link"), stat(ItemKind::Symlink)),
        Err(DriverError::Io {
            path: "/other/link".to_string(),
            detail: "Internal error: failed to strip prefix".to_string(),
        })
    );
}

#[test]
fn stop_request_cancels() {
    assert_eq!(ensure_running(&AtomicBool::new(false)), Ok(()));
    assert_eq!(ensure_running(&AtomicBool::new(true)), Err(DriverError::Cancelled));
}

fn remote(path: &str, perm: Option<u32>, size: Option<u64>, mtime: Option<u64>) -> RemoteEntry {
    RemoteEntry { path: utf8(path), stat: RemoteStat { size, perm, mtime } }
}

const DIR: Option<u32> = Some(0o040755);
const REG: Option<u32> = Some(0o100644);
const LNK: Option<u32> = Some(0o120777);

#[test]
fn remote_name_is_the_last_segment() {
    assert_eq!(get_filename(&utf8("/r/a/b.txt")), Ok("b.txt"));
    assert_eq!(
        get_filename(&utf8("/r/a/")),
        Err(DriverError::Protocol {
            path: "/r/a/".to_string(),
            detail: "Filename is missing on path".to_string(),
        })
    );
    assert_eq!(
        get_filename(&EntryPath::NotUtf8("/r/?".to_string())),
        Err(DriverError::InvalidEncoding { path: "/r/?".to_string() })
    );
}

#[test]
fn remote_entries_become_items() {
    let none = IgnoreSet::new();
    assert_eq!(
        remote_item(false, "/r", &none, &remote("/r/d", DIR, None, None)),
        Ok(Some(DriverItem { path: "d".to_string(), metadata: DriverItemMetadata::Directory }))
    );
    assert_eq!(
        remote_item(false, "/r", &none, &remote("/r/d/f", REG, Some(10), Some(100))),
        Ok(Some(DriverItem { path: "d/f".to_string(), metadata: file(10, 100) }))
    );
    assert_eq!(
        remote_item(false, "/r", &none, &remote("/r/l", LNK, Some(10), Some(100))),
        Err(DriverError::UnsupportedItemType { path: "/r/l".to_string() })
    );
    assert_eq!(
        remote_item(false, "/r", &none, &remote("/r/u", None, Some(10), Some(100))),
        Err(DriverError::UnsupportedItemType { path: "/r/u".to_string() })
    );
    assert_eq!(
        remote_item(false, "/r", &none, &remote("/r/f", REG, Some(10), None)),
        Err(DriverError::MissingMetadataField {
            path: "/r/f".to_string(),
            field: MetadataField::ModificationTime,
        })
    );
    assert_eq!(
        remote_item(false, "/r", &none, &remote("/r/f", REG, None, Some(5))),
        Err(DriverError::MissingMetadataField {
            path: "/r/f".to_string(),
            field: MetadataField::Size,
        })
    );
    assert_eq!(
        remote_item(false, "/r", &none, &remote("/r/f", REG, None, None)),
        Err(DriverError::MissingMetadataField {
            path: "/r/f".to_string(),
            field: MetadataField::ModificationTime,
        })
    );
    assert_eq!(
        remote_item(false, "/r", &none, &remote("/r/f", REG, Some(1), Some(u64::MAX))),
        Err(DriverError::Protocol {
            path: "/r/f".to_string(),
            detail: "Invalid modification time found for item".to_string(),
        })
    );
    assert_eq!(
        remote_item(false, "/r", &none, &remote("/r/f", REG, Some(1), Some(i64::MAX as u64))),
        Ok(Some(DriverItem { path: "f".to_string(), metadata: file(1, i64::MAX) }))
    );
    assert_eq!(
        remote_item(false, "/r", &none, &remote("/q/f", REG, Some(1), Some(1))),
        Err(DriverError::Protocol {
            path: "/q/f".to_string(),
            detail: "Internal error: failed to strip prefix".to_string(),
        })
    );
}

#[test]
fn remote_entries_can_be_ignored_or_cancelled() {
    let set = ignore(&["skip"]);
    assert_eq!(remote_item(false, "/r", &set, &remote("/r/skip", DIR, None, None)), Ok(None));
    assert_eq!(remote_item(false, "/r", &set, &remote("/r/skip", LNK, None, None)), Ok(None));
    assert_eq!(
        remote_item(true, "/r", &set, &remote("/r/skip", DIR, None, None)),
        Err(DriverError::Cancelled)
    );
    assert_eq!(
        remote_item(true, "/r", &set, &remote("/r/f", REG, Some(1), Some(1))),
        Err(DriverError::Cancelled)
    );
}

fn listing() -> Vec<RemoteEntry> {
    vec![
        remote("/r/a", DIR, None, None),
        remote("/r/skip", DIR, None, None),
        remote("/r/f.txt", REG, Some(3), Some(4)),
        remote("/r/b", DIR, Some(4096), Some(9)),
    ]
}

#[test]
fn a_listing_gives_items_and_directories_to_visit() {
    let out = stateful_read_dir(&AtomicBool::new(false), "/r", &ignore(&["skip"]), &listing()).unwrap();
    assert_eq!(
        out.items,
        vec![
            DriverItem { path: "a".to_string(), metadata: DriverItemMetadata::Directory },
            DriverItem { path: "f.txt".to_string(), metadata: file(3, 4) },
            DriverItem { path: "b".to_string(), metadata: DriverItemMetadata::Directory },
        ]
    );
    assert_eq!(out.subdirs, vec!["/r/a".to_string(), "/r/b".to_string()]);
}

#[test]
fn a_listing_fails_with_its_first_failure() {
    let mut entries = listing();
    entries.insert(1, remote("/r/l", LNK, None, None));
    entries.push(remote("/r/g", REG, None, None));
    let r = stateful_read_dir(&AtomicBool::new(false), "/r", &IgnoreSet::new(), &entries);
    assert_eq!(r.unwrap_err(), DriverError::UnsupportedItemType { path: "/r/l".to_string() });
}

#[test]
fn a_listing_is_cancelled_by_the_stop_request() {
    let r = stateful_read_dir(&AtomicBool::new(true), "/r", &IgnoreSet::new(), &listing());
    assert_eq!(r.unwrap_err(), DriverError::Cancelled);
    let r = stateful_read_dir(&AtomicBool::new(true), "/r", &IgnoreSet::new(), &vec![]).unwrap();
    assert!(r.items.is_empty() && r.subdirs.is_empty());
}

fn dir_item(path: &str) -> DriverItem {
    DriverItem { path: path.to_string(), metadata: DriverItemMetadata::Directory }
}

#[test]
fn crawl_lists_every_directory_found() {
    let mut crawl = RemoteCrawl::new("/r".to_string());
    assert!(!crawl.is_done());
    assert_eq!(crawl.next_dir(), Some("/r".to_string()));
    assert_eq!(crawl.outstanding(), 1);
    assert_eq!(crawl.next_dir(), None);
    assert!(!crawl.is_done());
    crawl.complete(Ok(DirListing {
        items: vec![dir_item("a"), dir_item("b")],
        subdirs: vec!["/r/a".to_string(), "/r/b".to_string()],
    }));
    assert_eq!(crawl.outstanding(), 0);
    assert!(!crawl.is_done());
    let first = crawl.next_dir().unwrap();
    let second = crawl.next_dir().unwrap();
    assert_eq!(crawl.next_dir(), None);
    assert_eq!(crawl.outstanding(), 2);
    let mut handed = vec![first, second];
    handed.sort();
    assert_eq!(handed, vec!["/r/a".to_string(), "/r/b".to_string()]);
    crawl.complete(Ok(DirListing {
        items: vec![DriverItem { path: "a/f".to_string(), metadata: file(1, 1) }],
        subdirs: vec![],
    }));
    assert!(!crawl.is_done());
    crawl.complete(Ok(DirListing { items: vec![], subdirs: vec![] }));
    assert!(crawl.is_done());
    assert_eq!(
        crawl.into_outcome(),
        Some(Ok(vec![
            dir_item("a"),
            dir_item("b"),
            DriverItem { path: "a/f".to_string(), metadata: file(1, 1) },
        ]))
    );
}

#[test]
fn crawl_ends_with_its_first_failure_once_nothing_is_under_way() {
    let mut crawl = RemoteCrawl::new("/r".to_string());
    crawl.next_dir().unwrap();
    crawl.complete(Ok(DirListing {
        items: vec![dir_item("a"), dir_item("b")],
        subdirs: vec!["/r/a".to_string(), "/r/b".to_string(), "/r/c".to_string()],
    }));
    crawl.next_dir().unwrap();
    crawl.next_dir().unwrap();
    crawl.complete(Err(DriverError::Cancelled));
    assert!(!crawl.is_done());
    assert_eq!(crawl.next_dir(), None);
    crawl.complete(Err(DriverError::NotFound { path: "/r/b".to_string() }));
    assert!(crawl.is_done());
    assert_eq!(crawl.into_outcome(), Some(Err(DriverError::Cancelled)));
}

#[test]
fn crawl_has_no_outcome_before_it_is_over() {
    let crawl = RemoteCrawl::new("/r".to_string());
    assert_eq!(crawl.into_outcome(), None);
    let mut crawl = RemoteCrawl::new("/r".to_string());
    crawl.next_dir().unwrap();
    assert_eq!(crawl.into_outcome(), None);
    let mut crawl = RemoteCrawl::new("/r".to_string());
    crawl.complete(Ok(DirListing { items: vec![], subdirs: vec![] }));
    assert_eq!(crawl.outstanding(), 0);
    assert!(!crawl.is_done());
}

#[test]
fn a_root_that_cannot_be_listed_is_not_found() {
    assert_eq!(
        listing_failure("/r", "/r", "no such file".to_string()),
        DriverError::NotFound { path: "/r".to_string() }
    );
    assert_eq!(
        listing_failure("/r", "/r/a", "permission denied".to_string()),
        DriverError::Protocol { path: "/r/a".to_string(), detail: "permission denied".to_string() }
    );
}

#[test]
fn a_crawl_goes_on_until_a_stop_is_requested() {
    assert_eq!(go_on_unless(false), Ok(()));
    assert_eq!(go_on_unless(true), Err(DriverError::Cancelled));
}
