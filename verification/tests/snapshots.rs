use snapdiff::drivers::{
    conclude_snapshot, make_snapshot, Driver, DriverError, DriverFileMetadata, DriverItem,
    DriverItemMetadata, IgnoreSet, MetadataField, Snapshot,
};
use snapdiff::session::{join_snapshots, SessionError};
use std::sync::atomic::{AtomicBool, Ordering};
use std::sync::Arc;

fn file(size: u64, mtime: i64) -> DriverItemMetadata {
    DriverItemMetadata::File(DriverFileMetadata { modification_date: mtime, size })
}

fn item(path: &str, metadata: DriverItemMetadata) -> DriverItem {
    DriverItem { path: path.to_string(), metadata }
}

struct Fixed(Result<Vec<DriverItem>, DriverError>);

impl Driver for Fixed {
    fn find_all(
        &self,
        _dir: &str,
        _ignore: &IgnoreSet,
        _stop_request: Arc<AtomicBool>,
    ) -> Result<Vec<DriverItem>, DriverError> {
        self.0.clone()
    }
}

struct Obedient;

impl Driver for Obedient {
    fn find_all(
        &self,
        _dir: &str,
        _ignore: &IgnoreSet,
        stop_request: Arc<AtomicBool>,
    ) -> Result<Vec<DriverItem>, DriverError> {
        snapdiff::drivers::fs::ensure_running(&stop_request)?;
        Ok(vec![item("a", file(1, 1))])
    }
}

#[test]
fn metadata_accessors() {
    assert_eq!(file(12, 3).size(), Some(12));
    assert_eq!(DriverItemMetadata::Directory.size(), None);
    assert!(DriverItemMetadata::Directory.is_dir());
    assert!(!file(12, 3).is_dir());
    assert!(file(12, 3).is_file());
    assert!(!DriverItemMetadata::Directory.is_file());
}

#[test]
fn snapshot_keeps_root_and_items() {
    let items = vec![item("a", file(1, 2)), item("b", DriverItemMetadata::Directory)];
    let snapshot = Snapshot::new("/root".to_string(), items.clone()).unwrap();
    assert_eq!(snapshot.path(), "/root");
    assert_eq!(snapshot.items(), &items);
}

#[test]
fn duplicate_path_is_refused() {
    let items = vec![
        item("a", file(1, 2)),
        item("b", DriverItemMetadata::Directory),
        item("c", file(1, 2)),
        item("b", file(3, 4)),
        item("a", file(5, 6)),
    ];
    let r = Snapshot::new("/root".to_string(), items);
    assert_eq!(r.unwrap_err(), DriverError::DuplicateItem { path: "b".to_string() });
}

#[test]
fn build_over_duplicates_fails_and_requests_stop() {
    let driver = Fixed(Ok(vec![item("x", file(1, 1)), item("x", file(1, 1))]));
    let stop = Arc::new(AtomicBool::new(false));
    let r = make_snapshot(&driver, "/root".to_string(), &IgnoreSet::new(), Arc::clone(&stop));
    assert_eq!(r.unwrap_err(), DriverError::DuplicateItem { path: "x".to_string() });
    assert!(stop.load(Ordering::Relaxed));
}

#[test]
fn build_hands_on_the_failure_of_the_driver_and_requests_stop() {
    let failure = DriverError::MissingMetadataField {
        path: "/root/f".to_string(),
        field: MetadataField::Size,
    };
    let driver = Fixed(Err(failure.clone()));
    let stop = Arc::new(AtomicBool::new(false));
    let r = make_snapshot(&driver, "/root".to_string(), &IgnoreSet::new(), Arc::clone(&stop));
    assert_eq!(r.unwrap_err(), failure);
    assert!(stop.load(Ordering::Relaxed));
}

#[test]
fn successful_build_leaves_the_stop_request_alone() {
    let driver = Fixed(Ok(vec![item("x", file(1, 1)), item("y", file(1, 1))]));
    let stop = Arc::new(AtomicBool::new(false));
    let snapshot =
        make_snapshot(&driver, "/root".to_string(), &IgnoreSet::new(), Arc::clone(&stop)).unwrap();
    assert_eq!(snapshot.path(), "/root");
    assert_eq!(snapshot.items().len(), 2);
    assert!(!stop.load(Ordering::Relaxed));
}

#[test]
fn failed_source_build_cancels_the_destination_build() {
    let stop = Arc::new(AtomicBool::new(false));
    let source = make_snapshot(
        &Fixed(Err(DriverError::NotFound { path: "/nowhere".to_string() })),
        "/nowhere".to_string(),
        &IgnoreSet::new(),
        Arc::clone(&stop),
    );
    let dest = make_snapshot(&Obedient, "/dst".to_string(), &IgnoreSet::new(), Arc::clone(&stop));
    assert_eq!(source.unwrap_err(), DriverError::NotFound { path: "/nowhere".to_string() });
    assert_eq!(dest.unwrap_err(), DriverError::Cancelled);
}

#[test]
fn conclude_without_duplicates() {
    let r = conclude_snapshot("/r".to_string(), Ok(vec![item("x", file(1, 1))]));
    assert_eq!(r.unwrap().items().len(), 1);
    let r = conclude_snapshot("/r".to_string(), Err(DriverError::Cancelled));
    assert_eq!(r.unwrap_err(), DriverError::Cancelled);
}

fn ok(root: &str) -> Result<Snapshot, DriverError> {
    Snapshot::new(root.to_string(), vec![])
}

#[test]
fn join_reports_every_side_that_failed() {
    let (s, d) = join_snapshots(ok("/s"), ok("/d")).unwrap();
    assert_eq!(s.path(), "/s");
    assert_eq!(d.path(), "/d");

    match join_snapshots(Err(DriverError::Cancelled), ok("/d")) {
        Err(SessionError::Source(DriverError::Cancelled)) => {}
        other => panic!("unexpected: {:?}", other),
    }
    match join_snapshots(ok("/s"), Err(DriverError::NotFound { path: "/d".to_string() })) {
        Err(SessionError::Destination(DriverError::NotFound { path })) => assert_eq!(path, "/d"),
        other => panic!("unexpected: {:?}", other),
    }
    match join_snapshots(
        Err(DriverError::NotFound { path: "/s".to_string() }),
        Err(DriverError::Cancelled),
    ) {
        Err(SessionError::Both {
            source: DriverError::NotFound { path },
            destination: DriverError::Cancelled,
        }) => assert_eq!(path, "/s"),
        other => panic!("unexpected: {:?}", other),
    }
}
