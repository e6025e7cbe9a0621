use snapdiff::diffing::{
    CategorizedDiff, Diff, DiffItem, DiffItemAdded, DiffItemDeleted, DiffItemModified,
    DiffItemTypeChanged, DiffType,
};
use snapdiff::drivers::{DriverFileMetadata, DriverItemMetadata};

fn meta(size: u64, mtime: i64) -> DriverFileMetadata {
    DriverFileMetadata { modification_date: mtime, size }
}

fn added(path: &str, size: u64) -> DiffItem {
    DiffItem {
        path: path.to_string(),
        status: DiffType::Added(DiffItemAdded { new: DriverItemMetadata::File(meta(size, 0)) }),
    }
}

fn added_dir(path: &str) -> DiffItem {
    DiffItem {
        path: path.to_string(),
        status: DiffType::Added(DiffItemAdded { new: DriverItemMetadata::Directory }),
    }
}

fn modified(path: &str, prev: u64, new: u64) -> DiffItem {
    DiffItem {
        path: path.to_string(),
        status: DiffType::Modified(DiffItemModified { prev: meta(prev, 0), new: meta(new, 1) }),
    }
}

fn type_changed(path: &str, new: DriverItemMetadata, prev: DriverItemMetadata) -> DiffItem {
    DiffItem { path: path.to_string(), status: DiffType::TypeChanged(DiffItemTypeChanged { prev, new }) }
}

fn deleted(path: &str, size: u64) -> DiffItem {
    DiffItem {
        path: path.to_string(),
        status: DiffType::Deleted(DiffItemDeleted { prev: DriverItemMetadata::File(meta(size, 0)) }),
    }
}

fn sorted(items: Vec<DiffItem>) -> Vec<DiffItem> {
    let mut diff = Diff::new(items);
    diff.sort();
    diff.into_items()
}

#[test]
fn kinds_come_in_their_fixed_order() {
    let items = vec![
        deleted("a", 1),
        type_changed("a", DriverItemMetadata::Directory, DriverItemMetadata::File(meta(1, 1))),
        modified("a", 1, 2),
        added("a", 1),
    ];
    let out = sorted(items);
    assert!(matches!(out[0].status, DiffType::Added(_)));
    assert!(matches!(out[1].status, DiffType::Modified(_)));
    assert!(matches!(out[2].status, DiffType::TypeChanged(_)));
    assert!(matches!(out[3].status, DiffType::Deleted(_)));
}

#[test]
fn paths_ascend_within_one_kind() {
    let out = sorted(vec![
        added("b", 1),
        added("a/z", 1),
        added("a", 1),
        added("B", 1),
        added("", 1),
        added("é", 1),
        added("a/b", 1),
        added("zz", 1),
        added("z", 1),
    ]);
    let paths: Vec<&str> = out.iter().map(|i| i.path.as_str()).collect();
    assert_eq!(paths, vec!["", "B", "a", "a/b", "a/z", "b", "z", "zz", "é"]);
}

#[test]
fn the_kind_outranks_the_path() {
    let out = sorted(vec![deleted("a", 1), added("z", 1), modified("m", 1, 2), added("b", 1)]);
    let paths: Vec<&str> = out.iter().map(|i| i.path.as_str()).collect();
    assert_eq!(paths, vec!["b", "z", "m", "a"]);
}

#[test]
fn records_of_one_kind_and_path_keep_their_order() {
    let out = sorted(vec![
        added("p", 3),
        deleted("p", 9),
        added("p", 1),
        added("a", 7),
        added("p", 2),
    ]);
    assert_eq!(out, vec![added("a", 7), added("p", 3), added("p", 1), added("p", 2), deleted("p", 9)]);
}

#[test]
fn sorting_agrees_with_the_order_of_strings() {
    let mut paths: Vec<String> = Vec::new();
    let mut seed: u32 = 12345;
    for _ in 0..200 {
        let mut p = String::new();
        let len = (seed >> 3) % 5;
        for _ in 0..len {
            seed = seed.wrapping_mul(1103515245).wrapping_add(12345);
            let c = ['a', 'b', '/', 'é', 'Z', '\u{10348}', '0'][(seed >> 16) as usize % 7];
            p.push(c);
        }
        seed = seed.wrapping_mul(1103515245).wrapping_add(12345);
        paths.push(p);
    }
    let out = sorted(paths.iter().map(|p| added(p, 1)).collect());
    let got: Vec<String> = out.into_iter().map(|i| i.path).collect();
    let mut expected = paths.clone();
    expected.sort();
    assert_eq!(got, expected);
}

#[test]
fn sorting_nothing_and_one() {
    assert_eq!(sorted(vec![]), vec![]);
    assert_eq!(sorted(vec![added("x", 1)]), vec![added("x", 1)]);
}

#[test]
fn in_order_compares_kind_then_path() {
    assert!(added("z", 1).in_order(&modified("a", 1, 2)));
    assert!(!modified("a", 1, 2).in_order(&added("z", 1)));
    assert!(added("a", 1).in_order(&added("ab", 1)));
    assert!(!added("ab", 1).in_order(&added("a", 1)));
    assert!(added("a", 1).in_order(&added("a", 2)));
    assert!(added("a", 2).in_order(&added("a", 1)));
}

#[test]
fn diff_keeps_the_items_it_was_made_of() {
    let diff = Diff::new(vec![deleted("b", 1), added("a", 1)]);
    assert_eq!(diff.items(), vec![deleted("b", 1), added("a", 1)].as_slice());
    assert_eq!(diff.into_items(), vec![deleted("b", 1), added("a", 1)]);
}

#[test]
fn categorize_routes_each_record_and_keeps_order() {
    let diff = Diff::new(vec![
        deleted("d2", 5),
        added("a2", 10),
        modified("m1", 1, 20),
        type_changed("t1", DriverItemMetadata::File(meta(300, 0)), DriverItemMetadata::Directory),
        added_dir("a1"),
        deleted("d1", 6),
        type_changed("t2", DriverItemMetadata::Directory, DriverItemMetadata::File(meta(4000, 0))),
        added("a3", 50000),
    ]);
    let cat = CategorizedDiff::new(diff);
    assert_eq!(
        cat.added(),
        &vec![
            ("a2".to_string(), DiffItemAdded { new: DriverItemMetadata::File(meta(10, 0)) }),
            ("a1".to_string(), DiffItemAdded { new: DriverItemMetadata::Directory }),
            ("a3".to_string(), DiffItemAdded { new: DriverItemMetadata::File(meta(50000, 0)) }),
        ]
    );
    assert_eq!(
        cat.modified(),
        &vec![("m1".to_string(), DiffItemModified { prev: meta(1, 0), new: meta(20, 1) })]
    );
    assert_eq!(cat.type_changed().len(), 2);
    assert_eq!(cat.type_changed()[0].0, "t1");
    assert_eq!(cat.type_changed()[1].0, "t2");
    assert_eq!(
        cat.deleted(),
        &vec![
            ("d2".to_string(), DiffItemDeleted { prev: DriverItemMetadata::File(meta(5, 0)) }),
            ("d1".to_string(), DiffItemDeleted { prev: DriverItemMetadata::File(meta(6, 0)) }),
        ]
    );
    assert_eq!(cat.transfer_count(), 6);
    assert_eq!(cat.delete_count(), 4);
    assert_eq!(cat.transfer_size(), 10 + 50000 + 20 + 300);
}

#[test]
fn categorize_an_empty_diff() {
    let cat = CategorizedDiff::new(Diff::new(vec![]));
    assert!(cat.added().is_empty());
    assert!(cat.modified().is_empty());
    assert!(cat.type_changed().is_empty());
    assert!(cat.deleted().is_empty());
    assert_eq!(cat.transfer_count(), 0);
    assert_eq!(cat.delete_count(), 0);
    assert_eq!(cat.transfer_size(), 0);
}

#[test]
fn transfer_size_does_not_wrap() {
    let cat = CategorizedDiff::new(Diff::new(vec![
        added("a", u64::MAX),
        modified("m", 0, u64::MAX),
        added("b", 2),
    ]));
    assert_eq!(cat.transfer_size(), 2 * (u64::MAX as u128) + 2);
}

#[test]
fn sorted_diff_gives_sorted_buckets() {
    let mut diff = Diff::new(vec![
        deleted("y", 1),
        added("c", 1),
        deleted("x", 1),
        added("a", 1),
        added("b", 1),
    ]);
    diff.sort();
    let cat = CategorizedDiff::new(diff);
    let names: Vec<&str> = cat.added().iter().map(|e| e.0.as_str()).collect();
    assert_eq!(names, vec!["a", "b", "c"]);
    let names: Vec<&str> = cat.deleted().iter().map(|e| e.0.as_str()).collect();
    assert_eq!(names, vec!["x", "y"]);
}
