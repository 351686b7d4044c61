use snapsync::catalog::{SnapshotCatalog, Strategy};
use snapsync::entry::Entry;
use snapsync::key::{FileKey, Timestamp};
use snapsync::path::RelativePath;

fn cat_path(text: &str) -> RelativePath {
    RelativePath::from_bytes(text.as_bytes().to_vec())
}

fn cat_key(size: u64, secs: i64) -> FileKey {
    FileKey::new(size, Timestamp::new(secs, 0))
}

fn cat_entry(size: u64, secs: i64, text: &str) -> Entry {
    Entry::new(cat_key(size, secs), cat_path(text))
}

fn cat_text(path: &RelativePath) -> String {
    String::from_utf8(path.as_bytes().to_vec()).unwrap()
}

fn cat_listed(catalog: &SnapshotCatalog) -> Vec<String> {
    (0..catalog.len()).map(|i| cat_text(&catalog.entry(i).path)).collect()
}

fn cat_bucket(bucket: Option<snapsync::catalog::Bucket>) -> Vec<String> {
    match bucket {
        Some(b) => (0..b.len()).map(|i| cat_text(b.path(i))).collect(),
        None => Vec::new(),
    }
}

fn cat_sample() -> SnapshotCatalog {
    SnapshotCatalog::from_entries(vec![
        cat_entry(10, 5, "x/one"),
        cat_entry(10, 5, "a/two"),
        cat_entry(10, 6, "m/three"),
        cat_entry(11, 5, "q/one"),
    ])
    .unwrap()
}

#[test]
fn catalog_lists_entries_in_path_order() {
    let catalog = SnapshotCatalog::from_entries(vec![
        cat_entry(3, 1, "b/z.txt"),
        cat_entry(1, 1, "a.txt"),
        cat_entry(2, 1, "b/a.txt"),
        cat_entry(2, 1, "b"),
    ])
    .unwrap();
    assert_eq!(catalog.len(), 4);
    assert_eq!(cat_listed(&catalog), vec!["a.txt", "b", "b/a.txt", "b/z.txt"]);
}

#[test]
fn catalog_of_nothing_is_empty() {
    let catalog = SnapshotCatalog::from_entries(Vec::new()).unwrap();
    assert_eq!(catalog.len(), 0);
    assert!(catalog.find(&cat_path("a"), &cat_key(1, 1)).is_none());
    assert_eq!(catalog.key_of(&cat_path("a")), None);
}

#[test]
fn catalog_refuses_a_repeated_path() {
    let r = SnapshotCatalog::from_entries(vec![
        cat_entry(1, 1, "a"),
        cat_entry(2, 2, "dup"),
        cat_entry(3, 3, "b"),
        cat_entry(4, 4, "dup"),
    ]);
    match r {
        Ok(_) => panic!("a repeated path went through"),
        Err(dup) => assert_eq!(dup.path.as_bytes(), b"dup"),
    }
}

#[test]
fn catalog_refuses_the_same_entry_twice() {
    let r = SnapshotCatalog::from_entries(vec![cat_entry(1, 1, "a"), cat_entry(1, 1, "a")]);
    assert!(r.is_err());
}

#[test]
fn lookup_exact_gives_bucket_in_path_order() {
    let catalog = cat_sample();
    let probe = cat_path("elsewhere/one");
    let exact = catalog.lookup(Strategy::Exact, &probe, &cat_key(10, 5));
    assert_eq!(exact.as_ref().map(|b| b.found_by()), Some(Strategy::Exact));
    assert_eq!(cat_bucket(exact), vec!["a/two", "x/one"]);
    assert!(catalog.lookup(Strategy::Exact, &probe, &cat_key(10, 7)).is_none());
}

#[test]
fn lookup_exact_tells_nanoseconds_apart() {
    let catalog = SnapshotCatalog::from_entries(vec![
        Entry::new(FileKey::new(7, Timestamp::new(100, 1)), cat_path("early")),
        Entry::new(FileKey::new(7, Timestamp::new(100, 2)), cat_path("late")),
    ])
    .unwrap();
    let probe = cat_path("p");
    let found = catalog.lookup(Strategy::Exact, &probe, &FileKey::new(7, Timestamp::new(100, 2)));
    assert_eq!(cat_bucket(found), vec!["late"]);
}

#[test]
fn lookup_by_size_ignores_time() {
    let catalog = cat_sample();
    let sized = catalog.lookup(Strategy::Size, &cat_path("p"), &cat_key(10, 99));
    assert_eq!(cat_bucket(sized), vec!["a/two", "m/three", "x/one"]);
    assert!(catalog.lookup(Strategy::Size, &cat_path("p"), &cat_key(12, 5)).is_none());
}

#[test]
fn lookup_by_name_uses_last_component() {
    let catalog = cat_sample();
    let named = catalog.lookup(Strategy::Name, &cat_path("deep/er/one"), &cat_key(0, 0));
    assert_eq!(cat_bucket(named), vec!["q/one", "x/one"]);
    let bare = catalog.lookup(Strategy::Name, &cat_path("three"), &cat_key(0, 0));
    assert_eq!(cat_bucket(bare), vec!["m/three"]);
    assert!(catalog.lookup(Strategy::Name, &cat_path("x"), &cat_key(0, 0)).is_none());
}

#[test]
fn find_prefers_exact_over_size_over_name() {
    let catalog = cat_sample();
    let exact = catalog.find(&cat_path("n/one"), &cat_key(10, 6)).unwrap();
    assert_eq!(exact.found_by(), Strategy::Exact);
    assert_eq!(cat_bucket(Some(exact)), vec!["m/three"]);
    let sized = catalog.find(&cat_path("n/one"), &cat_key(11, 9)).unwrap();
    assert_eq!(sized.found_by(), Strategy::Size);
    assert_eq!(cat_bucket(Some(sized)), vec!["q/one"]);
    let named = catalog.find(&cat_path("n/one"), &cat_key(99, 9)).unwrap();
    assert_eq!(named.found_by(), Strategy::Name);
    assert_eq!(cat_bucket(Some(named)), vec!["q/one", "x/one"]);
    assert!(catalog.find(&cat_path("n/none"), &cat_key(99, 9)).is_none());
}

#[test]
fn candidates_without_names_stop_at_size() {
    let catalog = cat_sample();
    assert!(catalog.candidates(&cat_path("n/one"), &cat_key(99, 9), false).is_none());
    let sized = catalog.candidates(&cat_path("n/one"), &cat_key(11, 9), false).unwrap();
    assert_eq!(sized.found_by(), Strategy::Size);
}

#[test]
fn key_of_and_contains() {
    let catalog = cat_sample();
    assert_eq!(catalog.key_of(&cat_path("m/three")), Some(cat_key(10, 6)));
    assert_eq!(catalog.key_of(&cat_path("m/thre")), None);
    assert_eq!(catalog.key_of(&cat_path("m/three/")), None);
    assert!(catalog.contains(&cat_path("m/three"), &cat_key(10, 6)));
    assert!(!catalog.contains(&cat_path("m/three"), &cat_key(10, 5)));
    assert!(!catalog.contains(&cat_path("a/three"), &cat_key(10, 6)));
}

#[test]
fn bucket_entry_carries_the_key() {
    let catalog = cat_sample();
    let sized = catalog.lookup(Strategy::Size, &cat_path("p"), &cat_key(10, 0)).unwrap();
    assert_eq!(sized.entry(1).key, cat_key(10, 6));
    assert_eq!(sized.entry(1).path.as_bytes(), b"m/three");
}

#[test]
fn catalog_order_does_not_depend_on_input_order() {
    let forward = SnapshotCatalog::from_entries(vec![
        cat_entry(1, 1, "a"),
        cat_entry(1, 1, "b"),
        cat_entry(1, 1, "c"),
    ])
    .unwrap();
    let backward = SnapshotCatalog::from_entries(vec![
        cat_entry(1, 1, "c"),
        cat_entry(1, 1, "b"),
        cat_entry(1, 1, "a"),
    ])
    .unwrap();
    assert_eq!(cat_listed(&forward), cat_listed(&backward));
    let probe = cat_path("z");
    assert_eq!(
        cat_bucket(forward.find(&probe, &cat_key(1, 1))),
        cat_bucket(backward.find(&probe, &cat_key(1, 1)))
    );
}

#[test]
fn large_catalog_is_sorted_and_searchable() {
    let mut entries = Vec::new();
    let mut seed: u64 = 12345;
    for i in 0..500u64 {
        seed = seed.wrapping_mul(6364136223846793005).wrapping_add(1442695040888963407);
        let name = format!("dir{}/file{:03}", seed % 7, i);
        entries.push(cat_entry(seed % 13, (seed % 5) as i64, &name));
    }
    let catalog = SnapshotCatalog::from_entries(entries).unwrap();
    let listed = cat_listed(&catalog);
    assert_eq!(listed.len(), 500);
    for pair in listed.windows(2) {
        assert!(pair[0].as_bytes() < pair[1].as_bytes());
    }
    let mut total = 0;
    for size in 0..13u64 {
        let bucket = cat_bucket(catalog.lookup(Strategy::Size, &cat_path("p"), &cat_key(size, 0)));
        for pair in bucket.windows(2) {
            assert!(pair[0].as_bytes() < pair[1].as_bytes());
        }
        for name in &bucket {
            assert_eq!(catalog.key_of(&cat_path(name)).unwrap().size, size);
        }
        total += bucket.len();
    }
    assert_eq!(total, 500);
}
