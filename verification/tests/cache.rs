use bevy_discovery::cache::{CacheEntry, CacheStore, Timestamp};
use bevy_discovery::declaration::DiscoveredDeclaration;
use bevy_discovery::path::FilePath;
use bevy_discovery::symbol::SymbolPath;

fn text(value: &str) -> String {
    value.to_string()
}

fn entry(seconds: u64, module: &[&str]) -> CacheEntry {
    CacheEntry {
        last_modified: Timestamp { seconds, nanos: 0 },
        module: SymbolPath::new(module.iter().map(|part| text(part)).collect()),
        search_directory: FilePath::new(vec![text("src")]),
        fn_paths: Vec::new(),
        referenced_files: Vec::new(),
    }
}

#[test]
fn new_store_is_empty() {
    let store = CacheStore::new();
    assert!(store.get("src/main.rs").is_none());
    assert!(store.into_pairs().is_empty());
}

#[test]
fn insert_then_get() {
    let mut store = CacheStore::new();
    store.insert(text("a"), entry(1, &["root"]));
    store.insert(text("b"), entry(2, &["root", "b"]));
    assert_eq!(store.get("a").unwrap().last_modified.seconds, 1);
    assert_eq!(store.get("b").unwrap().last_modified.seconds, 2);
    assert!(store.get("c").is_none());
}

#[test]
fn insert_replaces_what_the_key_held() {
    let mut store = CacheStore::new();
    store.insert(text("a"), entry(1, &["root"]));
    store.insert(text("a"), entry(5, &["root"]));
    assert_eq!(store.get("a").unwrap().last_modified.seconds, 5);
    assert_eq!(store.into_pairs().len(), 1);
}

#[test]
fn remove_takes_the_entry_out() {
    let mut store = CacheStore::new();
    store.insert(text("a"), entry(1, &["root"]));
    store.insert(text("b"), entry(2, &["root"]));
    let taken = store.remove("a");
    assert_eq!(taken.unwrap().last_modified.seconds, 1);
    assert!(store.get("a").is_none());
    assert!(store.remove("a").is_none());
    assert_eq!(store.get("b").unwrap().last_modified.seconds, 2);
}

#[test]
fn pairs_hold_every_key_once() {
    let mut store = CacheStore::new();
    store.insert(text("a"), entry(1, &["root"]));
    store.insert(text("b"), entry(2, &["root"]));
    store.insert(text("c"), entry(3, &["root"]));
    let mut pairs: Vec<(String, u64)> = store
        .into_pairs()
        .into_iter()
        .map(|(key, entry)| (key, entry.last_modified.seconds))
        .collect();
    pairs.sort();
    assert_eq!(pairs, vec![(text("a"), 1), (text("b"), 2), (text("c"), 3)]);
}

#[test]
fn entry_needs_a_module_path() {
    assert!(entry(1, &["root"]).is_well_formed());
    assert!(!entry(1, &[]).is_well_formed());
}

#[test]
fn entry_needs_a_path_for_each_declaration() {
    let mut good = entry(1, &["root"]);
    good.fn_paths.push(DiscoveredDeclaration {
        path: SymbolPath::new(vec![text("root"), text("f")]),
        stage: None,
    });
    assert!(good.is_well_formed());
    good.fn_paths.push(DiscoveredDeclaration { path: SymbolPath::new(Vec::new()), stage: None });
    assert!(!good.is_well_formed());
}

#[test]
fn timestamps_compare_by_both_parts() {
    assert_eq!(Timestamp { seconds: 1, nanos: 2 }, Timestamp { seconds: 1, nanos: 2 });
    assert_ne!(Timestamp { seconds: 1, nanos: 2 }, Timestamp { seconds: 1, nanos: 3 });
    assert_ne!(Timestamp { seconds: 1, nanos: 2 }, Timestamp { seconds: 2, nanos: 2 });
}
