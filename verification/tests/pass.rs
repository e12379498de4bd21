use std::collections::BTreeMap;

use bevy_discovery::cache::{CacheEntry, CacheStore, Timestamp};
use bevy_discovery::declaration::DiscoveredDeclaration;
use bevy_discovery::pass::{content_reply, Pass, PassError, Reply, Request, Status};
use bevy_discovery::path::FilePath;
use bevy_discovery::source::SourceItem;
use bevy_discovery::symbol::SymbolPath;
use bevy_discovery::syntax::{source_from, SyntaxError};

struct Tree {
    files: BTreeMap<String, (u64, String)>,
}

struct Run {
    visited: Vec<String>,
    status: Status,
    emitted: Vec<(String, Option<String>)>,
    store: CacheStore,
    scanned: Vec<String>,
    asked: Vec<String>,
}

fn text(value: &str) -> String {
    value.to_string()
}

fn read(source: &str) -> Reply {
    content_reply(source_from(syn::parse_file(source), source.len()))
}

fn path(value: &str) -> FilePath {
    FilePath::new(value.split('/').map(text).collect())
}

fn symbol(value: &str) -> SymbolPath {
    SymbolPath::new(value.split("::").map(text).collect())
}

fn time(seconds: u64) -> Timestamp {
    Timestamp { seconds, nanos: 0 }
}

fn tree(files: &[(&str, u64, &str)]) -> Tree {
    Tree {
        files: files
            .iter()
            .map(|(name, modified, source)| (text(name), (*modified, text(source))))
            .collect(),
    }
}

fn run_from(tree: &Tree, store: CacheStore, root: &str, module: &str) -> Run {
    let (mut pass, mut request) = Pass::begin(store, &path(root), symbol(module));
    let mut scanned = Vec::new();
    let mut asked = Vec::new();
    let mut steps = 0;
    loop {
        let reply = match &request {
            Request::Modified(file) => {
                asked.push(format!("modified {}", file.to_text()));
                match tree.files.get(&file.to_text()) {
                    Some((seconds, _)) => Reply::Modified(time(*seconds)),
                    None => Reply::Unreadable,
                }
            }
            Request::Content(file) => {
                asked.push(format!("content {}", file.to_text()));
                scanned.push(file.to_text());
                match tree.files.get(&file.to_text()) {
                    Some((_, source)) => read(source),
                    None => Reply::Unreadable,
                }
            }
            Request::Exists(file) => {
                asked.push(format!("exists {}", file.to_text()));
                Reply::Exists(tree.files.contains_key(&file.to_text()))
            }
            Request::Finished => break,
        };
        let next = pass.step(reply);
        pass = next.0;
        request = next.1;
        steps += 1;
        assert!(steps < 1000);
    }
    let status = pass.status();
    let (emitted, store, visits) = pass.into_parts();
    let recorded: Vec<String> =
        visits.iter().filter(|visit| visit.scanned).map(|visit| visit.key.clone()).collect();
    if status == Status::Finished {
        assert_eq!(recorded, scanned);
    }
    let visited: Vec<String> = visits.into_iter().map(|visit| visit.key).collect();
    Run {
        visited,
        status,
        emitted: emitted.into_iter().map(|one| (one.path, one.stage)).collect(),
        store,
        scanned,
        asked,
    }
}

fn run(tree: &Tree, store: CacheStore) -> Run {
    run_from(tree, store, "src/main.rs", "root")
}

fn summary(entry: &CacheEntry) -> (u64, String, String, Vec<(String, Option<String>)>, Vec<String>) {
    (
        entry.last_modified.seconds,
        entry.module.to_text(),
        entry.search_directory.to_text(),
        entry.fn_paths.iter().map(|one| (one.path.to_text(), one.stage.clone())).collect(),
        entry.referenced_files.iter().map(|file| file.to_text()).collect(),
    )
}

fn contents(store: CacheStore) -> BTreeMap<String, (u64, String, String, Vec<(String, Option<String>)>, Vec<String>)> {
    store.into_pairs().into_iter().map(|(key, entry)| (key, summary(&entry))).collect()
}

fn copy_store(store: &CacheStore, keys: &[&str]) -> CacheStore {
    let mut copy = CacheStore::new();
    for key in keys {
        if let Some(entry) = store.get(key) {
            copy.insert(
                text(key),
                CacheEntry {
                    last_modified: entry.last_modified,
                    module: entry.module.copy(),
                    search_directory: entry.search_directory.copy(),
                    fn_paths: entry.fn_paths.iter().map(|one| one.copy()).collect(),
                    referenced_files: entry.referenced_files.iter().map(|one| one.copy()).collect(),
                },
            );
        }
    }
    copy
}

fn project() -> Tree {
    tree(&[
        ("src/main.rs", 10, "#[system] fn start() {}\nmod game;\nmod ui;\n#[system(Late)] fn end() {}"),
        ("src/game.rs", 20, "mod enemy;\n#[system] fn tick() {}\nmod world { #[system] fn grow() {} mod sea; }"),
        ("src/game/enemy.rs", 30, "#[system(Early)] fn spawn() {}"),
        ("src/game/world/sea/mod.rs", 40, "#[system] fn wave() {}"),
        ("src/ui/mod.rs", 50, "#[system] fn draw() {}"),
    ])
}

const PROJECT_KEYS: [&str; 5] = [
    "src/main.rs",
    "src/game.rs",
    "src/game/enemy.rs",
    "src/game/world/sea/mod.rs",
    "src/ui/mod.rs",
];

fn project_output() -> Vec<(String, Option<String>)> {
    vec![
        (text("root::start"), None),
        (text("root::end"), Some(text("Late"))),
        (text("root::game::tick"), None),
        (text("root::game::world::grow"), None),
        (text("root::game::enemy::spawn"), Some(text("Early"))),
        (text("root::game::world::sea::wave"), None),
        (text("root::ui::draw"), None),
    ]
}

#[test]
fn inline_module_is_scanned_in_place() {
    let files = tree(&[(
        "src/main.rs",
        1,
        "#[system] fn f() {}\nmod m { #[system(Late)] fn g() {} }",
    )]);
    let done = run(&files, CacheStore::new());
    assert_eq!(done.status, Status::Finished);
    assert_eq!(
        done.emitted,
        vec![(text("root::f"), None), (text("root::m::g"), Some(text("Late")))]
    );
    assert_eq!(done.scanned, vec!["src/main.rs"]);
    let entry = done.store.get("src/main.rs").unwrap();
    assert_eq!(
        summary(entry),
        (
            1,
            text("root"),
            text("src"),
            vec![(text("root::f"), None), (text("root::m::g"), Some(text("Late")))],
            Vec::new()
        )
    );
}

#[test]
fn external_module_is_resolved_to_its_file() {
    let files = tree(&[("src/main.rs", 1, "mod sub;"), ("src/sub.rs", 2, "#[system] fn h() {}")]);
    let done = run(&files, CacheStore::new());
    assert_eq!(done.status, Status::Finished);
    assert_eq!(done.emitted, vec![(text("root::sub::h"), None)]);
    assert_eq!(
        summary(done.store.get("src/main.rs").unwrap()),
        (1, text("root"), text("src"), Vec::new(), vec![text("src/sub.rs")])
    );
    assert_eq!(
        summary(done.store.get("src/sub.rs").unwrap()),
        (2, text("root::sub"), text("src/sub"), vec![(text("root::sub::h"), None)], Vec::new())
    );
    assert_eq!(
        done.asked,
        vec![
            "modified src/main.rs",
            "content src/main.rs",
            "exists src/sub.rs",
            "modified src/sub.rs",
            "content src/sub.rs",
        ]
    );
}

#[test]
fn cold_pass_walks_the_whole_tree() {
    let done = run(&project(), CacheStore::new());
    assert_eq!(done.status, Status::Finished);
    assert_eq!(done.emitted, project_output());
    assert_eq!(done.scanned, PROJECT_KEYS.to_vec());
    let stored = contents(done.store);
    assert_eq!(stored.len(), 5);
    assert_eq!(
        stored["src/game.rs"],
        (
            20,
            text("root::game"),
            text("src/game"),
            vec![(text("root::game::tick"), None), (text("root::game::world::grow"), None)],
            vec![text("src/game/enemy.rs"), text("src/game/world/sea/mod.rs")]
        )
    );
    assert_eq!(
        stored["src/game/world/sea/mod.rs"],
        (
            40,
            text("root::game::world::sea"),
            text("src/game/world/sea"),
            vec![(text("root::game::world::sea::wave"), None)],
            Vec::new()
        )
    );
    assert_eq!(stored["src/ui/mod.rs"].2, "src/ui");
}

#[test]
fn second_pass_repeats_the_first() {
    let files = project();
    let cold = run(&files, CacheStore::new());
    let kept = copy_store(&cold.store, &PROJECT_KEYS);
    let warm = run(&files, cold.store);
    assert_eq!(warm.status, Status::Finished);
    assert_eq!(warm.emitted, cold.emitted);
    assert!(warm.scanned.is_empty());
    assert_eq!(warm.visited, cold.visited);
    assert_eq!(
        cold.visited,
        vec![
            "src/main.rs",
            "src/game.rs",
            "src/game/enemy.rs",
            "src/game/world/sea/mod.rs",
            "src/ui/mod.rs",
        ]
    );
    assert_eq!(contents(warm.store), contents(kept));
}

#[test]
fn warm_and_cold_emit_in_one_order() {
    let files = project();
    let cold = run(&files, CacheStore::new());
    let warm = run(&files, cold.store);
    let warmer = run(&files, warm.store);
    assert_eq!(warm.emitted, project_output());
    assert_eq!(warmer.emitted, project_output());
}

#[test]
fn fresh_entry_is_used_without_a_scan() {
    let files = tree(&[("src/main.rs", 7, "this is not source at all {")]);
    let mut store = CacheStore::new();
    store.insert(
        text("src/main.rs"),
        CacheEntry {
            last_modified: time(7),
            module: symbol("kept"),
            search_directory: path("src"),
            fn_paths: vec![
                DiscoveredDeclaration { path: symbol("kept::one"), stage: Some(text("S")) },
                DiscoveredDeclaration { path: symbol("kept::one"), stage: None },
            ],
            referenced_files: Vec::new(),
        },
    );
    let done = run(&files, store);
    assert_eq!(done.status, Status::Finished);
    assert_eq!(done.emitted, vec![(text("kept::one"), Some(text("S"))), (text("kept::one"), None)]);
    assert!(done.scanned.is_empty());
    assert_eq!(summary(done.store.get("src/main.rs").unwrap()).1, "kept");
}

#[test]
fn touched_leaf_is_scanned_alone() {
    let mut files = project();
    let cold = run(&files, CacheStore::new());
    files.files.get_mut("src/game/enemy.rs").unwrap().0 = 31;
    let warm = run(&files, cold.store);
    assert_eq!(warm.status, Status::Finished);
    assert_eq!(warm.scanned, vec!["src/game/enemy.rs"]);
    assert_eq!(warm.visited, PROJECT_KEYS.to_vec());
    assert_eq!(warm.emitted, project_output());
    assert_eq!(warm.store.get("src/game/enemy.rs").unwrap().last_modified, time(31));
    assert_eq!(warm.store.get("src/game.rs").unwrap().last_modified, time(20));
    let again = run(&files, warm.store);
    assert!(again.scanned.is_empty());
}

#[test]
fn stale_entry_keeps_its_module_and_directory() {
    let files = tree(&[("src/main.rs", 1, "mod sub;"), ("elsewhere/sub.rs", 2, "#[system] fn h() {}")]);
    let mut store = CacheStore::new();
    store.insert(
        text("src/main.rs"),
        CacheEntry {
            last_modified: time(0),
            module: symbol("old"),
            search_directory: path("elsewhere"),
            fn_paths: vec![DiscoveredDeclaration { path: symbol("old::gone"), stage: None }],
            referenced_files: vec![path("nowhere.rs")],
        },
    );
    let done = run(&files, store);
    assert_eq!(done.status, Status::Finished);
    assert_eq!(done.emitted, vec![(text("old::sub::h"), None)]);
    assert_eq!(done.scanned, vec!["src/main.rs", "elsewhere/sub.rs"]);
    assert_eq!(
        summary(done.store.get("src/main.rs").unwrap()),
        (1, text("old"), text("elsewhere"), Vec::new(), vec![text("elsewhere/sub.rs")])
    );
}

#[test]
fn changed_file_is_scanned_again() {
    let mut files = tree(&[("src/main.rs", 1, "#[system] fn f() {}")]);
    let cold = run(&files, CacheStore::new());
    files.files.insert(text("src/main.rs"), (2, text("#[system] fn g() {}")));
    let warm = run(&files, cold.store);
    assert_eq!(warm.emitted, vec![(text("root::g"), None)]);
    assert_eq!(warm.scanned, vec!["src/main.rs"]);
    assert_eq!(
        summary(warm.store.get("src/main.rs").unwrap()).3,
        vec![(text("root::g"), None)]
    );
}

#[test]
fn fresh_parent_hands_its_own_module_to_a_child_without_entry() {
    let files = tree(&[("src/main.rs", 1, "mod sub;"), ("src/sub.rs", 2, "#[system] fn h() {}")]);
    let cold = run(&files, CacheStore::new());
    let store = copy_store(&cold.store, &["src/main.rs"]);
    let warm = run(&files, store);
    assert_eq!(warm.status, Status::Finished);
    assert_eq!(warm.emitted, vec![(text("root::h"), None)]);
    assert_eq!(warm.scanned, vec!["src/sub.rs"]);
    assert_eq!(summary(warm.store.get("src/sub.rs").unwrap()).1, "root");
}

#[test]
fn entries_of_vanished_files_stay() {
    let mut files = tree(&[("src/main.rs", 1, "mod sub;"), ("src/sub.rs", 2, "")]);
    let cold = run(&files, CacheStore::new());
    files.files.remove("src/sub.rs");
    files.files.insert(text("src/main.rs"), (3, text("#[system] fn f() {}")));
    let warm = run(&files, cold.store);
    assert_eq!(warm.status, Status::Finished);
    assert_eq!(warm.emitted, vec![(text("root::f"), None)]);
    assert_eq!(summary(warm.store.get("src/sub.rs").unwrap()).0, 2);
}

#[test]
fn file_reached_twice_is_registered_twice() {
    let files = tree(&[("src/main.rs", 1, "mod sub;\nmod sub;"), ("src/sub.rs", 2, "#[system] fn h() {}")]);
    let cold = run(&files, CacheStore::new());
    assert_eq!(cold.status, Status::Finished);
    assert_eq!(cold.emitted, vec![(text("root::sub::h"), None), (text("root::sub::h"), None)]);
    assert_eq!(cold.scanned, vec!["src/main.rs", "src/sub.rs"]);
    assert_eq!(
        summary(cold.store.get("src/main.rs").unwrap()).4,
        vec![text("src/sub.rs"), text("src/sub.rs")]
    );
}

#[test]
fn file_within_its_own_visit_is_scanned_again() {
    let files = tree(&[("src/main.rs", 1, "#[system] fn f() {}")]);
    let mut store = CacheStore::new();
    store.insert(
        text("src/main.rs"),
        CacheEntry {
            last_modified: time(1),
            module: symbol("root"),
            search_directory: path("src"),
            fn_paths: vec![DiscoveredDeclaration { path: symbol("root::f"), stage: None }],
            referenced_files: vec![path("src/main.rs")],
        },
    );
    let done = run(&files, store);
    assert_eq!(done.status, Status::Finished);
    assert_eq!(done.emitted, vec![(text("root::f"), None), (text("root::f"), None)]);
    assert_eq!(done.scanned, vec!["src/main.rs"]);
    assert_eq!(
        summary(done.store.get("src/main.rs").unwrap()).4,
        vec![text("src/main.rs")]
    );
}

#[test]
fn directory_module_is_the_fallback() {
    let files = tree(&[
        ("src/main.rs", 1, "mod a;\nmod b;"),
        ("src/a.rs", 2, "#[system] fn single() {}"),
        ("src/a/mod.rs", 3, "#[system] fn shadowed() {}"),
        ("src/b/mod.rs", 4, "#[system] fn nested() {}\nmod c;"),
        ("src/b/c.rs", 5, "#[system] fn leaf() {}"),
    ]);
    let done = run(&files, CacheStore::new());
    assert_eq!(done.status, Status::Finished);
    assert_eq!(
        done.emitted,
        vec![
            (text("root::a::single"), None),
            (text("root::b::nested"), None),
            (text("root::b::c::leaf"), None),
        ]
    );
    assert_eq!(
        summary(done.store.get("src/main.rs").unwrap()).4,
        vec![text("src/a.rs"), text("src/b/mod.rs")]
    );
}

#[test]
fn escaped_module_is_cached_under_its_plain_name() {
    let files = tree(&[("src/main.rs", 1, "mod r#try;"), ("src/try/mod.rs", 2, "#[system] fn h() {}")]);
    let done = run(&files, CacheStore::new());
    assert_eq!(done.status, Status::Finished);
    assert_eq!(done.emitted, vec![(text("root::r#try::h"), None)]);
    assert_eq!(
        done.asked,
        vec![
            "modified src/main.rs",
            "content src/main.rs",
            "exists src/r#try.rs",
            "modified src/try/mod.rs",
            "content src/try/mod.rs",
        ]
    );
    assert_eq!(
        summary(done.store.get("src/main.rs").unwrap()).4,
        vec![text("src/r#try/mod.rs")]
    );
    assert!(done.store.get("src/try/mod.rs").is_some());
    assert!(done.store.get("src/r#try/mod.rs").is_none());
}

#[test]
fn non_root_file_searches_its_own_directory() {
    let files = tree(&[
        ("src/feature/plugin.rs", 1, "mod part;"),
        ("src/feature/plugin/part.rs", 2, "#[system] fn p() {}"),
    ]);
    let done = run_from(&files, CacheStore::new(), "src/feature/plugin.rs", "self");
    assert_eq!(done.status, Status::Finished);
    assert_eq!(done.emitted, vec![(text("self::part::p"), None)]);
    assert_eq!(summary(done.store.get("src/feature/plugin.rs").unwrap()).2, "src/feature/plugin");
}

#[test]
fn missing_root_fails() {
    let done = run(&tree(&[]), CacheStore::new());
    assert_eq!(done.status, Status::Failed(PassError::MetadataUnreadable));
    assert!(done.emitted.is_empty());
    assert_eq!(done.asked, vec!["modified src/main.rs"]);
}

#[test]
fn missing_module_file_fails() {
    let files = tree(&[("src/main.rs", 1, "#[system] fn f() {}\nmod gone;")]);
    let done = run(&files, CacheStore::new());
    assert_eq!(done.status, Status::Failed(PassError::MetadataUnreadable));
    assert_eq!(
        done.asked,
        vec![
            "modified src/main.rs",
            "content src/main.rs",
            "exists src/gone.rs",
            "modified src/gone/mod.rs",
        ]
    );
    assert!(done.store.get("src/main.rs").is_none());
}

#[test]
fn unparseable_source_fails() {
    let files = tree(&[("src/main.rs", 1, "fn broken( {")]);
    let done = run(&files, CacheStore::new());
    assert_eq!(done.status, Status::Failed(PassError::Syntax));
}

#[test]
fn unreadable_content_fails() {
    let (pass, _) = Pass::begin(CacheStore::new(), &path("src/main.rs"), symbol("root"));
    let (pass, request) = pass.step(Reply::Modified(time(1)));
    assert!(matches!(request, Request::Content(_)));
    let (pass, request) = pass.step(Reply::Unreadable);
    assert!(matches!(request, Request::Finished));
    assert_eq!(pass.status(), Status::Failed(PassError::ContentUnreadable));
}

#[test]
fn malformed_entry_fails() {
    let files = tree(&[("src/main.rs", 1, "")]);
    let mut store = CacheStore::new();
    store.insert(
        text("src/main.rs"),
        CacheEntry {
            last_modified: time(0),
            module: SymbolPath::new(Vec::new()),
            search_directory: path("src"),
            fn_paths: Vec::new(),
            referenced_files: Vec::new(),
        },
    );
    let done = run(&files, store);
    assert_eq!(done.status, Status::Failed(PassError::MalformedEntry));
    assert!(done.scanned.is_empty());
}

#[test]
fn unexpected_reply_fails() {
    let (pass, request) = Pass::begin(CacheStore::new(), &path("src/main.rs"), symbol("root"));
    assert!(matches!(&request, Request::Modified(file) if file.to_text() == "src/main.rs"));
    assert_eq!(pass.status(), Status::Running);
    let (pass, request) = pass.step(Reply::Exists(true));
    assert!(matches!(request, Request::Finished));
    assert_eq!(pass.status(), Status::Failed(PassError::UnexpectedReply));
    let (pass, request) = pass.step(Reply::Modified(time(1)));
    assert!(matches!(request, Request::Finished));
    assert_eq!(pass.status(), Status::Failed(PassError::UnexpectedReply));
}

#[test]
fn unexpected_reply_to_each_request() {
    let (pass, _) = Pass::begin(CacheStore::new(), &path("src/main.rs"), symbol("root"));
    let (pass, _) = pass.step(Reply::Modified(time(1)));
    let (pass, _) = pass.step(Reply::Modified(time(1)));
    assert_eq!(pass.status(), Status::Failed(PassError::UnexpectedReply));

    let (pass, _) = Pass::begin(CacheStore::new(), &path("src/main.rs"), symbol("root"));
    let (pass, _) = pass.step(Reply::Modified(time(1)));
    let (pass, request) =
        pass.step(Reply::Items(vec![SourceItem::Module { name: text("sub"), body: None }]));
    assert!(matches!(&request, Request::Exists(file) if file.to_text() == "src/sub.rs"));
    let (pass, _) = pass.step(Reply::Unparseable);
    assert_eq!(pass.status(), Status::Failed(PassError::UnexpectedReply));
}

#[test]
fn finished_pass_stays_finished() {
    let (pass, _) = Pass::begin(CacheStore::new(), &path("src/main.rs"), symbol("root"));
    let (pass, _) = pass.step(Reply::Modified(time(1)));
    let (pass, request) = pass.step(Reply::Items(Vec::new()));
    assert!(matches!(request, Request::Finished));
    assert_eq!(pass.status(), Status::Finished);
    let (pass, request) = pass.step(Reply::Unreadable);
    assert!(matches!(request, Request::Finished));
    assert_eq!(pass.status(), Status::Finished);
    let (emitted, store, visits) = pass.into_parts();
    assert!(emitted.is_empty());
    assert_eq!(store.get("src/main.rs").unwrap().last_modified, time(1));
    assert_eq!(visits.len(), 1);
    assert_eq!(visits[0].key, "src/main.rs");
    assert!(visits[0].scanned);
}

#[test]
fn root_path_is_normalized_first() {
    let (_, request) = Pass::begin(CacheStore::new(), &path("src/r#mod/main.rs"), symbol("root"));
    assert!(matches!(&request, Request::Modified(file) if file.to_text() == "src/mod/main.rs"));
}

#[test]
fn content_reply_carries_the_declarations() {
    assert!(matches!(read("fn f() {}"), Reply::Items(items) if items.len() == 1));
    assert!(matches!(read("fn f( {"), Reply::Unparseable));
    assert!(matches!(content_reply(Ok(Vec::new())), Reply::Items(items) if items.is_empty()));
    assert!(matches!(content_reply(Err(SyntaxError::Rejected)), Reply::Unparseable));
    assert!(matches!(content_reply(Err(SyntaxError::TooDeep)), Reply::Unparseable));
}

#[test]
fn touch_keeps_every_entry_but_the_time() {
    let mut files = project();
    let cold = run(&files, CacheStore::new());
    let mut expected = contents(copy_store(&cold.store, &PROJECT_KEYS));
    files.files.get_mut("src/ui/mod.rs").unwrap().0 = 77;
    let warm = run(&files, cold.store);
    assert_eq!(warm.status, Status::Finished);
    assert_eq!(warm.scanned, vec!["src/ui/mod.rs"]);
    assert_eq!(warm.emitted, project_output());
    expected.get_mut("src/ui/mod.rs").unwrap().0 = 77;
    assert_eq!(contents(warm.store), expected);
}

#[test]
fn shared_file_is_repeated_by_the_second_pass() {
    let files = tree(&[
        ("src/main.rs", 1, "mod sub;\n#[system] fn f() {}\nmod sub;\nmod r#sub;"),
        ("src/sub.rs", 2, "#[system] fn h() {}\nmod leaf;"),
        ("src/sub/leaf.rs", 3, "#[system(Late)] fn l() {}"),
        ("src/sub/mod.rs", 4, "#[system] fn other() {}"),
    ]);
    let cold = run(&files, CacheStore::new());
    assert_eq!(cold.status, Status::Finished);
    assert_eq!(
        cold.emitted,
        vec![
            (text("root::f"), None),
            (text("root::sub::h"), None),
            (text("root::sub::leaf::l"), Some(text("Late"))),
            (text("root::sub::h"), None),
            (text("root::sub::leaf::l"), Some(text("Late"))),
            (text("root::r#sub::other"), None),
        ]
    );
    assert_eq!(cold.scanned, vec!["src/main.rs", "src/sub.rs", "src/sub/leaf.rs", "src/sub/mod.rs"]);
    let keys = ["src/main.rs", "src/sub.rs", "src/sub/leaf.rs", "src/sub/mod.rs"];
    let kept = copy_store(&cold.store, &keys);
    let warm = run(&files, cold.store);
    assert_eq!(warm.status, Status::Finished);
    assert_eq!(warm.emitted, cold.emitted);
    assert_eq!(warm.visited, cold.visited);
    assert!(warm.scanned.is_empty());
    assert_eq!(contents(warm.store), contents(kept));
}

#[test]
fn file_reached_within_its_own_visit_is_not_repeated() {
    let files = tree(&[
        ("src/main.rs", 1, "#[system] fn f() {}"),
        ("src/y.rs", 2, "#[system] fn h() {}\nmod main;"),
    ]);
    let mut store = CacheStore::new();
    store.insert(
        text("src/main.rs"),
        CacheEntry {
            last_modified: time(1),
            module: symbol("root"),
            search_directory: path("src"),
            fn_paths: vec![DiscoveredDeclaration { path: symbol("root::f"), stage: None }],
            referenced_files: vec![path("src/y.rs")],
        },
    );
    store.insert(
        text("src/y.rs"),
        CacheEntry {
            last_modified: time(0),
            module: symbol("root::y"),
            search_directory: path("src"),
            fn_paths: Vec::new(),
            referenced_files: Vec::new(),
        },
    );
    let first = run(&files, store);
    assert_eq!(first.status, Status::Finished);
    assert_eq!(first.visited, vec!["src/main.rs", "src/y.rs", "src/main.rs"]);
    assert_eq!(
        first.emitted,
        vec![
            (text("root::f"), None),
            (text("root::y::h"), None),
            (text("root::y::main::f"), None),
        ]
    );
    let second = run(&files, first.store);
    assert_eq!(second.status, Status::Finished);
    assert_eq!(second.visited, vec!["src/main.rs", "src/y.rs", "src/main.rs"]);
    assert_eq!(
        second.emitted,
        vec![(text("root::f"), None), (text("root::y::h"), None), (text("root::y::f"), None)]
    );
}
