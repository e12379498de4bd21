use bevy_discovery::path::FilePath;
use bevy_discovery::symbol::SymbolPath;
use bevy_discovery::text::{copy_texts, join, strip_escape, strip_extension};

fn path(segments: &[&str]) -> FilePath {
    FilePath::new(segments.iter().map(|segment| segment.to_string()).collect())
}

#[test]
fn root_name_resolves_to_parent_directory() {
    assert_eq!(path(&["src", "main.rs"]).search_directory().to_text(), "src");
}

#[test]
fn other_name_resolves_to_own_directory() {
    assert_eq!(
        path(&["src", "feature", "plugin.rs"]).search_directory().to_text(),
        "src/feature/plugin"
    );
}

#[test]
fn every_root_name_resolves_to_parent_directory() {
    assert_eq!(path(&["a", "mod.rs"]).search_directory().segments, vec!["a"]);
    assert_eq!(path(&["a", "lib.rs"]).search_directory().segments, vec!["a"]);
    assert_eq!(path(&["a", "main.rs"]).search_directory().segments, vec!["a"]);
    assert_eq!(path(&["a", "main"]).search_directory().segments, vec!["a"]);
    assert_eq!(path(&["a", "mains.rs"]).search_directory().segments, vec!["a", "mains"]);
}

#[test]
fn search_directory_of_short_paths() {
    assert!(path(&[]).search_directory().segments.is_empty());
    assert!(path(&["main.rs"]).search_directory().segments.is_empty());
    assert_eq!(path(&["game.rs"]).search_directory().segments, vec!["game"]);
}

#[test]
fn extension_is_what_follows_the_last_dot() {
    assert_eq!(strip_extension("main.rs"), "main");
    assert_eq!(strip_extension("archive.tar.gz"), "archive.tar");
    assert_eq!(strip_extension("plain"), "plain");
    assert_eq!(strip_extension("trailing."), "trailing");
    assert_eq!(strip_extension(""), "");
}

#[test]
fn hidden_and_parent_names_have_no_extension() {
    assert_eq!(strip_extension(".hidden"), ".hidden");
    assert_eq!(strip_extension(".."), "..");
    assert_eq!(strip_extension("."), ".");
    assert_eq!(strip_extension(".a.b"), ".a");
    assert_eq!(strip_extension("a."), "a");
}

#[test]
fn escaped_names_get_their_plain_spelling() {
    assert_eq!(strip_escape("r#try"), "try");
    assert_eq!(strip_escape("r#"), "");
    assert_eq!(strip_escape("try"), "try");
    assert_eq!(strip_escape("r"), "r");
    assert_eq!(strip_escape("#r"), "#r");
    assert_eq!(strip_escape("ar#b"), "ar#b");
    assert_eq!(strip_escape(""), "");
}

#[test]
fn normalize_rewrites_each_escaped_segment() {
    let normal = path(&["src", "r#try", "r#async.rs", "plain.rs"]).normalize();
    assert_eq!(normal.segments, vec!["src", "try", "async.rs", "plain.rs"]);
}

#[test]
fn normalize_keeps_a_plain_path() {
    let normal = path(&["src", "game", "mod.rs"]).normalize();
    assert_eq!(normal.segments, vec!["src", "game", "mod.rs"]);
}

#[test]
fn two_routes_to_one_file_share_a_key() {
    assert_eq!(path(&["src", "r#try.rs"]).key(), path(&["src", "try.rs"]).key());
    assert_eq!(path(&["src", "r#try.rs"]).key(), "src/try.rs");
    assert_eq!(path(&["src", "r#try.rs"]).to_text(), "src/r#try.rs");
}

#[test]
fn module_files_follow_the_naming_convention() {
    let directory = path(&["src", "game"]);
    assert_eq!(directory.module_file("enemy").segments, vec!["src", "game", "enemy.rs"]);
    assert_eq!(
        directory.module_directory_file("enemy").segments,
        vec!["src", "game", "enemy", "mod.rs"]
    );
    assert_eq!(directory.child("enemy").segments, vec!["src", "game", "enemy"]);
    assert_eq!(directory.copy().segments, vec!["src", "game"]);
}

#[test]
fn join_puts_the_separator_between_parts() {
    let parts = vec!["a".to_string(), "b".to_string(), "c".to_string()];
    assert_eq!(join(&parts, "::"), "a::b::c");
    assert_eq!(join(&parts, ""), "abc");
    assert_eq!(join(&vec!["only".to_string()], "/"), "only");
    assert_eq!(join(&Vec::new(), "/"), "");
    assert_eq!(join(&vec![String::new(), String::new()], "/"), "/");
    assert_eq!(copy_texts(&parts), parts);
}

#[test]
fn symbol_paths_are_written_with_double_colons() {
    let root = SymbolPath::new(vec!["root".to_string()]);
    let inner = root.child("m").child("g");
    assert_eq!(inner.to_text(), "root::m::g");
    assert_eq!(root.to_text(), "root");
    assert_eq!(root.copy().segments, vec!["root"]);
    assert!(!root.is_empty());
    assert!(SymbolPath::new(Vec::new()).is_empty());
    assert_eq!(SymbolPath::new(Vec::new()).to_text(), "");
}
