use bevy_discovery::config::{
    artifact_name, attr_source, cache_artifact_name, hex, is_possible_string, is_string_start,
    literal_close, root_file_name, root_module, root_or_default, take_attr_value,
};
use bevy_discovery::syntax::lower_attributes;
use bevy_discovery::source::Annotation;

fn text(value: &str) -> String {
    value.to_string()
}

fn named(name: &str, arguments: Option<&str>) -> Annotation {
    Annotation { name: Some(text(name)), arguments: arguments.map(text) }
}

#[test]
fn attr_value_is_the_string_literal() {
    let attributes = vec![named("doc", Some("\"no\"")), named("root", Some("\"src/lib.rs\""))];
    assert_eq!(take_attr_value(&attributes, "root"), Some(text("src/lib.rs")));
    assert_eq!(take_attr_value(&attributes, "doc"), Some(text("no")));
}

#[test]
fn attr_value_unescapes_the_literal() {
    let attributes = vec![named("root", Some("\"a\\\\b\\n\""))];
    assert_eq!(take_attr_value(&attributes, "root"), Some(text("a\\b\n")));
}

#[test]
fn attr_value_of_the_first_match_only() {
    let attributes = vec![named("root", Some("not a literal")), named("root", Some("\"later\""))];
    assert_eq!(take_attr_value(&attributes, "root"), None);
}

#[test]
fn attr_value_missing() {
    let attributes = vec![
        named("other", Some("\"x\"")),
        Annotation { name: None, arguments: Some(text("\"x\"")) },
    ];
    assert_eq!(take_attr_value(&attributes, "root"), None);
    assert_eq!(take_attr_value(&vec![named("root", None)], "root"), None);
    assert_eq!(take_attr_value(&vec![named("root", Some("1"))], "root"), None);
    assert_eq!(take_attr_value(&Vec::new(), "root"), None);
}

#[test]
fn root_defaults_to_the_entry_point() {
    assert_eq!(root_file_name(&Vec::new()), "src/main.rs");
    assert_eq!(root_file_name(&vec![named("root", Some("\"src/game.rs\""))]), "src/game.rs");
    assert_eq!(root_file_name(&vec![named("root", Some("oops"))]), "src/main.rs");
}

#[test]
fn hex_is_lower_case_without_leading_zeros() {
    assert_eq!(hex(0), "0");
    assert_eq!(hex(9), "9");
    assert_eq!(hex(10), "a");
    assert_eq!(hex(15), "f");
    assert_eq!(hex(16), "10");
    assert_eq!(hex(255), "ff");
    assert_eq!(hex(0xdead_beef), "deadbeef");
    assert_eq!(hex(u64::MAX), "ffffffffffffffff");
    assert_eq!(hex(0x0123_4567_89ab_cdef), "123456789abcdef");
}

#[test]
fn artifact_name_carries_the_hash() {
    assert_eq!(artifact_name(0), "discovery_cache_0.ron");
    assert_eq!(artifact_name(0x1f), "discovery_cache_1f.ron");
    assert_eq!(artifact_name(u64::MAX), "discovery_cache_ffffffffffffffff.ron");
}

#[test]
fn artifact_name_is_derived_from_the_root() {
    let one = cache_artifact_name("/project/src/main.rs");
    let same = cache_artifact_name("/project/src/main.rs");
    let other = cache_artifact_name("/project/src/game.rs");
    assert_eq!(one, same);
    assert_ne!(one, other);
    assert!(one.starts_with("discovery_cache_"));
    assert!(one.ends_with(".ron"));
    let digits = &one["discovery_cache_".len()..one.len() - ".ron".len()];
    assert!(!digits.is_empty());
    assert!(digits.chars().all(|digit| "0123456789abcdef".contains(digit)));
    assert_ne!(cache_artifact_name("a"), "discovery_cache_a.ron");
}

#[test]
fn root_module_is_self() {
    assert_eq!(root_module().segments, vec!["self"]);
    assert_eq!(root_module().to_text(), "self");
}

#[test]
fn attr_value_of_a_raw_string() {
    let attributes = vec![named("root", Some("r#\"src/a\"b.rs\"#"))];
    assert_eq!(take_attr_value(&attributes, "root"), Some(text("src/a\"b.rs")));
    assert_eq!(take_attr_value(&vec![named("root", Some("root"))], "root"), None);
    assert_eq!(take_attr_value(&vec![named("root", Some("r#\"open"))], "root"), None);
}

#[test]
fn attr_value_of_other_literals_is_none() {
    for tokens in ["c\"x\"", "cr\"x\"", "b\"x\"", "'x'", "1", "-1", "true", "", " \"x\"", "(\"x\")"] {
        assert_eq!(take_attr_value(&vec![named("root", Some(tokens))], "root"), None);
    }
    assert_eq!(take_attr_value(&vec![named("root", Some("\"x\" \"y\""))], "root"), None);
    assert_eq!(take_attr_value(&vec![named("root", Some("\"bad \\q\""))], "root"), None);
}

#[test]
fn string_start_is_a_quote_or_an_r() {
    assert!(is_string_start("\"x\""));
    assert!(is_string_start("r\"x\""));
    assert!(is_string_start("root"));
    assert!(!is_string_start(""));
    assert!(!is_string_start("c\"x\""));
    assert!(!is_string_start(" \"x\""));
}

#[test]
fn root_or_default_keeps_a_value() {
    assert_eq!(root_or_default(Some(text("src/game.rs"))), "src/game.rs");
    assert_eq!(root_or_default(Some(String::new())), "");
    assert_eq!(root_or_default(None), "src/main.rs");
}

#[test]
fn literal_ends_behind_its_closing_quote() {
    assert_eq!(literal_close(""), 0);
    assert_eq!(literal_close("\"\""), 2);
    assert_eq!(literal_close("\"ab\" c"), 4);
    assert_eq!(literal_close("\"a\\\"b\" c"), 6);
    assert_eq!(literal_close("\"a\\\\\" c"), 5);
    assert_eq!(literal_close("\"open"), 5);
    assert_eq!(literal_close("\"open\\"), 6);
    assert_eq!(literal_close("r\"a\\\" c"), 5);
    assert_eq!(literal_close("r#\"a\"b\"# c"), 8);
    assert_eq!(literal_close("r##\"a\"#b\"## c"), 11);
    assert_eq!(literal_close("r#\"open\""), 8);
    assert_eq!(literal_close("root"), 0);
    assert_eq!(literal_close("r#raw"), 0);
    assert_eq!(literal_close("r#"), 0);
    assert_eq!(literal_close("x\"a\""), 0);
}

#[test]
fn brackets_inside_the_literal_are_no_hindrance() {
    let inside = format!("\"src/{}.rs\"", "(".repeat(200));
    assert!(is_possible_string(&inside));
    assert_eq!(
        take_attr_value(&vec![named("root", Some(inside.as_str()))], "root"),
        Some(format!("src/{}.rs", "(".repeat(200)))
    );
    let raw = "r#\"src/{a}[b](c).rs\"#";
    assert!(is_possible_string(raw));
    assert_eq!(
        take_attr_value(&vec![named("root", Some(raw))], "root"),
        Some(text("src/{a}[b](c).rs"))
    );
    assert!(is_possible_string("\"a\\\"(\""));
    assert_eq!(
        take_attr_value(&vec![named("root", Some("\"a\\\"(\""))], "root"),
        Some(text("a\"("))
    );
}

#[test]
fn brackets_behind_the_literal_are_not_read() {
    assert!(!is_possible_string("\"x\" (y)"));
    assert!(!is_possible_string("\"x\"["));
    assert!(!is_possible_string("r\"x\" {"));
    assert!(!is_possible_string("root(x)"));
    assert!(!is_possible_string("c\"x\""));
    assert!(is_possible_string("\"x\" )"));
    assert!(is_possible_string("\"x\" y"));
    assert!(is_possible_string("\"open ((("));
    assert_eq!(take_attr_value(&vec![named("root", Some("\"x\" (y)"))], "root"), None);
    assert_eq!(take_attr_value(&vec![named("root", Some("\"x\" )"))], "root"), None);
    assert_eq!(take_attr_value(&vec![named("root", Some("\"open ((("))], "root"), None);
    let nested = format!("\"x\" {}{}", "(".repeat(100000), ")".repeat(100000));
    assert_eq!(take_attr_value(&vec![named("root", Some(nested.as_str()))], "root"), None);
    let unclosed = format!("r#\"x\" {}{}", "(".repeat(2000), ")".repeat(2000));
    assert_eq!(take_attr_value(&vec![named("root", Some(unclosed.as_str()))], "root"), None);
}

#[test]
fn attr_source_is_the_text_of_the_first_of_the_name() {
    let attributes = vec![
        named("derive", Some("Debug")),
        Annotation { name: None, arguments: Some(text("\"skipped\"")) },
        named("root", Some("\"src/lib.rs\"")),
        named("root", Some("\"later\"")),
    ];
    assert_eq!(attr_source(&attributes, "root"), Some(text("\"src/lib.rs\"")));
    assert_eq!(attr_source(&attributes, "derive"), None);
    assert_eq!(attr_source(&attributes, "other"), None);
    assert_eq!(attr_source(&vec![named("root", None)], "root"), None);
    let shadowed = vec![named("root", Some("1")), named("root", Some("\"later\""))];
    assert_eq!(attr_source(&shadowed, "root"), None);
    assert_eq!(attr_source(&Vec::new(), "root"), None);
}

#[test]
fn root_attribute_beside_another_is_read() {
    let input =
        syn::parse_str::<syn::DeriveInput>("#[derive(Debug)] #[root(\"src/lib.rs\")] struct P;")
            .unwrap();
    let attributes = lower_attributes(&input.attrs);
    assert_eq!(attributes.len(), 2);
    assert_eq!(attributes[0].name, Some(text("derive")));
    assert_eq!(attributes[0].arguments, Some(text("Debug")));
    assert_eq!(attributes[1].name, Some(text("root")));
    assert_eq!(attributes[1].arguments, Some(text("\"src/lib.rs\"")));
    assert_eq!(take_attr_value(&attributes, "root"), Some(text("src/lib.rs")));
    assert_eq!(root_file_name(&attributes), "src/lib.rs");
}

#[test]
fn root_attribute_that_is_no_literal_gives_the_default() {
    let input =
        syn::parse_str::<syn::DeriveInput>("#[root(src/lib.rs)] #[a::b] struct P;").unwrap();
    let attributes = lower_attributes(&input.attrs);
    assert_eq!(attributes[1].name, None);
    assert_eq!(take_attr_value(&attributes, "root"), None);
    assert_eq!(root_file_name(&attributes), "src/main.rs");
    let plain = syn::parse_str::<syn::DeriveInput>("struct P;").unwrap();
    assert_eq!(root_file_name(&lower_attributes(&plain.attrs)), "src/main.rs");
}
