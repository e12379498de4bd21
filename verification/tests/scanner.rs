use bevy_discovery::declaration::{copy_optional, emit, DiscoveredDeclaration, Registration};
use bevy_discovery::path::FilePath;
use bevy_discovery::scan::{find_marker, search_contents};
use bevy_discovery::source::{Annotation, SourceItem};
use bevy_discovery::symbol::SymbolPath;
use bevy_discovery::syntax::{source_from, SyntaxError};

fn text(value: &str) -> String {
    value.to_string()
}

fn parse_source(source: &str) -> Result<Vec<SourceItem>, SyntaxError> {
    source_from(syn::parse_file(source), source.len())
}

fn named(name: &str, arguments: Option<&str>) -> Annotation {
    Annotation { name: Some(text(name)), arguments: arguments.map(text) }
}

fn function(name: &str, attributes: Vec<Annotation>) -> SourceItem {
    SourceItem::Function { name: text(name), attributes }
}

fn root() -> SymbolPath {
    SymbolPath::new(vec![text("root")])
}

fn src() -> FilePath {
    FilePath::new(vec![text("src")])
}

fn declarations(found: &[DiscoveredDeclaration]) -> Vec<(String, Option<String>)> {
    found.iter().map(|one| (one.path.to_text(), one.stage.clone())).collect()
}

#[test]
fn marker_is_the_first_attribute_named_system() {
    let attributes = vec![
        named("inline", None),
        Annotation { name: None, arguments: Some(text("x")) },
        named("system", Some("Late")),
        named("system", Some("Early")),
    ];
    assert_eq!(find_marker(&attributes), Some(Some(text("Late"))));
}

#[test]
fn marker_without_arguments_has_no_stage() {
    assert_eq!(find_marker(&vec![named("system", None)]), Some(None));
}

#[test]
fn no_marker_among_other_attributes() {
    let attributes = vec![named("inline", None), named("systems", Some("x"))];
    assert_eq!(find_marker(&attributes), None);
    assert_eq!(find_marker(&Vec::new()), None);
}

#[test]
fn scan_follows_source_order_through_inline_modules() {
    let items = vec![
        function("first", vec![named("system", None)]),
        SourceItem::Module {
            name: text("m"),
            body: Some(vec![
                function("inner", vec![named("system", Some("Late"))]),
                SourceItem::Module { name: text("deep"), body: None },
                SourceItem::Module {
                    name: text("n"),
                    body: Some(vec![function("innermost", vec![named("system", None)])]),
                },
            ]),
        },
        SourceItem::Other,
        function("unmarked", vec![named("inline", None)]),
        SourceItem::Module { name: text("sub"), body: None },
        function("last", vec![named("system", Some("a b"))]),
    ];
    let found = search_contents(&items, &root(), &src());
    assert_eq!(
        declarations(&found.declarations),
        vec![
            (text("root::first"), None),
            (text("root::m::inner"), Some(text("Late"))),
            (text("root::m::n::innermost"), None),
            (text("root::last"), Some(text("a b"))),
        ]
    );
    assert_eq!(found.modules.len(), 2);
    assert_eq!(found.modules[0].module.to_text(), "root::m::deep");
    assert_eq!(found.modules[0].directory.to_text(), "src/m");
    assert_eq!(found.modules[0].name, "deep");
    assert_eq!(found.modules[1].module.to_text(), "root::sub");
    assert_eq!(found.modules[1].directory.to_text(), "src");
    assert_eq!(found.modules[1].name, "sub");
}

#[test]
fn scan_of_nothing_finds_nothing() {
    let found = search_contents(&Vec::new(), &root(), &src());
    assert!(found.declarations.is_empty());
    assert!(found.modules.is_empty());
}

#[test]
fn emit_appends_one_registration_per_declaration() {
    let mut output = vec![Registration { path: text("kept"), stage: None }];
    let found = vec![
        DiscoveredDeclaration { path: root().child("f"), stage: None },
        DiscoveredDeclaration { path: root().child("f"), stage: Some(text("Late")) },
    ];
    emit(&mut output, &found);
    let seen: Vec<(String, Option<String>)> =
        output.iter().map(|one| (one.path.clone(), one.stage.clone())).collect();
    assert_eq!(
        seen,
        vec![(text("kept"), None), (text("root::f"), None), (text("root::f"), Some(text("Late")))]
    );
    let copy = found[1].copy();
    assert_eq!(copy.path.to_text(), "root::f");
    assert_eq!(copy.stage, Some(text("Late")));
    assert_eq!(copy_optional(&None), None);
}

#[test]
fn parse_reads_functions_modules_and_attributes() {
    let source = "#[inline]\n#[system(Late)]\nfn g() {}\nmod sub;\nmod m { #[system] fn f() {} }\nstruct S;\n#[a::b] fn h() {}";
    let items = parse_source(source).unwrap();
    assert_eq!(items.len(), 5);
    match &items[0] {
        SourceItem::Function { name, attributes } => {
            assert_eq!(name, "g");
            assert_eq!(attributes.len(), 2);
            assert_eq!(attributes[0].name, Some(text("inline")));
            assert_eq!(attributes[0].arguments, None);
            assert_eq!(attributes[1].name, Some(text("system")));
            assert_eq!(attributes[1].arguments, Some(text("Late")));
        }
        _ => panic!("expected a function"),
    }
    assert!(matches!(&items[1], SourceItem::Module { name, body: None } if name == "sub"));
    match &items[2] {
        SourceItem::Module { name, body: Some(body) } => {
            assert_eq!(name, "m");
            assert_eq!(body.len(), 1);
            assert!(matches!(&body[0], SourceItem::Function { name, .. } if name == "f"));
        }
        _ => panic!("expected an inline module"),
    }
    assert!(matches!(&items[3], SourceItem::Other));
    match &items[4] {
        SourceItem::Function { name, attributes } => {
            assert_eq!(name, "h");
            assert_eq!(attributes[0].name, None);
        }
        _ => panic!("expected a function"),
    }
}

#[test]
fn parse_keeps_stage_tokens() {
    let items = parse_source("#[system(stage::POST_UPDATE)] fn f() {}").unwrap();
    let found = search_contents(&items, &root(), &src());
    assert_eq!(found.declarations.len(), 1);
    assert_eq!(found.declarations[0].stage, Some(text("stage :: POST_UPDATE")));
}

#[test]
fn parse_tells_empty_arguments_from_none() {
    let items = parse_source("#[system()] fn f() {}\n#[system] fn g() {}\n#[system = \"x\"] fn h() {}").unwrap();
    let found = search_contents(&items, &root(), &src());
    assert_eq!(
        declarations(&found.declarations),
        vec![(text("root::f"), Some(text(""))), (text("root::g"), None), (text("root::h"), None)]
    );
}

#[test]
fn parse_rejects_what_is_not_source() {
    assert_eq!(parse_source("fn f( {").err(), Some(SyntaxError::Rejected));
    assert_eq!(parse_source("mod").err(), Some(SyntaxError::Rejected));
    assert!(parse_source("").unwrap().is_empty());
}

#[test]
fn parse_follows_nested_inline_modules() {
    let items = parse_source("mod a { mod b { mod c { #[system] fn f() {} } } }").unwrap();
    let found = search_contents(&items, &root(), &src());
    assert_eq!(declarations(&found.declarations), vec![(text("root::a::b::c::f"), None)]);
}

#[test]
fn budget_bounds_the_nesting_of_inline_modules() {
    let source = "mod a { mod b { fn f() {} } mod c; }\nmod d {}";
    assert_eq!(source_from(syn::parse_file(source), 0).err(), Some(SyntaxError::TooDeep));
    assert_eq!(source_from(syn::parse_file(source), 1).err(), Some(SyntaxError::TooDeep));
    let items = source_from(syn::parse_file(source), 2).unwrap();
    assert_eq!(items.len(), 2);
    assert!(source_from(syn::parse_file("fn f() {}\nmod c;"), 0).is_ok());
    assert!(source_from(syn::parse_file("mod d {}"), 1).is_ok());
    assert_eq!(source_from(syn::parse_file("mod d {}"), 0).err(), Some(SyntaxError::TooDeep));
    assert_eq!(source_from(syn::parse_file("mod {"), 0).err(), Some(SyntaxError::Rejected));
}
