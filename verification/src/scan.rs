//! The declaration scanner: from the declarations of one file to the marked
//! functions among them and the external modules they refer to.

use vstd::prelude::*;
use crate::declaration::{copy_optional, DeclarationModel, DiscoveredDeclaration};
use crate::path::FilePath;
use crate::source::{item_model, items_model, Annotation, AnnotationModel, ItemModel, SourceItem};
use crate::symbol::SymbolPath;
use crate::text::lemma_push_view;

verus! {

/// A module that a file declares without a body, to be looked up as a file of
/// its own.
pub struct ModuleReference {
    /// The module's symbolic path.
    pub module: SymbolPath,
    /// The directory below which the module's file is looked up.
    pub directory: FilePath,
    /// The module's name.
    pub name: String,
}

/// What a [`ModuleReference`] stands for.
pub struct ModuleReferenceModel {
    pub module: Seq<Seq<char>>,
    pub directory: Seq<Seq<char>>,
    pub name: Seq<char>,
}

impl View for ModuleReference {
    type V = ModuleReferenceModel;

    open spec fn view(&self) -> ModuleReferenceModel {
        ModuleReferenceModel {
            module: self.module@,
            directory: self.directory@,
            name: self.name@,
        }
    }
}

impl DeepView for ModuleReference {
    type V = ModuleReferenceModel;

    open spec fn deep_view(&self) -> ModuleReferenceModel {
        self.view()
    }
}

/// What a scan found: the marked functions and the external modules, each list
/// in source order, depth first through inline modules.
pub struct ScanResult {
    pub declarations: Vec<DiscoveredDeclaration>,
    pub modules: Vec<ModuleReference>,
}

/// What a [`ScanResult`] stands for.
pub struct ScanModel {
    pub declarations: Seq<DeclarationModel>,
    pub modules: Seq<ModuleReferenceModel>,
}

impl View for ScanResult {
    type V = ScanModel;

    open spec fn view(&self) -> ScanModel {
        ScanModel {
            declarations: self.declarations.deep_view(),
            modules: self.modules.deep_view(),
        }
    }
}

impl ScanModel {
    /// The scan that found nothing.
    pub open spec fn empty() -> ScanModel {
        ScanModel { declarations: Seq::empty(), modules: Seq::empty() }
    }

    /// What two scans found, what the first scan found first.
    pub open spec fn followed_by(self, next: ScanModel) -> ScanModel {
        ScanModel {
            declarations: self.declarations + next.declarations,
            modules: self.modules + next.modules,
        }
    }
}

/// The name of the marker attribute.
pub open spec fn marker_name() -> Seq<char> {
    "system"@
}

/// The arguments of the first marker attribute in the list, or `None` where
/// the list holds no marker.
pub open spec fn marker_of(attributes: Seq<AnnotationModel>) -> Option<Option<Seq<char>>>
    decreases attributes.len(),
{
    if attributes.len() == 0 {
        None
    } else if attributes[0].name == Some(marker_name()) {
        Some(attributes[0].arguments)
    } else {
        marker_of(attributes.drop_first())
    }
}

/// What a scan of `items` finds, where they stand in the module `module`
/// and their external modules are looked up below `directory`.
pub open spec fn scan_of(
    items: Seq<ItemModel>,
    module: Seq<Seq<char>>,
    directory: Seq<Seq<char>>,
) -> ScanModel
    decreases items,
{
    if items.len() == 0 {
        ScanModel::empty()
    } else {
        scan_of(items.drop_last(), module, directory).followed_by(
            scan_of_item(items.last(), module, directory),
        )
    }
}

/// What a scan of one item finds. A marked function gives one declaration. An
/// inline module gives what its body gives, one level down. An external module
/// gives one reference. Anything else gives nothing.
pub open spec fn scan_of_item(
    item: ItemModel,
    module: Seq<Seq<char>>,
    directory: Seq<Seq<char>>,
) -> ScanModel
    decreases item,
{
    match item {
        ItemModel::Function { name, attributes } => match marker_of(attributes) {
            Some(stage) => ScanModel {
                declarations: seq![DeclarationModel { path: module.push(name), stage }],
                modules: Seq::empty(),
            },
            None => ScanModel::empty(),
        },
        ItemModel::Module { name, body: Some(body) } => scan_of(
            body,
            module.push(name),
            directory.push(name),
        ),
        ItemModel::Module { name, body: None } => ScanModel {
            declarations: Seq::empty(),
            modules: seq![
                ModuleReferenceModel { module: module.push(name), directory, name },
            ],
        },
        ItemModel::Other => ScanModel::empty(),
    }
}

/// Source order. What a scan finds in a list of declarations is what it finds
/// in the first part of the list, followed by what it finds in the rest.
pub proof fn lemma_scan_in_order(
    first: Seq<ItemModel>,
    rest: Seq<ItemModel>,
    module: Seq<Seq<char>>,
    directory: Seq<Seq<char>>,
)
    ensures
        scan_of(first + rest, module, directory).declarations == scan_of(
            first,
            module,
            directory,
        ).declarations + scan_of(rest, module, directory).declarations,
        scan_of(first + rest, module, directory).modules == scan_of(
            first,
            module,
            directory,
        ).modules + scan_of(rest, module, directory).modules,
    decreases rest.len(),
{
    let whole = scan_of(first + rest, module, directory);
    let head = scan_of(first, module, directory);
    let tail = scan_of(rest, module, directory);
    if rest.len() == 0 {
        assert(first + rest =~= first);
        assert(head.declarations + tail.declarations =~= head.declarations);
        assert(head.modules + tail.modules =~= head.modules);
    } else {
        let last = scan_of_item(rest.last(), module, directory);
        lemma_scan_in_order(first, rest.drop_last(), module, directory);
        assert((first + rest).drop_last() =~= first + rest.drop_last());
        assert((first + rest).last() == rest.last());
        let middle = scan_of(rest.drop_last(), module, directory);
        assert(whole.declarations =~= head.declarations + (middle.declarations
            + last.declarations));
        assert(whole.modules =~= head.modules + (middle.modules + last.modules));
    }
}

/// Finds the first marker attribute in a list and gives its arguments.
pub fn find_marker(attributes: &Vec<Annotation>) -> (marker: Option<Option<String>>)
    ensures
        marker.deep_view() == marker_of(attributes.deep_view()),
{
    let mut index: usize = 0;
    assert(attributes.deep_view().skip(0) =~= attributes.deep_view());
    while index < attributes.len()
        invariant
            index <= attributes.len(),
            marker_of(attributes.deep_view()) == marker_of(
                attributes.deep_view().skip(index as int),
            ),
        decreases attributes.len() - index,
    {
        let ghost rest = attributes.deep_view().skip(index as int);
        assert(rest[0] == attributes[index as int]@);
        assert(rest.drop_first() =~= attributes.deep_view().skip(index as int + 1));
        let attribute = &attributes[index];
        let is_marker = match &attribute.name {
            Some(name) => *name == "system".to_owned(),
            None => false,
        };
        if is_marker {
            return Some(copy_optional(&attribute.arguments));
        }
        index = index + 1;
    }
    None
}

/// Scans the declarations of one nesting level and everything inline below it.
pub fn search_contents(
    items: &Vec<SourceItem>,
    module: &SymbolPath,
    directory: &FilePath,
) -> (found: ScanResult)
    ensures
        found@ == scan_of(items_model(items@), module@, directory@),
{
    let mut found = ScanResult { declarations: Vec::new(), modules: Vec::new() };
    scan_into(items, module, directory, &mut found);
    assert(found@.declarations =~= scan_of(
        items_model(items@),
        module@,
        directory@,
    ).declarations);
    assert(found@.modules =~= scan_of(items_model(items@), module@, directory@).modules);
    found
}

/// Scans the declarations of one nesting level and appends what it finds.
fn scan_into(
    items: &Vec<SourceItem>,
    module: &SymbolPath,
    directory: &FilePath,
    found: &mut ScanResult,
)
    ensures
        final(found)@ == old(found)@.followed_by(
            scan_of(items_model(items@), module@, directory@),
        ),
    decreases items,
{
    let mut index: usize = 0;
    assert(items@.take(0) =~= Seq::empty());
    assert(found@.declarations + Seq::empty() =~= found@.declarations);
    assert(found@.modules + Seq::empty() =~= found@.modules);
    while index < items.len()
        invariant
            index <= items.len(),
            found@ == old(found)@.followed_by(
                scan_of(items_model(items@.take(index as int)), module@, directory@),
            ),
        decreases items.len() - index,
    {
        let ghost before = *found;
        let ghost done = scan_of(items_model(items@.take(index as int)), module@, directory@);
        let ghost this = scan_of_item(item_model(items@[index as int]), module@, directory@);
        proof {
            let upto = items@.take(index as int + 1);
            assert(upto.drop_last() =~= items@.take(index as int));
            assert(upto.last() == items@[index as int]);
            assert(items_model(upto).drop_last() =~= items_model(items@.take(index as int)));
            assert(scan_of(items_model(upto), module@, directory@) == done.followed_by(this));
        }
        match &items[index] {
            SourceItem::Function { name, attributes } => {
                match find_marker(attributes) {
                    Some(stage) => {
                        let ghost declarations = found.declarations;
                        let declaration = DiscoveredDeclaration {
                            path: module.child(name.as_str()),
                            stage,
                        };
                        found.declarations.push(declaration);
                        proof {
                            lemma_push_view(declarations, found.declarations, declaration);
                        }
                    },
                    None => {},
                }
            },
            SourceItem::Module { name, body: Some(body) } => {
                let inner_path = module.child(name.as_str());
                let inner_directory = directory.child(name.as_str());
                scan_into(body, &inner_path, &inner_directory, found);
            },
            SourceItem::Module { name, body: None } => {
                let ghost modules = found.modules;
                let reference = ModuleReference {
                    module: module.child(name.as_str()),
                    directory: directory.copy(),
                    name: name.clone(),
                };
                found.modules.push(reference);
                proof {
                    lemma_push_view(modules, found.modules, reference);
                }
            },
            SourceItem::Other => {},
        }
        proof {
            assert(found@.declarations =~= before@.declarations + this.declarations);
            assert(found@.modules =~= before@.modules + this.modules);
            assert(found@.declarations =~= old(found)@.declarations + done.followed_by(
                this,
            ).declarations);
            assert(found@.modules =~= old(found)@.modules + done.followed_by(this).modules);
        }
        index = index + 1;
    }
    assert(items@.take(index as int) =~= items@);
}

} // verus!
