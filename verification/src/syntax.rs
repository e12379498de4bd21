//! Reading what the parser made of a source text. The parser is `syn`; its
//! caller runs it, and what it hands back is turned here into the plain
//! declarations of [`crate::source`].

use vstd::prelude::*;
use crate::source::{item_model, items_model, Annotation, AnnotationModel, ItemModel, SourceItem};
use crate::text::lemma_push_view;

verus! {

#[verifier::external_type_specification]
#[verifier::external_body]
pub struct ExSynFile(syn::File);

#[verifier::external_type_specification]
#[verifier::external_body]
pub struct ExSynItem(syn::Item);

#[verifier::external_type_specification]
#[verifier::external_body]
pub struct ExSynItemFn(syn::ItemFn);

#[verifier::external_type_specification]
#[verifier::external_body]
pub struct ExSynItemMod(syn::ItemMod);

#[verifier::external_type_specification]
#[verifier::external_body]
pub struct ExSynAttribute(syn::Attribute);

#[verifier::external_type_specification]
#[verifier::external_body]
pub struct ExSynError(syn::Error);

/// Why a text could not be read as source.
#[derive(Clone, Copy, PartialEq, Eq, Structural, Debug)]
pub enum SyntaxError {
    /// The parser rejected the text.
    Rejected,
    /// Inline modules nest deeper than the budget allows.
    TooDeep,
}

/// The kinds of item that discovery tells apart.
pub enum ItemShape<'a> {
    Function(&'a syn::ItemFn),
    Module(&'a syn::ItemMod),
    Other,
}

/// What a file of the parser holds: its items.
pub uninterp spec fn file_held(file: syn::File) -> Seq<ItemModel>;

/// What an item of the parser holds, as far as discovery reads it.
pub uninterp spec fn item_held(item: syn::Item) -> ItemModel;

/// What a function of the parser holds: its name and its attributes.
pub uninterp spec fn function_held(function: syn::ItemFn) -> ItemModel;

/// What a module of the parser holds: its name and, where it is inline, its
/// items.
pub uninterp spec fn module_held(module: syn::ItemMod) -> ItemModel;

/// What an attribute of the parser holds: its name and its arguments.
pub uninterp spec fn attribute_held(attribute: syn::Attribute) -> AnnotationModel;

/// What a list of the parser's items holds.
pub open spec fn items_held(items: Seq<syn::Item>) -> Seq<ItemModel> {
    Seq::new(items.len(), |i: int| item_held(items[i]))
}

/// What a list of the parser's attributes holds.
pub open spec fn attributes_held(attributes: Seq<syn::Attribute>) -> Seq<AnnotationModel> {
    Seq::new(attributes.len(), |i: int| attribute_held(attributes[i]))
}

/// What the shape of an item holds.
pub open spec fn shape_held(shape: ItemShape) -> ItemModel {
    match shape {
        ItemShape::Function(function) => function_held(*function),
        ItemShape::Module(module) => module_held(*module),
        ItemShape::Other => ItemModel::Other,
    }
}

/// What the body of a module holds.
pub open spec fn body_held(body: Option<&Vec<syn::Item>>) -> Option<Seq<ItemModel>> {
    match body {
        Some(items) => Some(items_held(items@)),
        None => None,
    }
}

/// The name of a function.
pub open spec fn function_name_in(item: ItemModel) -> Option<Seq<char>> {
    match item {
        ItemModel::Function { name, attributes } => Some(name),
        _ => None,
    }
}

/// The name of a module.
pub open spec fn module_name_in(item: ItemModel) -> Option<Seq<char>> {
    match item {
        ItemModel::Module { name, body } => Some(name),
        _ => None,
    }
}

/// The attributes of a function.
pub open spec fn attributes_in(item: ItemModel) -> Seq<AnnotationModel> {
    match item {
        ItemModel::Function { name, attributes } => attributes,
        _ => Seq::empty(),
    }
}

/// The items of an inline module.
pub open spec fn body_in(item: ItemModel) -> Option<Seq<ItemModel>> {
    match item {
        ItemModel::Module { name, body } => body,
        _ => None,
    }
}

/// Reads the field `items` of a `syn::File`: the items that the file holds,
/// in their order.
#[verifier::external_body]
fn file_items(file: &syn::File) -> (items: &Vec<syn::Item>)
    ensures
        items_held(items@) == file_held(*file),
{
    &file.items
}

/// Tells the variants `Fn` and `Mod` of a `syn::Item` from the others and
/// hands out what the variant holds: an item holds what its function or its
/// module holds, and nothing that discovery reads where it is neither.
#[verifier::external_body]
fn item_shape(item: &syn::Item) -> (shape: ItemShape<'_>)
    ensures
        shape_held(shape) == item_held(*item),
{
    match item {
        syn::Item::Fn(function) => ItemShape::Function(function),
        syn::Item::Mod(module) => ItemShape::Module(module),
        _ => ItemShape::Other,
    }
}

/// Reads the identifier in the signature of a `syn::ItemFn` as text: the name
/// that the function holds.
#[verifier::external_body]
fn function_name(function: &syn::ItemFn) -> (name: String)
    ensures
        Some(name@) == function_name_in(function_held(*function)),
{
    function.sig.ident.to_string()
}

/// Reads the field `attrs` of a `syn::ItemFn`: the attributes that the
/// function holds, in their order.
#[verifier::external_body]
fn function_attributes(function: &syn::ItemFn) -> (attributes: &Vec<syn::Attribute>)
    ensures
        attributes_held(attributes@) == attributes_in(function_held(*function)),
{
    &function.attrs
}

/// Calls `syn::Path::get_ident` on the path of an attribute: the name as text
/// where the path is a single identifier, else nothing. That is the name that
/// the attribute holds.
#[verifier::external_body]
fn attribute_name(attribute: &syn::Attribute) -> (name: Option<String>)
    ensures
        name.deep_view() == attribute_held(*attribute).name,
{
    attribute.path.get_ident().map(|ident| ident.to_string())
}

/// Calls `syn::Attribute::parse_args` for a token stream: the tokens between
/// the attribute's delimiters as text, or nothing where it has no delimiters.
/// Those are the arguments that the attribute holds.
#[verifier::external_body]
fn attribute_arguments(attribute: &syn::Attribute) -> (arguments: Option<String>)
    ensures
        arguments.deep_view() == attribute_held(*attribute).arguments,
{
    attribute.parse_args::<proc_macro2::TokenStream>().ok().map(|tokens| tokens.to_string())
}

/// Reads the identifier of a `syn::ItemMod` as text: the name that the module
/// holds.
#[verifier::external_body]
fn module_name(module: &syn::ItemMod) -> (name: String)
    ensures
        Some(name@) == module_name_in(module_held(*module)),
{
    module.ident.to_string()
}

/// Reads the field `content` of a `syn::ItemMod`: the items of an inline
/// module, nothing for an external one. That is the body that the module
/// holds.
#[verifier::external_body]
fn module_body(module: &syn::ItemMod) -> (body: Option<&Vec<syn::Item>>)
    ensures
        body_held(body) == body_in(module_held(*module)),
{
    module.content.as_ref().map(|content| &content.1)
}

/// How deep inline modules nest in a list of items.
pub open spec fn nesting_of(items: Seq<ItemModel>) -> nat
    decreases items,
{
    if items.len() == 0 {
        0
    } else {
        let before = nesting_of(items.drop_last());
        let last = nesting_of_item(items.last());
        if before >= last {
            before
        } else {
            last
        }
    }
}

/// How deep inline modules nest in one item.
pub open spec fn nesting_of_item(item: ItemModel) -> nat
    decreases item,
{
    match item {
        ItemModel::Module { name, body: Some(body) } => 1 + nesting_of(body),
        _ => 0,
    }
}

/// What a list of items holds as far as the budget reaches: the items, with
/// all that is inline below them, where inline modules nest no deeper than the
/// budget, and nothing where they nest deeper.
pub open spec fn lowered_of(items: Seq<ItemModel>, budget: nat) -> Option<Seq<ItemModel>> {
    if nesting_of(items) <= budget {
        Some(items)
    } else {
        None
    }
}

/// A list nests at least as deep as each of its items and as each of its
/// beginnings.
pub proof fn lemma_nesting_grows(items: Seq<ItemModel>, index: int)
    requires
        0 <= index < items.len(),
    ensures
        nesting_of_item(items[index]) <= nesting_of(items),
        nesting_of(items.take(index)) <= nesting_of(items),
    decreases items.len(),
{
    if index < items.len() - 1 {
        lemma_nesting_grows(items.drop_last(), index);
        assert(items.drop_last()[index] == items[index]);
        assert(items.drop_last().take(index) =~= items.take(index));
    } else {
        assert(items.take(index) =~= items.drop_last());
    }
}

/// Carries a list of the parser's attributes over, one for one.
pub fn lower_attributes(attributes: &Vec<syn::Attribute>) -> (lowered: Vec<Annotation>)
    ensures
        lowered.deep_view() == attributes_held(attributes@),
{
    let mut lowered: Vec<Annotation> = Vec::new();
    let mut index: usize = 0;
    while index < attributes.len()
        invariant
            index <= attributes.len(),
            lowered.deep_view() == attributes_held(attributes@).take(index as int),
        decreases attributes.len() - index,
    {
        let attribute = &attributes[index];
        let ghost before = lowered;
        let annotation = Annotation {
            name: attribute_name(attribute),
            arguments: attribute_arguments(attribute),
        };
        lowered.push(annotation);
        proof {
            lemma_push_view(before, lowered, annotation);
            assert(lowered.deep_view() =~= attributes_held(attributes@).take(index as int + 1));
        }
        index = index + 1;
    }
    assert(attributes_held(attributes@).take(index as int) =~= attributes_held(attributes@));
    lowered
}

/// Carries a list of the parser's items over, one for one and with all that
/// is inline below them, as long as inline modules nest no deeper than the
/// budget.
fn lower_items(items: &Vec<syn::Item>, budget: usize) -> (lowered: Option<Vec<SourceItem>>)
    ensures
        match lowered {
            Some(list) => Some(items_model(list@)),
            None => None,
        } == lowered_of(items_held(items@), budget as nat),
    decreases budget,
{
    let ghost held = items_held(items@);
    let mut lowered: Vec<SourceItem> = Vec::new();
    let mut index: usize = 0;
    assert(held.take(0) =~= Seq::empty());
    while index < items.len()
        invariant
            index <= items.len(),
            held == items_held(items@),
            items_model(lowered@) == held.take(index as int),
            nesting_of(held.take(index as int)) <= budget,
        decreases items.len() - index,
    {
        let ghost this = held[index as int];
        proof {
            lemma_nesting_grows(held, index as int);
        }
        let item = match item_shape(&items[index]) {
            ItemShape::Function(function) => SourceItem::Function {
                name: function_name(function),
                attributes: lower_attributes(function_attributes(function)),
            },
            ItemShape::Module(module) => {
                let body = match module_body(module) {
                    Some(inner) => {
                        if budget == 0 {
                            assert(nesting_of_item(this) > budget);
                            return None;
                        }
                        match lower_items(inner, budget - 1) {
                            Some(body) => Some(body),
                            None => {
                                assert(nesting_of_item(this) > budget);
                                return None;
                            },
                        }
                    },
                    None => None,
                };
                SourceItem::Module { name: module_name(module), body }
            },
            ItemShape::Other => SourceItem::Other,
        };
        let ghost before = lowered@;
        assert(item_model(item) == this);
        assert(nesting_of_item(this) <= budget);
        lowered.push(item);
        proof {
            let upto = held.take(index as int + 1);
            assert(lowered@.drop_last() =~= before);
            assert(lowered@.last() == item);
            assert(upto.drop_last() =~= held.take(index as int));
            assert(upto.last() == this);
            assert(items_model(lowered@) =~= upto);
        }
        index = index + 1;
    }
    assert(held.take(index as int) =~= held);
    Some(lowered)
}

/// What becomes of what the parser made of a text: a text that the parser
/// rejected is rejected, and a file is carried over as far as the budget
/// reaches.
pub open spec fn source_of(parsed: Result<syn::File, syn::Error>, budget: nat) -> Result<
    Seq<ItemModel>,
    SyntaxError,
> {
    match parsed {
        Ok(file) => match lowered_of(file_held(file), budget) {
            Some(items) => Ok(items),
            None => Err(SyntaxError::TooDeep),
        },
        Err(_) => Err(SyntaxError::Rejected),
    }
}

/// Carries over what the parser made of a text: the declarations of a file,
/// or the error where the parser rejected the text or where inline modules
/// nest deeper than the budget. With the length of the text as the budget the
/// second error does not come: no tree that the parser makes of a text nests
/// deeper than the text has bytes.
pub fn source_from(parsed: Result<syn::File, syn::Error>, budget: usize) -> (lowered: Result<
    Vec<SourceItem>,
    SyntaxError,
>)
    ensures
        match lowered {
            Ok(items) => Ok(items_model(items@)),
            Err(error) => Err(error),
        } == source_of(parsed, budget as nat),
{
    match parsed {
        Ok(file) => match lower_items(file_items(&file), budget) {
            Some(items) => Ok(items),
            None => Err(SyntaxError::TooDeep),
        },
        Err(_) => Err(SyntaxError::Rejected),
    }
}

} // verus!
