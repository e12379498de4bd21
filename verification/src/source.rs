//! The declarations of a source file, as far as discovery reads them.

use vstd::prelude::*;

verus! {

/// An attribute on a declaration.
pub struct Annotation {
    /// The attribute's name, where its path is a single identifier.
    pub name: Option<String>,
    /// The tokens between the attribute's delimiters, where it has delimiters.
    pub arguments: Option<String>,
}

/// A declaration at some nesting level of a source file.
pub enum SourceItem {
    /// A function with its attributes, in source order.
    Function { name: String, attributes: Vec<Annotation> },
    /// A module: inline where it has a body, external where it has none.
    Module { name: String, body: Option<Vec<SourceItem>> },
    /// Any other declaration.
    Other,
}

/// What an [`Annotation`] stands for.
pub struct AnnotationModel {
    pub name: Option<Seq<char>>,
    pub arguments: Option<Seq<char>>,
}

/// What a [`SourceItem`] stands for.
pub enum ItemModel {
    Function { name: Seq<char>, attributes: Seq<AnnotationModel> },
    Module { name: Seq<char>, body: Option<Seq<ItemModel>> },
    Other,
}

impl View for Annotation {
    type V = AnnotationModel;

    open spec fn view(&self) -> AnnotationModel {
        AnnotationModel { name: self.name.deep_view(), arguments: self.arguments.deep_view() }
    }
}

impl DeepView for Annotation {
    type V = AnnotationModel;

    open spec fn deep_view(&self) -> AnnotationModel {
        self.view()
    }
}

/// What a list of items stands for.
pub open spec fn items_model(items: Seq<SourceItem>) -> Seq<ItemModel>
    decreases items,
{
    if items.len() == 0 {
        Seq::empty()
    } else {
        items_model(items.drop_last()).push(item_model(items.last()))
    }
}

/// What an item stands for.
pub open spec fn item_model(item: SourceItem) -> ItemModel
    decreases item,
{
    match item {
        SourceItem::Function { name, attributes } => ItemModel::Function {
            name: name@,
            attributes: attributes.deep_view(),
        },
        SourceItem::Module { name, body: Some(items) } => ItemModel::Module {
            name: name@,
            body: Some(items_model(items@)),
        },
        SourceItem::Module { name, body: None } => ItemModel::Module { name: name@, body: None },
        SourceItem::Other => ItemModel::Other,
    }
}

} // verus!
