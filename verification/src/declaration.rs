//! Discovered declarations and the registrations emitted for them.

use vstd::prelude::*;
use crate::symbol::{symbol_text, SymbolPath};
use crate::text::lemma_push_view;

verus! {

/// A marked function that a scan found.
pub struct DiscoveredDeclaration {
    /// The function's fully qualified path.
    pub path: SymbolPath,
    /// The scheduling stage that the marker names, where it names one.
    pub stage: Option<String>,
}

/// What a [`DiscoveredDeclaration`] stands for.
pub struct DeclarationModel {
    pub path: Seq<Seq<char>>,
    pub stage: Option<Seq<char>>,
}

impl View for DiscoveredDeclaration {
    type V = DeclarationModel;

    open spec fn view(&self) -> DeclarationModel {
        DeclarationModel { path: self.path@, stage: self.stage.deep_view() }
    }
}

impl DeepView for DiscoveredDeclaration {
    type V = DeclarationModel;

    open spec fn deep_view(&self) -> DeclarationModel {
        self.view()
    }
}

/// One operation of the output sequence: register the function at `path`, in
/// `stage` where one is given.
pub struct Registration {
    pub path: String,
    pub stage: Option<String>,
}

/// What a [`Registration`] stands for.
pub struct RegistrationModel {
    pub path: Seq<char>,
    pub stage: Option<Seq<char>>,
}

impl View for Registration {
    type V = RegistrationModel;

    open spec fn view(&self) -> RegistrationModel {
        RegistrationModel { path: self.path@, stage: self.stage.deep_view() }
    }
}

impl DeepView for Registration {
    type V = RegistrationModel;

    open spec fn deep_view(&self) -> RegistrationModel {
        self.view()
    }
}

/// The registration of one declaration: its path as text, its stage as it is.
pub open spec fn registration_of(declaration: DeclarationModel) -> RegistrationModel {
    RegistrationModel { path: symbol_text(declaration.path), stage: declaration.stage }
}

/// The registrations of a list of declarations, one for each and in their
/// order.
pub open spec fn registrations_of(declarations: Seq<DeclarationModel>) -> Seq<RegistrationModel> {
    Seq::new(declarations.len(), |i: int| registration_of(declarations[i]))
}

/// A copy of an optional text.
pub fn copy_optional(text: &Option<String>) -> (copy: Option<String>)
    ensures
        copy.deep_view() == text.deep_view(),
{
    match text {
        Some(text) => Some(text.clone()),
        None => None,
    }
}

impl DiscoveredDeclaration {
    /// A copy of the declaration.
    pub fn copy(&self) -> (declaration: DiscoveredDeclaration)
        ensures
            declaration@ == self@,
    {
        DiscoveredDeclaration { path: self.path.copy(), stage: copy_optional(&self.stage) }
    }

    /// The registration of this declaration.
    pub fn register(&self) -> (registration: Registration)
        ensures
            registration@ == registration_of(self@),
    {
        Registration { path: self.path.to_text(), stage: copy_optional(&self.stage) }
    }
}

/// Appends the registration of every declaration, in order, to the output
/// sequence. Nothing is left out and nothing is merged: a path that occurs
/// twice is registered twice.
pub fn emit(output: &mut Vec<Registration>, declarations: &Vec<DiscoveredDeclaration>)
    ensures
        final(output).deep_view() == old(output).deep_view() + registrations_of(
            declarations.deep_view(),
        ),
{
    let mut index: usize = 0;
    while index < declarations.len()
        invariant
            index <= declarations.len(),
            output.deep_view() == old(output).deep_view() + registrations_of(
                declarations.deep_view(),
            ).take(index as int),
        decreases declarations.len() - index,
    {
        let ghost before = *output;
        let registration = declarations[index].register();
        output.push(registration);
        proof {
            lemma_push_view(before, *output, registration);
            assert(output.deep_view() =~= old(output).deep_view() + registrations_of(
                declarations.deep_view(),
            ).take(index as int + 1));
        }
        index = index + 1;
    }
    assert(registrations_of(declarations.deep_view()).take(index as int) =~= registrations_of(
        declarations.deep_view(),
    ));
}

} // verus!
