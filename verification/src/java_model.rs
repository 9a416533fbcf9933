//! The hierarchical namespace being edited: packages holding declarations,
//! declarations holding members.

use vstd::prelude::*;

pub mod package;

pub use package::Package;

verus! {

/// Why a namespace mutation was refused.
#[derive(Debug, Clone, Copy, PartialEq, Eq, Structural)]
pub enum NamespaceError {
    DuplicateDeclaration,
    DeclarationNotFound,
}

/// An access modifier on a declaration or member.
#[derive(Debug, Clone, Copy, PartialEq, Eq, Structural)]
pub enum Modifier {
    Public,
    Protected,
    Private,
}

/// What kind of member a class member is.
#[derive(Debug, Clone, Copy, PartialEq, Eq, Structural)]
pub enum MemberType {
    Variable,
    Method,
    Constructor,
}

/// A field, containing modifiers, a name, and a type.
#[derive(Debug, Clone, PartialEq, Eq)]
pub struct Field {
    pub modifiers: Vec<Modifier>,
    pub field_type: String,
    pub name: String,
}

/// One member of a class.
#[derive(Debug, Clone, PartialEq, Eq)]
pub enum ClassMember {
    Field(Field),
}

/// A class declaration.
#[derive(Debug, PartialEq, Eq)]
pub struct Class {
    pub name: String,
    pub type_params: Vec<String>,
    pub implements: Vec<String>,
    pub extends: String,
    pub members: Vec<ClassMember>,
    pub inner_classes: Vec<Class>,
    pub modifiers: Vec<Modifier>,
}

impl Class {
    pub fn new_empty() -> (r: Class)
        ensures
            r.name@ == Seq::<char>::empty(),
            r.type_params@ == Seq::<String>::empty(),
            r.implements@ == Seq::<String>::empty(),
            r.extends@ == Seq::<char>::empty(),
            r.members@ == Seq::<ClassMember>::empty(),
            r.inner_classes@ == Seq::<Class>::empty(),
            r.modifiers@ == Seq::<Modifier>::empty(),
    {
        Class {
            name: String::new(),
            type_params: Vec::new(),
            implements: Vec::new(),
            extends: String::new(),
            members: Vec::new(),
            inner_classes: Vec::new(),
            modifiers: Vec::new(),
        }
    }

    pub fn new_with_name(name: &str) -> (r: Class)
        ensures
            r.name@ == name@,
            r.type_params@ == Seq::<String>::empty(),
            r.implements@ == Seq::<String>::empty(),
            r.extends@ == Seq::<char>::empty(),
            r.members@ == Seq::<ClassMember>::empty(),
            r.inner_classes@ == Seq::<Class>::empty(),
            r.modifiers@ == Seq::<Modifier>::empty(),
    {
        let mut c = Class::new_empty();
        c.name = name.to_owned();
        c
    }
}

/// A declaration a package can hold.
#[derive(Debug, PartialEq, Eq)]
pub enum Declaration {
    Class(Class),
}

impl Declaration {
    /// The declaration's name, as a specification value.
    pub open spec fn spec_name(&self) -> Seq<char> {
        match self {
            Declaration::Class(c) => c.name@,
        }
    }

    pub fn name(&self) -> (r: &str)
        ensures
            r@ == self.spec_name(),
    {
        match self {
            Declaration::Class(c) => c.name.as_str(),
        }
    }
}

} // verus!
