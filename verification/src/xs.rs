//! The content of an XML Schema document, as far as the loader and the node cache read it.

use vstd::prelude::*;

use crate::models::QName;
use crate::text::opt_text;

verus! {

/// The root element of a schema document.
#[derive(Debug)]
pub struct Schema {
    pub target_namespace: Option<String>,
    pub content: Vec<SchemaContent>,
}

/// What a schema holds: its target namespace and its content.
pub struct SchemaView {
    pub target: Option<Seq<char>>,
    pub content: Seq<SchemaContent>,
}

impl View for Schema {
    type V = SchemaView;

    open spec fn view(&self) -> SchemaView {
        SchemaView { target: opt_text(self.target_namespace), content: self.content@ }
    }
}

impl DeepView for Schema {
    type V = SchemaView;

    open spec fn deep_view(&self) -> SchemaView {
        self@
    }
}

#[derive(Debug)]
pub enum SchemaContent {
    Include(Include),
    Import(Import),
    Redefine(Redefine),
    Override(Override),
    Annotation,
    DefaultOpenContent,
    SimpleType(SimpleBaseType),
    ComplexType(ComplexBaseType),
    Group(GroupType),
    AttributeGroup(AttributeGroupType),
    Element(ElementType),
    Attribute(AttributeType),
    Notation,
}

#[derive(Debug)]
pub struct Include {
    pub schema_location: String,
}

#[derive(Debug)]
pub struct Import {
    pub namespace: Option<String>,
    pub schema_location: Option<String>,
}

#[derive(Debug)]
pub struct Redefine {
    pub schema_location: String,
    pub content: Vec<RedefineContent>,
}

#[derive(Debug)]
pub enum RedefineContent {
    Annotation,
    SimpleType(SimpleBaseType),
    ComplexType(ComplexBaseType),
    Group(GroupType),
    AttributeGroup(AttributeGroupType),
}

#[derive(Debug)]
pub struct Override {
    pub schema_location: String,
    pub content: Vec<OverrideContent>,
}

#[derive(Debug)]
pub enum OverrideContent {
    Annotation,
    SimpleType(SimpleBaseType),
    ComplexType(ComplexBaseType),
    Group(GroupType),
    AttributeGroup(AttributeGroupType),
    Element(ElementType),
    Attribute(AttributeType),
    Notation,
}

/// An element, either declared or referred to. `id` tells it apart from the other nodes of its
/// document.
#[derive(Debug)]
pub struct ElementType {
    pub id: usize,
    pub name: Option<String>,
    pub ref_: Option<QName>,
    pub type_: Option<QName>,
    pub substitution_group: Option<Vec<QName>>,
    pub content: Vec<ElementTypeContent>,
}

#[derive(Debug)]
pub enum ElementTypeContent {
    Annotation,
    SimpleType(SimpleBaseType),
    ComplexType(ComplexBaseType),
    Alternative,
    Unique,
    Key,
    Keyref,
}

/// An attribute, either declared or referred to.
#[derive(Debug)]
pub struct AttributeType {
    pub name: Option<String>,
    pub ref_: Option<QName>,
    pub type_: Option<QName>,
    pub simple_type: Option<SimpleBaseType>,
}

/// A simple type. `id` tells it apart from the other nodes of its document.
#[derive(Debug)]
pub struct SimpleBaseType {
    pub id: usize,
    pub name: Option<String>,
    pub content: Vec<SimpleBaseTypeContent>,
}

#[derive(Debug)]
pub enum SimpleBaseTypeContent {
    Annotation,
    Restriction(Restriction),
    List(List),
    Union(Union),
}

#[derive(Debug)]
pub struct Restriction {
    pub base: Option<QName>,
    pub content: Vec<RestrictionContent>,
}

#[derive(Debug)]
pub enum RestrictionContent {
    Annotation,
    SimpleType(SimpleBaseType),
    Facet,
}

#[derive(Debug)]
pub struct List {
    pub item_type: Option<QName>,
    pub simple_type: Option<Box<SimpleBaseType>>,
}

#[derive(Debug)]
pub struct Union {
    pub member_types: Option<Vec<QName>>,
    pub simple_type: Vec<SimpleBaseType>,
}

#[derive(Debug)]
pub struct ComplexBaseType {
    pub name: Option<String>,
    pub content: Vec<ComplexBaseTypeContent>,
}

#[derive(Debug)]
pub enum ComplexBaseTypeContent {
    Annotation,
    SimpleContent(SimpleContent),
    ComplexContent(ComplexContent),
    OpenContent,
    Group(GroupType),
    All(GroupType),
    Choice(GroupType),
    Sequence(GroupType),
    Attribute(AttributeType),
    AttributeGroup(AttributeGroupType),
    AnyAttribute,
    Assert,
}

#[derive(Debug)]
pub struct SimpleContent {
    pub content: Vec<SimpleContentContent>,
}

#[derive(Debug)]
pub enum SimpleContentContent {
    Annotation,
    Restriction(RestrictionType),
    Extension(ExtensionType),
}

#[derive(Debug)]
pub struct ComplexContent {
    pub content: Vec<ComplexContentContent>,
}

#[derive(Debug)]
pub enum ComplexContentContent {
    Annotation,
    Restriction(RestrictionType),
    Extension(ExtensionType),
}

#[derive(Debug)]
pub struct RestrictionType {
    pub base: QName,
    pub content: Vec<RestrictionTypeContent>,
}

#[derive(Debug)]
pub enum RestrictionTypeContent {
    Annotation,
    OpenContent,
    Group(GroupType),
    All(GroupType),
    Choice(GroupType),
    Sequence(GroupType),
    SimpleType(SimpleBaseType),
    Facet,
    Attribute(AttributeType),
    AttributeGroup(AttributeGroupType),
    AnyAttribute,
    Assert,
}

#[derive(Debug)]
pub struct ExtensionType {
    pub base: QName,
    pub content: Vec<ExtensionTypeContent>,
}

#[derive(Debug)]
pub enum ExtensionTypeContent {
    Annotation,
    OpenContent,
    Group(GroupType),
    All(GroupType),
    Choice(GroupType),
    Sequence(GroupType),
    Attribute(AttributeType),
    AttributeGroup(AttributeGroupType),
    AnyAttribute,
    Assert,
}

#[derive(Debug)]
pub struct GroupType {
    pub name: Option<String>,
    pub ref_: Option<QName>,
    pub content: Vec<GroupTypeContent>,
}

#[derive(Debug)]
pub enum GroupTypeContent {
    Annotation,
    Element(ElementType),
    Group(GroupType),
    All(GroupType),
    Choice(GroupType),
    Sequence(GroupType),
    Any,
}

#[derive(Debug)]
pub struct AttributeGroupType {
    pub name: Option<String>,
    pub ref_: Option<QName>,
    pub content: Vec<AttributeGroupTypeContent>,
}

#[derive(Debug)]
pub enum AttributeGroupTypeContent {
    Annotation,
    Attribute(AttributeType),
    AttributeGroup(AttributeGroupType),
    AnyAttribute,
}

} // verus!
