//! What the definitions of a schema refer to.
//!
//! A definition is read as a sequence of steps, in document order. A step either refers to
//! something by name, or defines something in place, which then has steps of its own.

use vstd::prelude::*;

use crate::ident::IdentType;
use crate::models::{local_part, NamespaceId, QName, QNameView};
use crate::text::opt_text;
use crate::xs::{
    AttributeGroupType, AttributeGroupTypeContent, AttributeType, ComplexBaseType,
    ComplexBaseTypeContent, ComplexContent, ComplexContentContent, ElementType, ElementTypeContent,
    ExtensionType, ExtensionTypeContent, GroupType, GroupTypeContent, List, Restriction,
    RestrictionContent, RestrictionType, RestrictionTypeContent, SimpleBaseType,
    SimpleBaseTypeContent, SimpleContent, SimpleContentContent, Union,
};

verus! {

/// How strongly a definition depends on another one.
#[derive(Debug, Clone, Copy, PartialEq, Eq, Structural)]
pub enum Strength {
    /// The other definition has to be known first.
    Strong,
    /// The other definition is referred to.
    Weak,
    /// The other definition is looked up when it is needed.
    Lazy,
}

/// The kinds of groups that a definition can stand in.
pub enum Marker {
    Group,
    AttributeGroup,
}

/// The schema node of a definition.
pub enum NodeView {
    Element(ElementType),
    Attribute(AttributeType),
    SimpleType(SimpleBaseType),
    ComplexType(ComplexBaseType),
    Group(GroupType),
    AttributeGroup(AttributeGroupType),
}

/// How a definition refers to another one: by name, or by holding its node.
pub enum DependencyKeyView {
    Named(NamespaceId, IdentType, Seq<char>),
    InlineSimpleType(usize),
    InlineElement(usize),
}

/// Where the name of a definition in place comes from.
pub enum Naming {
    /// The item type of a list.
    Item { own: Option<Seq<char>>, item: Option<Seq<u8>> },
    /// A member of a union.
    Member { own: Option<Seq<char>> },
    /// The type of an attribute.
    OfAttribute { attribute: Option<Seq<char>>, own: Option<Seq<char>> },
    /// An element.
    OfElement { own: Option<Seq<char>> },
}

/// One step of a definition.
pub enum Step {
    Reference { kind: IdentType, name: QNameView, strength: Strength },
    Within { marker: Marker, body: Seq<Step> },
    Inline { node: NodeView, naming: Naming, key: DependencyKeyView, body: Seq<Step> },
}

/// The step of a reference.
pub open spec fn reference(kind: IdentType, name: QName, strength: Strength) -> Step {
    Step::Reference { kind, name: name@, strength }
}

/// The step of a reference that may be absent.
pub open spec fn opt_reference(kind: IdentType, name: Option<QName>, strength: Strength) -> Seq<
    Step,
> {
    match name {
        Some(name) => seq![reference(kind, name, strength)],
        None => Seq::empty(),
    }
}

/// The steps of a list of references.
pub open spec fn references(kind: IdentType, names: Seq<QName>, strength: Strength) -> Seq<Step> {
    Seq::new(names.len(), |i: int| reference(kind, names[i], strength))
}

/// The steps of a list of references that may be absent.
pub open spec fn opt_references(
    kind: IdentType,
    names: Option<Vec<QName>>,
    strength: Strength,
) -> Seq<Step> {
    match names {
        Some(names) => references(kind, names@, strength),
        None => Seq::empty(),
    }
}

/// The local part of a name that may be absent.
pub open spec fn opt_local(name: Option<QName>) -> Option<Seq<u8>> {
    match name {
        Some(name) => Some(local_part(name@.raw)),
        None => None,
    }
}

/// The steps of a declared element.
pub open spec fn element_steps(ty: ElementType) -> Seq<Step>
    decreases ty, 0nat,
{
    opt_reference(IdentType::Type, ty.type_, Strength::Weak) + opt_references(
        IdentType::Element,
        ty.substitution_group,
        Strength::Strong,
    ) + element_content_steps(ty.content@, ty.content@.len())
}

/// The steps of the first `n` parts.
pub open spec fn element_content_steps(content: Seq<ElementTypeContent>, n: nat) -> Seq<Step>
    decreases content, n,
{
    if n == 0 || n > content.len() {
        Seq::empty()
    } else {
        element_content_steps(content, (n - 1) as nat) + element_content_item(content[n - 1])
    }
}

/// The steps of one of these parts.
pub open spec fn element_content_item(c: ElementTypeContent) -> Seq<Step>
    decreases c, 0nat,
{
    match c {
        ElementTypeContent::SimpleType(x) => simple_type_steps(x),
        ElementTypeContent::ComplexType(x) => complex_type_steps(x),
        _ => Seq::empty(),
    }
}

/// The steps of a declared attribute.
pub open spec fn attribute_steps(ty: AttributeType) -> Seq<Step>
    decreases ty, 1nat,
{
    opt_reference(IdentType::Type, ty.type_, Strength::Weak) + attribute_type_steps(ty)
}

/// The steps of the type that a declared attribute holds.
pub open spec fn attribute_type_steps(ty: AttributeType) -> Seq<Step>
    decreases ty, 0nat,
{
    match ty.simple_type {
        Some(x) => simple_type_steps(x),
        None => Seq::empty(),
    }
}

/// The steps of a simple type.
pub open spec fn simple_type_steps(ty: SimpleBaseType) -> Seq<Step>
    decreases ty, 0nat,
{
    simple_type_content_steps(ty.content@, ty.content@.len())
}

/// The steps of the first `n` parts.
pub open spec fn simple_type_content_steps(content: Seq<SimpleBaseTypeContent>, n: nat) -> Seq<Step>
    decreases content, n,
{
    if n == 0 || n > content.len() {
        Seq::empty()
    } else {
        simple_type_content_steps(content, (n - 1) as nat) + simple_type_content_item(
            content[n - 1],
        )
    }
}

/// The steps of one of these parts.
pub open spec fn simple_type_content_item(c: SimpleBaseTypeContent) -> Seq<Step>
    decreases c, 0nat,
{
    match c {
        SimpleBaseTypeContent::List(x) => list_steps(x),
        SimpleBaseTypeContent::Union(x) => union_steps(x),
        SimpleBaseTypeContent::Restriction(x) => simple_restriction_steps(x),
        SimpleBaseTypeContent::Annotation => Seq::empty(),
    }
}

/// The steps of a restriction of a simple type.
pub open spec fn simple_restriction_steps(ty: Restriction) -> Seq<Step>
    decreases ty, 0nat,
{
    opt_reference(IdentType::Type, ty.base, Strength::Strong) + simple_restriction_content_steps(
        ty.content@,
        ty.content@.len(),
    )
}

/// The steps of the first `n` parts.
pub open spec fn simple_restriction_content_steps(
    content: Seq<RestrictionContent>,
    n: nat,
) -> Seq<Step>
    decreases content, n,
{
    if n == 0 || n > content.len() {
        Seq::empty()
    } else {
        simple_restriction_content_steps(content, (n - 1) as nat) + simple_restriction_content_item(
            content[n - 1],
        )
    }
}

/// The steps of one of these parts.
pub open spec fn simple_restriction_content_item(c: RestrictionContent) -> Seq<Step>
    decreases c, 0nat,
{
    match c {
        RestrictionContent::SimpleType(x) => simple_type_steps(x),
        _ => Seq::empty(),
    }
}

/// The step of a simple type that is defined in place.
pub open spec fn inline_simple_type(x: SimpleBaseType, naming: Naming) -> Step
    decreases x, 1nat,
{
    Step::Inline {
        node: NodeView::SimpleType(x),
        naming,
        key: DependencyKeyView::InlineSimpleType(x.id),
        body: simple_type_steps(x),
    }
}

/// How the item type of a list is named.
pub open spec fn item_naming(ty: List, x: SimpleBaseType) -> Naming {
    Naming::Item { own: opt_text(x.name), item: opt_local(ty.item_type) }
}

/// The steps of a list.
pub open spec fn list_steps(ty: List) -> Seq<Step>
    decreases ty, 1nat,
{
    opt_reference(IdentType::Type, ty.item_type, Strength::Weak) + list_type_steps(ty)
}

/// The steps of the item type that a list holds.
pub open spec fn list_type_steps(ty: List) -> Seq<Step>
    decreases ty, 0nat,
{
    match ty.simple_type {
        Some(x) => seq![inline_simple_type(*x, item_naming(ty, *x))],
        None => Seq::empty(),
    }
}

/// The steps of a union.
pub open spec fn union_steps(ty: Union) -> Seq<Step>
    decreases ty, 0nat,
{
    opt_references(IdentType::Type, ty.member_types, Strength::Weak) + union_member_steps(
        ty.simple_type@,
        ty.simple_type@.len(),
    )
}

/// The steps of the first `n` parts.
pub open spec fn union_member_steps(content: Seq<SimpleBaseType>, n: nat) -> Seq<Step>
    decreases content, n,
{
    if n == 0 || n > content.len() {
        Seq::empty()
    } else {
        union_member_steps(content, (n - 1) as nat) + union_member_item(content[n - 1])
    }
}

/// The steps of one of these parts.
pub open spec fn union_member_item(c: SimpleBaseType) -> Seq<Step>
    decreases c, 3nat,
{
    seq![
        inline_simple_type(c, Naming::Member { own: opt_text(c.name) }),
    ]
}

/// The steps of a complex type.
pub open spec fn complex_type_steps(ty: ComplexBaseType) -> Seq<Step>
    decreases ty, 0nat,
{
    complex_type_content_steps(ty.content@, ty.content@.len())
}

/// The steps of the first `n` parts.
pub open spec fn complex_type_content_steps(
    content: Seq<ComplexBaseTypeContent>,
    n: nat,
) -> Seq<Step>
    decreases content, n,
{
    if n == 0 || n > content.len() {
        Seq::empty()
    } else {
        complex_type_content_steps(content, (n - 1) as nat) + complex_type_content_item(
            content[n - 1],
        )
    }
}

/// The steps of one of these parts.
pub open spec fn complex_type_content_item(c: ComplexBaseTypeContent) -> Seq<Step>
    decreases c, 0nat,
{
    match c {
        ComplexBaseTypeContent::SimpleContent(x) => simple_content_steps(x),
        ComplexBaseTypeContent::ComplexContent(x) => complex_content_steps(x),
        ComplexBaseTypeContent::All(x) => group_content_steps(x),
        ComplexBaseTypeContent::Choice(x) => group_content_steps(x),
        ComplexBaseTypeContent::Sequence(x) => group_content_steps(x),
        ComplexBaseTypeContent::Attribute(x) => attribute_ref_steps(x),
        ComplexBaseTypeContent::Group(x) => group_ref_steps(x),
        ComplexBaseTypeContent::AttributeGroup(x) => attribute_group_ref_steps(x),
        _ => Seq::empty(),
    }
}

/// The steps of a simple content.
pub open spec fn simple_content_steps(ty: SimpleContent) -> Seq<Step>
    decreases ty, 0nat,
{
    simple_content_content_steps(ty.content@, ty.content@.len())
}

/// The steps of the first `n` parts.
pub open spec fn simple_content_content_steps(
    content: Seq<SimpleContentContent>,
    n: nat,
) -> Seq<Step>
    decreases content, n,
{
    if n == 0 || n > content.len() {
        Seq::empty()
    } else {
        simple_content_content_steps(content, (n - 1) as nat) + simple_content_content_item(
            content[n - 1],
        )
    }
}

/// The steps of one of these parts.
pub open spec fn simple_content_content_item(c: SimpleContentContent) -> Seq<Step>
    decreases c, 0nat,
{
    match c {
        SimpleContentContent::Restriction(x) => restriction_steps(x),
        SimpleContentContent::Extension(x) => extension_steps(x),
        SimpleContentContent::Annotation => Seq::empty(),
    }
}

/// The steps of a complex content.
pub open spec fn complex_content_steps(ty: ComplexContent) -> Seq<Step>
    decreases ty, 0nat,
{
    complex_content_content_steps(ty.content@, ty.content@.len())
}

/// The steps of the first `n` parts.
pub open spec fn complex_content_content_steps(
    content: Seq<ComplexContentContent>,
    n: nat,
) -> Seq<Step>
    decreases content, n,
{
    if n == 0 || n > content.len() {
        Seq::empty()
    } else {
        complex_content_content_steps(content, (n - 1) as nat) + complex_content_content_item(
            content[n - 1],
        )
    }
}

/// The steps of one of these parts.
pub open spec fn complex_content_content_item(c: ComplexContentContent) -> Seq<Step>
    decreases c, 0nat,
{
    match c {
        ComplexContentContent::Restriction(x) => restriction_steps(x),
        ComplexContentContent::Extension(x) => extension_steps(x),
        ComplexContentContent::Annotation => Seq::empty(),
    }
}

/// The steps of a restriction of a complex type.
pub open spec fn restriction_steps(ty: RestrictionType) -> Seq<Step>
    decreases ty, 0nat,
{
    seq![reference(IdentType::Type, ty.base, Strength::Strong)] + restriction_content_steps(
        ty.content@,
        ty.content@.len(),
    )
}

/// The steps of the first `n` parts.
pub open spec fn restriction_content_steps(
    content: Seq<RestrictionTypeContent>,
    n: nat,
) -> Seq<Step>
    decreases content, n,
{
    if n == 0 || n > content.len() {
        Seq::empty()
    } else {
        restriction_content_steps(content, (n - 1) as nat) + restriction_content_item(
            content[n - 1],
        )
    }
}

/// The steps of one of these parts.
pub open spec fn restriction_content_item(c: RestrictionTypeContent) -> Seq<Step>
    decreases c, 0nat,
{
    match c {
        RestrictionTypeContent::Group(x) => group_ref_steps(x),
        RestrictionTypeContent::All(x) => group_content_steps(x),
        RestrictionTypeContent::Choice(x) => group_content_steps(x),
        RestrictionTypeContent::Sequence(x) => group_content_steps(x),
        RestrictionTypeContent::SimpleType(x) => simple_type_steps(x),
        RestrictionTypeContent::Attribute(x) => attribute_ref_steps(x),
        RestrictionTypeContent::AttributeGroup(x) => attribute_group_ref_steps(x),
        _ => Seq::empty(),
    }
}

/// The steps of an extension of a complex type.
pub open spec fn extension_steps(ty: ExtensionType) -> Seq<Step>
    decreases ty, 0nat,
{
    seq![reference(IdentType::Type, ty.base, Strength::Strong)] + extension_content_steps(
        ty.content@,
        ty.content@.len(),
    )
}

/// The steps of the first `n` parts.
pub open spec fn extension_content_steps(content: Seq<ExtensionTypeContent>, n: nat) -> Seq<Step>
    decreases content, n,
{
    if n == 0 || n > content.len() {
        Seq::empty()
    } else {
        extension_content_steps(content, (n - 1) as nat) + extension_content_item(content[n - 1])
    }
}

/// The steps of one of these parts.
pub open spec fn extension_content_item(c: ExtensionTypeContent) -> Seq<Step>
    decreases c, 0nat,
{
    match c {
        ExtensionTypeContent::Group(x) => group_ref_steps(x),
        ExtensionTypeContent::All(x) => group_content_steps(x),
        ExtensionTypeContent::Choice(x) => group_content_steps(x),
        ExtensionTypeContent::Sequence(x) => group_content_steps(x),
        ExtensionTypeContent::Attribute(x) => attribute_ref_steps(x),
        ExtensionTypeContent::AttributeGroup(x) => attribute_group_ref_steps(x),
        _ => Seq::empty(),
    }
}

/// The steps of what a group holds.
pub open spec fn group_content_steps(ty: GroupType) -> Seq<Step>
    decreases ty, 0nat,
{
    group_list_steps(ty.content@, ty.content@.len())
}

/// The steps of the first `n` parts.
pub open spec fn group_list_steps(content: Seq<GroupTypeContent>, n: nat) -> Seq<Step>
    decreases content, n,
{
    if n == 0 || n > content.len() {
        Seq::empty()
    } else {
        group_list_steps(content, (n - 1) as nat) + group_list_item(content[n - 1])
    }
}

/// The steps of one of these parts.
pub open spec fn group_list_item(c: GroupTypeContent) -> Seq<Step>
    decreases c, 0nat,
{
    match c {
        GroupTypeContent::Group(x) => group_ref_steps(x),
        GroupTypeContent::Element(x) => element_ref_steps(x),
        GroupTypeContent::All(x) => group_content_steps(x),
        GroupTypeContent::Choice(x) => group_content_steps(x),
        GroupTypeContent::Sequence(x) => group_content_steps(x),
        _ => Seq::empty(),
    }
}

/// The steps of a declared group.
pub open spec fn group_steps(ty: GroupType) -> Seq<Step>
    decreases ty, 1nat,
{
    seq![Step::Within { marker: Marker::Group, body: group_content_steps(ty) }]
}

/// The steps of a group that may refer to another one.
pub open spec fn group_ref_steps(ty: GroupType) -> Seq<Step>
    decreases ty, 2nat,
{
    opt_reference(IdentType::Group, ty.ref_, Strength::Lazy) + group_steps(ty)
}

/// The steps of the first `n` parts.
pub open spec fn attribute_group_content_steps(
    content: Seq<AttributeGroupTypeContent>,
    n: nat,
) -> Seq<Step>
    decreases content, n,
{
    if n == 0 || n > content.len() {
        Seq::empty()
    } else {
        attribute_group_content_steps(content, (n - 1) as nat) + attribute_group_content_item(
            content[n - 1],
        )
    }
}

/// The steps of one of these parts.
pub open spec fn attribute_group_content_item(c: AttributeGroupTypeContent) -> Seq<Step>
    decreases c, 0nat,
{
    match c {
        AttributeGroupTypeContent::Attribute(x) => attribute_ref_steps(x),
        AttributeGroupTypeContent::AttributeGroup(x) => attribute_group_ref_steps(x),
        _ => Seq::empty(),
    }
}

/// The steps of a declared attribute group.
pub open spec fn attribute_group_steps(ty: AttributeGroupType) -> Seq<Step>
    decreases ty, 1nat,
{
    seq![
        Step::Within {
            marker: Marker::AttributeGroup,
            body: attribute_group_content_steps(ty.content@, ty.content@.len()),
        },
    ]
}

/// The steps of an attribute group that may refer to another one.
pub open spec fn attribute_group_ref_steps(ty: AttributeGroupType) -> Seq<Step>
    decreases ty, 2nat,
{
    opt_reference(IdentType::AttributeGroup, ty.ref_, Strength::Lazy) + attribute_group_steps(ty)
}

/// How the type of an attribute is named.
pub open spec fn attribute_naming(ty: AttributeType, x: SimpleBaseType) -> Naming {
    Naming::OfAttribute { attribute: opt_text(ty.name), own: opt_text(x.name) }
}

/// The steps of an attribute that stands in another definition.
pub open spec fn attribute_ref_steps(ty: AttributeType) -> Seq<Step>
    decreases ty, 1nat,
{
    opt_reference(IdentType::Attribute, ty.ref_, Strength::Weak) + opt_reference(
        IdentType::Type,
        ty.type_,
        Strength::Weak,
    ) + attribute_ref_type_steps(ty)
}

/// The steps of the type that such an attribute holds.
pub open spec fn attribute_ref_type_steps(ty: AttributeType) -> Seq<Step>
    decreases ty, 0nat,
{
    match ty.simple_type {
        Some(x) => seq![inline_simple_type(x, attribute_naming(ty, x))],
        None => Seq::empty(),
    }
}

/// The step of an element that is defined in place.
pub open spec fn inline_element(ty: ElementType) -> Step
    decreases ty, 1nat,
{
    Step::Inline {
        node: NodeView::Element(ty),
        naming: Naming::OfElement { own: opt_text(ty.name) },
        key: DependencyKeyView::InlineElement(ty.id),
        body: element_steps(ty),
    }
}

/// The steps of an element that stands in another definition.
pub open spec fn element_ref_steps(ty: ElementType) -> Seq<Step>
    decreases ty, 3nat,
{
    opt_reference(IdentType::Element, ty.ref_, Strength::Weak) + opt_reference(
        IdentType::Type,
        ty.type_,
        Strength::Weak,
    ) + element_ref_type_steps(ty)
}

/// The steps of such an element that neither refers to another one nor to a type.
pub open spec fn element_ref_type_steps(ty: ElementType) -> Seq<Step>
    decreases ty, 2nat,
{
    if ty.type_ is None && ty.ref_ is None {
        seq![inline_element(ty)]
    } else {
        Seq::empty()
    }
}

/// The steps of a definition.
pub open spec fn node_steps(node: NodeView) -> Seq<Step> {
    match node {
        NodeView::Element(x) => element_steps(x),
        NodeView::Attribute(x) => attribute_steps(x),
        NodeView::SimpleType(x) => simple_type_steps(x),
        NodeView::ComplexType(x) => complex_type_steps(x),
        NodeView::Group(x) => group_steps(x),
        NodeView::AttributeGroup(x) => attribute_group_steps(x),
    }
}

/// The kind of a definition.
pub open spec fn node_type(node: NodeView) -> IdentType {
    match node {
        NodeView::Group(_) => IdentType::Group,
        NodeView::Element(_) => IdentType::Element,
        NodeView::Attribute(_) => IdentType::Attribute,
        NodeView::SimpleType(_) => IdentType::Type,
        NodeView::ComplexType(_) => IdentType::Type,
        NodeView::AttributeGroup(_) => IdentType::AttributeGroup,
    }
}

} // verus!
