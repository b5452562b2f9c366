//! What stands in a definition, said of the definition itself.

use vstd::prelude::*;

use crate::ident::IdentType;
use crate::models::{local_part, QName, QNameView};
use crate::steps::{DependencyKeyView, Naming, NodeView, Strength};
use crate::xs::{
    AttributeGroupType, AttributeGroupTypeContent, AttributeType, ComplexBaseType,
    ComplexBaseTypeContent, ComplexContent, ComplexContentContent, ElementType, ElementTypeContent,
    ExtensionType, ExtensionTypeContent, GroupType, GroupTypeContent, List, Restriction,
    RestrictionContent, RestrictionType, RestrictionTypeContent, SimpleBaseType,
    SimpleBaseTypeContent, SimpleContent, SimpleContentContent, Union,
};

verus! {

/// Something that stands in a definition.
pub enum Item {
    /// The name of another definition, of some kind.
    Name { kind: IdentType, name: QNameView, strength: Strength },
    /// A definition in place, and what its name is made of.
    InPlace { node: NodeView, naming: Naming },
}

/// A name that stands in a definition.
pub open spec fn by_name(kind: IdentType, name: QName, strength: Strength) -> Item {
    Item::Name { kind, name: name@, strength }
}

/// The text of a name that may be absent.
pub open spec fn own_name(name: Option<String>) -> Option<Seq<char>> {
    match name {
        Some(s) => Some(s@),
        None => None,
    }
}

/// The kind of a definition.
pub open spec fn kind_of(node: NodeView) -> IdentType {
    match node {
        NodeView::Element(_) => IdentType::Element,
        NodeView::Attribute(_) => IdentType::Attribute,
        NodeView::SimpleType(_) | NodeView::ComplexType(_) => IdentType::Type,
        NodeView::Group(_) => IdentType::Group,
        NodeView::AttributeGroup(_) => IdentType::AttributeGroup,
    }
}

/// The key of a definition in place: the number that tells its node apart.
pub open spec fn place_key(node: NodeView) -> Option<DependencyKeyView> {
    match node {
        NodeView::SimpleType(x) => Some(DependencyKeyView::InlineSimpleType(x.id)),
        NodeView::Element(x) => Some(DependencyKeyView::InlineElement(x.id)),
        _ => None,
    }
}

/// Whether an item stands in a declared element, or in one that is defined in place: its `type` is
/// a weak name, the heads of its `substitutionGroup` are strong ones, and its type may stand in it.
pub open spec fn in_element(ty: ElementType, i: Item) -> bool
    decreases ty, 0nat,
{
    ||| ty.type_ matches Some(q) && i == by_name(IdentType::Type, q, Strength::Weak)
    ||| ty.substitution_group matches Some(list) && exists|k: int|
        0 <= k < list@.len() && i == by_name(
            IdentType::Element,
            #[trigger] list@[k],
            Strength::Strong,
        )
    ||| exists|k: int| 0 <= k < ty.content@.len() && in_element_part(#[trigger] ty.content@[k], i)
}

/// Whether an item stands in a part of an element.
pub open spec fn in_element_part(c: ElementTypeContent, i: Item) -> bool
    decreases c, 0nat,
{
    match c {
        ElementTypeContent::SimpleType(x) => in_simple_type(x, i),
        ElementTypeContent::ComplexType(x) => in_complex_type(x, i),
        _ => false,
    }
}

/// Whether an item stands in a declared attribute: its `type` is a weak name, and its type may
/// stand in it.
pub open spec fn in_attribute(ty: AttributeType, i: Item) -> bool
    decreases ty, 0nat,
{
    ||| ty.type_ matches Some(q) && i == by_name(IdentType::Type, q, Strength::Weak)
    ||| ty.simple_type matches Some(x) && in_simple_type(x, i)
}

/// Whether an item stands in a simple type.
pub open spec fn in_simple_type(ty: SimpleBaseType, i: Item) -> bool
    decreases ty, 0nat,
{
    exists|k: int| 0 <= k < ty.content@.len() && in_simple_type_part(#[trigger] ty.content@[k], i)
}

/// Whether an item stands in a part of a simple type.
pub open spec fn in_simple_type_part(c: SimpleBaseTypeContent, i: Item) -> bool
    decreases c, 0nat,
{
    match c {
        SimpleBaseTypeContent::Restriction(x) => in_simple_restriction(x, i),
        SimpleBaseTypeContent::List(x) => in_list(x, i),
        SimpleBaseTypeContent::Union(x) => in_union(x, i),
        SimpleBaseTypeContent::Annotation => false,
    }
}

/// Whether an item stands in a restriction of a simple type: its `base` is a strong name, and its
/// base may stand in it.
pub open spec fn in_simple_restriction(ty: Restriction, i: Item) -> bool
    decreases ty, 0nat,
{
    ||| ty.base matches Some(q) && i == by_name(IdentType::Type, q, Strength::Strong)
    ||| exists|k: int| 0 <= k < ty.content@.len()
        && in_simple_restriction_part(#[trigger] ty.content@[k], i)
}

/// Whether an item stands in a part of a restriction of a simple type.
pub open spec fn in_simple_restriction_part(c: RestrictionContent, i: Item) -> bool
    decreases c, 0nat,
{
    match c {
        RestrictionContent::SimpleType(x) => in_simple_type(x, i),
        _ => false,
    }
}

/// Whether an item stands in a list: its `itemType` is a weak name, and the type of its items may be
/// defined in place.
pub open spec fn in_list(ty: List, i: Item) -> bool {
    ||| ty.item_type matches Some(q) && i == by_name(IdentType::Type, q, Strength::Weak)
    ||| ty.simple_type matches Some(x) && i == (Item::InPlace {
        node: NodeView::SimpleType(*x),
        naming: Naming::Item {
            own: own_name(x.name),
            item: match ty.item_type {
                Some(q) => Some(local_part(q@.raw)),
                None => None,
            },
        },
    })
}

/// Whether an item stands in a union: each of its `memberTypes` is a weak name, and members may be
/// defined in place.
pub open spec fn in_union(ty: Union, i: Item) -> bool {
    ||| ty.member_types matches Some(list) && exists|k: int|
        0 <= k < list@.len() && i == by_name(IdentType::Type, #[trigger] list@[k], Strength::Weak)
    ||| exists|k: int|
        0 <= k < ty.simple_type@.len() && in_union_part(#[trigger] ty.simple_type@[k], i)
}

/// Whether an item is a member of a union that is defined in place.
pub open spec fn in_union_part(x: SimpleBaseType, i: Item) -> bool {
    i == (Item::InPlace {
        node: NodeView::SimpleType(x),
        naming: Naming::Member { own: own_name(x.name) },
    })
}

/// Whether an item stands in a complex type.
pub open spec fn in_complex_type(ty: ComplexBaseType, i: Item) -> bool
    decreases ty, 0nat,
{
    exists|k: int| 0 <= k < ty.content@.len() && in_complex_type_part(#[trigger] ty.content@[k], i)
}

/// Whether an item stands in a part of a complex type.
pub open spec fn in_complex_type_part(c: ComplexBaseTypeContent, i: Item) -> bool
    decreases c, 0nat,
{
    match c {
        ComplexBaseTypeContent::SimpleContent(x) => in_simple_content(x, i),
        ComplexBaseTypeContent::ComplexContent(x) => in_complex_content(x, i),
        ComplexBaseTypeContent::Group(x) => in_local_group(x, i),
        ComplexBaseTypeContent::All(x) => in_group(x, i),
        ComplexBaseTypeContent::Choice(x) => in_group(x, i),
        ComplexBaseTypeContent::Sequence(x) => in_group(x, i),
        ComplexBaseTypeContent::Attribute(x) => in_local_attribute(x, i),
        ComplexBaseTypeContent::AttributeGroup(x) => in_local_attribute_group(x, i),
        _ => false,
    }
}

/// Whether an item stands in a simple content.
pub open spec fn in_simple_content(ty: SimpleContent, i: Item) -> bool
    decreases ty, 0nat,
{
    exists|k: int| 0 <= k < ty.content@.len() && in_simple_content_part(#[trigger] ty.content@[k], i)
}

/// Whether an item stands in a part of a simple content.
pub open spec fn in_simple_content_part(c: SimpleContentContent, i: Item) -> bool
    decreases c, 0nat,
{
    match c {
        SimpleContentContent::Restriction(x) => in_restriction(x, i),
        SimpleContentContent::Extension(x) => in_extension(x, i),
        SimpleContentContent::Annotation => false,
    }
}

/// Whether an item stands in a complex content.
pub open spec fn in_complex_content(ty: ComplexContent, i: Item) -> bool
    decreases ty, 0nat,
{
    exists|k: int| 0 <= k < ty.content@.len() && in_complex_content_part(#[trigger] ty.content@[k], i)
}

/// Whether an item stands in a part of a complex content.
pub open spec fn in_complex_content_part(c: ComplexContentContent, i: Item) -> bool
    decreases c, 0nat,
{
    match c {
        ComplexContentContent::Restriction(x) => in_restriction(x, i),
        ComplexContentContent::Extension(x) => in_extension(x, i),
        ComplexContentContent::Annotation => false,
    }
}

/// Whether an item stands in a restriction of a complex type: its `base` is a strong name.
pub open spec fn in_restriction(ty: RestrictionType, i: Item) -> bool
    decreases ty, 0nat,
{
    ||| i == by_name(IdentType::Type, ty.base, Strength::Strong)
    ||| exists|k: int| 0 <= k < ty.content@.len() && in_restriction_part(#[trigger] ty.content@[k], i)
}

/// Whether an item stands in a part of a restriction of a complex type.
pub open spec fn in_restriction_part(c: RestrictionTypeContent, i: Item) -> bool
    decreases c, 0nat,
{
    match c {
        RestrictionTypeContent::Group(x) => in_local_group(x, i),
        RestrictionTypeContent::All(x) => in_group(x, i),
        RestrictionTypeContent::Choice(x) => in_group(x, i),
        RestrictionTypeContent::Sequence(x) => in_group(x, i),
        RestrictionTypeContent::SimpleType(x) => in_simple_type(x, i),
        RestrictionTypeContent::Attribute(x) => in_local_attribute(x, i),
        RestrictionTypeContent::AttributeGroup(x) => in_local_attribute_group(x, i),
        _ => false,
    }
}

/// Whether an item stands in an extension of a type: its `base` is a strong name.
pub open spec fn in_extension(ty: ExtensionType, i: Item) -> bool
    decreases ty, 0nat,
{
    ||| i == by_name(IdentType::Type, ty.base, Strength::Strong)
    ||| exists|k: int| 0 <= k < ty.content@.len() && in_extension_part(#[trigger] ty.content@[k], i)
}

/// Whether an item stands in a part of an extension of a type.
pub open spec fn in_extension_part(c: ExtensionTypeContent, i: Item) -> bool
    decreases c, 0nat,
{
    match c {
        ExtensionTypeContent::Group(x) => in_local_group(x, i),
        ExtensionTypeContent::All(x) => in_group(x, i),
        ExtensionTypeContent::Choice(x) => in_group(x, i),
        ExtensionTypeContent::Sequence(x) => in_group(x, i),
        ExtensionTypeContent::Attribute(x) => in_local_attribute(x, i),
        ExtensionTypeContent::AttributeGroup(x) => in_local_attribute_group(x, i),
        _ => false,
    }
}

/// Whether an item stands in a declared group, or in a sequence, a choice or an `all`.
pub open spec fn in_group(ty: GroupType, i: Item) -> bool
    decreases ty, 0nat,
{
    exists|k: int| 0 <= k < ty.content@.len() && in_group_part(#[trigger] ty.content@[k], i)
}

/// Whether an item stands in a part of a group.
pub open spec fn in_group_part(c: GroupTypeContent, i: Item) -> bool
    decreases c, 0nat,
{
    match c {
        GroupTypeContent::Element(x) => in_local_element(x, i),
        GroupTypeContent::Group(x) => in_local_group(x, i),
        GroupTypeContent::All(x) => in_group(x, i),
        GroupTypeContent::Choice(x) => in_group(x, i),
        GroupTypeContent::Sequence(x) => in_group(x, i),
        _ => false,
    }
}

/// Whether an item stands in a group that stands in another definition: its `ref` is a lazy name.
pub open spec fn in_local_group(ty: GroupType, i: Item) -> bool
    decreases ty, 1nat,
{
    ||| ty.ref_ matches Some(q) && i == by_name(IdentType::Group, q, Strength::Lazy)
    ||| in_group(ty, i)
}

/// Whether an item stands in a declared attribute group.
pub open spec fn in_attribute_group(ty: AttributeGroupType, i: Item) -> bool
    decreases ty, 0nat,
{
    exists|k: int| 0 <= k < ty.content@.len() && in_attribute_group_part(#[trigger] ty.content@[k], i)
}

/// Whether an item stands in a part of an attribute group.
pub open spec fn in_attribute_group_part(c: AttributeGroupTypeContent, i: Item) -> bool
    decreases c, 0nat,
{
    match c {
        AttributeGroupTypeContent::Attribute(x) => in_local_attribute(x, i),
        AttributeGroupTypeContent::AttributeGroup(x) => in_local_attribute_group(x, i),
        _ => false,
    }
}

/// Whether an item stands in an attribute group that stands in another definition: its `ref` is a
/// lazy name.
pub open spec fn in_local_attribute_group(ty: AttributeGroupType, i: Item) -> bool
    decreases ty, 1nat,
{
    ||| ty.ref_ matches Some(q) && i == by_name(IdentType::AttributeGroup, q, Strength::Lazy)
    ||| in_attribute_group(ty, i)
}

/// Whether an item stands in an attribute that stands in another definition: its `ref` and its
/// `type` are weak names, and its type may be defined in place.
pub open spec fn in_local_attribute(ty: AttributeType, i: Item) -> bool {
    ||| ty.ref_ matches Some(q) && i == by_name(IdentType::Attribute, q, Strength::Weak)
    ||| ty.type_ matches Some(q) && i == by_name(IdentType::Type, q, Strength::Weak)
    ||| ty.simple_type matches Some(x) && i == (Item::InPlace {
        node: NodeView::SimpleType(x),
        naming: Naming::OfAttribute { attribute: own_name(ty.name), own: own_name(x.name) },
    })
}

/// Whether an item stands in an element that stands in another definition: its `ref` and its `type`
/// are weak names, and an element that has neither is defined in place.
pub open spec fn in_local_element(ty: ElementType, i: Item) -> bool {
    ||| ty.ref_ matches Some(q) && i == by_name(IdentType::Element, q, Strength::Weak)
    ||| ty.type_ matches Some(q) && i == by_name(IdentType::Type, q, Strength::Weak)
    ||| ty.ref_ is None && ty.type_ is None && i == (Item::InPlace {
        node: NodeView::Element(ty),
        naming: Naming::OfElement { own: own_name(ty.name) },
    })
}

/// Whether an item stands in a definition, and not only in one that is defined in place in it.
pub open spec fn stands_in(node: NodeView, i: Item) -> bool {
    match node {
        NodeView::Element(x) => in_element(x, i),
        NodeView::Attribute(x) => in_attribute(x, i),
        NodeView::SimpleType(x) => in_simple_type(x, i),
        NodeView::ComplexType(x) => in_complex_type(x, i),
        NodeView::Group(x) => in_group(x, i),
        NodeView::AttributeGroup(x) => in_attribute_group(x, i),
    }
}

} // verus!
