//! The steps of a definition are what stands in it.

use vstd::prelude::*;

use crate::contents::{
    by_name, in_attribute, in_attribute_group, in_attribute_group_part, in_complex_content,
    in_complex_content_part, in_complex_type, in_complex_type_part, in_element, in_element_part,
    in_extension, in_extension_part, in_group, in_group_part, in_list, in_local_attribute,
    in_local_attribute_group, in_local_element, in_local_group, in_restriction, in_restriction_part,
    in_simple_content, in_simple_content_part, in_simple_restriction, in_simple_restriction_part,
    in_simple_type, in_simple_type_part, in_union, in_union_part, place_key, stands_in, Item,
};
use crate::ident::IdentType;
use crate::models::QName;
use crate::steps::{
    attribute_group_content_item, attribute_group_content_steps, attribute_group_ref_steps,
    attribute_group_steps, attribute_naming, attribute_ref_steps, attribute_ref_type_steps,
    attribute_steps, attribute_type_steps, complex_content_content_item,
    complex_content_content_steps, complex_content_steps, complex_type_content_item,
    complex_type_content_steps, complex_type_steps, element_content_item, element_content_steps,
    element_ref_steps, element_ref_type_steps, element_steps, extension_content_item,
    extension_content_steps, extension_steps, group_content_steps, group_list_item,
    group_list_steps, group_ref_steps, group_steps, inline_element, inline_simple_type,
    item_naming, list_steps, list_type_steps, node_steps, opt_reference, opt_references, reference,
    references, restriction_content_item, restriction_content_steps, restriction_steps,
    simple_content_content_item, simple_content_content_steps, simple_content_steps,
    simple_restriction_content_item, simple_restriction_content_steps, simple_restriction_steps,
    simple_type_content_item, simple_type_content_steps, simple_type_steps, union_member_item,
    union_member_steps, union_steps, Marker, Naming, NodeView, Step, Strength,
};
use crate::text::opt_text;
use crate::xs::{
    AttributeGroupType, AttributeGroupTypeContent, AttributeType, ComplexBaseType,
    ComplexBaseTypeContent, ComplexContent, ComplexContentContent, ElementType, ElementTypeContent,
    ExtensionType, ExtensionTypeContent, GroupType, GroupTypeContent, List, Restriction,
    RestrictionContent, RestrictionType, RestrictionTypeContent, SimpleBaseType,
    SimpleBaseTypeContent, SimpleContent, SimpleContentContent, Union,
};

verus! {

/// Whether one of the steps is of an item. Groups are looked into, definitions in place are not.
pub open spec fn gives(steps: Seq<Step>, i: Item) -> bool
    decreases steps,
{
    steps.len() > 0 && (gives(steps.drop_last(), i) || step_gives(steps.last(), i))
}

/// Whether a step is of an item.
pub open spec fn step_gives(step: Step, i: Item) -> bool
    decreases step,
{
    match step {
        Step::Reference { kind, name, strength } => i == (Item::Name { kind, name, strength }),
        Step::Within { body, .. } => gives(body, i),
        Step::Inline { node, naming, .. } => i == (Item::InPlace { node, naming }),
    }
}

/// Whether every definition in place is read by its own steps, under its own key.
pub open spec fn sound(steps: Seq<Step>) -> bool
    decreases steps,
{
    steps.len() == 0 || (sound(steps.drop_last()) && step_sound(steps.last()))
}

/// Whether every definition in place in a step is read by its own steps, under its own key.
pub open spec fn step_sound(step: Step) -> bool
    decreases step,
{
    match step {
        Step::Reference { .. } => true,
        Step::Within { body, .. } => sound(body),
        Step::Inline { node, key, body, .. } => place_key(node) == Some(key) && body == node_steps(
            node,
        ) && sound(body),
    }
}

/// The items of two lists of steps.
pub proof fn lemma_gives_add(a: Seq<Step>, b: Seq<Step>)
    ensures
        forall|i: Item| #[trigger] gives(a + b, i) <==> gives(a, i) || gives(b, i),
        sound(a + b) == (sound(a) && sound(b)),
    decreases b.len(),
{
    if b.len() == 0 {
        assert(a + b =~= a);
    } else {
        assert((a + b).drop_last() =~= a + b.drop_last());
        assert((a + b).last() == b.last());
        lemma_gives_add(a, b.drop_last());
        assert forall|i: Item| #[trigger] gives(a + b, i) <==> gives(a, i) || gives(b, i) by {
            assert(gives(a + b.drop_last(), i) <==> gives(a, i) || gives(b.drop_last(), i));
            assert(gives(b, i) <==> gives(b.drop_last(), i) || step_gives(b.last(), i));
        }
    }
}

/// The items of a single step.
pub proof fn lemma_gives_one(step: Step)
    ensures
        forall|i: Item| #[trigger] gives(seq![step], i) <==> step_gives(step, i),
        sound(seq![step]) == step_sound(step),
{
    let steps = seq![step];
    assert(steps.drop_last() =~= Seq::<Step>::empty());
    assert(steps.last() == step);
    assert(sound(steps.drop_last()));
    assert forall|i: Item| #[trigger] gives(steps, i) <==> step_gives(step, i) by {
        assert(!gives(steps.drop_last(), i));
    }
}

/// No steps give nothing.
proof fn lemma_gives_none()
    ensures
        forall|i: Item| !#[trigger] gives(Seq::<Step>::empty(), i),
        sound(Seq::<Step>::empty()),
{
}

/// The item of a reference that may be absent.
proof fn lemma_opt_reference(kind: IdentType, name: Option<QName>, strength: Strength)
    ensures
        sound(opt_reference(kind, name, strength)),
        forall|i: Item| #[trigger]
            gives(opt_reference(kind, name, strength), i) <==> (name matches Some(q) && i
                == by_name(kind, q, strength)),
{
    match name {
        Some(q) => {
            lemma_gives_one(reference(kind, q, strength));
        },
        None => {
            lemma_gives_none();
        },
    }
}

/// The items of a list of references.
proof fn lemma_references(kind: IdentType, names: Seq<QName>, strength: Strength)
    ensures
        sound(references(kind, names, strength)),
        forall|i: Item| #[trigger]
            gives(references(kind, names, strength), i) <==> exists|k: int|
                0 <= k < names.len() && i == by_name(kind, #[trigger] names[k], strength),
    decreases names.len(),
{
    let all = references(kind, names, strength);
    if names.len() > 0 {
        let front = names.drop_last();
        lemma_references(kind, front, strength);
        assert(all.drop_last() =~= references(kind, front, strength));
        assert(all.last() == reference(kind, names[names.len() - 1], strength));
        assert(step_sound(all.last()));
        assert forall|i: Item| #[trigger] gives(all, i) <==> exists|k: int|
            0 <= k < names.len() && i == by_name(kind, #[trigger] names[k], strength) by {
            if gives(all.drop_last(), i) {
                let k = choose|k: int|
                    0 <= k < front.len() && i == by_name(kind, #[trigger] front[k], strength);
                assert(names[k] == front[k]);
            }
            if step_gives(all.last(), i) {
                assert(i == by_name(kind, names[names.len() - 1], strength));
            }
            if exists|k: int|
                0 <= k < names.len() && i == by_name(kind, #[trigger] names[k], strength) {
                let k = choose|k: int|
                    0 <= k < names.len() && i == by_name(kind, #[trigger] names[k], strength);
                if k < front.len() {
                    assert(front[k] == names[k]);
                    assert(gives(references(kind, front, strength), i));
                }
            }
        }
    }
}

/// The items of a list of references that may be absent.
proof fn lemma_opt_references(kind: IdentType, names: Option<Vec<QName>>, strength: Strength)
    ensures
        sound(opt_references(kind, names, strength)),
        forall|i: Item| #[trigger]
            gives(opt_references(kind, names, strength), i) <==> (names matches Some(list) && exists|
                k: int,
            | 0 <= k < list@.len() && i == by_name(kind, #[trigger] list@[k], strength)),
{
    match names {
        Some(list) => {
            lemma_references(kind, list@, strength);
        },
        None => {
            lemma_gives_none();
        },
    }
}

/// The items of a declared element.
proof fn lemma_element(ty: ElementType)
    ensures
        sound(element_steps(ty)),
        forall|i: Item| #[trigger] gives(element_steps(ty), i) <==> in_element(ty, i),
    decreases ty, 0nat,
{
    let a = opt_reference(IdentType::Type, ty.type_, Strength::Weak);
    let b = opt_references(IdentType::Element, ty.substitution_group, Strength::Strong);
    let c = element_content_steps(ty.content@, ty.content@.len());
    lemma_opt_reference(IdentType::Type, ty.type_, Strength::Weak);
    lemma_opt_references(IdentType::Element, ty.substitution_group, Strength::Strong);
    lemma_element_list(ty.content@, ty.content@.len());
    assert(element_steps(ty) == a + b + c);
    lemma_gives_add(a, b);
    lemma_gives_add(a + b, c);
    assert forall|i: Item| #[trigger] gives(element_steps(ty), i) <==> in_element(ty, i) by {
        assert(gives(a + b + c, i) <==> gives(a + b, i) || gives(c, i));
        assert(gives(a + b, i) <==> gives(a, i) || gives(b, i));
    }
}

/// The items of the first `n` parts.
proof fn lemma_element_list(content: Seq<ElementTypeContent>, n: nat)
    requires
        n <= content.len(),
    ensures
        sound(element_content_steps(content, n)),
        forall|i: Item| #[trigger]
            gives(element_content_steps(content, n), i) <==> exists|k: int|
                0 <= k < n && in_element_part(#[trigger] content[k], i),
    decreases content, n,
{
    let all = element_content_steps(content, n);
    if n > 0 {
        let m = (n - 1) as nat;
        let front = element_content_steps(content, m);
        let last = element_content_item(content[m as int]);
        lemma_element_list(content, m);
        lemma_element_part(content[m as int]);
        assert(all == front + last);
        lemma_gives_add(front, last);
        assert forall|i: Item| #[trigger] gives(all, i) <==> exists|k: int|
            0 <= k < n && in_element_part(#[trigger] content[k], i) by {
            assert(gives(all, i) <==> gives(front, i) || gives(last, i));
            if gives(front, i) {
                let k = choose|k: int| 0 <= k < m && in_element_part(#[trigger] content[k], i);
                assert(in_element_part(content[k], i));
            }
            if gives(last, i) {
                assert(in_element_part(content[m as int], i));
            }
            if exists|k: int| 0 <= k < n && in_element_part(#[trigger] content[k], i) {
                let k = choose|k: int| 0 <= k < n && in_element_part(#[trigger] content[k], i);
                if k == m {
                    assert(gives(last, i));
                } else {
                    assert(gives(front, i));
                }
            }
        }
    }
}

/// The items of such a part.
proof fn lemma_element_part(c: ElementTypeContent)
    ensures
        sound(element_content_item(c)),
        forall|i: Item| #[trigger] gives(element_content_item(c), i) <==> in_element_part(c, i),
    decreases c, 0nat,
{
    match c {
        ElementTypeContent::SimpleType(x) => {
            lemma_simple_type(x);
        },
        ElementTypeContent::ComplexType(x) => {
            lemma_complex_type(x);
        },
        _ => {
            lemma_gives_none();
        },
    }
}

/// The items of a declared attribute.
proof fn lemma_attribute(ty: AttributeType)
    ensures
        sound(attribute_steps(ty)),
        forall|i: Item| #[trigger] gives(attribute_steps(ty), i) <==> in_attribute(ty, i),
    decreases ty, 1nat,
{
    let a = opt_reference(IdentType::Type, ty.type_, Strength::Weak);
    let b = attribute_type_steps(ty);
    lemma_opt_reference(IdentType::Type, ty.type_, Strength::Weak);
    match ty.simple_type {
        Some(x) => {
            lemma_simple_type(x);
        },
        None => {
            lemma_gives_none();
        },
    }
    assert(attribute_steps(ty) == a + b);
    lemma_gives_add(a, b);
    assert forall|i: Item| #[trigger] gives(attribute_steps(ty), i) <==> in_attribute(ty, i) by {
        assert(gives(a + b, i) <==> gives(a, i) || gives(b, i));
    }
}

/// The items of a simple type.
proof fn lemma_simple_type(ty: SimpleBaseType)
    ensures
        sound(simple_type_steps(ty)),
        forall|i: Item| #[trigger] gives(simple_type_steps(ty), i) <==> in_simple_type(ty, i),
    decreases ty, 0nat,
{
    lemma_simple_type_list(ty.content@, ty.content@.len());
}

/// The items of the first `n` parts.
proof fn lemma_simple_type_list(content: Seq<SimpleBaseTypeContent>, n: nat)
    requires
        n <= content.len(),
    ensures
        sound(simple_type_content_steps(content, n)),
        forall|i: Item| #[trigger]
            gives(simple_type_content_steps(content, n), i) <==> exists|k: int|
                0 <= k < n && in_simple_type_part(#[trigger] content[k], i),
    decreases content, n,
{
    let all = simple_type_content_steps(content, n);
    if n > 0 {
        let m = (n - 1) as nat;
        let front = simple_type_content_steps(content, m);
        let last = simple_type_content_item(content[m as int]);
        lemma_simple_type_list(content, m);
        lemma_simple_type_part(content[m as int]);
        assert(all == front + last);
        lemma_gives_add(front, last);
        assert forall|i: Item| #[trigger] gives(all, i) <==> exists|k: int|
            0 <= k < n && in_simple_type_part(#[trigger] content[k], i) by {
            assert(gives(all, i) <==> gives(front, i) || gives(last, i));
            if gives(front, i) {
                let k = choose|k: int| 0 <= k < m && in_simple_type_part(#[trigger] content[k], i);
                assert(in_simple_type_part(content[k], i));
            }
            if gives(last, i) {
                assert(in_simple_type_part(content[m as int], i));
            }
            if exists|k: int| 0 <= k < n && in_simple_type_part(#[trigger] content[k], i) {
                let k = choose|k: int| 0 <= k < n && in_simple_type_part(#[trigger] content[k], i);
                if k == m {
                    assert(gives(last, i));
                } else {
                    assert(gives(front, i));
                }
            }
        }
    }
}

/// The items of such a part.
proof fn lemma_simple_type_part(c: SimpleBaseTypeContent)
    ensures
        sound(simple_type_content_item(c)),
        forall|i: Item| #[trigger] gives(simple_type_content_item(c), i) <==>
            in_simple_type_part(c, i),
    decreases c, 0nat,
{
    match c {
        SimpleBaseTypeContent::Restriction(x) => {
            lemma_simple_restriction(x);
        },
        SimpleBaseTypeContent::List(x) => {
            lemma_list(x);
        },
        SimpleBaseTypeContent::Union(x) => {
            lemma_union(x);
        },
        _ => {
            lemma_gives_none();
        },
    }
}

/// The items of a restriction of a simple type.
proof fn lemma_simple_restriction(ty: Restriction)
    ensures
        sound(simple_restriction_steps(ty)),
        forall|i: Item| #[trigger] gives(simple_restriction_steps(ty), i) <==>
            in_simple_restriction(ty, i),
    decreases ty, 0nat,
{
    let a = opt_reference(IdentType::Type, ty.base, Strength::Strong);
    let b = simple_restriction_content_steps(ty.content@, ty.content@.len());
    lemma_opt_reference(IdentType::Type, ty.base, Strength::Strong);
    lemma_simple_restriction_list(ty.content@, ty.content@.len());
    assert(simple_restriction_steps(ty) == a + b);
    lemma_gives_add(a, b);
    assert forall|i: Item| #[trigger] gives(simple_restriction_steps(ty), i) <==>
        in_simple_restriction(ty, i) by {
        assert(gives(a + b, i) <==> gives(a, i) || gives(b, i));
    }
}

/// The items of the first `n` parts.
proof fn lemma_simple_restriction_list(content: Seq<RestrictionContent>, n: nat)
    requires
        n <= content.len(),
    ensures
        sound(simple_restriction_content_steps(content, n)),
        forall|i: Item| #[trigger]
            gives(simple_restriction_content_steps(content, n), i) <==> exists|k: int|
                0 <= k < n && in_simple_restriction_part(#[trigger] content[k], i),
    decreases content, n,
{
    let all = simple_restriction_content_steps(content, n);
    if n > 0 {
        let m = (n - 1) as nat;
        let front = simple_restriction_content_steps(content, m);
        let last = simple_restriction_content_item(content[m as int]);
        lemma_simple_restriction_list(content, m);
        lemma_simple_restriction_part(content[m as int]);
        assert(all == front + last);
        lemma_gives_add(front, last);
        assert forall|i: Item| #[trigger] gives(all, i) <==> exists|k: int|
            0 <= k < n && in_simple_restriction_part(#[trigger] content[k], i) by {
            assert(gives(all, i) <==> gives(front, i) || gives(last, i));
            if gives(front, i) {
                let k = choose|k: int| 0 <= k < m
                    && in_simple_restriction_part(#[trigger] content[k], i);
                assert(in_simple_restriction_part(content[k], i));
            }
            if gives(last, i) {
                assert(in_simple_restriction_part(content[m as int], i));
            }
            if exists|k: int| 0 <= k < n && in_simple_restriction_part(#[trigger] content[k], i) {
                let k = choose|k: int| 0 <= k < n
                    && in_simple_restriction_part(#[trigger] content[k], i);
                if k == m {
                    assert(gives(last, i));
                } else {
                    assert(gives(front, i));
                }
            }
        }
    }
}

/// The items of such a part.
proof fn lemma_simple_restriction_part(c: RestrictionContent)
    ensures
        sound(simple_restriction_content_item(c)),
        forall|i: Item| #[trigger] gives(simple_restriction_content_item(c), i) <==>
            in_simple_restriction_part(c, i),
    decreases c, 0nat,
{
    match c {
        RestrictionContent::SimpleType(x) => {
            lemma_simple_type(x);
        },
        _ => {
            lemma_gives_none();
        },
    }
}

/// The item of a simple type that is defined in place.
proof fn lemma_inline_simple_type(x: SimpleBaseType, naming: Naming)
    ensures
        sound(seq![inline_simple_type(x, naming)]),
        forall|i: Item| #[trigger]
            gives(seq![inline_simple_type(x, naming)], i) <==> i == (Item::InPlace {
                node: NodeView::SimpleType(x),
                naming,
            }),
    decreases x, 1nat,
{
    lemma_simple_type(x);
    let step = inline_simple_type(x, naming);
    assert(step_sound(step));
    lemma_gives_one(step);
}

/// The items of a list.
proof fn lemma_list(ty: List)
    ensures
        sound(list_steps(ty)),
        forall|i: Item| #[trigger] gives(list_steps(ty), i) <==> in_list(ty, i),
    decreases ty, 1nat,
{
    let a = opt_reference(IdentType::Type, ty.item_type, Strength::Weak);
    let b = list_type_steps(ty);
    lemma_opt_reference(IdentType::Type, ty.item_type, Strength::Weak);
    match ty.simple_type {
        Some(x) => {
            lemma_inline_simple_type(*x, item_naming(ty, *x));
        },
        None => {
            lemma_gives_none();
        },
    }
    assert(list_steps(ty) == a + b);
    lemma_gives_add(a, b);
    assert forall|i: Item| #[trigger] gives(list_steps(ty), i) <==> in_list(ty, i) by {
        assert(gives(a + b, i) <==> gives(a, i) || gives(b, i));
    }
}

/// The items of a union.
proof fn lemma_union(ty: Union)
    ensures
        sound(union_steps(ty)),
        forall|i: Item| #[trigger] gives(union_steps(ty), i) <==> in_union(ty, i),
    decreases ty, 0nat,
{
    let a = opt_references(IdentType::Type, ty.member_types, Strength::Weak);
    let b = union_member_steps(ty.simple_type@, ty.simple_type@.len());
    lemma_opt_references(IdentType::Type, ty.member_types, Strength::Weak);
    lemma_union_list(ty.simple_type@, ty.simple_type@.len());
    assert(union_steps(ty) == a + b);
    lemma_gives_add(a, b);
    assert forall|i: Item| #[trigger] gives(union_steps(ty), i) <==> in_union(ty, i) by {
        assert(gives(a + b, i) <==> gives(a, i) || gives(b, i));
    }
}

/// The items of the first `n` parts.
proof fn lemma_union_list(content: Seq<SimpleBaseType>, n: nat)
    requires
        n <= content.len(),
    ensures
        sound(union_member_steps(content, n)),
        forall|i: Item| #[trigger]
            gives(union_member_steps(content, n), i) <==> exists|k: int|
                0 <= k < n && in_union_part(#[trigger] content[k], i),
    decreases content, n,
{
    let all = union_member_steps(content, n);
    if n > 0 {
        let m = (n - 1) as nat;
        let front = union_member_steps(content, m);
        let last = union_member_item(content[m as int]);
        lemma_union_list(content, m);
        lemma_union_part(content[m as int]);
        assert(all == front + last);
        lemma_gives_add(front, last);
        assert forall|i: Item| #[trigger] gives(all, i) <==> exists|k: int|
            0 <= k < n && in_union_part(#[trigger] content[k], i) by {
            assert(gives(all, i) <==> gives(front, i) || gives(last, i));
            if gives(front, i) {
                let k = choose|k: int| 0 <= k < m && in_union_part(#[trigger] content[k], i);
                assert(in_union_part(content[k], i));
            }
            if gives(last, i) {
                assert(in_union_part(content[m as int], i));
            }
            if exists|k: int| 0 <= k < n && in_union_part(#[trigger] content[k], i) {
                let k = choose|k: int| 0 <= k < n && in_union_part(#[trigger] content[k], i);
                if k == m {
                    assert(gives(last, i));
                } else {
                    assert(gives(front, i));
                }
            }
        }
    }
}

/// The items of such a part.
proof fn lemma_union_part(c: SimpleBaseType)
    ensures
        sound(union_member_item(c)),
        forall|i: Item| #[trigger] gives(union_member_item(c), i) <==> in_union_part(c, i),
    decreases c, 3nat,
{
    lemma_inline_simple_type(c, Naming::Member { own: opt_text(c.name) });
}

/// The items of a complex type.
proof fn lemma_complex_type(ty: ComplexBaseType)
    ensures
        sound(complex_type_steps(ty)),
        forall|i: Item| #[trigger] gives(complex_type_steps(ty), i) <==> in_complex_type(ty, i),
    decreases ty, 0nat,
{
    lemma_complex_type_list(ty.content@, ty.content@.len());
}

/// The items of the first `n` parts.
proof fn lemma_complex_type_list(content: Seq<ComplexBaseTypeContent>, n: nat)
    requires
        n <= content.len(),
    ensures
        sound(complex_type_content_steps(content, n)),
        forall|i: Item| #[trigger]
            gives(complex_type_content_steps(content, n), i) <==> exists|k: int|
                0 <= k < n && in_complex_type_part(#[trigger] content[k], i),
    decreases content, n,
{
    let all = complex_type_content_steps(content, n);
    if n > 0 {
        let m = (n - 1) as nat;
        let front = complex_type_content_steps(content, m);
        let last = complex_type_content_item(content[m as int]);
        lemma_complex_type_list(content, m);
        lemma_complex_type_part(content[m as int]);
        assert(all == front + last);
        lemma_gives_add(front, last);
        assert forall|i: Item| #[trigger] gives(all, i) <==> exists|k: int|
            0 <= k < n && in_complex_type_part(#[trigger] content[k], i) by {
            assert(gives(all, i) <==> gives(front, i) || gives(last, i));
            if gives(front, i) {
                let k = choose|k: int| 0 <= k < m && in_complex_type_part(#[trigger] content[k], i);
                assert(in_complex_type_part(content[k], i));
            }
            if gives(last, i) {
                assert(in_complex_type_part(content[m as int], i));
            }
            if exists|k: int| 0 <= k < n && in_complex_type_part(#[trigger] content[k], i) {
                let k = choose|k: int| 0 <= k < n && in_complex_type_part(#[trigger] content[k], i);
                if k == m {
                    assert(gives(last, i));
                } else {
                    assert(gives(front, i));
                }
            }
        }
    }
}

/// The items of such a part.
proof fn lemma_complex_type_part(c: ComplexBaseTypeContent)
    ensures
        sound(complex_type_content_item(c)),
        forall|i: Item| #[trigger] gives(complex_type_content_item(c), i) <==>
            in_complex_type_part(c, i),
    decreases c, 0nat,
{
    match c {
        ComplexBaseTypeContent::SimpleContent(x) => {
            lemma_simple_content(x);
        },
        ComplexBaseTypeContent::ComplexContent(x) => {
            lemma_complex_content(x);
        },
        ComplexBaseTypeContent::Group(x) => {
            lemma_local_group(x);
        },
        ComplexBaseTypeContent::All(x) => {
            lemma_group(x);
        },
        ComplexBaseTypeContent::Choice(x) => {
            lemma_group(x);
        },
        ComplexBaseTypeContent::Sequence(x) => {
            lemma_group(x);
        },
        ComplexBaseTypeContent::Attribute(x) => {
            lemma_local_attribute(x);
        },
        ComplexBaseTypeContent::AttributeGroup(x) => {
            lemma_local_attribute_group(x);
        },
        _ => {
            lemma_gives_none();
        },
    }
}

/// The items of a simple content.
proof fn lemma_simple_content(ty: SimpleContent)
    ensures
        sound(simple_content_steps(ty)),
        forall|i: Item| #[trigger] gives(simple_content_steps(ty), i) <==> in_simple_content(ty, i),
    decreases ty, 0nat,
{
    lemma_simple_content_list(ty.content@, ty.content@.len());
}

/// The items of the first `n` parts.
proof fn lemma_simple_content_list(content: Seq<SimpleContentContent>, n: nat)
    requires
        n <= content.len(),
    ensures
        sound(simple_content_content_steps(content, n)),
        forall|i: Item| #[trigger]
            gives(simple_content_content_steps(content, n), i) <==> exists|k: int|
                0 <= k < n && in_simple_content_part(#[trigger] content[k], i),
    decreases content, n,
{
    let all = simple_content_content_steps(content, n);
    if n > 0 {
        let m = (n - 1) as nat;
        let front = simple_content_content_steps(content, m);
        let last = simple_content_content_item(content[m as int]);
        lemma_simple_content_list(content, m);
        lemma_simple_content_part(content[m as int]);
        assert(all == front + last);
        lemma_gives_add(front, last);
        assert forall|i: Item| #[trigger] gives(all, i) <==> exists|k: int|
            0 <= k < n && in_simple_content_part(#[trigger] content[k], i) by {
            assert(gives(all, i) <==> gives(front, i) || gives(last, i));
            if gives(front, i) {
                let k = choose|k: int| 0 <= k < m && in_simple_content_part(#[trigger] content[k], i);
                assert(in_simple_content_part(content[k], i));
            }
            if gives(last, i) {
                assert(in_simple_content_part(content[m as int], i));
            }
            if exists|k: int| 0 <= k < n && in_simple_content_part(#[trigger] content[k], i) {
                let k = choose|k: int| 0 <= k < n && in_simple_content_part(#[trigger] content[k], i);
                if k == m {
                    assert(gives(last, i));
                } else {
                    assert(gives(front, i));
                }
            }
        }
    }
}

/// The items of such a part.
proof fn lemma_simple_content_part(c: SimpleContentContent)
    ensures
        sound(simple_content_content_item(c)),
        forall|i: Item| #[trigger] gives(simple_content_content_item(c), i) <==>
            in_simple_content_part(c, i),
    decreases c, 0nat,
{
    match c {
        SimpleContentContent::Restriction(x) => {
            lemma_restriction(x);
        },
        SimpleContentContent::Extension(x) => {
            lemma_extension(x);
        },
        _ => {
            lemma_gives_none();
        },
    }
}

/// The items of a complex content.
proof fn lemma_complex_content(ty: ComplexContent)
    ensures
        sound(complex_content_steps(ty)),
        forall|i: Item| #[trigger] gives(complex_content_steps(ty), i) <==> in_complex_content(ty, i),
    decreases ty, 0nat,
{
    lemma_complex_content_list(ty.content@, ty.content@.len());
}

/// The items of the first `n` parts.
proof fn lemma_complex_content_list(content: Seq<ComplexContentContent>, n: nat)
    requires
        n <= content.len(),
    ensures
        sound(complex_content_content_steps(content, n)),
        forall|i: Item| #[trigger]
            gives(complex_content_content_steps(content, n), i) <==> exists|k: int|
                0 <= k < n && in_complex_content_part(#[trigger] content[k], i),
    decreases content, n,
{
    let all = complex_content_content_steps(content, n);
    if n > 0 {
        let m = (n - 1) as nat;
        let front = complex_content_content_steps(content, m);
        let last = complex_content_content_item(content[m as int]);
        lemma_complex_content_list(content, m);
        lemma_complex_content_part(content[m as int]);
        assert(all == front + last);
        lemma_gives_add(front, last);
        assert forall|i: Item| #[trigger] gives(all, i) <==> exists|k: int|
            0 <= k < n && in_complex_content_part(#[trigger] content[k], i) by {
            assert(gives(all, i) <==> gives(front, i) || gives(last, i));
            if gives(front, i) {
                let k = choose|k: int| 0 <= k < m && in_complex_content_part(#[trigger] content[k], i);
                assert(in_complex_content_part(content[k], i));
            }
            if gives(last, i) {
                assert(in_complex_content_part(content[m as int], i));
            }
            if exists|k: int| 0 <= k < n && in_complex_content_part(#[trigger] content[k], i) {
                let k = choose|k: int| 0 <= k < n && in_complex_content_part(#[trigger] content[k], i);
                if k == m {
                    assert(gives(last, i));
                } else {
                    assert(gives(front, i));
                }
            }
        }
    }
}

/// The items of such a part.
proof fn lemma_complex_content_part(c: ComplexContentContent)
    ensures
        sound(complex_content_content_item(c)),
        forall|i: Item| #[trigger] gives(complex_content_content_item(c), i) <==>
            in_complex_content_part(c, i),
    decreases c, 0nat,
{
    match c {
        ComplexContentContent::Restriction(x) => {
            lemma_restriction(x);
        },
        ComplexContentContent::Extension(x) => {
            lemma_extension(x);
        },
        _ => {
            lemma_gives_none();
        },
    }
}

/// The items of a restriction of a type.
proof fn lemma_restriction(ty: RestrictionType)
    ensures
        sound(restriction_steps(ty)),
        forall|i: Item| #[trigger] gives(restriction_steps(ty), i) <==> in_restriction(ty, i),
    decreases ty, 0nat,
{
    let a = seq![reference(IdentType::Type, ty.base, Strength::Strong)];
    let b = restriction_content_steps(ty.content@, ty.content@.len());
    lemma_gives_one(reference(IdentType::Type, ty.base, Strength::Strong));
    lemma_restriction_list(ty.content@, ty.content@.len());
    assert(restriction_steps(ty) == a + b);
    lemma_gives_add(a, b);
    assert forall|i: Item| #[trigger] gives(restriction_steps(ty), i) <==> in_restriction(ty, i) by {
        assert(gives(a + b, i) <==> gives(a, i) || gives(b, i));
    }
}

/// The items of the first `n` parts.
proof fn lemma_restriction_list(content: Seq<RestrictionTypeContent>, n: nat)
    requires
        n <= content.len(),
    ensures
        sound(restriction_content_steps(content, n)),
        forall|i: Item| #[trigger]
            gives(restriction_content_steps(content, n), i) <==> exists|k: int|
                0 <= k < n && in_restriction_part(#[trigger] content[k], i),
    decreases content, n,
{
    let all = restriction_content_steps(content, n);
    if n > 0 {
        let m = (n - 1) as nat;
        let front = restriction_content_steps(content, m);
        let last = restriction_content_item(content[m as int]);
        lemma_restriction_list(content, m);
        lemma_restriction_part(content[m as int]);
        assert(all == front + last);
        lemma_gives_add(front, last);
        assert forall|i: Item| #[trigger] gives(all, i) <==> exists|k: int|
            0 <= k < n && in_restriction_part(#[trigger] content[k], i) by {
            assert(gives(all, i) <==> gives(front, i) || gives(last, i));
            if gives(front, i) {
                let k = choose|k: int| 0 <= k < m && in_restriction_part(#[trigger] content[k], i);
                assert(in_restriction_part(content[k], i));
            }
            if gives(last, i) {
                assert(in_restriction_part(content[m as int], i));
            }
            if exists|k: int| 0 <= k < n && in_restriction_part(#[trigger] content[k], i) {
                let k = choose|k: int| 0 <= k < n && in_restriction_part(#[trigger] content[k], i);
                if k == m {
                    assert(gives(last, i));
                } else {
                    assert(gives(front, i));
                }
            }
        }
    }
}

/// The items of such a part.
proof fn lemma_restriction_part(c: RestrictionTypeContent)
    ensures
        sound(restriction_content_item(c)),
        forall|i: Item| #[trigger] gives(restriction_content_item(c), i) <==>
            in_restriction_part(c, i),
    decreases c, 0nat,
{
    match c {
        RestrictionTypeContent::Group(x) => {
            lemma_local_group(x);
        },
        RestrictionTypeContent::All(x) => {
            lemma_group(x);
        },
        RestrictionTypeContent::Choice(x) => {
            lemma_group(x);
        },
        RestrictionTypeContent::Sequence(x) => {
            lemma_group(x);
        },
        RestrictionTypeContent::SimpleType(x) => {
            lemma_simple_type(x);
        },
        RestrictionTypeContent::Attribute(x) => {
            lemma_local_attribute(x);
        },
        RestrictionTypeContent::AttributeGroup(x) => {
            lemma_local_attribute_group(x);
        },
        _ => {
            lemma_gives_none();
        },
    }
}

/// The items of an extension of a type.
proof fn lemma_extension(ty: ExtensionType)
    ensures
        sound(extension_steps(ty)),
        forall|i: Item| #[trigger] gives(extension_steps(ty), i) <==> in_extension(ty, i),
    decreases ty, 0nat,
{
    let a = seq![reference(IdentType::Type, ty.base, Strength::Strong)];
    let b = extension_content_steps(ty.content@, ty.content@.len());
    lemma_gives_one(reference(IdentType::Type, ty.base, Strength::Strong));
    lemma_extension_list(ty.content@, ty.content@.len());
    assert(extension_steps(ty) == a + b);
    lemma_gives_add(a, b);
    assert forall|i: Item| #[trigger] gives(extension_steps(ty), i) <==> in_extension(ty, i) by {
        assert(gives(a + b, i) <==> gives(a, i) || gives(b, i));
    }
}

/// The items of the first `n` parts.
proof fn lemma_extension_list(content: Seq<ExtensionTypeContent>, n: nat)
    requires
        n <= content.len(),
    ensures
        sound(extension_content_steps(content, n)),
        forall|i: Item| #[trigger]
            gives(extension_content_steps(content, n), i) <==> exists|k: int|
                0 <= k < n && in_extension_part(#[trigger] content[k], i),
    decreases content, n,
{
    let all = extension_content_steps(content, n);
    if n > 0 {
        let m = (n - 1) as nat;
        let front = extension_content_steps(content, m);
        let last = extension_content_item(content[m as int]);
        lemma_extension_list(content, m);
        lemma_extension_part(content[m as int]);
        assert(all == front + last);
        lemma_gives_add(front, last);
        assert forall|i: Item| #[trigger] gives(all, i) <==> exists|k: int|
            0 <= k < n && in_extension_part(#[trigger] content[k], i) by {
            assert(gives(all, i) <==> gives(front, i) || gives(last, i));
            if gives(front, i) {
                let k = choose|k: int| 0 <= k < m && in_extension_part(#[trigger] content[k], i);
                assert(in_extension_part(content[k], i));
            }
            if gives(last, i) {
                assert(in_extension_part(content[m as int], i));
            }
            if exists|k: int| 0 <= k < n && in_extension_part(#[trigger] content[k], i) {
                let k = choose|k: int| 0 <= k < n && in_extension_part(#[trigger] content[k], i);
                if k == m {
                    assert(gives(last, i));
                } else {
                    assert(gives(front, i));
                }
            }
        }
    }
}

/// The items of such a part.
proof fn lemma_extension_part(c: ExtensionTypeContent)
    ensures
        sound(extension_content_item(c)),
        forall|i: Item| #[trigger] gives(extension_content_item(c), i) <==> in_extension_part(c, i),
    decreases c, 0nat,
{
    match c {
        ExtensionTypeContent::Group(x) => {
            lemma_local_group(x);
        },
        ExtensionTypeContent::All(x) => {
            lemma_group(x);
        },
        ExtensionTypeContent::Choice(x) => {
            lemma_group(x);
        },
        ExtensionTypeContent::Sequence(x) => {
            lemma_group(x);
        },
        ExtensionTypeContent::Attribute(x) => {
            lemma_local_attribute(x);
        },
        ExtensionTypeContent::AttributeGroup(x) => {
            lemma_local_attribute_group(x);
        },
        _ => {
            lemma_gives_none();
        },
    }
}

/// The items of what a group holds.
proof fn lemma_group(ty: GroupType)
    ensures
        sound(group_content_steps(ty)),
        forall|i: Item| #[trigger] gives(group_content_steps(ty), i) <==> in_group(ty, i),
    decreases ty, 0nat,
{
    lemma_group_list(ty.content@, ty.content@.len());
}

/// The items of the first `n` parts.
proof fn lemma_group_list(content: Seq<GroupTypeContent>, n: nat)
    requires
        n <= content.len(),
    ensures
        sound(group_list_steps(content, n)),
        forall|i: Item| #[trigger]
            gives(group_list_steps(content, n), i) <==> exists|k: int|
                0 <= k < n && in_group_part(#[trigger] content[k], i),
    decreases content, n,
{
    let all = group_list_steps(content, n);
    if n > 0 {
        let m = (n - 1) as nat;
        let front = group_list_steps(content, m);
        let last = group_list_item(content[m as int]);
        lemma_group_list(content, m);
        lemma_group_part(content[m as int]);
        assert(all == front + last);
        lemma_gives_add(front, last);
        assert forall|i: Item| #[trigger] gives(all, i) <==> exists|k: int|
            0 <= k < n && in_group_part(#[trigger] content[k], i) by {
            assert(gives(all, i) <==> gives(front, i) || gives(last, i));
            if gives(front, i) {
                let k = choose|k: int| 0 <= k < m && in_group_part(#[trigger] content[k], i);
                assert(in_group_part(content[k], i));
            }
            if gives(last, i) {
                assert(in_group_part(content[m as int], i));
            }
            if exists|k: int| 0 <= k < n && in_group_part(#[trigger] content[k], i) {
                let k = choose|k: int| 0 <= k < n && in_group_part(#[trigger] content[k], i);
                if k == m {
                    assert(gives(last, i));
                } else {
                    assert(gives(front, i));
                }
            }
        }
    }
}

/// The items of such a part.
proof fn lemma_group_part(c: GroupTypeContent)
    ensures
        sound(group_list_item(c)),
        forall|i: Item| #[trigger] gives(group_list_item(c), i) <==> in_group_part(c, i),
    decreases c, 0nat,
{
    match c {
        GroupTypeContent::Group(x) => {
            lemma_local_group(x);
        },
        GroupTypeContent::Element(x) => {
            lemma_local_element(x);
        },
        GroupTypeContent::All(x) => {
            lemma_group(x);
        },
        GroupTypeContent::Choice(x) => {
            lemma_group(x);
        },
        GroupTypeContent::Sequence(x) => {
            lemma_group(x);
        },
        _ => {
            lemma_gives_none();
        },
    }
}

/// The items of a declared group.
proof fn lemma_declared_group(ty: GroupType)
    ensures
        sound(group_steps(ty)),
        forall|i: Item| #[trigger] gives(group_steps(ty), i) <==> in_group(ty, i),
    decreases ty, 1nat,
{
    let step = Step::Within { marker: Marker::Group, body: group_content_steps(ty) };
    lemma_group(ty);
    lemma_gives_one(step);
    assert(group_steps(ty) == seq![step]);
    assert forall|i: Item| #[trigger] gives(group_steps(ty), i) <==> in_group(ty, i) by {
        assert(step_gives(step, i) <==> gives(group_content_steps(ty), i));
    }
}

/// The items of a group that stands in another definition.
proof fn lemma_local_group(ty: GroupType)
    ensures
        sound(group_ref_steps(ty)),
        forall|i: Item| #[trigger] gives(group_ref_steps(ty), i) <==> in_local_group(ty, i),
    decreases ty, 2nat,
{
    let a = opt_reference(IdentType::Group, ty.ref_, Strength::Lazy);
    let b = group_steps(ty);
    lemma_opt_reference(IdentType::Group, ty.ref_, Strength::Lazy);
    lemma_declared_group(ty);
    assert(group_ref_steps(ty) == a + b);
    lemma_gives_add(a, b);
    assert forall|i: Item| #[trigger] gives(group_ref_steps(ty), i) <==> in_local_group(ty, i) by {
        assert(gives(a + b, i) <==> gives(a, i) || gives(b, i));
    }
}

/// The items of the first `n` parts.
proof fn lemma_attribute_group_list(content: Seq<AttributeGroupTypeContent>, n: nat)
    requires
        n <= content.len(),
    ensures
        sound(attribute_group_content_steps(content, n)),
        forall|i: Item| #[trigger]
            gives(attribute_group_content_steps(content, n), i) <==> exists|k: int|
                0 <= k < n && in_attribute_group_part(#[trigger] content[k], i),
    decreases content, n,
{
    let all = attribute_group_content_steps(content, n);
    if n > 0 {
        let m = (n - 1) as nat;
        let front = attribute_group_content_steps(content, m);
        let last = attribute_group_content_item(content[m as int]);
        lemma_attribute_group_list(content, m);
        lemma_attribute_group_part(content[m as int]);
        assert(all == front + last);
        lemma_gives_add(front, last);
        assert forall|i: Item| #[trigger] gives(all, i) <==> exists|k: int|
            0 <= k < n && in_attribute_group_part(#[trigger] content[k], i) by {
            assert(gives(all, i) <==> gives(front, i) || gives(last, i));
            if gives(front, i) {
                let k = choose|k: int| 0 <= k < m && in_attribute_group_part(#[trigger] content[k], i);
                assert(in_attribute_group_part(content[k], i));
            }
            if gives(last, i) {
                assert(in_attribute_group_part(content[m as int], i));
            }
            if exists|k: int| 0 <= k < n && in_attribute_group_part(#[trigger] content[k], i) {
                let k = choose|k: int| 0 <= k < n && in_attribute_group_part(#[trigger] content[k], i);
                if k == m {
                    assert(gives(last, i));
                } else {
                    assert(gives(front, i));
                }
            }
        }
    }
}

/// The items of such a part.
proof fn lemma_attribute_group_part(c: AttributeGroupTypeContent)
    ensures
        sound(attribute_group_content_item(c)),
        forall|i: Item| #[trigger] gives(attribute_group_content_item(c), i) <==>
            in_attribute_group_part(c, i),
    decreases c, 0nat,
{
    match c {
        AttributeGroupTypeContent::Attribute(x) => {
            lemma_local_attribute(x);
        },
        AttributeGroupTypeContent::AttributeGroup(x) => {
            lemma_local_attribute_group(x);
        },
        _ => {
            lemma_gives_none();
        },
    }
}

/// The items of a declared attribute group.
proof fn lemma_attribute_group(ty: AttributeGroupType)
    ensures
        sound(attribute_group_steps(ty)),
        forall|i: Item| #[trigger] gives(attribute_group_steps(ty), i) <==> in_attribute_group(ty, i),
    decreases ty, 1nat,
{
    let body = attribute_group_content_steps(ty.content@, ty.content@.len());
    let step = Step::Within { marker: Marker::AttributeGroup, body };
    lemma_attribute_group_list(ty.content@, ty.content@.len());
    lemma_gives_one(step);
    assert(attribute_group_steps(ty) == seq![step]);
    assert forall|i: Item| #[trigger] gives(attribute_group_steps(ty), i) <==> in_attribute_group(
        ty,
        i,
    ) by {
        assert(step_gives(step, i) <==> gives(body, i));
    }
}

/// The items of an attribute group that stands in another definition.
proof fn lemma_local_attribute_group(ty: AttributeGroupType)
    ensures
        sound(attribute_group_ref_steps(ty)),
        forall|i: Item| #[trigger] gives(attribute_group_ref_steps(ty), i) <==>
            in_local_attribute_group(ty, i),
    decreases ty, 2nat,
{
    let a = opt_reference(IdentType::AttributeGroup, ty.ref_, Strength::Lazy);
    let b = attribute_group_steps(ty);
    lemma_opt_reference(IdentType::AttributeGroup, ty.ref_, Strength::Lazy);
    lemma_attribute_group(ty);
    assert(attribute_group_ref_steps(ty) == a + b);
    lemma_gives_add(a, b);
    assert forall|i: Item| #[trigger] gives(attribute_group_ref_steps(ty), i) <==>
        in_local_attribute_group(ty, i) by {
        assert(gives(a + b, i) <==> gives(a, i) || gives(b, i));
    }
}

/// The items of an attribute that stands in another definition.
proof fn lemma_local_attribute(ty: AttributeType)
    ensures
        sound(attribute_ref_steps(ty)),
        forall|i: Item| #[trigger] gives(attribute_ref_steps(ty), i) <==> in_local_attribute(ty, i),
    decreases ty, 1nat,
{
    let a = opt_reference(IdentType::Attribute, ty.ref_, Strength::Weak);
    let b = opt_reference(IdentType::Type, ty.type_, Strength::Weak);
    let c = attribute_ref_type_steps(ty);
    lemma_opt_reference(IdentType::Attribute, ty.ref_, Strength::Weak);
    lemma_opt_reference(IdentType::Type, ty.type_, Strength::Weak);
    match ty.simple_type {
        Some(x) => {
            lemma_inline_simple_type(x, attribute_naming(ty, x));
        },
        None => {
            lemma_gives_none();
        },
    }
    assert(attribute_ref_steps(ty) == a + b + c);
    lemma_gives_add(a, b);
    lemma_gives_add(a + b, c);
    assert forall|i: Item| #[trigger] gives(attribute_ref_steps(ty), i) <==> in_local_attribute(
        ty,
        i,
    ) by {
        assert(gives(a + b + c, i) <==> gives(a + b, i) || gives(c, i));
        assert(gives(a + b, i) <==> gives(a, i) || gives(b, i));
    }
}

/// The items of an element that stands in another definition.
proof fn lemma_local_element(ty: ElementType)
    ensures
        sound(element_ref_steps(ty)),
        forall|i: Item| #[trigger] gives(element_ref_steps(ty), i) <==> in_local_element(ty, i),
    decreases ty, 3nat,
{
    let a = opt_reference(IdentType::Element, ty.ref_, Strength::Weak);
    let b = opt_reference(IdentType::Type, ty.type_, Strength::Weak);
    let c = element_ref_type_steps(ty);
    lemma_opt_reference(IdentType::Element, ty.ref_, Strength::Weak);
    lemma_opt_reference(IdentType::Type, ty.type_, Strength::Weak);
    if ty.type_ is None && ty.ref_ is None {
        let step = inline_element(ty);
        lemma_element(ty);
        assert(step_sound(step));
        lemma_gives_one(step);
    } else {
        lemma_gives_none();
    }
    assert(element_ref_steps(ty) == a + b + c);
    lemma_gives_add(a, b);
    lemma_gives_add(a + b, c);
    assert forall|i: Item| #[trigger] gives(element_ref_steps(ty), i) <==> in_local_element(
        ty,
        i,
    ) by {
        assert(gives(a + b + c, i) <==> gives(a + b, i) || gives(c, i));
        assert(gives(a + b, i) <==> gives(a, i) || gives(b, i));
    }
}

/// The steps of a definition are of what stands in it, and of nothing else.
pub proof fn lemma_node_steps(node: NodeView)
    ensures
        sound(node_steps(node)),
        forall|i: Item| #[trigger] gives(node_steps(node), i) <==> stands_in(node, i),
{
    match node {
        NodeView::Element(x) => {
            lemma_element(x);
        },
        NodeView::Attribute(x) => {
            lemma_attribute(x);
        },
        NodeView::SimpleType(x) => {
            lemma_simple_type(x);
        },
        NodeView::ComplexType(x) => {
            lemma_complex_type(x);
        },
        NodeView::Group(x) => {
            lemma_declared_group(x);
        },
        NodeView::AttributeGroup(x) => {
            lemma_attribute_group(x);
        },
    }
}

} // verus!
