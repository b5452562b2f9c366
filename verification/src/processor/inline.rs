//! Whether what is defined in place can be told apart.

use vstd::prelude::*;

use crate::ident::IdentType;
use crate::keys::{
    inline_keys, inner_keys_differ, keys_differ, lemma_keys_add, lemma_keys_none, lemma_keys_one,
    lemma_keys_references,
};
use crate::nodes::{Node, NodeDependencyKey};
use crate::ordmap::OrdSet;
use crate::steps::{
    attribute_group_content_item, attribute_group_content_steps, attribute_group_ref_steps,
    attribute_group_steps, attribute_naming, attribute_ref_steps, attribute_ref_type_steps,
    attribute_steps, attribute_type_steps, complex_content_content_item,
    complex_content_content_steps, complex_content_steps, complex_type_content_item,
    complex_type_content_steps, complex_type_steps, element_content_item, element_content_steps,
    element_ref_steps, element_ref_type_steps, element_steps, extension_content_item,
    extension_content_steps, extension_steps, group_content_steps, group_list_item,
    group_list_steps, group_ref_steps, group_steps, inline_element, inline_simple_type, item_naming,
    list_steps, list_type_steps, node_steps, opt_reference, opt_references, reference,
    restriction_content_item, restriction_content_steps, restriction_steps,
    simple_content_content_item, simple_content_content_steps, simple_content_steps,
    simple_restriction_content_item, simple_restriction_content_steps, simple_restriction_steps,
    simple_type_content_item, simple_type_content_steps, simple_type_steps, union_member_item,
    union_member_steps, union_steps,
};
use crate::steps::{DependencyKeyView, Marker, Naming, Step, Strength};
use crate::text::opt_text;
use crate::xs::{
    AttributeGroupType, AttributeGroupTypeContent, AttributeType, ComplexBaseType,
    ComplexBaseTypeContent, ComplexContent, ComplexContentContent, ElementType, ElementTypeContent,
    ExtensionType, ExtensionTypeContent, GroupType, GroupTypeContent, List, Restriction,
    RestrictionContent, RestrictionType, RestrictionTypeContent, SimpleBaseType,
    SimpleBaseTypeContent, SimpleContent, SimpleContentContent, Union,
};

verus! {

/// The views of keys.
pub open spec fn key_views(keys: Seq<NodeDependencyKey>) -> Seq<DependencyKeyView> {
    Seq::new(keys.len(), |i: int| keys[i]@)
}

/// Whether no key occurs twice.
fn all_differ(keys: &Vec<NodeDependencyKey>) -> (b: bool)
    ensures
        b == key_views(keys@).no_duplicates(),
{
    let ghost all = key_views(keys@);
    let mut seen: OrdSet<NodeDependencyKey> = OrdSet::new();
    let mut i: usize = 0;
    while i < keys.len()
        invariant
            all == key_views(keys@),
            i <= all.len(),
            forall|k: DependencyKeyView| #[trigger]
                seen@.contains(k) <==> exists|j: int| 0 <= j < i && #[trigger] all[j] == k,
            forall|j: int, k: int| 0 <= j < i && 0 <= k < i && j != k ==> all[j] != all[k],
        decreases all.len() - i,
    {
        let key = match &keys[i] {
            NodeDependencyKey::Named(ns, kind, text) => NodeDependencyKey::Named(
                *ns,
                *kind,
                text.clone(),
            ),
            NodeDependencyKey::InlineSimpleType(n) => NodeDependencyKey::InlineSimpleType(*n),
            NodeDependencyKey::InlineElement(n) => NodeDependencyKey::InlineElement(*n),
        };
        assert(key@ == all[i as int]);
        if !seen.insert(key) {
            return false;
        }
        i = i + 1;
    }
    true
}

/// Collects the keys of a declared element.
fn element_keys(ty: &ElementType, keys: &mut Vec<NodeDependencyKey>) -> (ok: bool)
    ensures
        key_views(final(keys)@) == key_views(old(keys)@) + inline_keys(element_steps(*ty)),
        ok == inner_keys_differ(element_steps(*ty)),
    decreases *ty, 0nat,
{
    let ghost start = key_views(keys@);
    proof {
        lemma_keys_none();
        let refs = opt_reference(IdentType::Type, ty.type_, Strength::Weak) + opt_references(
            IdentType::Element,
            ty.substitution_group,
            Strength::Strong,
        );
        lemma_keys_references(refs);
        lemma_keys_add(refs, element_content_steps(ty.content@, ty.content@.len()));
    }
    let mut ok = true;
    let mut i: usize = 0;
    assert(start + Seq::empty() =~= start);
    while i < ty.content.len()
        invariant
            i <= ty.content@.len(),
            key_views(keys@) == start + inline_keys(element_content_steps(ty.content@, i as nat)),
            ok == inner_keys_differ(element_content_steps(ty.content@, i as nat)),
        decreases ty.content@.len() - i,
    {
        let ghost before = key_views(keys@);
        proof {
            lemma_keys_none();
            assert(before + Seq::empty() =~= before);
            lemma_keys_add(
                element_content_steps(ty.content@, i as nat),
                element_content_item(ty.content@[i as int]),
            );
        }
        let part = match &ty.content[i] {
            ElementTypeContent::SimpleType(x) => simple_type_keys(x, keys),
            ElementTypeContent::ComplexType(x) => complex_type_keys(x, keys),
            _ => true,
        };
        ok = part && ok;
        i = i + 1;
        assert(key_views(keys@) =~= start + inline_keys(
            element_content_steps(ty.content@, i as nat),
        ));
    }
    assert(key_views(keys@) =~= start + inline_keys(element_steps(*ty)));
    ok
}

/// Collects the keys of a declared attribute.
fn attribute_keys(ty: &AttributeType, keys: &mut Vec<NodeDependencyKey>) -> (ok: bool)
    ensures
        key_views(final(keys)@) == key_views(old(keys)@) + inline_keys(attribute_steps(*ty)),
        ok == inner_keys_differ(attribute_steps(*ty)),
    decreases *ty, 0nat,
{
    let ghost start = key_views(keys@);
    proof {
        lemma_keys_none();
        let refs = opt_reference(IdentType::Type, ty.type_, Strength::Weak);
        lemma_keys_references(refs);
        lemma_keys_add(refs, attribute_type_steps(*ty));
        assert(start + Seq::empty() =~= start);
    }
    let ok = match &ty.simple_type {
        Some(x) => simple_type_keys(x, keys),
        None => true,
    };
    assert(key_views(keys@) =~= start + inline_keys(attribute_steps(*ty)));
    ok
}

/// Collects the keys of a simple type.
fn simple_type_keys(ty: &SimpleBaseType, keys: &mut Vec<NodeDependencyKey>) -> (ok: bool)
    ensures
        key_views(final(keys)@) == key_views(old(keys)@) + inline_keys(simple_type_steps(*ty)),
        ok == inner_keys_differ(simple_type_steps(*ty)),
    decreases *ty, 0nat,
{
    let ghost start = key_views(keys@);
    proof {
        lemma_keys_none();
    }
    let mut ok = true;
    let mut i: usize = 0;
    assert(start + Seq::empty() =~= start);
    while i < ty.content.len()
        invariant
            i <= ty.content@.len(),
            key_views(keys@) == start + inline_keys(
                simple_type_content_steps(ty.content@, i as nat),
            ),
            ok == inner_keys_differ(simple_type_content_steps(ty.content@, i as nat)),
        decreases ty.content@.len() - i,
    {
        let ghost before = key_views(keys@);
        proof {
            lemma_keys_none();
            assert(before + Seq::empty() =~= before);
            lemma_keys_add(
                simple_type_content_steps(ty.content@, i as nat),
                simple_type_content_item(ty.content@[i as int]),
            );
        }
        let part = match &ty.content[i] {
            SimpleBaseTypeContent::List(x) => list_keys(x, keys),
            SimpleBaseTypeContent::Union(x) => union_keys(x, keys),
            SimpleBaseTypeContent::Restriction(x) => simple_restriction_keys(x, keys),
            SimpleBaseTypeContent::Annotation => true,
        };
        ok = part && ok;
        i = i + 1;
        assert(key_views(keys@) =~= start + inline_keys(
            simple_type_content_steps(ty.content@, i as nat),
        ));
    }
    ok
}

/// Collects the keys of a restriction of a simple type.
fn simple_restriction_keys(ty: &Restriction, keys: &mut Vec<NodeDependencyKey>) -> (ok: bool)
    ensures
        key_views(final(keys)@) == key_views(old(keys)@) + inline_keys(
            simple_restriction_steps(*ty),
        ),
        ok == inner_keys_differ(simple_restriction_steps(*ty)),
    decreases *ty, 0nat,
{
    let ghost start = key_views(keys@);
    proof {
        lemma_keys_none();
        let refs = opt_reference(IdentType::Type, ty.base, Strength::Strong);
        lemma_keys_references(refs);
        lemma_keys_add(refs, simple_restriction_content_steps(ty.content@, ty.content@.len()));
    }
    let mut ok = true;
    let mut i: usize = 0;
    assert(start + Seq::empty() =~= start);
    while i < ty.content.len()
        invariant
            i <= ty.content@.len(),
            key_views(keys@) == start + inline_keys(
                simple_restriction_content_steps(ty.content@, i as nat),
            ),
            ok == inner_keys_differ(simple_restriction_content_steps(ty.content@, i as nat)),
        decreases ty.content@.len() - i,
    {
        let ghost before = key_views(keys@);
        proof {
            lemma_keys_none();
            assert(before + Seq::empty() =~= before);
            lemma_keys_add(
                simple_restriction_content_steps(ty.content@, i as nat),
                simple_restriction_content_item(ty.content@[i as int]),
            );
        }
        let part = match &ty.content[i] {
            RestrictionContent::SimpleType(x) => simple_type_keys(x, keys),
            _ => true,
        };
        ok = part && ok;
        i = i + 1;
        assert(key_views(keys@) =~= start + inline_keys(
            simple_restriction_content_steps(ty.content@, i as nat),
        ));
    }
    assert(key_views(keys@) =~= start + inline_keys(simple_restriction_steps(*ty)));
    ok
}

/// Adds the key of a simple type that is defined in place. Tells whether the keys in it differ.
fn inline_simple_type_keys(x: &SimpleBaseType, keys: &mut Vec<NodeDependencyKey>) -> (ok: bool)
    ensures
        key_views(final(keys)@) == key_views(old(keys)@).push(
            DependencyKeyView::InlineSimpleType(x.id),
        ),
        ok == keys_differ(simple_type_steps(*x)),
    decreases *x, 1nat,
{
    let ghost start = key_views(keys@);
    let mut inner: Vec<NodeDependencyKey> = Vec::new();
    let sound = simple_type_keys(x, &mut inner);
    assert(key_views(inner@) =~= inline_keys(simple_type_steps(*x)));
    let differ = all_differ(&inner);
    keys.push(NodeDependencyKey::InlineSimpleType(x.id));
    assert(key_views(keys@) =~= start.push(DependencyKeyView::InlineSimpleType(x.id)));
    sound && differ
}

/// Collects the keys of a list.
fn list_keys(ty: &List, keys: &mut Vec<NodeDependencyKey>) -> (ok: bool)
    ensures
        key_views(final(keys)@) == key_views(old(keys)@) + inline_keys(list_steps(*ty)),
        ok == inner_keys_differ(list_steps(*ty)),
    decreases *ty, 0nat,
{
    let ghost start = key_views(keys@);
    proof {
        lemma_keys_none();
        let refs = opt_reference(IdentType::Type, ty.item_type, Strength::Weak);
        lemma_keys_references(refs);
        lemma_keys_add(refs, list_type_steps(*ty));
        if let Some(x) = &ty.simple_type {
            lemma_keys_one(inline_simple_type(**x, item_naming(*ty, **x)));
        }
    }
    let ok = match &ty.simple_type {
        Some(x) => inline_simple_type_keys(x, keys),
        None => true,
    };
    assert(key_views(keys@) =~= start + inline_keys(list_steps(*ty)));
    ok
}

/// Collects the keys of a union.
fn union_keys(ty: &Union, keys: &mut Vec<NodeDependencyKey>) -> (ok: bool)
    ensures
        key_views(final(keys)@) == key_views(old(keys)@) + inline_keys(union_steps(*ty)),
        ok == inner_keys_differ(union_steps(*ty)),
    decreases *ty, 0nat,
{
    let ghost start = key_views(keys@);
    let ghost members = ty.simple_type@;
    proof {
        lemma_keys_none();
        let refs = opt_references(IdentType::Type, ty.member_types, Strength::Weak);
        lemma_keys_references(refs);
        lemma_keys_add(refs, union_member_steps(members, members.len()));
    }
    let mut ok = true;
    let mut i: usize = 0;
    assert(start + Seq::empty() =~= start);
    while i < ty.simple_type.len()
        invariant
            members == ty.simple_type@,
            i <= members.len(),
            key_views(keys@) == start + inline_keys(union_member_steps(members, i as nat)),
            ok == inner_keys_differ(union_member_steps(members, i as nat)),
        decreases members.len() - i,
    {
        let x = &ty.simple_type[i];
        proof {
            lemma_keys_add(union_member_steps(members, i as nat), union_member_item(*x));
            lemma_keys_one(inline_simple_type(*x, Naming::Member { own: opt_text(x.name) }));
        }
        let part = inline_simple_type_keys(x, keys);
        ok = part && ok;
        i = i + 1;
        assert(key_views(keys@) =~= start + inline_keys(union_member_steps(members, i as nat)));
    }
    assert(key_views(keys@) =~= start + inline_keys(union_steps(*ty)));
    ok
}

/// Collects the keys of a part of a complex type.
fn complex_type_part_keys(
    c: &ComplexBaseTypeContent,
    keys: &mut Vec<NodeDependencyKey>,
) -> (ok: bool)
    ensures
        key_views(final(keys)@) == key_views(old(keys)@) + inline_keys(
            complex_type_content_item(*c),
        ),
        ok == inner_keys_differ(complex_type_content_item(*c)),
    decreases *c, 0nat,
{
    proof {
        lemma_keys_none();
        assert(key_views(keys@) + Seq::empty() =~= key_views(keys@));
    }
    match c {
        ComplexBaseTypeContent::SimpleContent(x) => simple_content_keys(x, keys),
        ComplexBaseTypeContent::ComplexContent(x) => complex_content_keys(x, keys),
        ComplexBaseTypeContent::All(x) => group_content_keys(x, keys),
        ComplexBaseTypeContent::Choice(x) => group_content_keys(x, keys),
        ComplexBaseTypeContent::Sequence(x) => group_content_keys(x, keys),
        ComplexBaseTypeContent::Attribute(x) => attribute_ref_keys(x, keys),
        ComplexBaseTypeContent::Group(x) => group_ref_keys(x, keys),
        ComplexBaseTypeContent::AttributeGroup(x) => attribute_group_ref_keys(x, keys),
        _ => true,
    }
}

/// Collects the keys of a complex type.
fn complex_type_keys(ty: &ComplexBaseType, keys: &mut Vec<NodeDependencyKey>) -> (ok: bool)
    ensures
        key_views(final(keys)@) == key_views(old(keys)@) + inline_keys(complex_type_steps(*ty)),
        ok == inner_keys_differ(complex_type_steps(*ty)),
    decreases *ty, 0nat,
{
    let ghost start = key_views(keys@);
    proof {
        lemma_keys_none();
    }
    let mut ok = true;
    let mut i: usize = 0;
    assert(start + Seq::empty() =~= start);
    while i < ty.content.len()
        invariant
            i <= ty.content@.len(),
            key_views(keys@) == start + inline_keys(
                complex_type_content_steps(ty.content@, i as nat),
            ),
            ok == inner_keys_differ(complex_type_content_steps(ty.content@, i as nat)),
        decreases ty.content@.len() - i,
    {
        let ghost before = key_views(keys@);
        proof {
            lemma_keys_none();
            assert(before + Seq::empty() =~= before);
            lemma_keys_add(
                complex_type_content_steps(ty.content@, i as nat),
                complex_type_content_item(ty.content@[i as int]),
            );
        }
        let part = complex_type_part_keys(&ty.content[i], keys);
        ok = part && ok;
        i = i + 1;
        assert(key_views(keys@) =~= start + inline_keys(
            complex_type_content_steps(ty.content@, i as nat),
        ));
    }
    ok
}

/// Collects the keys of a simple content.
fn simple_content_keys(ty: &SimpleContent, keys: &mut Vec<NodeDependencyKey>) -> (ok: bool)
    ensures
        key_views(final(keys)@) == key_views(old(keys)@) + inline_keys(simple_content_steps(*ty)),
        ok == inner_keys_differ(simple_content_steps(*ty)),
    decreases *ty, 0nat,
{
    let ghost start = key_views(keys@);
    proof {
        lemma_keys_none();
    }
    let mut ok = true;
    let mut i: usize = 0;
    assert(start + Seq::empty() =~= start);
    while i < ty.content.len()
        invariant
            i <= ty.content@.len(),
            key_views(keys@) == start + inline_keys(
                simple_content_content_steps(ty.content@, i as nat),
            ),
            ok == inner_keys_differ(simple_content_content_steps(ty.content@, i as nat)),
        decreases ty.content@.len() - i,
    {
        let ghost before = key_views(keys@);
        proof {
            lemma_keys_none();
            assert(before + Seq::empty() =~= before);
            lemma_keys_add(
                simple_content_content_steps(ty.content@, i as nat),
                simple_content_content_item(ty.content@[i as int]),
            );
        }
        let part = match &ty.content[i] {
            SimpleContentContent::Restriction(x) => restriction_keys(x, keys),
            SimpleContentContent::Extension(x) => extension_keys(x, keys),
            SimpleContentContent::Annotation => true,
        };
        ok = part && ok;
        i = i + 1;
        assert(key_views(keys@) =~= start + inline_keys(
            simple_content_content_steps(ty.content@, i as nat),
        ));
    }
    ok
}

/// Collects the keys of a complex content.
fn complex_content_keys(ty: &ComplexContent, keys: &mut Vec<NodeDependencyKey>) -> (ok: bool)
    ensures
        key_views(final(keys)@) == key_views(old(keys)@) + inline_keys(complex_content_steps(*ty)),
        ok == inner_keys_differ(complex_content_steps(*ty)),
    decreases *ty, 0nat,
{
    let ghost start = key_views(keys@);
    proof {
        lemma_keys_none();
    }
    let mut ok = true;
    let mut i: usize = 0;
    assert(start + Seq::empty() =~= start);
    while i < ty.content.len()
        invariant
            i <= ty.content@.len(),
            key_views(keys@) == start + inline_keys(
                complex_content_content_steps(ty.content@, i as nat),
            ),
            ok == inner_keys_differ(complex_content_content_steps(ty.content@, i as nat)),
        decreases ty.content@.len() - i,
    {
        let ghost before = key_views(keys@);
        proof {
            lemma_keys_none();
            assert(before + Seq::empty() =~= before);
            lemma_keys_add(
                complex_content_content_steps(ty.content@, i as nat),
                complex_content_content_item(ty.content@[i as int]),
            );
        }
        let part = match &ty.content[i] {
            ComplexContentContent::Restriction(x) => restriction_keys(x, keys),
            ComplexContentContent::Extension(x) => extension_keys(x, keys),
            ComplexContentContent::Annotation => true,
        };
        ok = part && ok;
        i = i + 1;
        assert(key_views(keys@) =~= start + inline_keys(
            complex_content_content_steps(ty.content@, i as nat),
        ));
    }
    ok
}

/// Collects the keys of a part of a restriction.
fn restriction_part_keys(
    c: &RestrictionTypeContent,
    keys: &mut Vec<NodeDependencyKey>,
) -> (ok: bool)
    ensures
        key_views(final(keys)@) == key_views(old(keys)@) + inline_keys(
            restriction_content_item(*c),
        ),
        ok == inner_keys_differ(restriction_content_item(*c)),
    decreases *c, 0nat,
{
    proof {
        lemma_keys_none();
        assert(key_views(keys@) + Seq::empty() =~= key_views(keys@));
    }
    match c {
        RestrictionTypeContent::Group(x) => group_ref_keys(x, keys),
        RestrictionTypeContent::All(x) => group_content_keys(x, keys),
        RestrictionTypeContent::Choice(x) => group_content_keys(x, keys),
        RestrictionTypeContent::Sequence(x) => group_content_keys(x, keys),
        RestrictionTypeContent::SimpleType(x) => simple_type_keys(x, keys),
        RestrictionTypeContent::Attribute(x) => attribute_ref_keys(x, keys),
        RestrictionTypeContent::AttributeGroup(x) => attribute_group_ref_keys(x, keys),
        _ => true,
    }
}

/// Collects the keys of a restriction of a complex type.
fn restriction_keys(ty: &RestrictionType, keys: &mut Vec<NodeDependencyKey>) -> (ok: bool)
    ensures
        key_views(final(keys)@) == key_views(old(keys)@) + inline_keys(restriction_steps(*ty)),
        ok == inner_keys_differ(restriction_steps(*ty)),
    decreases *ty, 0nat,
{
    let ghost start = key_views(keys@);
    proof {
        lemma_keys_none();
        let refs = seq![reference(IdentType::Type, ty.base, Strength::Strong)];
        lemma_keys_references(refs);
        lemma_keys_add(refs, restriction_content_steps(ty.content@, ty.content@.len()));
    }
    let mut ok = true;
    let mut i: usize = 0;
    assert(start + Seq::empty() =~= start);
    while i < ty.content.len()
        invariant
            i <= ty.content@.len(),
            key_views(keys@) == start + inline_keys(
                restriction_content_steps(ty.content@, i as nat),
            ),
            ok == inner_keys_differ(restriction_content_steps(ty.content@, i as nat)),
        decreases ty.content@.len() - i,
    {
        let ghost before = key_views(keys@);
        proof {
            lemma_keys_none();
            assert(before + Seq::empty() =~= before);
            lemma_keys_add(
                restriction_content_steps(ty.content@, i as nat),
                restriction_content_item(ty.content@[i as int]),
            );
        }
        let part = restriction_part_keys(&ty.content[i], keys);
        ok = part && ok;
        i = i + 1;
        assert(key_views(keys@) =~= start + inline_keys(
            restriction_content_steps(ty.content@, i as nat),
        ));
    }
    assert(key_views(keys@) =~= start + inline_keys(restriction_steps(*ty)));
    ok
}

/// Collects the keys of a part of an extension.
fn extension_part_keys(c: &ExtensionTypeContent, keys: &mut Vec<NodeDependencyKey>) -> (ok: bool)
    ensures
        key_views(final(keys)@) == key_views(old(keys)@) + inline_keys(extension_content_item(*c)),
        ok == inner_keys_differ(extension_content_item(*c)),
    decreases *c, 0nat,
{
    proof {
        lemma_keys_none();
        assert(key_views(keys@) + Seq::empty() =~= key_views(keys@));
    }
    match c {
        ExtensionTypeContent::Group(x) => group_ref_keys(x, keys),
        ExtensionTypeContent::All(x) => group_content_keys(x, keys),
        ExtensionTypeContent::Choice(x) => group_content_keys(x, keys),
        ExtensionTypeContent::Sequence(x) => group_content_keys(x, keys),
        ExtensionTypeContent::Attribute(x) => attribute_ref_keys(x, keys),
        ExtensionTypeContent::AttributeGroup(x) => attribute_group_ref_keys(x, keys),
        _ => true,
    }
}

/// Collects the keys of an extension of a complex type.
fn extension_keys(ty: &ExtensionType, keys: &mut Vec<NodeDependencyKey>) -> (ok: bool)
    ensures
        key_views(final(keys)@) == key_views(old(keys)@) + inline_keys(extension_steps(*ty)),
        ok == inner_keys_differ(extension_steps(*ty)),
    decreases *ty, 0nat,
{
    let ghost start = key_views(keys@);
    proof {
        lemma_keys_none();
        let refs = seq![reference(IdentType::Type, ty.base, Strength::Strong)];
        lemma_keys_references(refs);
        lemma_keys_add(refs, extension_content_steps(ty.content@, ty.content@.len()));
    }
    let mut ok = true;
    let mut i: usize = 0;
    assert(start + Seq::empty() =~= start);
    while i < ty.content.len()
        invariant
            i <= ty.content@.len(),
            key_views(keys@) == start + inline_keys(extension_content_steps(ty.content@, i as nat)),
            ok == inner_keys_differ(extension_content_steps(ty.content@, i as nat)),
        decreases ty.content@.len() - i,
    {
        let ghost before = key_views(keys@);
        proof {
            lemma_keys_none();
            assert(before + Seq::empty() =~= before);
            lemma_keys_add(
                extension_content_steps(ty.content@, i as nat),
                extension_content_item(ty.content@[i as int]),
            );
        }
        let part = extension_part_keys(&ty.content[i], keys);
        ok = part && ok;
        i = i + 1;
        assert(key_views(keys@) =~= start + inline_keys(
            extension_content_steps(ty.content@, i as nat),
        ));
    }
    assert(key_views(keys@) =~= start + inline_keys(extension_steps(*ty)));
    ok
}

/// Collects the keys of what a group holds.
fn group_content_keys(ty: &GroupType, keys: &mut Vec<NodeDependencyKey>) -> (ok: bool)
    ensures
        key_views(final(keys)@) == key_views(old(keys)@) + inline_keys(group_content_steps(*ty)),
        ok == inner_keys_differ(group_content_steps(*ty)),
    decreases *ty, 0nat,
{
    let ghost start = key_views(keys@);
    proof {
        lemma_keys_none();
    }
    let mut ok = true;
    let mut i: usize = 0;
    assert(start + Seq::empty() =~= start);
    while i < ty.content.len()
        invariant
            i <= ty.content@.len(),
            key_views(keys@) == start + inline_keys(group_list_steps(ty.content@, i as nat)),
            ok == inner_keys_differ(group_list_steps(ty.content@, i as nat)),
        decreases ty.content@.len() - i,
    {
        let ghost before = key_views(keys@);
        proof {
            lemma_keys_none();
            assert(before + Seq::empty() =~= before);
            lemma_keys_add(
                group_list_steps(ty.content@, i as nat),
                group_list_item(ty.content@[i as int]),
            );
        }
        let part = match &ty.content[i] {
            GroupTypeContent::Group(x) => group_ref_keys(x, keys),
            GroupTypeContent::Element(x) => element_ref_keys(x, keys),
            GroupTypeContent::All(x) => group_content_keys(x, keys),
            GroupTypeContent::Choice(x) => group_content_keys(x, keys),
            GroupTypeContent::Sequence(x) => group_content_keys(x, keys),
            _ => true,
        };
        ok = part && ok;
        i = i + 1;
        assert(key_views(keys@) =~= start + inline_keys(group_list_steps(ty.content@, i as nat)));
    }
    ok
}

/// Collects the keys of a declared group.
fn group_keys(ty: &GroupType, keys: &mut Vec<NodeDependencyKey>) -> (ok: bool)
    ensures
        key_views(final(keys)@) == key_views(old(keys)@) + inline_keys(group_steps(*ty)),
        ok == inner_keys_differ(group_steps(*ty)),
    decreases *ty, 1nat,
{
    proof {
        lemma_keys_one(Step::Within { marker: Marker::Group, body: group_content_steps(*ty) });
    }
    group_content_keys(ty, keys)
}

/// Collects the keys of a group that may refer to another one.
fn group_ref_keys(ty: &GroupType, keys: &mut Vec<NodeDependencyKey>) -> (ok: bool)
    ensures
        key_views(final(keys)@) == key_views(old(keys)@) + inline_keys(group_ref_steps(*ty)),
        ok == inner_keys_differ(group_ref_steps(*ty)),
    decreases *ty, 2nat,
{
    proof {
        let refs = opt_reference(IdentType::Group, ty.ref_, Strength::Lazy);
        lemma_keys_references(refs);
        lemma_keys_add(refs, group_steps(*ty));
        assert(inline_keys(group_ref_steps(*ty)) =~= inline_keys(group_steps(*ty)));
    }
    group_keys(ty, keys)
}

/// Collects the keys of a declared attribute group.
fn attribute_group_keys(ty: &AttributeGroupType, keys: &mut Vec<NodeDependencyKey>) -> (ok: bool)
    ensures
        key_views(final(keys)@) == key_views(old(keys)@) + inline_keys(attribute_group_steps(*ty)),
        ok == inner_keys_differ(attribute_group_steps(*ty)),
    decreases *ty, 0nat,
{
    let ghost start = key_views(keys@);
    proof {
        lemma_keys_none();
        lemma_keys_one(
            Step::Within {
                marker: Marker::AttributeGroup,
                body: attribute_group_content_steps(ty.content@, ty.content@.len()),
            },
        );
    }
    let mut ok = true;
    let mut i: usize = 0;
    assert(start + Seq::empty() =~= start);
    while i < ty.content.len()
        invariant
            i <= ty.content@.len(),
            key_views(keys@) == start + inline_keys(
                attribute_group_content_steps(ty.content@, i as nat),
            ),
            ok == inner_keys_differ(attribute_group_content_steps(ty.content@, i as nat)),
        decreases ty.content@.len() - i,
    {
        let ghost before = key_views(keys@);
        proof {
            lemma_keys_none();
            assert(before + Seq::empty() =~= before);
            lemma_keys_add(
                attribute_group_content_steps(ty.content@, i as nat),
                attribute_group_content_item(ty.content@[i as int]),
            );
        }
        let part = match &ty.content[i] {
            AttributeGroupTypeContent::Attribute(x) => attribute_ref_keys(x, keys),
            AttributeGroupTypeContent::AttributeGroup(x) => attribute_group_ref_keys(x, keys),
            _ => true,
        };
        ok = part && ok;
        i = i + 1;
        assert(key_views(keys@) =~= start + inline_keys(
            attribute_group_content_steps(ty.content@, i as nat),
        ));
    }
    ok
}

/// Collects the keys of an attribute group that may refer to another one.
fn attribute_group_ref_keys(
    ty: &AttributeGroupType,
    keys: &mut Vec<NodeDependencyKey>,
) -> (ok: bool)
    ensures
        key_views(final(keys)@) == key_views(old(keys)@) + inline_keys(
            attribute_group_ref_steps(*ty),
        ),
        ok == inner_keys_differ(attribute_group_ref_steps(*ty)),
    decreases *ty, 1nat,
{
    proof {
        let refs = opt_reference(IdentType::AttributeGroup, ty.ref_, Strength::Lazy);
        lemma_keys_references(refs);
        lemma_keys_add(refs, attribute_group_steps(*ty));
        assert(inline_keys(attribute_group_ref_steps(*ty)) =~= inline_keys(
            attribute_group_steps(*ty),
        ));
    }
    attribute_group_keys(ty, keys)
}

/// Collects the keys of an attribute that stands in another definition.
fn attribute_ref_keys(ty: &AttributeType, keys: &mut Vec<NodeDependencyKey>) -> (ok: bool)
    ensures
        key_views(final(keys)@) == key_views(old(keys)@) + inline_keys(attribute_ref_steps(*ty)),
        ok == inner_keys_differ(attribute_ref_steps(*ty)),
    decreases *ty, 0nat,
{
    let ghost start = key_views(keys@);
    proof {
        lemma_keys_none();
        let refs = opt_reference(IdentType::Attribute, ty.ref_, Strength::Weak) + opt_reference(
            IdentType::Type,
            ty.type_,
            Strength::Weak,
        );
        lemma_keys_references(refs);
        lemma_keys_add(refs, attribute_ref_type_steps(*ty));
        if let Some(x) = &ty.simple_type {
            lemma_keys_one(inline_simple_type(*x, attribute_naming(*ty, *x)));
        }
    }
    let ok = match &ty.simple_type {
        Some(x) => inline_simple_type_keys(x, keys),
        None => true,
    };
    assert(key_views(keys@) =~= start + inline_keys(attribute_ref_steps(*ty)));
    ok
}

/// Collects the keys of an element that stands in another definition.
fn element_ref_keys(ty: &ElementType, keys: &mut Vec<NodeDependencyKey>) -> (ok: bool)
    ensures
        key_views(final(keys)@) == key_views(old(keys)@) + inline_keys(element_ref_steps(*ty)),
        ok == inner_keys_differ(element_ref_steps(*ty)),
    decreases *ty, 1nat,
{
    let ghost start = key_views(keys@);
    proof {
        lemma_keys_none();
        let refs = opt_reference(IdentType::Element, ty.ref_, Strength::Weak) + opt_reference(
            IdentType::Type,
            ty.type_,
            Strength::Weak,
        );
        lemma_keys_references(refs);
        lemma_keys_add(refs, element_ref_type_steps(*ty));
        lemma_keys_one(inline_element(*ty));
    }
    let mut ok = true;
    if ty.type_.is_none() && ty.ref_.is_none() {
        let mut inner: Vec<NodeDependencyKey> = Vec::new();
        let sound = element_keys(ty, &mut inner);
        assert(key_views(inner@) =~= inline_keys(element_steps(*ty)));
        let differ = all_differ(&inner);
        keys.push(NodeDependencyKey::InlineElement(ty.id));
        ok = sound && differ;
    }
    assert(key_views(keys@) =~= start + inline_keys(element_ref_steps(*ty)));
    ok
}

/// Whether everything that is defined in place in a definition can be told apart.
pub fn keys_of_node_differ(node: &Node<'_>) -> (b: bool)
    ensures
        b == keys_differ(node_steps(node@)),
{
    let mut keys: Vec<NodeDependencyKey> = Vec::new();
    let sound = match node {
        Node::Element(x) => element_keys(x, &mut keys),
        Node::Attribute(x) => attribute_keys(x, &mut keys),
        Node::SimpleType(x) => simple_type_keys(x, &mut keys),
        Node::ComplexType(x) => complex_type_keys(x, &mut keys),
        Node::Group(x) => group_keys(x, &mut keys),
        Node::AttributeGroup(x) => attribute_group_keys(x, &mut keys),
    };
    assert(key_views(keys@) =~= inline_keys(node_steps(node@)));
    let differ = all_differ(&keys);
    sound && differ
}

} // verus!
