//! Every name in a definition is a dependency of its entry, said of each place where a name can
//! stand.

use vstd::prelude::*;

use crate::contents::{
    by_name, in_attribute_group_part, in_complex_content, in_complex_content_part,
    in_complex_type_part, in_element, in_extension, in_group, in_group_part, in_list,
    in_local_attribute, in_local_attribute_group, in_local_element, in_local_group, in_restriction,
    in_simple_content, in_simple_content_part, in_simple_restriction, in_simple_type_part, in_union,
    place_key, stands_in, Item,
};
use crate::entrylaws::law_every_entry_records_its_definition;
use crate::ident::{IdentType, IdentView};
use crate::models::{local_part, NamespaceId, QName, SchemaId};
use crate::nodes::EntryView;
use crate::recordlaws::{explains, item_key, recorded};
use crate::schemas::SchemasView;
use crate::schemawalk::{process_run, readable};
use crate::steps::{DependencyKeyView, NodeView, Strength};
use crate::text::text_of;
use crate::walk::{CacheView, StackView};
use crate::xs::{
    AttributeGroupType, AttributeGroupTypeContent, AttributeType, ComplexBaseType,
    ComplexBaseTypeContent, ComplexContent, ComplexContentContent, ElementType, ExtensionType,
    GroupType, GroupTypeContent, List, Restriction, RestrictionType, SimpleBaseType,
    SimpleBaseTypeContent, SimpleContent, SimpleContentContent, Union,
};

verus! {

/// What is known before all schemas are processed: the entries that are there record what stands in
/// their definitions. No entries do.
pub open spec fn ready(st: CacheView) -> bool {
    &&& readable(st.schemas)
    &&& st.schemas.schemas.dom().finite()
    &&& st.idents.idents.finite()
    &&& st.stack == Seq::<StackView>::empty()
    &&& st.processed == Set::<SchemaId>::empty()
    &&& forall|at: IdentView| #[trigger]
        st.nodes.contains_key(at) ==> recorded(
            st.schemas,
            at.ns,
            st.nodes[at].node,
            st.nodes[at].dependencies,
        )
}

/// Whether an entry of a namespace depends on what has a name, under the namespace of the name, the
/// kind and the local part. A name without a namespace belongs to that of the entry. The dependency
/// points to something of that namespace, kind and text. It is as strong as the name, unless the
/// same name stands in the definition with another strength.
pub open spec fn depends_on(
    schemas: SchemasView,
    ns: NamespaceId,
    entry: EntryView,
    kind: IdentType,
    name: QName,
    strength: Strength,
) -> bool {
    let space = match name@.ns {
        Some(_) => schemas.known_namespaces[name@.ns],
        None => ns,
    };
    let text = text_of(local_part(name@.raw));
    let key = DependencyKeyView::Named(space, kind, text->0);
    &&& name@.ns is Some ==> schemas.known_namespaces.contains_key(name@.ns)
    &&& text is Some
    &&& entry.dependencies.contains_key(key)
    &&& entry.dependencies[key].ident.ns == space
    &&& entry.dependencies[key].ident.type_ == kind
    &&& entry.dependencies[key].ident.name.text == text->0
    &&& (forall|i: Item| #[trigger]
        stands_in(entry.node, i) && item_key(schemas, ns, i) == Some(key) ==> (i matches Item::Name {
            strength: s,
            ..
        } && s == strength)) ==> entry.dependencies[key].strength == strength
}

/// Once all schemas were processed without an error, every name that stands in the definition of an
/// entry is a dependency of the entry.
pub proof fn law_every_name_is_a_dependency(
    st: CacheView,
    at: IdentView,
    kind: IdentType,
    name: QName,
    strength: Strength,
)
    requires
        ready(st),
        process_run(st).1 is None,
        process_run(st).0.nodes.contains_key(at),
        stands_in(process_run(st).0.nodes[at].node, by_name(kind, name, strength)),
    ensures
        depends_on(st.schemas, at.ns, process_run(st).0.nodes[at], kind, name, strength),
{
    let entry = process_run(st).0.nodes[at];
    law_every_entry_records_its_definition(st);
    assert(recorded(st.schemas, at.ns, entry.node, entry.dependencies));
    let item = by_name(kind, name, strength);
    let key = item_key(st.schemas, at.ns, item)->0;
    assert(entry.dependencies.contains_key(key));
    let i = choose|i: Item| #[trigger]
        stands_in(entry.node, i) && item_key(st.schemas, at.ns, i) == Some(key) && explains(
            st.schemas,
            at.ns,
            i,
            entry.dependencies[key],
        );
    assert(i is Name) by {
        if let Item::InPlace { node, .. } = i {
            assert(place_key(node) == Some(key));
        }
    }
}

/// Once all schemas were processed without an error, an entry depends by name on nothing but the
/// names that stand in its definition.
pub proof fn law_every_dependency_is_a_name(
    st: CacheView,
    at: IdentView,
    space: NamespaceId,
    kind: IdentType,
    text: Seq<char>,
)
    requires
        ready(st),
        process_run(st).1 is None,
        process_run(st).0.nodes.contains_key(at),
        process_run(st).0.nodes[at].dependencies.contains_key(
            DependencyKeyView::Named(space, kind, text),
        ),
    ensures
        exists|i: Item| #[trigger]
            stands_in(process_run(st).0.nodes[at].node, i) && (i matches Item::Name {
                kind: k,
                name,
                strength,
            } && k == kind && text_of(local_part(name.raw)) == Some(text) && (match name.ns {
                Some(_) => st.schemas.known_namespaces.contains_key(name.ns)
                    && st.schemas.known_namespaces[name.ns] == space,
                None => space == at.ns,
            }) && process_run(st).0.nodes[at].dependencies[DependencyKeyView::Named(
                space,
                kind,
                text,
            )].strength == strength),
{
    let entry = process_run(st).0.nodes[at];
    let key = DependencyKeyView::Named(space, kind, text);
    law_every_entry_records_its_definition(st);
    assert(recorded(st.schemas, at.ns, entry.node, entry.dependencies));
    let i = choose|i: Item| #[trigger]
        stands_in(entry.node, i) && item_key(st.schemas, at.ns, i) == Some(key) && explains(
            st.schemas,
            at.ns,
            i,
            entry.dependencies[key],
        );
    assert(i is Name) by {
        if let Item::InPlace { node, .. } = i {
            assert(place_key(node) == Some(key));
        }
    }
}

/// Once all schemas were processed without an error, the entry of a definition has a weak dependency
/// on each element and each simple type that is defined in place in it, under the number of its
/// node.
pub proof fn law_every_definition_in_place_is_a_dependency(st: CacheView, at: IdentView, i: Item)
    requires
        ready(st),
        process_run(st).1 is None,
        process_run(st).0.nodes.contains_key(at),
        stands_in(process_run(st).0.nodes[at].node, i),
        i is InPlace,
    ensures
        ({
            let entry = process_run(st).0.nodes[at];
            match i->node {
                NodeView::SimpleType(x) => {
                    let key = DependencyKeyView::InlineSimpleType(x.id);
                    &&& entry.dependencies.contains_key(key)
                    &&& entry.dependencies[key].strength == Strength::Weak
                    &&& entry.dependencies[key].ident.type_ == IdentType::Type
                    &&& entry.dependencies[key].ident.ns == at.ns
                },
                NodeView::Element(x) => {
                    let key = DependencyKeyView::InlineElement(x.id);
                    &&& entry.dependencies.contains_key(key)
                    &&& entry.dependencies[key].strength == Strength::Weak
                    &&& entry.dependencies[key].ident.type_ == IdentType::Element
                    &&& entry.dependencies[key].ident.ns == at.ns
                },
                _ => false,
            }
        }),
{
    let entry = process_run(st).0.nodes[at];
    law_every_entry_records_its_definition(st);
    assert(recorded(st.schemas, at.ns, entry.node, entry.dependencies));
    let key = item_key(st.schemas, at.ns, i)->0;
    let j = choose|j: Item| #[trigger]
        stands_in(entry.node, j) && item_key(st.schemas, at.ns, j) == Some(key) && explains(
            st.schemas,
            at.ns,
            j,
            entry.dependencies[key],
        );
    assert(explains(st.schemas, at.ns, j, entry.dependencies[key]));
}

/// Whether a group is the sequence, the choice or the `all` of a part of a complex type.
pub open spec fn holds_model(c: ComplexBaseTypeContent, g: GroupType) -> bool {
    ||| c == ComplexBaseTypeContent::Sequence(g)
    ||| c == ComplexBaseTypeContent::Choice(g)
    ||| c == ComplexBaseTypeContent::All(g)
}

/// Whether an element stands in a sequence, a choice or an `all`, `n` levels deep.
pub open spec fn element_within(g: GroupType, e: ElementType, n: nat) -> bool
    decreases n,
{
    ||| g.content@.contains(GroupTypeContent::Element(e))
    ||| n > 0 && exists|h: GroupType| #[trigger]
        nested(g, h) && element_within(h, e, (n - 1) as nat)
}

/// Whether a sequence, a choice or an `all` stands in a group.
pub open spec fn nested(g: GroupType, h: GroupType) -> bool {
    ||| g.content@.contains(GroupTypeContent::Sequence(h))
    ||| g.content@.contains(GroupTypeContent::Choice(h))
    ||| g.content@.contains(GroupTypeContent::All(h))
}

/// What stands in an element within a group stands in the group.
proof fn lemma_within_group(g: GroupType, e: ElementType, n: nat, i: Item)
    requires
        element_within(g, e, n),
        in_local_element(e, i),
    ensures
        in_group(g, i),
    decreases n,
{
    if g.content@.contains(GroupTypeContent::Element(e)) {
        let k = choose|k: int|
            0 <= k < g.content@.len() && g.content@[k] == GroupTypeContent::Element(e);
        assert(in_group_part(g.content@[k], i));
    } else {
        let h = choose|h: GroupType| #[trigger]
            nested(g, h) && element_within(h, e, (n - 1) as nat);
        lemma_within_group(h, e, (n - 1) as nat, i);
        let c = if g.content@.contains(GroupTypeContent::Sequence(h)) {
            GroupTypeContent::Sequence(h)
        } else if g.content@.contains(GroupTypeContent::Choice(h)) {
            GroupTypeContent::Choice(h)
        } else {
            GroupTypeContent::All(h)
        };
        let k = choose|k: int| 0 <= k < g.content@.len() && g.content@[k] == c;
        assert(in_group_part(g.content@[k], i));
    }
}

/// The `type` and the `ref` of every element in the sequences, choices and `all`s of a complex type,
/// however deep they are nested, are weak dependencies of the entry of the complex type.
pub proof fn law_local_elements_of_complex_types(
    st: CacheView,
    at: IdentView,
    t: ComplexBaseType,
    a: int,
    g: GroupType,
    e: ElementType,
    n: nat,
)
    requires
        ready(st),
        process_run(st).1 is None,
        process_run(st).0.nodes.contains_key(at),
        process_run(st).0.nodes[at].node == NodeView::ComplexType(t),
        0 <= a < t.content@.len(),
        holds_model(t.content@[a], g),
        element_within(g, e, n),
    ensures
        e.type_ matches Some(q) ==> depends_on(
            st.schemas,
            at.ns,
            process_run(st).0.nodes[at],
            IdentType::Type,
            q,
            Strength::Weak,
        ),
        e.ref_ matches Some(q) ==> depends_on(
            st.schemas,
            at.ns,
            process_run(st).0.nodes[at],
            IdentType::Element,
            q,
            Strength::Weak,
        ),
{
    if let Some(q) = e.type_ {
        let i = by_name(IdentType::Type, q, Strength::Weak);
        lemma_within_group(g, e, n, i);
        assert(in_complex_type_part(t.content@[a], i));
        law_every_name_is_a_dependency(st, at, IdentType::Type, q, Strength::Weak);
    }
    if let Some(q) = e.ref_ {
        let i = by_name(IdentType::Element, q, Strength::Weak);
        lemma_within_group(g, e, n, i);
        assert(in_complex_type_part(t.content@[a], i));
        law_every_name_is_a_dependency(st, at, IdentType::Element, q, Strength::Weak);
    }
}

/// The `type` and the `ref` of every element in a named group, however deep it is nested in
/// sequences, choices and `all`s, are weak dependencies of the entry of the group.
pub proof fn law_local_elements_of_groups(
    st: CacheView,
    at: IdentView,
    g: GroupType,
    e: ElementType,
    n: nat,
)
    requires
        ready(st),
        process_run(st).1 is None,
        process_run(st).0.nodes.contains_key(at),
        process_run(st).0.nodes[at].node == NodeView::Group(g),
        element_within(g, e, n),
    ensures
        e.type_ matches Some(q) ==> depends_on(
            st.schemas,
            at.ns,
            process_run(st).0.nodes[at],
            IdentType::Type,
            q,
            Strength::Weak,
        ),
        e.ref_ matches Some(q) ==> depends_on(
            st.schemas,
            at.ns,
            process_run(st).0.nodes[at],
            IdentType::Element,
            q,
            Strength::Weak,
        ),
{
    if let Some(q) = e.type_ {
        lemma_within_group(g, e, n, by_name(IdentType::Type, q, Strength::Weak));
        law_every_name_is_a_dependency(st, at, IdentType::Type, q, Strength::Weak);
    }
    if let Some(q) = e.ref_ {
        lemma_within_group(g, e, n, by_name(IdentType::Element, q, Strength::Weak));
        law_every_name_is_a_dependency(st, at, IdentType::Element, q, Strength::Weak);
    }
}

/// The `type` of a declared element is a weak dependency of its entry.
pub proof fn law_types_of_elements(
    st: CacheView,
    at: IdentView,
    e: ElementType,
    q: QName,
)
    requires
        ready(st),
        process_run(st).1 is None,
        process_run(st).0.nodes.contains_key(at),
        process_run(st).0.nodes[at].node == NodeView::Element(e),
        e.type_ == Some(q),
    ensures
        depends_on(
            st.schemas,
            at.ns,
            process_run(st).0.nodes[at],
            IdentType::Type,
            q,
            Strength::Weak,
        ),
{
    let i = by_name(IdentType::Type, q, Strength::Weak);
    assert(in_element(e, i));
    law_every_name_is_a_dependency(st, at, IdentType::Type, q, Strength::Weak);
}

/// Each head in the `substitutionGroup` of a declared element is a strong dependency of its entry.
pub proof fn law_substitution_groups_of_elements(
    st: CacheView,
    at: IdentView,
    e: ElementType,
    list: Vec<QName>,
    k: int,
    q: QName,
)
    requires
        ready(st),
        process_run(st).1 is None,
        process_run(st).0.nodes.contains_key(at),
        process_run(st).0.nodes[at].node == NodeView::Element(e),
        e.substitution_group == Some(list),
        0 <= k < list@.len(),
        list@[k] == q,
    ensures
        depends_on(
            st.schemas,
            at.ns,
            process_run(st).0.nodes[at],
            IdentType::Element,
            q,
            Strength::Strong,
        ),
{
    let i = by_name(IdentType::Element, q, Strength::Strong);
    assert(i == by_name(IdentType::Element, list@[k], Strength::Strong));
    assert(in_element(e, i));
    law_every_name_is_a_dependency(st, at, IdentType::Element, q, Strength::Strong);
}

/// The `type` of a declared attribute is a weak dependency of its entry.
pub proof fn law_types_of_attributes(
    st: CacheView,
    at: IdentView,
    a: AttributeType,
    q: QName,
)
    requires
        ready(st),
        process_run(st).1 is None,
        process_run(st).0.nodes.contains_key(at),
        process_run(st).0.nodes[at].node == NodeView::Attribute(a),
        a.type_ == Some(q),
    ensures
        depends_on(
            st.schemas,
            at.ns,
            process_run(st).0.nodes[at],
            IdentType::Type,
            q,
            Strength::Weak,
        ),
{
    let i = by_name(IdentType::Type, q, Strength::Weak);
    assert(crate::contents::in_attribute(a, i));
    law_every_name_is_a_dependency(st, at, IdentType::Type, q, Strength::Weak);
}

/// The `base` of a restriction of a simple type is a strong dependency of the entry of the type.
pub proof fn law_bases_of_simple_types(
    st: CacheView,
    at: IdentView,
    t: SimpleBaseType,
    k: int,
    r: Restriction,
    q: QName,
)
    requires
        ready(st),
        process_run(st).1 is None,
        process_run(st).0.nodes.contains_key(at),
        process_run(st).0.nodes[at].node == NodeView::SimpleType(t),
        0 <= k < t.content@.len(),
        t.content@[k] == SimpleBaseTypeContent::Restriction(r),
        r.base == Some(q),
    ensures
        depends_on(
            st.schemas,
            at.ns,
            process_run(st).0.nodes[at],
            IdentType::Type,
            q,
            Strength::Strong,
        ),
{
    let i = by_name(IdentType::Type, q, Strength::Strong);
    assert(in_simple_restriction(r, i));
    assert(in_simple_type_part(t.content@[k], i));
    law_every_name_is_a_dependency(st, at, IdentType::Type, q, Strength::Strong);
}

/// The `itemType` of a list is a weak dependency of the entry of the list type.
pub proof fn law_item_types_of_lists(
    st: CacheView,
    at: IdentView,
    t: SimpleBaseType,
    k: int,
    x: List,
    q: QName,
)
    requires
        ready(st),
        process_run(st).1 is None,
        process_run(st).0.nodes.contains_key(at),
        process_run(st).0.nodes[at].node == NodeView::SimpleType(t),
        0 <= k < t.content@.len(),
        t.content@[k] == SimpleBaseTypeContent::List(x),
        x.item_type == Some(q),
    ensures
        depends_on(
            st.schemas,
            at.ns,
            process_run(st).0.nodes[at],
            IdentType::Type,
            q,
            Strength::Weak,
        ),
{
    let i = by_name(IdentType::Type, q, Strength::Weak);
    assert(in_list(x, i));
    assert(in_simple_type_part(t.content@[k], i));
    law_every_name_is_a_dependency(st, at, IdentType::Type, q, Strength::Weak);
}

/// Each of the `memberTypes` of a union is a weak dependency of the entry of the union type.
pub proof fn law_member_types_of_unions(
    st: CacheView,
    at: IdentView,
    t: SimpleBaseType,
    k: int,
    u: Union,
    list: Vec<QName>,
    m: int,
    q: QName,
)
    requires
        ready(st),
        process_run(st).1 is None,
        process_run(st).0.nodes.contains_key(at),
        process_run(st).0.nodes[at].node == NodeView::SimpleType(t),
        0 <= k < t.content@.len(),
        t.content@[k] == SimpleBaseTypeContent::Union(u),
        u.member_types == Some(list),
        0 <= m < list@.len(),
        list@[m] == q,
    ensures
        depends_on(
            st.schemas,
            at.ns,
            process_run(st).0.nodes[at],
            IdentType::Type,
            q,
            Strength::Weak,
        ),
{
    let i = by_name(IdentType::Type, q, Strength::Weak);
    assert(i == by_name(IdentType::Type, list@[m], Strength::Weak));
    assert(in_union(u, i));
    assert(in_simple_type_part(t.content@[k], i));
    law_every_name_is_a_dependency(st, at, IdentType::Type, q, Strength::Weak);
}

/// The `base` of a restriction in a simple content is a strong dependency of the entry of the complex
/// type.
pub proof fn law_bases_of_restrictions_of_simple_content(
    st: CacheView,
    at: IdentView,
    t: ComplexBaseType,
    k: int,
    x: SimpleContent,
    m: int,
    r: RestrictionType,
    q: QName,
)
    requires
        ready(st),
        process_run(st).1 is None,
        process_run(st).0.nodes.contains_key(at),
        process_run(st).0.nodes[at].node == NodeView::ComplexType(t),
        0 <= k < t.content@.len(),
        t.content@[k] == ComplexBaseTypeContent::SimpleContent(x),
        0 <= m < x.content@.len(),
        x.content@[m] == SimpleContentContent::Restriction(r),
        r.base == q,
    ensures
        depends_on(
            st.schemas,
            at.ns,
            process_run(st).0.nodes[at],
            IdentType::Type,
            q,
            Strength::Strong,
        ),
{
    let i = by_name(IdentType::Type, q, Strength::Strong);
    assert(in_restriction(r, i));
    assert(in_simple_content_part(x.content@[m], i));
    assert(in_simple_content(x, i));
    assert(in_complex_type_part(t.content@[k], i));
    law_every_name_is_a_dependency(st, at, IdentType::Type, q, Strength::Strong);
}

/// The `base` of an extension in a simple content is a strong dependency of the entry of the complex
/// type.
pub proof fn law_bases_of_extensions_of_simple_content(
    st: CacheView,
    at: IdentView,
    t: ComplexBaseType,
    k: int,
    x: SimpleContent,
    m: int,
    r: ExtensionType,
    q: QName,
)
    requires
        ready(st),
        process_run(st).1 is None,
        process_run(st).0.nodes.contains_key(at),
        process_run(st).0.nodes[at].node == NodeView::ComplexType(t),
        0 <= k < t.content@.len(),
        t.content@[k] == ComplexBaseTypeContent::SimpleContent(x),
        0 <= m < x.content@.len(),
        x.content@[m] == SimpleContentContent::Extension(r),
        r.base == q,
    ensures
        depends_on(
            st.schemas,
            at.ns,
            process_run(st).0.nodes[at],
            IdentType::Type,
            q,
            Strength::Strong,
        ),
{
    let i = by_name(IdentType::Type, q, Strength::Strong);
    assert(in_extension(r, i));
    assert(in_simple_content_part(x.content@[m], i));
    assert(in_simple_content(x, i));
    assert(in_complex_type_part(t.content@[k], i));
    law_every_name_is_a_dependency(st, at, IdentType::Type, q, Strength::Strong);
}

/// The `base` of a restriction in a complex content is a strong dependency of the entry of the complex
/// type.
pub proof fn law_bases_of_restrictions_of_complex_content(
    st: CacheView,
    at: IdentView,
    t: ComplexBaseType,
    k: int,
    x: ComplexContent,
    m: int,
    r: RestrictionType,
    q: QName,
)
    requires
        ready(st),
        process_run(st).1 is None,
        process_run(st).0.nodes.contains_key(at),
        process_run(st).0.nodes[at].node == NodeView::ComplexType(t),
        0 <= k < t.content@.len(),
        t.content@[k] == ComplexBaseTypeContent::ComplexContent(x),
        0 <= m < x.content@.len(),
        x.content@[m] == ComplexContentContent::Restriction(r),
        r.base == q,
    ensures
        depends_on(
            st.schemas,
            at.ns,
            process_run(st).0.nodes[at],
            IdentType::Type,
            q,
            Strength::Strong,
        ),
{
    let i = by_name(IdentType::Type, q, Strength::Strong);
    assert(in_restriction(r, i));
    assert(in_complex_content_part(x.content@[m], i));
    assert(in_complex_content(x, i));
    assert(in_complex_type_part(t.content@[k], i));
    law_every_name_is_a_dependency(st, at, IdentType::Type, q, Strength::Strong);
}

/// The `base` of an extension in a complex content is a strong dependency of the entry of the complex
/// type.
pub proof fn law_bases_of_extensions_of_complex_content(
    st: CacheView,
    at: IdentView,
    t: ComplexBaseType,
    k: int,
    x: ComplexContent,
    m: int,
    r: ExtensionType,
    q: QName,
)
    requires
        ready(st),
        process_run(st).1 is None,
        process_run(st).0.nodes.contains_key(at),
        process_run(st).0.nodes[at].node == NodeView::ComplexType(t),
        0 <= k < t.content@.len(),
        t.content@[k] == ComplexBaseTypeContent::ComplexContent(x),
        0 <= m < x.content@.len(),
        x.content@[m] == ComplexContentContent::Extension(r),
        r.base == q,
    ensures
        depends_on(
            st.schemas,
            at.ns,
            process_run(st).0.nodes[at],
            IdentType::Type,
            q,
            Strength::Strong,
        ),
{
    let i = by_name(IdentType::Type, q, Strength::Strong);
    assert(in_extension(r, i));
    assert(in_complex_content_part(x.content@[m], i));
    assert(in_complex_content(x, i));
    assert(in_complex_type_part(t.content@[k], i));
    law_every_name_is_a_dependency(st, at, IdentType::Type, q, Strength::Strong);
}

/// The `ref` of an attribute in a complex type is a weak dependency of the entry of the complex type.
pub proof fn law_refs_of_local_attributes(
    st: CacheView,
    at: IdentView,
    t: ComplexBaseType,
    k: int,
    a: AttributeType,
    q: QName,
)
    requires
        ready(st),
        process_run(st).1 is None,
        process_run(st).0.nodes.contains_key(at),
        process_run(st).0.nodes[at].node == NodeView::ComplexType(t),
        0 <= k < t.content@.len(),
        t.content@[k] == ComplexBaseTypeContent::Attribute(a),
        a.ref_ == Some(q),
    ensures
        depends_on(
            st.schemas,
            at.ns,
            process_run(st).0.nodes[at],
            IdentType::Attribute,
            q,
            Strength::Weak,
        ),
{
    let i = by_name(IdentType::Attribute, q, Strength::Weak);
    assert(in_local_attribute(a, i));
    assert(in_complex_type_part(t.content@[k], i));
    law_every_name_is_a_dependency(st, at, IdentType::Attribute, q, Strength::Weak);
}

/// The `ref` of an attribute in an attribute group is a weak dependency of the entry of the group.
pub proof fn law_refs_of_grouped_attributes(
    st: CacheView,
    at: IdentView,
    g: AttributeGroupType,
    k: int,
    a: AttributeType,
    q: QName,
)
    requires
        ready(st),
        process_run(st).1 is None,
        process_run(st).0.nodes.contains_key(at),
        process_run(st).0.nodes[at].node == NodeView::AttributeGroup(g),
        0 <= k < g.content@.len(),
        g.content@[k] == AttributeGroupTypeContent::Attribute(a),
        a.ref_ == Some(q),
    ensures
        depends_on(
            st.schemas,
            at.ns,
            process_run(st).0.nodes[at],
            IdentType::Attribute,
            q,
            Strength::Weak,
        ),
{
    let i = by_name(IdentType::Attribute, q, Strength::Weak);
    assert(in_local_attribute(a, i));
    assert(in_attribute_group_part(g.content@[k], i));
    law_every_name_is_a_dependency(st, at, IdentType::Attribute, q, Strength::Weak);
}

/// The `type` of an attribute in a complex type is a weak dependency of the entry of the complex type.
pub proof fn law_types_of_local_attributes(
    st: CacheView,
    at: IdentView,
    t: ComplexBaseType,
    k: int,
    a: AttributeType,
    q: QName,
)
    requires
        ready(st),
        process_run(st).1 is None,
        process_run(st).0.nodes.contains_key(at),
        process_run(st).0.nodes[at].node == NodeView::ComplexType(t),
        0 <= k < t.content@.len(),
        t.content@[k] == ComplexBaseTypeContent::Attribute(a),
        a.type_ == Some(q),
    ensures
        depends_on(
            st.schemas,
            at.ns,
            process_run(st).0.nodes[at],
            IdentType::Type,
            q,
            Strength::Weak,
        ),
{
    let i = by_name(IdentType::Type, q, Strength::Weak);
    assert(in_local_attribute(a, i));
    assert(in_complex_type_part(t.content@[k], i));
    law_every_name_is_a_dependency(st, at, IdentType::Type, q, Strength::Weak);
}

/// The `type` of an attribute in an attribute group is a weak dependency of the entry of the group.
pub proof fn law_types_of_grouped_attributes(
    st: CacheView,
    at: IdentView,
    g: AttributeGroupType,
    k: int,
    a: AttributeType,
    q: QName,
)
    requires
        ready(st),
        process_run(st).1 is None,
        process_run(st).0.nodes.contains_key(at),
        process_run(st).0.nodes[at].node == NodeView::AttributeGroup(g),
        0 <= k < g.content@.len(),
        g.content@[k] == AttributeGroupTypeContent::Attribute(a),
        a.type_ == Some(q),
    ensures
        depends_on(
            st.schemas,
            at.ns,
            process_run(st).0.nodes[at],
            IdentType::Type,
            q,
            Strength::Weak,
        ),
{
    let i = by_name(IdentType::Type, q, Strength::Weak);
    assert(in_local_attribute(a, i));
    assert(in_attribute_group_part(g.content@[k], i));
    law_every_name_is_a_dependency(st, at, IdentType::Type, q, Strength::Weak);
}

/// The `ref` of a group in a complex type is a lazy dependency of the entry of the complex type.
pub proof fn law_refs_of_local_groups(
    st: CacheView,
    at: IdentView,
    t: ComplexBaseType,
    k: int,
    g: GroupType,
    q: QName,
)
    requires
        ready(st),
        process_run(st).1 is None,
        process_run(st).0.nodes.contains_key(at),
        process_run(st).0.nodes[at].node == NodeView::ComplexType(t),
        0 <= k < t.content@.len(),
        t.content@[k] == ComplexBaseTypeContent::Group(g),
        g.ref_ == Some(q),
    ensures
        depends_on(
            st.schemas,
            at.ns,
            process_run(st).0.nodes[at],
            IdentType::Group,
            q,
            Strength::Lazy,
        ),
{
    let i = by_name(IdentType::Group, q, Strength::Lazy);
    assert(in_local_group(g, i));
    assert(in_complex_type_part(t.content@[k], i));
    law_every_name_is_a_dependency(st, at, IdentType::Group, q, Strength::Lazy);
}

/// The `ref` of a group in a sequence, a choice or an `all` of a complex type is a lazy dependency of
/// the entry of the complex type.
pub proof fn law_refs_of_nested_groups(
    st: CacheView,
    at: IdentView,
    t: ComplexBaseType,
    k: int,
    h: GroupType,
    m: int,
    g: GroupType,
    q: QName,
)
    requires
        ready(st),
        process_run(st).1 is None,
        process_run(st).0.nodes.contains_key(at),
        process_run(st).0.nodes[at].node == NodeView::ComplexType(t),
        0 <= k < t.content@.len(),
        holds_model(t.content@[k], h),
        0 <= m < h.content@.len(),
        h.content@[m] == GroupTypeContent::Group(g),
        g.ref_ == Some(q),
    ensures
        depends_on(
            st.schemas,
            at.ns,
            process_run(st).0.nodes[at],
            IdentType::Group,
            q,
            Strength::Lazy,
        ),
{
    let i = by_name(IdentType::Group, q, Strength::Lazy);
    assert(in_local_group(g, i));
    assert(in_group_part(h.content@[m], i));
    assert(in_group(h, i));
    assert(in_complex_type_part(t.content@[k], i));
    law_every_name_is_a_dependency(st, at, IdentType::Group, q, Strength::Lazy);
}

/// The `ref` of an attribute group in a complex type is a lazy dependency of the entry of the complex
/// type.
pub proof fn law_refs_of_local_attribute_groups(
    st: CacheView,
    at: IdentView,
    t: ComplexBaseType,
    k: int,
    g: AttributeGroupType,
    q: QName,
)
    requires
        ready(st),
        process_run(st).1 is None,
        process_run(st).0.nodes.contains_key(at),
        process_run(st).0.nodes[at].node == NodeView::ComplexType(t),
        0 <= k < t.content@.len(),
        t.content@[k] == ComplexBaseTypeContent::AttributeGroup(g),
        g.ref_ == Some(q),
    ensures
        depends_on(
            st.schemas,
            at.ns,
            process_run(st).0.nodes[at],
            IdentType::AttributeGroup,
            q,
            Strength::Lazy,
        ),
{
    let i = by_name(IdentType::AttributeGroup, q, Strength::Lazy);
    assert(in_local_attribute_group(g, i));
    assert(in_complex_type_part(t.content@[k], i));
    law_every_name_is_a_dependency(st, at, IdentType::AttributeGroup, q, Strength::Lazy);
}

/// The `ref` of an attribute group in another attribute group is a lazy dependency of the entry of the
/// outer one.
pub proof fn law_refs_of_nested_attribute_groups(
    st: CacheView,
    at: IdentView,
    h: AttributeGroupType,
    k: int,
    g: AttributeGroupType,
    q: QName,
)
    requires
        ready(st),
        process_run(st).1 is None,
        process_run(st).0.nodes.contains_key(at),
        process_run(st).0.nodes[at].node == NodeView::AttributeGroup(h),
        0 <= k < h.content@.len(),
        h.content@[k] == AttributeGroupTypeContent::AttributeGroup(g),
        g.ref_ == Some(q),
    ensures
        depends_on(
            st.schemas,
            at.ns,
            process_run(st).0.nodes[at],
            IdentType::AttributeGroup,
            q,
            Strength::Lazy,
        ),
{
    let i = by_name(IdentType::AttributeGroup, q, Strength::Lazy);
    assert(in_local_attribute_group(g, i));
    assert(in_attribute_group_part(h.content@[k], i));
    law_every_name_is_a_dependency(st, at, IdentType::AttributeGroup, q, Strength::Lazy);
}

} // verus!
