//! What becomes of the definitions of a schema, and of those by which it replaces others.

use vstd::prelude::*;

use crate::contents::{kind_of, own_name};
use crate::entrylaws::{
    entered_upto, filled, has_own, lemma_all_defined, lemma_redefinitions, lemma_replaced_finite,
     lemma_settle_grows, part_replaced, replacing, tidy,
};
use crate::ident::{IdentView, NameView};
use crate::models::{Dependency, SchemaId};
use crate::recordlaws::{declared, law_redefinitions_are_recorded};
use crate::replacelaws::{
    carried, copied, law_replaced_definitions_are_not_referred_to,
    law_settling_carries_dependencies, settled_from,
};
use crate::schemawalk::{
    given, lemma_same_schema, part_run, points_to, process_run, readable, redefinitions_run,
    referred, replace_run, replaced, settle, Definition, Pending,
};
use crate::steps::{node_steps, DependencyKeyView, NodeView, Step};
use crate::walk::{
    inline_name, lemma_entered, lemma_positions, lemma_pushed, lemma_run_kept, lemma_shape_positions,
    marker_level, run, run_step, same_level, CacheView, StackView,
};
use crate::xs::{OverrideContent, Redefine, RedefineContent, SchemaContent};

verus! {

/// Whether a part of a schema is a definition of a name.
pub open spec fn is_declared(c: SchemaContent, name: Seq<char>, node: NodeView) -> bool {
    match c {
        SchemaContent::Element(x) => node == NodeView::Element(x) && own_name(x.name) == Some(name),
        SchemaContent::Attribute(x) => node == NodeView::Attribute(x) && own_name(x.name) == Some(
            name,
        ),
        SchemaContent::SimpleType(x) => node == NodeView::SimpleType(x) && own_name(x.name)
            == Some(name),
        SchemaContent::ComplexType(x) => node == NodeView::ComplexType(x) && own_name(x.name)
            == Some(name),
        SchemaContent::Group(x) => node == NodeView::Group(x) && own_name(x.name) == Some(name),
        SchemaContent::AttributeGroup(x) => node == NodeView::AttributeGroup(x) && own_name(x.name)
            == Some(name),
        _ => false,
    }
}

/// Whether a part of a redefinition is a definition of a name: of a simple type, a complex type, a
/// group or an attribute group.
pub open spec fn is_redefined(c: RedefineContent, name: Seq<char>, node: NodeView) -> bool {
    match c {
        RedefineContent::SimpleType(x) => node == NodeView::SimpleType(x) && own_name(x.name)
            == Some(name),
        RedefineContent::ComplexType(x) => node == NodeView::ComplexType(x) && own_name(x.name)
            == Some(name),
        RedefineContent::Group(x) => node == NodeView::Group(x) && own_name(x.name) == Some(name),
        RedefineContent::AttributeGroup(x) => node == NodeView::AttributeGroup(x) && own_name(
            x.name,
        ) == Some(name),
        RedefineContent::Annotation => false,
    }
}

/// Whether a part of an override is a definition of a name, of any kind.
pub open spec fn is_overridden(c: OverrideContent, name: Seq<char>, node: NodeView) -> bool {
    match c {
        OverrideContent::SimpleType(x) => node == NodeView::SimpleType(x) && own_name(x.name)
            == Some(name),
        OverrideContent::ComplexType(x) => node == NodeView::ComplexType(x) && own_name(x.name)
            == Some(name),
        OverrideContent::Group(x) => node == NodeView::Group(x) && own_name(x.name) == Some(name),
        OverrideContent::AttributeGroup(x) => node == NodeView::AttributeGroup(x) && own_name(
            x.name,
        ) == Some(name),
        OverrideContent::Element(x) => node == NodeView::Element(x) && own_name(x.name) == Some(
            name,
        ),
        OverrideContent::Attribute(x) => node == NodeView::Attribute(x) && own_name(x.name) == Some(
            name,
        ),
        _ => false,
    }
}

/// Whether a part of a schema is a redefinition or an override, of the schema of a location, whose
/// part at a place is a definition of a name.
pub open spec fn replaces_at(
    c: SchemaContent,
    l: Seq<char>,
    k: int,
    name: Seq<char>,
    node: NodeView,
) -> bool {
    match c {
        SchemaContent::Redefine(x) => x.schema_location@ == l && 0 <= k < x.content@.len()
            && is_redefined(x.content@[k], name, node),
        SchemaContent::Override(x) => x.schema_location@ == l && 0 <= k < x.content@.len()
            && is_overridden(x.content@[k], name, node),
        _ => false,
    }
}

/// The identifier of a definition of a name in a schema.
pub open spec fn defined_as(
    st: CacheView,
    id: SchemaId,
    name: Seq<char>,
    node: NodeView,
) -> IdentView {
    IdentView {
        ns: st.schemas.schemas[id].namespace_id,
        schema: id,
        name: NameView { named: true, text: name },
        type_: kind_of(node),
    }
}

/// Once all schemas were processed without an error, every element, attribute, simple type, complex
/// type, group and attribute group that a schema defines has an entry, under the namespace of the
/// schema, the schema, its name and its kind, and is known.
pub proof fn law_every_declaration_has_an_entry(
    st: CacheView,
    id: SchemaId,
    i: int,
    name: Seq<char>,
    node: NodeView,
)
    requires
        readable(st.schemas),
        st.schemas.schemas.dom().finite(),
        st.idents.idents.finite(),
        st.stack == Seq::<StackView>::empty(),
        st.processed == Set::<SchemaId>::empty(),
        process_run(st).1 is None,
        st.schemas.schemas.contains_key(id),
        0 <= i < st.schemas.schemas[id].schema.content.len(),
        is_declared(st.schemas.schemas[id].schema.content[i], name, node),
    ensures
        process_run(st).0.nodes.contains_key(defined_as(st, id, name, node)),
        process_run(st).0.idents.idents.contains(defined_as(st, id, name, node)),
{
    crate::entrylaws::law_every_definition_has_an_entry(st, id, i, name, node);
}

/// What a redefinition or an override replaces at a place.
pub proof fn lemma_replacing(c: SchemaContent, l: Seq<char>, k: int, name: Seq<char>, node: NodeView)
    requires
        replaces_at(c, l, k, name, node),
    ensures
        0 <= k < replacing(c).len(),
        replacing(c)[k] == Some((Some(name), node)),
        referred(c) == Some(l),
{
}

/// Once all schemas were processed without an error, every simple type, complex type, group and
/// attribute group that a schema redefines, and everything that it overrides, has an entry of its
/// own in that schema, under the namespace of the schema, its name and its kind, and is known there.
/// This is stated of redefinitions and overrides of schemas that were loaded.
pub proof fn law_every_replacement_has_an_entry(
    st: CacheView,
    id: SchemaId,
    i: int,
    l: Seq<char>,
    k: int,
    name: Seq<char>,
    node: NodeView,
)
    requires
        readable(st.schemas),
        st.schemas.schemas.dom().finite(),
        st.idents.idents.finite(),
        st.stack == Seq::<StackView>::empty(),
        st.processed == Set::<SchemaId>::empty(),
        process_run(st).1 is None,
        st.schemas.schemas.contains_key(id),
        0 <= i < st.schemas.schemas[id].schema.content.len(),
        st.schemas.schemas[id].dependencies.contains_key(l),
        replaces_at(st.schemas.schemas[id].schema.content[i], l, k, name, node),
    ensures
        process_run(st).0.nodes.contains_key(defined_as(st, id, name, node)),
        process_run(st).0.idents.idents.contains(defined_as(st, id, name, node)),
{
    let c = st.schemas.schemas[id].schema.content[i];
    let end = process_run(st).0;
    lemma_replacing(c, l, k, name, node);
    lemma_all_defined(st, id);
    assert(part_replaced(end, id, end.schemas.schemas[id].schema.content[i]));
    assert(has_own(end, id, replacing(c)[k]));
}

/// Whether some steps define an identifier in place.
pub open spec fn takes(steps: Seq<Step>, st: CacheView, at: IdentView) -> bool
    decreases steps,
{
    steps.len() > 0 && (takes(steps.drop_last(), st, at) || step_takes(
        steps.last(),
        run(steps.drop_last(), st).0,
        at,
    ))
}

/// Whether a step defines an identifier in place.
pub open spec fn step_takes(step: Step, st: CacheView, at: IdentView) -> bool
    decreases step,
{
    match step {
        Step::Reference { .. } => false,
        Step::Within { marker, body } => takes(body, st.pushed(marker_level(marker)), at),
        Step::Inline { node, naming, body, .. } => {
            let name = inline_name(naming, st.next_id, st.stack);
            let named = CacheView { next_id: st.next_id.wrapping_add(1), ..st };
            st.ident_here(name, node) == at || takes(body, named.opened(name, node), at)
        },
    }
}

/// Whether two states have the same entry under an identifier, or none.
pub open spec fn same_entry(a: CacheView, b: CacheView, at: IdentView) -> bool {
    &&& a.nodes.contains_key(at) == b.nodes.contains_key(at)
    &&& a.nodes.contains_key(at) ==> a.nodes[at] == b.nodes[at]
    &&& a.idents.idents.contains(at) == b.idents.idents.contains(at)
}

/// Steps that do not define an identifier leave its entry alone.
pub proof fn lemma_run_leaves(steps: Seq<Step>, st: CacheView, at: IdentView)
    requires
        st.in_entry(),
        run(steps, st).1 is None,
        !takes(steps, st, at),
    ensures
        same_entry(st, run(steps, st).0, at),
    decreases steps,
{
    reveal_with_fuel(run, 1);
    if steps.len() > 0 {
        lemma_run_leaves(steps.drop_last(), st, at);
        lemma_run_kept(steps.drop_last(), st);
        lemma_step_leaves(steps.last(), run(steps.drop_last(), st).0, at);
    }
}

/// A step that does not define an identifier leaves its entry alone.
proof fn lemma_step_leaves(step: Step, st: CacheView, at: IdentView)
    requires
        st.in_entry(),
        run_step(step, st).1 is None,
        !step_takes(step, st, at),
    ensures
        same_entry(st, run_step(step, st).0, at),
    decreases step,
{
    reveal_with_fuel(run, 1);
    match step {
        Step::Reference { .. } => {},
        Step::Within { marker, body } => {
            lemma_pushed(st.stack, marker_level(marker));
            lemma_run_leaves(body, st.pushed(marker_level(marker)), at);
        },
        Step::Inline { node, naming, key, body } => {
            let name = inline_name(naming, st.next_id, st.stack);
            let named = CacheView { next_id: st.next_id.wrapping_add(1), ..st };
            let inner = named.opened(name, node);
            lemma_pushed(st.stack, inner.stack.last());
            lemma_run_leaves(body, inner, at);
            lemma_run_kept(body, inner);
            let done = run(body, inner).0;
            let n = st.stack.len();
            assert(same_level(inner.stack[n as int], done.stack[n as int]));
        },
    }
}

/// Steps define identifiers of the current schema only.
pub proof fn lemma_takes_here(steps: Seq<Step>, st: CacheView, at: IdentView)
    requires
        st.in_entry(),
        run(steps, st).1 is None,
        takes(steps, st, at),
    ensures
        at.schema == st.current_schema(),
    decreases steps,
{
    reveal_with_fuel(run, 1);
    let mid = run(steps.drop_last(), st).0;
    lemma_run_kept(steps.drop_last(), st);
    lemma_shape_positions(st.stack, mid.stack);
    lemma_positions(st.stack);
    let p = crate::walk::schema_at(st.stack);
    assert(same_level(st.stack[p], mid.stack[p]));
    if takes(steps.drop_last(), st, at) {
        lemma_takes_here(steps.drop_last(), st, at);
    } else {
        lemma_step_takes_here(steps.last(), mid, at);
    }
}

/// A step defines identifiers of the current schema only.
proof fn lemma_step_takes_here(step: Step, st: CacheView, at: IdentView)
    requires
        st.in_entry(),
        run_step(step, st).1 is None,
        step_takes(step, st, at),
    ensures
        at.schema == st.current_schema(),
    decreases step,
{
    reveal_with_fuel(run, 1);
    lemma_positions(st.stack);
    match step {
        Step::Reference { .. } => {},
        Step::Within { marker, body } => {
            lemma_pushed(st.stack, marker_level(marker));
            lemma_takes_here(body, st.pushed(marker_level(marker)), at);
        },
        Step::Inline { node, naming, body, .. } => {
            let name = inline_name(naming, st.next_id, st.stack);
            let named = CacheView { next_id: st.next_id.wrapping_add(1), ..st };
            let inner = named.opened(name, node);
            lemma_pushed(st.stack, inner.stack.last());
            if st.ident_here(name, node) != at {
                lemma_takes_here(body, inner, at);
            }
        },
    }
}

/// Whether a redefinition takes an identifier: for itself, or for something that is defined in it.
pub open spec fn retakes(
    d: Option<Definition>,
    base: SchemaId,
    st: CacheView,
    at: IdentView,
) -> bool {
    match d {
        Some((Some(name), node)) => declared(st, name, node) == at || takes(
            node_steps(node),
            st.opened_redefined(given(name), base, node),
            at,
        ),
        _ => false,
    }
}

/// Redefinitions that do not take an identifier leave its entry alone.
pub proof fn lemma_redefinitions_leave(
    defs: Seq<Option<Definition>>,
    m: nat,
    n: nat,
    base: SchemaId,
    st: CacheView,
    at: IdentView,
)
    requires
        st.in_schema(),
        m <= n,
        redefinitions_run(defs, n, base, st).1 is None,
        forall|j: int|
            m <= j < n ==> !retakes(
                #[trigger] defs[j],
                base,
                redefinitions_run(defs, j as nat, base, st).0,
                at,
            ),
    ensures
        same_entry(
            redefinitions_run(defs, m, base, st).0,
            redefinitions_run(defs, n, base, st).0,
            at,
        ),
    decreases n,
{
    if m < n {
        let p = (n - 1) as nat;
        let mid = redefinitions_run(defs, p, base, st).0;
        lemma_redefinitions_leave(defs, m, p, base, st, at);
        lemma_redefinitions(defs, p, base, st);
        lemma_same_schema(st, mid);
        assert(!retakes(defs[p as int], base, mid, at));
        if let Some((Some(name), node)) = defs[p as int] {
            let inner = mid.opened_redefined(given(name), base, node);
            lemma_pushed(mid.stack, inner.stack.last());
            lemma_run_leaves(node_steps(node), inner, at);
            lemma_entered(mid, inner, node_steps(node));
        }
    }
}

/// Redefinitions that are read without an error were read without one up to any place.
pub proof fn lemma_redefinitions_upto(
    defs: Seq<Option<Definition>>,
    m: nat,
    n: nat,
    base: SchemaId,
    st: CacheView,
)
    requires
        m <= n,
        redefinitions_run(defs, n, base, st).1 is None,
    ensures
        redefinitions_run(defs, m, base, st).1 is None,
    decreases n,
{
    if m < n {
        lemma_redefinitions_upto(defs, m, (n - 1) as nat, base, st);
    }
}

/// What is left of a definition once the definitions of a list were read.
proof fn lemma_redefined(
    defs: Seq<Option<Definition>>,
    k: int,
    base: SchemaId,
    st: CacheView,
    name: Seq<char>,
    node: NodeView,
)
    requires
        st.in_schema(),
        0 <= k < defs.len(),
        defs[k] == Some((Some(name), node)),
        redefinitions_run(defs, defs.len(), base, st).1 is None,
        forall|j: int|
            k < j < defs.len() ==> !retakes(
                #[trigger] defs[j],
                base,
                redefinitions_run(defs, j as nat, base, st).0,
                declared(st, name, node),
            ),
    ensures
        ({
            let end = redefinitions_run(defs, defs.len(), base, st).0;
            let at = declared(st, name, node);
            &&& end.nodes.contains_key(at)
            &&& end.nodes[at].node == node
            &&& end.nodes[at].redefine_base == Some(IdentView { schema: base, ..at })
        }),
{
    let n = defs.len();
    let at = declared(st, name, node);
    lemma_redefinitions_upto(defs, (k + 1) as nat, n, base, st);
    lemma_redefinitions_upto(defs, k as nat, n, base, st);
    let mid = redefinitions_run(defs, k as nat, base, st).0;
    lemma_redefinitions(defs, k as nat, base, st);
    lemma_same_schema(st, mid);
    law_redefinitions_are_recorded(name, base, node, mid);
    assert forall|j: int| k + 1 <= j < n implies !retakes(
        #[trigger] defs[j],
        base,
        redefinitions_run(defs, j as nat, base, st).0,
        at,
    ) by {}
    lemma_redefinitions_leave(defs, (k + 1) as nat, n, base, st, at);
}

/// The search for entries that still refer to replaced identifiers, at its start.
spec fn pending(defs: Seq<Option<Definition>>, base: SchemaId, st: CacheView) -> Pending {
    let mid = redefinitions_run(defs, defs.len(), base, st).0;
    Pending { nodes: mid.nodes, idents: mid.idents, work: replaced(defs, defs.len(), base, st) }
}

/// What settling does after the definitions of a list were read.
pub proof fn lemma_replace_settles(defs: Seq<Option<Definition>>, base: SchemaId, st: CacheView)
    requires
        st.in_schema(),
        st.idents.idents.finite(),
        tidy(st.nodes, st.idents.idents),
        replace_run(defs, base, st).1 is None,
    ensures
        ({
            let mid = redefinitions_run(defs, defs.len(), base, st).0;
            let end = replace_run(defs, base, st).0;
            &&& redefinitions_run(defs, defs.len(), base, st).1 is None
            &&& settled_from(st.current_schema(), mid.nodes, end.nodes)
            &&& mid.idents.idents.subset_of(end.idents.idents)
            &&& tidy(mid.nodes, mid.idents.idents)
            &&& tidy(end.nodes, end.idents.idents)
            &&& filled(mid.nodes, mid.idents.idents) ==> filled(end.nodes, end.idents.idents)
            &&& filled(st.nodes, st.idents.idents) ==> filled(mid.nodes, mid.idents.idents)
            &&& mid.idents.idents.finite()
            &&& entered_upto(defs, defs.len(), st, mid)
            &&& mid.current_schema() == st.current_schema()
            &&& mid.idents.scopes == st.idents.scopes
            &&& end.idents.scopes == st.idents.scopes
        }),
{
    let n = defs.len();
    let p = pending(defs, base, st);
    let mid = redefinitions_run(defs, n, base, st).0;
    lemma_redefinitions(defs, n, base, st);
    lemma_same_schema(st, mid);
    lemma_replaced_finite(defs, n, base, st);
    lemma_settle_grows(st.current_schema(), p);
    law_settling_carries_dependencies(st.current_schema(), p);
    lemma_redefinitions_scopes(defs, n, base, st);
    lemma_settle_scopes(st.current_schema(), p);
}

/// Redefinitions leave it as it was which schema sees which.
proof fn lemma_redefinitions_scopes(
    defs: Seq<Option<Definition>>,
    n: nat,
    base: SchemaId,
    st: CacheView,
)
    requires
        st.in_schema(),
        redefinitions_run(defs, n, base, st).1 is None,
    ensures
        redefinitions_run(defs, n, base, st).0.idents.scopes == st.idents.scopes,
    decreases n,
{
    if n > 0 {
        let m = (n - 1) as nat;
        lemma_redefinitions_scopes(defs, m, base, st);
        lemma_redefinitions(defs, m, base, st);
        let mid = redefinitions_run(defs, m, base, st).0;
        lemma_same_schema(st, mid);
        if let Some((Some(name), node)) = defs[m as int] {
            let inner = mid.opened_redefined(given(name), base, node);
            lemma_pushed(mid.stack, inner.stack.last());
            lemma_entered(mid, inner, node_steps(node));
        }
    }
}

/// Settling leaves it as it was which schema sees which.
proof fn lemma_settle_scopes(schema: SchemaId, p: Pending)
    requires
        p.idents.idents.finite(),
        p.work.finite(),
    ensures
        settle(schema, p).idents.scopes == p.idents.scopes,
    decreases
            crate::schemawalk::not_yet_copied(schema, p.idents.idents).len(),
            p.work.len(),
{
    if p.work.len() > 0 {
        crate::schemawalk::lemma_settle_one(schema, p);
        lemma_settle_scopes(schema, crate::schemawalk::settle_one(schema, p));
    }
}

/// A redefinition or an override that is read without an error gives the schema an entry of its own
/// for each of its parts: its node is the part, and it redefines the definition of the same name and
/// kind in the schema that is redefined or overridden. This is stated of parts whose identifier is
/// not taken again by a later part.
pub proof fn law_replacements_redefine_their_base(
    c: SchemaContent,
    l: Seq<char>,
    k: int,
    base: SchemaId,
    st: CacheView,
    name: Seq<char>,
    node: NodeView,
)
    requires
        st.in_schema(),
        st.idents.idents.finite(),
        tidy(st.nodes, st.idents.idents),
        replaces_at(c, l, k, name, node),
        part_run(c, base, st).1 is None,
        forall|j: int|
            k < j < replacing(c).len() ==> !retakes(
                #[trigger] replacing(c)[j],
                base,
                redefinitions_run(replacing(c), j as nat, base, st).0,
                declared(st, name, node),
            ),
    ensures
        ({
            let end = part_run(c, base, st).0;
            let at = declared(st, name, node);
            &&& end.nodes.contains_key(at)
            &&& end.idents.idents.contains(at)
            &&& end.nodes[at].node == node
            &&& end.nodes[at].redefine_base == Some(IdentView { schema: base, ..at })
        }),
{
    let defs = replacing(c);
    let at = declared(st, name, node);
    lemma_replacing(c, l, k, name, node);
    assert(part_run(c, base, st) == replace_run(defs, base, st));
    lemma_replace_settles(defs, base, st);
    lemma_redefined(defs, k, base, st, name, node);
    let mid = redefinitions_run(defs, defs.len(), base, st).0;
    let end = part_run(c, base, st).0;
    assert(mid.nodes.contains_key(at));
    assert(carried(mid.nodes[at], end.nodes[at], st.current_schema()));
}

/// What a list of definitions replaces.
proof fn lemma_is_replaced(
    defs: Seq<Option<Definition>>,
    n: nat,
    base: SchemaId,
    st: CacheView,
    k: int,
    name: Seq<char>,
    node: NodeView,
)
    requires
        0 <= k < n,
        defs[k] == Some((Some(name), node)),
    ensures
        replaced(defs, n, base, st).contains(IdentView { schema: base, ..declared(st, name, node) }),
    decreases n,
{
    if k < n - 1 {
        lemma_is_replaced(defs, (n - 1) as nat, base, st, k, name, node);
    }
}

/// Once a schema has redefined or overridden a definition, no entry of that schema depends on the
/// replaced definition any more, however it does and under whatever key, apart from an entry that
/// redefines it.
pub proof fn law_own_entries_leave_what_is_replaced(
    c: SchemaContent,
    l: Seq<char>,
    k: int,
    base: SchemaId,
    st: CacheView,
    name: Seq<char>,
    node: NodeView,
    at: IdentView,
    key: DependencyKeyView,
)
    requires
        st.in_schema(),
        base != st.current_schema(),
        st.idents.idents.finite(),
        tidy(st.nodes, st.idents.idents),
        replaces_at(c, l, k, name, node),
        part_run(c, base, st).1 is None,
        at.schema == st.current_schema(),
        part_run(c, base, st).0.nodes.contains_key(at),
        part_run(c, base, st).0.nodes[at].dependencies.contains_key(key),
        part_run(c, base, st).0.nodes[at].dependencies[key].ident == (IdentView {
            schema: base,
            ..declared(st, name, node)
        }),
    ensures
        part_run(c, base, st).0.nodes[at].redefine_base == Some(
            IdentView { schema: base, ..declared(st, name, node) },
        ),
{
    let defs = replacing(c);
    let w = IdentView { schema: base, ..declared(st, name, node) };
    let end = part_run(c, base, st).0;
    lemma_replacing(c, l, k, name, node);
    assert(part_run(c, base, st) == replace_run(defs, base, st));
    lemma_replace_settles(defs, base, st);
    lemma_is_replaced(defs, defs.len(), base, st, k, name, node);
    assert(end.idents.idents.contains(at));
    assert(end.idents.visible(st.current_schema(), at));
    law_replaced_definitions_are_not_referred_to(defs, base, st, at, w);
    assert(points_to(end.nodes[at], w));
}

/// Redefinitions change no entry of another schema.
proof fn lemma_redefinitions_elsewhere(
    defs: Seq<Option<Definition>>,
    n: nat,
    base: SchemaId,
    st: CacheView,
    at: IdentView,
)
    requires
        st.in_schema(),
        at.schema != st.current_schema(),
        redefinitions_run(defs, n, base, st).1 is None,
    ensures
        same_entry(st, redefinitions_run(defs, n, base, st).0, at),
    decreases n,
{
    if n > 0 {
        let m = (n - 1) as nat;
        lemma_redefinitions_elsewhere(defs, m, base, st, at);
        lemma_redefinitions(defs, m, base, st);
        let mid = redefinitions_run(defs, m, base, st).0;
        lemma_same_schema(st, mid);
        if let Some((Some(name), node)) = defs[m as int] {
            let inner = mid.opened_redefined(given(name), base, node);
            lemma_positions(mid.stack);
            lemma_pushed(mid.stack, inner.stack.last());
            lemma_entered(mid, inner, node_steps(node));
            if takes(node_steps(node), inner, at) {
                lemma_takes_here(node_steps(node), inner, at);
            }
            lemma_run_leaves(node_steps(node), inner, at);
        }
    }
}

/// A schema that takes over the content of another one sees what that one holds.
proof fn lemma_sees_base(st: CacheView, base: SchemaId, j: int)
    requires
        st.idents.scopes.contains_key(base),
        st.idents.scopes.contains_key(st.current_schema()),
        0 <= j < st.idents.scopes[st.current_schema()].dependencies.len(),
        !(st.idents.scopes[st.current_schema()].dependencies[j] is Import),
        st.idents.scopes[st.current_schema()].dependencies[j].target() == base,
    ensures
        st.idents.set_of(st.current_schema()).contains(base),
{
    let s = st.current_schema();
    assert(!(st.idents.dependencies_of(s)[j] is Import));
    assert(st.idents.takes_over(s, base));
    assert(st.idents.within(s, 0).contains(s));
    assert(st.idents.within(s, 1).contains(base));
}

/// Whether a schema redefines, overrides or includes another one that is known.
pub open spec fn takes_content_of(st: CacheView, base: SchemaId, d: Dependency<SchemaId>) -> bool {
    &&& d == Dependency::Include(base) || d == Dependency::Redefine(base) || d
        == Dependency::Override(base)
    &&& st.idents.scopes.contains_key(base)
    &&& st.idents.scopes.contains_key(st.current_schema())
    &&& st.idents.scopes[st.current_schema()].dependencies.contains(d)
}

/// Once a schema has redefined or overridden a definition, everything in the other schema that
/// depends on that definition, in any way, has an entry in the schema too. An entry that the schema
/// did not have is a copy: it has the same node, it redefines the entry that it was copied from, and
/// it depends on the new definition under the same key, just as strongly. This is stated of entries
/// whose name stands for nothing in further schemas.
pub proof fn law_what_depends_on_a_replaced_definition_is_copied(
    c: SchemaContent,
    l: Seq<char>,
    k: int,
    base: SchemaId,
    d: Dependency<SchemaId>,
    st: CacheView,
    name: Seq<char>,
    node: NodeView,
    at: IdentView,
    key: DependencyKeyView,
)
    requires
        st.in_schema(),
        base != st.current_schema(),
        st.idents.idents.finite(),
        tidy(st.nodes, st.idents.idents),
        filled(st.nodes, st.idents.idents),
        takes_content_of(st, base, d),
        replaces_at(c, l, k, name, node),
        part_run(c, base, st).1 is None,
        at.schema == base,
        st.nodes.contains_key(at),
        st.nodes[at].dependencies.contains_key(key),
        st.nodes[at].dependencies[key].ident == (IdentView {
            schema: base,
            ..declared(st, name, node)
        }),
        st.nodes[at].redefine_base != Some(
            IdentView { schema: base, ..declared(st, name, node) },
        ),
    ensures
        ({
            let end = part_run(c, base, st).0;
            let own = IdentView { schema: st.current_schema(), ..at };
            let read = redefinitions_run(replacing(c), replacing(c).len(), base, st).0;
            &&& end.nodes.contains_key(own)
            &&& end.idents.idents.contains(own)
            &&& !read.idents.idents.contains(own) && (forall|b: IdentView| #[trigger]
                st.idents.idents.contains(b) && b.schema != at.schema ==> (IdentView {
                    schema: at.schema,
                    ..b
                }) != at) ==> {
                &&& end.nodes[own].node == st.nodes[at].node
                &&& end.nodes[own].redefine_base == Some(at)
                &&& end.nodes[own].dependencies.dom() == st.nodes[at].dependencies.dom()
                &&& end.nodes[own].dependencies[key].strength
                    == st.nodes[at].dependencies[key].strength
                &&& end.nodes[own].dependencies[key].ident == declared(st, name, node)
            }
        }),
{
    let defs = replacing(c);
    let s = st.current_schema();
    let w = IdentView { schema: base, ..declared(st, name, node) };
    let own = at.in_schema(s);
    let end = part_run(c, base, st).0;
    let mid = redefinitions_run(defs, defs.len(), base, st).0;
    lemma_replacing(c, l, k, name, node);
    assert(part_run(c, base, st) == replace_run(defs, base, st));
    lemma_replace_settles(defs, base, st);
    lemma_is_replaced(defs, defs.len(), base, st, k, name, node);
    lemma_redefinitions_elsewhere(defs, defs.len(), base, st, at);
    assert(mid.nodes.contains_key(at) && mid.nodes[at] == st.nodes[at]);
    assert(end.nodes.contains_key(at) && end.nodes[at] == mid.nodes[at]);
    assert(end.idents.idents.contains(at));
    assert(points_to(end.nodes[at], w));
    let j = choose|j: int|
        0 <= j < st.idents.scopes[s].dependencies.len() && st.idents.scopes[s].dependencies[j] == d;
    let same = CacheView { idents: end.idents, ..st };
    lemma_sees_base(same, base, j);
    if !end.idents.idents.contains(own) {
        assert(end.idents.visible(s, at));
        law_replaced_definitions_are_not_referred_to(defs, base, st, at, w);
        assert(false);
    }
    if !mid.idents.idents.contains(own) && (forall|b: IdentView| #[trigger]
        st.idents.idents.contains(b) && b.schema != at.schema ==> (IdentView {
            schema: at.schema,
            ..b
        }) != at) {
        assert(!mid.nodes.contains_key(own));
        assert(copied(mid.nodes, own, end.nodes[own], s));
        let b = end.nodes[own].redefine_base->0;
        assert(b == at) by {
            lemma_redefinitions_elsewhere(defs, defs.len(), base, st, b);
            assert(mid.idents.idents.contains(b));
            assert(st.idents.idents.contains(b));
            assert(b.in_schema(at.schema) == at);
        }
        assert(carried(mid.nodes[at], end.nodes[own], s));
        assert(own != w.in_schema(s)) by {
            assert(defs[k] == Some((Some(name), node)));
        }
        assert(end.idents.visible(s, own));
        law_replaced_definitions_are_not_referred_to(defs, base, st, own, w);
        let e = end.nodes[own].dependencies[key];
        assert(end.nodes[own].dependencies.contains_key(key)) by {
            assert(end.nodes[own].dependencies.dom().contains(key));
        }
        assert(e.ident != w) by {
            if e.ident == w {
                assert(points_to(end.nodes[own], w));
            }
        }
    }
}

} // verus!
