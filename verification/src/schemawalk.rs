//! What the walk over whole schemas does to the node cache.

use vstd::prelude::*;

use crate::ident::{IdentView, NameView, TypeIdent};
use crate::identcache::{IdentCacheView, ScopeView};
use crate::keys::keys_differ;
use crate::models::{
    xml_namespace, xs_namespace, xsi_namespace, Dependency, Label, NamespaceId, SchemaId,
};
use crate::nodes::{DependencyView, EntryView};
use crate::order::{in_order, lemma_in_order_finite};
use crate::schemas::{SchemaInfoView, SchemasView};
use crate::steps::{node_steps, DependencyKeyView, NodeView};
use crate::text::opt_text;
use crate::walk::{lemma_shape_positions, run, same_level, same_shape, schema_at};
use crate::walk::{CacheView, Outcome, StackView};
use crate::xs::{OverrideContent, RedefineContent, SchemaContent};

verus! {

/// A definition: its name, if it has one, and its node.
pub type Definition = (Option<Seq<char>>, NodeView);

/// The definition that a part of a schema holds.
pub open spec fn schema_definition(c: SchemaContent) -> Option<Definition> {
    match c {
        SchemaContent::Element(x) => Some((opt_text(x.name), NodeView::Element(x))),
        SchemaContent::Attribute(x) => Some((opt_text(x.name), NodeView::Attribute(x))),
        SchemaContent::SimpleType(x) => Some((opt_text(x.name), NodeView::SimpleType(x))),
        SchemaContent::ComplexType(x) => Some((opt_text(x.name), NodeView::ComplexType(x))),
        SchemaContent::Group(x) => Some((opt_text(x.name), NodeView::Group(x))),
        SchemaContent::AttributeGroup(x) => Some((opt_text(x.name), NodeView::AttributeGroup(x))),
        _ => None,
    }
}

/// The definition that a part of an override holds.
pub open spec fn override_definition(c: OverrideContent) -> Option<Definition> {
    match c {
        OverrideContent::Element(x) => Some((opt_text(x.name), NodeView::Element(x))),
        OverrideContent::Attribute(x) => Some((opt_text(x.name), NodeView::Attribute(x))),
        OverrideContent::SimpleType(x) => Some((opt_text(x.name), NodeView::SimpleType(x))),
        OverrideContent::ComplexType(x) => Some((opt_text(x.name), NodeView::ComplexType(x))),
        OverrideContent::Group(x) => Some((opt_text(x.name), NodeView::Group(x))),
        OverrideContent::AttributeGroup(x) => Some(
            (opt_text(x.name), NodeView::AttributeGroup(x)),
        ),
        _ => None,
    }
}

/// The definition that a part of a redefinition holds.
pub open spec fn redefine_definition(c: RedefineContent) -> Option<Definition> {
    match c {
        RedefineContent::SimpleType(x) => Some((opt_text(x.name), NodeView::SimpleType(x))),
        RedefineContent::ComplexType(x) => Some((opt_text(x.name), NodeView::ComplexType(x))),
        RedefineContent::Group(x) => Some((opt_text(x.name), NodeView::Group(x))),
        RedefineContent::AttributeGroup(x) => Some(
            (opt_text(x.name), NodeView::AttributeGroup(x)),
        ),
        RedefineContent::Annotation => None,
    }
}

/// The definitions of a list of parts.
pub open spec fn override_definitions(content: Seq<OverrideContent>) -> Seq<Option<Definition>> {
    Seq::new(content.len(), |i: int| override_definition(content[i]))
}

/// The definitions of a list of parts.
pub open spec fn redefine_definitions(content: Seq<RedefineContent>) -> Seq<Option<Definition>> {
    Seq::new(content.len(), |i: int| redefine_definition(content[i]))
}

/// Whether a definition has a name.
pub open spec fn is_named(d: Option<Definition>) -> bool {
    match d {
        Some((name, _)) => name is Some,
        None => true,
    }
}

/// Whether all definitions have a name.
pub open spec fn all_named(defs: Seq<Option<Definition>>) -> bool {
    forall|i: int| 0 <= i < defs.len() ==> is_named(#[trigger] defs[i])
}

/// Whether all definitions of a part of a schema that are read have a name.
pub open spec fn part_named(
    c: SchemaContent,
    dependencies: Map<Seq<char>, Dependency<SchemaId>>,
) -> bool {
    match c {
        SchemaContent::Override(x) => dependencies.contains_key(x.schema_location@) ==> all_named(
            override_definitions(x.content@),
        ),
        SchemaContent::Redefine(x) => dependencies.contains_key(x.schema_location@) ==> all_named(
            redefine_definitions(x.content@),
        ),
        _ => is_named(schema_definition(c)),
    }
}

/// Whether all definitions of a schema that are read have a name.
pub open spec fn schema_named(info: SchemaInfoView) -> bool {
    forall|i: int|
        0 <= i < info.schema.content.len() ==> part_named(
            #[trigger] info.schema.content[i],
            info.dependencies,
        )
}

/// Whether everything that is defined in place in a definition can be told apart.
pub open spec fn is_distinct(d: Option<Definition>) -> bool {
    match d {
        Some((_, node)) => keys_differ(node_steps(node)),
        None => true,
    }
}

/// Whether everything that is defined in place in some definition can be told apart.
pub open spec fn all_distinct(defs: Seq<Option<Definition>>) -> bool {
    forall|i: int| 0 <= i < defs.len() ==> is_distinct(#[trigger] defs[i])
}

/// Whether everything that is defined in place in a definition of a part of a schema that is read
/// can be told apart.
pub open spec fn part_distinct(
    c: SchemaContent,
    dependencies: Map<Seq<char>, Dependency<SchemaId>>,
) -> bool {
    match c {
        SchemaContent::Override(x) => dependencies.contains_key(x.schema_location@)
            ==> all_distinct(override_definitions(x.content@)),
        SchemaContent::Redefine(x) => dependencies.contains_key(x.schema_location@)
            ==> all_distinct(redefine_definitions(x.content@)),
        _ => is_distinct(schema_definition(c)),
    }
}

/// Whether everything that is defined in place in a definition of a schema that is read can be told
/// apart.
pub open spec fn schema_distinct(info: SchemaInfoView) -> bool {
    forall|i: int|
        0 <= i < info.schema.content.len() ==> part_distinct(
            #[trigger] info.schema.content[i],
            info.dependencies,
        )
}

/// Schemas whose definitions have names, and tell apart what is defined in them, and whose
/// dependencies are among the schemas.
pub open spec fn readable(schemas: SchemasView) -> bool {
    &&& schemas.dependencies_known()
    &&& forall|id: SchemaId| #[trigger]
        schemas.schemas.contains_key(id) ==> schema_named(schemas.schemas[id]) && schema_distinct(
            schemas.schemas[id],
        )
}

/// A name that was given.
pub open spec fn given(text: Seq<char>) -> NameView {
    NameView { named: true, text }
}

/// The outcome of a definition of a schema.
pub open spec fn define(name: Seq<char>, node: NodeView, st: CacheView) -> Outcome {
    let (end, error) = run(node_steps(node), st.opened(given(name), node));
    if error is Some {
        (end, error)
    } else {
        (end.closed(), None)
    }
}

/// The outcome of a definition that redefines the one of the same name in `base`.
pub open spec fn redefine(
    name: Seq<char>,
    base: SchemaId,
    node: NodeView,
    st: CacheView,
) -> Outcome {
    let (end, error) = run(node_steps(node), st.opened_redefined(given(name), base, node));
    if error is Some {
        (end, error)
    } else {
        (end.closed(), None)
    }
}

/// The outcome of the first `n` parts of a schema.
pub open spec fn content_run(content: Seq<SchemaContent>, n: nat, st: CacheView) -> Outcome
    decreases n,
{
    if n == 0 {
        (st, None)
    } else {
        let (mid, error) = content_run(content, (n - 1) as nat, st);
        if error is Some {
            (mid, error)
        } else {
            match schema_definition(content[n - 1]) {
                Some((Some(name), node)) => define(name, node, mid),
                _ => (mid, None),
            }
        }
    }
}

/// The outcome of the first `n` redefinitions of a list.
pub open spec fn redefinitions_run(
    defs: Seq<Option<Definition>>,
    n: nat,
    base: SchemaId,
    st: CacheView,
) -> Outcome
    decreases n,
{
    if n == 0 {
        (st, None)
    } else {
        let (mid, error) = redefinitions_run(defs, (n - 1) as nat, base, st);
        if error is Some {
            (mid, error)
        } else {
            match defs[n - 1] {
                Some((Some(name), node)) => redefine(name, base, node, mid),
                _ => (mid, None),
            }
        }
    }
}

/// The identifiers that the first `n` redefinitions of a list replace.
pub open spec fn replaced(
    defs: Seq<Option<Definition>>,
    n: nat,
    base: SchemaId,
    st: CacheView,
) -> Set<IdentView>
    decreases n,
{
    if n == 0 {
        Set::empty()
    } else {
        let before = replaced(defs, (n - 1) as nat, base, st);
        match defs[n - 1] {
            Some((Some(name), node)) => before.insert(
                st.redefined_ident(given(name), base, node),
            ),
            _ => before,
        }
    }
}

/// The state of the search for entries that still refer to a replaced identifier.
pub struct Pending {
    pub nodes: Map<IdentView, EntryView>,
    pub idents: IdentCacheView,
    /// The replaced identifiers that were not looked at yet.
    pub work: Set<IdentView>,
}

/// Whether an entry depends on an identifier.
pub open spec fn points_to(entry: EntryView, ident: IdentView) -> bool {
    exists|k: DependencyKeyView| #[trigger]
        entry.dependencies.contains_key(k) && entry.dependencies[k].ident == ident
}

/// Whether an entry does not depend on an identifier, unless it redefines it. The entry that
/// redefines an identifier goes on pointing to it.
pub open spec fn clear(entry: EntryView, ident: IdentView) -> bool {
    entry.redefine_base == Some(ident) || !points_to(entry, ident)
}

/// A dependency that points to another identifier, if it pointed to the given one.
pub open spec fn moved(d: DependencyView, old_ident: IdentView, ident: IdentView) -> DependencyView {
    if d.ident == old_ident {
        DependencyView { ident, ..d }
    } else {
        d
    }
}

/// The entry in which every dependency on an identifier points to another one. Keys and strengths
/// stay.
pub open spec fn repointed(entry: EntryView, old_ident: IdentView, ident: IdentView) -> EntryView {
    EntryView {
        dependencies: entry.dependencies.map_values(
            |d: DependencyView| moved(d, old_ident, ident),
        ),
        ..entry
    }
}

/// Lets an entry that points to a replaced identifier point to the new one. An entry of another
/// schema is copied to the current schema first, and is then replaced itself.
pub open spec fn update_entry(
    at: IdentView,
    old_ident: IdentView,
    schema: SchemaId,
    p: Pending,
) -> Pending {
    if !p.nodes.contains_key(at) || clear(p.nodes[at], old_ident) {
        p
    } else {
        let entry = repointed(p.nodes[at], old_ident, old_ident.in_schema(schema));
        if at.schema == schema {
            Pending { nodes: p.nodes.insert(at, entry), ..p }
        } else {
            Pending {
                nodes: p.nodes.insert(
                    at.in_schema(schema),
                    EntryView { redefine_base: Some(at), ..entry },
                ),
                idents: IdentCacheView {
                    idents: p.idents.idents.insert(at.in_schema(schema)),
                    ..p.idents
                },
                work: p.work.insert(at),
            }
        }
    }
}

/// Updates all entries of a list, one after the other.
pub open spec fn update_entries(
    list: Seq<IdentView>,
    old_ident: IdentView,
    schema: SchemaId,
    p: Pending,
) -> Pending
    decreases list.len(),
{
    if list.len() == 0 {
        p
    } else {
        update_entry(
            list.last(),
            old_ident,
            schema,
            update_entries(list.drop_last(), old_ident, schema, p),
        )
    }
}

/// Takes one replaced identifier, and updates all entries that the current schema sees.
pub open spec fn settle_one(schema: SchemaId, p: Pending) -> Pending {
    let old_ident = in_order::<TypeIdent>(p.work)[0];
    update_entries(
        p.idents.schema_set(schema),
        old_ident,
        schema,
        Pending { work: p.work.remove(old_ident), ..p },
    )
}

/// The known identifiers of other schemas that the current schema does not have.
pub open spec fn not_yet_copied(schema: SchemaId, idents: Set<IdentView>) -> Set<IdentView> {
    idents.filter(|i: IdentView| i.schema != schema && !idents.contains(i.in_schema(schema)))
}

/// Updates entries until no replaced identifier is left.
pub open spec fn settle(schema: SchemaId, p: Pending) -> Pending
    decreases not_yet_copied(schema, p.idents.idents).len(), p.work.len(),
    when p.idents.idents.finite() && p.work.finite()
    via settle_decreases
{
    if p.work.len() == 0 {
        p
    } else {
        settle(schema, settle_one(schema, p))
    }
}

#[via_fn]
proof fn settle_decreases(schema: SchemaId, p: Pending) {
    if p.work.len() > 0 {
        lemma_settle_one(schema, p);
    }
}

/// What one updated list of entries leaves and adds.
pub proof fn lemma_update_entries(
    list: Seq<IdentView>,
    old_ident: IdentView,
    schema: SchemaId,
    p: Pending,
)
    requires
        forall|k: int|
            0 <= k < list.len() && (#[trigger] list[k]).schema != schema ==> not_yet_copied(
                schema,
                p.idents.idents,
            ).contains(list[k]),
        p.idents.idents.finite(),
        p.work.finite(),
    ensures
        ({
            let q = update_entries(list, old_ident, schema, p);
            &&& q.idents.scopes == p.idents.scopes
            &&& q.idents.globals == p.idents.globals
            &&& p.idents.idents.subset_of(q.idents.idents)
            &&& q.idents.idents.finite()
            &&& q.work.finite()
            &&& forall|i: IdentView| #[trigger]
                q.idents.idents.contains(i) && !p.idents.idents.contains(i) ==> i.schema == schema
            &&& (q.idents == p.idents && q.work == p.work) || exists|e: IdentView|
                not_yet_copied(schema, p.idents.idents).contains(e)
                    && #[trigger] q.idents.idents.contains(e.in_schema(schema))
        }),
    decreases list.len(),
{
    if list.len() > 0 {
        let front = list.drop_last();
        assert forall|k: int| 0 <= k < front.len() && (#[trigger] front[k]).schema
            != schema implies not_yet_copied(schema, p.idents.idents).contains(front[k]) by {
            assert(front[k] == list[k]);
        }
        lemma_update_entries(front, old_ident, schema, p);
        let mid = update_entries(front, old_ident, schema, p);
        let q = update_entries(list, old_ident, schema, p);
        let at = list.last();
        assert(q == update_entry(at, old_ident, schema, mid));
        if q.idents != mid.idents || q.work != mid.work {
            assert(at == list[list.len() - 1]);
            assert(not_yet_copied(schema, p.idents.idents).contains(at));
            assert(q.idents.idents.contains(at.in_schema(schema)));
        }
    }
}

/// Each look at a replaced identifier brings the search closer to its end.
pub proof fn lemma_settle_one(schema: SchemaId, p: Pending)
    requires
        p.work.len() > 0,
        p.idents.idents.finite(),
        p.work.finite(),
    ensures
        settle_one(schema, p).idents.idents.finite(),
        settle_one(schema, p).work.finite(),
        settle_one(schema, p).idents.scopes == p.idents.scopes,
        settle_one(schema, p).idents.globals == p.idents.globals,
        ({
            let a = not_yet_copied(schema, p.idents.idents).len();
            let b = not_yet_copied(schema, settle_one(schema, p).idents.idents).len();
            b < a || (b == a && settle_one(schema, p).work.len() < p.work.len())
        }),
{
    let list = p.idents.schema_set(schema);
    let order = in_order::<TypeIdent>(p.work);
    lemma_visible_list(schema, p.idents);
    lemma_in_order_finite::<TypeIdent>(p.work);
    assert(order.len() > 0) by {
        let x = p.work.choose();
        assert(p.work.contains(x));
        assert(order.contains(x));
    }
    let old_ident = order[0];
    assert(order.contains(old_ident));
    assert(p.work.contains(old_ident));
    let start = Pending { work: p.work.remove(old_ident), ..p };
    lemma_update_entries(list, old_ident, schema, start);
    let q = settle_one(schema, p);
    let before = not_yet_copied(schema, p.idents.idents);
    let after = not_yet_copied(schema, q.idents.idents);
    assert(after.subset_of(before));
    if q.idents == start.idents && q.work == start.work {
    } else {
        let e = choose|e: IdentView|
            before.contains(e) && #[trigger] q.idents.idents.contains(e.in_schema(schema));
        assert(!after.contains(e));
        after.lemma_subset_not_in_lt(before, e);
    }
}

/// Every listed identifier of another schema is one that the schema does not have.
pub proof fn lemma_visible_list(schema: SchemaId, c: IdentCacheView)
    ensures
        forall|k: int|
            0 <= k < c.schema_set(schema).len() && (#[trigger] c.schema_set(schema)[k]).schema
                != schema ==> not_yet_copied(schema, c.idents).contains(c.schema_set(schema)[k]),
{
    broadcast use vstd::seq_lib::group_filter_ensures;

    let order = in_order::<TypeIdent>(c.idents);
    let pred = |i: IdentView| c.visible(schema, i);
    assert forall|k: int|
        0 <= k < c.schema_set(schema).len() && (#[trigger] c.schema_set(schema)[k]).schema
            != schema implies not_yet_copied(schema, c.idents).contains(c.schema_set(schema)[k]) by {
        assert(pred(order.filter(pred)[k]));
    }
}

/// The state in which no entry points to a replaced identifier any more.
pub open spec fn settled(st: CacheView, work: Set<IdentView>) -> CacheView {
    let end = settle(
        st.current_schema(),
        Pending { nodes: st.nodes, idents: st.idents, work },
    );
    CacheView { nodes: end.nodes, idents: end.idents, ..st }
}

/// The outcome of a list of redefinitions of what a schema holds.
pub open spec fn replace_run(
    defs: Seq<Option<Definition>>,
    base: SchemaId,
    st: CacheView,
) -> Outcome {
    let (end, error) = redefinitions_run(defs, defs.len(), base, st);
    if error is Some {
        (end, error)
    } else {
        (settled(end, replaced(defs, defs.len(), base, st)), None)
    }
}

/// The schema that a part of a schema refers to by a location.
pub open spec fn referred(c: SchemaContent) -> Option<Seq<char>> {
    match c {
        SchemaContent::Import(x) => opt_text(x.schema_location),
        SchemaContent::Include(x) => Some(x.schema_location@),
        SchemaContent::Override(x) => Some(x.schema_location@),
        SchemaContent::Redefine(x) => Some(x.schema_location@),
        _ => None,
    }
}

/// The outcome of what a part of a schema replaces in the schema that it refers to.
pub open spec fn part_run(c: SchemaContent, base: SchemaId, st: CacheView) -> Outcome {
    match c {
        SchemaContent::Override(x) => replace_run(override_definitions(x.content@), base, st),
        SchemaContent::Redefine(x) => replace_run(redefine_definitions(x.content@), base, st),
        _ => (st, None),
    }
}

/// The dependencies of a schema, in the order of their locations.
pub open spec fn listed_dependencies(dependencies: Map<Seq<char>, Dependency<SchemaId>>) -> Seq<
    Dependency<SchemaId>,
> {
    let order = in_order::<Label>(dependencies.dom());
    Seq::new(order.len(), |i: int| dependencies[order[i]])
}

/// The identifier cache that knows of a schema and what it depends on.
pub open spec fn registered(
    c: IdentCacheView,
    schema: SchemaId,
    info: SchemaInfoView,
) -> IdentCacheView {
    IdentCacheView {
        scopes: c.scopes.insert(
            schema,
            ScopeView {
                ns: info.namespace_id,
                dependencies: c.dependencies_of(schema) + listed_dependencies(info.dependencies),
            },
        ),
        ..c
    }
}

/// The state in which the identifier cache knows of a schema.
pub open spec fn known_schema(st: CacheView, schema: SchemaId, info: SchemaInfoView) -> CacheView {
    CacheView { idents: registered(st.idents, schema, info), ..st }
}

/// The outcome of one part of a schema, as far as it refers to another schema.
pub open spec fn import_run(
    depth: nat,
    dependencies: Map<Seq<char>, Dependency<SchemaId>>,
    c: SchemaContent,
    st: CacheView,
) -> Outcome
    decreases depth, 1nat,
{
    match referred(c) {
        Some(location) if dependencies.contains_key(location) => {
            let base = dependencies[location].target();
            let (end, error) = schema_run(depth, base, st);
            if error is Some {
                (end, error)
            } else {
                part_run(c, base, end)
            }
        },
        _ => (st, None),
    }
}

/// The outcome of the first `n` parts of a schema, as far as they refer to other schemas.
pub open spec fn imports_run(depth: nat, info: SchemaInfoView, n: nat, st: CacheView) -> Outcome
    decreases depth, n + 2,
{
    if n == 0 {
        (st, None)
    } else {
        let (mid, error) = imports_run(depth, info, (n - 1) as nat, st);
        if error is Some {
            (mid, error)
        } else {
            import_run(depth, info.dependencies, info.schema.content[n - 1], mid)
        }
    }
}

/// The state in which a schema is being processed.
pub open spec fn entered(id: SchemaId, st: CacheView) -> CacheView {
    CacheView {
        processed: st.processed.insert(id),
        ..st.pushed(StackView::Schema { id, ns: st.schemas.schemas[id].namespace_id })
    }
}

/// The outcome of a schema: first the schemas that it refers to, then its own definitions. A schema
/// that was visited is not visited again. `depth` limits how many schemas can refer to each other
/// in a chain; the number of schemas that were not visited is enough.
pub open spec fn schema_run(depth: nat, id: SchemaId, st: CacheView) -> Outcome
    decreases depth, 0nat,
{
    if st.processed.contains(id) || depth == 0 {
        (st, None)
    } else {
        let info = st.schemas.schemas[id];
        let (mid, error) = imports_run(
            (depth - 1) as nat,
            info,
            info.schema.content.len(),
            known_schema(entered(id, st), id, info),
        );
        if error is Some {
            (mid, error)
        } else {
            let (end, error) = content_run(info.schema.content, info.schema.content.len(), mid);
            if error is Some {
                (end, error)
            } else {
                (end.popped(), None)
            }
        }
    }
}

/// The schemas that were not visited.
pub open spec fn unprocessed(st: CacheView) -> Set<SchemaId> {
    st.schemas.schemas.dom().difference(st.processed)
}

/// What the visit of schemas leaves as it was.
pub open spec fn around(a: CacheView, b: CacheView) -> bool {
    &&& same_shape(a.stack, b.stack)
    &&& a.schemas == b.schemas
    &&& a.processed.subset_of(b.processed)
}

/// The outcome of the first `n` schemas of a list.
pub open spec fn schemas_run(ids: Seq<SchemaId>, n: nat, depth: nat, st: CacheView) -> Outcome
    decreases n,
{
    if n == 0 {
        (st, None)
    } else {
        let (mid, error) = schemas_run(ids, (n - 1) as nat, depth, st);
        if error is Some {
            (mid, error)
        } else {
            schema_run(depth, ids[n - 1], mid)
        }
    }
}

/// Whether the definitions of a namespace are visible everywhere.
pub open spec fn is_global(namespace: Option<Seq<u8>>) -> bool {
    ||| namespace == Some(xml_namespace())
    ||| namespace == Some(xs_namespace())
    ||| namespace == Some(xsi_namespace())
}

/// The namespaces whose definitions are visible everywhere.
pub open spec fn global_namespaces(schemas: SchemasView) -> Set<NamespaceId> {
    Set::new(
        |id: NamespaceId|
            schemas.namespace_infos.contains_key(id) && is_global(
                schemas.namespace_infos[id].namespace,
            ),
    )
}

/// The outcome of all schemas, in the order of their identifiers.
pub open spec fn process_run(st: CacheView) -> Outcome {
    let start = CacheView {
        idents: IdentCacheView {
            globals: st.idents.globals.union(global_namespaces(st.schemas)),
            ..st.idents
        },
        ..st
    };
    let ids = in_order::<SchemaId>(st.schemas.schemas.dom());
    schemas_run(ids, ids.len(), ids.len(), start)
}

/// What is kept by two walks is kept by both in turn.
pub proof fn lemma_around_trans(a: CacheView, b: CacheView, c: CacheView)
    requires
        around(a, b),
        around(b, c),
    ensures
        around(a, c),
{
    assert forall|i: int| 0 <= i < a.stack.len() implies same_level(a.stack[i], c.stack[i]) by {
        assert(same_level(a.stack[i], b.stack[i]));
        assert(same_level(b.stack[i], c.stack[i]));
    }
}

/// The innermost schema stays the same.
pub proof fn lemma_same_schema(a: CacheView, b: CacheView)
    requires
        around(a, b),
        a.in_schema(),
    ensures
        b.in_schema(),
        a.current_schema() == b.current_schema(),
        a.current_ns() == b.current_ns(),
{
    lemma_shape_positions(a.stack, b.stack);
    assert(same_level(a.stack[schema_at(a.stack)], b.stack[schema_at(a.stack)]));
}

/// Parts that come after an error are not read.
pub proof fn lemma_content_stuck(content: Seq<SchemaContent>, i: nat, n: nat, st: CacheView)
    requires
        i <= n,
        content_run(content, i, st).1 is Some,
    ensures
        content_run(content, n, st) == content_run(content, i, st),
    decreases n,
{
    if i < n {
        lemma_content_stuck(content, i, (n - 1) as nat, st);
    }
}

/// Redefinitions that come after an error are not read.
pub proof fn lemma_redefinitions_stuck(
    defs: Seq<Option<Definition>>,
    i: nat,
    n: nat,
    base: SchemaId,
    st: CacheView,
)
    requires
        i <= n,
        redefinitions_run(defs, i, base, st).1 is Some,
    ensures
        redefinitions_run(defs, n, base, st) == redefinitions_run(defs, i, base, st),
    decreases n,
{
    if i < n {
        lemma_redefinitions_stuck(defs, i, (n - 1) as nat, base, st);
    }
}

/// Parts that come after an error are not read.
pub proof fn lemma_imports_stuck(depth: nat, info: SchemaInfoView, i: nat, n: nat, st: CacheView)
    requires
        i <= n,
        imports_run(depth, info, i, st).1 is Some,
    ensures
        imports_run(depth, info, n, st) == imports_run(depth, info, i, st),
    decreases n,
{
    if i < n {
        lemma_imports_stuck(depth, info, i, (n - 1) as nat, st);
    }
}

/// Schemas that come after an error are not read.
pub proof fn lemma_schemas_stuck(ids: Seq<SchemaId>, i: nat, n: nat, depth: nat, st: CacheView)
    requires
        i <= n,
        schemas_run(ids, i, depth, st).1 is Some,
    ensures
        schemas_run(ids, n, depth, st) == schemas_run(ids, i, depth, st),
    decreases n,
{
    if i < n {
        lemma_schemas_stuck(ids, i, (n - 1) as nat, depth, st);
    }
}

/// The schemas that were not visited become fewer.
pub proof fn lemma_fewer_unprocessed(a: CacheView, b: CacheView)
    requires
        around(a, b),
        a.schemas.schemas.dom().finite(),
    ensures
        unprocessed(b).len() <= unprocessed(a).len(),
{
    assert(unprocessed(b).subset_of(unprocessed(a)));
    vstd::set_lib::lemma_len_subset(unprocessed(b), unprocessed(a));
}

/// A list of the elements of a set is at least as long as the set.
pub proof fn lemma_count<A>(s: Seq<A>, d: Set<A>)
    requires
        crate::order::lists(s, d),
    ensures
        d.len() <= s.len(),
{
    assert(d =~= s.to_set());
    s.lemma_cardinality_of_set();
}

} // verus!
