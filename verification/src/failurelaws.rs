//! A definition is read without an error unless a name in it refers to nothing.

use vstd::prelude::*;

use crate::contents::{stands_in, Item};
use crate::entrylaws::{
    lemma_content, lemma_imports, lemma_redefinitions, lemma_schema, lemma_schemas, lemma_started,
    prepared, replacing,
};
use crate::ident::{IdentType, IdentView};
use crate::identcache::{ErrorView, IdentCacheView};
use crate::models::{local_part, NamespaceId, QNameView, SchemaId};
use crate::order::{in_order, lemma_in_order_finite};
use crate::partlaws::{is_declared, replaces_at};
use crate::recordlaws::{lemma_run_items, space_of};
use crate::resolvelaws::{defined_somewhere, in_place_of, lemma_known};
use crate::schemas::{SchemaInfoView, SchemasView};
use crate::schemawalk::{
    content_run, define, entered, given, import_run, imports_run, known_schema,
    lemma_count, lemma_fewer_unprocessed, lemma_same_schema, part_run, process_run, readable,
    redefine, redefinitions_run, referred, schema_definition, schema_run, schemas_run, unprocessed,
    Definition,
};
use crate::stepcontents::{gives, lemma_node_steps, sound, step_gives, step_sound};
use crate::steps::{node_steps, Naming, NodeView, Step};
use crate::text::text_of;
use crate::walk::{
    inline_name, lemma_positions, lemma_pushed, lemma_run_kept, lemma_shape_positions,
    marker_level, run, run_step, same_level, schema_at, CacheView, StackView,
};

verus! {

/// Whether an item stands in a definition, or in a definition that is defined in place in it, up to
/// `n` levels deep.
pub open spec fn stands_within(node: NodeView, i: Item, n: nat) -> bool
    decreases n,
{
    ||| stands_in(node, i)
    ||| n > 0 && exists|inner: NodeView, naming: Naming|
        #![trigger stands_in(node, Item::InPlace { node: inner, naming })]
        stands_in(node, Item::InPlace { node: inner, naming }) && stands_within(
            inner,
            i,
            (n - 1) as nat,
        )
}

/// Whether a name in a schema of a namespace refers to nothing, which an error tells: its namespace
/// is unknown, its local part is no text, or none of the known identifiers has its namespace, its
/// kind and its text.
pub open spec fn unresolved(
    schemas: SchemasView,
    ns: NamespaceId,
    idents: Set<IdentView>,
    kind: IdentType,
    name: QNameView,
    e: ErrorView,
) -> bool {
    match e {
        ErrorView::UnknownNamespace(n) => name.ns == Some(n)
            && !schemas.known_namespaces.contains_key(name.ns),
        ErrorView::InvalidLocalName(b) => b == local_part(name.raw) && text_of(b) is None,
        ErrorView::UnknownType(i) => {
            &&& space_of(schemas, ns, name) == Some(i.ns)
            &&& text_of(local_part(name.raw)) == Some(i.name.text)
            &&& i == in_place_of(i.ns, SchemaId(0), kind, i.name.text)
            &&& !defined_somewhere(idents, i.ns, kind, i.name.text)
        },
    }
}

/// Whether an item is a name that an error is about.
pub open spec fn blamed(
    schemas: SchemasView,
    ns: NamespaceId,
    idents: Set<IdentView>,
    i: Item,
    e: ErrorView,
) -> bool {
    i matches Item::Name { kind, name, .. } && unresolved(schemas, ns, idents, kind, name, e)
}

/// Whether some steps, or what is defined in place in them, hold an item.
pub open spec fn holds(steps: Seq<Step>, i: Item) -> bool {
    ||| gives(steps, i)
    ||| exists|inner: NodeView, naming: Naming, n: nat|
        #![trigger gives(steps, Item::InPlace { node: inner, naming }), stands_within(inner, i, n)]
        gives(steps, Item::InPlace { node: inner, naming }) && stands_within(inner, i, n)
}

/// Whether a step, or what is defined in place in it, holds an item.
pub open spec fn step_holds(step: Step, i: Item) -> bool {
    ||| step_gives(step, i)
    ||| exists|inner: NodeView, naming: Naming, n: nat|
        #![trigger
            step_gives(step, Item::InPlace { node: inner, naming }),
            stands_within(inner, i, n)
        ]
        step_gives(step, Item::InPlace { node: inner, naming }) && stands_within(inner, i, n)
}

/// Fewer identifiers are known before.
proof fn lemma_blamed_before(
    schemas: SchemasView,
    ns: NamespaceId,
    a: Set<IdentView>,
    b: Set<IdentView>,
    i: Item,
    e: ErrorView,
)
    requires
        a.subset_of(b),
        blamed(schemas, ns, b, i, e),
    ensures
        blamed(schemas, ns, a, i, e),
{
    if let Item::Name { kind, .. } = i {
        if let ErrorView::UnknownType(w) = e {
            if defined_somewhere(a, w.ns, kind, w.name.text) {
                let s = choose|s: SchemaId|
                    a.contains(#[trigger] in_place_of(w.ns, s, kind, w.name.text));
                assert(b.contains(in_place_of(w.ns, s, kind, w.name.text)));
            }
        }
    }
}

/// What steps fail for.
proof fn lemma_run_fails(steps: Seq<Step>, st: CacheView) -> (i: Item)
    requires
        st.in_entry(),
        sound(steps),
        run(steps, st).1 is Some,
    ensures
        holds(steps, i),
        blamed(st.schemas, st.current_ns(), st.idents.idents, i, run(steps, st).1->0),
    decreases steps,
{
    reveal_with_fuel(run, 1);
    let front = steps.drop_last();
    let last = steps.last();
    assert(steps.len() > 0);
    assert(forall|j: Item| gives(front, j) ==> #[trigger] gives(steps, j));
    assert(forall|j: Item| step_gives(last, j) ==> #[trigger] gives(steps, j));
    if run(front, st).1 is Some {
        let i = lemma_run_fails(front, st);
        if !gives(front, i) {
            let (inner, naming, n) = choose|inner: NodeView, naming: Naming, n: nat|
                #![trigger
                    gives(front, Item::InPlace { node: inner, naming }),
                    stands_within(inner, i, n)
                ]
                gives(front, Item::InPlace { node: inner, naming }) && stands_within(inner, i, n);
            assert(gives(steps, Item::InPlace { node: inner, naming }) && stands_within(inner, i, n));
        }
        i
    } else {
        let mid = run(front, st).0;
        lemma_run_items(front, st);
        lemma_run_kept(front, st);
        lemma_shape_positions(st.stack, mid.stack);
        lemma_positions(st.stack);
        assert(same_level(st.stack[schema_at(st.stack)], mid.stack[schema_at(st.stack)]));
        let i = lemma_step_fails(last, mid);
        lemma_blamed_before(
            st.schemas,
            st.current_ns(),
            st.idents.idents,
            mid.idents.idents,
            i,
            run(steps, st).1->0,
        );
        if !step_gives(last, i) {
            let (inner, naming, n) = choose|inner: NodeView, naming: Naming, n: nat|
                #![trigger
                    step_gives(last, Item::InPlace { node: inner, naming }),
                    stands_within(inner, i, n)
                ]
                step_gives(last, Item::InPlace { node: inner, naming }) && stands_within(
                    inner,
                    i,
                    n,
                );
            assert(gives(steps, Item::InPlace { node: inner, naming }) && stands_within(inner, i, n));
        }
        i
    }
}

/// What a step fails for.
proof fn lemma_step_fails(step: Step, st: CacheView) -> (i: Item)
    requires
        st.in_entry(),
        step_sound(step),
        run_step(step, st).1 is Some,
    ensures
        step_holds(step, i),
        blamed(st.schemas, st.current_ns(), st.idents.idents, i, run_step(step, st).1->0),
    decreases step,
{
    reveal_with_fuel(run, 1);
    lemma_positions(st.stack);
    match step {
        Step::Reference { kind, name, strength } => {
            if let Ok(wanted) = st.wanted(name, kind) {
                assert(wanted == in_place_of(wanted.ns, SchemaId(0), kind, wanted.name.text));
                lemma_known(st.idents.idents, wanted.ns, kind, wanted.name.text);
            }
            let i = Item::Name { kind, name, strength };
            assert(step_gives(step, i));
            i
        },
        Step::Within { marker, body } => {
            lemma_pushed(st.stack, marker_level(marker));
            let inner = st.pushed(marker_level(marker));
            assert(inner.current_ns() == st.current_ns());
            let i = lemma_run_fails(body, inner);
            if !gives(body, i) {
                let (node, naming, n) = choose|node: NodeView, naming: Naming, n: nat|
                    #![trigger
                        gives(body, Item::InPlace { node, naming }),
                        stands_within(node, i, n)
                    ]
                    gives(body, Item::InPlace { node, naming }) && stands_within(node, i, n);
                assert(step_gives(step, Item::InPlace { node, naming }) && stands_within(
                    node,
                    i,
                    n,
                ));
            }
            i
        },
        Step::Inline { node, naming, body, .. } => {
            let name = inline_name(naming, st.next_id, st.stack);
            let named = CacheView { next_id: st.next_id.wrapping_add(1), ..st };
            let inner = named.opened(name, node);
            lemma_pushed(st.stack, inner.stack.last());
            assert(inner.current_ns() == st.current_ns());
            let i = lemma_run_fails(body, inner);
            let n = lemma_holds_within(node, i);
            assert(step_gives(step, Item::InPlace { node, naming }) && stands_within(node, i, n));
            i
        },
    }
}

/// What the steps of a definition hold stands in it or deeper.
pub proof fn lemma_holds_within(node: NodeView, i: Item) -> (n: nat)
    requires
        holds(node_steps(node), i),
    ensures
        stands_within(node, i, n),
{
    let steps = node_steps(node);
    lemma_node_steps(node);
    if gives(steps, i) {
        0
    } else {
        let (inner, naming, n) = choose|inner: NodeView, naming: Naming, n: nat|
            #![trigger
                gives(steps, Item::InPlace { node: inner, naming }),
                stands_within(inner, i, n)
            ]
            gives(steps, Item::InPlace { node: inner, naming }) && stands_within(inner, i, n);
        assert(stands_in(node, Item::InPlace { node: inner, naming }));
        n + 1
    }
}

/// Whether an error is about a name that stands in a definition, or in one in place in it.
pub open spec fn owed(st: CacheView, node: NodeView, e: ErrorView) -> bool {
    exists|i: Item, n: nat|
        #![trigger stands_within(node, i, n)]
        stands_within(node, i, n) && blamed(
            st.schemas,
            st.current_ns(),
            st.idents.idents,
            i,
            e,
        )
}

/// A definition fails only for a name that stands in it, or in a definition in place in it, and that
/// refers to nothing. The error tells why.
pub proof fn law_definitions_fail_for_unresolved_names(
    name: Seq<char>,
    node: NodeView,
    st: CacheView,
)
    requires
        st.in_schema(),
        define(name, node, st).1 is Some,
    ensures
        owed(st, node, define(name, node, st).1->0),
{
    let inner = st.opened(given(name), node);
    lemma_positions(st.stack);
    lemma_pushed(st.stack, inner.stack.last());
    lemma_node_steps(node);
    let i = lemma_run_fails(node_steps(node), inner);
    let n = lemma_holds_within(node, i);
    assert(stands_within(node, i, n));
}

/// A definition that redefines another one fails only for a name that stands in it, or in a
/// definition in place in it, and that refers to nothing. The error tells why.
pub proof fn law_redefinitions_fail_for_unresolved_names(
    name: Seq<char>,
    base: SchemaId,
    node: NodeView,
    st: CacheView,
)
    requires
        st.in_schema(),
        redefine(name, base, node, st).1 is Some,
    ensures
        owed(st, node, redefine(name, base, node, st).1->0),
{
    let inner = st.opened_redefined(given(name), base, node);
    lemma_positions(st.stack);
    lemma_pushed(st.stack, inner.stack.last());
    lemma_node_steps(node);
    let i = lemma_run_fails(node_steps(node), inner);
    let n = lemma_holds_within(node, i);
    assert(stands_within(node, i, n));
}

/// Whether a schema holds a definition: among its own, or in a redefinition or an override of a
/// schema that was loaded.
pub open spec fn holds_definition(info: SchemaInfoView, node: NodeView) -> bool {
    ||| exists|i: int, name: Seq<char>|
        0 <= i < info.schema.content.len() && #[trigger] is_declared(
            info.schema.content[i],
            name,
            node,
        )
    ||| exists|i: int, l: Seq<char>, k: int, name: Seq<char>|
        0 <= i < info.schema.content.len() && info.dependencies.contains_key(l)
            && #[trigger] replaces_at(info.schema.content[i], l, k, name, node)
}

/// Whether an error is about a name in a definition of a schema that refers to nothing, whatever is
/// known besides.
pub open spec fn fails(schemas: SchemasView, idents: Set<IdentView>, e: ErrorView) -> bool {
    exists|id: SchemaId, node: NodeView, i: Item, n: nat|
        #![trigger schemas.schemas[id], stands_within(node, i, n)]
        {
            &&& schemas.schemas.contains_key(id)
            &&& holds_definition(schemas.schemas[id], node)
            &&& stands_within(node, i, n)
            &&& blamed(schemas, schemas.schemas[id].namespace_id, idents, i, e)
        }
}

proof fn lemma_fails_before(
    schemas: SchemasView,
    a: Set<IdentView>,
    b: Set<IdentView>,
    e: ErrorView,
)
    requires
        a.subset_of(b),
        fails(schemas, b, e),
    ensures
        fails(schemas, a, e),
{
    let (id, node, i, n) = choose|id: SchemaId, node: NodeView, i: Item, n: nat|
        #![trigger schemas.schemas[id], stands_within(node, i, n)]
        {
            &&& schemas.schemas.contains_key(id)
            &&& holds_definition(schemas.schemas[id], node)
            &&& stands_within(node, i, n)
            &&& blamed(schemas, schemas.schemas[id].namespace_id, b, i, e)
        };
    lemma_blamed_before(schemas, schemas.schemas[id].namespace_id, a, b, i, e);
    assert(schemas.schemas[id] == schemas.schemas[id] && stands_within(node, i, n));
}

proof fn lemma_owed_fails(id: SchemaId, node: NodeView, st: CacheView, e: ErrorView)
    requires
        st.schemas.schemas.contains_key(id),
        st.current_ns() == st.schemas.schemas[id].namespace_id,
        holds_definition(st.schemas.schemas[id], node),
        owed(st, node, e),
    ensures
        fails(st.schemas, st.idents.idents, e),
{
    let (i, n) = choose|i: Item, n: nat|
        #![trigger stands_within(node, i, n)]
        stands_within(node, i, n) && blamed(
            st.schemas,
            st.current_ns(),
            st.idents.idents,
            i,
            e,
        );
    assert(st.schemas.schemas[id] == st.schemas.schemas[id] && stands_within(node, i, n));
}

proof fn lemma_content_fails(n: nat, id: SchemaId, st: CacheView)
    requires
        st.in_schema(),
        st.schemas.schemas.contains_key(id),
        st.current_schema() == id,
        st.current_ns() == st.schemas.schemas[id].namespace_id,
        n <= st.schemas.schemas[id].schema.content.len(),
        content_run(st.schemas.schemas[id].schema.content, n, st).1 is Some,
    ensures
        fails(
            st.schemas,
            st.idents.idents,
            content_run(st.schemas.schemas[id].schema.content, n, st).1->0,
        ),
    decreases n,
{
    let info = st.schemas.schemas[id];
    let content = info.schema.content;
    let m = (n - 1) as nat;
    let mid = content_run(content, m, st).0;
    if content_run(content, m, st).1 is Some {
        lemma_content_fails(m, id, st);
    } else {
        lemma_content(m, id, st);
        lemma_same_schema(st, mid);
        if let Some((Some(name), node)) = schema_definition(content[m as int]) {
            law_definitions_fail_for_unresolved_names(name, node, mid);
            assert(is_declared(content[m as int], name, node));
            assert(holds_definition(info, node));
            let e = content_run(content, n, st).1->0;
            lemma_owed_fails(id, node, mid, e);
            lemma_fails_before(st.schemas, st.idents.idents, mid.idents.idents, e);
        }
    }
}

proof fn lemma_redefinitions_fail(
    defs: Seq<Option<Definition>>,
    n: nat,
    base: SchemaId,
    id: SchemaId,
    st: CacheView,
)
    requires
        st.in_schema(),
        st.schemas.schemas.contains_key(id),
        st.current_ns() == st.schemas.schemas[id].namespace_id,
        n <= defs.len(),
        forall|k: int|
            0 <= k < defs.len() ==> match #[trigger] defs[k] {
                Some((Some(name), node)) => holds_definition(st.schemas.schemas[id], node),
                _ => true,
            },
        redefinitions_run(defs, n, base, st).1 is Some,
    ensures
        fails(st.schemas, st.idents.idents, redefinitions_run(defs, n, base, st).1->0),
    decreases n,
{
    let m = (n - 1) as nat;
    let mid = redefinitions_run(defs, m, base, st).0;
    if redefinitions_run(defs, m, base, st).1 is Some {
        lemma_redefinitions_fail(defs, m, base, id, st);
    } else {
        lemma_redefinitions(defs, m, base, st);
        lemma_same_schema(st, mid);
        if let Some((Some(name), node)) = defs[m as int] {
            law_redefinitions_fail_for_unresolved_names(name, base, node, mid);
            let e = redefinitions_run(defs, n, base, st).1->0;
            lemma_owed_fails(id, node, mid, e);
            lemma_fails_before(st.schemas, st.idents.idents, mid.idents.idents, e);
        }
    }
}

proof fn lemma_part_fails(i: int, l: Seq<char>, base: SchemaId, id: SchemaId, st: CacheView)
    requires
        st.in_schema(),
        st.schemas.schemas.contains_key(id),
        st.current_ns() == st.schemas.schemas[id].namespace_id,
        0 <= i < st.schemas.schemas[id].schema.content.len(),
        referred(st.schemas.schemas[id].schema.content[i]) == Some(l),
        st.schemas.schemas[id].dependencies.contains_key(l),
        part_run(st.schemas.schemas[id].schema.content[i], base, st).1 is Some,
    ensures
        fails(
            st.schemas,
            st.idents.idents,
            part_run(st.schemas.schemas[id].schema.content[i], base, st).1->0,
        ),
{
    let info = st.schemas.schemas[id];
    let c = info.schema.content[i];
    let defs = replacing(c);
    assert forall|k: int| 0 <= k < defs.len() implies match #[trigger] defs[k] {
        Some((Some(name), node)) => holds_definition(info, node),
        _ => true,
    } by {
        if let Some((Some(name), node)) = defs[k] {
            assert(replaces_at(c, l, k, name, node));
        }
    }
    lemma_redefinitions_fail(defs, defs.len(), base, id, st);
}

proof fn lemma_import_fails(depth: nat, id: SchemaId, i: int, st: CacheView)
    requires
        st.in_schema(),
        prepared(st),
        depth >= unprocessed(st).len(),
        st.schemas.schemas.contains_key(id),
        st.current_ns() == st.schemas.schemas[id].namespace_id,
        0 <= i < st.schemas.schemas[id].schema.content.len(),
        import_run(
            depth,
            st.schemas.schemas[id].dependencies,
            st.schemas.schemas[id].schema.content[i],
            st,
        ).1 is Some,
    ensures
        fails(
            st.schemas,
            st.idents.idents,
            import_run(
                depth,
                st.schemas.schemas[id].dependencies,
                st.schemas.schemas[id].schema.content[i],
                st,
            ).1->0,
        ),
    decreases depth, 1nat,
{
    reveal_with_fuel(import_run, 1);
    let info = st.schemas.schemas[id];
    let c = info.schema.content[i];
    let l = referred(c)->0;
    let base = info.dependencies[l].target();
    assert(st.schemas.schemas[id].dependencies[l] == info.dependencies[l]);
    assert(st.schemas.schemas.contains_key(base));
    let mid = schema_run(depth, base, st).0;
    if schema_run(depth, base, st).1 is Some {
        lemma_schema_fails(depth, base, st);
    } else {
        lemma_schema(depth, base, st);
        lemma_same_schema(st, mid);
        lemma_part_fails(i, l, base, id, mid);
        lemma_fails_before(
            st.schemas,
            st.idents.idents,
            mid.idents.idents,
            part_run(c, base, mid).1->0,
        );
    }
}

proof fn lemma_imports_fail(depth: nat, id: SchemaId, n: nat, st: CacheView)
    requires
        st.in_schema(),
        prepared(st),
        depth >= unprocessed(st).len(),
        st.schemas.schemas.contains_key(id),
        st.current_schema() == id,
        st.current_ns() == st.schemas.schemas[id].namespace_id,
        n <= st.schemas.schemas[id].schema.content.len(),
        imports_run(depth, st.schemas.schemas[id], n, st).1 is Some,
    ensures
        fails(
            st.schemas,
            st.idents.idents,
            imports_run(depth, st.schemas.schemas[id], n, st).1->0,
        ),
    decreases depth, n + 2,
{
    reveal_with_fuel(imports_run, 1);
    let info = st.schemas.schemas[id];
    let m = (n - 1) as nat;
    let mid = imports_run(depth, info, m, st).0;
    if imports_run(depth, info, m, st).1 is Some {
        lemma_imports_fail(depth, id, m, st);
    } else {
        lemma_imports(depth, id, m, st);
        lemma_same_schema(st, mid);
        lemma_fewer_unprocessed(st, mid);
        lemma_import_fails(depth, id, m as int, mid);
        lemma_fails_before(
            st.schemas,
            st.idents.idents,
            mid.idents.idents,
            imports_run(depth, info, n, st).1->0,
        );
    }
}

proof fn lemma_schema_fails(depth: nat, id: SchemaId, st: CacheView)
    requires
        prepared(st),
        depth >= unprocessed(st).len(),
        st.schemas.schemas.contains_key(id),
        schema_run(depth, id, st).1 is Some,
    ensures
        fails(st.schemas, st.idents.idents, schema_run(depth, id, st).1->0),
    decreases depth, 0nat,
{
    reveal_with_fuel(schema_run, 1);
    let info = st.schemas.schemas[id];
    let n = info.schema.content.len();
    let inner = entered(id, st);
    let start = known_schema(inner, id, info);
    let e = schema_run(depth, id, st).1->0;
    lemma_pushed(st.stack, inner.stack.last());
    let top = start.stack.len() - 1;
    assert(start.stack[top] == (StackView::Schema { id, ns: info.namespace_id }));
    assert(start.current_schema() == id && start.current_ns() == info.namespace_id);
    assert(unprocessed(st).contains(id));
    assert(unprocessed(start) =~= unprocessed(st).remove(id));
    lemma_started(id, st);
    let d = (depth - 1) as nat;
    let mid = imports_run(d, info, n, start).0;
    if imports_run(d, info, n, start).1 is Some {
        lemma_imports_fail(d, id, n, start);
    } else {
        lemma_imports(d, id, n, start);
        lemma_same_schema(start, mid);
        lemma_content_fails(n, id, mid);
        lemma_fails_before(st.schemas, st.idents.idents, mid.idents.idents, e);
    }
}

proof fn lemma_schemas_fail(ids: Seq<SchemaId>, n: nat, depth: nat, st: CacheView)
    requires
        prepared(st),
        depth >= unprocessed(st).len(),
        n <= ids.len(),
        forall|i: int| 0 <= i < ids.len() ==> st.schemas.schemas.contains_key(#[trigger] ids[i]),
        schemas_run(ids, n, depth, st).1 is Some,
    ensures
        fails(st.schemas, st.idents.idents, schemas_run(ids, n, depth, st).1->0),
    decreases n,
{
    let m = (n - 1) as nat;
    let mid = schemas_run(ids, m, depth, st).0;
    if schemas_run(ids, m, depth, st).1 is Some {
        lemma_schemas_fail(ids, m, depth, st);
    } else {
        lemma_schemas(ids, m, depth, st);
        lemma_fewer_unprocessed(st, mid);
        lemma_schema_fails(depth, ids[m as int], mid);
        lemma_fails_before(
            st.schemas,
            st.idents.idents,
            mid.idents.idents,
            schemas_run(ids, n, depth, st).1->0,
        );
    }
}

/// Processing all schemas fails only for a name that refers to nothing, and that stands in a
/// definition of a schema, or in a definition in place in one. The error tells why. So schemas whose
/// names all refer to something that is known are processed without an error.
pub proof fn law_processing_fails_for_unresolved_names(st: CacheView)
    requires
        readable(st.schemas),
        st.schemas.schemas.dom().finite(),
        st.idents.idents.finite(),
        st.stack == Seq::<StackView>::empty(),
        st.processed == Set::<SchemaId>::empty(),
        process_run(st).1 is Some,
    ensures
        fails(st.schemas, st.idents.idents, process_run(st).1->0),
{
    let ids = in_order::<SchemaId>(st.schemas.schemas.dom());
    lemma_in_order_finite::<SchemaId>(st.schemas.schemas.dom());
    let start = CacheView {
        idents: IdentCacheView {
            globals: st.idents.globals.union(crate::schemawalk::global_namespaces(st.schemas)),
            ..st.idents
        },
        ..st
    };
    assert forall|k: int| 0 <= k < ids.len() implies start.schemas.schemas.contains_key(
        #[trigger] ids[k],
    ) by {
        assert(ids.contains(ids[k]));
    }
    lemma_count(ids, st.schemas.schemas.dom());
    vstd::set_lib::lemma_len_subset(unprocessed(start), st.schemas.schemas.dom());
    lemma_schemas_fail(ids, ids.len(), ids.len(), start);
}

} // verus!
