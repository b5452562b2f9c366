//! What the entries of definitions are once all schemas were processed.

use vstd::prelude::*;

use crate::contents::{kind_of, Item};
use crate::entrylaws::{
    lemma_all_processed, lemma_content, lemma_imports, lemma_part, lemma_redefinitions,
    lemma_schema, lemma_schemas, lemma_started, prepared, replacing, tidy,
};
use crate::failurelaws::{holds, lemma_holds_within, stands_within, step_holds};
use crate::ident::{IdentType, IdentView, NameView};
use crate::identcache::IdentCacheView;
use crate::mentionlaws::ready;
use crate::models::SchemaId;
use crate::order::{in_order, lemma_in_order_finite};
use crate::partlaws::{
    defined_as, is_declared, law_replacements_redefine_their_base, lemma_redefinitions_leave,
    lemma_redefinitions_upto, lemma_replace_settles, lemma_replacing, lemma_run_leaves,
    lemma_takes_here, replaces_at, retakes, step_takes, takes,
};
use crate::recordlaws::{declared, law_definitions_are_recorded};
use crate::replacelaws::carried;
use crate::resolvelaws::leads_to;
use crate::schemas::SchemasView;
use crate::schemawalk::{
    content_run, define, entered, given, import_run, imports_run, known_schema, lemma_count,
    lemma_fewer_unprocessed, lemma_same_schema, part_run, process_run, redefinitions_run, referred,
    schema_definition, schema_run, schemas_run, unprocessed,
};
use crate::stepcontents::{gives, lemma_node_steps, sound, step_gives, step_sound};
use crate::steps::{node_steps, Naming, NodeView, Step};
use crate::visitlaws::lemma_part_visits;
use crate::walk::{
    inline_name, lemma_entered, lemma_positions, lemma_pushed, marker_level, run, CacheView,
    StackView,
};
use crate::xs::SchemaContent;

verus! {

/// Whether a definition in place can be called by a name that is given, wherever it stands.
pub open spec fn can_be_called(naming: Naming, text: Seq<char>) -> bool {
    exists|id: usize, stack: Seq<StackView>| #[trigger]
        inline_name(naming, id, stack) == (NameView { named: true, text })
}

/// Whether something of a kind that is defined in place in a definition, at any depth, can be called
/// by a name.
pub open spec fn clashes(node: NodeView, kind: IdentType, text: Seq<char>) -> bool {
    exists|x: NodeView, naming: Naming, n: nat|
        #![trigger stands_within(node, Item::InPlace { node: x, naming }, n)]
        {
            &&& stands_within(node, Item::InPlace { node: x, naming }, n)
            &&& kind_of(x) == kind
            &&& can_be_called(naming, text)
        }
}

/// A place where a schema defines a name: part `i` of the schema, or part `k` of what part `i`
/// redefines or overrides in the schema of a location.
pub struct Place {
    pub id: SchemaId,
    pub i: int,
    pub k: int,
    pub l: Seq<char>,
    pub name: Seq<char>,
    pub node: NodeView,
    pub replaces: bool,
}

/// Whether a schema defines a name at a place.
pub open spec fn stands_at(schemas: SchemasView, p: Place) -> bool {
    let info = schemas.schemas[p.id];
    &&& schemas.schemas.contains_key(p.id)
    &&& 0 <= p.i < info.schema.content.len()
    &&& !p.replaces ==> is_declared(info.schema.content[p.i], p.name, p.node)
    &&& p.replaces ==> info.dependencies.contains_key(p.l) && replaces_at(
        info.schema.content[p.i],
        p.l,
        p.k,
        p.name,
        p.node,
    )
}

/// Whether nothing else in a schema takes the name of the definition at a place, for the same kind:
/// no other definition of the schema, no other one by which it replaces something, and nothing that
/// is defined in place in any of them.
pub open spec fn stands_alone(schemas: SchemasView, p: Place) -> bool {
    let content = schemas.schemas[p.id].schema.content;
    let kind = kind_of(p.node);
    &&& forall|i: int, name: Seq<char>, node: NodeView|
        #![trigger is_declared(content[i], name, node)]
        0 <= i < content.len() && is_declared(content[i], name, node) ==> {
            &&& name == p.name && kind_of(node) == kind ==> !p.replaces && i == p.i
            &&& !clashes(node, kind, p.name)
        }
    &&& forall|i: int, l: Seq<char>, k: int, name: Seq<char>, node: NodeView|
        #![trigger replaces_at(content[i], l, k, name, node)]
        0 <= i < content.len() && replaces_at(content[i], l, k, name, node) ==> {
            &&& name == p.name && kind_of(node) == kind ==> p.replaces && i == p.i && k == p.k
            &&& !clashes(node, kind, p.name)
        }
}

/// The identifier of the definition at a place.
pub open spec fn ident_at(schemas: SchemasView, p: Place) -> IdentView {
    IdentView {
        ns: schemas.schemas[p.id].namespace_id,
        schema: p.id,
        name: NameView { named: true, text: p.name },
        type_: kind_of(p.node),
    }
}

/// What the definition at a place redefines: what has its name and kind in the schema that it
/// replaces something of, or nothing.
pub open spec fn base_at(schemas: SchemasView, p: Place) -> Option<IdentView> {
    if p.replaces {
        Some(
            IdentView {
                schema: leads_to(schemas.schemas[p.id].dependencies[p.l]),
                ..ident_at(schemas, p)
            },
        )
    } else {
        None
    }
}

/// Whether the definition at a place has its entry.
pub open spec fn has_entry(x: CacheView, p: Place) -> bool {
    let at = ident_at(x.schemas, p);
    &&& x.nodes.contains_key(at)
    &&& x.idents.idents.contains(at)
    &&& x.nodes[at].node == p.node
    &&& x.nodes[at].redefine_base == base_at(x.schemas, p)
}

/// What takes an identifier in steps is defined in place there, and can be called by its name.
proof fn lemma_takes(steps: Seq<Step>, st: CacheView, at: IdentView) -> (i: Item)
    requires
        sound(steps),
        takes(steps, st, at),
        at.name.named,
    ensures
        holds(steps, i),
        i matches Item::InPlace { node, naming } && kind_of(node) == at.type_ && can_be_called(
            naming,
            at.name.text,
        ),
    decreases steps,
{
    let front = steps.drop_last();
    let last = steps.last();
    assert(forall|j: Item| gives(front, j) ==> #[trigger] gives(steps, j));
    assert(forall|j: Item| step_gives(last, j) ==> #[trigger] gives(steps, j));
    if takes(front, st, at) {
        let i = lemma_takes(front, st, at);
        if !gives(front, i) {
            let (inner, naming, n) = choose|inner: NodeView, naming: Naming, n: nat|
                #![trigger
                    gives(front, Item::InPlace { node: inner, naming }),
                    stands_within(inner, i, n)
                ]
                gives(front, Item::InPlace { node: inner, naming }) && stands_within(inner, i, n);
            assert(gives(steps, Item::InPlace { node: inner, naming }) && stands_within(
                inner,
                i,
                n,
            ));
        }
        i
    } else {
        let i = lemma_step_takes(last, run(front, st).0, at);
        if !step_gives(last, i) {
            let (inner, naming, n) = choose|inner: NodeView, naming: Naming, n: nat|
                #![trigger
                    step_gives(last, Item::InPlace { node: inner, naming }),
                    stands_within(inner, i, n)
                ]
                step_gives(last, Item::InPlace { node: inner, naming }) && stands_within(
                    inner,
                    i,
                    n,
                );
            assert(gives(steps, Item::InPlace { node: inner, naming }) && stands_within(
                inner,
                i,
                n,
            ));
        }
        i
    }
}

/// What takes an identifier in a step is defined in place there, and can be called by its name.
proof fn lemma_step_takes(step: Step, st: CacheView, at: IdentView) -> (i: Item)
    requires
        step_sound(step),
        step_takes(step, st, at),
        at.name.named,
    ensures
        step_holds(step, i),
        i matches Item::InPlace { node, naming } && kind_of(node) == at.type_ && can_be_called(
            naming,
            at.name.text,
        ),
    decreases step,
{
    match step {
        Step::Reference { kind, name, strength } => Item::Name { kind, name, strength },
        Step::Within { marker, body } => {
            let i = lemma_takes(body, st.pushed(marker_level(marker)), at);
            if !gives(body, i) {
                let (node, naming, n) = choose|node: NodeView, naming: Naming, n: nat|
                    #![trigger
                        gives(body, Item::InPlace { node, naming }),
                        stands_within(node, i, n)
                    ]
                    gives(body, Item::InPlace { node, naming }) && stands_within(node, i, n);
                assert(step_gives(step, Item::InPlace { node, naming }) && stands_within(
                    node,
                    i,
                    n,
                ));
            }
            i
        },
        Step::Inline { node, naming, body, .. } => {
            let name = inline_name(naming, st.next_id, st.stack);
            let named = CacheView { next_id: st.next_id.wrapping_add(1), ..st };
            let own = Item::InPlace { node, naming };
            assert(step_gives(step, own));
            if st.ident_here(name, node) == at {
                assert(inline_name(naming, st.next_id, st.stack) == (NameView {
                    named: true,
                    text: at.name.text,
                }));
                own
            } else {
                let i = lemma_takes(body, named.opened(name, node), at);
                let n = lemma_holds_within(node, i);
                assert(step_gives(step, Item::InPlace { node, naming }) && stands_within(
                    node,
                    i,
                    n,
                ));
                i
            }
        },
    }
}

/// The steps of a definition in which nothing can be called by a name do not take it.
proof fn lemma_takes_not(node: NodeView, st: CacheView, at: IdentView)
    requires
        at.name.named,
        !clashes(node, at.type_, at.name.text),
    ensures
        !takes(node_steps(node), st, at),
{
    if takes(node_steps(node), st, at) {
        lemma_node_steps(node);
        let i = lemma_takes(node_steps(node), st, at);
        let n = lemma_holds_within(node, i);
        assert(stands_within(node, i, n));
        if let Item::InPlace { node: x, naming } = i {
            assert(stands_within(node, Item::InPlace { node: x, naming }, n));
        }
    }
}

/// A definition that does not take an identifier leaves its entry alone.
proof fn lemma_define_leaves(name: Seq<char>, node: NodeView, st: CacheView, p: Place)
    requires
        st.in_schema(),
        define(name, node, st).1 is None,
        has_entry(st, p),
        st.current_schema() != p.id || (declared(st, name, node) != ident_at(st.schemas, p)
            && !clashes(node, kind_of(p.node), p.name)),
    ensures
        has_entry(define(name, node, st).0, p),
{
    let at = ident_at(st.schemas, p);
    let inner = st.opened(given(name), node);
    lemma_positions(st.stack);
    lemma_pushed(st.stack, inner.stack.last());
    lemma_entered(st, inner, node_steps(node));
    assert(inner.current_schema() == st.current_schema());
    if takes(node_steps(node), inner, at) {
        lemma_takes_here(node_steps(node), inner, at);
        lemma_takes_not(node, inner, at);
    }
    lemma_run_leaves(node_steps(node), inner, at);
    assert(declared(st, name, node) != at);
}

/// Definitions that do not take an identifier leave its entry alone.
proof fn lemma_content_leaves(m: nat, n: nat, id: SchemaId, st: CacheView, p: Place)
    requires
        st.in_schema(),
        st.schemas.schemas.contains_key(id),
        st.current_schema() == id,
        st.current_ns() == st.schemas.schemas[id].namespace_id,
        m <= n <= st.schemas.schemas[id].schema.content.len(),
        content_run(st.schemas.schemas[id].schema.content, n, st).1 is None,
        has_entry(content_run(st.schemas.schemas[id].schema.content, m, st).0, p),
        id != p.id || (stands_alone(st.schemas, p) && (p.replaces || p.i < m)),
    ensures
        has_entry(content_run(st.schemas.schemas[id].schema.content, n, st).0, p),
    decreases n,
{
    let content = st.schemas.schemas[id].schema.content;
    if m < n {
        let j = (n - 1) as nat;
        lemma_content_leaves(m, j, id, st, p);
        lemma_content(j, id, st);
        let mid = content_run(content, j, st).0;
        lemma_same_schema(st, mid);
        if let Some((Some(name), node)) = schema_definition(content[j as int]) {
            assert(is_declared(content[j as int], name, node));
            lemma_define_leaves(name, node, mid, p);
        }
    }
}

/// A list of definitions that do not take an identifier leaves its entry alone.
proof fn lemma_part_leaves(
    i: int,
    l: Seq<char>,
    base: SchemaId,
    id: SchemaId,
    st: CacheView,
    p: Place,
)
    requires
        st.in_schema(),
        st.idents.idents.finite(),
        tidy(st.nodes, st.idents.idents),
        st.schemas.schemas.contains_key(id),
        st.current_schema() == id,
        0 <= i < st.schemas.schemas[id].schema.content.len(),
        referred(st.schemas.schemas[id].schema.content[i]) == Some(l),
        part_run(st.schemas.schemas[id].schema.content[i], base, st).1 is None,
        has_entry(st, p),
        id != p.id || (stands_alone(st.schemas, p) && p.replaces && p.i != i),
    ensures
        has_entry(part_run(st.schemas.schemas[id].schema.content[i], base, st).0, p),
{
    let c = st.schemas.schemas[id].schema.content[i];
    let defs = replacing(c);
    let at = ident_at(st.schemas, p);
    let end = part_run(c, base, st).0;
    if c is Redefine || c is Override {
        lemma_replace_settles(defs, base, st);
        lemma_redefinitions(defs, defs.len(), base, st);
        let mid = redefinitions_run(defs, defs.len(), base, st).0;
        assert forall|j: int| 0 <= j < defs.len() implies !retakes(
            #[trigger] defs[j],
            base,
            redefinitions_run(defs, j as nat, base, st).0,
            at,
        ) by {
            lemma_retakes_not(i, l, j, base, id, st, p);
        }
        lemma_redefinitions_leave(defs, 0, defs.len(), base, st, at);
        assert(mid.nodes.contains_key(at));
        if at.schema == st.current_schema() {
            assert(carried(mid.nodes[at], end.nodes[at], st.current_schema()));
        }
    }
}

/// A definition of a list does not take the identifier of the definition at a place.
proof fn lemma_retakes_not(
    i: int,
    l: Seq<char>,
    j: int,
    base: SchemaId,
    id: SchemaId,
    st: CacheView,
    p: Place,
)
    requires
        st.in_schema(),
        st.schemas.schemas.contains_key(id),
        st.current_schema() == id,
        0 <= i < st.schemas.schemas[id].schema.content.len(),
        referred(st.schemas.schemas[id].schema.content[i]) == Some(l),
        0 <= j < replacing(st.schemas.schemas[id].schema.content[i]).len(),
        redefinitions_run(
            replacing(st.schemas.schemas[id].schema.content[i]),
            replacing(st.schemas.schemas[id].schema.content[i]).len(),
            base,
            st,
        ).1 is None,
        id != p.id || (stands_alone(st.schemas, p) && p.replaces && (p.i != i || p.k != j)),
    ensures
        !retakes(
            replacing(st.schemas.schemas[id].schema.content[i])[j],
            base,
            redefinitions_run(
                replacing(st.schemas.schemas[id].schema.content[i]),
                j as nat,
                base,
                st,
            ).0,
            ident_at(st.schemas, p),
        ),
{
    let c = st.schemas.schemas[id].schema.content[i];
    let defs = replacing(c);
    let at = ident_at(st.schemas, p);
    lemma_redefinitions_upto(defs, j as nat, defs.len(), base, st);
    lemma_redefinitions_upto(defs, (j + 1) as nat, defs.len(), base, st);
    lemma_redefinitions(defs, j as nat, base, st);
    let mid = redefinitions_run(defs, j as nat, base, st).0;
    lemma_same_schema(st, mid);
    if let Some((Some(name), node)) = defs[j] {
        assert(replaces_at(c, l, j, name, node));
        let inner = mid.opened_redefined(given(name), base, node);
        lemma_positions(mid.stack);
        lemma_pushed(mid.stack, inner.stack.last());
        assert(inner.current_schema() == id);
        if takes(node_steps(node), inner, at) {
            lemma_takes_here(node_steps(node), inner, at);
            lemma_takes_not(node, inner, at);
        }
    }
}

/// Whether the definition at a place has its entry if its schema was visited.
spec fn found(x: CacheView, p: Place) -> bool {
    x.processed.contains(p.id) ==> has_entry(x, p)
}

/// What is known of a state in which schemas are visited.
spec fn settled_state(x: CacheView, p: Place) -> bool {
    &&& prepared(x)
    &&& tidy(x.nodes, x.idents.idents)
    &&& stands_at(x.schemas, p)
    &&& stands_alone(x.schemas, p)
}

/// The part at a place replaces what it should.
proof fn lemma_part_replaces(base: SchemaId, st: CacheView, p: Place)
    requires
        st.in_schema(),
        settled_state(st, p),
        p.replaces,
        st.current_schema() == p.id,
        st.current_ns() == st.schemas.schemas[p.id].namespace_id,
        base == leads_to(st.schemas.schemas[p.id].dependencies[p.l]),
        part_run(st.schemas.schemas[p.id].schema.content[p.i], base, st).1 is None,
    ensures
        has_entry(part_run(st.schemas.schemas[p.id].schema.content[p.i], base, st).0, p),
{
    let c = st.schemas.schemas[p.id].schema.content[p.i];
    let defs = replacing(c);
    lemma_replacing(c, p.l, p.k, p.name, p.node);
    lemma_replace_settles(defs, base, st);
    assert forall|j: int| p.k < j < defs.len() implies !retakes(
        #[trigger] defs[j],
        base,
        redefinitions_run(defs, j as nat, base, st).0,
        declared(st, p.name, p.node),
    ) by {
        lemma_retakes_not(p.i, p.l, j, base, p.id, st, p);
    }
    law_replacements_redefine_their_base(c, p.l, p.k, base, st, p.name, p.node);
    lemma_part(c, base, st);
}

/// Following a part of another schema finds the definition at a place if its schema is visited.
proof fn lemma_import_finds(depth: nat, id: SchemaId, i: int, st: CacheView, p: Place)
    requires
        st.in_schema(),
        settled_state(st, p),
        found(st, p),
        depth >= unprocessed(st).len(),
        st.schemas.schemas.contains_key(id),
        st.current_schema() == id,
        0 <= i < st.schemas.schemas[id].schema.content.len(),
        id != p.id || (st.processed.contains(p.id) && p.replaces && p.i != i),
        import_run(
            depth,
            st.schemas.schemas[id].dependencies,
            st.schemas.schemas[id].schema.content[i],
            st,
        ).1 is None,
    ensures
        found(
            import_run(
                depth,
                st.schemas.schemas[id].dependencies,
                st.schemas.schemas[id].schema.content[i],
                st,
            ).0,
            p,
        ),
    decreases depth, 1nat,
{
    reveal_with_fuel(import_run, 1);
    let info = st.schemas.schemas[id];
    let c = info.schema.content[i];
    if let Some(l) = referred(c) {
        if info.dependencies.contains_key(l) {
            let base = info.dependencies[l].target();
            assert(st.schemas.schemas[id].dependencies[l] == info.dependencies[l]);
            assert(st.schemas.schemas.contains_key(base));
            let mid = schema_run(depth, base, st).0;
            assert(schema_run(depth, base, st).1 is None);
            lemma_schema(depth, base, st);
            lemma_schema_finds(depth, base, st, p);
            lemma_same_schema(st, mid);
            lemma_part(c, base, mid);
            if mid.processed.contains(p.id) {
                lemma_part_leaves(i, l, base, id, mid, p);
            }
            lemma_part_visits(c, base, mid);
        }
    }
}

/// Following the first parts of another schema finds the definition at a place if its schema is
/// visited.
proof fn lemma_imports_find(depth: nat, id: SchemaId, n: nat, st: CacheView, p: Place)
    requires
        st.in_schema(),
        settled_state(st, p),
        found(st, p),
        depth >= unprocessed(st).len(),
        st.schemas.schemas.contains_key(id),
        st.current_schema() == id,
        st.current_ns() == st.schemas.schemas[id].namespace_id,
        n <= st.schemas.schemas[id].schema.content.len(),
        id != p.id,
        imports_run(depth, st.schemas.schemas[id], n, st).1 is None,
    ensures
        found(imports_run(depth, st.schemas.schemas[id], n, st).0, p),
    decreases depth, n + 2,
{
    reveal_with_fuel(imports_run, 1);
    if n > 0 {
        let m = (n - 1) as nat;
        let info = st.schemas.schemas[id];
        let mid = imports_run(depth, info, m, st).0;
        assert(imports_run(depth, info, m, st).1 is None);
        lemma_imports(depth, id, m, st);
        lemma_imports_find(depth, id, m, st, p);
        lemma_same_schema(st, mid);
        lemma_fewer_unprocessed(st, mid);
        assert(imports_run(depth, info, n, st) == import_run(
            depth,
            info.dependencies,
            info.schema.content[m as int],
            mid,
        ));
        lemma_import_finds(depth, id, m as int, mid, p);
    }
}

/// Following the parts of the schema of a place, up to the place and further, gives its entry to a
/// definition that replaces another one.
proof fn lemma_own_imports(depth: nat, n: nat, st: CacheView, p: Place)
    requires
        st.in_schema(),
        settled_state(st, p),
        p.replaces,
        depth >= unprocessed(st).len(),
        st.processed.contains(p.id),
        st.current_schema() == p.id,
        st.current_ns() == st.schemas.schemas[p.id].namespace_id,
        p.i < n <= st.schemas.schemas[p.id].schema.content.len(),
        imports_run(depth, st.schemas.schemas[p.id], n, st).1 is None,
    ensures
        has_entry(imports_run(depth, st.schemas.schemas[p.id], n, st).0, p),
    decreases depth, n + 2,
{
    reveal_with_fuel(imports_run, 1);
    reveal_with_fuel(import_run, 1);
    let m = (n - 1) as nat;
    let info = st.schemas.schemas[p.id];
    let mid = imports_run(depth, info, m, st).0;
    assert(imports_run(depth, info, m, st).1 is None);
    lemma_imports(depth, p.id, m, st);
    lemma_same_schema(st, mid);
    lemma_fewer_unprocessed(st, mid);
    let c = info.schema.content[m as int];
    assert(imports_run(depth, info, n, st) == import_run(depth, info.dependencies, c, mid));
    assert(mid.processed.contains(p.id));
    if m == p.i {
        lemma_replacing(c, p.l, p.k, p.name, p.node);
        let base = info.dependencies[p.l].target();
        assert(mid.schemas.schemas[p.id].dependencies[p.l] == info.dependencies[p.l]);
        assert(mid.schemas.schemas.contains_key(base));
        let next = schema_run(depth, base, mid).0;
        assert(schema_run(depth, base, mid).1 is None);
        lemma_schema(depth, base, mid);
        lemma_same_schema(mid, next);
        lemma_part_replaces(base, next, p);
    } else {
        lemma_own_imports(depth, m, st, p);
        lemma_import_finds(depth, p.id, m as int, mid, p);
        assert(import_run(depth, info.dependencies, c, mid).0.processed.contains(p.id)) by {
            lemma_imports(depth, p.id, n, st);
        }
    }
}

/// Processing a schema finds the definition at a place if its schema is visited.
proof fn lemma_schema_finds(depth: nat, id: SchemaId, st: CacheView, p: Place)
    requires
        settled_state(st, p),
        found(st, p),
        depth >= unprocessed(st).len(),
        st.schemas.schemas.contains_key(id),
        schema_run(depth, id, st).1 is None,
    ensures
        found(schema_run(depth, id, st).0, p),
    decreases depth, 0nat,
{
    reveal_with_fuel(schema_run, 1);
    if !st.processed.contains(id) {
        let info = st.schemas.schemas[id];
        let content = info.schema.content;
        let n = content.len();
        let inner = entered(id, st);
        let start = known_schema(inner, id, info);
        lemma_pushed(st.stack, inner.stack.last());
        let top = start.stack.len() - 1;
        assert(start.stack[top] == (StackView::Schema { id, ns: info.namespace_id }));
        assert(start.current_schema() == id && start.current_ns() == info.namespace_id);
        assert(unprocessed(st).contains(id));
        assert(unprocessed(start) =~= unprocessed(st).remove(id));
        lemma_started(id, st);
        let d = (depth - 1) as nat;
        let mid = imports_run(d, info, n, start).0;
        assert(imports_run(d, info, n, start).1 is None);
        lemma_imports(d, id, n, start);
        lemma_same_schema(start, mid);
        lemma_content(n, id, mid);
        let end = content_run(content, n, mid).0;
        assert(content_run(content, n, mid).1 is None);
        if id != p.id {
            lemma_imports_find(d, id, n, start, p);
            if mid.processed.contains(p.id) {
                lemma_content_leaves(0, n, id, mid, p);
            }
        } else if p.replaces {
            lemma_own_imports(d, n, start, p);
            lemma_content_leaves(0, n, id, mid, p);
        } else {
            lemma_declares(n, mid, p);
        }
        assert(schema_run(depth, id, st).0 == end.popped());
    }
}

/// The definitions of the schema of a place, up to the place and further, give its entry to a
/// definition of the schema.
proof fn lemma_declares(n: nat, st: CacheView, p: Place)
    requires
        st.in_schema(),
        settled_state(st, p),
        !p.replaces,
        st.current_schema() == p.id,
        st.current_ns() == st.schemas.schemas[p.id].namespace_id,
        p.i < n <= st.schemas.schemas[p.id].schema.content.len(),
        content_run(st.schemas.schemas[p.id].schema.content, n, st).1 is None,
    ensures
        has_entry(content_run(st.schemas.schemas[p.id].schema.content, n, st).0, p),
{
    let content = st.schemas.schemas[p.id].schema.content;
    let m = p.i as nat;
    lemma_content_upto(content, m, n, st);
    lemma_content_upto(content, (m + 1) as nat, n, st);
    lemma_content(m, p.id, st);
    let mid = content_run(content, m, st).0;
    lemma_same_schema(st, mid);
    assert(schema_definition(content[p.i]) == Some((Some(p.name), p.node)));
    law_definitions_are_recorded(p.name, p.node, mid);
    lemma_content((m + 1) as nat, p.id, st);
    assert(has_entry(content_run(content, (m + 1) as nat, st).0, p));
    lemma_content_leaves((m + 1) as nat, n, p.id, st, p);
}

/// Definitions that are read without an error were read without one up to any place.
proof fn lemma_content_upto(content: Seq<SchemaContent>, m: nat, n: nat, st: CacheView)
    requires
        m <= n,
        content_run(content, n, st).1 is None,
    ensures
        content_run(content, m, st).1 is None,
    decreases n,
{
    if m < n {
        lemma_content_upto(content, m, (n - 1) as nat, st);
    }
}

/// Processing the first schemas finds the definition at a place if its schema is visited.
proof fn lemma_schemas_find(ids: Seq<SchemaId>, n: nat, depth: nat, st: CacheView, p: Place)
    requires
        settled_state(st, p),
        found(st, p),
        depth >= unprocessed(st).len(),
        n <= ids.len(),
        forall|i: int| 0 <= i < ids.len() ==> st.schemas.schemas.contains_key(#[trigger] ids[i]),
        schemas_run(ids, n, depth, st).1 is None,
    ensures
        found(schemas_run(ids, n, depth, st).0, p),
    decreases n,
{
    if n > 0 {
        let m = (n - 1) as nat;
        lemma_schemas(ids, m, depth, st);
        lemma_schemas_find(ids, m, depth, st, p);
        let mid = schemas_run(ids, m, depth, st).0;
        lemma_fewer_unprocessed(st, mid);
        lemma_schema_finds(depth, ids[m as int], mid, p);
    }
}

/// The definition at a place has its entry once all schemas were processed.
proof fn lemma_process_finds(st: CacheView, p: Place)
    requires
        ready(st),
        tidy(st.nodes, st.idents.idents),
        process_run(st).1 is None,
        stands_at(st.schemas, p),
        stands_alone(st.schemas, p),
    ensures
        has_entry(process_run(st).0, p),
        process_run(st).0.schemas == st.schemas,
{
    let ids = in_order::<SchemaId>(st.schemas.schemas.dom());
    lemma_in_order_finite::<SchemaId>(st.schemas.schemas.dom());
    let start = CacheView {
        idents: IdentCacheView {
            globals: st.idents.globals.union(crate::schemawalk::global_namespaces(st.schemas)),
            ..st.idents
        },
        ..st
    };
    assert forall|k: int| 0 <= k < ids.len() implies start.schemas.schemas.contains_key(
        #[trigger] ids[k],
    ) by {
        assert(ids.contains(ids[k]));
    }
    lemma_count(ids, st.schemas.schemas.dom());
    vstd::set_lib::lemma_len_subset(unprocessed(start), st.schemas.schemas.dom());
    lemma_schemas(ids, ids.len(), ids.len(), start);
    lemma_schemas_find(ids, ids.len(), ids.len(), start, p);
    lemma_all_processed(st, p.id);
}

/// Once all schemas were processed without an error, the entry of every definition by which a schema
/// redefines or overrides another one holds that definition, and redefines what has its name and
/// kind in the schema that is redefined or overridden. The entry is in the namespace of the schema
/// and in the schema, under the name and the kind of the definition. This is stated of redefinitions
/// and overrides of schemas that were loaded, and where nothing else in the schema takes the name.
pub proof fn law_replacements_redefine_what_they_refer_to(
    st: CacheView,
    id: SchemaId,
    i: int,
    l: Seq<char>,
    k: int,
    name: Seq<char>,
    node: NodeView,
)
    requires
        ready(st),
        tidy(st.nodes, st.idents.idents),
        process_run(st).1 is None,
        st.schemas.schemas.contains_key(id),
        0 <= i < st.schemas.schemas[id].schema.content.len(),
        st.schemas.schemas[id].dependencies.contains_key(l),
        replaces_at(st.schemas.schemas[id].schema.content[i], l, k, name, node),
        stands_alone(st.schemas, Place { id, i, k, l, name, node, replaces: true }),
    ensures
        ({
            let end = process_run(st).0;
            let at = defined_as(st, id, name, node);
            let base = leads_to(st.schemas.schemas[id].dependencies[l]);
            &&& end.nodes.contains_key(at)
            &&& end.idents.idents.contains(at)
            &&& end.nodes[at].node == node
            &&& end.nodes[at].redefine_base == Some(IdentView { schema: base, ..at })
        }),
{
    lemma_process_finds(st, Place { id, i, k, l, name, node, replaces: true });
}

/// Once all schemas were processed without an error, the entry of every definition of a schema holds
/// that definition, and redefines nothing. The entry is in the namespace of the schema and in the
/// schema, under the name and the kind of the definition. This is stated where nothing else in the
/// schema takes the name.
pub proof fn law_declarations_hold_their_definition(
    st: CacheView,
    id: SchemaId,
    i: int,
    name: Seq<char>,
    node: NodeView,
)
    requires
        ready(st),
        tidy(st.nodes, st.idents.idents),
        process_run(st).1 is None,
        st.schemas.schemas.contains_key(id),
        0 <= i < st.schemas.schemas[id].schema.content.len(),
        is_declared(st.schemas.schemas[id].schema.content[i], name, node),
        stands_alone(
            st.schemas,
            Place { id, i, k: 0, l: Seq::empty(), name, node, replaces: false },
        ),
    ensures
        ({
            let end = process_run(st).0;
            let at = defined_as(st, id, name, node);
            &&& end.nodes.contains_key(at)
            &&& end.idents.idents.contains(at)
            &&& end.nodes[at].node == node
            &&& end.nodes[at].redefine_base is None
        }),
{
    lemma_process_finds(
        st,
        Place { id, i, k: 0, l: Seq::empty(), name, node, replaces: false },
    );
}

} // verus!
