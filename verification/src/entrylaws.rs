//! Every definition of every schema has an entry in the node cache.

use vstd::prelude::*;

use crate::ident::IdentView;
use crate::identcache::IdentCacheView;
use crate::keys::{inline_keys, law_inline_definitions_are_dependencies};
use crate::models::{Dependency, SchemaId};
use crate::order::{in_order, lemma_in_order_finite};
use crate::nodes::EntryView;
use crate::requestlaws::asks_for;
use crate::resolvelaws::leads_to;
use crate::schemas::{SchemaInfoView, SchemasView};
use crate::contents::{stands_in, Item};
use crate::recordlaws::{
    all_recorded, explains, item_key, lemma_defining, lemma_recorded_insert, lemma_run_items,
    lemma_step_items, recorded,
};
use crate::schemawalk::{
    clear, override_definitions, redefine_definitions, repointed, update_entry,
};
use crate::stepcontents::{lemma_node_steps, sound, step_sound};
use crate::schemawalk::{
    around, content_run, define, entered, given, import_run, imports_run, is_distinct, known_schema,
    part_run,
    process_run, readable, redefine, redefinitions_run, referred, replace_run, schema_definition,
    schema_run, schemas_run, settle, settle_one, unprocessed, update_entries, Definition, Pending,
};
use crate::schemawalk::{
    lemma_around_trans, lemma_count, lemma_fewer_unprocessed, lemma_same_schema, lemma_settle_one,
    not_yet_copied, replaced,
};
use crate::steps::{node_steps, node_type, DependencyKeyView, NodeView, Step};
use crate::walklaws::redefines_its_name;
use crate::walk::{
    lemma_entered, lemma_popped_kept, lemma_positions, lemma_pushed, lemma_run_kept,
    lemma_shape_positions,
    marker_level, run, run_step, same_level,
    CacheView, StackView,
};
use crate::xs::SchemaContent;

verus! {

/// Whether every entry has a known identifier, and redefines, if anything, what has its name.
pub open spec fn tidy(nodes: Map<IdentView, EntryView>, idents: Set<IdentView>) -> bool {
    &&& redefines_its_name(nodes)
    &&& forall|i: IdentView| #[trigger] nodes.contains_key(i) ==> idents.contains(i)
}

/// Whether every known identifier has an entry.
pub open spec fn filled(nodes: Map<IdentView, EntryView>, idents: Set<IdentView>) -> bool {
    forall|i: IdentView| #[trigger] idents.contains(i) ==> nodes.contains_key(i)
}

/// Whether one state has all entries and identifiers of another one, finitely many of them if that
/// one has, and tidy ones if that one has.
pub open spec fn spreads(a: CacheView, b: CacheView) -> bool {
    &&& forall|i: IdentView| a.nodes.contains_key(i) ==> #[trigger] b.nodes.contains_key(i)
    &&& a.idents.idents.subset_of(b.idents.idents)
    &&& a.idents.idents.finite() ==> b.idents.idents.finite()
    &&& tidy(a.nodes, a.idents.idents) ==> tidy(b.nodes, b.idents.idents)
    &&& filled(a.nodes, a.idents.idents) ==> filled(b.nodes, b.idents.idents)
}

/// Whether one state has all entries and identifiers of another one, finitely many of them if that
/// one has, and tidy ones that record what stands in their definitions if that one has.
pub open spec fn grows(a: CacheView, b: CacheView) -> bool {
    &&& spreads(a, b)
    &&& all_recorded(a.schemas, a.nodes) ==> all_recorded(a.schemas, b.nodes)
}

/// Steps remove no entry.
proof fn lemma_run_grows(steps: Seq<Step>, st: CacheView)
    requires
        st.in_entry(),
        run(steps, st).1 is None,
    ensures
        spreads(st, run(steps, st).0),
        sound(steps) ==> grows(st, run(steps, st).0),
    decreases steps,
{
    reveal_with_fuel(run, 1);
    if steps.len() > 0 {
        lemma_run_grows(steps.drop_last(), st);
        lemma_run_kept(steps.drop_last(), st);
        lemma_run_step_grows(steps.last(), run(steps.drop_last(), st).0);
    }
    if sound(steps) {
        lemma_run_items(steps, st);
    }
}

/// A step keeps all entries.
proof fn lemma_run_step_grows(step: Step, st: CacheView)
    requires
        st.in_entry(),
        run_step(step, st).1 is None,
    ensures
        spreads(st, run_step(step, st).0),
        step_sound(step) ==> grows(st, run_step(step, st).0),
    decreases step,
{
    reveal_with_fuel(run, 1);
    match step {
        Step::Reference { .. } => {},
        Step::Within { marker, body } => {
            lemma_pushed(st.stack, marker_level(marker));
            lemma_run_grows(body, st.pushed(marker_level(marker)));
        },
        Step::Inline { node, naming, key, body } => {
            let name = crate::walk::inline_name(naming, st.next_id, st.stack);
            let named = CacheView { next_id: st.next_id.wrapping_add(1), ..st };
            let inner = named.opened(name, node);
            lemma_pushed(st.stack, inner.stack.last());
            lemma_run_grows(body, inner);
            lemma_run_kept(body, inner);
            let done = run(body, inner).0;
            let n = st.stack.len();
            assert(same_level(inner.stack[n as int], done.stack[n as int]));
            lemma_closed_tidy(done);
        },
    }
    if step_sound(step) {
        lemma_step_items(step, st);
    }
}

/// Closing an entry that redefines nothing, or what has its name, keeps everything tidy.
proof fn lemma_closed_tidy(st: CacheView)
    requires
        st.stack.last() is Node,
        st.stack.last()->entry.redefine_base matches Some(b) ==> b.in_schema(
            st.stack.last()->ident.schema,
        ) == st.stack.last()->ident,
    ensures
        spreads(st, st.closed()),
{
    let t = st.closed();
    assert forall|at: IdentView| tidy(st.nodes, st.idents.idents) && #[trigger]
        t.nodes.contains_key(at) implies t.idents.idents.contains(at) && (
    t.nodes[at].redefine_base matches Some(b) ==> b.in_schema(at.schema) == at) by {
        if at != st.stack.last()->ident {
            assert(st.nodes.contains_key(at));
        }
    }
}

/// What closing an entry adds to what its steps add.
proof fn lemma_closed_grows(inner: CacheView, done: CacheView)
    requires
        grows(inner, done),
        done.stack.last() is Node,
        done.stack.last()->entry.redefine_base matches Some(b) ==> b.in_schema(
            done.stack.last()->ident.schema,
        ) == done.stack.last()->ident,
        all_recorded(inner.schemas, inner.nodes) ==> all_recorded(
            inner.schemas,
            done.closed().nodes,
        ),
    ensures
        grows(inner, done.closed()),
{
    let t = done.closed();
    lemma_closed_tidy(done);
    assert forall|i: IdentView| inner.nodes.contains_key(i) implies #[trigger] t.nodes.contains_key(
        i,
    ) by {
        assert(done.nodes.contains_key(i));
    }
}

/// A definition that is read without an error has an entry, and leaves what is around it.
pub proof fn lemma_define(name: Seq<char>, node: NodeView, st: CacheView)
    requires
        st.in_schema(),
        define(name, node, st).1 is None,
    ensures
        around(st, define(name, node, st).0),
        grows(st, define(name, node, st).0),
        define(name, node, st).0.nodes.contains_key(st.ident_here(given(name), node)),
        define(name, node, st).0.idents.idents.contains(st.ident_here(given(name), node)),
{
    let inner = st.opened(given(name), node);
    lemma_positions(st.stack);
    lemma_pushed(st.stack, inner.stack.last());
    lemma_node_steps(node);
    lemma_run_grows(node_steps(node), inner);
    lemma_run_kept(node_steps(node), inner);
    let done = run(node_steps(node), inner).0;
    let n = st.stack.len();
    assert(same_level(inner.stack[n as int], done.stack[n as int]));
    lemma_defining(st, inner, node);
    lemma_closed_grows(inner, done);
    lemma_entered(st, inner, node_steps(node));
}

/// The entry of a definition has a dependency for everything that is defined in place in the
/// definition, each under a key of its own.
pub proof fn law_entries_tell_apart_what_is_defined_in_place(
    name: Seq<char>,
    node: NodeView,
    st: CacheView,
    k: int,
)
    requires
        st.in_schema(),
        is_distinct(Some((Some(name), node))),
        define(name, node, st).1 is None,
        0 <= k < inline_keys(node_steps(node)).len(),
    ensures
        ({
            let keys = inline_keys(node_steps(node));
            let entry = define(name, node, st).0.nodes[st.ident_here(given(name), node)];
            &&& entry.node == node
            &&& entry.dependencies.contains_key(keys[k])
            &&& forall|j: int| 0 <= j < keys.len() && j != k ==> #[trigger] keys[j] != keys[k]
        }),
{
    let inner = st.opened(given(name), node);
    let n = st.stack.len();
    lemma_pushed(st.stack, inner.stack.last());
    lemma_entered(st, inner, node_steps(node));
    law_inline_definitions_are_dependencies(node_steps(node), inner, k);
    lemma_run_kept(node_steps(node), inner);
    let end = run(node_steps(node), inner).0;
    lemma_shape_positions(inner.stack, end.stack);
    assert(same_level(inner.stack[n as int], end.stack[n as int]));
    assert(end.active() == end.stack.last()->entry);
}

/// A definition that redefines another one keeps all entries.
pub proof fn lemma_redefine(name: Seq<char>, base: SchemaId, node: NodeView, st: CacheView)
    requires
        st.in_schema(),
        redefine(name, base, node, st).1 is None,
    ensures
        around(st, redefine(name, base, node, st).0),
        grows(st, redefine(name, base, node, st).0),
        redefine(name, base, node, st).0.nodes.contains_key(st.ident_here(given(name), node)),
        redefine(name, base, node, st).0.idents.idents.contains(st.ident_here(given(name), node)),
{
    let inner = st.opened_redefined(given(name), base, node);
    lemma_positions(st.stack);
    lemma_pushed(st.stack, inner.stack.last());
    lemma_node_steps(node);
    lemma_run_grows(node_steps(node), inner);
    lemma_run_kept(node_steps(node), inner);
    let done = run(node_steps(node), inner).0;
    let n = st.stack.len();
    assert(same_level(inner.stack[n as int], done.stack[n as int]));
    lemma_defining(st, inner, node);
    lemma_closed_grows(inner, done);
    lemma_entered(st, inner, node_steps(node));
}

/// The identifier of a named definition of a schema.
pub open spec fn definition_ident(
    schemas: SchemasView,
    id: SchemaId,
    name: Seq<char>,
    node: NodeView,
) -> IdentView {
    IdentView {
        ns: schemas.schemas[id].namespace_id,
        schema: id,
        name: given(name),
        type_: node_type(node),
    }
}

/// Whether the first `n` definitions of a schema have entries and are known.
pub open spec fn defined_upto(st: CacheView, id: SchemaId, n: nat) -> bool {
    forall|i: int|
        #![trigger st.schemas.schemas[id].schema.content[i]]
        0 <= i < n ==> match schema_definition(st.schemas.schemas[id].schema.content[i]) {
            Some((Some(name), node)) => {
                let ident = definition_ident(st.schemas, id, name, node);
                st.nodes.contains_key(ident) && st.idents.idents.contains(ident)
            },
            _ => true,
        }
}

/// The definitions by which a part of a schema replaces others.
pub open spec fn replacing(c: SchemaContent) -> Seq<Option<Definition>> {
    match c {
        SchemaContent::Override(x) => override_definitions(x.content@),
        SchemaContent::Redefine(x) => redefine_definitions(x.content@),
        _ => Seq::empty(),
    }
}

/// Whether a definition by which a schema replaces another one has an entry and is known.
pub open spec fn has_own(st: CacheView, id: SchemaId, d: Option<Definition>) -> bool {
    match d {
        Some((Some(name), node)) => {
            let ident = definition_ident(st.schemas, id, name, node);
            st.nodes.contains_key(ident) && st.idents.idents.contains(ident)
        },
        _ => true,
    }
}

/// Whether all definitions by which a part of a schema replaces others have entries and are known,
/// if the part refers to a schema that was loaded.
pub open spec fn part_replaced(st: CacheView, id: SchemaId, c: SchemaContent) -> bool {
    referred(c) matches Some(l) && st.schemas.schemas[id].dependencies.contains_key(l)
        ==> forall|k: int|
        0 <= k < replacing(c).len() ==> has_own(st, id, #[trigger] replacing(c)[k])
}

/// Whether the first `n` parts of a schema have replaced what they replace.
pub open spec fn replaced_upto(st: CacheView, id: SchemaId, n: nat) -> bool {
    forall|i: int|
        0 <= i < n ==> part_replaced(st, id, #[trigger] st.schemas.schemas[id].schema.content[i])
}

/// Whether all definitions of a schema have entries and are known, also those by which it replaces
/// others.
pub open spec fn defined(st: CacheView, id: SchemaId) -> bool {
    &&& defined_upto(st, id, st.schemas.schemas[id].schema.content.len())
    &&& replaced_upto(st, id, st.schemas.schemas[id].schema.content.len())
}

/// What was replaced stays replaced.
proof fn lemma_replaced_grows(a: CacheView, b: CacheView, id: SchemaId, n: nat)
    requires
        grows(a, b),
        a.schemas == b.schemas,
        replaced_upto(a, id, n),
    ensures
        replaced_upto(b, id, n),
{
    assert forall|i: int| 0 <= i < n implies part_replaced(
        b,
        id,
        #[trigger] b.schemas.schemas[id].schema.content[i],
    ) by {
        let c = b.schemas.schemas[id].schema.content[i];
        assert(part_replaced(a, id, a.schemas.schemas[id].schema.content[i]));
        if let Some(l) = referred(c) {
            if b.schemas.schemas[id].dependencies.contains_key(l) {
                assert forall|k: int| 0 <= k < replacing(c).len() implies has_own(
                    b,
                    id,
                    #[trigger] replacing(c)[k],
                ) by {
                    assert(has_own(a, id, replacing(c)[k]));
                }
            }
        }
    }
}

/// Definitions that have entries keep them, also those that replace others.
proof fn lemma_all_defined_grows(a: CacheView, b: CacheView, id: SchemaId)
    requires
        grows(a, b),
        a.schemas == b.schemas,
        defined(a, id),
    ensures
        defined(b, id),
{
    lemma_defined_grows(a, b, id, a.schemas.schemas[id].schema.content.len());
    lemma_replaced_grows(a, b, id, a.schemas.schemas[id].schema.content.len());
}

/// Definitions that have entries keep them.
proof fn lemma_defined_grows(a: CacheView, b: CacheView, id: SchemaId, n: nat)
    requires
        grows(a, b),
        a.schemas == b.schemas,
        defined_upto(a, id, n),
    ensures
        defined_upto(b, id, n),
{
    assert forall|i: int|
        #![trigger b.schemas.schemas[id].schema.content[i]]
        0 <= i < n implies match schema_definition(b.schemas.schemas[id].schema.content[i]) {
        Some((Some(name), node)) => b.nodes.contains_key(
            definition_ident(b.schemas, id, name, node),
        ),
        _ => true,
    } by {
        assert(a.schemas.schemas[id].schema.content[i] == b.schemas.schemas[id].schema.content[i]);
    }
}

/// The definitions of the current schema get their entries.
pub proof fn lemma_content(n: nat, id: SchemaId, st: CacheView)
    requires
        st.in_schema(),
        st.current_schema() == id,
        st.current_ns() == st.schemas.schemas[id].namespace_id,
        content_run(st.schemas.schemas[id].schema.content, n, st).1 is None,
        n <= st.schemas.schemas[id].schema.content.len(),
    ensures
        ({
            let end = content_run(st.schemas.schemas[id].schema.content, n, st).0;
            &&& around(st, end)
            &&& grows(st, end)
            &&& end.processed == st.processed
            &&& defined_upto(end, id, n)
        }),
    decreases n,
{
    let content = st.schemas.schemas[id].schema.content;
    if n > 0 {
        let m = (n - 1) as nat;
        lemma_content(m, id, st);
        let mid = content_run(content, m, st).0;
        let end = content_run(content, n, st).0;
        lemma_same_schema(st, mid);
        match schema_definition(content[m as int]) {
            Some((Some(name), node)) => {
                lemma_define(name, node, mid);
                lemma_processed_define(name, node, mid);
                lemma_around_trans(st, mid, end);
                lemma_defined_grows(mid, end, id, m);
                assert(end.nodes.contains_key(definition_ident(st.schemas, id, name, node)));
            },
            _ => {},
        }
    }
}

/// A definition visits no schema.
proof fn lemma_processed_define(name: Seq<char>, node: NodeView, st: CacheView)
    requires
        st.in_schema(),
        define(name, node, st).1 is None,
    ensures
        define(name, node, st).0.processed == st.processed,
{
    let inner = st.opened(given(name), node);
    lemma_pushed(st.stack, inner.stack.last());
    lemma_entered(st, inner, node_steps(node));
}

/// Replacing definitions keeps all entries.
pub proof fn lemma_redefinitions(
    defs: Seq<Option<Definition>>,
    n: nat,
    base: SchemaId,
    st: CacheView,
)
    requires
        st.in_schema(),
        redefinitions_run(defs, n, base, st).1 is None,
    ensures
        around(st, redefinitions_run(defs, n, base, st).0),
        grows(st, redefinitions_run(defs, n, base, st).0),
        redefinitions_run(defs, n, base, st).0.processed == st.processed,
        entered_upto(defs, n, st, redefinitions_run(defs, n, base, st).0),
    decreases n,
{
    if n > 0 {
        let m = (n - 1) as nat;
        lemma_redefinitions(defs, m, base, st);
        let mid = redefinitions_run(defs, m, base, st).0;
        lemma_same_schema(st, mid);
        match defs[m as int] {
            Some((Some(name), node)) => {
                lemma_redefine(name, base, node, mid);
                let inner = mid.opened_redefined(given(name), base, node);
                lemma_pushed(mid.stack, inner.stack.last());
                lemma_entered(mid, inner, node_steps(node));
                lemma_around_trans(st, mid, redefinitions_run(defs, n, base, st).0);
                lemma_entered_grows(defs, m, st, mid, redefinitions_run(defs, n, base, st).0);
            },
            _ => {},
        }
    }
}

/// Whether the first `n` definitions of a list have entries in the current schema and are known.
pub open spec fn entered_upto(
    defs: Seq<Option<Definition>>,
    n: nat,
    st: CacheView,
    end: CacheView,
) -> bool {
    forall|k: int|
        0 <= k < n ==> match #[trigger] defs[k] {
            Some((Some(name), node)) => {
                let ident = st.ident_here(given(name), node);
                end.nodes.contains_key(ident) && end.idents.idents.contains(ident)
            },
            _ => true,
        }
}

/// Definitions that were entered keep their entries.
proof fn lemma_entered_grows(
    defs: Seq<Option<Definition>>,
    n: nat,
    st: CacheView,
    a: CacheView,
    b: CacheView,
)
    requires
        entered_upto(defs, n, st, a),
        grows(a, b),
    ensures
        entered_upto(defs, n, st, b),
{
}

/// Whether one search has all entries and identifiers of another one, and tidy ones if that one
/// has.
pub open spec fn pending_grows(p: Pending, q: Pending) -> bool {
    &&& forall|i: IdentView| p.nodes.contains_key(i) ==> #[trigger] q.nodes.contains_key(i)
    &&& p.idents.idents.subset_of(q.idents.idents)
    &&& tidy(p.nodes, p.idents.idents) ==> tidy(q.nodes, q.idents.idents)
    &&& filled(p.nodes, p.idents.idents) ==> filled(q.nodes, q.idents.idents)
    &&& forall|s: SchemasView| all_recorded(s, p.nodes) ==> #[trigger] all_recorded(s, q.nodes)
}

/// An updated entry records what it recorded.
proof fn lemma_update_recorded(
    at: IdentView,
    old_ident: IdentView,
    schema: SchemaId,
    p: Pending,
    s: SchemasView,
)
    requires
        all_recorded(s, p.nodes),
    ensures
        all_recorded(s, update_entry(at, old_ident, schema, p).nodes),
{
    if p.nodes.contains_key(at) && !clear(p.nodes[at], old_ident) {
        let old_entry = p.nodes[at];
        let entry = repointed(old_entry, old_ident, old_ident.in_schema(schema));
        let a = old_entry.dependencies;
        let b = entry.dependencies;
        assert(recorded(s, at.ns, old_entry.node, a)) by {
            reveal(all_recorded);
        }
        assert(b.dom() =~= a.dom());
        assert forall|i: Item| #[trigger] stands_in(entry.node, i) implies (item_key(
            s,
            at.ns,
            i,
        ) matches Some(k) && b.contains_key(k)) by {
            assert(a.contains_key(item_key(s, at.ns, i)->0));
        }
        assert forall|k: DependencyKeyView| #[trigger] b.contains_key(k) implies
            exists|i: Item| #[trigger]
            stands_in(entry.node, i) && item_key(s, at.ns, i) == Some(k) && explains(
                s,
                at.ns,
                i,
                b[k],
            ) by {
            assert(a.contains_key(k));
            let i = choose|i: Item| #[trigger]
                stands_in(entry.node, i) && item_key(s, at.ns, i) == Some(k) && explains(
                    s,
                    at.ns,
                    i,
                    a[k],
                );
            assert(explains(s, at.ns, i, b[k]));
        }
        if at.schema == schema {
            lemma_recorded_insert(s, p.nodes, at, entry);
        } else {
            lemma_recorded_insert(
                s,
                p.nodes,
                at.in_schema(schema),
                EntryView { redefine_base: Some(at), ..entry },
            );
        }
    }
}

/// Updating the entries that point to an identifier keeps all entries.
pub proof fn lemma_update_grows(
    list: Seq<IdentView>,
    old_ident: IdentView,
    schema: SchemaId,
    p: Pending,
)
    ensures
        pending_grows(p, update_entries(list, old_ident, schema, p)),
    decreases list.len(),
{
    if list.len() > 0 {
        let mid = update_entries(list.drop_last(), old_ident, schema, p);
        let q = update_entries(list, old_ident, schema, p);
        lemma_update_grows(list.drop_last(), old_ident, schema, p);
        assert forall|at: IdentView| tidy(mid.nodes, mid.idents.idents) && #[trigger]
            q.nodes.contains_key(at) implies q.idents.idents.contains(at) && (
        q.nodes[at].redefine_base matches Some(b) ==> b.in_schema(at.schema) == at) by {
            if mid.nodes.contains_key(at) {
                assert(mid.idents.idents.contains(at));
            }
            assert(mid.nodes.contains_key(list.last()) ==> mid.idents.idents.contains(
                list.last(),
            ));
        }
        assert forall|s: SchemasView| all_recorded(s, p.nodes) implies #[trigger] all_recorded(
            s,
            q.nodes,
        ) by {
            assert(all_recorded(s, mid.nodes));
            lemma_update_recorded(list.last(), old_ident, schema, mid, s);
        }
    }
}

/// Settling replaced identifiers keeps all entries.
pub proof fn lemma_settle_grows(schema: SchemaId, p: Pending)
    requires
        p.idents.idents.finite(),
        p.work.finite(),
    ensures
        pending_grows(p, settle(schema, p)),
        settle(schema, p).idents.idents.finite(),
    decreases not_yet_copied(schema, p.idents.idents).len(), p.work.len(),
{
    if p.work.len() > 0 {
        lemma_settle_one(schema, p);
        let old_ident = in_order::<crate::ident::TypeIdent>(p.work)[0];
        lemma_update_grows(
            p.idents.schema_set(schema),
            old_ident,
            schema,
            Pending { work: p.work.remove(old_ident), ..p },
        );
        lemma_settle_grows(schema, settle_one(schema, p));
    }
}

/// Finitely many identifiers are replaced.
pub proof fn lemma_replaced_finite(
    defs: Seq<Option<Definition>>,
    n: nat,
    base: SchemaId,
    st: CacheView,
)
    ensures
        replaced(defs, n, base, st).finite(),
    decreases n,
{
    if n > 0 {
        lemma_replaced_finite(defs, (n - 1) as nat, base, st);
    }
}

/// What a part of a schema replaces removes no entry.
proof fn lemma_replace(defs: Seq<Option<Definition>>, base: SchemaId, st: CacheView)
    requires
        st.in_schema(),
        st.idents.idents.finite(),
        replace_run(defs, base, st).1 is None,
    ensures
        around(st, replace_run(defs, base, st).0),
        grows(st, replace_run(defs, base, st).0),
        replace_run(defs, base, st).0.processed == st.processed,
        entered_upto(defs, defs.len(), st, replace_run(defs, base, st).0),
{
    lemma_redefinitions(defs, defs.len(), base, st);
    lemma_replaced_finite(defs, defs.len(), base, st);
    let mid = redefinitions_run(defs, defs.len(), base, st).0;
    let work = replaced(defs, defs.len(), base, st);
    let p = Pending { nodes: mid.nodes, idents: mid.idents, work };
    lemma_settle_grows(mid.current_schema(), p);
    lemma_entered_grows(defs, defs.len(), st, mid, replace_run(defs, base, st).0);
}

/// Whether a schema is being processed.
pub open spec fn on_stack(stack: Seq<StackView>, id: SchemaId) -> bool {
    exists|k: int|
        0 <= k < stack.len() && (#[trigger] stack[k]) is Schema && stack[k]->id == id
}

/// Whether every schema that was visited is still being processed, or has entries for all of its
/// definitions.
pub open spec fn complete(st: CacheView) -> bool {
    forall|id: SchemaId| #[trigger]
        st.processed.contains(id) && st.schemas.schemas.contains_key(id) ==> on_stack(st.stack, id)
            || defined(st, id)
}

/// What is known before schemas are visited.
pub open spec fn prepared(st: CacheView) -> bool {
    &&& readable(st.schemas)
    &&& st.schemas.schemas.dom().finite()
    &&& st.idents.idents.finite()
    &&& complete(st)
}

/// What is known after schemas were visited.
pub open spec fn visited(a: CacheView, b: CacheView) -> bool {
    &&& around(a, b)
    &&& grows(a, b)
    &&& prepared(b)
}

/// A schema is on stacks of the same shape alike.
proof fn lemma_on_stack(a: Seq<StackView>, b: Seq<StackView>, id: SchemaId)
    requires
        crate::walk::same_shape(a, b),
    ensures
        on_stack(a, id) == on_stack(b, id),
{
    if on_stack(a, id) {
        let k = choose|k: int| 0 <= k < a.len() && (#[trigger] a[k]) is Schema && a[k]->id == id;
        assert(same_level(a[k], b[k]));
        assert(b[k] is Schema && b[k]->id == id);
    }
    if on_stack(b, id) {
        let k = choose|k: int| 0 <= k < b.len() && (#[trigger] b[k]) is Schema && b[k]->id == id;
        assert(same_level(a[k], b[k]));
        assert(a[k] is Schema && a[k]->id == id);
    }
}

/// What visits no schema keeps everything complete.
pub proof fn lemma_complete_kept(a: CacheView, b: CacheView)
    requires
        prepared(a),
        around(a, b),
        grows(a, b),
        b.processed == a.processed,
    ensures
        visited(a, b),
{
    assert forall|id: SchemaId| #[trigger] b.processed.contains(id)
        && b.schemas.schemas.contains_key(id) implies on_stack(b.stack, id) || defined(b, id) by {
        lemma_on_stack(a.stack, b.stack, id);
        if !on_stack(a.stack, id) {
            lemma_all_defined_grows(a, b, id);
        }
    }
}

/// Visits one after the other are a visit.
proof fn lemma_visited_trans(a: CacheView, b: CacheView, c: CacheView)
    requires
        visited(a, b),
        visited(b, c),
    ensures
        visited(a, c),
{
    lemma_around_trans(a, b, c);
    assert forall|i: IdentView| a.nodes.contains_key(i) implies #[trigger] c.nodes.contains_key(
        i,
    ) by {
        assert(b.nodes.contains_key(i));
    }
}

/// Replacing definitions is a visit.
pub proof fn lemma_part(c: SchemaContent, base: SchemaId, st: CacheView)
    requires
        st.in_schema(),
        prepared(st),
        part_run(c, base, st).1 is None,
    ensures
        visited(st, part_run(c, base, st).0),
        entered_upto(replacing(c), replacing(c).len(), st, part_run(c, base, st).0),
{
    match c {
        SchemaContent::Override(x) => {
            lemma_replace(override_definitions(x.content@), base, st);
        },
        SchemaContent::Redefine(x) => {
            lemma_replace(redefine_definitions(x.content@), base, st);
        },
        _ => {
            lemma_shape_reflexive(st);
        },
    }
    lemma_complete_kept(st, part_run(c, base, st).0);
}

/// A stack has its own shape.
proof fn lemma_shape_reflexive(st: CacheView)
    ensures
        around(st, st),
        grows(st, st),
{
}

/// Following a reference is a visit.
pub proof fn lemma_import(
    depth: nat,
    dependencies: Map<Seq<char>, Dependency<SchemaId>>,
    c: SchemaContent,
    st: CacheView,
)
    requires
        st.in_schema(),
        prepared(st),
        depth >= unprocessed(st).len(),
        import_run(depth, dependencies, c, st).1 is None,
        forall|l: Seq<char>| #[trigger]
            dependencies.contains_key(l) ==> st.schemas.schemas.contains_key(
                dependencies[l].target(),
            ),
    ensures
        visited(st, import_run(depth, dependencies, c, st).0),
        referred(c) matches Some(l) && dependencies.contains_key(l) ==> entered_upto(
            replacing(c),
            replacing(c).len(),
            st,
            import_run(depth, dependencies, c, st).0,
        ),
        referred(c) matches Some(l) ==> (dependencies.contains_key(l) ==> import_run(
            depth,
            dependencies,
            c,
            st,
        ).0.processed.contains(dependencies[l].target())),
    decreases depth, 1nat,
{
    reveal_with_fuel(schema_run, 1);
    match referred(c) {
        Some(location) if dependencies.contains_key(location) => {
            let base = dependencies[location].target();
            let mid = schema_run(depth, base, st).0;
            assert(schema_run(depth, base, st).1 is None);
            lemma_schema(depth, base, st);
            lemma_same_schema(st, mid);
            lemma_part(c, base, mid);
            lemma_visited_trans(st, mid, part_run(c, base, mid).0);
            assert forall|k: int| 0 <= k < replacing(c).len() implies match #[trigger] replacing(
                c,
            )[k] {
                Some((Some(name), node)) => st.ident_here(given(name), node) == mid.ident_here(
                    given(name),
                    node,
                ),
                _ => true,
            } by {}
        },
        _ => {
            lemma_shape_reflexive(st);
        },
    }
}

/// Whether every schema that the first `n` parts of a schema refer to was visited.
pub open spec fn followed_upto(st: CacheView, info: SchemaInfoView, n: nat) -> bool {
    forall|i: int, l: Seq<char>|
        #![trigger asks_for(info.schema.content[i], l)]
        0 <= i < n && asks_for(info.schema.content[i], l) && info.dependencies.contains_key(l)
            ==> st.processed.contains(leads_to(info.dependencies[l]))
}

/// Following the first `n` references of a schema is a visit.
pub proof fn lemma_imports(depth: nat, id: SchemaId, n: nat, st: CacheView)
    requires
        st.in_schema(),
        prepared(st),
        depth >= unprocessed(st).len(),
        st.schemas.schemas.contains_key(id),
        n <= st.schemas.schemas[id].schema.content.len(),
        imports_run(depth, st.schemas.schemas[id], n, st).1 is None,
    ensures
        visited(st, imports_run(depth, st.schemas.schemas[id], n, st).0),
        st.current_schema() == id && st.current_ns() == st.schemas.schemas[id].namespace_id
            ==> replaced_upto(imports_run(depth, st.schemas.schemas[id], n, st).0, id, n),
        followed_upto(
            imports_run(depth, st.schemas.schemas[id], n, st).0,
            st.schemas.schemas[id],
            n,
        ),
    decreases depth, n + 2,
{
    reveal_with_fuel(import_run, 1);
    reveal_with_fuel(imports_run, 1);
    let info = st.schemas.schemas[id];
    if n == 0 {
        lemma_shape_reflexive(st);
    } else {
        let m = (n - 1) as nat;
        let mid = imports_run(depth, info, m, st).0;
        assert(imports_run(depth, info, m, st).1 is None);
        lemma_imports(depth, id, m, st);
        lemma_same_schema(st, mid);
        lemma_fewer_unprocessed(st, mid);
        let c = info.schema.content[m as int];
        assert forall|l: Seq<char>| #[trigger] info.dependencies.contains_key(l) implies
            mid.schemas.schemas.contains_key(info.dependencies[l].target()) by {
            assert(st.schemas.schemas[id].dependencies[l] == info.dependencies[l]);
        }
        assert(imports_run(depth, info, n, st) == import_run(depth, info.dependencies, c, mid));
        lemma_import(depth, info.dependencies, c, mid);
        let end = imports_run(depth, info, n, st).0;
        lemma_visited_trans(st, mid, end);
        assert forall|i: int, l: Seq<char>|
            #![trigger asks_for(info.schema.content[i], l)]
            0 <= i < n && asks_for(info.schema.content[i], l) && info.dependencies.contains_key(
                l,
            ) implies end.processed.contains(leads_to(info.dependencies[l])) by {
            if i == m {
                assert(referred(c) == Some(l));
            } else {
                assert(mid.processed.contains(leads_to(info.dependencies[l])));
            }
        }
        if st.current_schema() == id && st.current_ns() == info.namespace_id {
            lemma_replaced_grows(mid, end, id, m);
            assert forall|i: int| 0 <= i < n implies part_replaced(
                end,
                id,
                #[trigger] end.schemas.schemas[id].schema.content[i],
            ) by {
                if i == m {
                    assert(end.schemas.schemas[id].schema.content[i] == c);
                    if let Some(l) = referred(c) {
                        if info.dependencies.contains_key(l) {
                            assert forall|k: int| 0 <= k < replacing(c).len() implies has_own(
                                end,
                                id,
                                #[trigger] replacing(c)[k],
                            ) by {
                                if let Some((Some(name), node)) = replacing(c)[k] {
                                    assert(mid.ident_here(given(name), node) == definition_ident(
                                        st.schemas,
                                        id,
                                        name,
                                        node,
                                    ));
                                }
                            }
                        }
                    }
                }
            }
        }
    }
}

/// A schema that is visited without an error gets entries for all of its definitions.
pub proof fn lemma_schema(depth: nat, id: SchemaId, st: CacheView)
    requires
        prepared(st),
        depth >= unprocessed(st).len(),
        st.schemas.schemas.contains_key(id),
        schema_run(depth, id, st).1 is None,
    ensures
        visited(st, schema_run(depth, id, st).0),
        schema_run(depth, id, st).0.processed.contains(id),
    decreases depth, 0nat,
{
    reveal_with_fuel(schema_run, 1);
    reveal_with_fuel(imports_run, 1);
    if st.processed.contains(id) {
        lemma_shape_reflexive(st);
    } else {
        assert(unprocessed(st).contains(id));
        assert(depth > 0);
        let info = st.schemas.schemas[id];
        let content = info.schema.content;
        let inner = entered(id, st);
        let start = known_schema(inner, id, info);
        lemma_pushed(st.stack, inner.stack.last());
        let top = start.stack.len() - 1;
        assert(start.stack[top] == (StackView::Schema { id, ns: info.namespace_id }));
        assert(start.current_schema() == id && start.current_ns() == info.namespace_id);
        assert(unprocessed(start) =~= unprocessed(st).remove(id));
        lemma_started(id, st);
        let d = (depth - 1) as nat;
        let mid = imports_run(d, info, content.len(), start).0;
        assert(imports_run(d, info, content.len(), start).1 is None);
        lemma_imports(d, id, content.len(), start);
        lemma_same_schema(start, mid);
        let end = content_run(content, content.len(), mid).0;
        lemma_content(content.len(), id, mid);
        lemma_replaced_grows(mid, end, id, content.len());
        lemma_complete_kept(mid, end);
        lemma_visited_trans(start, mid, end);
        lemma_popped_kept(st, start, end);
        let last = end.popped();
        assert(schema_run(depth, id, st).0 == last);
        assert(defined(end, id));
        assert forall|x: SchemaId| #[trigger] last.processed.contains(x)
            && last.schemas.schemas.contains_key(x) implies on_stack(last.stack, x) || defined(
            last,
            x,
        ) by {
            assert(end.processed.contains(x));
            if x == id {
                lemma_all_defined_grows(end, last, id);
            } else if on_stack(end.stack, x) {
                let k = choose|k: int|
                    0 <= k < end.stack.len() && (#[trigger] end.stack[k]) is Schema
                        && end.stack[k]->id == x;
                assert(same_level(start.stack[k], end.stack[k]));
                if k == top {
                    assert(start.stack[top]->id == id);
                }
                assert(last.stack[k] == end.stack[k]);
            } else {
                lemma_all_defined_grows(end, last, x);
            }
        }
        assert(end.processed.contains(id)) by {
            assert(start.processed.contains(id));
        }
    }
}

/// The definitions of a schema are read after everything that the schema imports, includes,
/// redefines or overrides, and that was loaded, has been visited: each of those schemas has entries
/// for all of its definitions by then, unless it is itself in the middle of being processed.
pub proof fn law_referred_schemas_come_first(
    depth: nat,
    id: SchemaId,
    st: CacheView,
    i: int,
    l: Seq<char>,
)
    requires
        readable(st.schemas),
        st.schemas.schemas.dom().finite(),
        st.idents.idents.finite(),
        complete(st),
        depth >= unprocessed(st).len(),
        st.schemas.schemas.contains_key(id),
        !st.processed.contains(id),
        schema_run(depth, id, st).1 is None,
        0 <= i < st.schemas.schemas[id].schema.content.len(),
        asks_for(st.schemas.schemas[id].schema.content[i], l),
        st.schemas.schemas[id].dependencies.contains_key(l),
    ensures
        ({
            let info = st.schemas.schemas[id];
            let n = info.schema.content.len();
            let start = known_schema(entered(id, st), id, info);
            let mid = imports_run((depth - 1) as nat, info, n, start).0;
            let b = leads_to(info.dependencies[l]);
            &&& mid.processed.contains(b)
            &&& on_stack(mid.stack, b) || defined(mid, b)
            &&& schema_run(depth, id, st).0 == content_run(info.schema.content, n, mid).0.popped()
        }),
{
    reveal_with_fuel(schema_run, 1);
    reveal_with_fuel(imports_run, 1);
    assert(unprocessed(st).contains(id));
    let info = st.schemas.schemas[id];
    let n = info.schema.content.len();
    let inner = entered(id, st);
    let start = known_schema(inner, id, info);
    lemma_pushed(st.stack, inner.stack.last());
    let top = start.stack.len() - 1;
    assert(start.stack[top] == (StackView::Schema { id, ns: info.namespace_id }));
    assert(start.current_schema() == id && start.current_ns() == info.namespace_id);
    assert(unprocessed(start) =~= unprocessed(st).remove(id));
    lemma_started(id, st);
    let d = (depth - 1) as nat;
    let mid = imports_run(d, info, n, start).0;
    assert(imports_run(d, info, n, start).1 is None);
    lemma_imports(d, id, n, start);
    assert(asks_for(info.schema.content[i], l));
    let b = leads_to(info.dependencies[l]);
    assert(b == info.dependencies[l].target());
    assert(st.schemas.schemas[id].dependencies[l] == info.dependencies[l]);
    assert(mid.schemas.schemas.contains_key(b));
    assert(mid.processed.contains(b));
}

/// A schema that starts to be processed is on the stack, and leaves the others complete.
pub proof fn lemma_started(id: SchemaId, st: CacheView)
    requires
        complete(st),
    ensures
        complete(known_schema(entered(id, st), id, st.schemas.schemas[id])),
{
    let start = known_schema(entered(id, st), id, st.schemas.schemas[id]);
    let top = start.stack.len() - 1;
    assert forall|x: SchemaId| #[trigger] start.processed.contains(x)
        && start.schemas.schemas.contains_key(x) implies on_stack(start.stack, x) || defined(
        start,
        x,
    ) by {
        if x == id {
            assert(start.stack[top] is Schema && start.stack[top]->id == id);
        } else {
            assert(st.processed.contains(x));
            if on_stack(st.stack, x) {
                let k = choose|k: int|
                    0 <= k < st.stack.len() && (#[trigger] st.stack[k]) is Schema
                        && st.stack[k]->id == x;
                assert(start.stack[k] is Schema && start.stack[k]->id == x);
            } else {
                lemma_all_defined_grows(st, start, x);
            }
        }
    }
}

/// The first `n` schemas are processed, and that is a visit.
pub proof fn lemma_schemas(ids: Seq<SchemaId>, n: nat, depth: nat, st: CacheView)
    requires
        prepared(st),
        depth >= unprocessed(st).len(),
        n <= ids.len(),
        forall|i: int| 0 <= i < ids.len() ==> st.schemas.schemas.contains_key(#[trigger] ids[i]),
        schemas_run(ids, n, depth, st).1 is None,
    ensures
        visited(st, schemas_run(ids, n, depth, st).0),
        forall|i: int|
            0 <= i < n ==> schemas_run(ids, n, depth, st).0.processed.contains(#[trigger] ids[i]),
    decreases n,
{
    if n == 0 {
        lemma_shape_reflexive(st);
    } else {
        let m = (n - 1) as nat;
        lemma_schemas(ids, m, depth, st);
        let mid = schemas_run(ids, m, depth, st).0;
        lemma_fewer_unprocessed(st, mid);
        lemma_schema(depth, ids[m as int], mid);
        lemma_visited_trans(st, mid, schemas_run(ids, n, depth, st).0);
    }
}

/// What is known once all schemas were processed.
proof fn lemma_process(st: CacheView)
    requires
        readable(st.schemas),
        st.schemas.schemas.dom().finite(),
        st.idents.idents.finite(),
        st.stack == Seq::<StackView>::empty(),
        st.processed == Set::<SchemaId>::empty(),
        process_run(st).1 is None,
    ensures
        visited(st, process_run(st).0),
        ({
            let ids = in_order::<SchemaId>(st.schemas.schemas.dom());
            forall|k: int|
                0 <= k < ids.len() ==> process_run(st).0.processed.contains(#[trigger] ids[k])
        }),
{
    let ids = in_order::<SchemaId>(st.schemas.schemas.dom());
    lemma_in_order_finite::<SchemaId>(st.schemas.schemas.dom());
    let start = CacheView {
        idents: IdentCacheView {
            globals: st.idents.globals.union(
                crate::schemawalk::global_namespaces(st.schemas),
            ),
            ..st.idents
        },
        ..st
    };
    assert forall|k: int| 0 <= k < ids.len() implies start.schemas.schemas.contains_key(
        #[trigger] ids[k],
    ) by {
        assert(ids.contains(ids[k]));
    }
    lemma_count(ids, st.schemas.schemas.dom());
    vstd::set_lib::lemma_len_subset(unprocessed(start), st.schemas.schemas.dom());
    lemma_schemas(ids, ids.len(), ids.len(), start);
}

/// Processing all schemas without an error keeps every entry under a known identifier, and lets
/// entries redefine only what has their name.
pub proof fn law_entries_stay_tidy(st: CacheView)
    requires
        readable(st.schemas),
        st.schemas.schemas.dom().finite(),
        st.idents.idents.finite(),
        st.stack == Seq::<StackView>::empty(),
        st.processed == Set::<SchemaId>::empty(),
        process_run(st).1 is None,
        tidy(st.nodes, st.idents.idents),
    ensures
        tidy(process_run(st).0.nodes, process_run(st).0.idents.idents),
{
    lemma_process(st);
}

/// Once all schemas were processed without an error, every entry records what stands in its
/// definition, if that was so of the entries that were there before.
pub proof fn law_every_entry_records_its_definition(st: CacheView)
    requires
        readable(st.schemas),
        st.schemas.schemas.dom().finite(),
        st.idents.idents.finite(),
        st.stack == Seq::<StackView>::empty(),
        st.processed == Set::<SchemaId>::empty(),
        process_run(st).1 is None,
        forall|at: IdentView| #[trigger]
            st.nodes.contains_key(at) ==> recorded(
                st.schemas,
                at.ns,
                st.nodes[at].node,
                st.nodes[at].dependencies,
            ),
    ensures
        forall|at: IdentView| #[trigger]
            process_run(st).0.nodes.contains_key(at) ==> recorded(
                st.schemas,
                at.ns,
                process_run(st).0.nodes[at].node,
                process_run(st).0.nodes[at].dependencies,
            ),
{
    reveal(all_recorded);
    lemma_process(st);
}

/// Once all schemas were processed without an error, every known identifier has an entry, if that
/// was so before.
pub proof fn law_known_identifiers_have_entries(st: CacheView)
    requires
        readable(st.schemas),
        st.schemas.schemas.dom().finite(),
        st.idents.idents.finite(),
        st.stack == Seq::<StackView>::empty(),
        st.processed == Set::<SchemaId>::empty(),
        process_run(st).1 is None,
        filled(st.nodes, st.idents.idents),
    ensures
        filled(process_run(st).0.nodes, process_run(st).0.idents.idents),
{
    lemma_process(st);
}

/// Once all schemas were processed without an error, every schema was visited.
pub proof fn lemma_all_processed(st: CacheView, id: SchemaId)
    requires
        readable(st.schemas),
        st.schemas.schemas.dom().finite(),
        st.idents.idents.finite(),
        st.stack == Seq::<StackView>::empty(),
        st.processed == Set::<SchemaId>::empty(),
        process_run(st).1 is None,
        st.schemas.schemas.contains_key(id),
    ensures
        process_run(st).0.processed.contains(id),
{
    let ids = in_order::<SchemaId>(st.schemas.schemas.dom());
    lemma_in_order_finite::<SchemaId>(st.schemas.schemas.dom());
    lemma_process(st);
    assert(ids.contains(id));
    let k = choose|k: int| 0 <= k < ids.len() && ids[k] == id;
    assert(process_run(st).0.processed.contains(ids[k]));
}

/// Once all schemas were processed without an error, every schema was handled completely.
pub proof fn lemma_all_defined(st: CacheView, id: SchemaId)
    requires
        readable(st.schemas),
        st.schemas.schemas.dom().finite(),
        st.idents.idents.finite(),
        st.stack == Seq::<StackView>::empty(),
        st.processed == Set::<SchemaId>::empty(),
        process_run(st).1 is None,
        st.schemas.schemas.contains_key(id),
    ensures
        defined(process_run(st).0, id),
        process_run(st).0.schemas == st.schemas,
{
    let ids = in_order::<SchemaId>(st.schemas.schemas.dom());
    lemma_in_order_finite::<SchemaId>(st.schemas.schemas.dom());
    lemma_process(st);
    let end = process_run(st).0;
    assert(ids.contains(id));
    let k = choose|k: int| 0 <= k < ids.len() && ids[k] == id;
    assert(end.processed.contains(ids[k]));
    assert(!on_stack(end.stack, id));
}

/// Once all schemas were processed without an error, every definition of every schema has an entry
/// in the node cache, under the namespace, the schema, the name and the kind of the definition, and
/// this identifier is known.
pub proof fn law_every_definition_has_an_entry(
    st: CacheView,
    id: SchemaId,
    i: int,
    name: Seq<char>,
    node: NodeView,
)
    requires
        readable(st.schemas),
        st.schemas.schemas.dom().finite(),
        st.idents.idents.finite(),
        st.stack == Seq::<StackView>::empty(),
        st.processed == Set::<SchemaId>::empty(),
        process_run(st).1 is None,
        st.schemas.schemas.contains_key(id),
        0 <= i < st.schemas.schemas[id].schema.content.len(),
        schema_definition(st.schemas.schemas[id].schema.content[i]) == Some((Some(name), node)),
    ensures
        process_run(st).0.nodes.contains_key(definition_ident(st.schemas, id, name, node)),
        process_run(st).0.idents.idents.contains(definition_ident(st.schemas, id, name, node)),
{
    lemma_all_defined(st, id);
    let end = process_run(st).0;
    assert(end.schemas.schemas[id].schema.content[i] == st.schemas.schemas[id].schema.content[i]);
}

} // verus!
