//! What is known of every schema once all schemas were processed.

use vstd::prelude::*;

use crate::entrylaws::{lemma_all_processed, lemma_replaced_finite, lemma_settle_grows};
use crate::ident::{IdentView, TypeIdent};
use crate::identcache::{ErrorView, IdentCacheView};
use crate::mentionlaws::ready;
use crate::models::{Dependency, Label, NamespaceId, SchemaId};
use crate::order::{
    ascending, before, in_order, lemma_in_order, lemma_in_order_finite, lists,
};
use crate::resolvelaws::{
    law_three_namespaces_are_visible_everywhere,
    law_visited_schemas_are_known_with_their_dependencies, scope_of,
};
use crate::schemas::SchemaInfoView;
use crate::schemawalk::{
    content_run, entered, given, import_run, imports_run, known_schema, lemma_settle_one,
    override_definitions, part_run, process_run, redefine_definitions, redefinitions_run, referred,
    registered, replace_run, replaced, schema_definition, schema_run, schemas_run, settle,
    settle_one, update_entries, Definition, Pending,
};
use crate::steps::{node_steps, Step};
use crate::textlaws::{bytes_before, law_keys_are_ordered};
use crate::walk::{inline_name, marker_level, run, run_step, CacheView};
use crate::xs::SchemaContent;

verus! {

/// Whether two states know the same of all schemas.
spec fn same_scopes(a: CacheView, b: CacheView) -> bool {
    &&& a.schemas == b.schemas
    &&& a.processed == b.processed
    &&& a.idents.scopes == b.idents.scopes
    &&& a.idents.globals == b.idents.globals
    &&& a.idents.idents.finite() ==> b.idents.idents.finite()
}

/// Steps make no schema known.
proof fn lemma_run_scopes(steps: Seq<Step>, st: CacheView)
    ensures
        same_scopes(st, run(steps, st).0),
    decreases steps,
{
    reveal_with_fuel(run, 1);
    if steps.len() > 0 {
        lemma_run_scopes(steps.drop_last(), st);
        lemma_step_scopes(steps.last(), run(steps.drop_last(), st).0);
    }
}

/// A step makes no schema known.
proof fn lemma_step_scopes(step: Step, st: CacheView)
    ensures
        same_scopes(st, run_step(step, st).0),
    decreases step,
{
    reveal_with_fuel(run, 1);
    match step {
        Step::Reference { .. } => {},
        Step::Within { marker, body } => {
            lemma_run_scopes(body, st.pushed(marker_level(marker)));
        },
        Step::Inline { node, naming, body, .. } => {
            let name = inline_name(naming, st.next_id, st.stack);
            let named = CacheView { next_id: st.next_id.wrapping_add(1), ..st };
            lemma_run_scopes(body, named.opened(name, node));
        },
    }
}

/// Definitions make no schema known.
proof fn lemma_content_scopes(content: Seq<SchemaContent>, n: nat, st: CacheView)
    ensures
        same_scopes(st, content_run(content, n, st).0),
    decreases n,
{
    if n > 0 {
        lemma_content_scopes(content, (n - 1) as nat, st);
        let mid = content_run(content, (n - 1) as nat, st).0;
        if let Some((Some(name), node)) = schema_definition(content[n - 1]) {
            lemma_run_scopes(node_steps(node), mid.opened(given(name), node));
        }
    }
}

/// Redefinitions make no schema known.
proof fn lemma_redefinitions_scopes(
    defs: Seq<Option<Definition>>,
    n: nat,
    base: SchemaId,
    st: CacheView,
)
    ensures
        same_scopes(st, redefinitions_run(defs, n, base, st).0),
    decreases n,
{
    if n > 0 {
        lemma_redefinitions_scopes(defs, (n - 1) as nat, base, st);
        let mid = redefinitions_run(defs, (n - 1) as nat, base, st).0;
        if let Some((Some(name), node)) = defs[n - 1] {
            lemma_run_scopes(node_steps(node), mid.opened_redefined(given(name), base, node));
        }
    }
}

/// Updating entries makes no schema known.
proof fn lemma_update_scopes(
    list: Seq<IdentView>,
    old_ident: IdentView,
    schema: SchemaId,
    p: Pending,
)
    ensures
        update_entries(list, old_ident, schema, p).idents.scopes == p.idents.scopes,
        update_entries(list, old_ident, schema, p).idents.globals == p.idents.globals,
    decreases list.len(),
{
    if list.len() > 0 {
        lemma_update_scopes(list.drop_last(), old_ident, schema, p);
    }
}

/// Settling makes no schema known.
proof fn lemma_settle_scopes(schema: SchemaId, p: Pending)
    requires
        p.idents.idents.finite(),
        p.work.finite(),
    ensures
        settle(schema, p).idents.scopes == p.idents.scopes,
        settle(schema, p).idents.globals == p.idents.globals,
    decreases crate::schemawalk::not_yet_copied(schema, p.idents.idents).len(), p.work.len(),
{
    if p.work.len() > 0 {
        lemma_settle_one(schema, p);
        let old_ident = in_order::<TypeIdent>(p.work)[0];
        lemma_update_scopes(
            p.idents.schema_set(schema),
            old_ident,
            schema,
            Pending { work: p.work.remove(old_ident), ..p },
        );
        lemma_settle_scopes(schema, settle_one(schema, p));
    }
}

/// What a part of a schema replaces makes no schema known.
proof fn lemma_replace_scopes(defs: Seq<Option<Definition>>, base: SchemaId, st: CacheView)
    requires
        st.idents.idents.finite(),
    ensures
        same_scopes(st, replace_run(defs, base, st).0),
{
    lemma_redefinitions_scopes(defs, defs.len(), base, st);
    lemma_replaced_finite(defs, defs.len(), base, st);
    let mid = redefinitions_run(defs, defs.len(), base, st).0;
    let p = Pending {
        nodes: mid.nodes,
        idents: mid.idents,
        work: replaced(defs, defs.len(), base, st),
    };
    lemma_settle_scopes(mid.current_schema(), p);
    lemma_settle_grows(mid.current_schema(), p);
}

/// A part of a schema makes no schema known.
proof fn lemma_part_scopes(c: SchemaContent, base: SchemaId, st: CacheView)
    requires
        st.idents.idents.finite(),
    ensures
        same_scopes(st, part_run(c, base, st).0),
{
    match c {
        SchemaContent::Override(x) => {
            lemma_replace_scopes(override_definitions(x.content@), base, st);
        },
        SchemaContent::Redefine(x) => {
            lemma_replace_scopes(redefine_definitions(x.content@), base, st);
        },
        _ => {},
    }
}

/// What becomes known while schemas are visited: every schema that is visited, and no other.
spec fn more_scopes(a: CacheView, b: CacheView) -> bool {
    &&& a.schemas == b.schemas
    &&& a.processed.subset_of(b.processed)
    &&& a.idents.globals == b.idents.globals
    &&& b.idents.idents.finite()
    &&& forall|x: SchemaId|
        #![trigger b.processed.contains(x)]
        #![trigger b.idents.scopes.contains_key(x)]
        if b.processed.contains(x) && !a.processed.contains(x) {
            b.idents.scopes.contains_key(x) && b.idents.scopes[x] == registered(
                a.idents,
                x,
                a.schemas.schemas[x],
            ).scopes[x]
        } else {
            a.idents.scopes.contains_key(x) == b.idents.scopes.contains_key(x)
                && a.idents.scopes[x] == b.idents.scopes[x]
        }
}

proof fn lemma_more_trans(a: CacheView, b: CacheView, c: CacheView)
    requires
        more_scopes(a, b),
        more_scopes(b, c),
    ensures
        more_scopes(a, c),
{
    assert forall|x: SchemaId|
        #![trigger c.processed.contains(x)]
        #![trigger c.idents.scopes.contains_key(x)]
        if c.processed.contains(x) && !a.processed.contains(x) {
            c.idents.scopes.contains_key(x) && c.idents.scopes[x] == registered(
                a.idents,
                x,
                a.schemas.schemas[x],
            ).scopes[x]
        } else {
            a.idents.scopes.contains_key(x) == c.idents.scopes.contains_key(x)
                && a.idents.scopes[x] == c.idents.scopes[x]
        } by {
        assert(b.processed.contains(x) || !b.processed.contains(x));
        assert(b.idents.scopes.contains_key(x) || !b.idents.scopes.contains_key(x));
    }
}

proof fn lemma_import_scopes(
    depth: nat,
    dependencies: Map<Seq<char>, Dependency<SchemaId>>,
    c: SchemaContent,
    st: CacheView,
)
    requires
        st.idents.idents.finite(),
        import_run(depth, dependencies, c, st).1 is None,
    ensures
        more_scopes(st, import_run(depth, dependencies, c, st).0),
    decreases depth, 1nat,
{
    if let Some(location) = referred(c) {
        if dependencies.contains_key(location) {
            let base = dependencies[location].target();
            lemma_schema_scopes(depth, base, st);
            lemma_part_scopes(c, base, schema_run(depth, base, st).0);
        }
    }
}

proof fn lemma_imports_scopes(depth: nat, info: SchemaInfoView, n: nat, st: CacheView)
    requires
        st.idents.idents.finite(),
        imports_run(depth, info, n, st).1 is None,
    ensures
        more_scopes(st, imports_run(depth, info, n, st).0),
    decreases depth, n + 2,
{
    if n > 0 {
        let m = (n - 1) as nat;
        let c = info.schema.content[n - 1];
        let mid = imports_run(depth, info, m, st).0;
        assert(imports_run(depth, info, n, st) == import_run(depth, info.dependencies, c, mid));
        lemma_imports_scopes(depth, info, m, st);
        lemma_import_scopes(depth, info.dependencies, c, mid);
        lemma_more_trans(st, mid, imports_run(depth, info, n, st).0);
    }
}

proof fn lemma_schema_scopes(depth: nat, id: SchemaId, st: CacheView)
    requires
        st.idents.idents.finite(),
        schema_run(depth, id, st).1 is None,
    ensures
        more_scopes(st, schema_run(depth, id, st).0),
    decreases depth, 0nat,
{
    if !(st.processed.contains(id) || depth == 0) {
        let d = (depth - 1) as nat;
        let info = st.schemas.schemas[id];
        let n = info.schema.content.len();
        let start = known_schema(entered(id, st), id, info);
        let (mid, error) = imports_run(d, info, n, start);
        assert(error is None);
        lemma_imports_scopes(d, info, n, start);
        lemma_content_scopes(info.schema.content, n, mid);
        let end = schema_run(depth, id, st).0;
        assert(more_scopes(st, start));
        lemma_more_trans(st, start, mid);
        assert(end.idents.scopes == mid.idents.scopes);
    }
}

proof fn lemma_schemas_scopes(ids: Seq<SchemaId>, n: nat, depth: nat, st: CacheView)
    requires
        st.idents.idents.finite(),
        schemas_run(ids, n, depth, st).1 is None,
    ensures
        more_scopes(st, schemas_run(ids, n, depth, st).0),
    decreases n,
{
    if n > 0 {
        let m = (n - 1) as nat;
        lemma_schemas_scopes(ids, m, depth, st);
        let mid = schemas_run(ids, m, depth, st).0;
        lemma_schema_scopes(depth, ids[m as int], mid);
        lemma_more_trans(st, mid, schemas_run(ids, n, depth, st).0);
    }
}

/// Once all schemas were processed without an error, every schema is known with its namespace, and
/// with what it imports, includes, redefines and overrides, and nothing else. This is stated of
/// schemas of which nothing was known before.
pub proof fn law_every_schema_is_known_with_its_dependencies(
    st: CacheView,
    id: SchemaId,
    d: Dependency<SchemaId>,
)
    requires
        ready(st),
        process_run(st).1 is None,
        st.schemas.schemas.contains_key(id),
        !st.idents.scopes.contains_key(id),
        st.schemas.schemas[id].dependencies.dom().finite(),
    ensures
        ({
            let end = process_run(st).0.idents;
            &&& end.scopes.contains_key(id)
            &&& end.scopes[id].ns == st.schemas.schemas[id].namespace_id
            &&& end.scopes[id].dependencies.contains(d) <==> exists|l: Seq<char>| #[trigger]
                st.schemas.schemas[id].dependencies.contains_key(l)
                    && st.schemas.schemas[id].dependencies[l] == d
        }),
{
    let end = process_run(st).0;
    let start = lemma_process_scopes(st);
    lemma_all_processed(st, id);
    assert(end.processed.contains(id));
    let info = st.schemas.schemas[id];
    law_visited_schemas_are_known_with_their_dependencies(start.idents, id, info, d, id);
    assert(scope_of(start.idents, id) == Seq::<Dependency<SchemaId>>::empty());
    assert(registered(start.idents, id, info).scopes[id] == end.idents.scopes[id]);
}

/// Once all schemas were processed without an error, the dependencies of every schema are known in
/// the order of their locations, byte by byte. This is stated of schemas of which nothing was known
/// before.
pub proof fn law_dependencies_are_known_in_order(st: CacheView, id: SchemaId)
    requires
        ready(st),
        process_run(st).1 is None,
        st.schemas.schemas.contains_key(id),
        !st.idents.scopes.contains_key(id),
        st.schemas.schemas[id].dependencies.dom().finite(),
    ensures
        exists|locations: Seq<Seq<char>>|
            #![trigger locations.len()]
            {
                let given = st.schemas.schemas[id].dependencies;
                let listed = process_run(st).0.idents.scopes[id].dependencies;
                &&& forall|i: int, j: int|
                    #![trigger locations[i], locations[j]]
                    0 <= i < j < locations.len() ==> bytes_before(
                        vstd::utf8::encode_utf8(locations[i]),
                        vstd::utf8::encode_utf8(locations[j]),
                    )
                &&& forall|l: Seq<char>| #[trigger]
                    given.contains_key(l) <==> locations.contains(l)
                &&& listed.len() == locations.len()
                &&& forall|i: int|
                    0 <= i < locations.len() ==> #[trigger] listed[i] == given[locations[i]]
            },
{
    let end = process_run(st).0;
    let start = lemma_process_scopes(st);
    lemma_all_processed(st, id);
    assert(end.processed.contains(id));
    let info = st.schemas.schemas[id];
    let given = info.dependencies;
    let locations = in_order::<Label>(given.dom());
    lemma_in_order_finite::<Label>(given.dom());
    assert(scope_of(start.idents, id) == Seq::<Dependency<SchemaId>>::empty());
    assert(registered(start.idents, id, info).scopes[id] == end.idents.scopes[id]);
    let listed = end.idents.scopes[id].dependencies;
    assert(listed =~= crate::schemawalk::listed_dependencies(given));
    assert forall|i: int, j: int|
        #![trigger locations[i], locations[j]]
        0 <= i < j < locations.len() implies bytes_before(
        vstd::utf8::encode_utf8(locations[i]),
        vstd::utf8::encode_utf8(locations[j]),
    ) by {
        assert(before::<Label>(locations[i], locations[j]));
        law_keys_are_ordered(0, 0, Seq::empty(), Seq::empty(), locations[i], locations[j]);
    }
    assert forall|l: Seq<char>| #[trigger] given.contains_key(l) <==> locations.contains(l) by {
        assert(given.dom().contains(l) <==> locations.contains(l));
    }
    assert(locations.len() == listed.len());
}

/// Once all schemas were processed without an error, the namespaces that are visible everywhere are
/// those that were so before, and those of XML Schema, of XML and of XML Schema instances.
pub proof fn law_three_more_namespaces_are_visible_everywhere(st: CacheView, id: NamespaceId)
    requires
        ready(st),
        process_run(st).1 is None,
    ensures
        process_run(st).0.idents.globals.contains(id) <==> st.idents.globals.contains(id) || (
        st.schemas.namespace_infos.contains_key(id) && (st.schemas.namespace_infos[id].namespace
            == Some(vstd::utf8::encode_utf8("http://www.w3.org/2001/XMLSchema"@))
            || st.schemas.namespace_infos[id].namespace == Some(
            vstd::utf8::encode_utf8("http://www.w3.org/XML/1998/namespace"@),
        ) || st.schemas.namespace_infos[id].namespace == Some(
            vstd::utf8::encode_utf8("http://www.w3.org/2001/XMLSchema-instance"@),
        ))),
{
    let start = lemma_process_scopes(st);
    law_three_namespaces_are_visible_everywhere(st.schemas, id);
}

/// What becomes known while all schemas are processed.
proof fn lemma_process_scopes(st: CacheView) -> (start: CacheView)
    requires
        ready(st),
        process_run(st).1 is None,
    ensures
        more_scopes(start, process_run(st).0),
        start.schemas == st.schemas,
        start.processed == st.processed,
        start.idents.scopes == st.idents.scopes,
        start.idents.globals == st.idents.globals.union(
            crate::schemawalk::global_namespaces(st.schemas),
        ),
{
    let start = process_start(st);
    let ids = in_order::<SchemaId>(st.schemas.schemas.dom());
    lemma_schemas_scopes(ids, ids.len(), ids.len(), start);
    start
}

/// Schemas are processed in the order of their numbers: first the one with the smallest number, and
/// everything that it leads to, and each later one from what the earlier ones left, as long as there
/// is no error.
pub proof fn law_schemas_are_processed_by_number(st: CacheView, ids: Seq<SchemaId>)
    requires
        ready(st),
        forall|i: int, j: int|
            #![trigger ids[i], ids[j]]
            0 <= i < j < ids.len() ==> ids[i].0 < ids[j].0,
        forall|id: SchemaId| #[trigger] st.schemas.schemas.contains_key(id) <==> ids.contains(id),
    ensures
        exists|states: Seq<CacheView>|
            #![trigger states.len()]
            {
                &&& states.len() == ids.len() + 1
                &&& states[0].schemas == st.schemas && states[0].nodes == st.nodes
                &&& states[0].idents.idents == st.idents.idents
                &&& states[0].idents.scopes == st.idents.scopes
                &&& process_run(st).1 is None ==> process_run(st).0 == states[ids.len() as int]
                &&& process_run(st).1 is None ==> forall|k: int|
                    0 <= k < ids.len() ==> schema_run(ids.len(), #[trigger] ids[k], states[k]) == (
                        states[k + 1],
                        None::<ErrorView>,
                    )
            },
{
    let start = process_start(st);
    assert(ascending::<SchemaId>(ids)) by {
        assert forall|i: int, j: int|
            #![trigger ids[i], ids[j]]
            0 <= i < j < ids.len() implies before::<SchemaId>(ids[i], ids[j]) by {
            law_keys_are_ordered(
                ids[i].0,
                ids[j].0,
                Seq::empty(),
                Seq::empty(),
                Seq::empty(),
                Seq::empty(),
            );
        }
    }
    assert(lists(ids, st.schemas.schemas.dom())) by {
        assert forall|id: SchemaId|
            #![trigger st.schemas.schemas.dom().contains(id)]
            #![trigger ids.contains(id)]
            st.schemas.schemas.dom().contains(id) <==> ids.contains(id) by {
            assert(st.schemas.schemas.contains_key(id) <==> ids.contains(id));
        }
    }
    lemma_in_order::<SchemaId>(ids, st.schemas.schemas.dom());
    let states = Seq::new(
        ids.len() + 1,
        |n: int| schemas_run(ids, n as nat, ids.len(), start).0,
    );
    if process_run(st).1 is None {
        assert forall|k: int| 0 <= k < ids.len() implies schema_run(
            ids.len(),
            #[trigger] ids[k],
            states[k],
        ) == (states[k + 1], None::<ErrorView>) by {
            lemma_no_error_before(ids, ids.len(), (k + 1) as nat, ids.len(), start);
            lemma_no_error_before(ids, ids.len(), k as nat, ids.len(), start);
        }
    }
    assert(states.len() == ids.len() + 1);
}

/// Where all schemas were processed without an error, so were the first ones.
proof fn lemma_no_error_before(ids: Seq<SchemaId>, n: nat, m: nat, depth: nat, st: CacheView)
    requires
        m <= n <= ids.len(),
        schemas_run(ids, n, depth, st).1 is None,
    ensures
        schemas_run(ids, m, depth, st).1 is None,
    decreases n,
{
    if m < n {
        lemma_no_error_before(ids, (n - 1) as nat, m, depth, st);
    }
}

/// The state from which schemas are processed.
spec fn process_start(st: CacheView) -> CacheView {
    CacheView {
        idents: IdentCacheView {
            globals: st.idents.globals.union(crate::schemawalk::global_namespaces(st.schemas)),
            ..st.idents
        },
        ..st
    }
}

} // verus!
