//! Every schema is handled once, also where schemas refer to each other.

use vstd::prelude::*;

use crate::models::{Dependency, SchemaId};
use crate::schemas::{SchemaInfoView, SchemasView};
use crate::schemawalk::{
    content_run, entered, import_run, imports_run, known_schema, override_definitions, part_run,
    redefine_definitions, redefinitions_run, referred, schema_definition, schema_run, Definition,
};
use crate::steps::Step;
use crate::walk::{inline_name, marker_level, run, run_step, CacheView};
use crate::xs::SchemaContent;

verus! {

/// The schemas whose definitions are handled while one part of a schema is followed, in order.
pub open spec fn import_visits(
    depth: nat,
    dependencies: Map<Seq<char>, Dependency<SchemaId>>,
    c: SchemaContent,
    st: CacheView,
) -> Seq<SchemaId>
    decreases depth, 1nat,
{
    match referred(c) {
        Some(location) if dependencies.contains_key(location) => schema_visits(
            depth,
            dependencies[location].target(),
            st,
        ),
        _ => Seq::empty(),
    }
}

/// The schemas whose definitions are handled while the first `n` parts of a schema are followed.
pub open spec fn imports_visits(depth: nat, info: SchemaInfoView, n: nat, st: CacheView) -> Seq<
    SchemaId,
>
    decreases depth, n + 2,
{
    if n == 0 {
        Seq::empty()
    } else {
        let (mid, error) = imports_run(depth, info, (n - 1) as nat, st);
        let before = imports_visits(depth, info, (n - 1) as nat, st);
        if error is Some {
            before
        } else {
            before + import_visits(depth, info.dependencies, info.schema.content[n - 1], mid)
        }
    }
}

/// The schemas whose definitions are handled while a schema is processed, in order.
pub open spec fn schema_visits(depth: nat, id: SchemaId, st: CacheView) -> Seq<SchemaId>
    decreases depth, 0nat,
{
    if st.processed.contains(id) || depth == 0 {
        Seq::empty()
    } else {
        let info = st.schemas.schemas[id];
        let start = known_schema(entered(id, st), id, info);
        let n = info.schema.content.len();
        let before = imports_visits((depth - 1) as nat, info, n, start);
        if imports_run((depth - 1) as nat, info, n, start).1 is Some {
            before
        } else {
            before.push(id)
        }
    }
}

/// Whether two states know of the same schemas and have visited the same ones.
pub open spec fn visits_nothing(a: CacheView, b: CacheView) -> bool {
    a.schemas == b.schemas && a.processed == b.processed
}

/// Steps visit no schema.
proof fn lemma_run_visits(steps: Seq<Step>, st: CacheView)
    ensures
        visits_nothing(st, run(steps, st).0),
    decreases steps,
{
    reveal_with_fuel(run, 1);
    if steps.len() > 0 {
        lemma_run_visits(steps.drop_last(), st);
        lemma_run_step_visits(steps.last(), run(steps.drop_last(), st).0);
    }
}

/// A step visits no schema.
proof fn lemma_run_step_visits(step: Step, st: CacheView)
    ensures
        visits_nothing(st, run_step(step, st).0),
    decreases step,
{
    reveal_with_fuel(run, 1);
    match step {
        Step::Reference { .. } => {},
        Step::Within { marker, body } => {
            lemma_run_visits(body, st.pushed(marker_level(marker)));
        },
        Step::Inline { node, naming, body, .. } => {
            let name = inline_name(naming, st.next_id, st.stack);
            let named = CacheView { next_id: st.next_id.wrapping_add(1), ..st };
            lemma_run_visits(body, named.opened(name, node));
        },
    }
}

/// Definitions visit no schema.
proof fn lemma_content_visits(content: Seq<SchemaContent>, n: nat, st: CacheView)
    ensures
        visits_nothing(st, content_run(content, n, st).0),
    decreases n,
{
    if n > 0 {
        lemma_content_visits(content, (n - 1) as nat, st);
        let mid = content_run(content, (n - 1) as nat, st).0;
        if let Some((Some(name), node)) = schema_definition(content[n - 1]) {
            lemma_run_visits(
                crate::steps::node_steps(node),
                mid.opened(crate::schemawalk::given(name), node),
            );
        }
    }
}

/// Redefinitions visit no schema.
proof fn lemma_redefinitions_visits(
    defs: Seq<Option<Definition>>,
    n: nat,
    base: SchemaId,
    st: CacheView,
)
    ensures
        visits_nothing(st, redefinitions_run(defs, n, base, st).0),
    decreases n,
{
    if n > 0 {
        lemma_redefinitions_visits(defs, (n - 1) as nat, base, st);
        let mid = redefinitions_run(defs, (n - 1) as nat, base, st).0;
        if let Some((Some(name), node)) = defs[n - 1] {
            lemma_run_visits(
                crate::steps::node_steps(node),
                mid.opened_redefined(crate::schemawalk::given(name), base, node),
            );
        }
    }
}

/// What a part of a schema replaces visits no schema.
pub proof fn lemma_part_visits(c: SchemaContent, base: SchemaId, st: CacheView)
    ensures
        visits_nothing(st, part_run(c, base, st).0),
{
    match c {
        SchemaContent::Override(x) => {
            let defs = override_definitions(x.content@);
            lemma_redefinitions_visits(defs, defs.len(), base, st);
        },
        SchemaContent::Redefine(x) => {
            let defs = redefine_definitions(x.content@);
            lemma_redefinitions_visits(defs, defs.len(), base, st);
        },
        _ => {},
    }
}

/// Whether a list of schemas is what was visited between two states: each once, and none that was
/// visited before.
pub open spec fn visited_between(a: CacheView, list: Seq<SchemaId>, b: CacheView) -> bool {
    &&& a.schemas == b.schemas
    &&& list.no_duplicates()
    &&& forall|x: SchemaId| #[trigger]
        b.processed.contains(x) <==> a.processed.contains(x) || list.contains(x)
    &&& forall|x: SchemaId| #[trigger] list.contains(x) ==> !a.processed.contains(x)
}

/// Visits one after the other are visits.
proof fn lemma_between_trans(
    a: CacheView,
    list: Seq<SchemaId>,
    b: CacheView,
    more: Seq<SchemaId>,
    c: CacheView,
)
    requires
        visited_between(a, list, b),
        visited_between(b, more, c),
    ensures
        visited_between(a, list + more, c),
{
    let all = list + more;
    assert forall|x: SchemaId| #[trigger] all.contains(x) <==> list.contains(x) || more.contains(
        x,
    ) by {
        if list.contains(x) {
            let k = choose|k: int| 0 <= k < list.len() && list[k] == x;
            assert(all[k] == x);
        }
        if more.contains(x) {
            let k = choose|k: int| 0 <= k < more.len() && more[k] == x;
            assert(all[list.len() + k] == x);
        }
        if all.contains(x) {
            let k = choose|k: int| 0 <= k < all.len() && all[k] == x;
            if k < list.len() {
                assert(list[k] == x);
            } else {
                assert(more[k - list.len()] == x);
            }
        }
    }
    assert forall|i: int, j: int| 0 <= i < all.len() && 0 <= j < all.len() && i != j implies all[i]
        != all[j] by {
        if i < list.len() {
            assert(list.contains(list[i]));
        } else {
            assert(more.contains(more[i - list.len()]));
        }
        if j < list.len() {
            assert(list.contains(list[j]));
        } else {
            assert(more.contains(more[j - list.len()]));
        }
    }
}

/// What following a part of a schema visits.
proof fn lemma_import_visits(
    depth: nat,
    dependencies: Map<Seq<char>, Dependency<SchemaId>>,
    c: SchemaContent,
    st: CacheView,
)
    requires
        import_run(depth, dependencies, c, st).1 is None,
    ensures
        visited_between(
            st,
            import_visits(depth, dependencies, c, st),
            import_run(depth, dependencies, c, st).0,
        ),
    decreases depth, 1nat,
{
    if let Some(location) = referred(c) {
        if dependencies.contains_key(location) {
            let base = dependencies[location].target();
            lemma_schema_visits(depth, base, st);
            lemma_part_visits(c, base, schema_run(depth, base, st).0);
        }
    }
}

/// What following the first `n` parts of a schema visits.
proof fn lemma_imports_visits(depth: nat, info: SchemaInfoView, n: nat, st: CacheView)
    requires
        imports_run(depth, info, n, st).1 is None,
    ensures
        visited_between(
            st,
            imports_visits(depth, info, n, st),
            imports_run(depth, info, n, st).0,
        ),
    decreases depth, n + 2,
{
    if n > 0 {
        let m = (n - 1) as nat;
        let c = info.schema.content[n - 1];
        let mid = imports_run(depth, info, m, st).0;
        assert(imports_run(depth, info, n, st) == import_run(depth, info.dependencies, c, mid));
        assert(imports_visits(depth, info, n, st) == imports_visits(depth, info, m, st)
            + import_visits(depth, info.dependencies, c, mid));
        lemma_imports_visits(depth, info, m, st);
        lemma_import_visits(depth, info.dependencies, c, mid);
        lemma_between_trans(
            st,
            imports_visits(depth, info, m, st),
            mid,
            import_visits(depth, info.dependencies, c, mid),
            imports_run(depth, info, n, st).0,
        );
    }
}

/// What processing a schema visits.
proof fn lemma_schema_visits(depth: nat, id: SchemaId, st: CacheView)
    requires
        schema_run(depth, id, st).1 is None,
    ensures
        visited_between(st, schema_visits(depth, id, st), schema_run(depth, id, st).0),
    decreases depth, 0nat,
{
    if !(st.processed.contains(id) || depth == 0) {
        let d = (depth - 1) as nat;
        let info = st.schemas.schemas[id];
        let n = info.schema.content.len();
        let start = known_schema(entered(id, st), id, info);
        let (mid, error) = imports_run(d, info, n, start);
        assert(schema_run(depth, id, st).1 is None ==> error is None);
        lemma_imports_visits(d, info, n, start);
        lemma_content_visits(info.schema.content, n, mid);
        let before = imports_visits(d, info, n, start);
        let list = schema_visits(depth, id, st);
        assert(list == before.push(id));
        assert(!before.contains(id));
        assert forall|x: SchemaId| #[trigger] list.contains(x) <==> before.contains(x) || x
            == id by {
            if before.contains(x) {
                let k = choose|k: int| 0 <= k < before.len() && before[k] == x;
                assert(list[k] == x);
            }
            assert(list[before.len() as int] == id);
        }
        assert forall|i: int, j: int| 0 <= i < list.len() && 0 <= j < list.len() && i
            != j implies list[i] != list[j] by {
            if i < before.len() {
                assert(before.contains(before[i]));
            }
            if j < before.len() {
                assert(before.contains(before[j]));
            }
        }
    }
}

/// A schema that is processed without an error handles the definitions of every schema that it
/// leads to once, and none of a schema that was handled before.
pub proof fn law_schemas_are_handled_once(depth: nat, id: SchemaId, st: CacheView)
    requires
        schema_run(depth, id, st).1 is None,
    ensures
        visited_between(st, schema_visits(depth, id, st), schema_run(depth, id, st).0),
{
    lemma_schema_visits(depth, id, st);
}

/// Processing a schema that was visited changes nothing.
pub proof fn law_visited_schemas_are_passed_over(depth: nat, id: SchemaId, st: CacheView)
    requires
        st.processed.contains(id),
    ensures
        schema_run(depth, id, st) == (st, None::<crate::identcache::ErrorView>),
        schema_visits(depth, id, st).len() == 0,
{
}

/// Whether a schema refers to another one.
pub open spec fn refers(schemas: SchemasView, a: SchemaId, b: SchemaId) -> bool {
    let info = schemas.schemas[a];
    exists|i: int|
        0 <= i < info.schema.content.len() && refers_by(info, #[trigger] info.schema.content[i], b)
}

/// Whether a part of a schema refers to a schema.
pub open spec fn refers_by(info: SchemaInfoView, c: SchemaContent, b: SchemaId) -> bool {
    referred(c) matches Some(l) && info.dependencies.contains_key(l)
        && info.dependencies[l].target() == b
}

/// Whether schemas refer to each other only.
pub open spec fn closed_under(schemas: SchemasView, group: Set<SchemaId>) -> bool {
    forall|a: SchemaId, b: SchemaId| #[trigger]
        refers(schemas, a, b) && group.contains(a) ==> group.contains(b)
}

/// Schemas that refer to each other only lead to each other only.
proof fn lemma_import_within(
    depth: nat,
    a: SchemaId,
    i: int,
    st: CacheView,
    group: Set<SchemaId>,
)
    requires
        closed_under(st.schemas, group),
        group.contains(a),
        0 <= i < st.schemas.schemas[a].schema.content.len(),
        ({
            let info = st.schemas.schemas[a];
            import_run(depth, info.dependencies, info.schema.content[i], st).1 is None
        }),
    ensures
        ({
            let info = st.schemas.schemas[a];
            forall|x: SchemaId| #[trigger]
                import_visits(depth, info.dependencies, info.schema.content[i], st).contains(x)
                    ==> group.contains(x)
        }),
    decreases depth, 1nat,
{
    let info = st.schemas.schemas[a];
    let c = info.schema.content[i];
    if let Some(l) = referred(c) {
        if info.dependencies.contains_key(l) {
            let b = info.dependencies[l].target();
            assert(refers_by(info, info.schema.content[i], b));
            assert(refers(st.schemas, a, b));
            lemma_schema_within(depth, b, st, group);
            assert(import_visits(depth, info.dependencies, c, st) == schema_visits(depth, b, st));
        }
    }
    assert forall|x: SchemaId| #[trigger]
        import_visits(depth, info.dependencies, c, st).contains(x) implies group.contains(x) by {}
}

/// Schemas that refer to each other only lead to each other only.
proof fn lemma_imports_within(
    depth: nat,
    a: SchemaId,
    n: nat,
    st: CacheView,
    group: Set<SchemaId>,
)
    requires
        closed_under(st.schemas, group),
        group.contains(a),
        n <= st.schemas.schemas[a].schema.content.len(),
        imports_run(depth, st.schemas.schemas[a], n, st).1 is None,
    ensures
        forall|x: SchemaId| #[trigger]
            imports_visits(depth, st.schemas.schemas[a], n, st).contains(x) ==> group.contains(x),
    decreases depth, n + 2,
{
    if n > 0 {
        let m = (n - 1) as nat;
        let info = st.schemas.schemas[a];
        let mid = imports_run(depth, info, m, st).0;
        assert(imports_run(depth, info, n, st) == import_run(
            depth,
            info.dependencies,
            info.schema.content[n - 1],
            mid,
        ));
        lemma_imports_visits(depth, info, m, st);
        lemma_imports_within(depth, a, m, st, group);
        lemma_import_within(depth, a, n - 1, mid, group);
        let one = imports_visits(depth, info, m, st);
        let two = import_visits(depth, info.dependencies, info.schema.content[n - 1], mid);
        let all = imports_visits(depth, info, n, st);
        assert(all == one + two);
        assert forall|x: SchemaId| #[trigger] all.contains(x) implies group.contains(x) by {
            let k = choose|k: int| 0 <= k < all.len() && all[k] == x;
            if k < one.len() {
                assert(one.contains(one[k]));
            } else {
                assert(two.contains(two[k - one.len()]));
            }
        }
    }
}

/// Schemas that refer to each other only lead to each other only.
proof fn lemma_schema_within(depth: nat, a: SchemaId, st: CacheView, group: Set<SchemaId>)
    requires
        closed_under(st.schemas, group),
        group.contains(a),
        schema_run(depth, a, st).1 is None,
    ensures
        forall|x: SchemaId| #[trigger]
            schema_visits(depth, a, st).contains(x) ==> group.contains(x),
    decreases depth, 0nat,
{
    if !(st.processed.contains(a) || depth == 0) {
        let d = (depth - 1) as nat;
        let info = st.schemas.schemas[a];
        let n = info.schema.content.len();
        let start = known_schema(entered(a, st), a, info);
        assert(schema_run(depth, a, st).1 is None ==> imports_run(d, info, n, start).1 is None);
        lemma_imports_within(d, a, n, start, group);
        let before = imports_visits(d, info, n, start);
        let list = schema_visits(depth, a, st);
        assert(list == before.push(a));
        assert forall|x: SchemaId| #[trigger] list.contains(x) implies group.contains(x) by {
            let k = choose|k: int| 0 <= k < list.len() && list[k] == x;
            if k < before.len() {
                assert(before.contains(before[k]));
            }
        }
    }
}

/// What a schema refers to is visited once its parts were followed.
proof fn lemma_referred_is_visited(
    depth: nat,
    info: SchemaInfoView,
    n: nat,
    st: CacheView,
    i: int,
    b: SchemaId,
)
    requires
        0 <= i < n,
        depth > 0,
        imports_run(depth, info, n, st).1 is None,
        refers_by(info, info.schema.content[i], b),
    ensures
        imports_run(depth, info, n, st).0.processed.contains(b),
    decreases n,
{
    let m = (n - 1) as nat;
    let c = info.schema.content[n - 1];
    let mid = imports_run(depth, info, m, st).0;
    assert(imports_run(depth, info, n, st) == import_run(depth, info.dependencies, c, mid));
    lemma_import_visits(depth, info.dependencies, c, mid);
    if i < m {
        lemma_referred_is_visited(depth, info, m, st, i, b);
    } else {
        let end = schema_run(depth, b, mid).0;
        lemma_schema_visits(depth, b, mid);
        lemma_part_visits(c, b, end);
        if !mid.processed.contains(b) {
            let list = schema_visits(depth, b, mid);
            assert(list.last() == b);
            assert(list.contains(b));
        }
    }
}

/// Two schemas that refer to each other, and to no other schemas, are each handled once: first the
/// one that is referred to, then the one that refers to it. Processing either of them again changes
/// nothing.
pub proof fn law_schemas_may_refer_to_each_other(
    depth: nat,
    again: nat,
    a: SchemaId,
    b: SchemaId,
    st: CacheView,
)
    requires
        a != b,
        refers(st.schemas, a, b),
        refers(st.schemas, b, a),
        closed_under(st.schemas, set![a, b]),
        !st.processed.contains(a),
        !st.processed.contains(b),
        depth >= 2,
        schema_run(depth, a, st).1 is None,
    ensures
        schema_visits(depth, a, st) == seq![b, a],
        ({
            let end = schema_run(depth, a, st).0;
            &&& end.processed == st.processed.insert(a).insert(b)
            &&& schema_run(again, a, end) == (end, None::<crate::identcache::ErrorView>)
            &&& schema_run(again, b, end) == (end, None::<crate::identcache::ErrorView>)
        }),
{
    let group = set![a, b];
    let d = (depth - 1) as nat;
    let info = st.schemas.schemas[a];
    let n = info.schema.content.len();
    let start = known_schema(entered(a, st), a, info);
    assert(schema_run(depth, a, st).1 is None ==> imports_run(d, info, n, start).1 is None);
    let before = imports_visits(d, info, n, start);
    lemma_imports_visits(d, info, n, start);
    lemma_imports_within(d, a, n, start, group);
    let i = choose|i: int|
        0 <= i < info.schema.content.len() && refers_by(info, #[trigger] info.schema.content[i], b);
    lemma_referred_is_visited(d, info, n, start, i, b);
    assert(before.contains(b));
    assert forall|k: int| 0 <= k < before.len() implies before[k] == b by {
        assert(before.contains(before[k]));
    }
    assert(before.len() == 1) by {
        if before.len() > 1 {
            assert(before[0] == before[1]);
        }
    }
    assert(before =~= seq![b]);
    let list = schema_visits(depth, a, st);
    assert(list =~= seq![b, a]);
    lemma_schema_visits(depth, a, st);
    let end = schema_run(depth, a, st).0;
    assert forall|x: SchemaId| end.processed.contains(x) <==> st.processed.insert(a).insert(
        b,
    ).contains(x) by {
        assert(list[0] == b && list[1] == a);
        assert(end.processed.contains(x) <==> st.processed.contains(x) || list.contains(x));
    }
    assert(end.processed =~= st.processed.insert(a).insert(b));
}

} // verus!
