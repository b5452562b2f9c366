//! What holds of every node cache.

use vstd::prelude::*;

use crate::ident::{IdentType, IdentView, TypeIdent};
use crate::identcache::{first_fit, fits, known, ErrorView, IdentCacheView};
use crate::models::{Dependency, QNameView, SchemaId};
use crate::nodes::EntryView;
use crate::order::{ascending, before, in_order, Key};
use crate::order::{lemma_in_order_finite, lemma_lex_irreflexive};
use crate::schemas::SchemaInfoView;
use crate::schemawalk::{
    clear, import_run, imports_run, lemma_settle_one, not_yet_copied, points_to, referred,
    repointed, settle, settle_one, update_entries, update_entry, Pending,
};
use crate::steps::DependencyKeyView;
use crate::walk::CacheView;

verus! {

/// References to schemas that were not loaded are passed over: they change nothing, and are no
/// errors.
pub proof fn law_unloaded_schemas_are_passed_over(
    depth: nat,
    info: SchemaInfoView,
    n: nat,
    st: CacheView,
)
    requires
        n <= info.schema.content.len(),
        forall|i: int, l: Seq<char>|
            #![trigger info.schema.content[i], info.dependencies.contains_key(l)]
            0 <= i < n && referred(info.schema.content[i]) == Some(l)
                ==> !info.dependencies.contains_key(l),
    ensures
        imports_run(depth, info, n, st) == (st, None::<ErrorView>),
    decreases n,
{
    if n > 0 {
        law_unloaded_schemas_are_passed_over(depth, info, (n - 1) as nat, st);
        if let Some(l) = referred(info.schema.content[n - 1]) {
            assert(!info.dependencies.contains_key(l));
        }
        let c = info.schema.content[n - 1];
        assert(import_run(depth, info.dependencies, c, st) == (st, None::<ErrorView>));
    }
}

/// Where an identifier is known, there is a first schema that has it.
proof fn lemma_first_fit(idents: Set<IdentView>, wanted: IdentView, i: IdentView)
    requires
        idents.contains(i),
        fits(i, wanted),
    ensures
        exists|f: IdentView| first_fit(idents, wanted, f),
    decreases i.schema.0,
{
    if !first_fit(idents, wanted, i) {
        let j = choose|j: IdentView| #[trigger]
            idents.contains(j) && fits(j, wanted) && j.schema.0 < i.schema.0;
        lemma_first_fit(idents, wanted, j);
    }
}

/// A name that any schema defines is resolved, whether or not the current schema refers to that
/// schema.
pub proof fn law_known_names_are_resolved(st: CacheView, name: QNameView, kind: IdentType)
    requires
        st.wanted(name, kind) is Ok,
        known(st.idents.idents, st.wanted(name, kind)->Ok_0),
    ensures
        st.resolved(name, kind) is Ok,
{
}

/// What a name is resolved to has the namespace, the kind and the text of the name.
pub proof fn law_resolved_names_fit(st: CacheView, name: QNameView, kind: IdentType)
    requires
        st.resolved(name, kind) is Ok,
    ensures
        st.wanted(name, kind) is Ok,
        ({
            let wanted = st.wanted(name, kind)->Ok_0;
            let found = st.resolved(name, kind)->Ok_0;
            &&& found.ns == wanted.ns
            &&& found.type_ == kind
            &&& found.name.text == wanted.name.text
        }),
{
    let wanted = st.wanted(name, kind)->Ok_0;
    if known(st.idents.idents, wanted) {
        let i = choose|i: IdentView| #[trigger] st.idents.idents.contains(i) && fits(i, wanted);
        lemma_first_fit(st.idents.idents, wanted, i);
    }
    lemma_dependencies_fit(
        st.idents,
        st.idents.dependencies_of(st.current_schema()),
        wanted,
    );
}

/// What is found in the dependencies fits what was wanted.
proof fn lemma_dependencies_fit(
    c: IdentCacheView,
    deps: Seq<Dependency<SchemaId>>,
    wanted: IdentView,
)
    ensures
        c.in_dependencies(deps, wanted) matches Some(i) ==> fits(i, wanted),
    decreases deps.len(),
{
    if deps.len() > 0 {
        lemma_dependencies_fit(c, deps.drop_first(), wanted);
    }
}

/// Whether an identifier of another schema is replaced by one of the schema.
pub open spec fn replaced_in(schema: SchemaId, idents: Set<IdentView>, w: IdentView) -> bool {
    w.schema != schema && idents.contains(w.in_schema(schema))
}

/// Whether every entry that redefines something redefines what has its own name in a schema.
pub open spec fn redefines_its_name(nodes: Map<IdentView, EntryView>) -> bool {
    forall|at: IdentView| #[trigger]
        nodes.contains_key(at) ==> (nodes[at].redefine_base matches Some(b) ==> b.in_schema(
            at.schema,
        ) == at)
}

/// What the search for replaced identifiers starts from: the replaced identifiers belong to other
/// schemas, the schema has definitions of its own for them, and entries redefine what has their
/// name.
pub open spec fn orderly(schema: SchemaId, p: Pending) -> bool {
    &&& p.idents.idents.finite()
    &&& p.work.finite()
    &&& forall|w: IdentView| #[trigger]
        p.work.contains(w) ==> replaced_in(schema, p.idents.idents, w)
    &&& redefines_its_name(p.nodes)
}

/// Whether no entry that a schema sees depends on replaced identifiers.
pub open spec fn done(schema: SchemaId, p: Pending, ds: Set<IdentView>) -> bool {
    forall|at: IdentView, d: IdentView|
        #![trigger p.nodes[at], ds.contains(d)]
        p.nodes.contains_key(at) && p.idents.visible(schema, at) && ds.contains(d) ==> clear(
            p.nodes[at],
            d,
        )
}

/// What an entry points to after its dependencies on an identifier were changed.
proof fn lemma_repointed(entry: EntryView, old_ident: IdentView, schema: SchemaId)
    requires
        old_ident.schema != schema,
    ensures
        ({
            let e = repointed(entry, old_ident, old_ident.in_schema(schema));
            &&& !points_to(e, old_ident)
            &&& forall|d: IdentView|
                d.schema != schema && !points_to(entry, d) ==> !#[trigger] points_to(e, d)
        }),
{
    let e = repointed(entry, old_ident, old_ident.in_schema(schema));
    assert forall|d: IdentView| d.schema != schema && points_to(e, d) implies points_to(entry, d)
        && d != old_ident by {
        let k = choose|k: DependencyKeyView| #[trigger]
            e.dependencies.contains_key(k) && e.dependencies[k].ident == d;
        assert(entry.dependencies.contains_key(k) && entry.dependencies[k].ident == d);
    }
}

/// What is known after the first entries of a list were updated.
spec fn halfway(
    schema: SchemaId,
    p: Pending,
    ds: Set<IdentView>,
    list: Seq<IdentView>,
    old_ident: IdentView,
    n: nat,
) -> bool {
    let q = update_entries(list.take(n as int), old_ident, schema, p);
    &&& orderly(schema, q)
    &&& done(schema, q, ds)
    &&& q.idents.scopes == p.idents.scopes
    &&& p.idents.idents.subset_of(q.idents.idents)
    &&& forall|w: IdentView| p.work.contains(w) ==> #[trigger] q.work.contains(w)
    &&& forall|i: IdentView| #[trigger]
        q.idents.idents.contains(i) && !p.idents.idents.contains(i) ==> i.schema == schema
            && q.nodes.contains_key(i) && clear(q.nodes[i], old_ident)
    &&& forall|at: IdentView|
        #![trigger q.nodes.contains_key(at)]
        #![trigger q.nodes[at]]
        at.schema != schema ==> q.nodes.contains_key(at) == p.nodes.contains_key(at)
            && q.nodes[at] == p.nodes[at]
    &&& forall|at: IdentView|
        #![trigger q.nodes[at]]
        p.idents.idents.contains(at) && at.schema == schema && q.nodes.contains_key(at)
            && !list.take(n as int).contains(at) ==> p.nodes.contains_key(at) && q.nodes[at]
            == p.nodes[at]
    &&& forall|j: int|
        #![trigger list[j]]
        0 <= j < n && q.nodes.contains_key(list[j]) && q.idents.visible(schema, list[j]) ==> clear(
            q.nodes[list[j]],
            old_ident,
        )
}

/// What holds after the first entries were updated.
proof fn lemma_halfway(
    schema: SchemaId,
    p: Pending,
    ds: Set<IdentView>,
    list: Seq<IdentView>,
    old_ident: IdentView,
    n: nat,
)
    requires
        orderly(schema, p),
        done(schema, p, ds),
        forall|d: IdentView| #[trigger]
            ds.contains(d) ==> replaced_in(schema, p.idents.idents, d),
        replaced_in(schema, p.idents.idents, old_ident),
        n <= list.len(),
        forall|i: int| 0 <= i < list.len() ==> p.idents.visible(schema, #[trigger] list[i]),
        forall|i: int, j: int|
            #![trigger list[i], list[j]]
            0 <= i < j < list.len() ==> list[i] != list[j],
    ensures
        halfway(schema, p, ds, list, old_ident, n),
    decreases n,
{
    let q = update_entries(list.take(n as int), old_ident, schema, p);
    if n == 0 {
        assert(list.take(0) =~= Seq::<IdentView>::empty());
        assert(q == p);
    } else {
        let m = (n - 1) as nat;
        lemma_halfway(schema, p, ds, list, old_ident, m);
        let a = update_entries(list.take(m as int), old_ident, schema, p);
        let at = list[m as int];
        assert(list.take(n as int).drop_last() =~= list.take(m as int));
        assert(list.take(n as int).last() == at);
        assert(q == update_entry(at, old_ident, schema, a));
        lemma_update_step(schema, p, ds, list, old_ident, m);
    }
}

/// What holds after one more entry was updated.
proof fn lemma_update_step(
    schema: SchemaId,
    p: Pending,
    ds: Set<IdentView>,
    list: Seq<IdentView>,
    old_ident: IdentView,
    m: nat,
)
    requires
        orderly(schema, p),
        done(schema, p, ds),
        forall|d: IdentView| #[trigger]
            ds.contains(d) ==> replaced_in(schema, p.idents.idents, d),
        replaced_in(schema, p.idents.idents, old_ident),
        m < list.len(),
        forall|i: int| 0 <= i < list.len() ==> p.idents.visible(schema, #[trigger] list[i]),
        forall|i: int, j: int|
            #![trigger list[i], list[j]]
            0 <= i < j < list.len() ==> list[i] != list[j],
        halfway(schema, p, ds, list, old_ident, m),
        update_entries(list.take((m + 1) as int), old_ident, schema, p) == update_entry(
            list[m as int],
            old_ident,
            schema,
            update_entries(list.take(m as int), old_ident, schema, p),
        ),
    ensures
        halfway(schema, p, ds, list, old_ident, m + 1),
{
    let a = update_entries(list.take(m as int), old_ident, schema, p);
    let q = update_entries(list.take((m + 1) as int), old_ident, schema, p);
    let at = list[m as int];
    let t0 = list.take(m as int);
    let t1 = list.take((m + 1) as int);
    assert(p.idents.visible(schema, at));
    assert forall|x: IdentView| t0.contains(x) implies t1.contains(x) by {
        let i = choose|i: int| 0 <= i < t0.len() && t0[i] == x;
        assert(t1[i] == x);
    }
    assert(t1[m as int] == at);
    if !a.nodes.contains_key(at) || clear(a.nodes[at], old_ident) {
        assert(q == a);
    } else {
        let entry = a.nodes[at];
        let e = repointed(entry, old_ident, old_ident.in_schema(schema));
        lemma_repointed(entry, old_ident, schema);
        if at.schema == schema {
            assert(q.nodes == a.nodes.insert(at, e));
            assert forall|x: IdentView, d: IdentView|
                #![trigger q.nodes[x], ds.contains(d)]
                q.nodes.contains_key(x) && q.idents.visible(schema, x) && ds.contains(
                    d,
                ) implies clear(q.nodes[x], d) by {
                assert(a.nodes.contains_key(x));
                assert(clear(a.nodes[x], d));
            }
        } else {
            let c = at.in_schema(schema);
            let copy = EntryView { redefine_base: Some(at), ..e };
            assert(q.nodes == a.nodes.insert(c, copy));
            assert(a.nodes[at] == p.nodes[at]);
            assert(!p.idents.idents.contains(c));
            assert forall|d: IdentView| #[trigger] points_to(copy, d) == points_to(e, d) by {
                if points_to(e, d) {
                    let k = choose|k: DependencyKeyView| #[trigger]
                        e.dependencies.contains_key(k) && e.dependencies[k].ident == d;
                    assert(copy.dependencies.contains_key(k));
                }
                if points_to(copy, d) {
                    let k = choose|k: DependencyKeyView| #[trigger]
                        copy.dependencies.contains_key(k) && copy.dependencies[k].ident == d;
                    assert(e.dependencies.contains_key(k));
                }
            }
            assert forall|x: IdentView, d: IdentView|
                #![trigger q.nodes[x], ds.contains(d)]
                q.nodes.contains_key(x) && q.idents.visible(schema, x) && ds.contains(
                    d,
                ) implies clear(q.nodes[x], d) by {
                if x == c {
                    assert(p.nodes.contains_key(at));
                    assert(clear(p.nodes[at], d));
                    assert(p.nodes[at].redefine_base != Some(d)) by {
                        if p.nodes[at].redefine_base == Some(d) {
                            assert(d.in_schema(at.schema) == at);
                            assert(d.in_schema(schema) == c);
                            assert(replaced_in(schema, p.idents.idents, d));
                        }
                    }
                    assert(!points_to(e, d));
                    assert(!points_to(copy, d));
                } else {
                    assert(a.nodes.contains_key(x) && a.nodes[x] == q.nodes[x]);
                    lemma_visible_before(schema, a.idents, q.idents, c, x);
                    assert(clear(a.nodes[x], d));
                }
            }
            assert forall|j: int|
                #![trigger list[j]]
                0 <= j < m + 1 && q.nodes.contains_key(list[j]) && q.idents.visible(
                    schema,
                    list[j],
                ) implies clear(q.nodes[list[j]], old_ident) by {
                let x = list[j];
                assert(p.idents.visible(schema, x));
                assert(x != c);
                lemma_visible_before(schema, a.idents, q.idents, c, x);
                if j == m {
                    assert(!q.idents.visible(schema, at));
                }
            }
            assert forall|i: IdentView| #[trigger] q.idents.idents.contains(i)
                && !p.idents.idents.contains(i) implies i.schema == schema && q.nodes.contains_key(i)
                && clear(q.nodes[i], old_ident) by {
                if i == c {
                    assert(!points_to(copy, old_ident));
                } else {
                    assert(a.idents.idents.contains(i));
                }
            }
        }
    }
}

/// A new identifier of a schema makes nothing else visible.
proof fn lemma_visible_before(
    schema: SchemaId,
    a: IdentCacheView,
    b: IdentCacheView,
    c: IdentView,
    x: IdentView,
)
    requires
        b.scopes == a.scopes,
        b.idents == a.idents.insert(c),
        c.schema == schema,
        x != c,
        b.visible(schema, x),
    ensures
        a.visible(schema, x),
{
    assert(a.set_of(schema) =~= b.set_of(schema)) by {
        assert forall|s: SchemaId| a.set_of(schema).contains(s) == b.set_of(schema).contains(s) by {
            if a.set_of(schema).contains(s) {
                let n = choose|n: nat| #[trigger] a.within(schema, n).contains(s);
                lemma_within_scopes(a, b, schema, n);
                assert(b.within(schema, n).contains(s));
            }
            if b.set_of(schema).contains(s) {
                let n = choose|n: nat| #[trigger] b.within(schema, n).contains(s);
                lemma_within_scopes(a, b, schema, n);
                assert(a.within(schema, n).contains(s));
            }
        }
    }
}

/// What a schema sees depends on the scopes only.
proof fn lemma_within_scopes(a: IdentCacheView, b: IdentCacheView, schema: SchemaId, n: nat)
    requires
        a.scopes == b.scopes,
    ensures
        a.within(schema, n) == b.within(schema, n),
    decreases n,
{
    if n > 0 {
        lemma_within_scopes(a, b, schema, (n - 1) as nat);
        assert forall|x: SchemaId, y: SchemaId| #[trigger] a.takes_over(x, y) == b.takes_over(
            x,
            y,
        ) by {
            assert(a.dependencies_of(x) == b.dependencies_of(x));
        }
        assert(a.within(schema, n) =~= b.within(schema, n));
    }
}

/// Everything visible is listed, and once.
pub proof fn lemma_listed_once(schema: SchemaId, c: IdentCacheView)
    requires
        c.idents.finite(),
    ensures
        ({
            let list = c.schema_set(schema);
            &&& forall|i: int| 0 <= i < list.len() ==> c.visible(schema, #[trigger] list[i])
            &&& forall|i: int, j: int|
                #![trigger list[i], list[j]]
                0 <= i < j < list.len() ==> list[i] != list[j]
            &&& forall|x: IdentView| #[trigger] c.visible(schema, x) ==> list.contains(x)
        }),
{
    broadcast use vstd::seq_lib::group_filter_ensures;

    let order = in_order::<TypeIdent>(c.idents);
    let pred = |i: IdentView| c.visible(schema, i);
    let list = c.schema_set(schema);
    lemma_in_order_finite::<TypeIdent>(c.idents);
    assert forall|i: int| 0 <= i < list.len() implies c.visible(schema, #[trigger] list[i]) by {
        assert(pred(order.filter(pred)[i]));
    }
    assert forall|x: IdentView| #[trigger] c.visible(schema, x) implies list.contains(x) by {
        assert(order.contains(x));
        let i = choose|i: int| 0 <= i < order.len() && order[i] == x;
        assert(pred(order[i]));
        assert(order.filter(pred).contains(order[i]));
    }
    lemma_filter_distinct(order, pred);
}

/// A part of an ascending list holds nothing twice.
proof fn lemma_filter_distinct(order: Seq<IdentView>, pred: spec_fn(IdentView) -> bool)
    requires
        ascending::<TypeIdent>(order),
    ensures
        ({
            let list = order.filter(pred);
            &&& forall|i: int, j: int|
                #![trigger list[i], list[j]]
                0 <= i < j < list.len() ==> list[i] != list[j]
            &&& forall|i: int| 0 <= i < list.len() ==> order.contains(#[trigger] list[i])
        }),
    decreases order.len(),
{
    reveal(Seq::filter);
    let list = order.filter(pred);
    if order.len() > 0 {
        let front = order.drop_last();
        let last = order.last();
        assert(ascending::<TypeIdent>(front)) by {
            assert forall|i: int, j: int|
                #![trigger front[i], front[j]]
                0 <= i < j < front.len() implies before::<TypeIdent>(front[i], front[j]) by {
                assert(before::<TypeIdent>(order[i], order[j]));
            }
        }
        lemma_filter_distinct(front, pred);
        let part = front.filter(pred);
        assert forall|i: int| 0 <= i < part.len() implies order.contains(#[trigger] part[i])
            && part[i] != last by {
            assert(front.contains(part[i]));
            let k = choose|k: int| 0 <= k < front.len() && front[k] == part[i];
            assert(order[k] == part[i]);
            assert(before::<TypeIdent>(order[k], order[order.len() - 1]));
            lemma_lex_irreflexive(<TypeIdent as Key>::code(last));
        }
        assert(order[order.len() - 1] == last);
        if pred(last) {
            assert(list == part.push(last));
        } else {
            assert(list == part);
        }
    }
}

/// After one replaced identifier was looked at, nothing that the schema sees depends on it.
pub proof fn lemma_settle_one_done(schema: SchemaId, p: Pending, ds: Set<IdentView>)
    requires
        orderly(schema, p),
        done(schema, p, ds),
        forall|d: IdentView| #[trigger]
            ds.contains(d) ==> replaced_in(schema, p.idents.idents, d),
        p.work.len() > 0,
    ensures
        ({
            let old_ident = in_order::<TypeIdent>(p.work)[0];
            let q = settle_one(schema, p);
            &&& orderly(schema, q)
            &&& done(schema, q, ds.insert(old_ident))
            &&& p.work.contains(old_ident)
            &&& p.idents.idents.subset_of(q.idents.idents)
            &&& forall|w: IdentView|
                p.work.contains(w) && w != old_ident ==> #[trigger] q.work.contains(w)
        }),
{
    let order = in_order::<TypeIdent>(p.work);
    lemma_in_order_finite::<TypeIdent>(p.work);
    assert(order.len() > 0) by {
        let x = p.work.choose();
        assert(p.work.contains(x));
        assert(order.contains(x));
    }
    let old_ident = order[0];
    assert(order.contains(old_ident));
    let start = Pending { work: p.work.remove(old_ident), ..p };
    let list = p.idents.schema_set(schema);
    lemma_listed_once(schema, p.idents);
    assert(orderly(schema, start));
    assert(done(schema, start, ds)) by {
        assert forall|at: IdentView, d: IdentView|
            #![trigger start.nodes[at], ds.contains(d)]
            start.nodes.contains_key(at) && start.idents.visible(schema, at) && ds.contains(
                d,
            ) implies clear(start.nodes[at], d) by {
            assert(clear(p.nodes[at], d));
        }
    }
    lemma_halfway(schema, start, ds, list, old_ident, list.len());
    assert(list.take(list.len() as int) =~= list);
    let q = settle_one(schema, p);
    assert(q == update_entries(list, old_ident, schema, start));
    let more = ds.insert(old_ident);
    assert forall|at: IdentView, d: IdentView|
        #![trigger q.nodes[at], more.contains(d)]
        q.nodes.contains_key(at) && q.idents.visible(schema, at) && more.contains(
            d,
        ) implies clear(q.nodes[at], d) by {
        if ds.contains(d) {
            assert(clear(q.nodes[at], d));
        } else if p.idents.idents.contains(at) {
            lemma_visible_subset(schema, p.idents, q.idents, at);
            assert(list.contains(at));
            let j = choose|j: int| 0 <= j < list.len() && list[j] == at;
            assert(clear(q.nodes[list[j]], old_ident));
        } else {
            assert(q.idents.idents.contains(at));
        }
    }
}

/// What is visible among more identifiers of the schema was visible before.
proof fn lemma_visible_subset(
    schema: SchemaId,
    a: IdentCacheView,
    b: IdentCacheView,
    x: IdentView,
)
    requires
        b.scopes == a.scopes,
        a.idents.subset_of(b.idents),
        a.idents.contains(x),
        b.visible(schema, x),
    ensures
        a.visible(schema, x),
{
    if x.schema != schema {
        assert(b.set_of(schema).contains(x.schema));
        let n = choose|n: nat| #[trigger] b.within(schema, n).contains(x.schema);
        lemma_within_scopes(a, b, schema, n);
        assert(a.within(schema, n).contains(x.schema));
    }
}

/// Settling is done with what was done before and with all that was left to do.
proof fn lemma_settle_done(schema: SchemaId, p: Pending, ds: Set<IdentView>)
    requires
        orderly(schema, p),
        done(schema, p, ds),
        forall|d: IdentView| #[trigger]
            ds.contains(d) ==> replaced_in(schema, p.idents.idents, d),
    ensures
        done(schema, settle(schema, p), ds.union(p.work)),
    decreases not_yet_copied(schema, p.idents.idents).len(), p.work.len(),
{
    if p.work.len() == 0 {
        assert(p.work =~= Set::empty());
        assert(ds.union(p.work) =~= ds);
    } else {
        lemma_settle_one(schema, p);
        lemma_settle_one_done(schema, p, ds);
        let old_ident = in_order::<TypeIdent>(p.work)[0];
        let q = settle_one(schema, p);
        let more = ds.insert(old_ident);
        lemma_settle_done(schema, q, more);
        let end = settle(schema, p);
        assert(end == settle(schema, q));
        let all = ds.union(p.work);
        assert forall|at: IdentView, d: IdentView|
            #![trigger end.nodes[at], all.contains(d)]
            end.nodes.contains_key(at) && end.idents.visible(schema, at) && all.contains(
                d,
            ) implies clear(end.nodes[at], d) by {
            assert(more.union(q.work).contains(d));
        }
    }
}

/// Once the identifiers that a schema replaces have been settled, nothing that the schema sees
/// depends on them any more, apart from the definitions that redefine them.
pub proof fn law_replaced_identifiers_are_replaced_everywhere(
    schema: SchemaId,
    p: Pending,
    at: IdentView,
    replaced: IdentView,
)
    requires
        orderly(schema, p),
        p.work.contains(replaced),
        settle(schema, p).nodes.contains_key(at),
        settle(schema, p).idents.visible(schema, at),
    ensures
        clear(settle(schema, p).nodes[at], replaced),
{
    lemma_settle_done(schema, p, Set::empty());
    let end = settle(schema, p);
    assert(Set::<IdentView>::empty().union(p.work).contains(replaced));
    assert(clear(end.nodes[at], replaced));
}

} // verus!
