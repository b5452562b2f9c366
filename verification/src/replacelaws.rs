//! What becomes of dependencies on definitions that a schema replaces.

use vstd::prelude::*;

use crate::entrylaws::{lemma_redefine, lemma_redefinitions, lemma_replaced_finite, tidy};
use crate::ident::{IdentView, TypeIdent};
use crate::models::SchemaId;
use crate::nodes::{DependencyView, EntryView};
use crate::order::in_order;
use crate::schemawalk::{
    clear, given, lemma_same_schema, lemma_settle_one, lemma_visible_list, not_yet_copied,
    redefinitions_run, replace_run, replaced, settle, settle_one, update_entries, update_entry,
    Definition, Pending,
};
use crate::steps::DependencyKeyView;
use crate::walk::CacheView;
use crate::walklaws::{law_replaced_identifiers_are_replaced_everywhere, orderly, replaced_in};

verus! {

/// Whether an entry has the dependencies of another one, apart from some that point to the
/// definition of the same name in a schema instead.
pub open spec fn carried(e: EntryView, f: EntryView, schema: SchemaId) -> bool {
    &&& f.node == e.node
    &&& f.dependencies.dom() == e.dependencies.dom()
    &&& forall|k: DependencyKeyView| #[trigger]
        e.dependencies.contains_key(k) ==> {
            let d = e.dependencies[k];
            f.dependencies[k] == d || f.dependencies[k] == (DependencyView {
                ident: d.ident.in_schema(schema),
                ..d
            })
        }
}

/// Whether an entry of a schema was copied from an entry of another schema.
pub open spec fn copied(
    p: Map<IdentView, EntryView>,
    at: IdentView,
    f: EntryView,
    schema: SchemaId,
) -> bool {
    f.redefine_base matches Some(b) && p.contains_key(b) && b.schema != schema && at == b.in_schema(
        schema,
    ) && carried(p[b], f, schema)
}

/// What settling does to entries: those of other schemas stay as they are, those of the schema keep
/// their dependencies or let them point to the schema, and new ones are copies of entries of other
/// schemas.
pub open spec fn settled_from(
    schema: SchemaId,
    p: Map<IdentView, EntryView>,
    q: Map<IdentView, EntryView>,
) -> bool {
    &&& forall|at: IdentView| #[trigger]
        p.contains_key(at) && at.schema != schema ==> q.contains_key(at) && q[at] == p[at]
    &&& forall|at: IdentView| #[trigger]
        p.contains_key(at) && at.schema == schema ==> q.contains_key(at) && carried(
            p[at],
            q[at],
            schema,
        ) && q[at].redefine_base == p[at].redefine_base
    &&& forall|at: IdentView| #[trigger]
        q.contains_key(at) && !p.contains_key(at) ==> at.schema == schema && copied(
            p,
            at,
            q[at],
            schema,
        )
}

/// Dependencies that are carried over twice are carried over.
proof fn lemma_carried_trans(e: EntryView, f: EntryView, g: EntryView, schema: SchemaId)
    requires
        carried(e, f, schema),
        carried(f, g, schema),
    ensures
        carried(e, g, schema),
{
    assert forall|k: DependencyKeyView| #[trigger] e.dependencies.contains_key(k) implies ({
        let d = e.dependencies[k];
        g.dependencies[k] == d || g.dependencies[k] == (DependencyView {
            ident: d.ident.in_schema(schema),
            ..d
        })
    }) by {
        assert(f.dependencies.dom().contains(k));
        assert(f.dependencies.contains_key(k));
    }
}

/// Updating entries twice updates them.
proof fn lemma_settled_trans(
    schema: SchemaId,
    p: Map<IdentView, EntryView>,
    q: Map<IdentView, EntryView>,
    r: Map<IdentView, EntryView>,
)
    requires
        settled_from(schema, p, q),
        settled_from(schema, q, r),
    ensures
        settled_from(schema, p, r),
{
    assert forall|at: IdentView| #[trigger]
        p.contains_key(at) && at.schema != schema implies r.contains_key(at) && r[at] == p[at] by {
        assert(q.contains_key(at));
    }
    assert forall|at: IdentView| #[trigger]
        p.contains_key(at) && at.schema == schema implies r.contains_key(at) && carried(
        p[at],
        r[at],
        schema,
    ) && r[at].redefine_base == p[at].redefine_base by {
        assert(q.contains_key(at));
        lemma_carried_trans(p[at], q[at], r[at], schema);
    }
    assert forall|at: IdentView| #[trigger]
        r.contains_key(at) && !p.contains_key(at) implies at.schema == schema && copied(
        p,
        at,
        r[at],
        schema,
    ) by {
        if q.contains_key(at) {
            let b = q[at].redefine_base->0;
            lemma_carried_trans(p[b], q[at], r[at], schema);
        } else {
            let b = r[at].redefine_base->0;
            assert(q.contains_key(b));
            if !p.contains_key(b) {
                assert(b.schema == schema);
            }
        }
    }
}

/// One updated entry.
proof fn lemma_update_settled(
    at: IdentView,
    old_ident: IdentView,
    schema: SchemaId,
    p: Pending,
    mid: Pending,
)
    requires
        tidy(p.nodes, p.idents.idents),
        settled_from(schema, p.nodes, mid.nodes),
        at.schema != schema ==> not_yet_copied(schema, p.idents.idents).contains(at),
    ensures
        settled_from(schema, p.nodes, update_entry(at, old_ident, schema, mid).nodes),
{
    let q = update_entry(at, old_ident, schema, mid);
    if mid.nodes.contains_key(at) && !clear(mid.nodes[at], old_ident) {
        let old_entry = mid.nodes[at];
        let entry = crate::schemawalk::repointed(
            old_entry,
            old_ident,
            old_ident.in_schema(schema),
        );
        assert(entry.dependencies.dom() =~= old_entry.dependencies.dom());
        assert(carried(old_entry, entry, schema));
        if at.schema == schema {
            if p.nodes.contains_key(at) {
                lemma_carried_trans(p.nodes[at], old_entry, entry, schema);
            } else {
                let b = old_entry.redefine_base->0;
                lemma_carried_trans(p.nodes[b], old_entry, entry, schema);
            }
        } else {
            let c = at.in_schema(schema);
            assert(!p.idents.idents.contains(c));
            assert(!p.nodes.contains_key(c));
            if !p.nodes.contains_key(at) {
                assert(at.schema == schema);
            }
            assert(copied(p.nodes, c, q.nodes[c], schema));
        }
    }
}

/// A list of updated entries.
proof fn lemma_updates_settled(
    list: Seq<IdentView>,
    old_ident: IdentView,
    schema: SchemaId,
    p: Pending,
)
    requires
        tidy(p.nodes, p.idents.idents),
        forall|k: int|
            0 <= k < list.len() && (#[trigger] list[k]).schema != schema ==> not_yet_copied(
                schema,
                p.idents.idents,
            ).contains(list[k]),
    ensures
        settled_from(schema, p.nodes, update_entries(list, old_ident, schema, p).nodes),
    decreases list.len(),
{
    if list.len() > 0 {
        let front = list.drop_last();
        assert forall|k: int| 0 <= k < front.len() && (#[trigger] front[k]).schema
            != schema implies not_yet_copied(schema, p.idents.idents).contains(front[k]) by {
            assert(front[k] == list[k]);
        }
        lemma_updates_settled(front, old_ident, schema, p);
        assert(list.last() == list[list.len() - 1]);
        lemma_update_settled(
            list.last(),
            old_ident,
            schema,
            p,
            update_entries(front, old_ident, schema, p),
        );
    }
}

/// Settling keeps the dependencies of entries, apart from those that point to the schema instead.
/// Keys and strengths stay, entries of other schemas are left alone, and new entries are copies of
/// entries of other schemas.
pub proof fn law_settling_carries_dependencies(schema: SchemaId, p: Pending)
    requires
        p.idents.idents.finite(),
        p.work.finite(),
        tidy(p.nodes, p.idents.idents),
    ensures
        settled_from(schema, p.nodes, settle(schema, p).nodes),
    decreases not_yet_copied(schema, p.idents.idents).len(), p.work.len(),
{
    if p.work.len() > 0 {
        let old_ident = in_order::<TypeIdent>(p.work)[0];
        let start = Pending { work: p.work.remove(old_ident), ..p };
        let list = p.idents.schema_set(schema);
        let q = settle_one(schema, p);
        lemma_settle_one(schema, p);
        lemma_visible_list(schema, p.idents);
        lemma_updates_settled(list, old_ident, schema, start);
        crate::entrylaws::lemma_update_grows(list, old_ident, schema, start);
        law_settling_carries_dependencies(schema, q);
        lemma_settled_trans(schema, p.nodes, q.nodes, settle(schema, p).nodes);
    }
}

/// Every dependency of an entry of the schema that pointed to a replaced identifier points to the
/// definition of the schema instead, unless the entry redefines what it points to. The key and the
/// strength stay.
pub proof fn law_replaced_dependencies_point_to_the_schema(
    schema: SchemaId,
    p: Pending,
    at: IdentView,
    key: DependencyKeyView,
    w: IdentView,
)
    requires
        orderly(schema, p),
        tidy(p.nodes, p.idents.idents),
        p.work.contains(w),
        p.nodes.contains_key(at),
        at.schema == schema,
        p.nodes[at].redefine_base != Some(w),
        p.nodes[at].dependencies.contains_key(key),
        p.nodes[at].dependencies[key].ident == w,
    ensures
        ({
            let end = settle(schema, p);
            &&& end.nodes.contains_key(at)
            &&& end.nodes[at].dependencies.contains_key(key)
            &&& end.nodes[at].dependencies[key] == (DependencyView {
                ident: w.in_schema(schema),
                ..p.nodes[at].dependencies[key]
            })
        }),
{
    let end = settle(schema, p);
    law_settling_carries_dependencies(schema, p);
    crate::entrylaws::lemma_settle_grows(schema, p);
    assert(end.idents.idents.contains(at));
    law_replaced_identifiers_are_replaced_everywhere(schema, p, at, w);
    assert(end.nodes[at].dependencies.dom().contains(key));
    assert(end.nodes[at].dependencies.contains_key(key));
}

/// The schema has definitions of its own for what it replaces.
pub proof fn lemma_own_definitions(
    defs: Seq<Option<Definition>>,
    n: nat,
    base: SchemaId,
    st: CacheView,
    w: IdentView,
)
    requires
        st.in_schema(),
        redefinitions_run(defs, n, base, st).1 is None,
        replaced(defs, n, base, st).contains(w),
    ensures
        w.schema == base,
        redefinitions_run(defs, n, base, st).0.idents.idents.contains(
            w.in_schema(st.current_schema()),
        ),
    decreases n,
{
    if n > 0 {
        let m = (n - 1) as nat;
        let mid = redefinitions_run(defs, m, base, st).0;
        lemma_redefinitions(defs, m, base, st);
        lemma_same_schema(st, mid);
        if let Some((Some(name), node)) = defs[m as int] {
            lemma_redefine(name, base, node, mid);
            let own = st.redefined_ident(given(name), base, node);
            if w == own {
                assert(w.in_schema(st.current_schema()) == mid.ident_here(given(name), node));
            } else {
                lemma_own_definitions(defs, m, base, st, w);
            }
        } else {
            lemma_own_definitions(defs, m, base, st, w);
        }
    }
}

/// Once a schema has overridden or redefined definitions of another schema, nothing that it sees
/// depends on the replaced definitions any more, apart from the definitions that redefine them.
pub proof fn law_replaced_definitions_are_not_referred_to(
    defs: Seq<Option<Definition>>,
    base: SchemaId,
    st: CacheView,
    at: IdentView,
    w: IdentView,
)
    requires
        st.in_schema(),
        base != st.current_schema(),
        st.idents.idents.finite(),
        tidy(st.nodes, st.idents.idents),
        replace_run(defs, base, st).1 is None,
        replaced(defs, defs.len(), base, st).contains(w),
        replace_run(defs, base, st).0.nodes.contains_key(at),
        replace_run(defs, base, st).0.idents.visible(st.current_schema(), at),
    ensures
        clear(replace_run(defs, base, st).0.nodes[at], w),
{
    let n = defs.len();
    let schema = st.current_schema();
    let mid = redefinitions_run(defs, n, base, st).0;
    let work = replaced(defs, n, base, st);
    let p = Pending { nodes: mid.nodes, idents: mid.idents, work };
    lemma_redefinitions(defs, n, base, st);
    lemma_same_schema(st, mid);
    lemma_replaced_finite(defs, n, base, st);
    assert forall|x: IdentView| #[trigger] work.contains(x) implies replaced_in(
        schema,
        mid.idents.idents,
        x,
    ) by {
        lemma_own_definitions(defs, n, base, st, x);
    }
    law_replaced_identifiers_are_replaced_everywhere(schema, p, at, w);
}

} // verus!
