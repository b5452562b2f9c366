//! What is copied because of a redefinition or an override takes the place of what it is copied from.

use vstd::prelude::*;

use crate::entrylaws::{lemma_redefinitions, lemma_replaced_finite, replacing, tidy};
use crate::ident::{IdentView, TypeIdent};
use crate::identcache::IdentCacheView;
use crate::models::SchemaId;
use crate::nodes::EntryView;
use crate::order::in_order;
use crate::partlaws::{lemma_replacing, replaces_at};
use crate::replacelaws::{
    copied, law_settling_carries_dependencies, lemma_own_definitions, settled_from,
};
use crate::schemawalk::{
    clear, lemma_same_schema, lemma_settle_one, not_yet_copied, part_run, points_to,
    redefinitions_run, replaced, settle, settle_one, update_entries, update_entry, Pending,
};
use crate::steps::{DependencyKeyView, NodeView};
use crate::walk::CacheView;
use crate::walklaws::{done, lemma_settle_one_done, orderly, replaced_in};
use crate::xs::SchemaContent;

verus! {

/// Whether everything that was copied so far is copied from something that is dealt with, or is
/// about to be.
spec fn copies_queued(
    before: Map<IdentView, EntryView>,
    p: Pending,
    ds: Set<IdentView>,
) -> bool {
    forall|x: IdentView| #[trigger]
        p.nodes.contains_key(x) && !before.contains_key(x) ==> (p.nodes[x].redefine_base matches Some(
            b,
        ) && (ds.contains(b) || p.work.contains(b)))
}

/// Whether nothing that a schema sees depends on an identifier, apart from what redefines it.
pub open spec fn cleared(
    schema: SchemaId,
    nodes: Map<IdentView, EntryView>,
    c: IdentCacheView,
    d: IdentView,
) -> bool {
    forall|at: IdentView, key: DependencyKeyView|
        #![trigger nodes[at].dependencies[key]]
        {
            &&& nodes.contains_key(at)
            &&& c.visible(schema, at)
            &&& nodes[at].redefine_base != Some(d)
            &&& nodes[at].dependencies.contains_key(key)
        } ==> nodes[at].dependencies[key].ident != d
}

/// What is copied is about to be dealt with.
proof fn lemma_updates_queued(
    list: Seq<IdentView>,
    old_ident: IdentView,
    schema: SchemaId,
    p: Pending,
    before: Map<IdentView, EntryView>,
    ds: Set<IdentView>,
)
    requires
        copies_queued(before, p, ds),
    ensures
        copies_queued(before, update_entries(list, old_ident, schema, p), ds),
    decreases list.len(),
{
    if list.len() > 0 {
        let mid = update_entries(list.drop_last(), old_ident, schema, p);
        lemma_updates_queued(list.drop_last(), old_ident, schema, p, before, ds);
        let q = update_entry(list.last(), old_ident, schema, mid);
        assert forall|x: IdentView| #[trigger]
            q.nodes.contains_key(x) && !before.contains_key(x) implies (
        q.nodes[x].redefine_base matches Some(b) && (ds.contains(b) || q.work.contains(b))) by {
            if mid.nodes.contains_key(x) {
                assert(mid.nodes[x].redefine_base is Some);
            }
        }
    }
}

/// Everything that is copied is dealt with in the end.
proof fn lemma_settle_queued(
    schema: SchemaId,
    p: Pending,
    before: Map<IdentView, EntryView>,
    ds: Set<IdentView>,
    x: IdentView,
)
    requires
        orderly(schema, p),
        done(schema, p, ds),
        forall|d: IdentView| #[trigger]
            ds.contains(d) ==> replaced_in(schema, p.idents.idents, d),
        copies_queued(before, p, ds),
        settle(schema, p).nodes.contains_key(x),
        !before.contains_key(x),
    ensures
        settle(schema, p).nodes[x].redefine_base matches Some(b) && cleared(
            schema,
            settle(schema, p).nodes,
            settle(schema, p).idents,
            b,
        ),
    decreases not_yet_copied(schema, p.idents.idents).len(), p.work.len(),
{
    if p.work.len() == 0 {
        assert(p.work =~= Set::empty());
        let b = p.nodes[x].redefine_base->0;
        assert(ds.contains(b));
        assert forall|at: IdentView, key: DependencyKeyView|
            #![trigger p.nodes[at].dependencies[key]]
            {
                &&& p.nodes.contains_key(at)
                &&& p.idents.visible(schema, at)
                &&& p.nodes[at].redefine_base != Some(b)
                &&& p.nodes[at].dependencies.contains_key(key)
            } implies p.nodes[at].dependencies[key].ident != b by {
            assert(clear(p.nodes[at], b));
            assert(!points_to(p.nodes[at], b));
        }
    } else {
        lemma_settle_one(schema, p);
        lemma_settle_one_done(schema, p, ds);
        let old_ident = in_order::<TypeIdent>(p.work)[0];
        let start = Pending { work: p.work.remove(old_ident), ..p };
        let q = settle_one(schema, p);
        let more = ds.insert(old_ident);
        assert(copies_queued(before, start, more)) by {
            assert forall|y: IdentView| #[trigger]
                start.nodes.contains_key(y) && !before.contains_key(y) implies (
            start.nodes[y].redefine_base matches Some(b) && (more.contains(b)
                || start.work.contains(b))) by {
                assert(p.nodes.contains_key(y));
            }
        }
        lemma_updates_queued(
            p.idents.schema_set(schema),
            old_ident,
            schema,
            start,
            before,
            more,
        );
        assert forall|d: IdentView| #[trigger] more.contains(d) implies replaced_in(
            schema,
            q.idents.idents,
            d,
        ) by {
            assert(replaced_in(schema, p.idents.idents, d));
        }
        lemma_settle_queued(schema, q, before, more, x);
    }
}

/// Once a schema has redefined or overridden definitions of another schema, every entry that it has
/// besides those definitions and what it had before is a copy of an entry of another schema: it has
/// the same node, and redefines the entry that it was copied from. Nothing that the schema sees
/// depends on that entry any more, apart from what redefines it, so that what depends on something
/// that was copied is copied in its turn.
pub proof fn law_copies_take_the_place_of_what_they_copy(
    c: SchemaContent,
    l: Seq<char>,
    k: int,
    base: SchemaId,
    st: CacheView,
    name: Seq<char>,
    node: NodeView,
    x: IdentView,
)
    requires
        st.in_schema(),
        base != st.current_schema(),
        st.idents.idents.finite(),
        tidy(st.nodes, st.idents.idents),
        replaces_at(c, l, k, name, node),
        part_run(c, base, st).1 is None,
        part_run(c, base, st).0.nodes.contains_key(x),
        !redefinitions_run(replacing(c), replacing(c).len(), base, st).0.nodes.contains_key(x),
    ensures
        ({
            let end = part_run(c, base, st).0;
            let read = redefinitions_run(replacing(c), replacing(c).len(), base, st).0;
            &&& x.schema == st.current_schema()
            &&& end.nodes[x].redefine_base matches Some(b) && {
                &&& b.schema != x.schema
                &&& x == (IdentView { schema: x.schema, ..b })
                &&& read.nodes.contains_key(b)
                &&& end.nodes[x].node == read.nodes[b].node
                &&& cleared(st.current_schema(), end.nodes, end.idents, b)
            }
        }),
{
    let defs = replacing(c);
    let n = defs.len();
    let schema = st.current_schema();
    lemma_replacing(c, l, k, name, node);
    let mid = redefinitions_run(defs, n, base, st).0;
    let work = replaced(defs, n, base, st);
    let p = Pending { nodes: mid.nodes, idents: mid.idents, work };
    lemma_redefinitions(defs, n, base, st);
    lemma_same_schema(st, mid);
    lemma_replaced_finite(defs, n, base, st);
    assert forall|w: IdentView| #[trigger] work.contains(w) implies replaced_in(
        schema,
        mid.idents.idents,
        w,
    ) by {
        lemma_own_definitions(defs, n, base, st, w);
    }
    assert(orderly(schema, p));
    lemma_settle_queued(schema, p, p.nodes, Set::empty(), x);
    law_settling_carries_dependencies(schema, p);
    assert(settled_from(schema, p.nodes, settle(schema, p).nodes));
    assert(copied(p.nodes, x, settle(schema, p).nodes[x], schema));
}

} // verus!
