//! Every entry of the node cache records what stands in its definition, and nothing else.

use vstd::prelude::*;

use crate::contents::{kind_of, place_key, stands_in, Item};
use crate::ident::{IdentType, IdentView, NameView};
use crate::identcache::IdentCacheView;
use crate::keys::{lemma_depending, lemma_inline_below, lemma_within_active};
use crate::models::{local_part, NamespaceId, QNameView, SchemaId};
use crate::nodes::{DependencyView, EntryView};
use crate::schemas::SchemasView;
use crate::schemawalk::{define, given, redefine};
use crate::stepcontents::{gives, lemma_node_steps, sound, step_gives, step_sound};
use crate::steps::{node_steps, DependencyKeyView, Naming, NodeView, Step, Strength};
use crate::text::text_of;
use crate::walk::{
    active_at, inline_name, lemma_entered, lemma_positions, lemma_pushed, lemma_run_kept,
    lemma_shape_positions, marker_level, name_on, named_on, parsed_name, run, run_step, same_level,
    same_shape, schema_at, CacheView, StackView,
};
use crate::walklaws::law_resolved_names_fit;

verus! {

/// The namespace of a name that stands in a schema: the one that the name has, or else that of the
/// schema. It may be unknown.
pub open spec fn space_of(
    schemas: SchemasView,
    ns: NamespaceId,
    name: QNameView,
) -> Option<NamespaceId> {
    if name.ns is None {
        Some(ns)
    } else if schemas.known_namespaces.contains_key(name.ns) {
        Some(schemas.known_namespaces[name.ns])
    } else {
        None
    }
}

/// The key under which an entry of a schema depends on something that stands in its definition: the
/// namespace, the kind and the local part of a name, or the number of a definition in place.
pub open spec fn item_key(
    schemas: SchemasView,
    ns: NamespaceId,
    i: Item,
) -> Option<DependencyKeyView> {
    match i {
        Item::Name { kind, name, .. } => match (
            space_of(schemas, ns, name),
            text_of(local_part(name.raw)),
        ) {
            (Some(space), Some(text)) => Some(DependencyKeyView::Named(space, kind, text)),
            _ => None,
        },
        Item::InPlace { node, .. } => place_key(node),
    }
}

/// Whether a dependency is on what stands in a definition: on a definition of the kind, the
/// namespace and the text of a name, as strong as the name is, or weakly on a definition of the kind
/// of one in place, in the namespace of the schema.
pub open spec fn explains(
    schemas: SchemasView,
    ns: NamespaceId,
    i: Item,
    d: DependencyView,
) -> bool {
    match i {
        Item::Name { kind, name, strength } => {
            &&& d.strength == strength
            &&& d.ident.type_ == kind
            &&& Some(d.ident.ns) == space_of(schemas, ns, name)
            &&& Some(d.ident.name.text) == text_of(local_part(name.raw))
        },
        Item::InPlace { node, .. } => {
            &&& d.strength == Strength::Weak
            &&& d.ident.type_ == kind_of(node)
            &&& d.ident.ns == ns
        },
    }
}

/// Whether some dependencies of an entry of a schema are those that stand in a definition: each
/// thing that stands in it has its key, and each dependency is on something that stands in it.
pub open spec fn recorded(
    schemas: SchemasView,
    ns: NamespaceId,
    node: NodeView,
    dependencies: Map<DependencyKeyView, DependencyView>,
) -> bool {
    &&& forall|i: Item| #[trigger]
        stands_in(node, i) ==> (item_key(schemas, ns, i) matches Some(k)
            && dependencies.contains_key(k))
    &&& forall|k: DependencyKeyView| #[trigger]
        dependencies.contains_key(k) ==> exists|i: Item| #[trigger]
            stands_in(node, i) && item_key(schemas, ns, i) == Some(k) && explains(
                schemas,
                ns,
                i,
                dependencies[k],
            )
}

/// Whether every entry records what stands in its definition.
#[verifier::opaque]
pub open spec fn all_recorded(schemas: SchemasView, nodes: Map<IdentView, EntryView>) -> bool {
    forall|at: IdentView| #[trigger]
        nodes.contains_key(at) ==> recorded(
            schemas,
            at.ns,
            nodes[at].node,
            nodes[at].dependencies,
        )
}

/// One more entry that records what stands in its definition.
pub proof fn lemma_recorded_insert(
    schemas: SchemasView,
    nodes: Map<IdentView, EntryView>,
    at: IdentView,
    entry: EntryView,
)
    requires
        all_recorded(schemas, nodes),
        recorded(schemas, at.ns, entry.node, entry.dependencies),
    ensures
        all_recorded(schemas, nodes.insert(at, entry)),
{
    reveal(all_recorded);
    let more = nodes.insert(at, entry);
    assert forall|x: IdentView| #[trigger] more.contains_key(x) implies recorded(
        schemas,
        x.ns,
        more[x].node,
        more[x].dependencies,
    ) by {
        if x != at {
            assert(nodes.contains_key(x));
        }
    }
}

/// Whether a name refers to an identifier at some moment between two states of a walk: with the
/// identifiers that were known at that moment.
pub open spec fn resolves_between(
    st: CacheView,
    end: CacheView,
    name: QNameView,
    kind: IdentType,
    ident: IdentView,
) -> bool {
    exists|known: Set<IdentView>|
        {
            &&& st.idents.idents.subset_of(known)
            &&& known.subset_of(end.idents.idents)
            &&& #[trigger] (CacheView {
                idents: IdentCacheView { idents: known, ..st.idents },
                ..st
            }).resolved(name, kind) == Ok::<IdentView, crate::identcache::ErrorView>(ident)
        }
}

/// Whether a definition in place is called as it should be where it stands: in a walk, within some
/// groups of the innermost definition.
pub open spec fn named_right(stack: Seq<StackView>, naming: Naming, name: NameView) -> bool {
    exists|groups: Seq<StackView>, id: usize|
        {
            &&& forall|j: int|
                0 <= j < groups.len() ==> #[trigger] groups[j] is Group
                    || groups[j] is AttributeGroup
            &&& name == #[trigger] inline_name(naming, id, stack + groups)
        }
}

/// Whether a dependency that came about between two states of a walk points to what it should: a
/// name to what it refers to, and a definition in place to an entry of the schema that is called as
/// it should be.
pub open spec fn points_right(
    st: CacheView,
    end: CacheView,
    i: Item,
    d: DependencyView,
) -> bool {
    match i {
        Item::Name { kind, name, .. } => resolves_between(st, end, name, kind, d.ident),
        Item::InPlace { naming, .. } => {
            &&& d.ident.schema == st.current_schema()
            &&& end.nodes.contains_key(d.ident)
            &&& end.idents.idents.contains(d.ident)
            &&& named_right(st.stack, naming, d.ident.name)
        },
    }
}

/// Whether a dependency that came about between two states is on an item, and points right.
pub open spec fn comes_from(st: CacheView, end: CacheView, i: Item, d: DependencyView) -> bool {
    explains(st.schemas, st.current_ns(), i, d) && points_right(st, end, i, d)
}

/// What steps of some items do to the innermost entry and to the finished ones.
pub open spec fn walked(st: CacheView, end: CacheView, items: spec_fn(Item) -> bool) -> bool {
    let ns = st.current_ns();
    let before = st.active().dependencies;
    let after = end.active().dependencies;
    &&& forall|i: Item| #[trigger]
        items(i) ==> (item_key(st.schemas, ns, i) matches Some(k) && after.contains_key(k))
    &&& forall|k: DependencyKeyView| #[trigger]
        before.contains_key(k) ==> after.contains_key(k)
    &&& forall|k: DependencyKeyView| #[trigger]
        after.contains_key(k) ==> (before.contains_key(k) && after[k] == before[k]) || exists|
            i: Item,
        | #[trigger] items(i) && item_key(st.schemas, ns, i) == Some(k) && comes_from(
            st,
            end,
            i,
            after[k],
        )
    &&& st.idents.idents.subset_of(end.idents.idents)
    &&& forall|at: IdentView| #[trigger] st.nodes.contains_key(at) ==> end.nodes.contains_key(at)
    &&& all_recorded(st.schemas, st.nodes) ==> all_recorded(st.schemas, end.nodes)
}

/// States of the same shape have the same schema, namespace and redefined entry.
proof fn lemma_same_place(a: CacheView, b: CacheView)
    requires
        crate::walk::kept(a, b),
        a.in_entry(),
    ensures
        b.in_entry(),
        a.current_ns() == b.current_ns(),
        a.current_schema() == b.current_schema(),
        a.active().redefine_base == b.active().redefine_base,
        a.active().node == b.active().node,
        a.active_ident() == b.active_ident(),
{
    lemma_shape_positions(a.stack, b.stack);
    assert(same_level(a.stack[schema_at(a.stack)], b.stack[schema_at(a.stack)]));
    assert(same_level(a.stack[active_at(a.stack)], b.stack[active_at(a.stack)]));
}

/// What a name refers to depends on the place in the walk and on the known identifiers.
proof fn lemma_resolves_alike(
    a: CacheView,
    b: CacheView,
    name: QNameView,
    kind: IdentType,
)
    requires
        a.schemas == b.schemas,
        a.idents == b.idents,
        a.current_ns() == b.current_ns(),
        a.current_schema() == b.current_schema(),
        a.active().redefine_base == b.active().redefine_base,
    ensures
        a.resolved(name, kind) == b.resolved(name, kind),
{
}

/// Names depend on the shape of the stack alone.
proof fn lemma_names_alike(a: Seq<StackView>, b: Seq<StackView>, stop: bool)
    requires
        same_shape(a, b),
    ensures
        named_on(a) == named_on(b),
        name_on(a, stop) == name_on(b, stop),
    decreases a.len(),
{
    if a.len() > 0 {
        let n = a.len() - 1;
        assert(same_level(a[n], b[n]));
        assert forall|i: int|
            #![trigger a.drop_last()[i]]
            #![trigger b.drop_last()[i]]
            0 <= i < n implies same_level(a.drop_last()[i], b.drop_last()[i]) by {
            assert(same_level(a[i], b[i]));
        }
        lemma_names_alike(a.drop_last(), b.drop_last(), stop);
    }
}

/// What is called as it should be within some groups is so around them.
proof fn lemma_named_wider(
    a: Seq<StackView>,
    outer: Seq<StackView>,
    b: Seq<StackView>,
    naming: Naming,
    name: NameView,
)
    requires
        same_shape(a + outer, b),
        forall|j: int|
            0 <= j < outer.len() ==> #[trigger] outer[j] is Group || outer[j] is AttributeGroup,
        named_right(b, naming, name),
    ensures
        named_right(a, naming, name),
{
    let (groups, id) = choose|groups: Seq<StackView>, id: usize|
        {
            &&& forall|j: int|
                0 <= j < groups.len() ==> #[trigger] groups[j] is Group
                    || groups[j] is AttributeGroup
            &&& name == #[trigger] inline_name(naming, id, b + groups)
        };
    let x = a + (outer + groups);
    let y = b + groups;
    assert forall|i: int|
        #![trigger x[i]]
        #![trigger y[i]]
        0 <= i < x.len() implies same_level(x[i], y[i]) by {
        if i < b.len() {
            assert(same_level((a + outer)[i], b[i]));
        }
    }
    lemma_names_alike(x, y, true);
    lemma_names_alike(x, y, false);
    assert(name == inline_name(naming, id, a + (outer + groups)));
}

/// A dependency that came about in a part of a walk came about in the whole.
proof fn lemma_comes_wider(
    st: CacheView,
    outer: Seq<StackView>,
    from: CacheView,
    to: CacheView,
    end: CacheView,
    i: Item,
    d: DependencyView,
)
    requires
        comes_from(from, to, i, d),
        st.schemas == from.schemas,
        same_shape(st.stack + outer, from.stack),
        forall|j: int|
            0 <= j < outer.len() ==> #[trigger] outer[j] is Group || outer[j] is AttributeGroup,
        st.idents.scopes == from.idents.scopes,
        st.idents.globals == from.idents.globals,
        st.current_ns() == from.current_ns(),
        st.current_schema() == from.current_schema(),
        st.active().redefine_base == from.active().redefine_base,
        st.idents.idents.subset_of(from.idents.idents),
        to.idents.idents.subset_of(end.idents.idents),
        forall|at: IdentView| #[trigger] to.nodes.contains_key(at) ==> end.nodes.contains_key(at),
    ensures
        comes_from(st, end, i, d),
{
    if let Item::Name { kind, name, .. } = i {
        let known = choose|known: Set<IdentView>|
            {
                &&& from.idents.idents.subset_of(known)
                &&& known.subset_of(to.idents.idents)
                &&& #[trigger] (CacheView {
                    idents: IdentCacheView { idents: known, ..from.idents },
                    ..from
                }).resolved(name, kind) == Ok::<IdentView, crate::identcache::ErrorView>(d.ident)
            };
        let a = CacheView { idents: IdentCacheView { idents: known, ..from.idents }, ..from };
        let b = CacheView { idents: IdentCacheView { idents: known, ..st.idents }, ..st };
        lemma_resolves_alike(a, b, name, kind);
    }
    if let Item::InPlace { naming, .. } = i {
        lemma_named_wider(st.stack, outer, from.stack, naming, d.ident.name);
    }
}

/// Walks one after the other.
proof fn lemma_walked_trans(
    st: CacheView,
    mid: CacheView,
    end: CacheView,
    p: spec_fn(Item) -> bool,
    q: spec_fn(Item) -> bool,
    items: spec_fn(Item) -> bool,
)
    requires
        st.in_entry(),
        crate::walk::kept(st, mid),
        walked(st, mid, p),
        walked(mid, end, q),
        forall|i: Item| #[trigger] items(i) <==> p(i) || q(i),
    ensures
        walked(st, end, items),
{
    lemma_same_place(st, mid);
    let none = Seq::<StackView>::empty();
    assert(st.stack + none =~= st.stack);
    let ns = st.current_ns();
    let before = st.active().dependencies;
    let half = mid.active().dependencies;
    let after = end.active().dependencies;
    assert forall|i: Item| #[trigger] items(i) implies (item_key(st.schemas, ns, i) matches Some(k)
        && after.contains_key(k)) by {
        if p(i) {
            assert(half.contains_key(item_key(st.schemas, ns, i)->0));
        } else {
            assert(q(i));
        }
    }
    assert forall|k: DependencyKeyView| #[trigger] before.contains_key(k) implies
        after.contains_key(k) by {
        assert(half.contains_key(k));
    }
    assert forall|k: DependencyKeyView| #[trigger] after.contains_key(k) implies (
    before.contains_key(k) && after[k] == before[k]) || exists|i: Item| #[trigger]
        items(i) && item_key(st.schemas, ns, i) == Some(k) && comes_from(
            st,
            end,
            i,
            after[k],
        ) by {
        if half.contains_key(k) && after[k] == half[k] {
            if !(before.contains_key(k) && half[k] == before[k]) {
                let i = choose|i: Item| #[trigger]
                    p(i) && item_key(st.schemas, ns, i) == Some(k) && comes_from(
                        st,
                        mid,
                        i,
                        half[k],
                    );
                lemma_comes_wider(st, none, st, mid, end, i, half[k]);
                assert(items(i));
            }
        } else {
            let i = choose|i: Item| #[trigger]
                q(i) && item_key(mid.schemas, ns, i) == Some(k) && comes_from(
                    mid,
                    end,
                    i,
                    after[k],
                );
            lemma_comes_wider(st, none, mid, end, end, i, after[k]);
            assert(items(i));
        }
    }
    assert forall|at: IdentView| #[trigger] st.nodes.contains_key(at) implies end.nodes.contains_key(
        at,
    ) by {
        assert(mid.nodes.contains_key(at));
    }
}

/// What steps do.
pub proof fn lemma_run_items(steps: Seq<Step>, st: CacheView)
    requires
        st.in_entry(),
        sound(steps),
        run(steps, st).1 is None,
    ensures
        walked(st, run(steps, st).0, |i: Item| gives(steps, i)),
    decreases steps,
{
    reveal_with_fuel(run, 1);
    let items = |i: Item| gives(steps, i);
    if steps.len() > 0 {
        let front = steps.drop_last();
        let last = steps.last();
        let mid = run(front, st).0;
        let p = |i: Item| gives(front, i);
        let q = |i: Item| step_gives(last, i);
        lemma_run_items(front, st);
        lemma_run_kept(front, st);
        lemma_step_items(last, mid);
        lemma_walked_trans(st, mid, run(steps, st).0, p, q, items);
    }
}

/// What a step does.
pub proof fn lemma_step_items(step: Step, st: CacheView)
    requires
        st.in_entry(),
        step_sound(step),
        run_step(step, st).1 is None,
    ensures
        walked(st, run_step(step, st).0, |i: Item| step_gives(step, i)),
    decreases step,
{
    reveal_with_fuel(run, 1);
    let items = |i: Item| step_gives(step, i);
    let end = run_step(step, st).0;
    lemma_positions(st.stack);
    match step {
        Step::Reference { kind, name, strength } => {
            lemma_reference_items(kind, name, strength, st);
        },
        Step::Within { marker, body } => {
            let inner = st.pushed(marker_level(marker));
            let outer = seq![marker_level(marker)];
            assert(st.stack + outer =~= inner.stack);
            lemma_pushed(st.stack, marker_level(marker));
            lemma_run_items(body, inner);
            lemma_within_active(step, st);
            let done = run(body, inner).0;
            let p = |i: Item| gives(body, i);
            assert(inner.current_ns() == st.current_ns());
            assert(inner.current_schema() == st.current_schema());
            assert forall|i: Item| #[trigger] items(i) implies p(i) by {}
            assert forall|k: DependencyKeyView| #[trigger]
                end.active().dependencies.contains_key(k) implies (
            st.active().dependencies.contains_key(k) && end.active().dependencies[k]
                == st.active().dependencies[k]) || exists|i: Item| #[trigger]
                items(i) && item_key(st.schemas, st.current_ns(), i) == Some(k) && comes_from(
                    st,
                    end,
                    i,
                    end.active().dependencies[k],
                ) by {
                let d = end.active().dependencies[k];
                if !(st.active().dependencies.contains_key(k) && d
                    == st.active().dependencies[k]) {
                    let i = choose|i: Item| #[trigger]
                        p(i) && item_key(st.schemas, st.current_ns(), i) == Some(k) && comes_from(
                            inner,
                            done,
                            i,
                            d,
                        );
                    lemma_comes_wider(st, outer, inner, done, end, i, d);
                    assert(items(i));
                }
            }
        },
        Step::Inline { node, naming, key, body } => {
            lemma_inline_items(step, st);
        },
    }
}

/// What a reference does.
proof fn lemma_reference_items(kind: IdentType, name: QNameView, strength: Strength, st: CacheView)
    requires
        st.in_entry(),
        st.refer(kind, name, strength).1 is None,
    ensures
        walked(
            st,
            st.refer(kind, name, strength).0,
            |i: Item| step_gives(Step::Reference { kind, name, strength }, i),
        ),
{
    let items = |i: Item| step_gives(Step::Reference { kind, name, strength }, i);
    let end = st.refer(kind, name, strength).0;
    let (space, text) = parsed_name(st.schemas, st.current_ns(), name)->Ok_0;
    let key = DependencyKeyView::Named(space, kind, text);
    let ident = st.resolved(name, kind)->Ok_0;
    let d = DependencyView { strength, ident };
    let item = Item::Name { kind, name, strength };
    lemma_depending(st, key, d);
    law_resolved_names_fit(st, name, kind);
    assert(items(item));
    assert(item_key(st.schemas, st.current_ns(), item) == Some(key));
    assert(resolves_between(st, end, name, kind, ident)) by {
        let same = CacheView {
            idents: IdentCacheView { idents: st.idents.idents, ..st.idents },
            ..st
        };
        assert(same == st);
        assert(same.resolved(name, kind) == Ok::<IdentView, crate::identcache::ErrorView>(ident));
    }
    assert(comes_from(st, end, item, d));
}

/// What a definition in place does.
proof fn lemma_inline_items(step: Step, st: CacheView)
    requires
        st.in_entry(),
        step is Inline,
        step_sound(step),
        run_step(step, st).1 is None,
    ensures
        walked(st, run_step(step, st).0, |i: Item| step_gives(step, i)),
    decreases step, 0nat,
{
    reveal_with_fuel(run, 1);
    let items = |i: Item| step_gives(step, i);
    let end = run_step(step, st).0;
    lemma_positions(st.stack);
    if let Step::Inline { node, naming, key, body } = step {
        let name = inline_name(naming, st.next_id, st.stack);
        let named = CacheView { next_id: st.next_id.wrapping_add(1), ..st };
        let inner = named.opened(name, node);
        let n = st.stack.len();
        lemma_pushed(st.stack, inner.stack.last());
        lemma_run_items(body, inner);
        lemma_run_kept(body, inner);
        let done = run(body, inner).0;
        lemma_shape_positions(inner.stack, done.stack);
        assert(same_level(inner.stack[n as int], done.stack[n as int]));
        assert(done.stack.last() == done.stack[n as int]);
        let ident = st.ident_here(name, node);
        assert(done.stack.last()->ident == ident);
        lemma_node_steps(node);
        assert(inner.active().dependencies == Map::<DependencyKeyView, DependencyView>::empty());
        assert(done.active() == done.stack.last()->entry);
        lemma_closing(inner, done, node, body);
        lemma_inline_below(step, st);
        let item = Item::InPlace { node, naming };
        let d = DependencyView { strength: Strength::Weak, ident };
        assert(items(item));
        assert(end.nodes == done.closed().nodes);
        assert(end.idents == done.closed().idents);
        assert(end.nodes.contains_key(ident));
        assert(named_right(st.stack, naming, name)) by {
            let none = Seq::<StackView>::empty();
            assert(st.stack + none =~= st.stack);
            assert(name == inline_name(naming, st.next_id, st.stack + none));
        }
        assert(comes_from(st, end, item, d));
        assert(end.active().dependencies == st.active().dependencies.insert(key, d));
        assert forall|at: IdentView| #[trigger] st.nodes.contains_key(at) implies
            end.nodes.contains_key(at) by {
            assert(done.nodes.contains_key(at));
        }
    }
}

/// An entry that is closed once the steps of its definition were taken records what stands in it.
proof fn lemma_closing(inner: CacheView, done: CacheView, node: NodeView, body: Seq<Step>)
    requires
        inner.in_entry(),
        body == node_steps(node),
        inner.stack.len() > 0,
        inner.stack.last() is Node,
        inner.stack.last()->entry.node == node,
        inner.stack.last()->ident.ns == inner.current_ns(),
        inner.active() == inner.stack.last()->entry,
        inner.active().dependencies == Map::<DependencyKeyView, DependencyView>::empty(),
        crate::walk::kept(inner, done),
        walked(inner, done, |i: Item| gives(body, i)),
        done.active() == done.stack.last()->entry,
        done.stack.last()->ident == inner.stack.last()->ident,
        done.stack.last() is Node,
    ensures
        recorded(
            inner.schemas,
            inner.current_ns(),
            node,
            done.stack.last()->entry.dependencies,
        ),
        done.stack.last()->entry.node == node,
        all_recorded(inner.schemas, inner.nodes) ==> all_recorded(
            inner.schemas,
            done.closed().nodes,
        ),
{
    let items = |i: Item| gives(body, i);
    let deps = done.stack.last()->entry.dependencies;
    lemma_node_steps(node);
    lemma_same_place(inner, done);
    assert forall|i: Item| #[trigger] stands_in(node, i) implies (item_key(
        inner.schemas,
        inner.current_ns(),
        i,
    ) matches Some(k) && deps.contains_key(k)) by {
        assert(gives(node_steps(node), i));
        assert(items(i));
    }
    assert forall|k: DependencyKeyView| #[trigger] deps.contains_key(k) implies
        exists|i: Item| #[trigger]
        stands_in(node, i) && item_key(inner.schemas, inner.current_ns(), i) == Some(k)
            && explains(inner.schemas, inner.current_ns(), i, deps[k]) by {
        let i = choose|i: Item| #[trigger]
            items(i) && item_key(inner.schemas, inner.current_ns(), i) == Some(k) && comes_from(
                inner,
                done,
                i,
                deps[k],
            );
        assert(gives(node_steps(node), i));
        assert(stands_in(node, i));
    }
    if all_recorded(inner.schemas, inner.nodes) {
        lemma_recorded_insert(
            inner.schemas,
            done.nodes,
            done.stack.last()->ident,
            done.stack.last()->entry,
        );
    }
}

/// Whether the entry that comes of a definition records what stands in the definition, where it
/// points to what it should.
pub open spec fn records(
    st: CacheView,
    end: CacheView,
    node: NodeView,
    entry: EntryView,
) -> bool {
    &&& entry.node == node
    &&& recorded(st.schemas, st.current_ns(), node, entry.dependencies)
    &&& forall|k: DependencyKeyView| #[trigger]
        entry.dependencies.contains_key(k) ==> exists|i: Item| #[trigger]
            stands_in(node, i) && item_key(st.schemas, st.current_ns(), i) == Some(k)
                && comes_from(st, end, i, entry.dependencies[k])
}

/// What comes of the steps of a definition whose entry was opened.
pub proof fn lemma_defining(st: CacheView, inner: CacheView, node: NodeView)
    requires
        st.in_schema(),
        inner.stack.len() > 0,
        inner.stack.last() is Node,
        inner.stack == st.stack.push(inner.stack.last()),
        inner.stack.last()->entry.node == node,
        inner.stack.last()->ident.ns == st.current_ns(),
        inner.stack.last()->entry.dependencies == Map::<
            DependencyKeyView,
            DependencyView,
        >::empty(),
        inner.schemas == st.schemas,
        inner.nodes == st.nodes,
        run(node_steps(node), inner).1 is None,
    ensures
        ({
            let done = run(node_steps(node), inner).0;
            let entry = done.stack.last()->entry;
            &&& done.stack.last()->ident == inner.stack.last()->ident
            &&& entry.redefine_base == inner.stack.last()->entry.redefine_base
            &&& records(inner, done.closed(), node, entry)
            &&& all_recorded(st.schemas, st.nodes) ==> all_recorded(
                st.schemas,
                done.closed().nodes,
            )
            &&& forall|at: IdentView| #[trigger]
                st.nodes.contains_key(at) ==> done.nodes.contains_key(at)
        }),
{
    let steps = node_steps(node);
    let n = st.stack.len();
    lemma_pushed(st.stack, inner.stack.last());
    lemma_positions(st.stack);
    lemma_entered(st, inner, steps);
    lemma_node_steps(node);
    lemma_run_items(steps, inner);
    lemma_run_kept(steps, inner);
    let done = run(steps, inner).0;
    let items = |i: Item| gives(steps, i);
    lemma_shape_positions(inner.stack, done.stack);
    assert(same_level(inner.stack[n as int], done.stack[n as int]));
    assert(done.stack.last() == done.stack[n as int]);
    lemma_closing(inner, done, node, steps);
    let deps = done.stack.last()->entry.dependencies;
    assert forall|k: DependencyKeyView| #[trigger] deps.contains_key(k) implies
        exists|i: Item| #[trigger]
        stands_in(node, i) && item_key(inner.schemas, inner.current_ns(), i) == Some(k)
            && comes_from(inner, done.closed(), i, deps[k]) by {
        let i = choose|i: Item| #[trigger]
            items(i) && item_key(inner.schemas, inner.current_ns(), i) == Some(k) && comes_from(
                inner,
                done,
                i,
                deps[k],
            );
        assert(inner.stack + Seq::<StackView>::empty() =~= inner.stack);
        lemma_comes_wider(
            inner,
            Seq::empty(),
            inner,
            done,
            done.closed(),
            i,
            deps[k],
        );
        assert(gives(node_steps(node), i));
        assert(stands_in(node, i));
    }
}

/// The identifier of a definition of the current schema.
pub open spec fn declared(st: CacheView, name: Seq<char>, node: NodeView) -> IdentView {
    IdentView {
        ns: st.current_ns(),
        schema: st.current_schema(),
        name: NameView { named: true, text: name },
        type_: kind_of(node),
    }
}

/// A definition that is read without an error has an entry under its namespace, its schema, its name
/// and its kind. The entry redefines nothing. It has a dependency for every name that stands in the
/// definition and for everything that is defined in place there, and no others: on what the name
/// refers to in the schema, as strong as the name is, or weakly on the entry of what is defined in
/// place.
pub proof fn law_definitions_are_recorded(name: Seq<char>, node: NodeView, st: CacheView)
    requires
        st.in_schema(),
        define(name, node, st).1 is None,
    ensures
        ({
            let end = define(name, node, st).0;
            let inner = st.pushed(
                StackView::Node {
                    ident: declared(st, name, node),
                    entry: EntryView { node, dependencies: Map::empty(), redefine_base: None },
                },
            );
            let entry = end.nodes[declared(st, name, node)];
            &&& end.nodes.contains_key(declared(st, name, node))
            &&& end.idents.idents.contains(declared(st, name, node))
            &&& entry.redefine_base is None
            &&& records(inner, end, node, entry)
            &&& inner.current_ns() == st.current_ns()
            &&& inner.current_schema() == st.current_schema()
        }),
{
    let inner = st.opened(given(name), node);
    lemma_positions(st.stack);
    lemma_pushed(st.stack, inner.stack.last());
    lemma_defining(st, inner, node);
}

/// A definition that redefines one of another schema, and is read without an error, has an entry of
/// its own, under the namespace and the current schema, its name and its kind. The entry redefines
/// the definition of the same name and kind in the other schema, and records what stands in the
/// definition.
pub proof fn law_redefinitions_are_recorded(
    name: Seq<char>,
    base: SchemaId,
    node: NodeView,
    st: CacheView,
)
    requires
        st.in_schema(),
        redefine(name, base, node, st).1 is None,
    ensures
        ({
            let end = redefine(name, base, node, st).0;
            let replaced = IdentView { schema: base, ..declared(st, name, node) };
            let inner = st.pushed(
                StackView::Node {
                    ident: declared(st, name, node),
                    entry: EntryView {
                        node,
                        dependencies: Map::empty(),
                        redefine_base: Some(replaced),
                    },
                },
            );
            let entry = end.nodes[declared(st, name, node)];
            &&& end.nodes.contains_key(declared(st, name, node))
            &&& end.idents.idents.contains(declared(st, name, node))
            &&& entry.redefine_base == Some(replaced)
            &&& records(inner, end, node, entry)
            &&& inner.current_ns() == st.current_ns()
            &&& inner.current_schema() == st.current_schema()
        }),
{
    let inner = st.opened_redefined(given(name), base, node);
    lemma_positions(st.stack);
    lemma_pushed(st.stack, inner.stack.last());
    lemma_defining(st, inner, node);
}

/// A name that is read without an error gives the innermost definition a dependency on what it refers
/// to, under its namespace, its kind and its local part, and as strong as it says. A dependency that
/// was there under that key is replaced: of several mentions of a name the last one counts. Nothing
/// else changes.
pub proof fn law_the_last_mention_of_a_name_counts(
    kind: IdentType,
    name: QNameView,
    strength: Strength,
    st: CacheView,
)
    requires
        st.in_entry(),
        run_step(Step::Reference { kind, name, strength }, st).1 is None,
    ensures
        ({
            let end = run_step(Step::Reference { kind, name, strength }, st).0;
            let space = space_of(st.schemas, st.current_ns(), name);
            let text = text_of(local_part(name.raw));
            &&& space is Some && text is Some
            &&& st.resolved(name, kind) is Ok
            &&& end.active().dependencies == st.active().dependencies.insert(
                DependencyKeyView::Named(space->0, kind, text->0),
                DependencyView { strength, ident: st.resolved(name, kind)->Ok_0 },
            )
            &&& end.nodes == st.nodes
            &&& end.idents == st.idents
        }),
{
    reveal_with_fuel(run, 1);
    let (space, text) = parsed_name(st.schemas, st.current_ns(), name)->Ok_0;
    let d = DependencyView { strength, ident: st.resolved(name, kind)->Ok_0 };
    lemma_depending(st, DependencyKeyView::Named(space, kind, text), d);
}

} // verus!
