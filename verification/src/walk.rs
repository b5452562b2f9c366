//! What a walk over the definitions of a schema does to the node cache.

use vstd::prelude::*;

use crate::ident::{IdentType, IdentView, NameView};
use crate::identcache::{ErrorView, IdentCacheView};
use crate::models::{local_part, NamespaceId, QNameView, SchemaId, UNKNOWN_SCHEMA};
use crate::naming::{new_builder, number_text, BuilderView};
use crate::nodes::{new_entry_view, DependencyView, EntryView};
use crate::schemas::SchemasView;
use crate::steps::{node_type, DependencyKeyView, Marker, Naming, NodeView, Step, Strength};
use crate::text::{text_of, without_suffix};

verus! {

/// One level of what is being processed.
pub enum StackView {
    Schema { id: SchemaId, ns: NamespaceId },
    Node { ident: IdentView, entry: EntryView },
    Group,
    AttributeGroup,
}

/// The state of the walk.
pub struct CacheView {
    /// All loaded schemas.
    pub schemas: SchemasView,
    /// The finished entries.
    pub nodes: Map<IdentView, EntryView>,
    /// The known identifiers.
    pub idents: IdentCacheView,
    /// What is being processed, the innermost last.
    pub stack: Seq<StackView>,
    /// The schemas that were visited.
    pub processed: Set<SchemaId>,
    /// The number of the next made up name.
    pub next_id: usize,
}

/// The state after a part of the walk, and the error that ended it.
pub type Outcome = (CacheView, Option<ErrorView>);

/// Where the innermost entry on the stack stands, or -1 if there is none.
pub open spec fn active_at(stack: Seq<StackView>) -> int
    decreases stack.len(),
{
    if stack.len() == 0 {
        -1
    } else if stack.last() is Node {
        stack.len() - 1
    } else {
        active_at(stack.drop_last())
    }
}

/// Where the innermost schema on the stack stands, or -1 if there is none.
pub open spec fn schema_at(stack: Seq<StackView>) -> int
    decreases stack.len(),
{
    if stack.len() == 0 {
        -1
    } else if stack.last() is Schema {
        stack.len() - 1
    } else {
        schema_at(stack.drop_last())
    }
}

/// The innermost name on the stack that was given in a schema.
pub open spec fn named_on(stack: Seq<StackView>) -> Option<Seq<char>>
    decreases stack.len(),
{
    if stack.len() == 0 {
        None
    } else {
        match stack.last() {
            StackView::Node { ident, .. } if ident.name.named => Some(ident.name.text),
            _ => named_on(stack.drop_last()),
        }
    }
}

/// The name of the innermost entry on the stack, looked for up to the innermost group if `stop`.
pub open spec fn name_on(stack: Seq<StackView>, stop: bool) -> Option<Seq<char>>
    decreases stack.len(),
{
    if stack.len() == 0 {
        None
    } else {
        match stack.last() {
            StackView::Node { ident, .. } => Some(ident.name.text),
            StackView::Schema { .. } => name_on(stack.drop_last(), stop),
            _ => if stop {
                None
            } else {
                name_on(stack.drop_last(), stop)
            },
        }
    }
}

/// The text of local name bytes that may be absent.
pub open spec fn opt_text_of(bytes: Option<Seq<u8>>) -> Option<Seq<char>> {
    match bytes {
        Some(b) => text_of(b),
        None => None,
    }
}

/// The name of the items of a named list type.
pub open spec fn item_name(list: Option<Seq<char>>) -> Option<Seq<char>> {
    match list {
        Some(s) => Some(without_suffix(s, "Type"@) + "Item"@),
        None => None,
    }
}

/// How a definition in place is named.
pub open spec fn inline_name(naming: Naming, id: usize, stack: Seq<StackView>) -> NameView {
    match naming {
        Naming::Item { own, item } => new_builder(id).or_given(own).or_given(
            opt_text_of(item),
        ).or_given(item_name(named_on(stack))).finished(),
        Naming::Member { own } => new_builder(id).or_given(own).extended(
            true,
            name_on(stack, false),
        ).finished(),
        Naming::OfAttribute { attribute, own } => new_builder(id).or_given(attribute).or_given(
            own,
        ).extended(true, name_on(stack, true)).finished(),
        Naming::OfElement { own } => {
            let b = new_builder(id).extended(true, own).extended(false, name_on(stack, true));
            if b.extension is Some {
                (BuilderView { with_id: false, ..b }).finished()
            } else {
                (BuilderView {
                    name: Some(NameView { named: false, text: "Temp"@ + number_text(id) }),
                    ..b
                }).finished()
            }
        },
    }
}

/// Finds the namespace and the text of a qualified name.
pub open spec fn parsed_name(
    schemas: SchemasView,
    current: NamespaceId,
    name: QNameView,
) -> Result<(NamespaceId, Seq<char>), ErrorView> {
    let local = local_part(name.raw);
    if name.ns is Some && !schemas.known_namespaces.contains_key(name.ns) {
        Err(ErrorView::UnknownNamespace(name.ns->0))
    } else {
        let ns = if name.ns is Some {
            schemas.known_namespaces[name.ns]
        } else {
            current
        };
        match text_of(local) {
            Some(text) => Ok((ns, text)),
            None => Err(ErrorView::InvalidLocalName(local)),
        }
    }
}

impl CacheView {
    /// The innermost schema.
    pub open spec fn current_schema(self) -> SchemaId {
        self.stack[schema_at(self.stack)]->id
    }

    /// The namespace of the innermost schema.
    pub open spec fn current_ns(self) -> NamespaceId {
        self.stack[schema_at(self.stack)]->ns
    }

    /// The innermost entry.
    pub open spec fn active(self) -> EntryView {
        self.stack[active_at(self.stack)]->entry
    }

    /// The identifier of the innermost entry.
    pub open spec fn active_ident(self) -> IdentView {
        self.stack[active_at(self.stack)]->ident
    }

    /// The state with another innermost entry.
    pub open spec fn with_active(self, entry: EntryView) -> CacheView {
        CacheView {
            stack: self.stack.update(
                active_at(self.stack),
                StackView::Node { ident: self.active_ident(), entry },
            ),
            ..self
        }
    }

    /// The state with one more level.
    pub open spec fn pushed(self, level: StackView) -> CacheView {
        CacheView { stack: self.stack.push(level), ..self }
    }

    /// The state without its innermost level.
    pub open spec fn popped(self) -> CacheView {
        CacheView { stack: self.stack.drop_last(), ..self }
    }

    /// Whether a schema is being processed.
    pub open spec fn in_schema(self) -> bool {
        schema_at(self.stack) >= 0
    }

    /// Whether an entry of a schema is being processed.
    pub open spec fn in_entry(self) -> bool {
        schema_at(self.stack) >= 0 && active_at(self.stack) >= 0
    }

    /// The identifier that a qualified name stands for, in a schema that is not known yet.
    pub open spec fn wanted(self, name: QNameView, kind: IdentType) -> Result<
        IdentView,
        ErrorView,
    > {
        match parsed_name(self.schemas, self.current_ns(), name) {
            Ok((ns, text)) => Ok(
                IdentView {
                    ns,
                    schema: SchemaId(UNKNOWN_SCHEMA),
                    name: NameView { named: true, text },
                    type_: kind,
                },
            ),
            Err(e) => Err(e),
        }
    }

    /// The identifier that a qualified name refers to. In a definition that redefines another one,
    /// its name stands for the redefined one. Any other name is looked for in what the current
    /// schema sees, and then in all schemas.
    pub open spec fn resolved(self, name: QNameView, kind: IdentType) -> Result<
        IdentView,
        ErrorView,
    > {
        match self.wanted(name, kind) {
            Err(e) => Err(e),
            Ok(wanted) => match self.active().redefine_base {
                Some(base) if base.ns == wanted.ns && base.name.text == wanted.name.text
                    && base.type_ == wanted.type_ => Ok(base),
                _ => match self.idents.resolve_for_schema(self.current_schema(), wanted) {
                    Ok(ident) => Ok(ident),
                    Err(_) => self.idents.resolve(wanted),
                },
            },
        }
    }

    /// The state with one more dependency of the innermost entry.
    pub open spec fn depending(
        self,
        key: DependencyKeyView,
        dependency: DependencyView,
    ) -> CacheView {
        let entry = self.active();
        self.with_active(
            EntryView { dependencies: entry.dependencies.insert(key, dependency), ..entry },
        )
    }

    /// The outcome of a reference.
    pub open spec fn refer(self, kind: IdentType, name: QNameView, strength: Strength) -> Outcome {
        match self.resolved(name, kind) {
            Err(e) => (self, Some(e)),
            Ok(ident) => match parsed_name(self.schemas, self.current_ns(), name) {
                Err(e) => (self, Some(e)),
                Ok((ns, text)) => (
                    self.depending(
                        DependencyKeyView::Named(ns, kind, text),
                        DependencyView { strength, ident },
                    ),
                    None,
                ),
            },
        }
    }

    /// The identifier of something that is defined in the current schema.
    pub open spec fn ident_here(self, name: NameView, node: NodeView) -> IdentView {
        IdentView {
            ns: self.current_ns(),
            schema: self.current_schema(),
            name,
            type_: node_type(node),
        }
    }

    /// The state in which an entry was opened.
    pub open spec fn opened(self, name: NameView, node: NodeView) -> CacheView {
        self.pushed(
            StackView::Node { ident: self.ident_here(name, node), entry: new_entry_view(node) },
        )
    }

    /// The identifier that a redefinition in the current schema replaces.
    pub open spec fn redefined_ident(
        self,
        name: NameView,
        base: SchemaId,
        node: NodeView,
    ) -> IdentView {
        self.ident_here(name, node).in_schema(base)
    }

    /// The state in which an entry was opened that redefines another one.
    pub open spec fn opened_redefined(
        self,
        name: NameView,
        base: SchemaId,
        node: NodeView,
    ) -> CacheView {
        self.pushed(
            StackView::Node {
                ident: self.ident_here(name, node),
                entry: EntryView {
                    redefine_base: Some(self.redefined_ident(name, base, node)),
                    ..new_entry_view(node)
                },
            },
        )
    }

    /// The state in which the entry on top of the stack was finished.
    pub open spec fn closed(self) -> CacheView {
        let ident = self.stack.last()->ident;
        CacheView {
            nodes: self.nodes.insert(ident, self.stack.last()->entry),
            idents: IdentCacheView { idents: self.idents.idents.insert(ident), ..self.idents },
            stack: self.stack.drop_last(),
            ..self
        }
    }
}

/// The level of a group.
pub open spec fn marker_level(marker: Marker) -> StackView {
    match marker {
        Marker::Group => StackView::Group,
        Marker::AttributeGroup => StackView::AttributeGroup,
    }
}

/// The outcome of steps that are taken one after the other, up to the first error.
#[verifier::opaque]
pub open spec fn run(steps: Seq<Step>, st: CacheView) -> Outcome
    decreases steps,
{
    if steps.len() == 0 {
        (st, None)
    } else {
        let (mid, error) = run(steps.drop_last(), st);
        if error is Some {
            (mid, error)
        } else {
            run_step(steps.last(), mid)
        }
    }
}

/// The outcome of one step.
pub open spec fn run_step(step: Step, st: CacheView) -> Outcome
    decreases step,
{
    match step {
        Step::Reference { kind, name, strength } => st.refer(kind, name, strength),
        Step::Within { marker, body } => {
            let (end, error) = run(body, st.pushed(marker_level(marker)));
            if error is Some {
                (end, error)
            } else {
                (end.popped(), None)
            }
        },
        Step::Inline { node, naming, key, body } => {
            let name = inline_name(naming, st.next_id, st.stack);
            let named = CacheView { next_id: st.next_id.wrapping_add(1), ..st };
            let (end, error) = run(body, named.opened(name, node));
            if error is Some {
                (end, error)
            } else {
                (defined_inline(end, key), None)
            }
        },
    }
}

/// The state in which the entry on top of the stack was finished and is a dependency of the one
/// that it stands in.
pub open spec fn defined_inline(st: CacheView, key: DependencyKeyView) -> CacheView {
    st.closed().depending(
        key,
        DependencyView { strength: Strength::Weak, ident: st.stack.last()->ident },
    )
}

/// The outcome of a definition in place under a given name.
pub open spec fn define_inline(
    node: NodeView,
    name: NameView,
    key: DependencyKeyView,
    body: Seq<Step>,
    st: CacheView,
) -> Outcome {
    let (end, error) = run(body, st.opened(name, node));
    if error is Some {
        (end, error)
    } else {
        (defined_inline(end, key), None)
    }
}

/// Whether two levels are the same, apart from the dependencies of an entry.
pub open spec fn same_level(a: StackView, b: StackView) -> bool {
    match (a, b) {
        (StackView::Node { ident: i, entry: e }, StackView::Node { ident: j, entry: f }) => i == j
            && e.node == f.node && e.redefine_base == f.redefine_base,
        _ => a == b,
    }
}

/// Whether two stacks are the same, apart from the dependencies of their entries.
pub open spec fn same_shape(a: Seq<StackView>, b: Seq<StackView>) -> bool {
    a.len() == b.len() && forall|i: int|
        #![trigger a[i]]
        #![trigger b[i]]
        0 <= i < a.len() ==> same_level(a[i], b[i])
}

/// Stacks of the same shape have their innermost entry and schema at the same places.
pub proof fn lemma_shape_positions(a: Seq<StackView>, b: Seq<StackView>)
    requires
        same_shape(a, b),
    ensures
        active_at(a) == active_at(b),
        schema_at(a) == schema_at(b),
        -1 <= active_at(a) < a.len(),
        -1 <= schema_at(a) < a.len(),
        active_at(a) >= 0 ==> a[active_at(a)] is Node,
        schema_at(a) >= 0 ==> a[schema_at(a)] is Schema,
    decreases a.len(),
{
    if a.len() > 0 {
        assert(same_level(a[a.len() - 1], b[b.len() - 1]));
        assert forall|i: int| 0 <= i < a.len() - 1 implies same_level(
            a.drop_last()[i],
            b.drop_last()[i],
        ) by {
            assert(same_level(a[i], b[i]));
        }
        lemma_shape_positions(a.drop_last(), b.drop_last());
        assert(a.drop_last().len() == a.len() - 1);
    }
}

/// Where the innermost entry and schema of a stack are.
pub proof fn lemma_positions(a: Seq<StackView>)
    ensures
        -1 <= active_at(a) < a.len(),
        -1 <= schema_at(a) < a.len(),
        active_at(a) >= 0 ==> a[active_at(a)] is Node,
        schema_at(a) >= 0 ==> a[schema_at(a)] is Schema,
{
    lemma_shape_positions(a, a);
}

/// Where things stand after a level was pushed.
pub proof fn lemma_pushed(a: Seq<StackView>, x: StackView)
    ensures
        a.push(x).drop_last() == a,
        a.push(x).last() == x,
        active_at(a.push(x)) == if x is Node {
            a.len() as int
        } else {
            active_at(a)
        },
        schema_at(a.push(x)) == if x is Schema {
            a.len() as int
        } else {
            schema_at(a)
        },
{
    assert(a.push(x).drop_last() =~= a);
}

/// What steps leave as it was.
pub open spec fn kept(a: CacheView, b: CacheView) -> bool {
    &&& same_shape(a.stack, b.stack)
    &&& a.schemas == b.schemas
    &&& a.processed == b.processed
    &&& a.idents.scopes == b.idents.scopes
    &&& a.idents.globals == b.idents.globals
}

/// What is kept by two walks is kept by both in turn.
pub proof fn lemma_kept_trans(a: CacheView, b: CacheView, c: CacheView)
    requires
        kept(a, b),
        kept(b, c),
    ensures
        kept(a, c),
{
    assert forall|i: int| 0 <= i < a.stack.len() implies same_level(a.stack[i], c.stack[i]) by {
        assert(same_level(a.stack[i], b.stack[i]));
        assert(same_level(b.stack[i], c.stack[i]));
    }
}

/// A new dependency leaves the shape of the stack as it was.
pub proof fn lemma_depending_kept(st: CacheView, key: DependencyKeyView, dep: DependencyView)
    requires
        st.in_entry(),
    ensures
        kept(st, st.depending(key, dep)),
{
    lemma_positions(st.stack);
}

/// Steps that succeed leave everything below and around the innermost entry as it was: the stack
/// apart from dependencies, the schemas, and which of them were visited and see each other.
pub proof fn lemma_run_kept(steps: Seq<Step>, st: CacheView)
    requires
        st.in_entry(),
        run(steps, st).1 is None,
    ensures
        kept(st, run(steps, st).0),
        run(steps, st).0.in_entry(),
    decreases steps,
{
    reveal_with_fuel(run, 1);
    if steps.len() > 0 {
        lemma_run_kept(steps.drop_last(), st);
        let mid = run(steps.drop_last(), st).0;
        lemma_run_step_kept(steps.last(), mid);
        lemma_kept_trans(st, mid, run(steps, st).0);
    }
}

/// What a step keeps.
pub proof fn lemma_run_step_kept(step: Step, st: CacheView)
    requires
        st.in_entry(),
        run_step(step, st).1 is None,
    ensures
        kept(st, run_step(step, st).0),
        run_step(step, st).0.in_entry(),
    decreases step,
{
    reveal_with_fuel(run, 1);
    lemma_positions(st.stack);
    let end = run_step(step, st).0;
    match step {
        Step::Reference { kind, name, strength } => {
            let (ns, text) = parsed_name(st.schemas, st.current_ns(), name)->Ok_0;
            lemma_depending_kept(
                st,
                DependencyKeyView::Named(ns, kind, text),
                DependencyView { strength, ident: st.resolved(name, kind)->Ok_0 },
            );
        },
        Step::Within { marker, body } => {
            let inner = st.pushed(marker_level(marker));
            lemma_pushed(st.stack, marker_level(marker));
            lemma_run_kept(body, inner);
            lemma_popped_kept(st, inner, run(body, inner).0);
        },
        Step::Inline { node, naming, key, body } => {
            let name = inline_name(naming, st.next_id, st.stack);
            let named = CacheView { next_id: st.next_id.wrapping_add(1), ..st };
            let inner = named.opened(name, node);
            lemma_pushed(st.stack, inner.stack.last());
            lemma_run_kept(body, inner);
            let done = run(body, inner).0;
            lemma_popped_kept(st, inner, done);
            lemma_shape_positions(st.stack, done.closed().stack);
            lemma_depending_kept(
                done.closed(),
                key,
                DependencyView { strength: Strength::Weak, ident: done.stack.last()->ident },
            );
            lemma_kept_trans(st, done.closed(), end);
        },
    }
    lemma_shape_positions(st.stack, end.stack);
}

/// Popping the level that was pushed gives the stack its shape back.
pub proof fn lemma_popped_kept(st: CacheView, inner: CacheView, done: CacheView)
    requires
        inner.stack == st.stack.push(inner.stack.last()),
        inner.stack.len() > 0,
        same_shape(inner.stack, done.stack),
    ensures
        same_shape(st.stack, done.stack.drop_last()),
{
    assert forall|i: int| 0 <= i < st.stack.len() implies same_level(
        st.stack[i],
        done.stack.drop_last()[i],
    ) by {
        assert(same_level(inner.stack[i], done.stack[i]));
    }
}

/// Taking two lists of steps one after the other is taking their concatenation.
pub proof fn lemma_run_add(a: Seq<Step>, b: Seq<Step>, st: CacheView)
    ensures
        run(a + b, st) == if run(a, st).1 is Some {
            run(a, st)
        } else {
            run(b, run(a, st).0)
        },
    decreases b.len(),
{
    reveal_with_fuel(run, 1);
    if b.len() == 0 {
        assert(a + b =~= a);
    } else {
        assert((a + b).drop_last() =~= a + b.drop_last());
        assert((a + b).last() == b.last());
        lemma_run_add(a, b.drop_last(), st);
    }
}

/// The outcome of no steps.
pub proof fn lemma_run_none(st: CacheView)
    ensures
        run(Seq::empty(), st) == (st, None::<ErrorView>),
{
    reveal_with_fuel(run, 1);
}

/// The outcome of a single step.
pub proof fn lemma_run_one(step: Step, st: CacheView)
    ensures
        run(seq![step], st) == run_step(step, st),
{
    reveal_with_fuel(run, 2);
    assert(seq![step].drop_last() =~= Seq::<Step>::empty());
    assert(run(Seq::<Step>::empty(), st) == (st, None::<ErrorView>));
    assert(seq![step].last() == step);
}

/// Steps that come after an error are not taken.
pub proof fn lemma_stuck(
    list: spec_fn(nat) -> Seq<Step>,
    item: spec_fn(nat) -> Seq<Step>,
    i: nat,
    n: nat,
    st: CacheView,
)
    requires
        i <= n,
        forall|k: nat| i <= k < n ==> #[trigger] list(k + 1) == list(k) + item(k),
        run(list(i), st).1 is Some,
    ensures
        run(list(n), st) == run(list(i), st),
    decreases n - i,
{
    if i < n {
        assert(list(i + 1) == list(i) + item(i));
        lemma_run_add(list(i), item(i), st);
        lemma_stuck(list, item, i + 1, n, st);
    }
}

/// An entry that was opened is on top of the stack again once its steps were taken, and what lies
/// below it is as it was.
pub proof fn lemma_entered(outer: CacheView, inner: CacheView, steps: Seq<Step>)
    requires
        outer.in_schema(),
        inner.stack.len() > 0,
        inner.stack.last() is Node,
        inner.stack == outer.stack.push(inner.stack.last()),
        run(steps, inner).1 is None,
    ensures
        kept(inner, run(steps, inner).0),
        run(steps, inner).0.stack.len() > 0,
        run(steps, inner).0.stack.last() is Node,
        run(steps, inner).0.stack.last()->ident == inner.stack.last()->ident,
        same_shape(outer.stack, run(steps, inner).0.closed().stack),
        run(steps, inner).0.closed().in_schema(),
{
    lemma_pushed(outer.stack, inner.stack.last());
    lemma_run_kept(steps, inner);
    let end = run(steps, inner).0;
    assert(same_level(inner.stack[inner.stack.len() - 1], end.stack[end.stack.len() - 1]));
    lemma_popped_kept(outer, inner, end);
    lemma_shape_positions(outer.stack, end.closed().stack);
}

} // verus!
