//! Builds the node cache: the entries of all definitions with what they depend on.

use vstd::prelude::*;

use crate::ident::{IdentType, Name, NameView, TypeIdent};
use crate::identcache::{resolved, InterpreterError, ErrorView, IdentCache};
use crate::models::{MaybeNamespace, NamespaceId, QName, SchemaId, UNKNOWN_SCHEMA};
use crate::naming::{MetaTypes, NameBuilder};
use crate::nodes::{Node, NodeCacheEntry, NodeDependency, NodeDependencyKey};
use crate::ordmap::{OrdMap, OrdSet};
use crate::schemas::{SchemaInfo, Schemas};
use crate::steps::{DependencyKeyView, Strength};
use crate::text::{decode, same_text};
use crate::walk::{active_at, name_on, named_on, parsed_name, schema_at, CacheView, StackView};
use crate::walk::{lemma_positions, lemma_pushed};

mod definitions;
mod documents;
mod inline;
mod readiness;

pub use documents::State;

verus! {

/// One level of what is being processed.
pub enum StackEntry<'a> {
    Schema { id: SchemaId, info: &'a SchemaInfo },
    Node { ident: TypeIdent, entry: NodeCacheEntry<'a> },
    Group,
    AttributeGroup,
}

impl<'a> DeepView for StackEntry<'a> {
    type V = StackView;

    open spec fn deep_view(&self) -> StackView {
        match self {
            StackEntry::Schema { id, info } => StackView::Schema {
                id: *id,
                ns: info.namespace_id,
            },
            StackEntry::Node { ident, entry } => StackView::Node { ident: ident@, entry: entry@ },
            StackEntry::Group => StackView::Group,
            StackEntry::AttributeGroup => StackView::AttributeGroup,
        }
    }
}

/// Walks over all schemas and collects the entries of the node cache.
pub struct NodeCacheProcessor<'a> {
    types: MetaTypes,
    schemas: &'a Schemas,
    node_cache: OrdMap<TypeIdent, NodeCacheEntry<'a>>,
    ident_cache: IdentCache,
    stack: Vec<StackEntry<'a>>,
    processed_schemas: OrdSet<SchemaId>,
}

impl<'a> View for NodeCacheProcessor<'a> {
    type V = CacheView;

    closed spec fn view(&self) -> CacheView {
        CacheView {
            schemas: self.schemas@,
            nodes: self.node_cache@,
            idents: self.ident_cache@,
            stack: self.stack.deep_view(),
            processed: self.processed_schemas@,
            next_id: self.types@,
        }
    }
}

/// The view of an error, if there is one.
pub open spec fn failure(r: Result<(), InterpreterError>) -> Option<ErrorView> {
    match r {
        Ok(_) => None,
        Err(e) => Some(e@),
    }
}

/// Finds the namespace and the text of a qualified name.
pub fn parse_qname(name: &QName, current: NamespaceId, schemas: &Schemas) -> (r: Result<
    (NamespaceId, String),
    InterpreterError,
>)
    ensures
        match r {
            Ok((ns, text)) => parsed_name(schemas@, current, name@) == Ok::<
                (NamespaceId, Seq<char>),
                ErrorView,
            >((ns, text@)),
            Err(e) => parsed_name(schemas@, current, name@) == Err::<
                (NamespaceId, Seq<char>),
                ErrorView,
            >(e@),
        },
{
    let ns = match name.namespace() {
        Some(ns) => {
            let ns = MaybeNamespace(Some(ns.copy()));
            match schemas.resolve_namespace(&ns) {
                Some(id) => id,
                None => {
                    let MaybeNamespace(ns) = ns;
                    return Err(InterpreterError::UnknownNamespace(ns.unwrap()));
                },
            }
        },
        None => current,
    };
    let local = name.local_name();
    match decode(local.as_slice()) {
        Some(text) => Ok((ns, text)),
        None => Err(InterpreterError::InvalidLocalName(local)),
    }
}

/// Extends a name by the name of what it stands in: the innermost entry of the stack, looked for
/// up to the innermost group if `stop_at_group`.
pub fn auto_extend(
    builder: NameBuilder,
    stop_at_group: bool,
    replace: bool,
    stack: &Vec<StackEntry<'_>>,
) -> (b: NameBuilder)
    ensures
        b@ == builder@.extended(replace, name_on(stack.deep_view(), stop_at_group)),
{
    let ghost all = stack.deep_view();
    let mut k = stack.len();
    assert(all.take(k as int) =~= all);
    while k > 0
        invariant
            all == stack.deep_view(),
            k <= stack.len(),
            name_on(all, stop_at_group) == name_on(all.take(k as int), stop_at_group),
        decreases k,
    {
        k = k - 1;
        proof {
            assert(all.take(k + 1).drop_last() =~= all.take(k as int));
            assert(all.take(k + 1).last() == stack@[k as int].deep_view());
        }
        match &stack[k] {
            StackEntry::Node { ident, .. } => {
                return builder.extend(replace, Some(ident.name.as_str().to_owned()));
            },
            StackEntry::Group | StackEntry::AttributeGroup => {
                if stop_at_group {
                    return builder;
                }
            },
            StackEntry::Schema { .. } => {},
        }
    }
    builder
}

impl<'a> NodeCacheProcessor<'a> {
    /// A processor knows finitely many schemas and identifiers.
    pub proof fn lemma_finite(&self)
        ensures
            self@.idents.idents.finite(),
            self@.schemas.schemas.dom().finite(),
    {
        self.ident_cache.lemma_finite();
        self.schemas.schemas.lemma_finite();
    }

    /// Creates a processor that has processed nothing.
    pub fn new(
        types: MetaTypes,
        schemas: &'a Schemas,
        node_cache: OrdMap<TypeIdent, NodeCacheEntry<'a>>,
        ident_cache: IdentCache,
    ) -> (p: Self)
        ensures
            p@ == (CacheView {
                schemas: schemas@,
                nodes: node_cache@,
                idents: ident_cache@,
                stack: Seq::empty(),
                processed: Set::empty(),
                next_id: types@,
            }),
    {
        let p = NodeCacheProcessor {
            types,
            schemas,
            node_cache,
            ident_cache,
            stack: Vec::new(),
            processed_schemas: OrdSet::new(),
        };
        assert(p.stack.deep_view() =~= Seq::<StackView>::empty());
        p
    }

    /// Puts a level on the stack.
    pub fn push_stack(&mut self, entry: StackEntry<'a>)
        ensures
            final(self)@ == old(self)@.pushed(entry.deep_view()),
    {
        self.stack.push(entry);
        assert(self.stack.deep_view() =~= old(self).stack.deep_view().push(entry.deep_view()));
    }

    /// Takes the top level off the stack.
    pub fn pop_stack(&mut self) -> (entry: StackEntry<'a>)
        requires
            old(self)@.stack.len() > 0,
        ensures
            final(self)@ == old(self)@.popped(),
            entry.deep_view() == old(self)@.stack.last(),
    {
        let entry = self.stack.pop().unwrap();
        assert(self.stack.deep_view() =~= old(self).stack.deep_view().drop_last());
        entry
    }

    /// Where the innermost entry stands.
    fn active_index(&self) -> (k: usize)
        requires
            active_at(self@.stack) >= 0,
        ensures
            k == active_at(self@.stack),
            k < self.stack@.len(),
            self.stack@[k as int] is Node,
    {
        let ghost all = self@.stack;
        let mut k = self.stack.len();
        assert(all.take(k as int) =~= all);
        loop
            invariant
                all == self.stack.deep_view(),
                k <= self.stack.len(),
                active_at(all) >= 0,
                active_at(all) == active_at(all.take(k as int)),
            decreases k,
        {
            proof {
                lemma_positions(all.take(k as int));
            }
            k = k - 1;
            proof {
                assert(all.take(k + 1).drop_last() =~= all.take(k as int));
                assert(all.take(k + 1).last() == self.stack@[k as int].deep_view());
            }
            match &self.stack[k] {
                StackEntry::Node { .. } => {
                    return k;
                },
                _ => {},
            }
        }
    }

    /// The innermost entry, to change it.
    pub fn active_entry_mut(&mut self) -> (entry: &mut NodeCacheEntry<'a>)
        requires
            active_at(old(self)@.stack) >= 0,
        ensures
            entry@ == old(self)@.active(),
            final(self)@ == old(self)@.with_active(final(entry)@),
    {
        let k = self.active_index();
        let ghost levels = self.stack@;
        let ghost stack = self.stack.deep_view();
        proof {
            assert(stack[k as int] == levels[k as int].deep_view());
            assert forall|v: Vec<StackEntry<'a>>, x: StackEntry<'a>|
                v@ == #[trigger] levels.update(k as int, x) implies #[trigger] v.deep_view()
                == stack.update(k as int, x.deep_view()) by {
                assert(v.deep_view() =~= stack.update(k as int, x.deep_view()));
            }
        }
        match &mut self.stack[k] {
            StackEntry::Node { entry, .. } => entry,
            _ => vstd::pervasive::unreached(),
        }
    }

    /// The innermost entry.
    fn active_entry(&self) -> (entry: &NodeCacheEntry<'a>)
        requires
            active_at(self@.stack) >= 0,
        ensures
            entry@ == self@.active(),
    {
        let k = self.active_index();
        assert(self.stack.deep_view()[k as int] == self.stack@[k as int].deep_view());
        match &self.stack[k] {
            StackEntry::Node { entry, .. } => entry,
            _ => vstd::pervasive::unreached(),
        }
    }

    /// The identifier of the innermost entry.
    pub fn current_type_ident(&self) -> (ident: &TypeIdent)
        requires
            active_at(self@.stack) >= 0,
        ensures
            ident@ == self@.active_ident(),
    {
        let k = self.active_index();
        assert(self.stack.deep_view()[k as int] == self.stack@[k as int].deep_view());
        match &self.stack[k] {
            StackEntry::Node { ident, .. } => ident,
            _ => vstd::pervasive::unreached(),
        }
    }

    /// The innermost schema and its namespace.
    fn innermost_schema(&self) -> (r: (SchemaId, NamespaceId))
        requires
            self@.in_schema(),
        ensures
            r.0 == self@.current_schema(),
            r.1 == self@.current_ns(),
    {
        let ghost all = self@.stack;
        let mut k = self.stack.len();
        assert(all.take(k as int) =~= all);
        loop
            invariant
                all == self.stack.deep_view(),
                all == self@.stack,
                k <= self.stack.len(),
                schema_at(all) >= 0,
                schema_at(all) == schema_at(all.take(k as int)),
            decreases k,
        {
            proof {
                lemma_positions(all.take(k as int));
            }
            k = k - 1;
            proof {
                assert(all.take(k + 1).drop_last() =~= all.take(k as int));
                assert(all.take(k + 1).last() == self.stack@[k as int].deep_view());
            }
            match &self.stack[k] {
                StackEntry::Schema { id, info } => {
                    return (*id, info.namespace_id);
                },
                _ => {},
            }
        }
    }

    /// The namespace of the innermost schema.
    pub fn current_ns(&self) -> (ns: NamespaceId)
        requires
            self@.in_schema(),
        ensures
            ns == self@.current_ns(),
    {
        self.innermost_schema().1
    }

    /// The innermost schema.
    pub fn current_schema(&self) -> (id: SchemaId)
        requires
            self@.in_schema(),
        ensures
            id == self@.current_schema(),
    {
        self.innermost_schema().0
    }

    /// The innermost name that was given in a schema.
    pub fn last_named_type(&self) -> (r: Option<&str>)
        ensures
            match r {
                Some(s) => named_on(self@.stack) == Some(s@),
                None => named_on(self@.stack) is None,
            },
    {
        let ghost all = self@.stack;
        let mut k = self.stack.len();
        assert(all.take(k as int) =~= all);
        while k > 0
            invariant
                all == self.stack.deep_view(),
                k <= self.stack.len(),
                named_on(all) == named_on(all.take(k as int)),
            decreases k,
        {
            k = k - 1;
            proof {
                assert(all.take(k + 1).drop_last() =~= all.take(k as int));
                assert(all.take(k + 1).last() == self.stack@[k as int].deep_view());
            }
            match &self.stack[k] {
                StackEntry::Node { ident, .. } => {
                    if ident.name.is_named() {
                        return Some(ident.name.as_str());
                    }
                },
                _ => {},
            }
        }
        None
    }

    /// The identifier that a qualified name stands for, in a schema that is not known yet.
    pub fn parse_type_ident(
        &self,
        qname: &QName,
        type_: IdentType,
    ) -> (r: Result<TypeIdent, InterpreterError>)
        requires
            self@.in_schema(),
        ensures
            resolved(r) == self@.wanted(qname@, type_),
    {
        match parse_qname(qname, self.current_ns(), self.schemas) {
            Ok((ns, text)) => Ok(
                TypeIdent {
                    ns,
                    schema: SchemaId(UNKNOWN_SCHEMA),
                    name: Name::new_named(text),
                    type_,
                },
            ),
            Err(e) => Err(e),
        }
    }

    /// The identifier that a qualified name refers to.
    pub fn resolve_type_ident(&self, qname: &QName, type_: IdentType) -> (r: Result<
        TypeIdent,
        InterpreterError,
    >)
        requires
            self@.in_entry(),
        ensures
            resolved(r) == self@.resolved(qname@, type_),
    {
        let ident = match self.parse_type_ident(qname, type_) {
            Ok(ident) => ident,
            Err(e) => {
                return Err(e);
            },
        };
        let entry = self.active_entry();
        match &entry.redefine_base {
            Some(base) => {
                if base.ns == ident.ns && base.type_ == ident.type_ && same_text(
                    base.name.as_str(),
                    ident.name.as_str(),
                ) {
                    return Ok(base.copy());
                }
            },
            None => {},
        }
        match self.ident_cache.resolve_for_schema(self.current_schema(), ident.copy()) {
            Ok(ident) => Ok(ident),
            Err(_) => self.ident_cache.resolve(ident),
        }
    }

    /// Adds a dependency of the innermost entry under the name that it is referred to by.
    pub fn add_dependency(
        &mut self,
        type_: IdentType,
        name: &QName,
        dependency: NodeDependency,
    ) -> (r: Result<(), InterpreterError>)
        requires
            old(self)@.in_entry(),
        ensures
            match parsed_name(old(self)@.schemas, old(self)@.current_ns(), name@) {
                Ok((ns, text)) => r is Ok && final(self)@ == old(self)@.depending(
                    DependencyKeyView::Named(ns, type_, text),
                    dependency@,
                ),
                Err(e) => failure(r) == Some(e) && final(self)@ == old(self)@,
            },
    {
        let ns = self.current_ns();
        match parse_qname(name, ns, self.schemas) {
            Ok((ns, name)) => {
                self.add_dependency_with_key(NodeDependencyKey::Named(ns, type_, name), dependency);
                Ok(())
            },
            Err(e) => Err(e),
        }
    }

    /// Adds a dependency of the innermost entry.
    pub fn add_dependency_with_key(&mut self, key: NodeDependencyKey, dependency: NodeDependency)
        requires
            active_at(old(self)@.stack) >= 0,
        ensures
            final(self)@ == old(self)@.depending(key@, dependency@),
    {
        let entry = self.active_entry_mut();
        entry.dependencies.insert(key, dependency);
    }

    /// Resolves a qualified name and adds it as a dependency of the innermost entry.
    fn refer(
        &mut self,
        kind: IdentType,
        name: &QName,
        strength: Strength,
    ) -> (r: Result<(), InterpreterError>)
        requires
            old(self)@.in_entry(),
        ensures
            (final(self)@, failure(r)) == old(self)@.refer(kind, name@, strength),
    {
        match self.resolve_type_ident(name, kind) {
            Ok(ident) => {
                let dependency = match strength {
                    Strength::Strong => NodeDependency::Strong(ident),
                    Strength::Weak => NodeDependency::Weak(ident),
                    Strength::Lazy => NodeDependency::Lazy(ident),
                };
                self.add_dependency(kind, name, dependency)
            },
            Err(e) => Err(e),
        }
    }

    /// Opens the entry of a named definition of the current schema.
    pub fn new_entry(&mut self, name: String, node: Node<'a>)
        requires
            old(self)@.in_schema(),
        ensures
            final(self)@ == old(self)@.opened(NameView { named: true, text: name@ }, node@),
    {
        self.new_inline_entry(Name::new_named(name), node);
    }

    /// Opens the entry of a definition in place.
    pub fn new_inline_entry(&mut self, name: Name, node: Node<'a>)
        requires
            old(self)@.in_schema(),
        ensures
            final(self)@ == old(self)@.opened(name@, node@),
    {
        let entry = NodeCacheEntry::new(node);
        let ident = TypeIdent {
            ns: self.current_ns(),
            schema: self.current_schema(),
            name,
            type_: entry.ident_type(),
        };
        self.push_stack(StackEntry::Node { ident, entry });
    }

    /// Opens the entry of a definition that redefines the one of the same name in `base`.
    pub fn new_redefined_entry(&mut self, name: String, base: SchemaId, node: Node<'a>)
        requires
            old(self)@.in_schema(),
        ensures
            final(self)@ == old(self)@.opened_redefined(
                NameView { named: true, text: name@ },
                base,
                node@,
            ),
    {
        let ghost st = self@;
        self.new_entry(name, node);
        proof {
            lemma_pushed(st.stack, self@.stack.last());
        }
        let redefined = self.current_type_ident().copy().with_schema(base);
        let entry = self.active_entry_mut();
        entry.redefine_base = Some(redefined);
        assert(self@.stack =~= st.opened_redefined(
            NameView { named: true, text: name@ },
            base,
            node@,
        ).stack);
    }

    /// Finishes the entry on top of the stack.
    pub fn finish_entry(&mut self) -> (ident: TypeIdent)
        requires
            old(self)@.stack.len() > 0,
            old(self)@.stack.last() is Node,
        ensures
            final(self)@ == old(self)@.closed(),
            ident@ == old(self)@.stack.last()->ident,
    {
        match self.pop_stack() {
            StackEntry::Node { ident, entry } => {
                self.ident_cache.insert(ident.copy());
                self.node_cache.insert(ident.copy(), entry);
                ident
            },
            _ => vstd::pervasive::unreached(),
        }
    }
}

} // verus!
