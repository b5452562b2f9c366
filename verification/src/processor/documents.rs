//! Processes whole schemas.

use vstd::prelude::*;

use super::{failure, NodeCacheProcessor, StackEntry};
use crate::ident::{IdentView, TypeIdent};
use crate::identcache::{InterpreterError, ErrorView, IdentCache, IdentCacheView, ScopeView};
use crate::models::{xml_namespace, xs_namespace, xsi_namespace};
use crate::models::{Label, Namespace, NamespaceId, SchemaId};
use crate::naming::MetaTypes;
use crate::nodes::{Node, NodeCacheEntry, NodeDependency, NodeDependencyKey};
use crate::order::{in_order, lemma_in_order_finite};
use crate::ordmap::{OrdMap, OrdSet};
use crate::schemas::{SchemaInfo, Schemas};
use crate::schemawalk::{
    all_named, around, clear, content_run, define, entered, given, global_namespaces,
    import_run, imports_run, is_named, known_schema, listed_dependencies, moved, not_yet_copied,
    override_definition, override_definitions, part_named, part_run, points_to, process_run,
    readable, redefine, redefine_definition, redefine_definitions, redefinitions_run, referred,
    replace_run, replaced, repointed, schema_definition, schema_named, schema_run, schemas_run,
    settle, settle_one, settled, unprocessed, update_entries, update_entry, Pending,
};
use crate::schemawalk::{
    lemma_around_trans, lemma_content_stuck, lemma_count, lemma_fewer_unprocessed,
    lemma_imports_stuck, lemma_redefinitions_stuck, lemma_same_schema, lemma_schemas_stuck,
    lemma_settle_one,
};
use crate::steps::{node_steps, DependencyKeyView};
use crate::text::{opt_text, same_bytes};
use crate::walk::{lemma_entered, lemma_popped_kept, lemma_pushed, lemma_shape_positions};
use crate::walk::{run, CacheView};
use crate::xs::{Override, OverrideContent, Redefine, RedefineContent, SchemaContent};

verus! {

/// Whether an entry depends on an identifier, and does not redefine it.
fn is_stale(entry: &NodeCacheEntry<'_>, ident: &TypeIdent) -> (b: bool)
    ensures
        b == !clear(entry@, ident@),
{
    match &entry.redefine_base {
        Some(base) => {
            if base.same(ident) {
                return false;
            }
        },
        None => {},
    }
    let n = entry.dependencies.len();
    let ghost keys = in_order::<NodeDependencyKey>(entry.dependencies@.dom());
    let mut k: usize = 0;
    while k < n
        invariant
            keys == in_order::<NodeDependencyKey>(entry.dependencies@.dom()),
            n == keys.len(),
            k <= n,
            forall|j: int|
                0 <= j < k ==> entry@.dependencies[#[trigger] keys[j]].ident != ident@,
            entry@.redefine_base != Some(ident@),
        decreases n - k,
    {
        let _key = entry.dependencies.key_at(k);
        if entry.dependencies.value_at(k).deref().same(ident) {
            assert(entry@.dependencies.contains_key(keys[k as int]));
            return true;
        }
        k = k + 1;
    }
    proof {
        if points_to(entry@, ident@) {
            let key = choose|key: DependencyKeyView| #[trigger]
                entry@.dependencies.contains_key(key) && entry@.dependencies[key].ident == ident@;
            assert(entry@.dependencies.dom().contains(key));
            assert(keys.contains(key));
        }
    }
    false
}

/// Lets every dependency of an entry on an identifier point to another one.
fn repoint<'a>(
    entry: &NodeCacheEntry<'a>,
    old_ident: &TypeIdent,
    ident: &TypeIdent,
) -> (e: NodeCacheEntry<'a>)
    ensures
        e@ == repointed(entry@, old_ident@, ident@),
{
    let ghost goal = repointed(entry@, old_ident@, ident@).dependencies;
    let n = entry.dependencies.len();
    let ghost keys = in_order::<NodeDependencyKey>(entry.dependencies@.dom());
    let mut dependencies: OrdMap<NodeDependencyKey, NodeDependency> = OrdMap::new();
    let mut k: usize = 0;
    while k < n
        invariant
            goal == repointed(entry@, old_ident@, ident@).dependencies,
            keys == in_order::<NodeDependencyKey>(entry.dependencies@.dom()),
            n == keys.len(),
            k <= n,
            forall|j: int| 0 <= j < k ==> dependencies@.contains_key(#[trigger] keys[j]),
            forall|key: DependencyKeyView| #[trigger]
                dependencies@.contains_key(key) ==> goal.contains_key(key) && dependencies@[key]
                    == goal[key],
        decreases n - k,
    {
        let key = entry.dependencies.key_at(k).copy();
        let mut dep = entry.dependencies.value_at(k).copy();
        let ghost before = dep@;
        if dep.deref().same(old_ident) {
            let target = dep.deref_mut();
            *target = ident.copy();
        }
        assert(dep@ == moved(before, old_ident@, ident@));
        dependencies.insert(key, dep);
        k = k + 1;
    }
    proof {
        assert forall|key: DependencyKeyView| goal.contains_key(key) implies
            dependencies@.contains_key(key) by {
            assert(entry@.dependencies.dom().contains(key));
            assert(keys.contains(key));
        }
        assert(dependencies@ =~= goal);
    }
    let mut e = entry.copy();
    e.dependencies = dependencies;
    e
}

impl<'a> NodeCacheProcessor<'a> {
    /// Updates one entry that may point to a replaced identifier.
    fn update_entry(
        &mut self,
        at: &TypeIdent,
        old_ident: &TypeIdent,
        schema: SchemaId,
        work: &mut OrdSet<TypeIdent>,
    )
        ensures
            ({
                let p = update_entry(
                    at@,
                    old_ident@,
                    schema,
                    Pending { nodes: old(self)@.nodes, idents: old(self)@.idents, work: old(work)@ },
                );
                &&& final(work)@ == p.work
                &&& final(self)@ == (CacheView { nodes: p.nodes, idents: p.idents, ..old(self)@ })
            }),
    {
        let mut entry = match self.node_cache.get(at) {
            Some(entry) => {
                if !is_stale(entry, old_ident) {
                    return ;
                }
                repoint(entry, old_ident, &old_ident.copy().with_schema(schema))
            },
            None => {
                return ;
            },
        };
        if at.schema == schema {
            self.node_cache.insert(at.copy(), entry);
        } else {
            entry.redefine_base = Some(at.copy());
            let ident = at.copy().with_schema(schema);
            self.node_cache.insert(ident.copy(), entry);
            self.ident_cache.insert(ident);
            work.insert(at.copy());
        }
    }

    /// Lets all entries that the current schema sees, and that point to replaced identifiers, point
    /// to the identifiers of the current schema.
    pub fn resolve_dependencies(&mut self, idents: OrdSet<TypeIdent>)
        requires
            old(self)@.in_schema(),
        ensures
            final(self)@ == settled(old(self)@, idents@),
    {
        let schema = self.current_schema();
        let mut idents = idents;
        let ghost st = self@;
        let ghost start = Pending { nodes: st.nodes, idents: st.idents, work: idents@ };
        proof {
            idents.lemma_finite();
            self.lemma_finite();
        }
        let ghost mut now = start;
        while idents.len() > 0
            invariant
                now == (Pending { nodes: self@.nodes, idents: self@.idents, work: idents@ }),
                self@ == (CacheView { nodes: now.nodes, idents: now.idents, ..st }),
                now.idents.idents.finite(),
                now.work.finite(),
                settle(schema, start) == settle(schema, now),
            decreases
                not_yet_copied(schema, now.idents.idents).len(),
                now.work.len(),
        {
            proof {
                lemma_in_order_finite::<TypeIdent>(now.work);
            }
            let old_ident = idents.at(0).copy();
            idents.remove(&old_ident);
            let list = self.ident_cache.schema_set(schema);
            let ghost entries = list.deep_view();
            let ghost first = Pending { work: idents@, ..now };
            let mut k: usize = 0;
            assert(entries.take(0) =~= Seq::<IdentView>::empty());
            while k < list.len()
                invariant
                    entries == list.deep_view(),
                    k <= list@.len(),
                    ({
                        let p = update_entries(entries.take(k as int), old_ident@, schema, first);
                        &&& idents@ == p.work
                        &&& self@ == (CacheView { nodes: p.nodes, idents: p.idents, ..st })
                    }),
                decreases list@.len() - k,
            {
                proof {
                    assert(entries.take(k + 1).drop_last() =~= entries.take(k as int));
                    assert(entries.take(k + 1).last() == list@[k as int]@);
                }
                self.update_entry(&list[k], &old_ident, schema, &mut idents);
                k = k + 1;
            }
            proof {
                assert(entries.take(k as int) =~= entries);
                lemma_settle_one(schema, now);
                now = settle_one(schema, now);
            }
        }
        proof {
            assert(now.work =~= Set::empty());
        }
    }
}

/// The definition that a part of a schema holds.
fn schema_part<'a>(c: &'a SchemaContent) -> (d: Option<(&'a Option<String>, Node<'a>)>)
    ensures
        match d {
            Some((name, node)) => schema_definition(*c) == Some((opt_text(*name), node@)),
            None => schema_definition(*c) is None,
        },
        d is None <==> c is Include || c is Import || c is Redefine || c is Override || c is Annotation
            || c is DefaultOpenContent || c is Notation,
{
    match c {
        SchemaContent::Element(x) => Some((&x.name, Node::Element(x))),
        SchemaContent::Attribute(x) => Some((&x.name, Node::Attribute(x))),
        SchemaContent::SimpleType(x) => Some((&x.name, Node::SimpleType(x))),
        SchemaContent::ComplexType(x) => Some((&x.name, Node::ComplexType(x))),
        SchemaContent::Group(x) => Some((&x.name, Node::Group(x))),
        SchemaContent::AttributeGroup(x) => Some((&x.name, Node::AttributeGroup(x))),
        _ => None,
    }
}

/// The definition that a part of an override holds.
fn override_part<'a>(c: &'a OverrideContent) -> (d: Option<(&'a Option<String>, Node<'a>)>)
    ensures
        match d {
            Some((name, node)) => override_definition(*c) == Some((opt_text(*name), node@)),
            None => override_definition(*c) is None,
        },
        d is None <==> c is Annotation || c is Notation,
{
    match c {
        OverrideContent::Element(x) => Some((&x.name, Node::Element(x))),
        OverrideContent::Attribute(x) => Some((&x.name, Node::Attribute(x))),
        OverrideContent::SimpleType(x) => Some((&x.name, Node::SimpleType(x))),
        OverrideContent::ComplexType(x) => Some((&x.name, Node::ComplexType(x))),
        OverrideContent::Group(x) => Some((&x.name, Node::Group(x))),
        OverrideContent::AttributeGroup(x) => Some((&x.name, Node::AttributeGroup(x))),
        _ => None,
    }
}

/// The definition that a part of a redefinition holds.
fn redefine_part<'a>(c: &'a RedefineContent) -> (d: Option<(&'a Option<String>, Node<'a>)>)
    ensures
        match d {
            Some((name, node)) => redefine_definition(*c) == Some((opt_text(*name), node@)),
            None => redefine_definition(*c) is None,
        },
        d is None <==> c is Annotation,
{
    match c {
        RedefineContent::SimpleType(x) => Some((&x.name, Node::SimpleType(x))),
        RedefineContent::ComplexType(x) => Some((&x.name, Node::ComplexType(x))),
        RedefineContent::Group(x) => Some((&x.name, Node::Group(x))),
        RedefineContent::AttributeGroup(x) => Some((&x.name, Node::AttributeGroup(x))),
        _ => None,
    }
}

impl<'a> NodeCacheProcessor<'a> {
    /// Processes what a node holds.
    fn process_node(&mut self, node: Node<'a>) -> (r: Result<(), InterpreterError>)
        requires
            old(self)@.in_entry(),
        ensures
            (final(self)@, failure(r)) == run(node_steps(node@), old(self)@),
    {
        match node {
            Node::Element(x) => self.process_element(x),
            Node::Attribute(x) => self.process_attribute(x),
            Node::SimpleType(x) => self.process_simple_type(x),
            Node::ComplexType(x) => self.process_complex_type(x),
            Node::Group(x) => self.process_group(x),
            Node::AttributeGroup(x) => self.process_attribute_group(x),
        }
    }

    /// Processes a definition of the current schema.
    fn define(&mut self, name: &String, node: Node<'a>) -> (r: Result<(), InterpreterError>)
        requires
            old(self)@.in_schema(),
        ensures
            (final(self)@, failure(r)) == define(name@, node@, old(self)@),
            r is Ok ==> around(old(self)@, final(self)@),
    {
        let ghost outer = self@;
        self.new_entry(name.clone(), node);
        let ghost inner = self@;
        proof {
            lemma_pushed(outer.stack, inner.stack.last());
        }
        match self.process_node(node) {
            Ok(()) => {},
            Err(e) => {
                return Err(e);
            },
        }
        proof {
            lemma_entered(outer, inner, node_steps(node@));
        }
        let _ident = self.finish_entry();
        Ok(())
    }

    /// Processes a definition of the current schema that redefines the one of the same name in
    /// `base`. Returns the identifier that it replaces.
    fn redefine(&mut self, name: &String, base: SchemaId, node: Node<'a>) -> (r: Result<
        TypeIdent,
        InterpreterError,
    >)
        requires
            old(self)@.in_schema(),
        ensures
            match r {
                Ok(ident) => {
                    &&& redefine(name@, base, node@, old(self)@) == (
                        final(self)@,
                        None::<ErrorView>,
                    )
                    &&& ident@ == old(self)@.redefined_ident(given(name@), base, node@)
                    &&& around(old(self)@, final(self)@)
                },
                Err(e) => redefine(name@, base, node@, old(self)@) == (final(self)@, Some(e@)),
            },
    {
        let ghost outer = self@;
        self.new_redefined_entry(name.clone(), base, node);
        let ghost inner = self@;
        proof {
            lemma_pushed(outer.stack, inner.stack.last());
        }
        match self.process_node(node) {
            Ok(()) => {},
            Err(e) => {
                return Err(e);
            },
        }
        proof {
            lemma_entered(outer, inner, node_steps(node@));
        }
        let ident = self.finish_entry();
        Ok(ident.with_schema(base))
    }

    /// Processes the definitions of the current schema.
    pub fn process_schema_content(
        &mut self,
        info: &'a SchemaInfo,
    ) -> (r: Result<(), InterpreterError>)
        requires
            old(self)@.in_schema(),
            schema_named(info@),
        ensures
            (final(self)@, failure(r)) == content_run(
                info@.schema.content,
                info@.schema.content.len(),
                old(self)@,
            ),
            r is Ok ==> around(old(self)@, final(self)@),
    {
        let ghost content = info@.schema.content;
        let ghost st = self@;
        let mut i: usize = 0;
        let mut r: Result<(), InterpreterError> = Ok(());
        while i < info.schema.content.len() && r.is_ok()
            invariant
                content == info.schema.content@,
                content == info@.schema.content,
                i <= content.len(),
                st.in_schema(),
                schema_named(info@),
                (self@, failure(r)) == content_run(content, i as nat, st),
                r is Ok ==> around(st, self@),
            decreases content.len() - i,
        {
            proof {
                lemma_shape_positions(st.stack, self@.stack);
                assert(part_named(content[i as int], info@.dependencies));
            }
            let ghost mid = self@;
            match schema_part(&info.schema.content[i]) {
                Some((Some(name), node)) => {
                    r = self.define(name, node);
                    proof {
                        if r is Ok {
                            lemma_around_trans(st, mid, self@);
                        }
                    }
                },
                _ => {},
            }
            i = i + 1;
        }
        proof {
            if r is Err {
                lemma_content_stuck(content, i as nat, content.len(), st);
            }
        }
        r
    }

    /// Processes the definitions that override those of the schema `base`.
    pub fn process_override(
        &mut self,
        ty: &'a Override,
        base: SchemaId,
    ) -> (r: Result<(), InterpreterError>)
        requires
            old(self)@.in_schema(),
            all_named(override_definitions(ty.content@)),
        ensures
            (final(self)@, failure(r)) == replace_run(
                override_definitions(ty.content@),
                base,
                old(self)@,
            ),
            r is Ok ==> around(old(self)@, final(self)@),
    {
        let ghost defs = override_definitions(ty.content@);
        let ghost st = self@;
        let mut idents: OrdSet<TypeIdent> = OrdSet::new();
        let mut i: usize = 0;
        while i < ty.content.len()
            invariant
                defs == override_definitions(ty.content@),
                i <= defs.len(),
                st.in_schema(),
                all_named(defs),
                (self@, None::<ErrorView>) == redefinitions_run(defs, i as nat, base, st),
                idents@ == replaced(defs, i as nat, base, st),
                around(st, self@),
                (*old(self))@ == st,
            decreases defs.len() - i,
        {
            proof {
                lemma_shape_positions(st.stack, self@.stack);
                assert(is_named(defs[i as int]));
            }
            let ghost mid = self@;
            match override_part(&ty.content[i]) {
                Some((Some(name), node)) => match self.redefine(name, base, node) {
                    Ok(ident) => {
                        idents.insert(ident);
                        proof {
                            lemma_around_trans(st, mid, self@);
                            lemma_same_schema(st, mid);
                        }
                    },
                    Err(e) => {
                        proof {
                            lemma_redefinitions_stuck(defs, (i + 1) as nat, defs.len(), base, st);
                        }
                        return Err(e);
                    },
                },
                _ => {},
            }
            i = i + 1;
        }
        proof {
            lemma_shape_positions(st.stack, self@.stack);
        }
        self.resolve_dependencies(idents);
        Ok(())
    }

    /// Processes the definitions that redefine those of the schema `base`.
    pub fn process_redefine(
        &mut self,
        ty: &'a Redefine,
        base: SchemaId,
    ) -> (r: Result<(), InterpreterError>)
        requires
            old(self)@.in_schema(),
            all_named(redefine_definitions(ty.content@)),
        ensures
            (final(self)@, failure(r)) == replace_run(
                redefine_definitions(ty.content@),
                base,
                old(self)@,
            ),
            r is Ok ==> around(old(self)@, final(self)@),
    {
        let ghost defs = redefine_definitions(ty.content@);
        let ghost st = self@;
        let mut idents: OrdSet<TypeIdent> = OrdSet::new();
        let mut i: usize = 0;
        while i < ty.content.len()
            invariant
                defs == redefine_definitions(ty.content@),
                i <= defs.len(),
                st.in_schema(),
                all_named(defs),
                (self@, None::<ErrorView>) == redefinitions_run(defs, i as nat, base, st),
                idents@ == replaced(defs, i as nat, base, st),
                around(st, self@),
                (*old(self))@ == st,
            decreases defs.len() - i,
        {
            proof {
                lemma_shape_positions(st.stack, self@.stack);
                assert(is_named(defs[i as int]));
            }
            let ghost mid = self@;
            match redefine_part(&ty.content[i]) {
                Some((Some(name), node)) => match self.redefine(name, base, node) {
                    Ok(ident) => {
                        idents.insert(ident);
                        proof {
                            lemma_around_trans(st, mid, self@);
                            lemma_same_schema(st, mid);
                        }
                    },
                    Err(e) => {
                        proof {
                            lemma_redefinitions_stuck(defs, (i + 1) as nat, defs.len(), base, st);
                        }
                        return Err(e);
                    },
                },
                _ => {},
            }
            i = i + 1;
        }
        proof {
            lemma_shape_positions(st.stack, self@.stack);
        }
        self.resolve_dependencies(idents);
        Ok(())
    }
}

/// The location of the schema that a part of a schema refers to.
fn referred_location(c: &SchemaContent) -> (r: Option<&String>)
    ensures
        match r {
            Some(l) => referred(*c) == Some(l@),
            None => referred(*c) is None,
        },
{
    match c {
        SchemaContent::Import(x) => match &x.schema_location {
            Some(l) => Some(l),
            None => None,
        },
        SchemaContent::Include(x) => Some(&x.schema_location),
        SchemaContent::Override(x) => Some(&x.schema_location),
        SchemaContent::Redefine(x) => Some(&x.schema_location),
        _ => None,
    }
}

impl<'a> NodeCacheProcessor<'a> {
    /// Makes a schema and its dependencies known to the identifier cache.
    fn register_schema(&mut self, schema: SchemaId, info: &'a SchemaInfo)
        ensures
            final(self)@ == known_schema(old(self)@, schema, info@),
    {
        let ghost st = self@;
        let ghost before = st.idents.dependencies_of(schema);
        let ghost listed = listed_dependencies(info@.dependencies);
        self.ident_cache.add_schema(info.namespace_id, schema);
        let n = info.dependencies.len();
        let mut k: usize = 0;
        assert(before + listed.take(0) =~= before);
        while k < n
            invariant
                before == st.idents.dependencies_of(schema),
                listed == listed_dependencies(info@.dependencies),
                n == listed.len(),
                k <= n,
                self@ == (CacheView {
                    idents: IdentCacheView {
                        scopes: st.idents.scopes.insert(
                            schema,
                            ScopeView {
                                ns: info.namespace_id,
                                dependencies: before + listed.take(k as int),
                            },
                        ),
                        ..st.idents
                    },
                    ..st
                }),
            decreases n - k,
        {
            let dep = *info.dependencies.value_at(k);
            self.ident_cache.add_dependency(schema, dep);
            proof {
                assert(before + listed.take(k + 1) =~= (before + listed.take(k as int)).push(dep));
                assert(self@.idents.scopes =~= st.idents.scopes.insert(
                    schema,
                    ScopeView {
                        ns: info.namespace_id,
                        dependencies: before + listed.take(k + 1),
                    },
                ));
            }
            k = k + 1;
        }
        assert(listed.take(k as int) =~= listed);
    }

    /// Processes the schema that a part of a schema refers to, and what it replaces in it.
    fn process_import(&mut self, info: &'a SchemaInfo, c: &'a SchemaContent) -> (r: Result<
        (),
        InterpreterError,
    >)
        requires
            old(self)@.in_schema(),
            readable(old(self)@.schemas),
            part_named(*c, info@.dependencies),
            forall|l: Seq<char>| #[trigger]
                info@.dependencies.contains_key(l) ==> old(self)@.schemas.schemas.contains_key(
                    info@.dependencies[l].target(),
                ),
        ensures
            forall|depth: nat|
                depth >= unprocessed(old(self)@).len() ==> #[trigger] import_run(
                    depth,
                    info@.dependencies,
                    *c,
                    old(self)@,
                ) == (final(self)@, failure(r)),
            r is Ok ==> around(old(self)@, final(self)@),
        decreases unprocessed(old(self)@).len(), 1nat,
    {
        let ghost st = self@;
        let base = match referred_location(c) {
            Some(location) => match info.dependencies.get(&Label(location.clone())) {
                Some(base) => *base.get(),
                None => {
                    return Ok(());
                },
            },
            None => {
                return Ok(());
            },
        };
        let r = self.process_schema(base);
        let ghost mid = self@;
        proof {
            assert forall|depth: nat| depth >= unprocessed(st).len() implies #[trigger] import_run(
                depth,
                info@.dependencies,
                *c,
                st,
            ) == if r is Err {
                (mid, failure(r))
            } else {
                part_run(*c, base, mid)
            } by {
                assert(schema_run(depth, base, st) == (mid, failure(r)));
            }
        }
        if r.is_err() {
            return r;
        }
        proof {
            lemma_same_schema(st, mid);
        }
        let r = match c {
            SchemaContent::Override(x) => self.process_override(x, base),
            SchemaContent::Redefine(x) => self.process_redefine(x, base),
            _ => Ok(()),
        };
        proof {
            if r is Ok {
                lemma_around_trans(st, mid, self@);
            }
        }
        r
    }

    /// Processes the schemas that a schema refers to, and what it replaces in them.
    pub fn process_schema_imports(&mut self, schema: SchemaId, info: &'a SchemaInfo) -> (r: Result<
        (),
        InterpreterError,
    >)
        requires
            old(self)@.in_schema(),
            readable(old(self)@.schemas),
            old(self)@.schemas.schemas.contains_key(schema),
            old(self)@.schemas.schemas[schema] == info@,
        ensures
            forall|depth: nat|
                depth >= unprocessed(old(self)@).len() ==> #[trigger] imports_run(
                    depth,
                    info@,
                    info@.schema.content.len(),
                    known_schema(old(self)@, schema, info@),
                ) == (final(self)@, failure(r)),
            r is Ok ==> around(old(self)@, final(self)@),
        decreases unprocessed(old(self)@).len(), 2nat,
    {
        self.register_schema(schema, info);
        let ghost st = self@;
        let ghost content = info@.schema.content;
        let ghost limit = unprocessed(st).len();
        let mut i: usize = 0;
        let mut r: Result<(), InterpreterError> = Ok(());
        while i < info.schema.content.len() && r.is_ok()
            invariant
                content == info.schema.content@,
                content == info@.schema.content,
                i <= content.len(),
                st.in_schema(),
                readable(st.schemas),
                st.schemas.schemas.contains_key(schema),
                st.schemas.schemas[schema] == info@,
                limit == unprocessed(st).len(),
                limit == unprocessed(old(self)@).len(),
                forall|depth: nat|
                    depth >= limit ==> #[trigger] imports_run(depth, info@, i as nat, st) == (
                        self@,
                        failure(r),
                    ),
                r is Ok ==> around(st, self@),
            decreases content.len() - i,
        {
            let ghost mid = self@;
            proof {
                lemma_same_schema(st, mid);
                assert(part_named(content[i as int], info@.dependencies));
                self.schemas.schemas.lemma_finite();
                lemma_fewer_unprocessed(st, mid);
                assert forall|l: Seq<char>| #[trigger]
                    info@.dependencies.contains_key(l) implies mid.schemas.schemas.contains_key(
                    info@.dependencies[l].target(),
                ) by {
                    assert(st.schemas.schemas[schema].dependencies[l] == info@.dependencies[l]);
                }
            }
            r = self.process_import(info, &info.schema.content[i]);
            proof {
                if r is Ok {
                    lemma_around_trans(st, mid, self@);
                }
                assert forall|depth: nat| depth >= limit implies #[trigger] imports_run(
                    depth,
                    info@,
                    (i + 1) as nat,
                    st,
                ) == (self@, failure(r)) by {
                    assert(imports_run(depth, info@, i as nat, st) == (mid, None::<ErrorView>));
                    assert(import_run(depth, info@.dependencies, content[i as int], mid) == (
                        self@,
                        failure(r),
                    ));
                }
            }
            i = i + 1;
        }
        proof {
            if r is Err {
                assert forall|depth: nat| depth >= limit implies #[trigger] imports_run(
                    depth,
                    info@,
                    content.len(),
                    st,
                ) == (self@, failure(r)) by {
                    assert(imports_run(depth, info@, i as nat, st) == (self@, failure(r)));
                    lemma_imports_stuck(depth, info@, i as nat, content.len(), st);
                }
            }
        }
        r
    }

    /// Processes a schema, unless it was processed already.
    pub fn process_schema(&mut self, id: SchemaId) -> (r: Result<(), InterpreterError>)
        requires
            readable(old(self)@.schemas),
            old(self)@.schemas.schemas.contains_key(id),
        ensures
            forall|depth: nat|
                depth >= unprocessed(old(self)@).len() ==> #[trigger] schema_run(
                    depth,
                    id,
                    old(self)@,
                ) == (final(self)@, failure(r)),
            r is Ok ==> around(old(self)@, final(self)@),
        decreases unprocessed(old(self)@).len(), 0nat,
    {
        let ghost st = self@;
        if !self.processed_schemas.insert(id) {
            assert(st.processed.insert(id) =~= st.processed);
            return Ok(());
        }
        let info = match self.schemas.get_schema(&id) {
            Some(info) => info,
            None => vstd::pervasive::unreached(),
        };
        self.push_stack(StackEntry::Schema { id, info });
        let ghost inner = self@;
        let ghost limit = unprocessed(inner).len();
        proof {
            lemma_pushed(st.stack, inner.stack.last());
            self.schemas.schemas.lemma_finite();
            assert(unprocessed(inner) =~= unprocessed(st).remove(id));
            assert(unprocessed(st).contains(id));
            assert(schema_named(st.schemas.schemas[id]));
            assert(inner == entered(id, st));
        }
        let r = self.process_schema_imports(id, info);
        let ghost mid = self@;
        proof {
            assert forall|depth: nat| depth >= unprocessed(st).len() implies #[trigger] schema_run(
                depth,
                id,
                st,
            ) == (if r is Err {
                (mid, failure(r))
            } else {
                let content = info@.schema.content;
                let (end, error) = content_run(content, content.len(), mid);
                if error is Some {
                    (end, error)
                } else {
                    (end.popped(), None)
                }
            }) by {
                assert(imports_run(
                    (depth - 1) as nat,
                    info@,
                    info@.schema.content.len(),
                    known_schema(inner, id, info@),
                ) == (mid, failure(r)));
            }
        }
        if r.is_err() {
            return r;
        }
        proof {
            lemma_same_schema(inner, mid);
        }
        let r = self.process_schema_content(info);
        if r.is_err() {
            return r;
        }
        proof {
            lemma_around_trans(inner, mid, self@);
            lemma_popped_kept(st, inner, self@);
        }
        let _level = self.pop_stack();
        Ok(())
    }

    /// Processes all schemas.
    pub fn process(&mut self) -> (r: Result<(), InterpreterError>)
        requires
            readable(old(self)@.schemas),
        ensures
            (final(self)@, failure(r)) == process_run(old(self)@),
    {
        let ghost st = self@;
        let schemas = self.schemas;
        let n = schemas.namespace_infos.len();
        let ghost order = in_order::<NamespaceId>(st.schemas.namespace_infos.dom());
        let xml = Namespace::xml();
        let xs = Namespace::xs();
        let xsi = Namespace::xsi();
        let ghost all = global_namespaces(st.schemas);
        let mut k: usize = 0;
        assert(st.idents.globals =~= st.idents.globals.union(
            all.filter(|x: NamespaceId| order.take(0).contains(x)),
        ));
        while k < n
            invariant
                schemas@ == st.schemas,
                order == in_order::<NamespaceId>(st.schemas.namespace_infos.dom()),
                n == order.len(),
                k <= n,
                all == global_namespaces(st.schemas),
                xml@ == xml_namespace(),
                xs@ == xs_namespace(),
                xsi@ == xsi_namespace(),
                self@ == (CacheView {
                    idents: IdentCacheView {
                        globals: st.idents.globals.union(
                            all.filter(|x: NamespaceId| order.take(k as int).contains(x)),
                        ),
                        ..st.idents
                    },
                    ..st
                }),
            decreases n - k,
        {
            let id = *schemas.namespace_infos.key_at(k);
            let info = schemas.namespace_infos.value_at(k);
            let global = match &info.namespace {
                Some(ns) => same_bytes(ns.0.as_slice(), xml.0.as_slice()) || same_bytes(
                    ns.0.as_slice(),
                    xs.0.as_slice(),
                ) || same_bytes(ns.0.as_slice(), xsi.0.as_slice()),
                None => false,
            };
            if global {
                self.ident_cache.add_global_namespace(id);
            }
            proof {
                let t0 = order.take(k as int);
                let t1 = order.take(k + 1);
                assert(t1 =~= t0.push(order[k as int]));
                assert forall|x: NamespaceId| t1.contains(x) <==> (t0.contains(x) || x
                    == order[k as int]) by {
                    if t0.contains(x) {
                        let p = choose|p: int| 0 <= p < t0.len() && t0[p] == x;
                        assert(t1[p] == x);
                    }
                    if x == order[k as int] {
                        assert(t1[k as int] == x);
                    }
                    if t1.contains(x) && x != order[k as int] {
                        let p = choose|p: int| 0 <= p < t1.len() && t1[p] == x;
                        assert(t0[p] == x);
                    }
                }
                assert(self@.idents.globals =~= st.idents.globals.union(
                    all.filter(|x: NamespaceId| t1.contains(x)),
                ));
            }
            k = k + 1;
        }
        proof {
            assert(order.take(k as int) =~= order);
            assert(all.filter(|x: NamespaceId| order.contains(x)) =~= all);
        }
        let ghost start = self@;
        let count = schemas.schemas.len();
        let ghost ids = in_order::<SchemaId>(st.schemas.schemas.dom());
        proof {
            schemas.schemas.lemma_finite();
            lemma_count(ids, st.schemas.schemas.dom());
            vstd::set_lib::lemma_len_subset(unprocessed(start), st.schemas.schemas.dom());
        }
        let mut i: usize = 0;
        let mut r: Result<(), InterpreterError> = Ok(());
        while i < count && r.is_ok()
            invariant
                schemas@ == st.schemas,
                start.schemas == st.schemas,
                readable(st.schemas),
                ids == in_order::<SchemaId>(st.schemas.schemas.dom()),
                count == ids.len(),
                i <= count,
                unprocessed(start).len() <= ids.len(),
                (self@, failure(r)) == schemas_run(ids, i as nat, ids.len(), start),
                r is Ok ==> around(start, self@),
            decreases count - i,
        {
            let id = *schemas.schemas.key_at(i);
            let ghost mid = self@;
            proof {
                schemas.schemas.lemma_finite();
                lemma_fewer_unprocessed(start, mid);
            }
            r = self.process_schema(id);
            proof {
                assert(schema_run(ids.len(), id, mid) == (self@, failure(r)));
                if r is Ok {
                    lemma_around_trans(start, mid, self@);
                }
            }
            i = i + 1;
        }
        proof {
            if r is Err {
                lemma_schemas_stuck(ids, i as nat, ids.len(), ids.len(), start);
            }
        }
        r
    }
}

/// The state of the interpreter as far as the node cache needs it.
pub struct State<'a> {
    /// Hands out the numbers of made up names.
    pub types: MetaTypes,
    /// All loaded schemas.
    pub schemas: &'a Schemas,
    /// The entries of all definitions.
    pub node_cache: OrdMap<TypeIdent, NodeCacheEntry<'a>>,
    /// All known identifiers.
    pub ident_cache: IdentCache,
}

impl<'a> View for State<'a> {
    type V = CacheView;

    open spec fn view(&self) -> CacheView {
        CacheView {
            schemas: self.schemas@,
            nodes: self.node_cache@,
            idents: self.ident_cache@,
            stack: Seq::empty(),
            processed: Set::empty(),
            next_id: self.types@,
        }
    }
}

impl<'a> State<'a> {
    /// A state knows finitely many schemas and identifiers.
    pub proof fn lemma_finite(&self)
        ensures
            self@.idents.idents.finite(),
            self@.schemas.schemas.dom().finite(),
    {
        self.ident_cache.lemma_finite();
        self.schemas.schemas.lemma_finite();
    }

    /// Creates a state with empty caches.
    pub fn new(schemas: &'a Schemas) -> (s: Self)
        ensures
            s@ == (CacheView {
                schemas: schemas@,
                nodes: Map::empty(),
                idents: IdentCacheView {
                    idents: Set::empty(),
                    scopes: Map::empty(),
                    globals: Set::empty(),
                },
                stack: Seq::empty(),
                processed: Set::empty(),
                next_id: 1,
            }),
    {
        State {
            types: MetaTypes::new(1),
            schemas,
            node_cache: OrdMap::new(),
            ident_cache: IdentCache::new(),
        }
    }

    /// Creates the entries of all definitions of the schemas.
    ///
    /// Every definition gets an entry with everything that it depends on. Where a schema overrides
    /// or redefines what another one holds, the entries that it sees point to its own definitions,
    /// and are copied to it where they belong to another schema.
    pub fn create_node_cache(&mut self) -> (r: Result<(), InterpreterError>)
        requires
            readable(old(self)@.schemas),
        ensures
            ({
                let (end, error) = process_run(old(self)@);
                &&& failure(r) == error
                &&& final(self)@ == (CacheView {
                    schemas: old(self)@.schemas,
                    stack: Seq::empty(),
                    processed: Set::empty(),
                    ..end
                })
            }),
    {
        let mut types = MetaTypes::new(0);
        let mut node_cache: OrdMap<TypeIdent, NodeCacheEntry<'a>> = OrdMap::new();
        let mut ident_cache = IdentCache::new();
        std::mem::swap(&mut types, &mut self.types);
        std::mem::swap(&mut node_cache, &mut self.node_cache);
        std::mem::swap(&mut ident_cache, &mut self.ident_cache);
        let mut processor = NodeCacheProcessor::new(types, self.schemas, node_cache, ident_cache);
        assert(processor@ == old(self)@);
        let r = processor.process();
        self.types = processor.types;
        self.node_cache = processor.node_cache;
        self.ident_cache = processor.ident_cache;
        r
    }
}

} // verus!
