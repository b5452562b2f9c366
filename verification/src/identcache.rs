//! The cache that resolves references to identifiers.

use vstd::prelude::*;

use crate::ident::{IdentView, TypeIdent};
use crate::models::{Dependency, Namespace, NamespaceId, SchemaId, UNKNOWN_SCHEMA};
use crate::order::{before, cons, in_order, lists};
use crate::order::lemma_cons_order;
use crate::ordmap::{OrdMap, OrdSet};

verus! {

/// Why a reference cannot be resolved.
#[derive(Debug)]
pub enum InterpreterError {
    /// No schema uses the namespace.
    UnknownNamespace(Namespace),
    /// The local part of a name is not valid UTF-8.
    InvalidLocalName(Vec<u8>),
    /// Nothing is known by that name.
    UnknownType(TypeIdent),
}

/// The parts of an error.
pub enum ErrorView {
    UnknownNamespace(Seq<u8>),
    InvalidLocalName(Seq<u8>),
    UnknownType(IdentView),
}

impl View for InterpreterError {
    type V = ErrorView;

    open spec fn view(&self) -> ErrorView {
        match self {
            InterpreterError::UnknownNamespace(n) => ErrorView::UnknownNamespace(n@),
            InterpreterError::InvalidLocalName(n) => ErrorView::InvalidLocalName(n@),
            InterpreterError::UnknownType(i) => ErrorView::UnknownType(i@),
        }
    }
}

/// The view of a resolved identifier.
pub open spec fn resolved(r: Result<TypeIdent, InterpreterError>) -> Result<IdentView, ErrorView> {
    match r {
        Ok(i) => Ok(i@),
        Err(e) => Err(e@),
    }
}

/// The namespace of a schema, and the schemas that it refers to.
pub struct Scope {
    ns: NamespaceId,
    dependencies: Vec<Dependency<SchemaId>>,
}

/// The parts of a scope.
pub struct ScopeView {
    pub ns: NamespaceId,
    pub dependencies: Seq<Dependency<SchemaId>>,
}

impl DeepView for Scope {
    type V = ScopeView;

    closed spec fn deep_view(&self) -> ScopeView {
        ScopeView { ns: self.ns, dependencies: self.dependencies@ }
    }
}

/// Knows all identifiers, and which schema can see which other one.
pub struct IdentCache {
    idents: OrdSet<TypeIdent>,
    scopes: OrdMap<SchemaId, Scope>,
    globals: OrdSet<NamespaceId>,
}

/// The parts of an identifier cache.
pub struct IdentCacheView {
    pub idents: Set<IdentView>,
    pub scopes: Map<SchemaId, ScopeView>,
    pub globals: Set<NamespaceId>,
}

impl View for IdentCache {
    type V = IdentCacheView;

    closed spec fn view(&self) -> IdentCacheView {
        IdentCacheView {
            idents: self.idents@,
            scopes: self.scopes@,
            globals: self.globals@,
        }
    }
}

/// Whether `i` is the wanted identifier in some schema.
pub open spec fn fits(i: IdentView, wanted: IdentView) -> bool {
    i == wanted.in_schema(i.schema)
}

/// Whether the wanted identifier is known in some schema.
pub open spec fn known(idents: Set<IdentView>, wanted: IdentView) -> bool {
    exists|i: IdentView| #[trigger] idents.contains(i) && fits(i, wanted)
}

/// Whether `i` is the wanted identifier in the first schema that has it.
pub open spec fn first_fit(idents: Set<IdentView>, wanted: IdentView, i: IdentView) -> bool {
    &&& idents.contains(i)
    &&& fits(i, wanted)
    &&& forall|j: IdentView| #[trigger]
        idents.contains(j) && fits(j, wanted) ==> i.schema.0 <= j.schema.0
}

impl IdentCacheView {
    /// Resolves an identifier among those of all schemas.
    pub open spec fn resolve(self, wanted: IdentView) -> Result<IdentView, ErrorView> {
        if wanted.schema.0 != UNKNOWN_SCHEMA {
            Ok(wanted)
        } else if known(self.idents, wanted) {
            Ok(choose|i: IdentView| first_fit(self.idents, wanted, i))
        } else {
            Err(ErrorView::UnknownType(wanted))
        }
    }

    /// The first dependency of a schema that has the wanted identifier.
    pub open spec fn in_dependencies(
        self,
        deps: Seq<Dependency<SchemaId>>,
        wanted: IdentView,
    ) -> Option<IdentView>
        decreases deps.len(),
    {
        if deps.len() == 0 {
            None
        } else if self.idents.contains(wanted.in_schema(deps[0].target())) {
            Some(wanted.in_schema(deps[0].target()))
        } else {
            self.in_dependencies(deps.drop_first(), wanted)
        }
    }

    /// The schemas that a schema refers to directly.
    pub open spec fn dependencies_of(self, schema: SchemaId) -> Seq<Dependency<SchemaId>> {
        if self.scopes.contains_key(schema) {
            self.scopes[schema].dependencies
        } else {
            Seq::empty()
        }
    }

    /// Resolves an identifier as a schema sees it: in the schema itself, then in the schemas that
    /// it refers to. A name of the schema's own namespace that nothing defines yet is taken to be
    /// defined later in the schema.
    pub open spec fn resolve_for_schema(self, schema: SchemaId, wanted: IdentView) -> Result<
        IdentView,
        ErrorView,
    > {
        if wanted.schema.0 != UNKNOWN_SCHEMA {
            Ok(wanted)
        } else if self.globals.contains(wanted.ns) {
            self.resolve(wanted)
        } else if self.idents.contains(wanted.in_schema(schema)) {
            Ok(wanted.in_schema(schema))
        } else if let Some(i) = self.in_dependencies(self.dependencies_of(schema), wanted) {
            Ok(i)
        } else if self.scopes.contains_key(schema) && self.scopes[schema].ns == wanted.ns && !known(
            self.idents,
            wanted,
        ) {
            Ok(wanted.in_schema(schema))
        } else {
            Err(ErrorView::UnknownType(wanted))
        }
    }

    /// Whether schema `a` takes over the content of the registered schema `b`.
    pub open spec fn takes_over(self, a: SchemaId, b: SchemaId) -> bool {
        &&& self.scopes.contains_key(b)
        &&& exists|k: int|
            0 <= k < self.dependencies_of(a).len() && !(#[trigger] self.dependencies_of(
                a,
            )[k] is Import) && self.dependencies_of(a)[k].target() == b
    }

    /// The schemas whose content a schema takes over in at most `n` steps.
    pub open spec fn within(self, schema: SchemaId, n: nat) -> Set<SchemaId>
        decreases n,
    {
        if n == 0 {
            Set::empty().insert(schema)
        } else {
            let nearer = self.within(schema, (n - 1) as nat);
            Set::new(
                |b: SchemaId|
                    nearer.contains(b) || exists|a: SchemaId| #[trigger]
                        nearer.contains(a) && self.takes_over(a, b),
            )
        }
    }

    /// The schema itself, and all schemas whose content it takes over.
    pub open spec fn set_of(self, schema: SchemaId) -> Set<SchemaId> {
        Set::new(|b: SchemaId| exists|n: nat| #[trigger] self.within(schema, n).contains(b))
    }

    /// Whether an identifier is visible in the schema set of a schema: it belongs to the schema,
    /// or it belongs to a schema whose content is taken over and is not replaced.
    pub open spec fn visible(self, schema: SchemaId, i: IdentView) -> bool {
        &&& self.idents.contains(i)
        &&& i.schema == schema || (self.set_of(schema).contains(i.schema) && !self.idents.contains(
            i.in_schema(schema),
        ))
    }

    /// All identifiers that are visible in the schema set of a schema, in ascending order.
    pub open spec fn schema_set(self, schema: SchemaId) -> Seq<IdentView> {
        in_order::<TypeIdent>(self.idents).filter(|i: IdentView| self.visible(schema, i))
    }
}

/// A set that holds the schema, and with each schema those whose content it takes over, holds the
/// whole schema set.
pub proof fn lemma_closed(c: IdentCacheView, schema: SchemaId, s: Set<SchemaId>, n: nat)
    requires
        s.contains(schema),
        forall|a: SchemaId, b: SchemaId|
            s.contains(a) && #[trigger] c.takes_over(a, b) ==> s.contains(b),
    ensures
        c.within(schema, n).subset_of(s),
    decreases n,
{
    if n > 0 {
        lemma_closed(c, schema, s, (n - 1) as nat);
    }
}

impl IdentCache {
    /// Creates a cache that knows nothing.
    pub fn new() -> (c: Self)
        ensures
            c@ == (IdentCacheView {
                idents: Set::empty(),
                scopes: Map::empty(),
                globals: Set::empty(),
            }),
    {
        IdentCache { idents: OrdSet::new(), scopes: OrdMap::new(), globals: OrdSet::new() }
    }

    /// The cache knows finitely many identifiers.
    pub proof fn lemma_finite(&self)
        ensures
            self@.idents.finite(),
    {
        self.idents.lemma_finite();
    }

    /// Makes the identifiers of a namespace visible everywhere.
    pub fn add_global_namespace(&mut self, ns: NamespaceId)
        ensures
            final(self)@ == (IdentCacheView {
                globals: old(self)@.globals.insert(ns),
                ..old(self)@
            }),
    {
        self.globals.insert(ns);
    }

    /// Registers a schema of a namespace.
    pub fn add_schema(&mut self, ns: NamespaceId, schema: SchemaId)
        ensures
            final(self)@ == (IdentCacheView {
                scopes: old(self)@.scopes.insert(
                    schema,
                    ScopeView { ns, dependencies: old(self)@.dependencies_of(schema) },
                ),
                ..old(self)@
            }),
    {
        let scope = match self.scopes.remove(&schema) {
            Some(s) => Scope { ns, dependencies: s.dependencies },
            None => Scope { ns, dependencies: Vec::new() },
        };
        self.scopes.insert(schema, scope);
        assert(self@.scopes =~= old(self)@.scopes.insert(
            schema,
            ScopeView { ns, dependencies: old(self)@.dependencies_of(schema) },
        ));
    }

    /// Registers that a schema refers to another one. Nothing happens for an unknown schema.
    pub fn add_dependency(&mut self, schema: SchemaId, dependency: Dependency<SchemaId>)
        ensures
            final(self)@ == (IdentCacheView {
                scopes: if old(self)@.scopes.contains_key(schema) {
                    old(self)@.scopes.insert(
                        schema,
                        ScopeView {
                            ns: old(self)@.scopes[schema].ns,
                            dependencies: old(self)@.scopes[schema].dependencies.push(dependency),
                        },
                    )
                } else {
                    old(self)@.scopes
                },
                ..old(self)@
            }),
    {
        match self.scopes.remove(&schema) {
            Some(s) => {
                let mut s = s;
                s.dependencies.push(dependency);
                let ghost v = s.deep_view();
                self.scopes.insert(schema, s);
                assert(self@.scopes =~= old(self)@.scopes.insert(schema, v));
            },
            None => {
                assert(self@.scopes =~= old(self)@.scopes);
            },
        }
    }

    /// Makes an identifier known.
    pub fn insert(&mut self, ident: TypeIdent)
        ensures
            final(self)@ == (IdentCacheView {
                idents: old(self)@.idents.insert(ident@),
                ..old(self)@
            }),
    {
        self.idents.insert(ident);
    }

    /// Finds the wanted identifier in the first schema that has it.
    fn find(&self, wanted: &TypeIdent) -> (r: Option<TypeIdent>)
        ensures
            match r {
                Some(i) => first_fit(self@.idents, wanted@, i@),
                None => !known(self@.idents, wanted@),
            },
    {
        let n = self.idents.len();
        let ghost order = in_order::<TypeIdent>(self.idents@);
        let mut k: usize = 0;
        while k < n
            invariant
                order == in_order::<TypeIdent>(self.idents@),
                n == order.len(),
                k <= n,
                lists(order, self.idents@),
                crate::order::ascending::<TypeIdent>(order),
                forall|j: int| 0 <= j < k ==> !fits(#[trigger] order[j], wanted@),
            decreases n - k,
        {
            let i = self.idents.at(k);
            if i.ns == wanted.ns && i.type_ == wanted.type_ && i.name.is_named()
                == wanted.name.is_named() && crate::text::same_text(
                i.name.as_str(),
                wanted.name.as_str(),
            ) {
                let r = i.copy();
                proof {
                    assert(r@.name == wanted@.name);
                    assert(fits(r@, wanted@));
                    assert forall|j: IdentView| #[trigger]
                        self@.idents.contains(j) && fits(j, wanted@) implies r@.schema.0
                        <= j.schema.0 by {
                        assert(order.contains(j));
                        let p = choose|p: int| 0 <= p < order.len() && order[p] == j;
                        assert(p >= k);
                        if p > k {
                            assert(before::<TypeIdent>(order[k as int], order[p]));
                            lemma_schema_order(r@, j);
                        }
                    }
                }
                return Some(r);
            }
            k = k + 1;
        }
        proof {
            if known(self@.idents, wanted@) {
                let i = choose|i: IdentView| #[trigger]
                    self@.idents.contains(i) && fits(i, wanted@);
                assert(order.contains(i));
                let p = choose|p: int| 0 <= p < order.len() && order[p] == i;
                assert(false);
            }
        }
        None
    }

    /// Resolves an identifier among those of all schemas.
    pub fn resolve(&self, wanted: TypeIdent) -> (r: Result<TypeIdent, InterpreterError>)
        ensures
            resolved(r) == self@.resolve(wanted@),
    {
        if wanted.schema.0 != UNKNOWN_SCHEMA {
            return Ok(wanted);
        }
        match self.find(&wanted) {
            Some(i) => {
                proof {
                    let c = choose|c: IdentView| first_fit(self@.idents, wanted@, c);
                    assert(first_fit(self@.idents, wanted@, c));
                    assert(c == i@);
                }
                Ok(i)
            },
            None => Err(InterpreterError::UnknownType(wanted)),
        }
    }

    /// Finds an identifier in the schemas that a schema refers to.
    fn find_in_dependencies(
        &self,
        deps: &Vec<Dependency<SchemaId>>,
        wanted: &TypeIdent,
    ) -> (r: Option<TypeIdent>)
        ensures
            match r {
                Some(i) => self@.in_dependencies(deps@, wanted@) == Some(i@),
                None => self@.in_dependencies(deps@, wanted@) is None,
            },
    {
        let mut k: usize = 0;
        assert(deps@.skip(0) =~= deps@);
        while k < deps.len()
            invariant
                k <= deps@.len(),
                self@.in_dependencies(deps@, wanted@) == self@.in_dependencies(
                    deps@.skip(k as int),
                    wanted@,
                ),
            decreases deps@.len() - k,
        {
            let i = wanted.copy().with_schema(*deps[k].get());
            if self.idents.contains(&i) {
                return Some(i);
            }
            assert(deps@.skip(k as int).drop_first() =~= deps@.skip(k + 1));
            k = k + 1;
        }
        None
    }

    /// Resolves an identifier as a schema sees it.
    pub fn resolve_for_schema(&self, schema: SchemaId, wanted: TypeIdent) -> (r: Result<
        TypeIdent,
        InterpreterError,
    >)
        ensures
            resolved(r) == self@.resolve_for_schema(schema, wanted@),
    {
        if wanted.schema.0 != UNKNOWN_SCHEMA {
            return Ok(wanted);
        }
        if self.globals.contains(&wanted.ns) {
            return self.resolve(wanted);
        }
        let own = wanted.copy().with_schema(schema);
        if self.idents.contains(&own) {
            return Ok(own);
        }
        match self.scopes.get(&schema) {
            Some(scope) => {
                match self.find_in_dependencies(&scope.dependencies, &wanted) {
                    Some(i) => {
                        return Ok(i);
                    },
                    None => {},
                }
                if scope.ns == wanted.ns {
                    match self.find(&wanted) {
                        Some(_) => {},
                        None => {
                            return Ok(own);
                        },
                    }
                }
            },
            None => {},
        }
        Err(InterpreterError::UnknownType(wanted))
    }

    /// The schema itself, and all schemas whose content it takes over.
    fn schemas_of_set(&self, schema: SchemaId) -> (r: OrdSet<SchemaId>)
        ensures
            r@ == self@.set_of(schema),
    {
        let ghost c = self@;
        let mut found: OrdSet<SchemaId> = OrdSet::new();
        let mut open: Vec<SchemaId> = Vec::new();
        found.insert(schema);
        open.push(schema);
        let ghost all = c.scopes.dom().insert(schema);
        proof {
            self.scopes.lemma_finite();
            assert(c.within(schema, 0).contains(schema));
            assert(open@[0] == schema);
        }
        while open.len() > 0
            invariant
                c == self@,
                all.finite(),
                all == c.scopes.dom().insert(schema),
                found@.subset_of(all),
                found@.contains(schema),
                forall|b: SchemaId| #[trigger] found@.contains(b) ==> c.set_of(schema).contains(b),
                forall|k: int| 0 <= k < open@.len() ==> found@.contains(#[trigger] open@[k]),
                forall|a: SchemaId, b: SchemaId|
                    found@.contains(a) && !open@.contains(a) && #[trigger] c.takes_over(a, b)
                        ==> found@.contains(b),
            decreases all.difference(found@).len(), open@.len(),
        {
            let ghost found0 = found@;
            let ghost open0 = open@;
            let a = open[open.len() - 1];
            open.pop();
            assert(open0.contains(a));
            assert(open@ =~= open0.drop_last());
            assert forall|x: SchemaId| open0.contains(x) && x != a implies open@.contains(x) by {
                let k = choose|k: int| 0 <= k < open0.len() && open0[k] == x;
                assert(open@[k] == x);
            }
            match self.scopes.get(&a) {
                Some(scope) => {
                    let mut k: usize = 0;
                    while k < scope.dependencies.len()
                        invariant
                            c == self@,
                            all.finite(),
                            all == c.scopes.dom().insert(schema),
                            c.scopes.contains_key(a),
                            c.scopes[a] == scope.deep_view(),
                            k <= scope.dependencies@.len(),
                            found0.contains(a),
                            found0.subset_of(found@),
                            found@.subset_of(all),
                            found@.contains(schema),
                            forall|b: SchemaId| #[trigger]
                                found@.contains(b) ==> c.set_of(schema).contains(b),
                            forall|k: int|
                                0 <= k < open@.len() ==> found@.contains(#[trigger] open@[k]),
                            forall|x: SchemaId|
                                found@.contains(x) && !found0.contains(x) ==> open@.contains(x),
                            forall|x: SchemaId|
                                open0.contains(x) && x != a ==> open@.contains(x),
                            open@.len() <= open0.len() - 1 || found@ != found0,
                            forall|j: int|
                                0 <= j < k && !(#[trigger] scope.dependencies@[j] is Import)
                                    && c.scopes.contains_key(scope.dependencies@[j].target())
                                    ==> found@.contains(scope.dependencies@[j].target()),
                        decreases scope.dependencies@.len() - k,
                    {
                        let d = scope.dependencies[k];
                        let b = *d.get();
                        let import = match d {
                            Dependency::Import(_) => true,
                            _ => false,
                        };
                        if !import && self.scopes.contains_key(&b) && !found.contains(&b) {
                            proof {
                                assert(c.dependencies_of(a)[k as int] == d);
                                assert(c.takes_over(a, b));
                                assert(c.set_of(schema).contains(a));
                                let m = choose|m: nat| #[trigger]
                                    c.within(schema, m).contains(a);
                                assert(c.within(schema, m + 1).contains(b));
                            }
                            let ghost open1 = open@;
                            found.insert(b);
                            open.push(b);
                            assert(open@[open@.len() - 1] == b);
                            assert forall|x: SchemaId| open1.contains(x) implies open@.contains(
                                x,
                            ) by {
                                let p = choose|p: int| 0 <= p < open1.len() && open1[p] == x;
                                assert(open@[p] == x);
                            }
                        }
                        k = k + 1;
                    }
                    assert forall|b: SchemaId| #[trigger] c.takes_over(a, b) implies found@.contains(
                        b,
                    ) by {
                        let j = choose|j: int|
                            0 <= j < c.dependencies_of(a).len() && !(#[trigger] c.dependencies_of(
                                a,
                            )[j] is Import) && c.dependencies_of(a)[j].target() == b;
                        assert(scope.dependencies@[j] == c.dependencies_of(a)[j]);
                    }
                },
                None => {
                    assert(c.dependencies_of(a).len() == 0);
                },
            }
            proof {
                assert forall|x: SchemaId, b: SchemaId|
                    found@.contains(x) && !open@.contains(x) && #[trigger] c.takes_over(
                        x,
                        b,
                    ) implies found@.contains(b) by {
                    if x != a {
                        assert(found0.contains(x));
                        assert(!open0.contains(x));
                    }
                }
                if found@ != found0 {
                    assert(exists|x: SchemaId| found@.contains(x) && !found0.contains(x)) by {
                        if forall|x: SchemaId| found@.contains(x) ==> found0.contains(x) {
                            assert(found@ =~= found0);
                        }
                    }
                    let x = choose|x: SchemaId| found@.contains(x) && !found0.contains(x);
                    let d0 = all.difference(found0);
                    let d1 = all.difference(found@);
                    assert(d1.subset_of(d0));
                    assert(d0.contains(x) && !d1.contains(x));
                    d1.lemma_subset_not_in_lt(d0, x);
                } else {
                    assert(found@ == found0);
                }
            }
        }
        proof {
            assert forall|b: SchemaId| c.set_of(schema).contains(b) implies found@.contains(b) by {
                let m = choose|m: nat| #[trigger] c.within(schema, m).contains(b);
                lemma_closed(c, schema, found@, m);
            }
            assert(found@ =~= c.set_of(schema));
        }
        found
    }

    /// All identifiers that are visible in the schema set of a schema, in ascending order.
    pub fn schema_set(&self, schema: SchemaId) -> (r: Vec<TypeIdent>)
        ensures
            r.deep_view() == self@.schema_set(schema),
    {
        let set = self.schemas_of_set(schema);
        let n = self.idents.len();
        let ghost c = self@;
        let ghost order = in_order::<TypeIdent>(c.idents);
        let ghost pred = |i: IdentView| c.visible(schema, i);
        let mut r: Vec<TypeIdent> = Vec::new();
        let mut k: usize = 0;
        reveal(Seq::filter);
        assert(order.take(0) =~= Seq::<IdentView>::empty());
        assert(r.deep_view() =~= order.take(0).filter(pred));
        while k < n
            invariant
                c == self@,
                order == in_order::<TypeIdent>(c.idents),
                pred == (|i: IdentView| c.visible(schema, i)),
                set@ == c.set_of(schema),
                n == order.len(),
                k <= n,
                r.deep_view() == order.take(k as int).filter(pred),
            decreases n - k,
        {
            let i = self.idents.at(k);
            let ghost r0 = r.deep_view();
            let mut take = i.schema == schema;
            if !take && set.contains(&i.schema) {
                let own = i.copy().with_schema(schema);
                take = !self.idents.contains(&own);
            }
            assert(take == pred(order[k as int]));
            proof {
                reveal(Seq::filter);
                assert(order.take(k + 1).drop_last() =~= order.take(k as int));
                assert(order.take(k + 1).last() == order[k as int]);
            }
            if take {
                r.push(i.copy());
                assert(r.deep_view() =~= r0.push(order[k as int]));
            }
            k = k + 1;
        }
        assert(order.take(k as int) =~= order);
        r
    }
}

/// Identifiers that differ in their schema alone are ordered by it.
proof fn lemma_schema_order(a: IdentView, b: IdentView)
    requires
        before::<TypeIdent>(a, b),
        fits(b, a),
    ensures
        a.schema.0 <= b.schema.0,
{
    let t = cons(a.type_.rank(), crate::ident::name_code(a.name));
    lemma_cons_order(
        a.ns.0 as int,
        cons(a.schema.0 as int, t),
        b.ns.0 as int,
        cons(b.schema.0 as int, t),
    );
    lemma_cons_order(a.schema.0 as int, t, b.schema.0 as int, t);
}

} // verus!
