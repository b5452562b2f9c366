//! Builds a schema collection from what was added to a parser.

use vstd::prelude::*;

use crate::buildmodel::{
    alternative_prefix, alternative_prefixes, candidate, collected, first_free, fresh_prefix,
    generated_prefix, generated_prefixes, id_cache, ids_distinct, known_dependencies, made_up,
    main_prefix, main_prefixes, marked, marks, numbered, prefix_cache, prefixed, prefixes_of,
    same_namespaces, schema_count, spare_prefixes, with_bindings, with_namespace, with_own,
    with_prefix, with_prefixes, with_schema, with_spare,
};
use crate::buildmodel::{
    lemma_collected_numbered, lemma_collected_schemas, lemma_count_bound, lemma_marks_bound,
    lemma_marks_unique, lemma_numbered_in_order, lemma_prefixes_known, lemma_with_namespace,
    lemma_with_prefix,
};
use crate::buildmodel::{
    aliases, built, first_prefix, IdCache, LocationCache, PrefixCache, PrefixView,
};
use crate::models::{
    copy_ns, copy_prefix, opt_location, opt_ns, opt_prefix, Dependency, Label, Location,
    MaybeNamespace, Namespace, NamespaceId, NamespacePrefix, SchemaId, TempSchemaId,
    ANONYMOUS_NAMESPACE,
};
use crate::order::{in_order, lists};
use crate::ordmap::{OrdMap, OrdSet};
use crate::parser::{Namespaces, ParserEntry, ParserEntryView};
use crate::schemas::{no_schemas, NamespaceInfo, SchemaInfo, Schemas, SchemasView};
use crate::text::{append_bytes, decimal, opt_text};
use crate::xs::Schema;

verus! {

/// The prefixes that are known for a namespace.
pub struct PrefixEntry {
    prefix: Option<NamespacePrefix>,
    alt_prefixes: OrdSet<NamespacePrefix>,
}

impl DeepView for PrefixEntry {
    type V = PrefixView;

    closed spec fn deep_view(&self) -> PrefixView {
        PrefixView { prefix: opt_prefix(self.prefix), alternatives: self.alt_prefixes@ }
    }
}

/// Builds a schema collection.
pub struct SchemasBuilder {
    schemas: Schemas,
    entries: Vec<ParserEntry>,
    id_cache: OrdMap<TempSchemaId, SchemaId>,
    prefix_cache: OrdMap<MaybeNamespace, PrefixEntry>,
    location_cache: OrdMap<Location, OrdSet<TempSchemaId>>,
    generate_prefixes: bool,
    alternative_prefixes: bool,
}

/// The parts of a builder.
pub struct BuildView {
    pub schemas: SchemasView,
    pub entries: Seq<ParserEntryView>,
    pub ids: IdCache,
    pub prefixes: PrefixCache,
    pub locations: LocationCache,
    pub generate: bool,
    pub alternative: bool,
}

impl View for SchemasBuilder {
    type V = BuildView;

    closed spec fn view(&self) -> BuildView {
        BuildView {
            schemas: self.schemas@,
            entries: self.entries.deep_view(),
            ids: self.id_cache@,
            prefixes: self.prefix_cache@,
            locations: self.location_cache@,
            generate: self.generate_prefixes,
            alternative: self.alternative_prefixes,
        }
    }
}

/// Marks a prefix with the number of a namespace.
fn mark(prefix: NamespacePrefix, id: NamespaceId) -> (p: NamespacePrefix)
    ensures
        p@ == marked(prefix@, id),
{
    let mut bytes = prefix.0;
    bytes.push(95);
    append_bytes(&mut bytes, decimal(id.0).as_slice());
    NamespacePrefix::new(bytes)
}

impl SchemasBuilder {
    /// Creates a builder of what was added.
    pub fn new(
        entries: Vec<ParserEntry>,
        location_cache: OrdMap<Location, OrdSet<TempSchemaId>>,
        generate_prefixes: bool,
        alternative_prefixes: bool,
    ) -> (b: Self)
        ensures
            b@ == (BuildView {
                schemas: no_schemas(),
                entries: entries.deep_view(),
                ids: Map::empty(),
                prefixes: Map::empty(),
                locations: location_cache@,
                generate: generate_prefixes,
                alternative: alternative_prefixes,
            }),
    {
        SchemasBuilder {
            schemas: Schemas::new(),
            entries,
            id_cache: OrdMap::new(),
            prefix_cache: OrdMap::new(),
            location_cache,
            generate_prefixes,
            alternative_prefixes,
        }
    }

    /// Gives each schema its final identifier.
    pub fn build_id_cache(&mut self)
        requires
            old(self)@.ids == IdCache::empty(),
            old(self)@.schemas.last_schema_id == 0,
        ensures
            final(self)@ == (BuildView {
                schemas: SchemasView {
                    last_schema_id: schema_count(
                        old(self)@.entries,
                        old(self)@.entries.len(),
                    ) as usize,
                    ..old(self)@.schemas
                },
                ids: id_cache(old(self)@.entries, old(self)@.entries.len(), old(self)@.locations),
                ..old(self)@
            }),
    {
        let ghost st = self@;
        let ghost entries = st.entries;
        let mut i: usize = 0;
        while i < self.entries.len()
            invariant
                entries == st.entries,
                entries == self.entries.deep_view(),
                i <= entries.len(),
                self@ == (BuildView {
                    schemas: SchemasView {
                        last_schema_id: schema_count(entries, i as nat) as usize,
                        ..st.schemas
                    },
                    ids: id_cache(entries, i as nat, st.locations),
                    ..st
                }),
            decreases entries.len() - i,
        {
            proof {
                lemma_count_bound(entries, i as nat);
                assert(entries[i as int] == self.entries@[i as int].deep_view());
            }
            match &self.entries[i] {
                ParserEntry::Schema { id: temp_id, location, .. } => {
                    let id = self.schemas.next_schema_id();
                    number_schema(&mut self.id_cache, *temp_id, location, id, &self.location_cache);
                    proof {
                        assert(self.id_cache@ =~= id_cache(entries, (i + 1) as nat, st.locations));
                    }
                },
                _ => {},
            }
            i = i + 1;
        }
    }
}

/// Lets an identifier, and all others of the same document, stand for a schema.
fn number_schema(
    cache: &mut OrdMap<TempSchemaId, SchemaId>,
    temp_id: TempSchemaId,
    location: &Option<Location>,
    id: SchemaId,
    locations: &OrdMap<Location, OrdSet<TempSchemaId>>,
)
    ensures
        final(cache)@ == old(cache)@.union_prefer_right(
            Map::new(
                |t: TempSchemaId|
                    aliases(opt_location(*location), locations@).insert(temp_id).contains(t),
                |t: TempSchemaId| id,
            ),
        ),
{
    let ghost before = cache@;
    cache.insert(temp_id, id);
    match location {
        Some(l) => {
            match locations.get(l) {
                Some(ids) => {
                    insert_all(cache, ids, id);
                },
                None => {},
            }
        },
        None => {},
    }
    assert(cache@ =~= before.union_prefer_right(
        Map::new(
            |t: TempSchemaId|
                aliases(opt_location(*location), locations@).insert(temp_id).contains(t),
            |t: TempSchemaId| id,
        ),
    ));
}

/// Whether no two schemas get the same identifier.
pub fn check_ids(
    entries: &Vec<ParserEntry>,
    locations: &OrdMap<Location, OrdSet<TempSchemaId>>,
) -> (b: bool)
    ensures
        b == ids_distinct(entries.deep_view(), locations@),
{
    let ghost all = entries.deep_view();
    let mut ids: OrdMap<TempSchemaId, SchemaId> = OrdMap::new();
    let mut count: usize = 0;
    let mut i: usize = 0;
    while i < entries.len()
        invariant
            all == entries.deep_view(),
            i <= all.len(),
            count == schema_count(all, i as nat),
            count <= i,
            ids@ == id_cache(all, i as nat, locations@),
        decreases all.len() - i,
    {
        assert(all[i as int] == entries@[i as int].deep_view());
        match &entries[i] {
            ParserEntry::Schema { id, location, .. } => {
                count = count + 1;
                number_schema(&mut ids, *id, location, SchemaId(count), locations);
                assert(ids@ =~= id_cache(all, (i + 1) as nat, locations@));
            },
            _ => {},
        }
        i = i + 1;
    }
    let mut seen: OrdSet<SchemaId> = OrdSet::new();
    i = 0;
    while i < entries.len()
        invariant
            all == entries.deep_view(),
            i <= all.len(),
            ids@ == id_cache(all, all.len(), locations@),
            forall|j: int|
                0 <= j < i && (#[trigger] all[j]) is Schema ==> seen@.contains(ids@[all[j]->id]),
            forall|s: SchemaId| #[trigger]
                seen@.contains(s) ==> exists|j: int|
                    0 <= j < i && (#[trigger] all[j]) is Schema && ids@[all[j]->id] == s,
            forall|j: int, k: int|
                #![trigger all[j], all[k]]
                0 <= j < k < i && all[j] is Schema && all[k] is Schema ==> ids@[all[j]->id]
                    != ids@[all[k]->id],
        decreases all.len() - i,
    {
        assert(all[i as int] == entries@[i as int].deep_view());
        let ghost before = seen@;
        match &entries[i] {
            ParserEntry::Schema { id, .. } => {
                proof {
                    lemma_has_number(all, all.len(), locations@, i as int);
                }
                let number = match ids.get(id) {
                    Some(number) => *number,
                    None => vstd::pervasive::unreached(),
                };
                if !seen.insert(number) {
                    proof {
                        let j = choose|j: int|
                            0 <= j < i && (#[trigger] all[j]) is Schema && ids@[all[j]->id]
                                == number;
                        assert(all[j] is Schema && all[i as int] is Schema);
                    }
                    return false;
                }
                assert forall|s: SchemaId| #[trigger] seen@.contains(s) implies exists|j: int|
                    0 <= j < i + 1 && (#[trigger] all[j]) is Schema && ids@[all[j]->id] == s by {
                    if s == number {
                        assert(all[i as int] is Schema);
                    } else {
                        assert(before.contains(s));
                    }
                }
            },
            _ => {},
        }
        i = i + 1;
    }
    true
}

/// Every schema has an identifier.
proof fn lemma_has_number(
    entries: Seq<ParserEntryView>,
    n: nat,
    locations: LocationCache,
    i: int,
)
    requires
        0 <= i < n,
        entries[i] is Schema,
    ensures
        id_cache(entries, n, locations).contains_key(entries[i]->id),
    decreases n,
{
    if i < n - 1 {
        lemma_has_number(entries, (n - 1) as nat, locations, i);
    }
}

/// Lets all identifiers of a set stand for a schema.
fn insert_all(
    cache: &mut OrdMap<TempSchemaId, SchemaId>,
    ids: &OrdSet<TempSchemaId>,
    id: SchemaId,
)
    ensures
        final(cache)@ == old(cache)@.union_prefer_right(
            Map::new(|t: TempSchemaId| ids@.contains(t), |t: TempSchemaId| id),
        ),
{
    let ghost before = cache@;
    let ghost order = in_order::<TempSchemaId>(ids@);
    let n = ids.len();
    let mut k: usize = 0;
    while k < n
        invariant
            order == in_order::<TempSchemaId>(ids@),
            lists(order, ids@),
            n == order.len(),
            k <= n,
            forall|t: TempSchemaId| #[trigger]
                cache@.contains_key(t) <==> before.contains_key(t) || order.take(
                    k as int,
                ).contains(t),
            forall|t: TempSchemaId|
                order.take(k as int).contains(t) ==> #[trigger] cache@[t] == id,
            forall|t: TempSchemaId|
                before.contains_key(t) && !order.take(k as int).contains(t) ==> #[trigger] cache@[t]
                    == before[t],
        decreases n - k,
    {
        let t = *ids.at(k);
        cache.insert(t, id);
        proof {
            let t0 = order.take(k as int);
            let t1 = order.take(k + 1);
            assert(t1 =~= t0.push(t));
            assert forall|x: TempSchemaId| t1.contains(x) <==> (t0.contains(x) || x == t) by {
                lemma_push_contains(t0, t, x);
            }
        }
        k = k + 1;
    }
    proof {
        assert(order.take(k as int) =~= order);
        assert(cache@ =~= before.union_prefer_right(
            Map::new(|t: TempSchemaId| ids@.contains(t), |t: TempSchemaId| id),
        ));
    }
}

/// What a longer sequence contains.
proof fn lemma_push_contains<A>(s: Seq<A>, x: A, y: A)
    ensures
        s.push(x).contains(y) <==> (s.contains(y) || y == x),
{
    let t = s.push(x);
    if s.contains(y) {
        let p = choose|p: int| 0 <= p < s.len() && s[p] == y;
        assert(t[p] == y);
    }
    if y == x {
        assert(t[s.len() as int] == y);
    }
    if t.contains(y) && y != x {
        let p = choose|p: int| 0 <= p < t.len() && t[p] == y;
        assert(s[p] == y);
    }
}

/// Takes the known prefixes of a namespace out of the cache.
fn take_entry(
    cache: &mut OrdMap<MaybeNamespace, PrefixEntry>,
    ns: &MaybeNamespace,
) -> (e: PrefixEntry)
    ensures
        e.deep_view() == prefixes_of(old(cache)@, ns@),
        final(cache)@ == old(cache)@.remove(ns@),
{
    match cache.remove(ns) {
        Some(e) => e,
        None => PrefixEntry { prefix: None, alt_prefixes: OrdSet::new() },
    }
}

/// Adds all prefixes of a list to a set.
fn add_prefixes(set: &mut OrdSet<NamespacePrefix>, prefixes: &Vec<NamespacePrefix>)
    ensures
        final(set)@ == old(set)@.union(prefixes.deep_view().to_set()),
{
    let ghost before = set@;
    let ghost all = prefixes.deep_view();
    let mut k: usize = 0;
    while k < prefixes.len()
        invariant
            all == prefixes.deep_view(),
            k <= all.len(),
            set@ =~= before.union(all.take(k as int).to_set()),
        decreases all.len() - k,
    {
        set.insert(prefixes[k].copy());
        proof {
            let t0 = all.take(k as int);
            let t1 = all.take(k + 1);
            assert(t1 =~= t0.push(all[k as int]));
            assert forall|x: Seq<u8>| t1.contains(x) <==> (t0.contains(x) || x == all[k as int]) by {
                lemma_push_contains(t0, all[k as int], x);
            }
            assert(set@ =~= before.union(t1.to_set()));
        }
        k = k + 1;
    }
    assert(all.take(k as int) =~= all);
}

/// The bindings of the first `n` namespaces of a list.
spec fn first_bindings(
    namespaces: Map<Option<Seq<u8>>, Seq<Seq<u8>>>,
    order: Seq<Option<Seq<u8>>>,
    n: int,
) -> Map<Option<Seq<u8>>, Seq<Seq<u8>>> {
    namespaces.restrict(order.take(n).to_set())
}

/// Adds everything that a document binds to the known prefixes.
fn add_bindings(cache: &mut OrdMap<MaybeNamespace, PrefixEntry>, namespaces: &Namespaces)
    ensures
        final(cache)@ == with_bindings(old(cache)@, namespaces@),
{
    let ghost before = cache@;
    let ghost order = in_order::<MaybeNamespace>(namespaces@.dom());
    let n = namespaces.len();
    let mut k: usize = 0;
    proof {
        assert(order.take(0).to_set() =~= Set::empty());
        let none = first_bindings(namespaces@, order, 0);
        assert forall|x: Option<Seq<u8>>| #[trigger] before.contains_key(x) implies before[x]
            == with_bindings(before, none)[x] by {
            assert(!none.contains_key(x));
            assert(before[x].alternatives.union(Set::empty()) =~= before[x].alternatives);
        }
        assert(before =~= with_bindings(before, none));
    }
    while k < n
        invariant
            order == in_order::<MaybeNamespace>(namespaces@.dom()),
            lists(order, namespaces@.dom()),
            crate::order::ascending::<MaybeNamespace>(order),
            n == order.len(),
            k <= n,
            cache@ == with_bindings(before, first_bindings(namespaces@, order, k as int)),
        decreases n - k,
    {
        let ns = namespaces.key_at(k);
        let prefixes = namespaces.value_at(k);
        let ghost now = cache@;
        let ghost t0 = order.take(k as int);
        let ghost t1 = order.take(k + 1);
        proof {
            assert(t1 =~= t0.push(ns@));
            assert forall|x: Option<Seq<u8>>| t1.contains(x) <==> (t0.contains(x) || x == ns@) by {
                lemma_push_contains(t0, ns@, x);
            }
            if t0.contains(ns@) {
                let p = choose|p: int| 0 <= p < t0.len() && t0[p] == ns@;
                assert(crate::order::before::<MaybeNamespace>(order[p], order[k as int]));
                crate::order::lemma_lex_irreflexive(
                    <MaybeNamespace as crate::order::Key>::code(ns@),
                );
            }
        }
        if prefixes.len() > 0 {
            let mut entry = take_entry(cache, ns);
            add_prefixes(&mut entry.alt_prefixes, prefixes);
            cache.insert(ns.copy(), entry);
        }
        proof {
            let a = first_bindings(namespaces@, order, k as int);
            let b = first_bindings(namespaces@, order, k + 1);
            let want = with_bindings(before, b);
            assert forall|x: Option<Seq<u8>>| #[trigger] cache@.contains_key(x)
                == want.contains_key(x) by {
                assert(a.contains_key(x) <==> namespaces@.contains_key(x) && t0.contains(x));
                assert(b.contains_key(x) <==> namespaces@.contains_key(x) && t1.contains(x));
                if x != ns@ {
                    assert(cache@.contains_key(x) == now.contains_key(x));
                }
            }
            assert forall|x: Option<Seq<u8>>| #[trigger] cache@.contains_key(x) implies cache@[x]
                == want[x] by {
                assert(a.contains_key(x) <==> namespaces@.contains_key(x) && t0.contains(x));
                assert(b.contains_key(x) <==> namespaces@.contains_key(x) && t1.contains(x));
                if x == ns@ {
                    assert(namespaces@[x] == prefixes.deep_view());
                    if prefixes.len() > 0 {
                        assert(cache@[x].alternatives =~= want[x].alternatives);
                    } else {
                        assert(namespaces@[x].to_set() =~= Set::empty());
                        assert(cache@[x].alternatives =~= want[x].alternatives);
                    }
                } else {
                    assert(cache@[x] == now[x]);
                }
            }
            assert(cache@ =~= want);
        }
        k = k + 1;
    }
    proof {
        assert(order.take(k as int) =~= order);
        assert(first_bindings(namespaces@, order, k as int) =~= namespaces@);
    }
}

impl SchemasBuilder {
    /// Collects the prefixes that are known for each namespace.
    pub fn build_prefix_cache(&mut self)
        requires
            old(self)@.prefixes == PrefixCache::empty(),
        ensures
            final(self)@ == (BuildView {
                prefixes: prefix_cache(old(self)@.entries, old(self)@.entries.len()),
                ..old(self)@
            }),
    {
        let ghost st = self@;
        let ghost entries = st.entries;
        let mut i: usize = 0;
        while i < self.entries.len()
            invariant
                entries == st.entries,
                entries == self.entries.deep_view(),
                i <= entries.len(),
                self@ == (BuildView { prefixes: prefix_cache(entries, i as nat), ..st }),
            decreases entries.len() - i,
        {
            proof {
                assert(entries[i as int] == self.entries@[i as int].deep_view());
            }
            let ghost before = self.prefix_cache@;
            match &self.entries[i] {
                ParserEntry::AnonymousNamespace => {
                    let key = MaybeNamespace(None);
                    let entry = take_entry(&mut self.prefix_cache, &key);
                    self.prefix_cache.insert(key, entry);
                    assert(self.prefix_cache@ =~= with_prefixes(before, entries[i as int]));
                },
                ParserEntry::Namespace { prefix, namespace } => {
                    let key = MaybeNamespace(Some(namespace.copy()));
                    let mut entry = take_entry(&mut self.prefix_cache, &key);
                    entry.prefix = Some(prefix.copy());
                    self.prefix_cache.insert(key, entry);
                    assert(self.prefix_cache@ =~= with_prefixes(before, entries[i as int]));
                },
                ParserEntry::Schema { target_ns, namespaces, .. } => {
                    let key = MaybeNamespace(copy_ns(target_ns));
                    let prefix = match namespaces.get(&key) {
                        Some(prefixes) => if prefixes.len() > 0 {
                            assert(prefixes.deep_view()[0] == prefixes@[0]@);
                            Some(prefixes[0].copy())
                        } else {
                            None
                        },
                        None => None,
                    };
                    let ghost own = opt_prefix(prefix);
                    assert(own == first_prefix(namespaces@, key@));
                    let mut entry = take_entry(&mut self.prefix_cache, &key);
                    if entry.prefix.is_none() {
                        entry.prefix = prefix;
                    } else {
                        match prefix {
                            Some(prefix) => {
                                entry.alt_prefixes.insert(prefix);
                            },
                            None => {},
                        }
                    }
                    assert(entry.deep_view() == with_own(prefixes_of(before, key@), own));
                    let ghost ev = entry.deep_view();
                    let ghost kv = key@;
                    self.prefix_cache.insert(key, entry);
                    assert(self.prefix_cache@ =~= before.insert(kv, ev));
                    add_bindings(&mut self.prefix_cache, namespaces);
                },
            }
            i = i + 1;
        }
    }
}

/// The dependencies on schemas that are in the collection.
fn find_dependencies(
    dependencies: &OrdMap<Label, Dependency<TempSchemaId>>,
    ids: &OrdMap<TempSchemaId, SchemaId>,
) -> (r: OrdMap<Label, Dependency<SchemaId>>)
    ensures
        r@ == known_dependencies(dependencies@, ids@),
        forall|l: Seq<char>| #[trigger]
            r@.contains_key(l) <==> dependencies@.contains_key(l) && match dependencies@[l] {
                Dependency::Import(t) => ids@.contains_key(t),
                Dependency::Include(t) => ids@.contains_key(t),
                Dependency::Redefine(t) => ids@.contains_key(t),
                Dependency::Override(t) => ids@.contains_key(t),
            },
        forall|l: Seq<char>| #[trigger]
            r@.contains_key(l) ==> r@[l] == match dependencies@[l] {
                Dependency::Import(t) => Dependency::Import(ids@[t]),
                Dependency::Include(t) => Dependency::Include(ids@[t]),
                Dependency::Redefine(t) => Dependency::Redefine(ids@[t]),
                Dependency::Override(t) => Dependency::Override(ids@[t]),
            },
{
    let mut r: OrdMap<Label, Dependency<SchemaId>> = OrdMap::new();
    let ghost order = in_order::<Label>(dependencies@.dom());
    let ghost want = known_dependencies(dependencies@, ids@);
    let n = dependencies.len();
    let mut k: usize = 0;
    while k < n
        invariant
            order == in_order::<Label>(dependencies@.dom()),
            lists(order, dependencies@.dom()),
            want == known_dependencies(dependencies@, ids@),
            n == order.len(),
            k <= n,
            forall|l: Seq<char>| #[trigger]
                r@.contains_key(l) <==> want.contains_key(l) && order.take(k as int).contains(l),
            forall|l: Seq<char>| #[trigger] r@.contains_key(l) ==> r@[l] == want[l],
        decreases n - k,
    {
        let location = dependencies.key_at(k);
        let dep = dependencies.value_at(k);
        match ids.get(dep.get()) {
            Some(id) => {
                r.insert(Label(location.0.clone()), dep.map_to(*id));
            },
            None => {},
        }
        proof {
            let t0 = order.take(k as int);
            let t1 = order.take(k + 1);
            assert(t1 =~= t0.push(location@));
            assert forall|x: Seq<char>| t1.contains(x) <==> (t0.contains(x) || x == location@) by {
                lemma_push_contains(t0, location@, x);
            }
        }
        k = k + 1;
    }
    proof {
        assert(order.take(k as int) =~= order);
        assert(r@ =~= want);
    }
    r
}

impl SchemasBuilder {
    /// Finds a namespace, or adds it to the collection.
    pub fn get_or_create_namespace_info_mut(
        &mut self,
        namespace: Option<Namespace>,
    ) -> (id: NamespaceId)
        requires
            numbered(old(self)@.schemas),
            old(self)@.schemas.last_namespace_id < usize::MAX,
        ensures
            final(self)@ == (BuildView {
                schemas: with_namespace(old(self)@.schemas, opt_ns(namespace)),
                ..old(self)@
            }),
            id == with_namespace(old(self)@.schemas, opt_ns(namespace)).known_namespaces[opt_ns(
                namespace,
            )],
    {
        let key = MaybeNamespace(namespace);
        match self.schemas.known_namespaces.get(&key) {
            Some(id) => *id,
            None => {
                let id = match &key.0 {
                    None => NamespaceId(ANONYMOUS_NAMESPACE),
                    Some(_) => {
                        self.schemas.last_namespace_id = self.schemas.last_namespace_id.wrapping_add(
                            1,
                        );
                        NamespaceId(self.schemas.last_namespace_id)
                    },
                };
                let namespace = copy_ns(&key.0);
                self.schemas.known_namespaces.insert(key, id);
                self.schemas.namespace_infos.insert(id, NamespaceInfo::new(namespace));
                id
            },
        }
    }

    /// Adds a schema to the collection.
    pub fn add_schema(
        &mut self,
        id: TempSchemaId,
        namespace: Option<Namespace>,
        name: Option<String>,
        location: Option<Location>,
        schema: Schema,
        dependencies: OrdMap<Label, Dependency<TempSchemaId>>,
    )
        requires
            numbered(old(self)@.schemas),
            old(self)@.schemas.last_namespace_id < usize::MAX,
            old(self)@.ids.contains_key(id),
            !old(self)@.schemas.schemas.contains_key(old(self)@.ids[id]),
        ensures
            final(self)@ == (BuildView {
                schemas: with_schema(
                    old(self)@.schemas,
                    old(self)@.ids,
                    id,
                    opt_ns(namespace),
                    opt_text(name),
                    opt_location(location),
                    schema@,
                    dependencies@,
                ),
                ..old(self)@
            }),
    {
        let ghost ns = opt_ns(namespace);
        self.schemas.last_schema_id = self.schemas.last_schema_id.wrapping_add(1);
        let schema_id = match self.id_cache.get(&id) {
            Some(schema_id) => *schema_id,
            None => vstd::pervasive::unreached(),
        };
        proof {
            assert(numbered(self@.schemas));
            lemma_with_namespace(self@.schemas, ns);
        }
        let namespace_id = self.get_or_create_namespace_info_mut(namespace);
        let ghost mid = self.schemas@;
        match self.schemas.namespace_infos.remove(&namespace_id) {
            Some(info) => {
                let mut info = info;
                info.schemas.push(schema_id);
                let ghost iv = info@;
                self.schemas.namespace_infos.insert(namespace_id, info);
                assert(self.schemas.namespace_infos@ =~= mid.namespace_infos.insert(
                    namespace_id,
                    iv,
                ));
            },
            None => {},
        }
        let dependencies = find_dependencies(&dependencies, &self.id_cache);
        self.schemas.schemas.insert(
            schema_id,
            SchemaInfo { name, schema, location, namespace_id, dependencies },
        );
    }

    /// Gives a namespace a prefix.
    fn set_prefix(&mut self, id: NamespaceId, prefix: NamespacePrefix)
        requires
            old(self)@.schemas.namespace_infos.contains_key(id),
        ensures
            final(self)@ == (BuildView {
                schemas: with_prefix(old(self)@.schemas, id, prefix@),
                ..old(self)@
            }),
    {
        let ghost s = self.schemas@;
        match self.schemas.namespace_infos.remove(&id) {
            Some(info) => {
                let mut info = info;
                info.prefix = Some(prefix.copy());
                let ghost iv = info@;
                self.schemas.namespace_infos.insert(id, info);
                assert(self.schemas.namespace_infos@ =~= s.namespace_infos.insert(id, iv));
            },
            None => {},
        }
        self.schemas.known_prefixes.insert(prefix, id);
    }

    /// Gives a namespace its own prefix, if it is free.
    fn set_main_prefix(&mut self, id: NamespaceId)
        requires
            old(self)@.schemas.namespace_infos.contains_key(id),
            old(self)@.prefixes.contains_key(old(self)@.schemas.namespace_infos[id].namespace),
        ensures
            final(self)@ == (BuildView {
                schemas: main_prefix(old(self)@.schemas, old(self)@.prefixes, id),
                ..old(self)@
            }),
    {
        let key = match self.schemas.namespace_infos.get(&id) {
            Some(info) => {
                if info.prefix.is_some() {
                    return ;
                }
                MaybeNamespace(copy_ns(&info.namespace))
            },
            None => {
                return ;
            },
        };
        let prefix = match self.prefix_cache.get(&key) {
            Some(entry) => copy_prefix(&entry.prefix),
            None => None,
        };
        match prefix {
            Some(prefix) => {
                if !self.schemas.known_prefixes.contains_key(&prefix) {
                    self.set_prefix(id, prefix);
                }
            },
            None => {},
        }
    }

    /// Gives a namespace without a prefix the first of its alternatives that is free.
    fn set_alternative_prefix(&mut self, id: NamespaceId)
        requires
            old(self)@.schemas.namespace_infos.contains_key(id),
            old(self)@.prefixes.contains_key(old(self)@.schemas.namespace_infos[id].namespace),
        ensures
            final(self)@ == (BuildView {
                schemas: alternative_prefix(old(self)@.schemas, old(self)@.prefixes, id),
                ..old(self)@
            }),
    {
        let ghost st = self@;
        let key = match self.schemas.namespace_infos.get(&id) {
            Some(info) => {
                if info.prefix.is_some() {
                    return ;
                }
                MaybeNamespace(copy_ns(&info.namespace))
            },
            None => {
                return ;
            },
        };
        let ghost known = st.schemas.known_prefixes;
        let ghost order = in_order::<NamespacePrefix>(st.prefixes[key@].alternatives);
        let n = match self.prefix_cache.get(&key) {
            Some(entry) => entry.alt_prefixes.len(),
            None => {
                return ;
            },
        };
        let mut k: usize = 0;
        assert(order.skip(0) =~= order);
        while k < n
            invariant
                st.prefixes.contains_key(key@),
                order == in_order::<NamespacePrefix>(st.prefixes[key@].alternatives),
                n == order.len(),
                k <= n,
                self@ == st,
                known == st.schemas.known_prefixes,
                st.schemas.namespace_infos.contains_key(id),
                st.schemas.namespace_infos[id].prefix is None,
                st.schemas.namespace_infos[id].namespace == key@,
                st == old(self)@,
                first_free(known, order) == first_free(known, order.skip(k as int)),
            decreases n - k,
        {
            let alternative = match self.prefix_cache.get(&key) {
                Some(entry) => entry.alt_prefixes.at(k).copy(),
                None => vstd::pervasive::unreached(),
            };
            proof {
                assert(order.skip(k as int)[0] == order[k as int]);
                assert(order.skip(k as int).drop_first() =~= order.skip(k + 1));
            }
            if !self.schemas.known_prefixes.contains_key(&alternative) {
                self.set_prefix(id, alternative);
                return ;
            }
            k = k + 1;
        }
    }

    /// Lets the alternatives of a namespace that are still free stand for it.
    fn set_spare_prefixes(&mut self, id: NamespaceId)
        requires
            old(self)@.schemas.namespace_infos.contains_key(id),
            old(self)@.prefixes.contains_key(old(self)@.schemas.namespace_infos[id].namespace),
        ensures
            final(self)@ == (BuildView {
                schemas: SchemasView {
                    known_prefixes: with_spare(
                        old(self)@.schemas.known_prefixes,
                        old(self)@.prefixes[old(
                            self,
                        )@.schemas.namespace_infos[id].namespace].alternatives,
                        id,
                    ),
                    ..old(self)@.schemas
                },
                ..old(self)@
            }),
    {
        let ghost st = self@;
        let ghost known = st.schemas.known_prefixes;
        let key = match self.schemas.namespace_infos.get(&id) {
            Some(info) => MaybeNamespace(copy_ns(&info.namespace)),
            None => vstd::pervasive::unreached(),
        };
        let ghost spare = st.prefixes[key@].alternatives;
        let ghost order = in_order::<NamespacePrefix>(spare);
        let n = match self.prefix_cache.get(&key) {
            Some(entry) => entry.alt_prefixes.len(),
            None => vstd::pervasive::unreached(),
        };
        let mut k: usize = 0;
        while k < n
            invariant
                st.prefixes.contains_key(key@),
                spare == st.prefixes[key@].alternatives,
                order == in_order::<NamespacePrefix>(spare),
                lists(order, spare),
                n == order.len(),
                k <= n,
                known == st.schemas.known_prefixes,
                self@ == (BuildView {
                    schemas: SchemasView {
                        known_prefixes: self@.schemas.known_prefixes,
                        ..st.schemas
                    },
                    ..st
                }),
                forall|j: int|
                    0 <= j < k ==> self@.schemas.known_prefixes.contains_key(#[trigger] order[j]),
                forall|p: Seq<u8>| #[trigger]
                    known.contains_key(p) ==> self@.schemas.known_prefixes.contains_key(p),
                forall|p: Seq<u8>| #[trigger]
                    self@.schemas.known_prefixes.contains_key(p) ==> with_spare(
                        known,
                        spare,
                        id,
                    ).contains_key(p) && self@.schemas.known_prefixes[p] == with_spare(
                        known,
                        spare,
                        id,
                    )[p],
            decreases n - k,
        {
            let alternative = match self.prefix_cache.get(&key) {
                Some(entry) => entry.alt_prefixes.at(k).copy(),
                None => vstd::pervasive::unreached(),
            };
            assert(order.contains(order[k as int]));
            if !self.schemas.known_prefixes.contains_key(&alternative) {
                self.schemas.known_prefixes.insert(alternative, id);
            }
            k = k + 1;
        }
        proof {
            assert forall|p: Seq<u8>| spare.contains(p) implies
                self@.schemas.known_prefixes.contains_key(p) by {
                assert(order.contains(p));
            }
            assert(self@.schemas.known_prefixes =~= with_spare(known, spare, id));
        }
    }

    /// Makes up a free prefix for a namespace without one.
    fn set_generated_prefix(&mut self, id: NamespaceId)
        requires
            old(self)@.schemas.namespace_infos.contains_key(id),
            old(self)@.prefixes.contains_key(old(self)@.schemas.namespace_infos[id].namespace),
        ensures
            final(self)@ == (BuildView {
                schemas: generated_prefix(old(self)@.schemas, old(self)@.prefixes, id),
                ..old(self)@
            }),
    {
        let key = match self.schemas.namespace_infos.get(&id) {
            Some(info) => {
                if info.prefix.is_some() {
                    return ;
                }
                MaybeNamespace(copy_ns(&info.namespace))
            },
            None => {
                return ;
            },
        };
        let prefix = match self.prefix_cache.get(&key) {
            Some(entry) => match &entry.prefix {
                Some(prefix) => Some(prefix.copy()),
                None => if entry.alt_prefixes.len() > 0 {
                    Some(entry.alt_prefixes.at(0).copy())
                } else {
                    None
                },
            },
            None => None,
        };
        match prefix {
            Some(prefix) => {
                let ghost base = prefix@;
                let ghost known = self.schemas.known_prefixes@;
                let ghost mut k: nat = 1;
                let mut prefix = mark(prefix, id);
                proof {
                    self.schemas.known_prefixes.lemma_finite();
                    assert(made_up(base, id, 0) == base);
                }
                while self.schemas.known_prefixes.contains_key(&prefix)
                    invariant
                        known == self.schemas.known_prefixes@,
                        known.dom().finite(),
                        self@ == old(self)@,
                        k >= 1,
                        prefix@ == made_up(base, id, k),
                        forall|m: nat|
                            1 <= m < k ==> known.contains_key(#[trigger] made_up(base, id, m)),
                    decreases known.dom().len() + 1 - k,
                {
                    proof {
                        lemma_marks_bound(known, base, id, k);
                        k = k + 1;
                    }
                    prefix = mark(prefix, id);
                }
                proof {
                    assert(marks(known, base, id, k));
                    lemma_marks_unique(known, base, id, k);
                }
                self.set_prefix(id, prefix);
            },
            None => {},
        }
    }

    /// Gives alternatives to the namespaces without a prefix, and lets those that are left stand
    /// for their namespaces.
    fn share_alternatives(&mut self)
        requires
            forall|id: NamespaceId| #[trigger]
                old(self)@.schemas.namespace_infos.contains_key(id)
                    ==> old(self)@.prefixes.contains_key(
                    old(self)@.schemas.namespace_infos[id].namespace,
                ),
        ensures
            ({
                let a = old(self)@.schemas;
                let cache = old(self)@.prefixes;
                let ids = in_order::<NamespaceId>(a.namespace_infos.dom());
                &&& final(self)@ == (BuildView {
                    schemas: spare_prefixes(
                        alternative_prefixes(a, cache, ids, ids.len()),
                        a,
                        cache,
                        ids,
                        ids.len(),
                    ),
                    ..old(self)@
                })
                &&& same_namespaces(a, final(self)@.schemas)
            }),
    {
        let ghost st = self@;
        let ghost a = st.schemas;
        let ghost cache = st.prefixes;
        let ghost ids = in_order::<NamespaceId>(a.namespace_infos.dom());
        let n = self.schemas.namespace_infos.len();
        let mut open: Vec<bool> = Vec::new();
        let mut i: usize = 0;
        while i < n
            invariant
                a == st.schemas,
                cache == st.prefixes,
                ids == in_order::<NamespaceId>(a.namespace_infos.dom()),
                lists(ids, a.namespace_infos.dom()),
                crate::order::ascending::<NamespaceId>(ids),
                n == ids.len(),
                i <= n,
                forall|id: NamespaceId| #[trigger]
                    a.namespace_infos.contains_key(id) ==> cache.contains_key(
                        a.namespace_infos[id].namespace,
                    ),
                self@ == (BuildView {
                    schemas: alternative_prefixes(a, cache, ids, i as nat),
                    ..st
                }),
                same_namespaces(a, self@.schemas),
                forall|j: int|
                    i <= j < n ==> self@.schemas.namespace_infos[#[trigger] ids[j]]
                        == a.namespace_infos[ids[j]],
                open@.len() == i,
                forall|j: int|
                    0 <= j < i ==> #[trigger] open@[j] == (a.namespace_infos[ids[j]].prefix is None),
            decreases n - i,
        {
            let id = *self.schemas.namespace_infos.key_at(i);
            let none = self.schemas.namespace_infos.value_at(i).prefix.is_none();
            open.push(none);
            proof {
                lemma_step_same(a, self@.schemas, cache, id);
                assert forall|j: int| i < j < n implies #[trigger] ids[j] != id by {
                    assert(crate::order::before::<NamespaceId>(ids[i as int], ids[j]));
                    crate::order::lemma_lex_irreflexive(
                        <NamespaceId as crate::order::Key>::code(id),
                    );
                }
            }
            self.set_alternative_prefix(id);
            i = i + 1;
        }
        let ghost b = self@.schemas;
        i = 0;
        while i < n
            invariant
                a == st.schemas,
                cache == st.prefixes,
                ids == in_order::<NamespaceId>(a.namespace_infos.dom()),
                n == ids.len(),
                i <= n,
                open@.len() == n,
                forall|j: int|
                    0 <= j < n ==> #[trigger] open@[j] == (a.namespace_infos[ids[j]].prefix is None),
                forall|id: NamespaceId| #[trigger]
                    a.namespace_infos.contains_key(id) ==> cache.contains_key(
                        a.namespace_infos[id].namespace,
                    ),
                self@ == (BuildView {
                    schemas: spare_prefixes(b, a, cache, ids, i as nat),
                    ..st
                }),
                same_namespaces(a, self@.schemas),
            decreases n - i,
        {
            if open[i] {
                let id = *self.schemas.namespace_infos.key_at(i);
                self.set_spare_prefixes(id);
            }
            i = i + 1;
        }
    }

    /// Chooses the prefixes of all namespaces.
    pub fn determine_prefixes(&mut self)
        requires
            forall|id: NamespaceId| #[trigger]
                old(self)@.schemas.namespace_infos.contains_key(id)
                    ==> old(self)@.prefixes.contains_key(
                    old(self)@.schemas.namespace_infos[id].namespace,
                ),
        ensures
            final(self)@ == (BuildView {
                schemas: prefixed(
                    old(self)@.schemas,
                    old(self)@.prefixes,
                    old(self)@.alternative,
                    old(self)@.generate,
                ),
                ..old(self)@
            }),
    {
        let ghost st = self@;
        let ghost s = st.schemas;
        let ghost cache = st.prefixes;
        let ghost ids = in_order::<NamespaceId>(s.namespace_infos.dom());
        let n = self.schemas.namespace_infos.len();
        let mut i: usize = 0;
        while i < n
            invariant
                s == st.schemas,
                cache == st.prefixes,
                ids == in_order::<NamespaceId>(s.namespace_infos.dom()),
                n == ids.len(),
                i <= n,
                forall|id: NamespaceId| #[trigger]
                    s.namespace_infos.contains_key(id) ==> cache.contains_key(
                        s.namespace_infos[id].namespace,
                    ),
                self@ == (BuildView { schemas: main_prefixes(s, cache, ids, i as nat), ..st }),
                same_namespaces(s, self@.schemas),
            decreases n - i,
        {
            let id = *self.schemas.namespace_infos.key_at(i);
            proof {
                lemma_step_same(s, self@.schemas, cache, id);
            }
            self.set_main_prefix(id);
            i = i + 1;
        }
        if self.alternative_prefixes {
            self.share_alternatives();
        }
        if self.generate_prefixes {
            let ghost b = self@.schemas;
            assert(in_order::<NamespaceId>(b.namespace_infos.dom()) == ids);
            i = 0;
            while i < n
                invariant
                    cache == st.prefixes,
                    ids == in_order::<NamespaceId>(s.namespace_infos.dom()),
                    n == ids.len(),
                    i <= n,
                    forall|id: NamespaceId| #[trigger]
                        s.namespace_infos.contains_key(id) ==> cache.contains_key(
                            s.namespace_infos[id].namespace,
                        ),
                    self@ == (BuildView {
                        schemas: generated_prefixes(b, cache, ids, i as nat),
                        ..st
                    }),
                    same_namespaces(s, self@.schemas),
                decreases n - i,
            {
                let id = *self.schemas.namespace_infos.key_at(i);
                proof {
                    lemma_step_same(s, self@.schemas, cache, id);
                }
                self.set_generated_prefix(id);
                i = i + 1;
            }
        }
    }
}

/// The choice of a prefix leaves the namespaces as they were.
pub proof fn lemma_step_same(s: SchemasView, t: SchemasView, cache: PrefixCache, id: NamespaceId)
    requires
        same_namespaces(s, t),
        t.namespace_infos.contains_key(id),
    ensures
        same_namespaces(s, main_prefix(t, cache, id)),
        same_namespaces(s, alternative_prefix(t, cache, id)),
        same_namespaces(s, generated_prefix(t, cache, id)),
{
    let info = t.namespace_infos[id];
    if let Some(p) = cache[info.namespace].prefix {
        lemma_with_prefix(s, t, id, p);
    }
    if let Some(p) = candidate(cache[info.namespace]) {
        lemma_with_prefix(s, t, id, fresh_prefix(t.known_prefixes, p, id));
    }
    let list = in_order::<NamespacePrefix>(cache[info.namespace].alternatives);
    if let Some(p) = first_free(t.known_prefixes, list) {
        lemma_with_prefix(s, t, id, p);
    }
}

impl SchemasBuilder {
    /// Builds the collection.
    pub fn build(self) -> (r: Schemas)
        requires
            self@.schemas == no_schemas(),
            self@.ids == IdCache::empty(),
            self@.prefixes == PrefixCache::empty(),
            ids_distinct(self@.entries, self@.locations),
        ensures
            r@ == built(self@.entries, self@.locations, self@.alternative, self@.generate),
    {
        let ghost entries = self@.entries;
        let ghost count = entries.len();
        let mut b = self;
        b.build_id_cache();
        b.build_prefix_cache();
        let ghost st = b@;
        let ghost start = st.schemas;
        let ghost ids = st.ids;
        assert(numbered(start));
        let mut list: Vec<ParserEntry> = Vec::new();
        std::mem::swap(&mut list, &mut b.entries);
        let ghost all = list@;
        proof {
            assert(entries == list.deep_view());
            assert(count == list.len());
        }
        for entry in it: list.into_iter()
            invariant
                it.seq() == all,
                entries.len() == all.len(),
                count == entries.len(),
                count <= usize::MAX,
                forall|i: int| 0 <= i < all.len() ==> entries[i] == (#[trigger] all[i]).deep_view(),
                ids_distinct(entries, st.locations),
                ids == id_cache(entries, count, st.locations),
                ids == st.ids,
                start == st.schemas,
                numbered(start),
                start.last_namespace_id == 0,
                start.schemas == Map::<SchemaId, crate::schemas::SchemaInfoView>::empty(),
                b@ == (BuildView {
                    schemas: collected(start, ids, entries, it.index() as nat),
                    entries: b@.entries,
                    ..st
                }),
        {
            let ghost i = it.index();
            let ghost now = collected(start, ids, entries, i as nat);
            proof {
                assert(entries[i] == entry.deep_view());
                lemma_collected_numbered(start, ids, entries, i as nat);
                if entries[i] is Schema {
                    lemma_fresh(start, entries, st.locations, i);
                }
            }
            match entry {
                ParserEntry::AnonymousNamespace => {
                    let _id = b.get_or_create_namespace_info_mut(None);
                },
                ParserEntry::Namespace { namespace, .. } => {
                    let _id = b.get_or_create_namespace_info_mut(Some(namespace));
                },
                ParserEntry::Schema {
                    id,
                    name,
                    schema,
                    location,
                    target_ns,
                    namespaces: _,
                    dependencies,
                } => {
                    b.add_schema(id, target_ns, name, location, schema, dependencies);
                },
            }
        }
        proof {
            lemma_collected_numbered(start, ids, entries, count);
            lemma_prefixes_known(start, ids, entries, count);
        }
        b.determine_prefixes();
        b.schemas
    }
}

/// The identifier of a schema is new to the collection of the schemas before it.
proof fn lemma_fresh(
    start: SchemasView,
    entries: Seq<ParserEntryView>,
    locations: LocationCache,
    i: int,
)
    requires
        ids_distinct(entries, locations),
        start.schemas == Map::<SchemaId, crate::schemas::SchemaInfoView>::empty(),
        0 <= i < entries.len(),
        entries[i] is Schema,
    ensures
        ({
            let ids = id_cache(entries, entries.len(), locations);
            &&& ids.contains_key(entries[i]->id)
            &&& !collected(start, ids, entries, i as nat).schemas.contains_key(ids[entries[i]->id])
        }),
{
    let ids = id_cache(entries, entries.len(), locations);
    lemma_numbered_in_order(entries, locations, i);
    lemma_collected_schemas(start, ids, entries, i as nat);
    let now = collected(start, ids, entries, i as nat);
    if now.schemas.contains_key(ids[entries[i]->id]) {
        let j = choose|j: int|
            0 <= j < i && (#[trigger] entries[j]) is Schema && ids[entries[j]->id]
                == ids[entries[i]->id];
        assert(entries[j] is Schema && entries[i] is Schema);
    }
}

} // verus!
