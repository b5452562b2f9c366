//! How a schema collection is built from what was added to a parser.

use vstd::prelude::*;

use crate::models::{
    Dependency, NamespaceId, NamespacePrefix, SchemaId, TempSchemaId, ANONYMOUS_NAMESPACE,
};
use crate::order::in_order;
use crate::parser::ParserEntryView;
use crate::schemas::{new_namespace, no_schemas, NamespaceInfoView, SchemaInfoView, SchemasView};
use crate::text::digits;
use crate::xs::SchemaView;

verus! {

/// The prefixes that are known for a namespace.
pub struct PrefixView {
    /// The prefix that the namespace should have.
    pub prefix: Option<Seq<u8>>,
    /// The prefixes that documents bind to it.
    pub alternatives: Set<Seq<u8>>,
}

/// No known prefixes.
pub open spec fn no_prefixes() -> PrefixView {
    PrefixView { prefix: None, alternatives: Set::empty() }
}

/// The known prefixes of each namespace.
pub type PrefixCache = Map<Option<Seq<u8>>, PrefixView>;

/// The documents that were loaded, and the identifiers that stand for each.
pub type LocationCache = Map<Seq<char>, Set<TempSchemaId>>;

/// The final identifier of each temporary one.
pub type IdCache = Map<TempSchemaId, SchemaId>;

/// The number of schemas among the first `n` entries.
pub open spec fn schema_count(entries: Seq<ParserEntryView>, n: nat) -> nat
    decreases n,
{
    if n == 0 {
        0
    } else {
        schema_count(entries, (n - 1) as nat) + if entries[n - 1] is Schema {
            1nat
        } else {
            0nat
        }
    }
}

/// The identifiers that stand for the document of a location.
pub open spec fn aliases(location: Option<Seq<char>>, locations: LocationCache) -> Set<
    TempSchemaId,
> {
    match location {
        Some(l) if locations.contains_key(l) => locations[l],
        _ => Set::empty(),
    }
}

/// The final identifiers of the first `n` entries: schemas are counted from one, and all
/// identifiers of a document stand for its schema.
pub open spec fn id_cache(
    entries: Seq<ParserEntryView>,
    n: nat,
    locations: LocationCache,
) -> IdCache
    decreases n,
{
    if n == 0 {
        Map::empty()
    } else {
        let before = id_cache(entries, (n - 1) as nat, locations);
        match entries[n - 1] {
            ParserEntryView::Schema { id, location, .. } => {
                let new = SchemaId(schema_count(entries, n) as usize);
                let same = aliases(location, locations).insert(id);
                Map::new(
                    |t: TempSchemaId| before.contains_key(t) || same.contains(t),
                    |t: TempSchemaId| if same.contains(t) { new } else { before[t] },
                )
            },
            _ => before,
        }
    }
}

/// The known prefixes of a namespace.
pub open spec fn prefixes_of(cache: PrefixCache, ns: Option<Seq<u8>>) -> PrefixView {
    if cache.contains_key(ns) {
        cache[ns]
    } else {
        no_prefixes()
    }
}

/// The first prefix that a document binds to a namespace.
pub open spec fn first_prefix(
    namespaces: Map<Option<Seq<u8>>, Seq<Seq<u8>>>,
    ns: Option<Seq<u8>>,
) -> Option<Seq<u8>> {
    if namespaces.contains_key(ns) && namespaces[ns].len() > 0 {
        Some(namespaces[ns][0])
    } else {
        None
    }
}

/// The known prefixes with those that a document binds.
pub open spec fn with_bindings(
    cache: PrefixCache,
    namespaces: Map<Option<Seq<u8>>, Seq<Seq<u8>>>,
) -> PrefixCache {
    Map::new(
        |ns: Option<Seq<u8>>|
            cache.contains_key(ns) || (namespaces.contains_key(ns) && namespaces[ns].len() > 0),
        |ns: Option<Seq<u8>>|
            PrefixView {
                prefix: prefixes_of(cache, ns).prefix,
                alternatives: prefixes_of(cache, ns).alternatives.union(
                    if namespaces.contains_key(ns) {
                        namespaces[ns].to_set()
                    } else {
                        Set::empty()
                    },
                ),
            },
    )
}

/// The known prefixes of a namespace with one more that a schema of the namespace gives it.
pub open spec fn with_own(p: PrefixView, own: Option<Seq<u8>>) -> PrefixView {
    match (p.prefix, own) {
        (None, _) => PrefixView { prefix: own, ..p },
        (Some(_), Some(own)) => PrefixView { alternatives: p.alternatives.insert(own), ..p },
        (Some(_), None) => p,
    }
}

/// The known prefixes after one more entry. A namespace that was added gets the prefix that it was
/// added with. A schema gives its namespace the first prefix that it binds to it, unless the
/// namespace has one, and everything that it binds is an alternative.
pub open spec fn with_prefixes(cache: PrefixCache, entry: ParserEntryView) -> PrefixCache {
    match entry {
        ParserEntryView::AnonymousNamespace => cache.insert(None, prefixes_of(cache, None)),
        ParserEntryView::Namespace { prefix, namespace } => cache.insert(
            Some(namespace),
            PrefixView { prefix: Some(prefix), ..prefixes_of(cache, Some(namespace)) },
        ),
        ParserEntryView::Schema { target_ns, namespaces, .. } => with_bindings(
            cache.insert(
                target_ns,
                with_own(prefixes_of(cache, target_ns), first_prefix(namespaces, target_ns)),
            ),
            namespaces,
        ),
    }
}

/// The known prefixes after the first `n` entries.
pub open spec fn prefix_cache(entries: Seq<ParserEntryView>, n: nat) -> PrefixCache
    decreases n,
{
    if n == 0 {
        Map::empty()
    } else {
        with_prefixes(prefix_cache(entries, (n - 1) as nat), entries[n - 1])
    }
}

/// The identifier that a new namespace gets.
pub open spec fn new_namespace_id(s: SchemasView, ns: Option<Seq<u8>>) -> NamespaceId {
    if ns is None {
        NamespaceId(ANONYMOUS_NAMESPACE)
    } else {
        NamespaceId(s.last_namespace_id.wrapping_add(1))
    }
}

/// The collection with a namespace, which is added if it is new.
pub open spec fn with_namespace(s: SchemasView, ns: Option<Seq<u8>>) -> SchemasView {
    if s.known_namespaces.contains_key(ns) {
        s
    } else {
        let id = new_namespace_id(s, ns);
        SchemasView {
            known_namespaces: s.known_namespaces.insert(ns, id),
            namespace_infos: s.namespace_infos.insert(id, new_namespace(ns)),
            last_namespace_id: if ns is None {
                s.last_namespace_id
            } else {
                s.last_namespace_id.wrapping_add(1)
            },
            ..s
        }
    }
}

/// The dependencies on schemas that are in the collection.
pub open spec fn known_dependencies(
    dependencies: Map<Seq<char>, Dependency<TempSchemaId>>,
    ids: IdCache,
) -> Map<Seq<char>, Dependency<SchemaId>> {
    Map::new(
        |l: Seq<char>| dependencies.contains_key(l) && ids.contains_key(dependencies[l].target()),
        |l: Seq<char>| dependencies[l].retarget(ids[dependencies[l].target()]),
    )
}

/// The collection with one more schema.
pub open spec fn with_schema(
    s: SchemasView,
    ids: IdCache,
    id: TempSchemaId,
    namespace: Option<Seq<u8>>,
    name: Option<Seq<char>>,
    location: Option<Seq<char>>,
    schema: SchemaView,
    dependencies: Map<Seq<char>, Dependency<TempSchemaId>>,
) -> SchemasView {
    let s = SchemasView { last_schema_id: s.last_schema_id.wrapping_add(1), ..s };
    let t = with_namespace(s, namespace);
    let ns = t.known_namespaces[namespace];
    let info = t.namespace_infos[ns];
    SchemasView {
        namespace_infos: t.namespace_infos.insert(
            ns,
            NamespaceInfoView { schemas: info.schemas.push(ids[id]), ..info },
        ),
        schemas: t.schemas.insert(
            ids[id],
            SchemaInfoView {
                name,
                schema,
                location,
                namespace_id: ns,
                dependencies: known_dependencies(dependencies, ids),
            },
        ),
        ..t
    }
}

/// The collection after one more entry.
pub open spec fn with_entry(s: SchemasView, ids: IdCache, entry: ParserEntryView) -> SchemasView {
    match entry {
        ParserEntryView::AnonymousNamespace => with_namespace(s, None),
        ParserEntryView::Namespace { namespace, .. } => with_namespace(s, Some(namespace)),
        ParserEntryView::Schema { id, name, schema, location, target_ns, dependencies, .. } => {
            with_schema(s, ids, id, target_ns, name, location, schema, dependencies)
        },
    }
}

/// The collection after the first `n` entries.
pub open spec fn collected(
    start: SchemasView,
    ids: IdCache,
    entries: Seq<ParserEntryView>,
    n: nat,
) -> SchemasView
    decreases n,
{
    if n == 0 {
        start
    } else {
        with_entry(collected(start, ids, entries, (n - 1) as nat), ids, entries[n - 1])
    }
}

/// The collection in which a namespace has a prefix.
pub open spec fn with_prefix(s: SchemasView, id: NamespaceId, prefix: Seq<u8>) -> SchemasView {
    SchemasView {
        namespace_infos: s.namespace_infos.insert(
            id,
            NamespaceInfoView { prefix: Some(prefix), ..s.namespace_infos[id] },
        ),
        known_prefixes: s.known_prefixes.insert(prefix, id),
        ..s
    }
}

/// Gives a namespace its own prefix, if it is free.
pub open spec fn main_prefix(s: SchemasView, cache: PrefixCache, id: NamespaceId) -> SchemasView {
    let info = s.namespace_infos[id];
    match (info.prefix, cache[info.namespace].prefix) {
        (None, Some(p)) if !s.known_prefixes.contains_key(p) => with_prefix(s, id, p),
        _ => s,
    }
}

/// The first prefix of a list that is free.
pub open spec fn first_free(known: Map<Seq<u8>, NamespaceId>, list: Seq<Seq<u8>>) -> Option<Seq<u8>>
    decreases list.len(),
{
    if list.len() == 0 {
        None
    } else if !known.contains_key(list[0]) {
        Some(list[0])
    } else {
        first_free(known, list.drop_first())
    }
}

/// Gives a namespace without a prefix the first of its alternatives that is free.
pub open spec fn alternative_prefix(
    s: SchemasView,
    cache: PrefixCache,
    id: NamespaceId,
) -> SchemasView {
    let info = s.namespace_infos[id];
    let list = in_order::<NamespacePrefix>(cache[info.namespace].alternatives);
    match (info.prefix, first_free(s.known_prefixes, list)) {
        (None, Some(p)) => with_prefix(s, id, p),
        _ => s,
    }
}

/// The prefix from which one is made up: the one that the namespace should have, or else its first
/// alternative.
pub open spec fn candidate(p: PrefixView) -> Option<Seq<u8>> {
    match p.prefix {
        Some(p) => Some(p),
        None => {
            let list = in_order::<NamespacePrefix>(p.alternatives);
            if list.len() > 0 {
                Some(list[0])
            } else {
                None
            }
        },
    }
}

/// A prefix that is marked with the number of a namespace.
pub open spec fn marked(prefix: Seq<u8>, id: NamespaceId) -> Seq<u8> {
    prefix.push(95) + digits(id.0 as nat)
}

/// A prefix that is marked `n` times.
pub open spec fn made_up(prefix: Seq<u8>, id: NamespaceId, n: nat) -> Seq<u8>
    decreases n,
{
    if n == 0 {
        prefix
    } else {
        marked(made_up(prefix, id, (n - 1) as nat), id)
    }
}

/// Whether a prefix is to be marked `n` times: at least once, and as often as it takes to be free.
pub open spec fn marks(
    known: Map<Seq<u8>, NamespaceId>,
    prefix: Seq<u8>,
    id: NamespaceId,
    n: nat,
) -> bool {
    &&& n >= 1
    &&& !known.contains_key(made_up(prefix, id, n))
    &&& forall|m: nat| 1 <= m < n ==> known.contains_key(#[trigger] made_up(prefix, id, m))
}

/// The prefix that is made up for a namespace: it is marked with the number of the namespace until
/// it is free.
pub open spec fn fresh_prefix(
    known: Map<Seq<u8>, NamespaceId>,
    prefix: Seq<u8>,
    id: NamespaceId,
) -> Seq<u8> {
    made_up(prefix, id, choose|n: nat| marks(known, prefix, id, n))
}

/// Makes up a free prefix for a namespace without one.
pub open spec fn generated_prefix(
    s: SchemasView,
    cache: PrefixCache,
    id: NamespaceId,
) -> SchemasView {
    let info = s.namespace_infos[id];
    match (info.prefix, candidate(cache[info.namespace])) {
        (None, Some(p)) => with_prefix(s, id, fresh_prefix(s.known_prefixes, p, id)),
        _ => s,
    }
}

/// Each mark makes a prefix longer.
proof fn lemma_made_up_len(prefix: Seq<u8>, id: NamespaceId, m: nat, n: nat)
    requires
        m <= n,
    ensures
        made_up(prefix, id, m).len() <= made_up(prefix, id, n).len(),
        m < n ==> made_up(prefix, id, m).len() < made_up(prefix, id, n).len(),
    decreases n,
{
    if m < n {
        lemma_made_up_len(prefix, id, m, (n - 1) as nat);
    }
}

/// The prefixes with one to `n` marks.
spec fn all_made_up(prefix: Seq<u8>, id: NamespaceId, n: nat) -> Set<Seq<u8>>
    decreases n,
{
    if n == 0 {
        Set::empty()
    } else {
        all_made_up(prefix, id, (n - 1) as nat).insert(made_up(prefix, id, n))
    }
}

/// There are `n` prefixes with one to `n` marks.
proof fn lemma_all_made_up(prefix: Seq<u8>, id: NamespaceId, n: nat)
    ensures
        all_made_up(prefix, id, n).finite(),
        all_made_up(prefix, id, n).len() == n,
        forall|p: Seq<u8>| #[trigger]
            all_made_up(prefix, id, n).contains(p) ==> exists|m: nat|
                1 <= m <= n && p == #[trigger] made_up(prefix, id, m),
    decreases n,
{
    if n > 0 {
        let k = (n - 1) as nat;
        lemma_all_made_up(prefix, id, k);
        let p = made_up(prefix, id, n);
        if all_made_up(prefix, id, k).contains(p) {
            let m = choose|m: nat| 1 <= m <= k && p == #[trigger] made_up(prefix, id, m);
            lemma_made_up_len(prefix, id, m, n);
        }
        assert forall|q: Seq<u8>| #[trigger] all_made_up(prefix, id, n).contains(q) implies exists|
            m: nat,
        | 1 <= m <= n && q == #[trigger] made_up(prefix, id, m) by {
            if q != p {
                assert(all_made_up(prefix, id, k).contains(q));
                let m = choose|m: nat| 1 <= m <= k && q == #[trigger] made_up(prefix, id, m);
                assert(q == made_up(prefix, id, m));
            }
        }
    }
}

/// No more marked prefixes are known than there are known prefixes.
pub proof fn lemma_marks_bound(
    known: Map<Seq<u8>, NamespaceId>,
    prefix: Seq<u8>,
    id: NamespaceId,
    n: nat,
)
    requires
        known.dom().finite(),
        forall|m: nat| 1 <= m <= n ==> known.contains_key(#[trigger] made_up(prefix, id, m)),
    ensures
        n <= known.dom().len(),
{
    lemma_all_made_up(prefix, id, n);
    let all = all_made_up(prefix, id, n);
    assert forall|p: Seq<u8>| #[trigger] all.contains(p) implies known.dom().contains(p) by {
        let m = choose|m: nat| 1 <= m <= n && p == #[trigger] made_up(prefix, id, m);
        assert(known.contains_key(made_up(prefix, id, m)));
    }
    vstd::set_lib::lemma_len_subset(all, known.dom());
}

/// A free prefix can be made up from any prefix.
pub proof fn lemma_marks_exist(
    known: Map<Seq<u8>, NamespaceId>,
    prefix: Seq<u8>,
    id: NamespaceId,
    n: nat,
)
    requires
        known.dom().finite(),
        forall|m: nat| 1 <= m <= n ==> known.contains_key(#[trigger] made_up(prefix, id, m)),
    ensures
        exists|k: nat| marks(known, prefix, id, k),
        !known.contains_key(fresh_prefix(known, prefix, id)),
    decreases known.dom().len() - n,
{
    lemma_marks_bound(known, prefix, id, n);
    if known.contains_key(made_up(prefix, id, n + 1)) {
        assert forall|m: nat| 1 <= m <= n + 1 implies known.contains_key(
            #[trigger] made_up(prefix, id, m),
        ) by {}
        lemma_marks_bound(known, prefix, id, n + 1);
        lemma_marks_exist(known, prefix, id, n + 1);
    } else {
        assert(marks(known, prefix, id, n + 1));
    }
}

/// A prefix is marked in one way.
pub proof fn lemma_marks_unique(
    known: Map<Seq<u8>, NamespaceId>,
    prefix: Seq<u8>,
    id: NamespaceId,
    n: nat,
)
    requires
        marks(known, prefix, id, n),
    ensures
        fresh_prefix(known, prefix, id) == made_up(prefix, id, n),
{
    let k = choose|k: nat| marks(known, prefix, id, k);
    assert(marks(known, prefix, id, k));
    if k < n {
        assert(known.contains_key(made_up(prefix, id, k)));
    } else if n < k {
        assert(known.contains_key(made_up(prefix, id, n)));
    }
}

/// The first `n` namespaces have got their own prefixes.
pub open spec fn main_prefixes(
    s: SchemasView,
    cache: PrefixCache,
    ids: Seq<NamespaceId>,
    n: nat,
) -> SchemasView
    decreases n,
{
    if n == 0 {
        s
    } else {
        main_prefix(main_prefixes(s, cache, ids, (n - 1) as nat), cache, ids[n - 1])
    }
}

/// The first `n` namespaces have got alternative prefixes.
pub open spec fn alternative_prefixes(
    s: SchemasView,
    cache: PrefixCache,
    ids: Seq<NamespaceId>,
    n: nat,
) -> SchemasView
    decreases n,
{
    if n == 0 {
        s
    } else {
        alternative_prefix(alternative_prefixes(s, cache, ids, (n - 1) as nat), cache, ids[n - 1])
    }
}

/// The known prefixes with more that stand for a namespace, as far as they are free.
pub open spec fn with_spare(
    known: Map<Seq<u8>, NamespaceId>,
    spare: Set<Seq<u8>>,
    id: NamespaceId,
) -> Map<Seq<u8>, NamespaceId> {
    Map::new(
        |p: Seq<u8>| known.contains_key(p) || spare.contains(p),
        |p: Seq<u8>|
            if known.contains_key(p) {
                known[p]
            } else {
                id
            },
    )
}

/// Lets the alternatives of a namespace that are still free stand for it, unless it has its own
/// prefix in `own`.
pub open spec fn spare_prefix(
    s: SchemasView,
    own: SchemasView,
    cache: PrefixCache,
    id: NamespaceId,
) -> SchemasView {
    if own.namespace_infos[id].prefix is Some {
        s
    } else {
        let spare = cache[s.namespace_infos[id].namespace].alternatives;
        SchemasView { known_prefixes: with_spare(s.known_prefixes, spare, id), ..s }
    }
}

/// The alternatives of the first `n` namespaces stand for them, as far as they are free.
pub open spec fn spare_prefixes(
    s: SchemasView,
    own: SchemasView,
    cache: PrefixCache,
    ids: Seq<NamespaceId>,
    n: nat,
) -> SchemasView
    decreases n,
{
    if n == 0 {
        s
    } else {
        spare_prefix(spare_prefixes(s, own, cache, ids, (n - 1) as nat), own, cache, ids[n - 1])
    }
}

/// The first `n` namespaces have got made up prefixes.
pub open spec fn generated_prefixes(
    s: SchemasView,
    cache: PrefixCache,
    ids: Seq<NamespaceId>,
    n: nat,
) -> SchemasView
    decreases n,
{
    if n == 0 {
        s
    } else {
        generated_prefix(generated_prefixes(s, cache, ids, (n - 1) as nat), cache, ids[n - 1])
    }
}

/// The collection in which all namespaces have their prefixes: first their own ones, then
/// alternatives, then ones that are made up, each time in the order of the namespaces. Once each
/// namespace had its turn, the alternatives that are still free stand for their namespaces too.
pub open spec fn prefixed(
    s: SchemasView,
    cache: PrefixCache,
    alternative: bool,
    generate: bool,
) -> SchemasView {
    let ids = in_order::<NamespaceId>(s.namespace_infos.dom());
    let a = main_prefixes(s, cache, ids, ids.len());
    let b = if alternative {
        spare_prefixes(
            alternative_prefixes(a, cache, ids, ids.len()),
            a,
            cache,
            ids,
            ids.len(),
        )
    } else {
        a
    };
    if generate {
        generated_prefixes(b, cache, ids, ids.len())
    } else {
        b
    }
}

/// The collection that is built from all entries.
pub open spec fn built(
    entries: Seq<ParserEntryView>,
    locations: LocationCache,
    alternative: bool,
    generate: bool,
) -> SchemasView {
    let n = entries.len();
    let start = SchemasView {
        last_schema_id: schema_count(entries, n) as usize,
        ..no_schemas()
    };
    prefixed(
        collected(start, id_cache(entries, n, locations), entries, n),
        prefix_cache(entries, n),
        alternative,
        generate,
    )
}

/// Whether no two schemas get the same identifier.
pub open spec fn ids_distinct(entries: Seq<ParserEntryView>, locations: LocationCache) -> bool {
    let ids = id_cache(entries, entries.len(), locations);
    forall|i: int, j: int|
        #![trigger entries[i], entries[j]]
        0 <= i < j < entries.len() && entries[i] is Schema && entries[j] is Schema
            ==> ids[entries[i]->id] != ids[entries[j]->id]
}

/// Namespaces are numbered, and zero stands for the anonymous one.
pub open spec fn numbered(s: SchemasView) -> bool {
    &&& s.namespaces_agree()
    &&& forall|id: NamespaceId| #[trigger]
        s.namespace_infos.contains_key(id) ==> {
            &&& id.0 <= s.last_namespace_id
            &&& id.0 == ANONYMOUS_NAMESPACE <==> s.namespace_infos[id].namespace is None
        }
}

/// A new namespace gets a new number.
pub proof fn lemma_with_namespace(s: SchemasView, ns: Option<Seq<u8>>)
    requires
        numbered(s),
        s.last_namespace_id < usize::MAX,
    ensures
        numbered(with_namespace(s, ns)),
        with_namespace(s, ns).known_namespaces.contains_key(ns),
        !s.known_namespaces.contains_key(ns) ==> !s.namespace_infos.contains_key(
            new_namespace_id(s, ns),
        ),
        with_namespace(s, ns).last_namespace_id <= s.last_namespace_id + 1,
{
    if !s.known_namespaces.contains_key(ns) {
        let id = new_namespace_id(s, ns);
        let t = with_namespace(s, ns);
        if ns is None && s.namespace_infos.contains_key(id) {
            assert(s.namespace_infos[id].namespace is None);
            assert(s.known_namespaces.contains_key(None));
        }
        assert forall|k: Option<Seq<u8>>| #[trigger] t.known_namespaces.contains_key(k) implies {
            &&& t.namespace_infos.contains_key(t.known_namespaces[k])
            &&& t.namespace_infos[t.known_namespaces[k]].namespace == k
        } by {
            if k != ns {
                assert(s.known_namespaces.contains_key(k));
                assert(s.namespace_infos.contains_key(s.known_namespaces[k]));
            }
        }
        assert forall|i: NamespaceId| #[trigger] t.namespace_infos.contains_key(i) implies {
            &&& t.known_namespaces.contains_key(t.namespace_infos[i].namespace)
            &&& t.known_namespaces[t.namespace_infos[i].namespace] == i
        } by {
            if i != id {
                assert(s.namespace_infos.contains_key(i));
            }
        }
    }
}

/// Adding a schema keeps namespaces numbered.
pub proof fn lemma_with_entry(s: SchemasView, ids: IdCache, entry: ParserEntryView)
    requires
        numbered(s),
        s.last_namespace_id < usize::MAX,
    ensures
        numbered(with_entry(s, ids, entry)),
        with_entry(s, ids, entry).last_namespace_id <= s.last_namespace_id + 1,
{
    match entry {
        ParserEntryView::AnonymousNamespace => {
            lemma_with_namespace(s, None);
        },
        ParserEntryView::Namespace { namespace, .. } => {
            lemma_with_namespace(s, Some(namespace));
        },
        ParserEntryView::Schema { target_ns, .. } => {
            let s1 = SchemasView { last_schema_id: s.last_schema_id.wrapping_add(1), ..s };
            assert(numbered(s1));
            lemma_with_namespace(s1, target_ns);
            let t = with_namespace(s1, target_ns);
            let u = with_entry(s, ids, entry);
            assert(t.namespace_infos.contains_key(t.known_namespaces[target_ns]));
            assert(u.namespace_infos.dom() =~= t.namespace_infos.dom());
        },
    }
}

/// Whether two collections have the same namespaces, apart from their prefixes.
pub open spec fn same_namespaces(a: SchemasView, b: SchemasView) -> bool {
    &&& a.namespace_infos.dom() == b.namespace_infos.dom()
    &&& forall|id: NamespaceId| #[trigger]
        a.namespace_infos.contains_key(id) ==> a.namespace_infos[id].namespace
            == b.namespace_infos[id].namespace && a.namespace_infos[id].schemas
            == b.namespace_infos[id].schemas
    &&& a.known_namespaces == b.known_namespaces
    &&& a.schemas == b.schemas
    &&& a.last_schema_id == b.last_schema_id
    &&& a.last_namespace_id == b.last_namespace_id
}

/// A new prefix leaves the namespaces as they were.
pub proof fn lemma_with_prefix(a: SchemasView, s: SchemasView, id: NamespaceId, prefix: Seq<u8>)
    requires
        same_namespaces(a, s),
        s.namespace_infos.contains_key(id),
    ensures
        same_namespaces(a, with_prefix(s, id, prefix)),
{
    assert(with_prefix(s, id, prefix).namespace_infos.dom() =~= s.namespace_infos.dom());
}

/// The number of the schema at a place.
pub open spec fn number_at(entries: Seq<ParserEntryView>, i: int) -> SchemaId {
    SchemaId(schema_count(entries, (i + 1) as nat) as usize)
}

/// No more schemas than entries.
pub proof fn lemma_count_bound(entries: Seq<ParserEntryView>, n: nat)
    ensures
        schema_count(entries, n) <= n,
    decreases n,
{
    if n > 0 {
        lemma_count_bound(entries, (n - 1) as nat);
    }
}

/// Later schemas have larger numbers.
pub proof fn lemma_count_grows(entries: Seq<ParserEntryView>, i: nat, j: nat)
    requires
        i <= j,
    ensures
        schema_count(entries, i) <= schema_count(entries, j),
        i < j && entries[j - 1] is Schema ==> schema_count(entries, i) < schema_count(entries, j),
    decreases j,
{
    if i < j {
        lemma_count_grows(entries, i, (j - 1) as nat);
    }
}

/// The identifier of a schema stands for that schema or for a later one.
proof fn lemma_id_of_entry(
    entries: Seq<ParserEntryView>,
    n: nat,
    locations: LocationCache,
    i: int,
) -> (k: int)
    requires
        0 <= i < n,
        entries[i] is Schema,
    ensures
        id_cache(entries, n, locations).contains_key(entries[i]->id),
        i <= k < n,
        entries[k] is Schema,
        id_cache(entries, n, locations)[entries[i]->id] == number_at(entries, k),
    decreases n,
{
    let t = entries[i]->id;
    let last = n - 1;
    if i == last {
        assert(aliases(entries[i]->location, locations).insert(t).contains(t));
        last
    } else {
        let k = lemma_id_of_entry(entries, (n - 1) as nat, locations, i);
        match entries[last] {
            ParserEntryView::Schema { id, location, .. } => {
                if aliases(location, locations).insert(id).contains(t) {
                    last
                } else {
                    k
                }
            },
            _ => k,
        }
    }
}

/// Every identifier stands for some schema.
pub proof fn lemma_id_range(
    entries: Seq<ParserEntryView>,
    n: nat,
    locations: LocationCache,
    t: TempSchemaId,
) -> (k: int)
    requires
        id_cache(entries, n, locations).contains_key(t),
    ensures
        0 <= k < n,
        entries[k] is Schema,
        id_cache(entries, n, locations)[t] == number_at(entries, k),
    decreases n,
{
    let last = n - 1;
    match entries[last] {
        ParserEntryView::Schema { id, location, .. } => {
            if aliases(location, locations).insert(id).contains(t) {
                last
            } else {
                lemma_id_range(entries, (n - 1) as nat, locations, t)
            }
        },
        _ => lemma_id_range(entries, (n - 1) as nat, locations, t),
    }
}

/// Schemas with different identifiers are numbered in the order in which they were added, from one.
pub proof fn lemma_numbered_in_order(
    entries: Seq<ParserEntryView>,
    locations: LocationCache,
    i: int,
)
    requires
        ids_distinct(entries, locations),
        0 <= i < entries.len(),
        entries[i] is Schema,
    ensures
        id_cache(entries, entries.len(), locations).contains_key(entries[i]->id),
        id_cache(entries, entries.len(), locations)[entries[i]->id] == number_at(entries, i),
    decreases entries.len() - i,
{
    let k = lemma_id_of_entry(entries, entries.len(), locations, i);
    if k > i {
        lemma_numbered_in_order(entries, locations, k);
        assert(entries[i] is Schema && entries[k] is Schema);
    }
}

/// The schemas of the collection are those of the entries.
pub proof fn lemma_collected_schemas(
    start: SchemasView,
    ids: IdCache,
    entries: Seq<ParserEntryView>,
    n: nat,
)
    requires
        start.schemas == Map::<SchemaId, SchemaInfoView>::empty(),
    ensures
        forall|s: SchemaId|
            #![trigger collected(start, ids, entries, n).schemas.contains_key(s)]
            collected(start, ids, entries, n).schemas.contains_key(s) ==> exists|j: int|
                0 <= j < n && (#[trigger] entries[j]) is Schema && ids[entries[j]->id] == s,
        forall|j: int|
            0 <= j < n && (#[trigger] entries[j]) is Schema ==> collected(
                start,
                ids,
                entries,
                n,
            ).schemas.contains_key(ids[entries[j]->id]),
    decreases n,
{
    if n > 0 {
        let m = (n - 1) as nat;
        lemma_collected_schemas(start, ids, entries, m);
        let a = collected(start, ids, entries, m);
        let b = collected(start, ids, entries, n);
        assert forall|s: SchemaId| #[trigger] b.schemas.contains_key(s) implies exists|j: int|
            0 <= j < n && (#[trigger] entries[j]) is Schema && ids[entries[j]->id] == s by {
            if a.schemas.contains_key(s) {
                let j = choose|j: int|
                    0 <= j < m && (#[trigger] entries[j]) is Schema && ids[entries[j]->id] == s;
                assert(entries[j] is Schema);
            } else {
                assert(entries[m as int] is Schema);
            }
        }
        assert forall|j: int| 0 <= j < n && (#[trigger] entries[j]) is Schema implies
            b.schemas.contains_key(ids[entries[j]->id]) by {
            if j < m {
                assert(a.schemas.contains_key(ids[entries[j]->id]));
            }
        }
    }
}

/// The namespace of an entry.
pub open spec fn namespace_of(entry: ParserEntryView) -> Option<Seq<u8>> {
    match entry {
        ParserEntryView::AnonymousNamespace => None,
        ParserEntryView::Namespace { namespace, .. } => Some(namespace),
        ParserEntryView::Schema { target_ns, .. } => target_ns,
    }
}

/// Every namespace of the collection has known prefixes, if only none.
pub proof fn lemma_prefixes_known(
    start: SchemasView,
    ids: IdCache,
    entries: Seq<ParserEntryView>,
    n: nat,
)
    requires
        start.known_namespaces == Map::<Option<Seq<u8>>, NamespaceId>::empty(),
    ensures
        forall|ns: Option<Seq<u8>>| #[trigger]
            collected(start, ids, entries, n).known_namespaces.contains_key(ns) ==> prefix_cache(
                entries,
                n,
            ).contains_key(ns),
    decreases n,
{
    if n > 0 {
        let m = (n - 1) as nat;
        lemma_prefixes_known(start, ids, entries, m);
        let a = collected(start, ids, entries, m);
        let b = collected(start, ids, entries, n);
        assert forall|ns: Option<Seq<u8>>| #[trigger] b.known_namespaces.contains_key(ns) implies
            prefix_cache(entries, n).contains_key(ns) by {
            if a.known_namespaces.contains_key(ns) {
                assert(prefix_cache(entries, m).contains_key(ns));
            } else {
                assert(ns == namespace_of(entries[m as int]));
            }
        }
    }
}

/// Namespaces are numbered in every collection that is built.
pub proof fn lemma_collected_numbered(
    start: SchemasView,
    ids: IdCache,
    entries: Seq<ParserEntryView>,
    n: nat,
)
    requires
        numbered(start),
        start.last_namespace_id == 0,
        n <= entries.len() <= usize::MAX,
    ensures
        numbered(collected(start, ids, entries, n)),
        collected(start, ids, entries, n).last_namespace_id <= n,
    decreases n,
{
    if n > 0 {
        lemma_collected_numbered(start, ids, entries, (n - 1) as nat);
        lemma_with_entry(collected(start, ids, entries, (n - 1) as nat), ids, entries[n - 1]);
    }
}

} // verus!
