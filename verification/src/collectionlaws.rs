//! Which schemas a finished collection holds, and which depends on which.

use vstd::prelude::*;

use crate::buildlaws::{build_start, law_every_schema_is_kept, law_prefixes_only};
use crate::buildmodel::{
    aliases, built, collected, id_cache, ids_distinct, lemma_collected_numbered, lemma_count_bound,
    lemma_numbered_in_order, lemma_with_namespace, number_at, numbered, prefix_cache, schema_count,
    with_namespace, IdCache, LocationCache,
};
use crate::models::{Dependency, NamespaceId, SchemaId, TempSchemaId};
use crate::parser::ParserEntryView;
use crate::schemas::SchemasView;

verus! {

/// Whether an identifier stands for the schema of an entry: it is the identifier of the schema, or
/// one of those that stand for the document from which the schema was loaded.
pub open spec fn stands_for(
    entry: ParserEntryView,
    locations: LocationCache,
    t: TempSchemaId,
) -> bool {
    &&& entry is Schema
    &&& entry->id == t || (entry->location matches Some(l) && locations.contains_key(l)
        && locations[l].contains(t))
}

/// Whether an entry is the last one whose schema an identifier stands for.
pub open spec fn stands_for_last(
    entries: Seq<ParserEntryView>,
    locations: LocationCache,
    t: TempSchemaId,
    j: int,
) -> bool {
    &&& 0 <= j < entries.len()
    &&& stands_for(entries[j], locations, t)
    &&& forall|k: int| j < k < entries.len() ==> !stands_for(#[trigger] entries[k], locations, t)
}

/// Whether two dependencies are of the same kind, and the second points to the given schema.
pub open spec fn same_kind(
    d: Dependency<TempSchemaId>,
    e: Dependency<SchemaId>,
    target: SchemaId,
) -> bool {
    match d {
        Dependency::Import(_) => e == Dependency::Import(target),
        Dependency::Include(_) => e == Dependency::Include(target),
        Dependency::Redefine(_) => e == Dependency::Redefine(target),
        Dependency::Override(_) => e == Dependency::Override(target),
    }
}

/// The identifier of the document that a dependency points to.
pub open spec fn pointed(d: Dependency<TempSchemaId>) -> TempSchemaId {
    match d {
        Dependency::Import(t) => t,
        Dependency::Include(t) => t,
        Dependency::Redefine(t) => t,
        Dependency::Override(t) => t,
    }
}

/// What an identifier stands for among the first `n` entries.
proof fn lemma_stands_for(
    entries: Seq<ParserEntryView>,
    locations: LocationCache,
    n: nat,
    t: TempSchemaId,
)
    requires
        n <= entries.len(),
    ensures
        id_cache(entries, n, locations).contains_key(t) <==> exists|j: int|
            0 <= j < n && stands_for(#[trigger] entries[j], locations, t),
        forall|j: int|
            0 <= j < n && stands_for(#[trigger] entries[j], locations, t) && (forall|k: int|
                j < k < n ==> !stands_for(#[trigger] entries[k], locations, t)) ==> id_cache(
                entries,
                n,
                locations,
            )[t] == number_at(entries, j),
    decreases n,
{
    if n > 0 {
        let m = (n - 1) as nat;
        lemma_stands_for(entries, locations, m, t);
        let here = entries[m as int];
        if let ParserEntryView::Schema { id, location, .. } = here {
            let same = aliases(location, locations).insert(id);
            assert(same.contains(t) <==> stands_for(here, locations, t));
        }
        let a = id_cache(entries, m, locations);
        let b = id_cache(entries, n, locations);
        if a.contains_key(t) {
            let j = choose|j: int| 0 <= j < m && stands_for(#[trigger] entries[j], locations, t);
            assert(stands_for(entries[j], locations, t));
        }
        if b.contains_key(t) && !a.contains_key(t) {
            assert(stands_for(entries[m as int], locations, t));
        }
        assert forall|j: int|
            0 <= j < n && stands_for(#[trigger] entries[j], locations, t) && (forall|k: int|
                j < k < n ==> !stands_for(#[trigger] entries[k], locations, t)) implies b[t]
            == number_at(entries, j) by {
            if j < m {
                assert(!stands_for(entries[m as int], locations, t));
                assert(forall|k: int|
                    j < k < m ==> !stands_for(#[trigger] entries[k], locations, t));
                assert(a.contains_key(t));
            }
        }
    }
}

/// In a finished collection a schema depends on another one under a location exactly if what was
/// asked for under that location was loaded, whether it is imported, included, redefined or
/// overridden. The dependency is of the same kind, and points to the schema that was loaded.
pub proof fn law_loaded_references_are_dependencies(
    entries: Seq<ParserEntryView>,
    locations: LocationCache,
    alternative: bool,
    generate: bool,
    i: int,
    l: Seq<char>,
)
    requires
        ids_distinct(entries, locations),
        entries.len() <= usize::MAX,
        0 <= i < entries.len(),
        entries[i] is Schema,
    ensures
        ({
            let s = built(entries, locations, alternative, generate);
            let given = entries[i]->dependencies;
            let kept = s.schemas[number_at(entries, i)].dependencies;
            &&& s.schemas.contains_key(number_at(entries, i))
            &&& kept.contains_key(l) <==> given.contains_key(l) && exists|j: int|
                0 <= j < entries.len() && stands_for(
                    #[trigger] entries[j],
                    locations,
                    pointed(given[l]),
                )
            &&& forall|j: int| #[trigger]
                stands_for_last(entries, locations, pointed(given[l]), j) && given.contains_key(l)
                    ==> same_kind(given[l], kept[l], number_at(entries, j))
        }),
{
    let t = pointed(entries[i]->dependencies[l]);
    law_every_schema_is_kept(entries, locations, alternative, generate, i);
    lemma_stands_for(entries, locations, entries.len(), t);
}

/// In a finished collection every import, inclusion, redefinition and override whose document was
/// loaded is a dependency on the schema of that document.
pub proof fn law_references_lead_to_their_schemas(
    entries: Seq<ParserEntryView>,
    locations: LocationCache,
    alternative: bool,
    generate: bool,
    i: int,
    j: int,
    l: Seq<char>,
)
    requires
        ids_distinct(entries, locations),
        entries.len() <= usize::MAX,
        0 <= i < entries.len(),
        entries[i] is Schema,
        entries[i]->dependencies.contains_key(l),
        stands_for_last(entries, locations, pointed(entries[i]->dependencies[l]), j),
    ensures
        ({
            let s = built(entries, locations, alternative, generate);
            let given = entries[i]->dependencies[l];
            let info = s.schemas[number_at(entries, i)];
            let target = number_at(entries, j);
            &&& s.schemas.contains_key(number_at(entries, i))
            &&& s.schemas.contains_key(target)
            &&& s.schemas[target].schema == entries[j]->schema
            &&& info.dependencies.contains_key(l)
            &&& given is Import ==> info.dependencies[l] == Dependency::Import(target)
            &&& given is Include ==> info.dependencies[l] == Dependency::Include(target)
            &&& given is Redefine ==> info.dependencies[l] == Dependency::Redefine(target)
            &&& given is Override ==> info.dependencies[l] == Dependency::Override(target)
        }),
{
    assert(stands_for(entries[j], locations, pointed(entries[i]->dependencies[l])));
    law_loaded_references_are_dependencies(entries, locations, alternative, generate, i, l);
    law_every_schema_is_kept(entries, locations, alternative, generate, j);
}

/// Whether a list holds the places of all schemas among entries, in order.
pub open spec fn schema_places(entries: Seq<ParserEntryView>, places: Seq<int>) -> bool {
    &&& forall|a: int, b: int|
        #![trigger places[a], places[b]]
        0 <= a < b < places.len() ==> places[a] < places[b]
    &&& forall|a: int|
        0 <= a < places.len() ==> 0 <= #[trigger] places[a] < entries.len()
            && entries[places[a]] is Schema
    &&& forall|i: int|
        0 <= i < entries.len() && (#[trigger] entries[i]) is Schema ==> places.contains(i)
}

/// How many schemas there are up to a place.
proof fn lemma_places(entries: Seq<ParserEntryView>, places: Seq<int>, n: nat, m: nat)
    requires
        schema_places(entries, places),
        n <= entries.len(),
        m <= places.len(),
        forall|a: int| 0 <= a < m ==> #[trigger] places[a] < n,
        forall|a: int| m <= a < places.len() ==> #[trigger] places[a] >= n,
    ensures
        schema_count(entries, n) == m,
    decreases n,
{
    if n == 0 {
        if m > 0 {
            assert(places[0] < 0);
        }
    } else {
        let last = n - 1;
        if entries[last] is Schema {
            assert(places.contains(last));
            let a = choose|a: int| 0 <= a < places.len() && places[a] == last;
            assert(a == m - 1) by {
                if a >= m {
                    assert(places[a] >= n);
                } else if a < m - 1 {
                    assert(places[a] < places[m - 1]);
                    assert(places[m - 1] < n);
                }
            }
            assert forall|b: int| 0 <= b < m - 1 implies #[trigger] places[b] < n - 1 by {
                assert(places[b] < places[a]);
            }
            assert forall|b: int| m - 1 <= b < places.len() implies #[trigger] places[b] >= n
                - 1 by {
                if b > a {
                    assert(places[a] < places[b]);
                }
            }
            lemma_places(entries, places, (n - 1) as nat, (m - 1) as nat);
        } else {
            assert forall|b: int| 0 <= b < m implies #[trigger] places[b] < n - 1 by {
                assert(entries[places[b]] is Schema);
            }
            lemma_places(entries, places, (n - 1) as nat, m);
        }
    }
}

/// The schemas of a finished collection are numbered from one, in the order in which they were
/// added: the collection holds these numbers and no others, and each schema under its number.
pub proof fn law_schemas_are_counted_from_one(
    entries: Seq<ParserEntryView>,
    locations: LocationCache,
    alternative: bool,
    generate: bool,
    places: Seq<int>,
)
    requires
        ids_distinct(entries, locations),
        entries.len() <= usize::MAX,
        schema_places(entries, places),
    ensures
        ({
            let s = built(entries, locations, alternative, generate);
            &&& forall|id: SchemaId| #[trigger]
                s.schemas.contains_key(id) <==> 1 <= id.0 <= places.len()
            &&& forall|a: int|
                0 <= a < places.len() ==> {
                    let info = s.schemas[SchemaId((a + 1) as usize)];
                    let entry = entries[#[trigger] places[a]];
                    &&& info.schema == entry->schema
                    &&& info.name == entry->name
                    &&& info.location == entry->location
                    &&& s.known_namespaces.contains_key(entry->target_ns)
                    &&& info.namespace_id == s.known_namespaces[entry->target_ns]
                }
        }),
{
    let s = built(entries, locations, alternative, generate);
    crate::buildlaws::law_built_valid(entries, locations, alternative, generate);
    assert forall|a: int| 0 <= a < places.len() implies number_at(
        entries,
        #[trigger] places[a],
    ) == SchemaId((a + 1) as usize) && a + 1 <= usize::MAX by {
        let n = (places[a] + 1) as nat;
        assert forall|b: int| 0 <= b < a + 1 implies #[trigger] places[b] < n by {
            if b < a {
                assert(places[b] < places[a]);
            }
        }
        assert forall|b: int| a + 1 <= b < places.len() implies #[trigger] places[b] >= n by {
            assert(places[a] < places[b]);
        }
        lemma_places(entries, places, n, (a + 1) as nat);
        lemma_count_bound(entries, n);
    }
    assert forall|a: int| 0 <= a < places.len() implies ({
        let info = s.schemas[SchemaId((a + 1) as usize)];
        let entry = entries[#[trigger] places[a]];
        &&& s.schemas.contains_key(SchemaId((a + 1) as usize))
        &&& info.schema == entry->schema
        &&& info.name == entry->name
        &&& info.location == entry->location
        &&& s.known_namespaces.contains_key(entry->target_ns)
        &&& info.namespace_id == s.known_namespaces[entry->target_ns]
    }) by {
        law_every_schema_is_kept(entries, locations, alternative, generate, places[a]);
    }
    assert forall|id: SchemaId| #[trigger] s.schemas.contains_key(id) <==> 1 <= id.0
        <= places.len() by {
        if 1 <= id.0 <= places.len() {
            let a = id.0 - 1;
            assert(number_at(entries, places[a]) == SchemaId((a + 1) as usize));
        }
        if s.schemas.contains_key(id) {
            let j = lemma_from_entry(entries, locations, alternative, generate, id);
            assert(places.contains(j));
            let a = choose|a: int| 0 <= a < places.len() && places[a] == j;
            assert(number_at(entries, places[a]) == SchemaId((a + 1) as usize));
        }
    }
}

/// Every schema of a finished collection was added.
proof fn lemma_from_entry(
    entries: Seq<ParserEntryView>,
    locations: LocationCache,
    alternative: bool,
    generate: bool,
    id: SchemaId,
) -> (j: int)
    requires
        ids_distinct(entries, locations),
        built(entries, locations, alternative, generate).schemas.contains_key(id),
    ensures
        0 <= j < entries.len(),
        entries[j] is Schema,
        number_at(entries, j) == id,
{
    let n = entries.len();
    let start = build_start(entries);
    let ids = id_cache(entries, n, locations);
    let s = collected(start, ids, entries, n);
    crate::buildmodel::lemma_collected_schemas(start, ids, entries, n);
    crate::buildlaws::lemma_infos_finite(start, ids, entries, n);
    law_prefixes_only(s, prefix_cache(entries, n), alternative, generate);
    let j = choose|j: int|
        0 <= j < n && (#[trigger] entries[j]) is Schema && ids[entries[j]->id] == id;
    lemma_numbered_in_order(entries, locations, j);
    j
}

/// Whether the schemas that a namespace lists are those that were collected for it, in the order of
/// the entries.
spec fn lists_own(s: SchemasView, ids: IdCache, entries: Seq<ParserEntryView>, n: nat) -> bool {
    forall|ns: NamespaceId| #[trigger]
        s.namespace_infos.contains_key(ns) ==> lists_of(
            s.namespace_infos[ns].schemas,
            s.namespace_infos[ns].namespace,
            ids,
            entries,
            n,
        )
}

/// Whether a list holds the schemas that were collected for a namespace.
spec fn lists_of(
    list: Seq<SchemaId>,
    namespace: Option<Seq<u8>>,
    ids: IdCache,
    entries: Seq<ParserEntryView>,
    n: nat,
) -> bool
    decreases n,
{
    if n == 0 {
        list.len() == 0
    } else if entries[n - 1] is Schema && entries[n - 1]->target_ns == namespace {
        &&& list.len() > 0
        &&& list.last() == ids[entries[n - 1]->id]
        &&& lists_of(list.drop_last(), namespace, ids, entries, (n - 1) as nat)
    } else {
        lists_of(list, namespace, ids, entries, (n - 1) as nat)
    }
}

/// A namespace that no schema was collected for lists none.
proof fn lemma_lists_none(
    namespace: Option<Seq<u8>>,
    ids: IdCache,
    entries: Seq<ParserEntryView>,
    n: nat,
    s: SchemasView,
    start: SchemasView,
)
    requires
        s == collected(start, ids, entries, n),
        !s.known_namespaces.contains_key(namespace),
    ensures
        lists_of(Seq::empty(), namespace, ids, entries, n),
    decreases n,
{
    if n > 0 {
        let m = (n - 1) as nat;
        let a = collected(start, ids, entries, m);
        assert(!a.known_namespaces.contains_key(namespace));
        lemma_lists_none(namespace, ids, entries, m, a, start);
    }
}

/// What namespaces list.
proof fn lemma_lists_own(
    start: SchemasView,
    ids: IdCache,
    entries: Seq<ParserEntryView>,
    n: nat,
)
    requires
        numbered(start),
        start.last_namespace_id == 0,
        start.namespace_infos.dom() == Set::<NamespaceId>::empty(),
        n <= entries.len() <= usize::MAX,
    ensures
        lists_own(collected(start, ids, entries, n), ids, entries, n),
    decreases n,
{
    if n > 0 {
        let m = (n - 1) as nat;
        lemma_lists_own(start, ids, entries, m);
        lemma_collected_numbered(start, ids, entries, m);
        let a = collected(start, ids, entries, m);
        let b = collected(start, ids, entries, n);
        let entry = entries[m as int];
        let target = crate::buildmodel::namespace_of(entry);
        let a1 = if entry is Schema {
            SchemasView { last_schema_id: a.last_schema_id.wrapping_add(1), ..a }
        } else {
            a
        };
        assert(numbered(a1));
        lemma_with_namespace(a1, target);
        let t = with_namespace(a1, target);
        assert forall|ns: NamespaceId| #[trigger] t.namespace_infos.contains_key(ns) implies lists_of(
            t.namespace_infos[ns].schemas,
            t.namespace_infos[ns].namespace,
            ids,
            entries,
            m,
        ) by {
            if a.namespace_infos.contains_key(ns) {
                assert(t.namespace_infos[ns] == a.namespace_infos[ns]);
            } else {
                lemma_lists_none(target, ids, entries, m, a, start);
            }
        }
        assert forall|ns: NamespaceId| #[trigger] b.namespace_infos.contains_key(ns) implies lists_of(
            b.namespace_infos[ns].schemas,
            b.namespace_infos[ns].namespace,
            ids,
            entries,
            n,
        ) by {
            assert(t.namespace_infos.contains_key(t.known_namespaces[target]));
            assert(t.namespace_infos.contains_key(ns));
            if entry is Schema && ns == t.known_namespaces[target] {
                let list = t.namespace_infos[ns].schemas;
                let all = b.namespace_infos[ns].schemas;
                assert(all == list.push(ids[entry->id]));
                assert(all.drop_last() =~= list);
            } else if entry is Schema {
                assert(t.namespace_infos[ns].namespace != target);
            }
        }
    }
}

/// What a list of the schemas of a namespace holds, and in what order.
proof fn lemma_listed(
    list: Seq<SchemaId>,
    namespace: Option<Seq<u8>>,
    locations: LocationCache,
    entries: Seq<ParserEntryView>,
    n: nat,
)
    requires
        ids_distinct(entries, locations),
        n <= entries.len() <= usize::MAX,
        lists_of(list, namespace, id_cache(entries, entries.len(), locations), entries, n),
    ensures
        forall|a: int|
            0 <= a < list.len() ==> (#[trigger] list[a]).0 <= schema_count(entries, n),
        forall|a: int, b: int|
            #![trigger list[a], list[b]]
            0 <= a < b < list.len() ==> list[a].0 < list[b].0,
        forall|id: SchemaId| #[trigger]
            list.contains(id) <==> exists|i: int|
                0 <= i < n && (#[trigger] entries[i]) is Schema && entries[i]->target_ns
                    == namespace && number_at(entries, i) == id,
    decreases n,
{
    if n > 0 {
        let m = (n - 1) as nat;
        let entry = entries[m as int];
        lemma_count_bound(entries, n);
        if entry is Schema && entry->target_ns == namespace {
            let front = list.drop_last();
            lemma_listed(front, namespace, locations, entries, m);
            lemma_numbered_in_order(entries, locations, m as int);
            assert(list.last() == number_at(entries, m as int));
            assert forall|a: int| 0 <= a < list.len() implies (#[trigger] list[a]).0
                <= schema_count(entries, n) by {
                if a < front.len() {
                    assert(front[a] == list[a]);
                }
            }
            assert forall|a: int, b: int|
                #![trigger list[a], list[b]]
                0 <= a < b < list.len() implies list[a].0 < list[b].0 by {
                assert(front[a] == list[a]);
                if b < front.len() {
                    assert(front[b] == list[b]);
                }
            }
            assert forall|id: SchemaId| #[trigger] list.contains(id) <==> exists|i: int|
                0 <= i < n && (#[trigger] entries[i]) is Schema && entries[i]->target_ns
                    == namespace && number_at(entries, i) == id by {
                if list.contains(id) {
                    let a = choose|a: int| 0 <= a < list.len() && list[a] == id;
                    if a < front.len() {
                        assert(front[a] == id);
                        assert(front.contains(id));
                    } else {
                        assert(entries[m as int] is Schema);
                    }
                }
                if exists|i: int|
                    0 <= i < n && (#[trigger] entries[i]) is Schema && entries[i]->target_ns
                        == namespace && number_at(entries, i) == id {
                    let i = choose|i: int|
                        0 <= i < n && (#[trigger] entries[i]) is Schema && entries[i]->target_ns
                            == namespace && number_at(entries, i) == id;
                    if i < m {
                        assert(front.contains(id));
                        let a = choose|a: int| 0 <= a < front.len() && front[a] == id;
                        assert(list[a] == id);
                    } else {
                        assert(list[list.len() - 1] == id);
                    }
                }
            }
        } else {
            lemma_listed(list, namespace, locations, entries, m);
            assert forall|id: SchemaId| #[trigger] list.contains(id) <==> exists|i: int|
                0 <= i < n && (#[trigger] entries[i]) is Schema && entries[i]->target_ns
                    == namespace && number_at(entries, i) == id by {
                if list.contains(id) {
                    let i = choose|i: int|
                        0 <= i < m && (#[trigger] entries[i]) is Schema && entries[i]->target_ns
                            == namespace && number_at(entries, i) == id;
                    assert(entries[i] is Schema);
                }
            }
        }
    }
}

/// In a finished collection a namespace lists the schemas that have it as their target namespace,
/// in the order in which they were added, and no others.
pub proof fn law_namespaces_list_their_schemas(
    entries: Seq<ParserEntryView>,
    locations: LocationCache,
    alternative: bool,
    generate: bool,
    ns: NamespaceId,
)
    requires
        ids_distinct(entries, locations),
        entries.len() <= usize::MAX,
        built(entries, locations, alternative, generate).namespace_infos.contains_key(ns),
    ensures
        ({
            let info = built(entries, locations, alternative, generate).namespace_infos[ns];
            &&& forall|a: int, b: int|
                #![trigger info.schemas[a], info.schemas[b]]
                0 <= a < b < info.schemas.len() ==> info.schemas[a].0 < info.schemas[b].0
            &&& forall|id: SchemaId| #[trigger]
                info.schemas.contains(id) <==> exists|i: int|
                    0 <= i < entries.len() && (#[trigger] entries[i]) is Schema
                        && entries[i]->target_ns == info.namespace && number_at(entries, i) == id
        }),
{
    let n = entries.len();
    let start = build_start(entries);
    let ids = id_cache(entries, n, locations);
    let s = collected(start, ids, entries, n);
    lemma_lists_own(start, ids, entries, n);
    crate::buildlaws::lemma_infos_finite(start, ids, entries, n);
    law_prefixes_only(s, prefix_cache(entries, n), alternative, generate);
    assert(s.namespace_infos.contains_key(ns));
    lemma_listed(
        s.namespace_infos[ns].schemas,
        s.namespace_infos[ns].namespace,
        locations,
        entries,
        n,
    );
}

/// Whether an entry mentions a namespace: as the anonymous one, by its name, or as the target
/// namespace of a schema.
pub open spec fn mentions(entry: ParserEntryView, ns: Option<Seq<u8>>) -> bool {
    match entry {
        ParserEntryView::AnonymousNamespace => ns is None,
        ParserEntryView::Namespace { namespace, .. } => ns == Some(namespace),
        ParserEntryView::Schema { target_ns, .. } => ns == target_ns,
    }
}

/// Whether the entry at a place is the first of the first `n` that mentions a namespace.
pub open spec fn mentioned_first(
    entries: Seq<ParserEntryView>,
    n: nat,
    ns: Option<Seq<u8>>,
    i: int,
) -> bool {
    &&& 0 <= i < n
    &&& mentions(entries[i], ns)
    &&& forall|j: int| 0 <= j < i ==> !mentions(#[trigger] entries[j], ns)
}

/// Whether the namespaces of a collection are those that the first `n` entries mention, numbered in
/// the order of their first mention.
pub open spec fn counted_from_one(s: SchemasView, entries: Seq<ParserEntryView>, n: nat) -> bool {
    &&& forall|ns: Option<Seq<u8>>| #[trigger]
        s.known_namespaces.contains_key(ns) <==> exists|i: int| #[trigger]
            mentioned_first(entries, n, ns, i)
    &&& s.known_namespaces.contains_key(None) ==> s.known_namespaces[None].0 == 0
    &&& forall|a: Seq<u8>, b: Seq<u8>, i: int, j: int|
        #![trigger mentioned_first(entries, n, Some(a), i), mentioned_first(entries, n, Some(b), j)]
        mentioned_first(entries, n, Some(a), i) && mentioned_first(entries, n, Some(b), j) && i < j
            ==> 1 <= s.known_namespaces[Some(a)].0 < s.known_namespaces[Some(b)].0
    &&& forall|a: Seq<u8>| #[trigger]
        s.known_namespaces.contains_key(Some(a)) ==> 1 <= s.known_namespaces[Some(a)].0
    &&& forall|k: usize|
        1 <= k <= s.last_namespace_id ==> #[trigger] s.namespace_infos.contains_key(NamespaceId(k))
    &&& forall|id: NamespaceId| #[trigger]
        s.namespace_infos.contains_key(id) ==> id.0 <= s.last_namespace_id
}

/// The first mention of a namespace stays the first one.
proof fn lemma_mentioned_more(
    entries: Seq<ParserEntryView>,
    n: nat,
    ns: Option<Seq<u8>>,
)
    ensures
        forall|i: int|
            i < n ==> (#[trigger] mentioned_first(entries, n + 1, ns, i) <==> mentioned_first(
                entries,
                n,
                ns,
                i,
            )),
        mentioned_first(entries, n + 1, ns, n as int) <==> mentions(entries[n as int], ns) && !(
        exists|i: int| #[trigger] mentioned_first(entries, n, ns, i)),
{
    if mentions(entries[n as int], ns) && !mentioned_first(entries, n + 1, ns, n as int) {
        let j = choose|j: int| 0 <= j < n && mentions(#[trigger] entries[j], ns);
        lemma_first_mention(entries, n, ns, j);
    }
}

/// What is mentioned has a first mention.
proof fn lemma_first_mention(entries: Seq<ParserEntryView>, n: nat, ns: Option<Seq<u8>>, j: int)
    requires
        0 <= j < n,
        mentions(entries[j], ns),
    ensures
        exists|i: int| #[trigger] mentioned_first(entries, n, ns, i),
    decreases j,
{
    if !mentioned_first(entries, n, ns, j) {
        let k = choose|k: int| 0 <= k < j && mentions(#[trigger] entries[k], ns);
        lemma_first_mention(entries, n, ns, k);
    }
}

/// One more namespace, if it is not known yet, gets the next number.
proof fn lemma_namespaces_counted(
    start: SchemasView,
    ids: IdCache,
    entries: Seq<ParserEntryView>,
    n: nat,
)
    requires
        numbered(start),
        start.last_namespace_id == 0,
        start.known_namespaces == Map::<Option<Seq<u8>>, NamespaceId>::empty(),
        start.namespace_infos.dom() == Set::<NamespaceId>::empty(),
        n <= entries.len() <= usize::MAX,
    ensures
        counted_from_one(collected(start, ids, entries, n), entries, n),
    decreases n,
{
    let t = collected(start, ids, entries, n);
    if n == 0 {
        assert forall|ns: Option<Seq<u8>>| #[trigger] t.known_namespaces.contains_key(
            ns,
        ) <==> exists|i: int| #[trigger] mentioned_first(entries, n, ns, i) by {}
    } else {
        let m = (n - 1) as nat;
        let s = collected(start, ids, entries, m);
        let entry = entries[m as int];
        lemma_namespaces_counted(start, ids, entries, m);
        lemma_collected_numbered(start, ids, entries, m);
        lemma_collected_numbered(start, ids, entries, n);
        let new = match entry {
            ParserEntryView::AnonymousNamespace => None,
            ParserEntryView::Namespace { namespace, .. } => Some(namespace),
            ParserEntryView::Schema { target_ns, .. } => target_ns,
        };
        assert(mentions(entry, new));
        assert forall|ns: Option<Seq<u8>>| #[trigger] mentions(entry, ns) implies ns == new by {}
        assert(t.known_namespaces == with_namespace(s, new).known_namespaces);
        assert(t.last_namespace_id == with_namespace(s, new).last_namespace_id);
        assert(t.namespace_infos.dom() =~= with_namespace(s, new).namespace_infos.dom()) by {
            let one_more = s.last_schema_id.wrapping_add(1);
            lemma_with_namespace(SchemasView { last_schema_id: one_more, ..s }, new);
        }
        assert(m + 1 == n);
        assert forall|ns: Option<Seq<u8>>| #[trigger] t.known_namespaces.contains_key(
            ns,
        ) <==> exists|i: int| #[trigger] mentioned_first(entries, n, ns, i) by {
            lemma_mentioned_more(entries, m, ns);
            assert(s.known_namespaces.contains_key(ns) <==> exists|i: int| #[trigger]
                mentioned_first(entries, m, ns, i));
            if exists|i: int| #[trigger] mentioned_first(entries, m, ns, i) {
                let i = choose|i: int| #[trigger] mentioned_first(entries, m, ns, i);
                assert(mentioned_first(entries, m + 1, ns, i));
            }
            if exists|i: int| #[trigger] mentioned_first(entries, n, ns, i) {
                let i = choose|i: int| #[trigger] mentioned_first(entries, n, ns, i);
                assert(mentioned_first(entries, m + 1, ns, i));
            }
            assert(mentioned_first(entries, m + 1, ns, m as int) == mentioned_first(
                entries,
                n,
                ns,
                m as int,
            ));
        }
        assert forall|a: Seq<u8>, b: Seq<u8>, i: int, j: int|
            #![trigger
                mentioned_first(entries, n, Some(a), i),
                mentioned_first(entries, n, Some(b), j)
            ]
            mentioned_first(entries, n, Some(a), i) && mentioned_first(entries, n, Some(b), j) && i
                < j implies 1 <= t.known_namespaces[Some(a)].0 < t.known_namespaces[Some(b)].0 by {
            lemma_mentioned_more(entries, m, Some(a));
            lemma_mentioned_more(entries, m, Some(b));
            assert(mentioned_first(entries, m + 1, Some(a), i));
            assert(mentioned_first(entries, m + 1, Some(b), j));
            assert(mentioned_first(entries, m, Some(a), i));
            assert(s.known_namespaces.contains_key(Some(a)));
            let x = s.known_namespaces[Some(a)];
            assert(s.namespace_infos.contains_key(x));
            if j < m {
                assert(mentioned_first(entries, m, Some(b), j));
                assert(s.known_namespaces.contains_key(Some(b)));
            } else {
                assert(!s.known_namespaces.contains_key(Some(b)));
                assert(mentions(entries[j], Some(b)));
                assert(Some(b) == new);
            }
        }
        assert forall|k: usize| 1 <= k <= t.last_namespace_id implies
        #[trigger] t.namespace_infos.contains_key(NamespaceId(k)) by {
            if k <= s.last_namespace_id {
                assert(s.namespace_infos.contains_key(NamespaceId(k)));
            }
        }
        assert forall|id: NamespaceId| #[trigger] t.namespace_infos.contains_key(id) implies id.0
            <= t.last_namespace_id by {
            if s.namespace_infos.contains_key(id) {
            }
        }
        assert forall|a: Seq<u8>| #[trigger] t.known_namespaces.contains_key(Some(a)) implies 1
            <= t.known_namespaces[Some(a)].0 by {
            if s.known_namespaces.contains_key(Some(a)) {
            }
        }
    }
}

/// The namespaces of a finished collection are those that were added, by themselves or by a schema,
/// and no others. They are numbered from one, in the order in which they were first mentioned; the
/// anonymous one has the number zero whenever it was.
pub proof fn law_namespaces_are_counted_from_one(
    entries: Seq<ParserEntryView>,
    locations: LocationCache,
    alternative: bool,
    generate: bool,
)
    requires
        entries.len() <= usize::MAX,
    ensures
        counted_from_one(
            built(entries, locations, alternative, generate),
            entries,
            entries.len(),
        ),
{
    let n = entries.len();
    let start = build_start(entries);
    let ids = id_cache(entries, n, locations);
    let s = collected(start, ids, entries, n);
    lemma_namespaces_counted(start, ids, entries, n);
    lemma_collected_numbered(start, ids, entries, n);
    crate::buildlaws::lemma_infos_finite(start, ids, entries, n);
    law_prefixes_only(s, prefix_cache(entries, n), alternative, generate);
    let t = built(entries, locations, alternative, generate);
    assert forall|k: usize| 1 <= k <= t.last_namespace_id implies
    #[trigger] t.namespace_infos.contains_key(NamespaceId(k)) by {
        assert(s.namespace_infos.contains_key(NamespaceId(k)));
    }
    assert forall|id: NamespaceId| #[trigger] t.namespace_infos.contains_key(id) implies id.0
        <= t.last_namespace_id by {
        assert(s.namespace_infos.contains_key(id));
    }
}

/// Each schema takes one more number.
proof fn lemma_numbers_taken(
    start: SchemasView,
    ids: IdCache,
    entries: Seq<ParserEntryView>,
    n: nat,
)
    requires
        n <= entries.len(),
        start.last_schema_id + schema_count(entries, n) <= usize::MAX,
    ensures
        collected(start, ids, entries, n).last_schema_id == start.last_schema_id + schema_count(
            entries,
            n,
        ),
    decreases n,
{
    if n > 0 {
        lemma_numbers_taken(start, ids, entries, (n - 1) as nat);
    }
}

/// The numbers of the schemas of a finished collection are taken: a schema that is numbered after
/// them gets a number that none of them has. This is stated as long as there are numbers left.
pub proof fn law_the_next_number_is_free(
    entries: Seq<ParserEntryView>,
    locations: LocationCache,
    alternative: bool,
    generate: bool,
    places: Seq<int>,
)
    requires
        ids_distinct(entries, locations),
        2 * entries.len() < usize::MAX,
        schema_places(entries, places),
    ensures
        ({
            let s = built(entries, locations, alternative, generate);
            &&& s.last_schema_id == 2 * places.len()
            &&& forall|id: SchemaId| #[trigger]
                s.schemas.contains_key(id) ==> id.0 < s.last_schema_id.wrapping_add(1)
        }),
{
    let n = entries.len();
    let start = build_start(entries);
    let ids = id_cache(entries, n, locations);
    let s = collected(start, ids, entries, n);
    lemma_count_bound(entries, n);
    lemma_numbers_taken(start, ids, entries, n);
    lemma_places(entries, places, n, places.len());
    crate::buildlaws::lemma_infos_finite(start, ids, entries, n);
    law_prefixes_only(s, prefix_cache(entries, n), alternative, generate);
    law_schemas_are_counted_from_one(entries, locations, alternative, generate, places);
}

} // verus!
