//! What holds of every schema collection that is built.

use vstd::prelude::*;

use crate::buildmodel::{
    alternative_prefix, alternative_prefixes, built, candidate, collected, first_free, first_prefix,
    fresh_prefix,
    generated_prefix, generated_prefixes, id_cache, ids_distinct, known_dependencies, main_prefix,
    main_prefixes, marked, namespace_of, number_at, numbered, prefix_cache, prefixed,
    prefixes_of, same_namespaces, schema_count, spare_prefix, spare_prefixes, with_entry,
    with_namespace, with_own, with_prefix, IdCache, LocationCache, PrefixCache,
};
use crate::buildmodel::{
    lemma_collected_numbered, lemma_collected_schemas, lemma_id_range, lemma_marks_exist,
    lemma_numbered_in_order, lemma_prefixes_known, lemma_with_namespace,
};
use crate::builder::lemma_step_same;
use crate::models::{NamespaceId, NamespacePrefix, SchemaId, ANONYMOUS_NAMESPACE};
use crate::order::{in_order, lemma_in_order_finite};
use crate::parser::ParserEntryView;
use crate::schemas::{no_schemas, SchemasView};
use crate::text::{digits, lemma_digits_injective, lemma_digits_range};

verus! {

/// The choice of prefixes leaves everything else of a collection as it was.
pub proof fn law_prefixes_only(
    s: SchemasView,
    cache: PrefixCache,
    alternative: bool,
    generate: bool,
)
    requires
        s.namespace_infos.dom().finite(),
    ensures
        same_namespaces(s, prefixed(s, cache, alternative, generate)),
{
    let ids = in_order::<NamespaceId>(s.namespace_infos.dom());
    lemma_in_order_finite::<NamespaceId>(s.namespace_infos.dom());
    lemma_main_same(s, s, cache, ids, ids.len());
    let a = main_prefixes(s, cache, ids, ids.len());
    lemma_alternative_same(s, a, cache, ids, ids.len());
    lemma_spare_same(
        s,
        alternative_prefixes(a, cache, ids, ids.len()),
        a,
        cache,
        ids,
        ids.len(),
    );
    let b = with_alternatives(a, cache, alternative);
    lemma_generated_same(s, b, cache, ids, ids.len());
}

/// Own prefixes change prefixes only.
pub proof fn lemma_main_same(
    s: SchemasView,
    t: SchemasView,
    cache: PrefixCache,
    ids: Seq<NamespaceId>,
    n: nat,
)
    requires
        same_namespaces(s, t),
        crate::order::lists(ids, s.namespace_infos.dom()),
        n <= ids.len(),
    ensures
        same_namespaces(s, main_prefixes(t, cache, ids, n)),
    decreases n,
{
    if n > 0 {
        lemma_main_same(s, t, cache, ids, (n - 1) as nat);
        assert(ids.contains(ids[n - 1]));
        lemma_step_same(s, main_prefixes(t, cache, ids, (n - 1) as nat), cache, ids[n - 1]);
    }
}

/// Alternative prefixes change prefixes only.
pub proof fn lemma_alternative_same(
    s: SchemasView,
    t: SchemasView,
    cache: PrefixCache,
    ids: Seq<NamespaceId>,
    n: nat,
)
    requires
        same_namespaces(s, t),
        crate::order::lists(ids, s.namespace_infos.dom()),
        n <= ids.len(),
    ensures
        same_namespaces(s, alternative_prefixes(t, cache, ids, n)),
    decreases n,
{
    if n > 0 {
        lemma_alternative_same(s, t, cache, ids, (n - 1) as nat);
        assert(ids.contains(ids[n - 1]));
        lemma_step_same(s, alternative_prefixes(t, cache, ids, (n - 1) as nat), cache, ids[n - 1]);
    }
}

/// The collection in which alternatives were given to namespaces, if they are used.
pub open spec fn with_alternatives(
    a: SchemasView,
    cache: PrefixCache,
    alternative: bool,
) -> SchemasView {
    let ids = in_order::<NamespaceId>(a.namespace_infos.dom());
    if alternative {
        spare_prefixes(
            alternative_prefixes(a, cache, ids, ids.len()),
            a,
            cache,
            ids,
            ids.len(),
        )
    } else {
        a
    }
}

/// Spare prefixes change prefixes only, and leave each namespace its prefix.
pub proof fn lemma_spare_same(
    s: SchemasView,
    t: SchemasView,
    own: SchemasView,
    cache: PrefixCache,
    ids: Seq<NamespaceId>,
    n: nat,
)
    requires
        same_namespaces(s, t),
    ensures
        same_namespaces(s, spare_prefixes(t, own, cache, ids, n)),
        spare_prefixes(t, own, cache, ids, n).namespace_infos == t.namespace_infos,
    decreases n,
{
    if n > 0 {
        lemma_spare_same(s, t, own, cache, ids, (n - 1) as nat);
    }
}

/// Made up prefixes change prefixes only.
pub proof fn lemma_generated_same(
    s: SchemasView,
    t: SchemasView,
    cache: PrefixCache,
    ids: Seq<NamespaceId>,
    n: nat,
)
    requires
        same_namespaces(s, t),
        crate::order::lists(ids, s.namespace_infos.dom()),
        n <= ids.len(),
    ensures
        same_namespaces(s, generated_prefixes(t, cache, ids, n)),
    decreases n,
{
    if n > 0 {
        lemma_generated_same(s, t, cache, ids, (n - 1) as nat);
        assert(ids.contains(ids[n - 1]));
        lemma_step_same(s, generated_prefixes(t, cache, ids, (n - 1) as nat), cache, ids[n - 1]);
    }
}

/// The collection that starts to be built from entries.
pub open spec fn build_start(entries: Seq<ParserEntryView>) -> SchemasView {
    SchemasView { last_schema_id: schema_count(entries, entries.len()) as usize, ..no_schemas() }
}

/// Every schema of a collection is listed by its namespace, whatever is added.
proof fn lemma_collected_listed(
    start: SchemasView,
    ids: IdCache,
    entries: Seq<ParserEntryView>,
    n: nat,
)
    requires
        numbered(start),
        start.last_namespace_id == 0,
        start.schemas_listed(),
        n <= entries.len() <= usize::MAX,
    ensures
        collected(start, ids, entries, n).schemas_listed(),
    decreases n,
{
    if n > 0 {
        let m = (n - 1) as nat;
        lemma_collected_listed(start, ids, entries, m);
        lemma_collected_numbered(start, ids, entries, m);
        let a = collected(start, ids, entries, m);
        let b = collected(start, ids, entries, n);
        match entries[m as int] {
            ParserEntryView::AnonymousNamespace => {
                lemma_with_namespace(a, None);
            },
            ParserEntryView::Namespace { namespace, .. } => {
                lemma_with_namespace(a, Some(namespace));
            },
            ParserEntryView::Schema { id, target_ns, .. } => {
                let a1 = SchemasView { last_schema_id: a.last_schema_id.wrapping_add(1), ..a };
                assert(numbered(a1));
                lemma_with_namespace(a1, target_ns);
                let t = with_namespace(a1, target_ns);
                let ns = t.known_namespaces[target_ns];
                assert(t.namespace_infos.contains_key(ns));
                let listed = t.namespace_infos[ns].schemas;
                assert(b.namespace_infos[ns].schemas == listed.push(ids[id]));
                assert(listed.push(ids[id])[listed.len() as int] == ids[id]);
                assert forall|s: SchemaId| #[trigger] b.schemas.contains_key(s) implies {
                    &&& b.namespace_infos.contains_key(b.schemas[s].namespace_id)
                    &&& b.namespace_infos[b.schemas[s].namespace_id].schemas.contains(s)
                } by {
                    if s != ids[id] {
                        assert(a.schemas.contains_key(s));
                        let old_ns = a.schemas[s].namespace_id;
                        assert(a.namespace_infos[old_ns].schemas.contains(s));
                        assert(t.namespace_infos[old_ns].schemas.contains(s));
                        if old_ns == ns {
                            let k = choose|k: int| 0 <= k < listed.len() && listed[k] == s;
                            assert(listed.push(ids[id])[k] == s);
                        }
                    }
                }
            },
        }
    }
}

/// The dependencies of every collected schema point to schemas that have an identifier.
proof fn lemma_collected_targets(
    start: SchemasView,
    ids: IdCache,
    entries: Seq<ParserEntryView>,
    n: nat,
    id: SchemaId,
    l: Seq<char>,
)
    requires
        start.schemas == no_schemas().schemas,
        collected(start, ids, entries, n).schemas.contains_key(id),
        collected(start, ids, entries, n).schemas[id].dependencies.contains_key(l),
    ensures
        exists|t: crate::models::TempSchemaId| #[trigger]
            ids.contains_key(t) && ids[t] == collected(
                start,
                ids,
                entries,
                n,
            ).schemas[id].dependencies[l].target(),
    decreases n,
{
    if n > 0 {
        let m = (n - 1) as nat;
        let a = collected(start, ids, entries, m);
        let b = collected(start, ids, entries, n);
        match entries[m as int] {
            ParserEntryView::Schema { id: t, dependencies, .. } => {
                if ids[t] == id {
                    assert(b.schemas[id].dependencies == known_dependencies(dependencies, ids));
                    assert(ids.contains_key(dependencies[l].target()));
                } else {
                    assert(a.schemas.contains_key(id) && a.schemas[id] == b.schemas[id]);
                    lemma_collected_targets(start, ids, entries, m, id, l);
                }
            },
            _ => {
                assert(a.schemas == b.schemas);
                lemma_collected_targets(start, ids, entries, m, id, l);
            },
        }
    }
}

/// A finished collection is consistent: its namespaces and their names belong together one for one,
/// every schema is listed by its namespace, and every schema that is referred to is there.
pub proof fn law_built_valid(
    entries: Seq<ParserEntryView>,
    locations: LocationCache,
    alternative: bool,
    generate: bool,
)
    requires
        ids_distinct(entries, locations),
        entries.len() <= usize::MAX,
    ensures
        built(entries, locations, alternative, generate).valid(),
{
    let n = entries.len();
    let start = build_start(entries);
    let ids = id_cache(entries, n, locations);
    let cache = prefix_cache(entries, n);
    let s = collected(start, ids, entries, n);
    lemma_collected_numbered(start, ids, entries, n);
    lemma_collected_listed(start, ids, entries, n);
    lemma_collected_schemas(start, ids, entries, n);
    lemma_infos_finite(start, ids, entries, n);
    law_prefixes_only(s, cache, alternative, generate);
    let t = built(entries, locations, alternative, generate);
    assert forall|id: SchemaId, l: Seq<char>|
        #![trigger t.schemas[id].dependencies[l]]
        t.schemas.contains_key(id) && t.schemas[id].dependencies.contains_key(
            l,
        ) implies t.schemas.contains_key(t.schemas[id].dependencies[l].target()) by {
        lemma_collected_targets(start, ids, entries, n, id, l);
        let x = choose|x: crate::models::TempSchemaId| #[trigger]
            ids.contains_key(x) && ids[x] == s.schemas[id].dependencies[l].target();
        let k = lemma_id_range(entries, n, locations, x);
        lemma_numbered_in_order(entries, locations, k);
    }
    assert forall|k: Option<Seq<u8>>| #[trigger] t.known_namespaces.contains_key(k) implies {
        &&& t.namespace_infos.contains_key(t.known_namespaces[k])
        &&& t.namespace_infos[t.known_namespaces[k]].namespace == k
    } by {
        assert(s.known_namespaces.contains_key(k));
        assert(s.namespace_infos.contains_key(s.known_namespaces[k]));
    }
    assert forall|id: NamespaceId| #[trigger] t.namespace_infos.contains_key(id) implies {
        &&& t.known_namespaces.contains_key(t.namespace_infos[id].namespace)
        &&& t.known_namespaces[t.namespace_infos[id].namespace] == id
    } by {
        assert(s.namespace_infos.contains_key(id));
    }
    assert forall|id: SchemaId| #[trigger] t.schemas.contains_key(id) implies {
        &&& t.namespace_infos.contains_key(t.schemas[id].namespace_id)
        &&& t.namespace_infos[t.schemas[id].namespace_id].schemas.contains(id)
    } by {
        assert(s.schemas.contains_key(id));
        assert(s.namespace_infos.contains_key(s.schemas[id].namespace_id));
    }
}

/// A collection has finitely many namespaces.
pub proof fn lemma_infos_finite(
    start: SchemasView,
    ids: IdCache,
    entries: Seq<ParserEntryView>,
    n: nat,
)
    requires
        start.namespace_infos.dom().finite(),
    ensures
        collected(start, ids, entries, n).namespace_infos.dom().finite(),
    decreases n,
{
    if n > 0 {
        lemma_infos_finite(start, ids, entries, (n - 1) as nat);
        let a = collected(start, ids, entries, (n - 1) as nat);
        let b = with_entry(a, ids, entries[n - 1]);
        match entries[n - 1] {
            ParserEntryView::AnonymousNamespace => {},
            ParserEntryView::Namespace { .. } => {},
            ParserEntryView::Schema { target_ns, .. } => {
                let a1 = SchemasView { last_schema_id: a.last_schema_id.wrapping_add(1), ..a };
                let t = with_namespace(a1, target_ns);
                assert(t.namespace_infos.dom().finite());
                assert(b.namespace_infos.dom() =~= t.namespace_infos.dom().insert(
                    t.known_namespaces[target_ns],
                ));
            },
        }
    }
}

/// Whether every prefix of a namespace stands for that namespace.
pub open spec fn prefixes_map_back(s: SchemasView) -> bool {
    forall|id: NamespaceId| #[trigger]
        s.namespace_infos.contains_key(id) && s.namespace_infos[id].prefix is Some ==> {
            &&& s.known_prefixes.contains_key(s.namespace_infos[id].prefix->0)
            &&& s.known_prefixes[s.namespace_infos[id].prefix->0] == id
        }
}

/// Whether every known prefix is the prefix of the namespace that it stands for.
pub open spec fn prefixes_in_use(s: SchemasView) -> bool {
    forall|p: Seq<u8>| #[trigger]
        s.known_prefixes.contains_key(p) ==> {
            &&& s.namespace_infos.contains_key(s.known_prefixes[p])
            &&& s.namespace_infos[s.known_prefixes[p]].prefix == Some(p)
        }
}

/// Whether every known prefix is the prefix of the namespace that it stands for, or is bound to it
/// by a document.
pub open spec fn prefixes_bound(s: SchemasView, cache: PrefixCache) -> bool {
    forall|p: Seq<u8>| #[trigger]
        s.known_prefixes.contains_key(p) ==> {
            let id = s.known_prefixes[p];
            &&& s.namespace_infos.contains_key(id)
            &&& s.namespace_infos[id].prefix == Some(p)
                || cache[s.namespace_infos[id].namespace].alternatives.contains(p)
        }
}

/// Whether finitely many prefixes are known for each namespace.
pub open spec fn finitely_many(s: SchemasView, cache: PrefixCache) -> bool {
    &&& s.namespace_infos.dom().finite()
    &&& s.known_prefixes.dom().finite()
    &&& forall|id: NamespaceId| #[trigger]
        s.namespace_infos.contains_key(id)
            ==> cache[s.namespace_infos[id].namespace].alternatives.finite()
}

/// What holds after some namespaces have got prefixes: no prefix is taken away, and each is given
/// to one namespace.
pub open spec fn more_prefixes(s: SchemasView, t: SchemasView, cache: PrefixCache) -> bool {
    &&& t.known_prefixes.dom().finite()
    &&& s.known_prefixes.dom().subset_of(t.known_prefixes.dom())
    &&& prefixes_map_back(s) ==> prefixes_map_back(t)
    &&& prefixes_bound(s, cache) ==> prefixes_bound(t, cache)
    &&& forall|id: NamespaceId|
        s.namespace_infos[id].prefix is Some ==> (#[trigger] t.namespace_infos[id]).prefix
            == s.namespace_infos[id].prefix
}

/// Giving a free prefix to a namespace without one gives more prefixes.
proof fn lemma_gives(s: SchemasView, cache: PrefixCache, id: NamespaceId, p: Seq<u8>)
    requires
        s.known_prefixes.dom().finite(),
        s.namespace_infos.contains_key(id),
        s.namespace_infos[id].prefix is None,
        !s.known_prefixes.contains_key(p),
    ensures
        more_prefixes(s, with_prefix(s, id, p), cache),
        prefixes_in_use(s) ==> prefixes_in_use(with_prefix(s, id, p)),
{
    let t = with_prefix(s, id, p);
    assert(t.known_prefixes.dom() =~= s.known_prefixes.dom().insert(p));
    assert forall|i: NamespaceId|
        prefixes_map_back(s) && #[trigger] t.namespace_infos.contains_key(i)
            && t.namespace_infos[i].prefix is Some implies {
        &&& t.known_prefixes.contains_key(t.namespace_infos[i].prefix->0)
        &&& t.known_prefixes[t.namespace_infos[i].prefix->0] == i
    } by {
        if i != id {
            assert(s.namespace_infos.contains_key(i));
        }
    }
    assert forall|q: Seq<u8>|
        prefixes_in_use(s) && #[trigger] t.known_prefixes.contains_key(q) implies {
        &&& t.namespace_infos.contains_key(t.known_prefixes[q])
        &&& t.namespace_infos[t.known_prefixes[q]].prefix == Some(q)
    } by {
        if q != p {
            assert(s.known_prefixes.contains_key(q));
        }
    }
    assert forall|q: Seq<u8>|
        prefixes_bound(s, cache) && #[trigger] t.known_prefixes.contains_key(q) implies {
        let j = t.known_prefixes[q];
        &&& t.namespace_infos.contains_key(j)
        &&& t.namespace_infos[j].prefix == Some(q)
            || cache[t.namespace_infos[j].namespace].alternatives.contains(q)
    } by {
        if q != p {
            assert(s.known_prefixes.contains_key(q));
        }
    }
}

/// Letting spare prefixes stand for a namespace gives more prefixes.
proof fn lemma_spare_more(s: SchemasView, own: SchemasView, cache: PrefixCache, id: NamespaceId)
    requires
        finitely_many(s, cache),
        s.namespace_infos.contains_key(id),
    ensures
        more_prefixes(s, spare_prefix(s, own, cache, id), cache),
{
    let t = spare_prefix(s, own, cache, id);
    let spare = cache[s.namespace_infos[id].namespace].alternatives;
    if own.namespace_infos[id].prefix is None {
        assert(t.known_prefixes.dom() =~= s.known_prefixes.dom().union(spare));
        assert forall|i: NamespaceId|
            prefixes_map_back(s) && #[trigger] t.namespace_infos.contains_key(i)
                && t.namespace_infos[i].prefix is Some implies {
            &&& t.known_prefixes.contains_key(t.namespace_infos[i].prefix->0)
            &&& t.known_prefixes[t.namespace_infos[i].prefix->0] == i
        } by {
            assert(s.namespace_infos.contains_key(i));
        }
        assert forall|q: Seq<u8>|
            prefixes_bound(s, cache) && #[trigger] t.known_prefixes.contains_key(q) implies {
            let j = t.known_prefixes[q];
            &&& t.namespace_infos.contains_key(j)
            &&& t.namespace_infos[j].prefix == Some(q)
                || cache[t.namespace_infos[j].namespace].alternatives.contains(q)
        } by {
            if s.known_prefixes.contains_key(q) {
                assert(t.known_prefixes[q] == s.known_prefixes[q]);
            } else {
                assert(spare.contains(q));
            }
        }
    }
}

/// Spare prefixes are more prefixes.
proof fn lemma_spares_more(
    s: SchemasView,
    own: SchemasView,
    cache: PrefixCache,
    ids: Seq<NamespaceId>,
    n: nat,
)
    requires
        finitely_many(s, cache),
        crate::order::lists(ids, s.namespace_infos.dom()),
        n <= ids.len(),
    ensures
        more_prefixes(s, spare_prefixes(s, own, cache, ids, n), cache),
    decreases n,
{
    if n > 0 {
        let m = (n - 1) as nat;
        lemma_spares_more(s, own, cache, ids, m);
        lemma_spare_same(s, s, own, cache, ids, m);
        assert(ids.contains(ids[n - 1]));
        let t = spare_prefixes(s, own, cache, ids, m);
        lemma_spare_more(t, own, cache, ids[n - 1]);
        lemma_more_trans(s, t, spare_prefixes(s, own, cache, ids, n), cache);
    }
}

/// Once all namespaces had their turn, the alternatives of those without their own prefix are
/// known.
proof fn lemma_spares_known(
    s: SchemasView,
    own: SchemasView,
    cache: PrefixCache,
    ids: Seq<NamespaceId>,
    n: nat,
    k: int,
    p: Seq<u8>,
)
    requires
        finitely_many(s, cache),
        crate::order::lists(ids, s.namespace_infos.dom()),
        0 <= k < n <= ids.len(),
        own.namespace_infos[ids[k]].prefix is None,
        cache[s.namespace_infos[ids[k]].namespace].alternatives.contains(p),
    ensures
        spare_prefixes(s, own, cache, ids, n).known_prefixes.contains_key(p),
    decreases n,
{
    let m = (n - 1) as nat;
    lemma_spare_same(s, s, own, cache, ids, m);
    if k < m {
        lemma_spares_known(s, own, cache, ids, m, k, p);
    }
}

/// The first free prefix of a list is free and in the list. There is none only if all are known.
pub proof fn lemma_first_free(known: Map<Seq<u8>, NamespaceId>, list: Seq<Seq<u8>>)
    ensures
        match first_free(known, list) {
            Some(p) => !known.contains_key(p) && list.contains(p),
            None => forall|k: int| 0 <= k < list.len() ==> known.contains_key(#[trigger] list[k]),
        },
    decreases list.len(),
{
    if list.len() > 0 && known.contains_key(list[0]) {
        let rest = list.drop_first();
        lemma_first_free(known, rest);
        if let Some(p) = first_free(known, rest) {
            let k = choose|k: int| 0 <= k < rest.len() && rest[k] == p;
            assert(list[k + 1] == p);
        } else {
            assert forall|k: int| 0 <= k < list.len() implies known.contains_key(
                #[trigger] list[k],
            ) by {
                if k > 0 {
                    assert(rest[k - 1] == list[k]);
                }
            }
        }
    } else if list.len() > 0 {
        assert(list.contains(list[0]));
    }
}

/// Each step of the choice of prefixes gives more prefixes.
proof fn lemma_step_more(s: SchemasView, cache: PrefixCache, id: NamespaceId)
    requires
        s.known_prefixes.dom().finite(),
        s.namespace_infos.contains_key(id),
    ensures
        more_prefixes(s, main_prefix(s, cache, id), cache),
        more_prefixes(s, alternative_prefix(s, cache, id), cache),
        more_prefixes(s, generated_prefix(s, cache, id), cache),
        prefixes_in_use(s) ==> prefixes_in_use(main_prefix(s, cache, id)),
        prefixes_in_use(s) ==> prefixes_in_use(alternative_prefix(s, cache, id)),
{
    let info = s.namespace_infos[id];
    if info.prefix is None {
        if let Some(p) = cache[info.namespace].prefix {
            if !s.known_prefixes.contains_key(p) {
                lemma_gives(s, cache, id, p);
            }
        }
        let list = in_order::<NamespacePrefix>(cache[info.namespace].alternatives);
        lemma_first_free(s.known_prefixes, list);
        if let Some(p) = first_free(s.known_prefixes, list) {
            lemma_gives(s, cache, id, p);
        }
        if let Some(p) = candidate(cache[info.namespace]) {
            lemma_marks_exist(s.known_prefixes, p, id, 0);
            lemma_gives(s, cache, id, fresh_prefix(s.known_prefixes, p, id));
        }
    }
}

/// Own prefixes are more prefixes.
pub proof fn lemma_main_more(s: SchemasView, cache: PrefixCache, ids: Seq<NamespaceId>, n: nat)
    requires
        s.known_prefixes.dom().finite(),
        crate::order::lists(ids, s.namespace_infos.dom()),
        n <= ids.len(),
    ensures
        more_prefixes(s, main_prefixes(s, cache, ids, n), cache),
        prefixes_in_use(s) ==> prefixes_in_use(main_prefixes(s, cache, ids, n)),
    decreases n,
{
    if n > 0 {
        let m = (n - 1) as nat;
        lemma_main_more(s, cache, ids, m);
        lemma_main_same(s, s, cache, ids, m);
        assert(ids.contains(ids[n - 1]));
        let t = main_prefixes(s, cache, ids, m);
        lemma_step_more(t, cache, ids[n - 1]);
        lemma_more_trans(s, t, main_prefixes(s, cache, ids, n), cache);
    }
}

/// Alternative prefixes are more prefixes.
proof fn lemma_alternative_more(s: SchemasView, cache: PrefixCache, ids: Seq<NamespaceId>, n: nat)
    requires
        s.known_prefixes.dom().finite(),
        crate::order::lists(ids, s.namespace_infos.dom()),
        n <= ids.len(),
    ensures
        more_prefixes(s, alternative_prefixes(s, cache, ids, n), cache),
        prefixes_in_use(s) ==> prefixes_in_use(alternative_prefixes(s, cache, ids, n)),
    decreases n,
{
    if n > 0 {
        let m = (n - 1) as nat;
        lemma_alternative_more(s, cache, ids, m);
        lemma_alternative_same(s, s, cache, ids, m);
        assert(ids.contains(ids[n - 1]));
        let t = alternative_prefixes(s, cache, ids, m);
        lemma_step_more(t, cache, ids[n - 1]);
        lemma_more_trans(s, t, alternative_prefixes(s, cache, ids, n), cache);
    }
}

/// Made up prefixes are more prefixes.
pub proof fn lemma_generated_more(s: SchemasView, cache: PrefixCache, ids: Seq<NamespaceId>, n: nat)
    requires
        s.known_prefixes.dom().finite(),
        crate::order::lists(ids, s.namespace_infos.dom()),
        n <= ids.len(),
    ensures
        more_prefixes(s, generated_prefixes(s, cache, ids, n), cache),
    decreases n,
{
    if n > 0 {
        let m = (n - 1) as nat;
        lemma_generated_more(s, cache, ids, m);
        lemma_generated_same(s, s, cache, ids, m);
        assert(ids.contains(ids[n - 1]));
        let t = generated_prefixes(s, cache, ids, m);
        lemma_step_more(t, cache, ids[n - 1]);
        lemma_more_trans(s, t, generated_prefixes(s, cache, ids, n), cache);
    }
}

/// More and more prefixes are more prefixes.
proof fn lemma_more_trans(s: SchemasView, t: SchemasView, u: SchemasView, cache: PrefixCache)
    requires
        more_prefixes(s, t, cache),
        more_prefixes(t, u, cache),
    ensures
        more_prefixes(s, u, cache),
{
    assert forall|id: NamespaceId| s.namespace_infos[id].prefix is Some implies (
    #[trigger] u.namespace_infos[id]).prefix == s.namespace_infos[id].prefix by {
        assert(t.namespace_infos[id].prefix == s.namespace_infos[id].prefix);
    }
}

/// The choice of prefixes in its rounds.
pub proof fn lemma_prefixed_more(s: SchemasView, cache: PrefixCache, alternative: bool, generate: bool)
    requires
        finitely_many(s, cache),
    ensures
        ({
            let ids = in_order::<NamespaceId>(s.namespace_infos.dom());
            let a = main_prefixes(s, cache, ids, ids.len());
            let m = alternative_prefixes(a, cache, ids, ids.len());
            let b = with_alternatives(a, cache, alternative);
            let c = prefixed(s, cache, alternative, generate);
            &&& crate::order::lists(ids, s.namespace_infos.dom())
            &&& ids.take(ids.len() as int) == ids
            &&& in_order::<NamespaceId>(a.namespace_infos.dom()) == ids
            &&& same_namespaces(s, a)
            &&& same_namespaces(s, m)
            &&& same_namespaces(s, b)
            &&& same_namespaces(s, c)
            &&& more_prefixes(s, a, cache)
            &&& more_prefixes(s, b, cache)
            &&& more_prefixes(b, c, cache)
            &&& more_prefixes(s, c, cache)
            &&& prefixes_in_use(s) ==> prefixes_in_use(m)
            &&& finitely_many(m, cache)
            &&& alternative ==> b.namespace_infos == m.namespace_infos
            &&& alternative ==> more_prefixes(m, b, cache)
        }),
{
    let ids = in_order::<NamespaceId>(s.namespace_infos.dom());
    lemma_in_order_finite::<NamespaceId>(s.namespace_infos.dom());
    assert(ids.take(ids.len() as int) =~= ids);
    lemma_main_same(s, s, cache, ids, ids.len());
    lemma_main_more(s, cache, ids, ids.len());
    let a = main_prefixes(s, cache, ids, ids.len());
    let m = alternative_prefixes(a, cache, ids, ids.len());
    lemma_alternative_same(s, a, cache, ids, ids.len());
    lemma_alternative_more(a, cache, ids, ids.len());
    lemma_more_trans(s, a, m, cache);
    assert forall|id: NamespaceId| #[trigger] m.namespace_infos.contains_key(id) implies cache[
    m.namespace_infos[id].namespace].alternatives.finite() by {
        assert(s.namespace_infos.contains_key(id));
    }
    lemma_spare_same(s, m, a, cache, ids, ids.len());
    lemma_spares_more(m, a, cache, ids, ids.len());
    lemma_more_trans(s, m, spare_prefixes(m, a, cache, ids, ids.len()), cache);
    let b = with_alternatives(a, cache, alternative);
    lemma_generated_same(s, b, cache, ids, ids.len());
    lemma_generated_more(b, cache, ids, ids.len());
    lemma_more_trans(s, b, prefixed(s, cache, alternative, generate), cache);
}

/// Making up prefixes gives one to each namespace that has something to make it up from.
proof fn lemma_generated_given(
    s: SchemasView,
    cache: PrefixCache,
    ids: Seq<NamespaceId>,
    n: nat,
    id: NamespaceId,
)
    requires
        crate::order::lists(ids, s.namespace_infos.dom()),
        n <= ids.len(),
        s.namespace_infos.contains_key(id),
        ids.take(n as int).contains(id),
        candidate(cache[s.namespace_infos[id].namespace]) is Some,
    ensures
        generated_prefixes(s, cache, ids, n).namespace_infos[id].prefix is Some,
    decreases n,
{
    let m = (n - 1) as nat;
    lemma_generated_same(s, s, cache, ids, m);
    let t = generated_prefixes(s, cache, ids, m);
    let u = generated_prefixes(s, cache, ids, n);
    assert(u == generated_prefix(t, cache, ids[m as int]));
    if ids[m as int] != id {
        let all = ids.take(n as int);
        let k = choose|k: int| 0 <= k < all.len() && all[k] == id;
        assert(ids.take(m as int)[k] == id);
        lemma_generated_given(s, cache, ids, m, id);
    }
}

/// With made up prefixes, every namespace has a prefix for which any prefix is known.
pub proof fn law_known_namespaces_get_prefixes(
    s: SchemasView,
    cache: PrefixCache,
    alternative: bool,
    id: NamespaceId,
)
    requires
        s.namespace_infos.dom().finite(),
        s.namespace_infos.contains_key(id),
        candidate(cache[s.namespace_infos[id].namespace]) is Some,
    ensures
        prefixed(s, cache, alternative, true).namespace_infos[id].prefix is Some,
{
    let ids = in_order::<NamespaceId>(s.namespace_infos.dom());
    lemma_in_order_finite::<NamespaceId>(s.namespace_infos.dom());
    lemma_main_same(s, s, cache, ids, ids.len());
    let a = main_prefixes(s, cache, ids, ids.len());
    lemma_alternative_same(s, a, cache, ids, ids.len());
    lemma_spare_same(
        s,
        alternative_prefixes(a, cache, ids, ids.len()),
        a,
        cache,
        ids,
        ids.len(),
    );
    let b = with_alternatives(a, cache, alternative);
    assert(ids.take(ids.len() as int) =~= ids);
    assert(ids.contains(id));
    lemma_generated_given(b, cache, ids, ids.len(), id);
}

/// Prefixes that are marked for different namespaces differ.
pub proof fn law_marked_prefixes_differ(p: Seq<u8>, i: NamespaceId, q: Seq<u8>, j: NamespaceId)
    requires
        i != j,
    ensures
        marked(p, i) != marked(q, j),
{
    if marked(p, i) == marked(q, j) {
        let a = marked(p, i);
        let di = digits(i.0 as nat);
        let dj = digits(j.0 as nat);
        lemma_digits_range(i.0 as nat);
        lemma_digits_range(j.0 as nat);
        assert(a.len() == p.len() + 1 + di.len());
        assert(a.len() == q.len() + 1 + dj.len());
        assert(a[p.len() as int] == 95);
        assert(a[q.len() as int] == 95);
        if di.len() < dj.len() {
            assert(a[p.len() as int] == dj[p.len() - q.len() - 1]);
        } else if di.len() > dj.len() {
            assert(a[q.len() as int] == di[q.len() - p.len() - 1]);
        } else {
            assert(di =~= a.skip((p.len() + 1) as int));
            assert(dj =~= a.skip((q.len() + 1) as int));
            lemma_digits_injective(i.0 as nat, j.0 as nat);
        }
    }
}

/// The prefix of a namespace stands for that namespace and no other: looking it up gives the
/// namespace back.
pub proof fn law_prefixes_map_back(
    s: SchemasView,
    cache: PrefixCache,
    alternative: bool,
    generate: bool,
)
    requires
        finitely_many(s, cache),
        prefixes_map_back(s),
    ensures
        prefixes_map_back(prefixed(s, cache, alternative, generate)),
{
    lemma_prefixed_more(s, cache, alternative, generate);
}

/// A prefix that is known is the prefix of the namespace that it stands for, or is bound to it by a
/// document.
pub proof fn law_known_prefixes_are_bound(
    s: SchemasView,
    cache: PrefixCache,
    alternative: bool,
    generate: bool,
)
    requires
        finitely_many(s, cache),
        prefixes_bound(s, cache),
    ensures
        prefixes_bound(prefixed(s, cache, alternative, generate), cache),
{
    lemma_prefixed_more(s, cache, alternative, generate);
}

/// Different namespaces have different prefixes.
pub proof fn law_prefixes_differ(
    s: SchemasView,
    cache: PrefixCache,
    alternative: bool,
    generate: bool,
    i: NamespaceId,
    j: NamespaceId,
)
    requires
        finitely_many(s, cache),
        prefixes_map_back(s),
        s.namespace_infos.contains_key(i),
        s.namespace_infos.contains_key(j),
        i != j,
    ensures
        ({
            let infos = prefixed(s, cache, alternative, generate).namespace_infos;
            infos[i].prefix is Some ==> infos[i].prefix != infos[j].prefix
        }),
{
    lemma_prefixed_more(s, cache, alternative, generate);
    let t = prefixed(s, cache, alternative, generate);
    assert(t.namespace_infos.contains_key(i) && t.namespace_infos.contains_key(j));
}

/// Collecting entries gives no namespace a prefix.
pub proof fn lemma_no_prefixes(
    start: SchemasView,
    ids: IdCache,
    entries: Seq<ParserEntryView>,
    n: nat,
)
    requires
        numbered(start),
        start.last_namespace_id == 0,
        n <= entries.len() <= usize::MAX,
        start.known_prefixes == no_schemas().known_prefixes,
        forall|id: NamespaceId| #[trigger]
            start.namespace_infos.contains_key(id) ==> start.namespace_infos[id].prefix is None,
    ensures
        collected(start, ids, entries, n).known_prefixes == no_schemas().known_prefixes,
        forall|id: NamespaceId| #[trigger]
            collected(start, ids, entries, n).namespace_infos.contains_key(id) ==> collected(
                start,
                ids,
                entries,
                n,
            ).namespace_infos[id].prefix is None,
    decreases n,
{
    if n > 0 {
        let m = (n - 1) as nat;
        lemma_no_prefixes(start, ids, entries, m);
        lemma_collected_numbered(start, ids, entries, m);
        let a = collected(start, ids, entries, m);
        let ns = namespace_of(entries[m as int]);
        let a1 = if entries[m as int] is Schema {
            SchemasView { last_schema_id: a.last_schema_id.wrapping_add(1), ..a }
        } else {
            a
        };
        assert(numbered(a1));
        lemma_with_namespace(a1, ns);
        let t = with_namespace(a1, ns);
        assert(t.namespace_infos.contains_key(t.known_namespaces[ns]));
    }
}

/// Finitely many prefixes are known for each namespace.
pub proof fn lemma_alternatives_finite(entries: Seq<ParserEntryView>, n: nat)
    ensures
        forall|ns: Option<Seq<u8>>| #[trigger]
            prefix_cache(entries, n).contains_key(ns) ==> prefix_cache(
                entries,
                n,
            )[ns].alternatives.finite(),
    decreases n,
{
    if n > 0 {
        let m = (n - 1) as nat;
        lemma_alternatives_finite(entries, m);
        let a = prefix_cache(entries, m);
        let b = prefix_cache(entries, n);
        assert forall|ns: Option<Seq<u8>>| #[trigger] b.contains_key(ns) implies
            b[ns].alternatives.finite() by {
            if let ParserEntryView::Schema { target_ns, namespaces, .. } = entries[m as int] {
                if namespaces.contains_key(ns) {
                    vstd::seq_lib::seq_to_set_is_finite(namespaces[ns]);
                }
                let own = with_own(prefixes_of(a, target_ns), first_prefix(namespaces, target_ns));
                assert(prefixes_of(a, target_ns).alternatives.finite());
                assert(own.alternatives.finite());
                assert(prefixes_of(a.insert(target_ns, own), ns).alternatives.finite());
            }
        }
    }
}

/// In a finished collection, the prefix of a namespace stands for it, and every known prefix is
/// that of the namespace that it stands for, or is bound to it by a document.
pub proof fn law_finished_prefixes_are_unique(
    entries: Seq<ParserEntryView>,
    locations: LocationCache,
    alternative: bool,
    generate: bool,
)
    requires
        entries.len() <= usize::MAX,
    ensures
        prefixes_map_back(built(entries, locations, alternative, generate)),
        prefixes_bound(
            built(entries, locations, alternative, generate),
            prefix_cache(entries, entries.len()),
        ),
{
    let n = entries.len();
    let start = build_start(entries);
    let ids = id_cache(entries, n, locations);
    lemma_infos_finite(start, ids, entries, n);
    lemma_no_prefixes(start, ids, entries, n);
    let s = collected(start, ids, entries, n);
    let cache = prefix_cache(entries, n);
    lemma_collected_numbered(start, ids, entries, n);
    lemma_prefixes_known(start, ids, entries, n);
    lemma_alternatives_finite(entries, n);
    assert forall|id: NamespaceId| #[trigger] s.namespace_infos.contains_key(id) implies cache[
    s.namespace_infos[id].namespace].alternatives.finite() by {
        assert(s.known_namespaces.contains_key(s.namespace_infos[id].namespace));
    }
    lemma_prefixed_more(
        s,
        cache,
        alternative,
        generate,
    );
}

/// Which prefixes are taken after the first namespaces have got theirs.
proof fn lemma_main_known(
    s: SchemasView,
    cache: PrefixCache,
    ids: Seq<NamespaceId>,
    n: nat,
    p: Seq<u8>,
)
    requires
        crate::order::lists(ids, s.namespace_infos.dom()),
        n <= ids.len(),
        !s.known_prefixes.contains_key(p),
        forall|k: int|
            0 <= k < n ==> cache[s.namespace_infos[#[trigger] ids[k]].namespace].prefix != Some(p),
    ensures
        !main_prefixes(s, cache, ids, n).known_prefixes.contains_key(p),
    decreases n,
{
    if n > 0 {
        let m = (n - 1) as nat;
        lemma_main_known(s, cache, ids, m, p);
        lemma_main_same(s, s, cache, ids, m);
        assert(ids.contains(ids[m as int]));
    }
}

/// A prefix that a namespace has stays its prefix while later namespaces get theirs.
proof fn lemma_main_stays(
    s: SchemasView,
    cache: PrefixCache,
    ids: Seq<NamespaceId>,
    m: nat,
    n: nat,
    id: NamespaceId,
)
    requires
        m <= n,
        main_prefixes(s, cache, ids, m).namespace_infos[id].prefix is Some,
    ensures
        main_prefixes(s, cache, ids, n).namespace_infos[id].prefix == main_prefixes(
            s,
            cache,
            ids,
            m,
        ).namespace_infos[id].prefix,
    decreases n,
{
    if m < n {
        lemma_main_stays(s, cache, ids, m, (n - 1) as nat, id);
    }
}

/// Of all namespaces that should have the same prefix, the one with the smallest number gets it.
pub proof fn law_first_namespace_gets_the_prefix(
    s: SchemasView,
    cache: PrefixCache,
    alternative: bool,
    generate: bool,
    id: NamespaceId,
    p: Seq<u8>,
)
    requires
        finitely_many(s, cache),
        s.namespace_infos.contains_key(id),
        s.namespace_infos[id].prefix is None,
        !s.known_prefixes.contains_key(p),
        cache[s.namespace_infos[id].namespace].prefix == Some(p),
        forall|i: NamespaceId| #[trigger]
            s.namespace_infos.contains_key(i) && i.0 < id.0
                ==> cache[s.namespace_infos[i].namespace].prefix != Some(p),
    ensures
        prefixed(s, cache, alternative, generate).namespace_infos[id].prefix == Some(p),
{
    let ids = in_order::<NamespaceId>(s.namespace_infos.dom());
    lemma_in_order_finite::<NamespaceId>(s.namespace_infos.dom());
    assert(ids.contains(id));
    let k = choose|k: int| 0 <= k < ids.len() && ids[k] == id;
    assert forall|j: int| 0 <= j < k implies cache[s.namespace_infos[
        #[trigger] ids[j]
    ].namespace].prefix != Some(p) by {
        assert(crate::order::before::<NamespaceId>(ids[j], ids[k]));
        crate::order::lemma_cons_order(
            ids[j].0 as int,
            Seq::empty(),
            ids[k].0 as int,
            Seq::empty(),
        );
        crate::order::lemma_lex_irreflexive(<NamespaceId as crate::order::Key>::code(id));
        assert(ids[j].0 < id.0);
        assert(ids.contains(ids[j]));
    }
    lemma_main_known(s, cache, ids, k as nat, p);
    lemma_main_same(s, s, cache, ids, k as nat);
    lemma_main_untouched(s, cache, ids, k as nat, id);
    assert(main_prefixes(s, cache, ids, (k + 1) as nat).namespace_infos[id].prefix == Some(p));
    lemma_main_stays(s, cache, ids, (k + 1) as nat, ids.len(), id);
    lemma_prefixed_more(s, cache, alternative, generate);
    let a = main_prefixes(s, cache, ids, ids.len());
    lemma_alternative_more(a, cache, ids, ids.len());
    let m = alternative_prefixes(a, cache, ids, ids.len());
    assert(m.namespace_infos[id].prefix == Some(p));
    let b = with_alternatives(a, cache, alternative);
    assert(b.namespace_infos[id].prefix == Some(p));
}

/// The choice of the prefixes of other namespaces leaves a namespace alone.
proof fn lemma_main_untouched(
    s: SchemasView,
    cache: PrefixCache,
    ids: Seq<NamespaceId>,
    n: nat,
    id: NamespaceId,
)
    requires
        crate::order::ascending::<NamespaceId>(ids),
        n < ids.len(),
        ids[n as int] == id,
    ensures
        main_prefixes(s, cache, ids, n).namespace_infos[id] == s.namespace_infos[id],
{
    lemma_main_untouched_upto(s, cache, ids, n, n, id);
}

/// A namespace is left as it is before its turn comes.
proof fn lemma_main_untouched_upto(
    s: SchemasView,
    cache: PrefixCache,
    ids: Seq<NamespaceId>,
    n: nat,
    k: nat,
    id: NamespaceId,
)
    requires
        crate::order::ascending::<NamespaceId>(ids),
        k <= n < ids.len(),
        ids[n as int] == id,
    ensures
        main_prefixes(s, cache, ids, k).namespace_infos[id] == s.namespace_infos[id],
    decreases k,
{
    if k > 0 {
        lemma_main_untouched_upto(s, cache, ids, n, (k - 1) as nat, id);
        assert(crate::order::before::<NamespaceId>(ids[k - 1], ids[n as int]));
        crate::order::lemma_lex_irreflexive(<NamespaceId as crate::order::Key>::code(id));
    }
}

/// What the collection knows of the namespaces stays.
proof fn lemma_namespace_stays(
    s: SchemasView,
    ids: IdCache,
    entry: ParserEntryView,
    ns: NamespaceId,
)
    requires
        numbered(s),
        s.last_namespace_id < usize::MAX,
        s.namespace_infos.contains_key(ns),
    ensures
        with_entry(s, ids, entry).namespace_infos.contains_key(ns),
        with_entry(s, ids, entry).namespace_infos[ns].namespace == s.namespace_infos[ns].namespace,
{
    match entry {
        ParserEntryView::AnonymousNamespace => {
            lemma_with_namespace(s, None);
        },
        ParserEntryView::Namespace { namespace, .. } => {
            lemma_with_namespace(s, Some(namespace));
        },
        ParserEntryView::Schema { target_ns, .. } => {
            let s1 = SchemasView { last_schema_id: s.last_schema_id.wrapping_add(1), ..s };
            assert(numbered(s1));
            lemma_with_namespace(s1, target_ns);
        },
    }
}

/// Whether a collection holds the schema of an entry, in its namespace.
pub open spec fn holds(s: SchemasView, id: SchemaId, entry: ParserEntryView, ids: IdCache) -> bool {
    &&& entry is Schema
    &&& s.schemas.contains_key(id)
    &&& s.schemas[id].schema == entry->schema
    &&& s.schemas[id].name == entry->name
    &&& s.schemas[id].location == entry->location
    &&& s.schemas[id].dependencies == known_dependencies(entry->dependencies, ids)
    &&& s.namespace_infos.contains_key(s.schemas[id].namespace_id)
    &&& s.namespace_infos[s.schemas[id].namespace_id].namespace == entry->target_ns
}

/// A schema that was collected is in the collection.
proof fn lemma_collected_holds(
    entries: Seq<ParserEntryView>,
    locations: LocationCache,
    n: nat,
    i: int,
)
    requires
        ids_distinct(entries, locations),
        0 <= i < n <= entries.len(),
        entries.len() <= usize::MAX,
        entries[i] is Schema,
    ensures
        ({
            let ids = id_cache(entries, entries.len(), locations);
            holds(
                collected(build_start(entries), ids, entries, n),
                ids[entries[i]->id],
                entries[i],
                ids,
            )
        }),
    decreases n,
{
    let ids = id_cache(entries, entries.len(), locations);
    let start = build_start(entries);
    let m = (n - 1) as nat;
    let a = collected(start, ids, entries, m);
    let b = collected(start, ids, entries, n);
    lemma_collected_numbered(start, ids, entries, m);
    lemma_collected_numbered(start, ids, entries, n);
    if i == m {
        let a1 = SchemasView { last_schema_id: a.last_schema_id.wrapping_add(1), ..a };
        assert(numbered(a1));
        let target = entries[i]->target_ns;
        lemma_with_namespace(a1, target);
        let t = with_namespace(a1, target);
        assert(t.namespace_infos.contains_key(t.known_namespaces[target]));
    } else {
        lemma_collected_holds(entries, locations, m, i);
        let id = ids[entries[i]->id];
        lemma_namespace_stays(a, ids, entries[m as int], a.schemas[id].namespace_id);
        if entries[m as int] is Schema {
            assert(entries[i] is Schema && entries[m as int] is Schema);
            assert(ids[entries[m as int]->id] != id);
        }
    }
}

/// A finished collection holds every schema that was added, with its name, its location and its
/// namespace. Schemas are numbered from one, in the order in which they were added.
pub proof fn law_every_schema_is_kept(
    entries: Seq<ParserEntryView>,
    locations: LocationCache,
    alternative: bool,
    generate: bool,
    i: int,
)
    requires
        ids_distinct(entries, locations),
        entries.len() <= usize::MAX,
        0 <= i < entries.len(),
        entries[i] is Schema,
    ensures
        holds(
            built(entries, locations, alternative, generate),
            number_at(entries, i),
            entries[i],
            id_cache(entries, entries.len(), locations),
        ),
{
    let n = entries.len();
    let start = build_start(entries);
    let ids = id_cache(entries, n, locations);
    lemma_numbered_in_order(entries, locations, i);
    lemma_collected_holds(entries, locations, n, i);
    lemma_infos_finite(start, ids, entries, n);
    law_prefixes_only(
        collected(start, ids, entries, n),
        prefix_cache(entries, n),
        alternative,
        generate,
    );
}

/// What the first entries give does not depend on later ones.
proof fn lemma_prefix_of_entries(
    entries: Seq<ParserEntryView>,
    more: Seq<ParserEntryView>,
    locations: LocationCache,
    n: nat,
)
    requires
        n <= entries.len() <= more.len(),
        forall|i: int| 0 <= i < entries.len() ==> #[trigger] more[i] == entries[i],
    ensures
        schema_count(more, n) == schema_count(entries, n),
        id_cache(more, n, locations) == id_cache(entries, n, locations),
    decreases n,
{
    if n > 0 {
        lemma_prefix_of_entries(entries, more, locations, (n - 1) as nat);
        assert(more[n - 1] == entries[n - 1]);
        assert(id_cache(more, n, locations) =~= id_cache(entries, n, locations));
    }
}

/// What is collected from the first entries does not depend on those that follow.
proof fn lemma_collected_prefix(
    a: SchemasView,
    b: SchemasView,
    ids: IdCache,
    entries: Seq<ParserEntryView>,
    more: Seq<ParserEntryView>,
    n: nat,
)
    requires
        n <= entries.len() <= more.len(),
        forall|i: int| 0 <= i < entries.len() ==> #[trigger] more[i] == entries[i],
        a == b,
    ensures
        collected(a, ids, more, n) == collected(b, ids, entries, n),
    decreases n,
{
    if n > 0 {
        lemma_collected_prefix(a, b, ids, entries, more, (n - 1) as nat);
        assert(more[n - 1] == entries[n - 1]);
    }
}

/// Whether a finished collection differs from an earlier one in a namespace only: it has the same
/// schemas, the namespaces that were known have their numbers, their names and their schemas, and a
/// new namespace has no schemas.
pub open spec fn only_knows(s: SchemasView, t: SchemasView, ns: Option<Seq<u8>>) -> bool {
    &&& t.schemas == s.schemas
    &&& t.known_namespaces.dom() == s.known_namespaces.dom().insert(ns)
    &&& forall|k: Option<Seq<u8>>| #[trigger]
        s.known_namespaces.contains_key(k) ==> t.known_namespaces[k] == s.known_namespaces[k]
    &&& forall|id: NamespaceId| #[trigger]
        s.namespace_infos.contains_key(id) ==> {
            &&& t.namespace_infos.contains_key(id)
            &&& t.namespace_infos[id].namespace == s.namespace_infos[id].namespace
            &&& t.namespace_infos[id].schemas == s.namespace_infos[id].schemas
        }
    &&& s.known_namespaces.contains_key(ns) ==> t.namespace_infos.dom() == s.namespace_infos.dom()
    &&& !s.known_namespaces.contains_key(ns) ==> {
        let id = t.known_namespaces[ns];
        &&& !s.namespace_infos.contains_key(id)
        &&& t.namespace_infos.dom() == s.namespace_infos.dom().insert(id)
        &&& t.namespace_infos[id].namespace == ns
        &&& t.namespace_infos[id].schemas.len() == 0
    }
}

/// Adding a namespace adds no schema and changes none. The namespaces that were known keep their
/// numbers, their names and their schemas, and a new one has no schemas.
pub proof fn law_namespaces_add_no_schemas(
    entries: Seq<ParserEntryView>,
    locations: LocationCache,
    alternative: bool,
    generate: bool,
    entry: ParserEntryView,
)
    requires
        !(entry is Schema),
        entries.len() < usize::MAX,
    ensures
        only_knows(
            built(entries, locations, alternative, generate),
            built(entries.push(entry), locations, alternative, generate),
            namespace_of(entry),
        ),
{
    let n = entries.len();
    let more = entries.push(entry);
    lemma_prefix_of_entries(entries, more, locations, n);
    let ids = id_cache(entries, n, locations);
    assert(id_cache(more, n + 1, locations) == ids);
    assert(build_start(more) == build_start(entries));
    let start = build_start(entries);
    lemma_collected_prefix(start, start, ids, entries, more, n);
    lemma_infos_finite(start, ids, entries, n);
    lemma_infos_finite(start, ids, more, n + 1);
    law_prefixes_only(
        collected(start, ids, entries, n),
        prefix_cache(entries, n),
        alternative,
        generate,
    );
    law_prefixes_only(
        collected(start, ids, more, n + 1),
        prefix_cache(more, n + 1),
        alternative,
        generate,
    );
    let a = collected(start, ids, entries, n);
    let ns = namespace_of(entry);
    lemma_collected_numbered(start, ids, entries, n);
    lemma_with_namespace(a, ns);
    let b = collected(start, ids, more, n + 1);
    assert(b == with_namespace(a, ns));
    let s = built(entries, locations, alternative, generate);
    let t = built(more, locations, alternative, generate);
    assert(t.known_namespaces.dom() =~= s.known_namespaces.dom().insert(ns));
    assert forall|id: NamespaceId| #[trigger] s.namespace_infos.contains_key(id) implies {
        &&& t.namespace_infos.contains_key(id)
        &&& t.namespace_infos[id].namespace == s.namespace_infos[id].namespace
        &&& t.namespace_infos[id].schemas == s.namespace_infos[id].schemas
    } by {
        assert(a.namespace_infos.contains_key(id));
        assert(b.namespace_infos.contains_key(id));
    }
    if !s.known_namespaces.contains_key(ns) {
        let id = t.known_namespaces[ns];
        assert(b.namespace_infos.contains_key(id));
        assert(t.namespace_infos.dom() =~= s.namespace_infos.dom().insert(id));
    } else {
        assert(t.namespace_infos.dom() =~= s.namespace_infos.dom());
    }
}

/// The namespace of an entry is known once the entry was collected.
proof fn lemma_namespace_known(
    start: SchemasView,
    ids: IdCache,
    entries: Seq<ParserEntryView>,
    n: nat,
    i: int,
)
    requires
        0 <= i < n,
    ensures
        collected(start, ids, entries, n).known_namespaces.contains_key(namespace_of(entries[i])),
    decreases n,
{
    if i < n - 1 {
        lemma_namespace_known(start, ids, entries, (n - 1) as nat, i);
    }
}

/// Every namespace that was added, by itself or by a schema, is known to the finished collection.
/// The anonymous one has the number zero, and no other one has.
pub proof fn law_every_namespace_is_known(
    entries: Seq<ParserEntryView>,
    locations: LocationCache,
    alternative: bool,
    generate: bool,
    i: int,
)
    requires
        entries.len() <= usize::MAX,
        0 <= i < entries.len(),
    ensures
        ({
            let s = built(entries, locations, alternative, generate);
            let ns = namespace_of(entries[i]);
            &&& s.known_namespaces.contains_key(ns)
            &&& s.namespace_infos.contains_key(s.known_namespaces[ns])
            &&& s.namespace_infos[s.known_namespaces[ns]].namespace == ns
            &&& s.known_namespaces[ns].0 == ANONYMOUS_NAMESPACE <==> ns is None
        }),
{
    let n = entries.len();
    let start = build_start(entries);
    let ids = id_cache(entries, n, locations);
    let s = collected(start, ids, entries, n);
    lemma_namespace_known(start, ids, entries, n, i);
    lemma_collected_numbered(start, ids, entries, n);
    lemma_infos_finite(start, ids, entries, n);
    law_prefixes_only(s, prefix_cache(entries, n), alternative, generate);
    let ns = namespace_of(entries[i]);
    assert(s.namespace_infos.contains_key(s.known_namespaces[ns]));
}

/// Once a namespace had its turn and still has no prefix, all its alternatives are known.
proof fn lemma_alternatives_known(
    s: SchemasView,
    cache: PrefixCache,
    ids: Seq<NamespaceId>,
    n: nat,
    id: NamespaceId,
    p: Seq<u8>,
)
    requires
        s.known_prefixes.dom().finite(),
        crate::order::lists(ids, s.namespace_infos.dom()),
        n <= ids.len(),
        s.namespace_infos.contains_key(id),
        cache[s.namespace_infos[id].namespace].alternatives.finite(),
        cache[s.namespace_infos[id].namespace].alternatives.contains(p),
        ids.take(n as int).contains(id),
        alternative_prefixes(s, cache, ids, n).namespace_infos[id].prefix is None,
    ensures
        alternative_prefixes(s, cache, ids, n).known_prefixes.contains_key(p),
    decreases n,
{
    let m = (n - 1) as nat;
    let t = alternative_prefixes(s, cache, ids, m);
    let other = ids[m as int];
    lemma_alternative_same(s, s, cache, ids, m);
    lemma_alternative_more(s, cache, ids, m);
    assert(ids.contains(other));
    lemma_step_more(t, cache, other);
    let u = alternative_prefixes(s, cache, ids, n);
    assert(u == alternative_prefix(t, cache, other));
    assert(t.namespace_infos[id].prefix is Some ==> u.namespace_infos[id].prefix
        == t.namespace_infos[id].prefix);
    if other == id {
        let all = cache[s.namespace_infos[id].namespace].alternatives;
        let list = in_order::<NamespacePrefix>(all);
        lemma_in_order_finite::<NamespacePrefix>(all);
        assert(list.contains(p));
        lemma_first_free(t.known_prefixes, list);
        let k = choose|k: int| 0 <= k < list.len() && list[k] == p;
        assert(t.known_prefixes.contains_key(list[k]));
    } else {
        let all = ids.take(n as int);
        let k = choose|k: int| 0 <= k < all.len() && all[k] == id;
        assert(ids.take(m as int)[k] == id);
        lemma_alternatives_known(s, cache, ids, m, id, p);
        assert(t.known_prefixes.dom().contains(p));
        assert(u.known_prefixes.dom().contains(p));
    }
}

/// With alternative prefixes, a namespace has a prefix if documents bind one to it that no other
/// namespace has.
pub proof fn law_free_alternatives_are_used(
    s: SchemasView,
    cache: PrefixCache,
    generate: bool,
    id: NamespaceId,
    p: Seq<u8>,
)
    requires
        finitely_many(s, cache),
        prefixes_in_use(s),
        s.namespace_infos.contains_key(id),
        cache[s.namespace_infos[id].namespace].alternatives.contains(p),
        forall|i: NamespaceId|
            i != id && s.namespace_infos.contains_key(i) ==> (#[trigger] prefixed(
                s,
                cache,
                true,
                generate,
            ).namespace_infos[i]).prefix != Some(p),
    ensures
        prefixed(s, cache, true, generate).namespace_infos[id].prefix is Some,
{
    let ids = in_order::<NamespaceId>(s.namespace_infos.dom());
    lemma_prefixed_more(s, cache, true, generate);
    let a = main_prefixes(s, cache, ids, ids.len());
    let b = alternative_prefixes(a, cache, ids, ids.len());
    let d = with_alternatives(a, cache, true);
    let c = prefixed(s, cache, true, generate);
    assert(ids.contains(id));
    if b.namespace_infos[id].prefix is None {
        lemma_alternatives_known(a, cache, ids, ids.len(), id, p);
        let i = b.known_prefixes[p];
        assert(b.namespace_infos[i].prefix == Some(p));
        assert(d.namespace_infos[i].prefix == Some(p));
        assert(c.namespace_infos[i].prefix == Some(p));
    } else {
        assert(d.namespace_infos[id].prefix is Some);
        assert(c.namespace_infos[id].prefix is Some);
    }
}

/// With alternative prefixes, all prefixes that documents bind to a namespace whose own prefix is
/// unknown or taken are known.
pub proof fn law_alternatives_are_known(
    s: SchemasView,
    cache: PrefixCache,
    generate: bool,
    id: NamespaceId,
    p: Seq<u8>,
)
    requires
        finitely_many(s, cache),
        s.namespace_infos.contains_key(id),
        cache[s.namespace_infos[id].namespace].alternatives.contains(p),
        ({
            let ids = in_order::<NamespaceId>(s.namespace_infos.dom());
            main_prefixes(s, cache, ids, ids.len()).namespace_infos[id].prefix is None
        }),
    ensures
        prefixed(s, cache, true, generate).known_prefixes.contains_key(p),
{
    let ids = in_order::<NamespaceId>(s.namespace_infos.dom());
    lemma_prefixed_more(s, cache, true, generate);
    let a = main_prefixes(s, cache, ids, ids.len());
    let m = alternative_prefixes(a, cache, ids, ids.len());
    let b = with_alternatives(a, cache, true);
    assert(ids.contains(id));
    let k = choose|k: int| 0 <= k < ids.len() && ids[k] == id;
    lemma_spares_known(m, a, cache, ids, ids.len(), k, p);
    assert(b.known_prefixes.dom().contains(p));
    assert(prefixed(s, cache, true, generate).known_prefixes.dom().contains(p));
}

} // verus!
