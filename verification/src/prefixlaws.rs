//! Which prefix a namespace of a finished collection has.

use vstd::prelude::*;

use crate::buildlaws::{
    build_start, finitely_many, law_alternatives_are_known, law_first_namespace_gets_the_prefix,
    law_free_alternatives_are_used, law_known_namespaces_get_prefixes, law_prefixes_only,
    lemma_alternative_same, lemma_alternatives_finite, lemma_first_free, lemma_generated_same,
    lemma_infos_finite, lemma_main_same, lemma_no_prefixes, lemma_spare_same,
};
use crate::buildmodel::{
    alternative_prefixes, built, candidate, collected, first_free, first_prefix, fresh_prefix,
    generated_prefixes, id_cache, lemma_collected_numbered, lemma_marks_exist, lemma_prefixes_known,
    made_up, main_prefixes, marked, marks, numbered, prefix_cache, prefixed, prefixes_of,
    same_namespaces, spare_prefixes, LocationCache, PrefixCache,
};
use crate::models::{NamespaceId, NamespacePrefix};
use crate::order::{
    before, byte_code, in_order, lemma_in_order_finite, lemma_lex_irreflexive, lemma_lex_transitive,
};
use crate::parser::ParserEntryView;
use crate::schemas::{no_schemas, SchemasView};
use crate::textlaws::{bytes_before, law_keys_are_ordered};

verus! {

/// Whether an entry gives a namespace a prefix by itself.
pub open spec fn names(entry: ParserEntryView, ns: Option<Seq<u8>>) -> bool {
    entry is Namespace && ns == Some(entry->namespace)
}

/// Whether an entry is a schema of a namespace that binds a prefix to it.
pub open spec fn binds_own(entry: ParserEntryView, ns: Option<Seq<u8>>) -> bool {
    entry is Schema && entry->target_ns == ns && entry->namespaces.contains_key(ns)
        && entry->namespaces[ns].len() > 0
}

/// Whether the entry at a place is the last of the first `n` that gives a namespace a prefix.
pub open spec fn named_last(
    entries: Seq<ParserEntryView>,
    n: nat,
    ns: Option<Seq<u8>>,
    i: int,
) -> bool {
    &&& 0 <= i < n
    &&& names(entries[i], ns)
    &&& forall|j: int| i < j < n ==> !names(#[trigger] entries[j], ns)
}

/// Whether none of the first `n` entries gives a namespace a prefix, and the one at a place is the
/// first schema of the namespace that binds one to it.
pub open spec fn bound_first(
    entries: Seq<ParserEntryView>,
    n: nat,
    ns: Option<Seq<u8>>,
    i: int,
) -> bool {
    &&& 0 <= i < n
    &&& binds_own(entries[i], ns)
    &&& forall|j: int| 0 <= j < i ==> !binds_own(#[trigger] entries[j], ns)
    &&& forall|j: int| 0 <= j < n ==> !names(#[trigger] entries[j], ns)
}

/// Whether a namespace should have a prefix: the one that it was last added with, or else the first
/// one that the first schema of the namespace to bind any binds to it.
pub open spec fn wants(entries: Seq<ParserEntryView>, ns: Option<Seq<u8>>, p: Seq<u8>) -> bool {
    ||| exists|i: int| #[trigger]
        named_last(entries, entries.len(), ns, i) && entries[i]->prefix == p
    ||| exists|i: int| #[trigger]
        bound_first(entries, entries.len(), ns, i) && entries[i]->namespaces[ns][0] == p
}

/// Whether some schema binds a prefix to a namespace.
pub open spec fn bound(entries: Seq<ParserEntryView>, ns: Option<Seq<u8>>, p: Seq<u8>) -> bool {
    exists|i: int|
        0 <= i < entries.len() && (#[trigger] entries[i]) is Schema
            && entries[i]->namespaces.contains_key(ns) && entries[i]->namespaces[ns].contains(p)
}

/// The prefix that a namespace should have after the first `n` entries, where it was added.
proof fn lemma_named(entries: Seq<ParserEntryView>, n: nat, ns: Option<Seq<u8>>, i: int)
    requires
        named_last(entries, n, ns, i),
    ensures
        prefixes_of(prefix_cache(entries, n), ns).prefix == Some(entries[i]->prefix),
    decreases n,
{
    let m = (n - 1) as nat;
    if i < m {
        lemma_named(entries, m, ns, i);
        assert(!names(entries[m as int], ns));
    }
}

/// No prefix comes from entries that give none.
proof fn lemma_unwanted(entries: Seq<ParserEntryView>, n: nat, ns: Option<Seq<u8>>)
    requires
        forall|j: int|
            0 <= j < n ==> !names(#[trigger] entries[j], ns) && !binds_own(entries[j], ns),
    ensures
        prefixes_of(prefix_cache(entries, n), ns).prefix is None,
    decreases n,
{
    if n > 0 {
        let m = (n - 1) as nat;
        lemma_unwanted(entries, m, ns);
        assert(!names(entries[m as int], ns) && !binds_own(entries[m as int], ns));
    }
}

/// The prefix that a namespace should have after the first `n` entries, where schemas bind it.
proof fn lemma_bound_first(entries: Seq<ParserEntryView>, n: nat, ns: Option<Seq<u8>>, i: int)
    requires
        bound_first(entries, n, ns, i),
    ensures
        prefixes_of(prefix_cache(entries, n), ns).prefix == Some(entries[i]->namespaces[ns][0]),
    decreases n,
{
    let m = (n - 1) as nat;
    assert(!names(entries[m as int], ns));
    if i < m {
        lemma_bound_first(entries, m, ns, i);
    } else {
        lemma_unwanted(entries, m, ns);
        assert(first_prefix(entries[i]->namespaces, ns) == Some(entries[i]->namespaces[ns][0]));
    }
}

/// The last of the first `n` entries that gives a namespace a prefix.
proof fn lemma_find_named(entries: Seq<ParserEntryView>, n: nat, ns: Option<Seq<u8>>) -> (i: int)
    requires
        exists|j: int| 0 <= j < n && names(#[trigger] entries[j], ns),
    ensures
        named_last(entries, n, ns, i),
    decreases n,
{
    let m = (n - 1) as nat;
    if names(entries[m as int], ns) {
        m as int
    } else {
        let j = choose|j: int| 0 <= j < n && names(#[trigger] entries[j], ns);
        assert(j < m);
        lemma_find_named(entries, m, ns)
    }
}

/// The first of the first `n` entries that binds a prefix to its namespace.
proof fn lemma_find_bound(entries: Seq<ParserEntryView>, n: nat, ns: Option<Seq<u8>>) -> (i: int)
    requires
        exists|j: int| 0 <= j < n && binds_own(#[trigger] entries[j], ns),
    ensures
        0 <= i < n,
        binds_own(entries[i], ns),
        forall|j: int| 0 <= j < i ==> !binds_own(#[trigger] entries[j], ns),
    decreases n,
{
    let m = (n - 1) as nat;
    if exists|j: int| 0 <= j < m && binds_own(#[trigger] entries[j], ns) {
        lemma_find_bound(entries, m, ns)
    } else {
        let j = choose|j: int| 0 <= j < n && binds_own(#[trigger] entries[j], ns);
        assert(j == m);
        m as int
    }
}

/// A namespace should have the prefix that it was last added with. If it was not added by itself, it
/// should have the first prefix that a schema of the namespace binds to it, of the first schema that
/// binds any: no later schema changes it. Otherwise it should have none.
pub proof fn law_given_prefixes_come_first(
    entries: Seq<ParserEntryView>,
    ns: Option<Seq<u8>>,
    p: Seq<u8>,
)
    ensures
        prefixes_of(prefix_cache(entries, entries.len()), ns).prefix == Some(p) <==> wants(
            entries,
            ns,
            p,
        ),
{
    let n = entries.len();
    let found = prefixes_of(prefix_cache(entries, n), ns).prefix;
    if exists|j: int| 0 <= j < n && names(#[trigger] entries[j], ns) {
        let i = lemma_find_named(entries, n, ns);
        lemma_named(entries, n, ns, i);
        assert forall|k: int| #[trigger] named_last(entries, n, ns, k) implies k == i by {
            if k < i {
                assert(!names(entries[i], ns));
            } else if i < k {
                assert(!names(entries[k], ns));
            }
        }
        assert(forall|k: int| !#[trigger] bound_first(entries, n, ns, k));
    } else if exists|j: int| 0 <= j < n && binds_own(#[trigger] entries[j], ns) {
        let i = lemma_find_bound(entries, n, ns);
        assert(bound_first(entries, n, ns, i));
        lemma_bound_first(entries, n, ns, i);
        assert forall|k: int| #[trigger] bound_first(entries, n, ns, k) implies k == i by {
            if k < i {
                assert(!binds_own(entries[k], ns));
            } else if i < k {
                assert(!binds_own(entries[i], ns));
            }
        }
        assert(forall|k: int| !#[trigger] named_last(entries, n, ns, k));
    } else {
        lemma_unwanted(entries, n, ns);
        assert(forall|k: int| !#[trigger] named_last(entries, n, ns, k));
        assert(forall|k: int| !#[trigger] bound_first(entries, n, ns, k));
    }
}

/// What the first `n` entries bind.
proof fn lemma_bound_upto(
    entries: Seq<ParserEntryView>,
    n: nat,
    ns: Option<Seq<u8>>,
    p: Seq<u8>,
)
    requires
        n <= entries.len(),
    ensures
        prefixes_of(prefix_cache(entries, n), ns).alternatives.contains(p) <==> exists|i: int|
            0 <= i < n && (#[trigger] entries[i]) is Schema && entries[i]->namespaces.contains_key(
                ns,
            ) && entries[i]->namespaces[ns].contains(p),
    decreases n,
{
    if n > 0 {
        let m = (n - 1) as nat;
        let entry = entries[m as int];
        lemma_bound_upto(entries, m, ns, p);
        let a = prefixes_of(prefix_cache(entries, m), ns);
        let b = prefixes_of(prefix_cache(entries, n), ns);
        let here = entry is Schema && entry->namespaces.contains_key(ns)
            && entry->namespaces[ns].contains(p);
        assert(b.alternatives.contains(p) <==> a.alternatives.contains(p) || here) by {
            if let ParserEntryView::Schema { target_ns, namespaces, .. } = entry {
                if let Some(own) = first_prefix(namespaces, target_ns) {
                    assert(namespaces[target_ns][0] == own);
                    assert(namespaces[target_ns].contains(own));
                }
                if here {
                    let k = choose|k: int| 0 <= k < namespaces[ns].len() && namespaces[ns][k] == p;
                    assert(namespaces[ns].to_set().contains(p));
                }
            }
        }
        if a.alternatives.contains(p) {
            let i = choose|i: int|
                0 <= i < m && (#[trigger] entries[i]) is Schema
                    && entries[i]->namespaces.contains_key(ns)
                    && entries[i]->namespaces[ns].contains(p);
            assert(entries[i] is Schema);
        }
        if here {
            assert(entries[m as int] is Schema);
        }
    }
}

/// The alternatives of a namespace are the prefixes that schemas bind to it, whatever their own
/// namespace is.
pub proof fn law_alternatives_are_what_schemas_bind(
    entries: Seq<ParserEntryView>,
    ns: Option<Seq<u8>>,
    p: Seq<u8>,
)
    ensures
        prefixes_of(prefix_cache(entries, entries.len()), ns).alternatives.contains(p) <==> bound(
            entries,
            ns,
            p,
        ),
{
    lemma_bound_upto(entries, entries.len(), ns, p);
}

/// The collection before prefixes are chosen.
spec fn gathered(entries: Seq<ParserEntryView>, locations: LocationCache) -> SchemasView {
    collected(
        build_start(entries),
        id_cache(entries, entries.len(), locations),
        entries,
        entries.len(),
    )
}

/// What is known before prefixes are chosen.
proof fn lemma_gathered(
    entries: Seq<ParserEntryView>,
    locations: LocationCache,
    alternative: bool,
    generate: bool,
)
    requires
        entries.len() <= usize::MAX,
    ensures
        ({
            let s = gathered(entries, locations);
            let cache = prefix_cache(entries, entries.len());
            &&& finitely_many(s, cache)
            &&& s.known_prefixes == no_schemas().known_prefixes
            &&& numbered(s)
            &&& forall|id: NamespaceId| #[trigger]
                s.namespace_infos.contains_key(id) ==> {
                    &&& s.namespace_infos[id].prefix is None
                    &&& cache.contains_key(s.namespace_infos[id].namespace)
                }
            &&& same_namespaces(s, built(entries, locations, alternative, generate))
            &&& built(entries, locations, alternative, generate) == prefixed(
                s,
                cache,
                alternative,
                generate,
            )
        }),
{
    let n = entries.len();
    let start = build_start(entries);
    let ids = id_cache(entries, n, locations);
    let s = collected(start, ids, entries, n);
    let cache = prefix_cache(entries, n);
    lemma_infos_finite(start, ids, entries, n);
    lemma_no_prefixes(start, ids, entries, n);
    lemma_collected_numbered(start, ids, entries, n);
    lemma_prefixes_known(start, ids, entries, n);
    lemma_alternatives_finite(entries, n);
    assert forall|id: NamespaceId| #[trigger] s.namespace_infos.contains_key(id) implies
        cache.contains_key(s.namespace_infos[id].namespace)
        && cache[s.namespace_infos[id].namespace].alternatives.finite() by {
        assert(s.known_namespaces.contains_key(s.namespace_infos[id].namespace));
    }
    law_prefixes_only(s, cache, alternative, generate);
}

/// Whether a prefix is wanted by no namespace with a smaller number.
pub open spec fn wanted_first(
    entries: Seq<ParserEntryView>,
    s: SchemasView,
    id: NamespaceId,
    p: Seq<u8>,
) -> bool {
    forall|i: NamespaceId| #[trigger]
        s.namespace_infos.contains_key(i) && i.0 < id.0 ==> !wants(
            entries,
            s.namespace_infos[i].namespace,
            p,
        )
}

/// A namespace of a finished collection has the prefix that it should have, unless a namespace with
/// a smaller number should have it too. The prefix stands for that namespace.
pub proof fn law_wanted_prefixes_are_given(
    entries: Seq<ParserEntryView>,
    locations: LocationCache,
    alternative: bool,
    generate: bool,
    id: NamespaceId,
    p: Seq<u8>,
)
    requires
        entries.len() <= usize::MAX,
        ({
            let s = built(entries, locations, alternative, generate);
            &&& s.namespace_infos.contains_key(id)
            &&& wants(entries, s.namespace_infos[id].namespace, p)
            &&& wanted_first(entries, s, id, p)
        }),
    ensures
        ({
            let s = built(entries, locations, alternative, generate);
            &&& s.namespace_infos[id].prefix == Some(p)
            &&& s.known_prefixes.contains_key(p)
            &&& s.known_prefixes[p] == id
        }),
{
    let s = gathered(entries, locations);
    let cache = prefix_cache(entries, entries.len());
    let t = built(entries, locations, alternative, generate);
    lemma_gathered(entries, locations, alternative, generate);
    assert(s.namespace_infos.contains_key(id));
    law_given_prefixes_come_first(entries, s.namespace_infos[id].namespace, p);
    assert forall|i: NamespaceId| #[trigger] s.namespace_infos.contains_key(i) && i.0
        < id.0 implies cache[s.namespace_infos[i].namespace].prefix != Some(p) by {
        assert(t.namespace_infos.contains_key(i));
        law_given_prefixes_come_first(entries, s.namespace_infos[i].namespace, p);
    }
    law_first_namespace_gets_the_prefix(s, cache, alternative, generate, id, p);
    crate::buildlaws::law_finished_prefixes_are_unique(entries, locations, alternative, generate);
    assert(t.namespace_infos.contains_key(id));
}

/// Whether every prefix of a namespace is one of those that are known for it.
spec fn from_known(s: SchemasView, cache: PrefixCache, alternative: bool) -> bool {
    forall|id: NamespaceId| #[trigger]
        s.namespace_infos.contains_key(id) && s.namespace_infos[id].prefix is Some ==> {
            let known = cache[s.namespace_infos[id].namespace];
            ||| known.prefix == s.namespace_infos[id].prefix
            ||| alternative && known.alternatives.contains(s.namespace_infos[id].prefix->0)
        }
}

/// The own prefixes of namespaces are those that are known for them.
proof fn lemma_main_from(s: SchemasView, cache: PrefixCache, ids: Seq<NamespaceId>, n: nat)
    requires
        from_known(s, cache, false),
        crate::order::lists(ids, s.namespace_infos.dom()),
        n <= ids.len(),
    ensures
        from_known(main_prefixes(s, cache, ids, n), cache, false),
    decreases n,
{
    if n > 0 {
        let m = (n - 1) as nat;
        lemma_main_from(s, cache, ids, m);
        lemma_main_same(s, s, cache, ids, m);
        assert(ids.contains(ids[m as int]));
        let a = main_prefixes(s, cache, ids, m);
        let b = main_prefixes(s, cache, ids, n);
        assert forall|id: NamespaceId| #[trigger] b.namespace_infos.contains_key(id)
            && b.namespace_infos[id].prefix is Some implies cache[
            b.namespace_infos[id].namespace
        ].prefix == b.namespace_infos[id].prefix by {
            if id != ids[m as int] {
                assert(a.namespace_infos.contains_key(id));
            }
        }
    }
}

/// The alternative prefixes of namespaces are those that are known for them.
proof fn lemma_alternative_from(s: SchemasView, cache: PrefixCache, ids: Seq<NamespaceId>, n: nat)
    requires
        from_known(s, cache, true),
        finitely_many(s, cache),
        crate::order::lists(ids, s.namespace_infos.dom()),
        n <= ids.len(),
    ensures
        from_known(alternative_prefixes(s, cache, ids, n), cache, true),
    decreases n,
{
    if n > 0 {
        let m = (n - 1) as nat;
        lemma_alternative_from(s, cache, ids, m);
        lemma_alternative_same(s, s, cache, ids, m);
        assert(ids.contains(ids[m as int]));
        let a = alternative_prefixes(s, cache, ids, m);
        let b = alternative_prefixes(s, cache, ids, n);
        let here = ids[m as int];
        let all = cache[a.namespace_infos[here].namespace].alternatives;
        assert(s.namespace_infos.contains_key(here));
        assert(all.finite());
        let list = in_order::<NamespacePrefix>(all);
        lemma_in_order_finite::<NamespacePrefix>(all);
        lemma_first_free(a.known_prefixes, list);
        assert forall|id: NamespaceId| #[trigger] b.namespace_infos.contains_key(id)
            && b.namespace_infos[id].prefix is Some implies ({
            let known = cache[b.namespace_infos[id].namespace];
            ||| known.prefix == b.namespace_infos[id].prefix
            ||| known.alternatives.contains(b.namespace_infos[id].prefix->0)
        }) by {
            assert(a.namespace_infos.contains_key(id));
        }
    }
}

/// Where no prefixes are made up, the prefix of a namespace of a finished collection is the one that
/// it should have, or one that a schema binds to it. Without alternatives it is the one that it
/// should have.
pub proof fn law_prefixes_come_from_entries(
    entries: Seq<ParserEntryView>,
    locations: LocationCache,
    alternative: bool,
    id: NamespaceId,
    p: Seq<u8>,
)
    requires
        entries.len() <= usize::MAX,
        ({
            let s = built(entries, locations, alternative, false);
            &&& s.namespace_infos.contains_key(id)
            &&& s.namespace_infos[id].prefix == Some(p)
        }),
    ensures
        ({
            let ns = built(entries, locations, alternative, false).namespace_infos[id].namespace;
            wants(entries, ns, p) || (alternative && bound(entries, ns, p))
        }),
{
    let s = gathered(entries, locations);
    let cache = prefix_cache(entries, entries.len());
    lemma_gathered(entries, locations, alternative, false);
    assert(s.namespace_infos.contains_key(id));
    let ns = s.namespace_infos[id].namespace;
    let ids = in_order::<NamespaceId>(s.namespace_infos.dom());
    lemma_in_order_finite::<NamespaceId>(s.namespace_infos.dom());
    lemma_main_from(s, cache, ids, ids.len());
    lemma_main_same(s, s, cache, ids, ids.len());
    let a = main_prefixes(s, cache, ids, ids.len());
    crate::buildlaws::lemma_main_more(s, cache, ids, ids.len());
    assert forall|i: NamespaceId| #[trigger] a.namespace_infos.contains_key(i) implies
        cache[a.namespace_infos[i].namespace].alternatives.finite() by {
        assert(s.namespace_infos.contains_key(i));
    }
    lemma_alternative_from(a, cache, ids, ids.len());
    let m = alternative_prefixes(a, cache, ids, ids.len());
    lemma_alternative_same(s, a, cache, ids, ids.len());
    lemma_spare_same(s, m, a, cache, ids, ids.len());
    law_given_prefixes_come_first(entries, ns, p);
    law_alternatives_are_what_schemas_bind(entries, ns, p);
    if alternative {
        assert(m.namespace_infos.contains_key(id));
    } else {
        assert(a.namespace_infos.contains_key(id));
    }
}

/// The namespace with the smallest number, up to a bound, that should have a prefix.
proof fn lemma_find_first(
    entries: Seq<ParserEntryView>,
    s: SchemasView,
    id: NamespaceId,
    p: Seq<u8>,
) -> (i: NamespaceId)
    requires
        s.namespace_infos.contains_key(id),
        wants(entries, s.namespace_infos[id].namespace, p),
    ensures
        s.namespace_infos.contains_key(i),
        wants(entries, s.namespace_infos[i].namespace, p),
        wanted_first(entries, s, i, p),
        i.0 <= id.0,
    decreases id.0,
{
    if wanted_first(entries, s, id, p) {
        id
    } else {
        let i = choose|i: NamespaceId| #[trigger]
            s.namespace_infos.contains_key(i) && i.0 < id.0 && wants(
                entries,
                s.namespace_infos[i].namespace,
                p,
            );
        lemma_find_first(entries, s, i, p)
    }
}

/// Without alternatives and made up prefixes, a namespace of a finished collection has a prefix
/// exactly if it should have one that no namespace with a smaller number should have.
pub proof fn law_taken_prefixes_are_not_given_twice(
    entries: Seq<ParserEntryView>,
    locations: LocationCache,
    id: NamespaceId,
    p: Seq<u8>,
)
    requires
        entries.len() <= usize::MAX,
        built(entries, locations, false, false).namespace_infos.contains_key(id),
    ensures
        ({
            let s = built(entries, locations, false, false);
            s.namespace_infos[id].prefix == Some(p) <==> wants(
                entries,
                s.namespace_infos[id].namespace,
                p,
            ) && wanted_first(entries, s, id, p)
        }),
{
    let s = built(entries, locations, false, false);
    if s.namespace_infos[id].prefix == Some(p) {
        law_prefixes_come_from_entries(entries, locations, false, id, p);
        let i = lemma_find_first(entries, s, id, p);
        law_wanted_prefixes_are_given(entries, locations, false, false, i, p);
        crate::buildlaws::law_finished_prefixes_are_unique(entries, locations, false, false);
        assert(s.namespace_infos.contains_key(id));
    }
    if wants(entries, s.namespace_infos[id].namespace, p) && wanted_first(entries, s, id, p) {
        law_wanted_prefixes_are_given(entries, locations, false, false, id, p);
    }
}

/// Where prefixes are made up, every namespace of a finished collection has a prefix that should
/// have one, or to which a schema binds one.
pub proof fn law_made_up_prefixes_fill_in(
    entries: Seq<ParserEntryView>,
    locations: LocationCache,
    alternative: bool,
    id: NamespaceId,
    p: Seq<u8>,
)
    requires
        entries.len() <= usize::MAX,
        ({
            let s = built(entries, locations, alternative, true);
            &&& s.namespace_infos.contains_key(id)
            &&& wants(entries, s.namespace_infos[id].namespace, p) || bound(
                entries,
                s.namespace_infos[id].namespace,
                p,
            )
        }),
    ensures
        built(entries, locations, alternative, true).namespace_infos[id].prefix is Some,
{
    let s = gathered(entries, locations);
    let cache = prefix_cache(entries, entries.len());
    lemma_gathered(entries, locations, alternative, true);
    assert(s.namespace_infos.contains_key(id));
    let ns = s.namespace_infos[id].namespace;
    law_given_prefixes_come_first(entries, ns, p);
    law_alternatives_are_what_schemas_bind(entries, ns, p);
    let list = in_order::<NamespacePrefix>(cache[ns].alternatives);
    lemma_in_order_finite::<NamespacePrefix>(cache[ns].alternatives);
    if cache[ns].prefix is None {
        assert(list.contains(p));
    }
    law_known_namespaces_get_prefixes(s, cache, alternative, id);
}

/// What marks a made up prefix of a namespace: an underscore, and the number of the namespace.
pub open spec fn mark_of(id: NamespaceId) -> Seq<u8> {
    seq![95u8] + crate::text::digits(id.0 as nat)
}

/// Bytes that are repeated `n` times.
pub open spec fn times(bytes: Seq<u8>, n: nat) -> Seq<u8>
    decreases n,
{
    if n == 0 {
        Seq::empty()
    } else {
        times(bytes, (n - 1) as nat) + bytes
    }
}

/// A prefix that was marked some times is the prefix, followed by that many marks.
proof fn lemma_made_up_times(p: Seq<u8>, id: NamespaceId, n: nat)
    ensures
        made_up(p, id, n) == p + times(mark_of(id), n),
    decreases n,
{
    if n > 0 {
        lemma_made_up_times(p, id, (n - 1) as nat);
    }
    assert(made_up(p, id, n) =~= p + times(mark_of(id), n));
}

/// A prefix that was marked some times starts with the prefix, and goes on with an underscore.
proof fn lemma_made_up_starts(p: Seq<u8>, id: NamespaceId, n: nat)
    requires
        n >= 1,
    ensures
        made_up(p, id, n).len() > p.len() + 1,
        made_up(p, id, n).take(p.len() as int) == p,
        made_up(p, id, n)[p.len() as int] == 95,
        n == 1 ==> made_up(p, id, n) == p.push(95) + crate::text::digits(id.0 as nat),
    decreases n,
{
    crate::text::lemma_digits_range(id.0 as nat);
    let q = made_up(p, id, (n - 1) as nat);
    let r = made_up(p, id, n);
    assert(r == marked(q, id));
    if n == 1 {
        assert(q == p);
        assert(r.take(p.len() as int) =~= p);
    } else {
        lemma_made_up_starts(p, id, (n - 1) as nat);
        assert(r.take(p.len() as int) =~= q.take(p.len() as int));
    }
}

/// Whether all prefixes are taken that are made up with fewer marks.
spec fn made_up_taken(s: SchemasView, p: Seq<u8>, id: NamespaceId, n: nat) -> bool {
    forall|m: nat| 1 <= m < n ==> s.known_prefixes.contains_key(#[trigger] made_up(p, id, m))
}

/// Whether every prefix that a namespace got is made up from the prefix that it should have, or else
/// from one that is bound to it.
spec fn from_candidate(s: SchemasView, t: SchemasView, cache: PrefixCache) -> bool {
    forall|id: NamespaceId| #[trigger]
        t.namespace_infos.contains_key(id) ==> {
            ||| t.namespace_infos[id].prefix == s.namespace_infos[id].prefix
            ||| {
                &&& s.namespace_infos[id].prefix is None
                &&& exists|n: nat|
                    {
                        &&& n >= 1
                        &&& t.namespace_infos[id].prefix == Some(
                            #[trigger] made_up(
                                candidate(cache[s.namespace_infos[id].namespace])->0,
                                id,
                                n,
                            ),
                        )
                        &&& made_up_taken(
                            t,
                            candidate(cache[s.namespace_infos[id].namespace])->0,
                            id,
                            n,
                        )
                    }
                &&& candidate(cache[s.namespace_infos[id].namespace]) is Some
            }
        }
}

/// Prefixes are made up from those that namespaces should have.
proof fn lemma_generated_from(s: SchemasView, cache: PrefixCache, ids: Seq<NamespaceId>, n: nat)
    requires
        finitely_many(s, cache),
        crate::order::lists(ids, s.namespace_infos.dom()),
        n <= ids.len(),
    ensures
        from_candidate(s, generated_prefixes(s, cache, ids, n), cache),
    decreases n,
{
    if n > 0 {
        let m = (n - 1) as nat;
        lemma_generated_from(s, cache, ids, m);
        lemma_generated_same(s, s, cache, ids, m);
        crate::buildlaws::lemma_generated_more(s, cache, ids, m);
        assert(ids.contains(ids[m as int]));
        let a = generated_prefixes(s, cache, ids, m);
        let b = generated_prefixes(s, cache, ids, n);
        let here = ids[m as int];
        let ns = a.namespace_infos[here].namespace;
        assert(s.namespace_infos.contains_key(here));
        assert(a.namespace_infos.contains_key(here));
        if a.namespace_infos[here].prefix is None {
            if let Some(p) = candidate(cache[ns]) {
                lemma_marks_exist(a.known_prefixes, p, here, 0);
                let k = choose|k: nat| marks(a.known_prefixes, p, here, k);
                assert(marks(a.known_prefixes, p, here, k));
                assert(fresh_prefix(a.known_prefixes, p, here) == made_up(p, here, k));
                assert(b.namespace_infos[here].prefix == Some(made_up(p, here, k)));
                assert(made_up_taken(b, p, here, k));
            }
        }
        assert forall|id: NamespaceId| #[trigger] b.namespace_infos.contains_key(id) implies ({
            ||| b.namespace_infos[id].prefix == s.namespace_infos[id].prefix
            ||| {
                &&& s.namespace_infos[id].prefix is None
                &&& exists|n: nat|
                    {
                        &&& n >= 1
                        &&& b.namespace_infos[id].prefix == Some(
                            #[trigger] made_up(
                                candidate(cache[s.namespace_infos[id].namespace])->0,
                                id,
                                n,
                            ),
                        )
                        &&& made_up_taken(
                            b,
                            candidate(cache[s.namespace_infos[id].namespace])->0,
                            id,
                            n,
                        )
                    }
                &&& candidate(cache[s.namespace_infos[id].namespace]) is Some
            }
        }) by {
            assert(a.namespace_infos.contains_key(id));
            let p = candidate(cache[s.namespace_infos[id].namespace])->0;
            if id != here && a.namespace_infos[id].prefix != s.namespace_infos[id].prefix {
                let k = choose|n: nat|
                    {
                        &&& n >= 1
                        &&& a.namespace_infos[id].prefix == Some(#[trigger] made_up(p, id, n))
                        &&& made_up_taken(a, p, id, n)
                    };
                assert(made_up_taken(b, p, id, k));
            }
        }
    }
}

/// Whether a namespace should have no prefix, and this is the first one, in byte order, that schemas
/// bind to it.
pub open spec fn bound_smallest(
    entries: Seq<ParserEntryView>,
    ns: Option<Seq<u8>>,
    p: Seq<u8>,
) -> bool {
    &&& forall|w: Seq<u8>| !#[trigger] wants(entries, ns, w)
    &&& bound(entries, ns, p)
    &&& forall|b: Seq<u8>| #[trigger] bound(entries, ns, b) ==> b == p || bytes_before(p, b)
}

/// Where prefixes are made up, a namespace of a finished collection whose prefix is neither the one
/// that it should have nor bound to it has a prefix that is made up: from the prefix that it should
/// have, or from the first one, in byte order, that schemas bind to it where it should have none. It
/// is followed by an underscore and the number of the namespace, as often as it takes: with fewer of
/// these it is taken.
pub proof fn law_made_up_prefixes_start_with_known_ones(
    entries: Seq<ParserEntryView>,
    locations: LocationCache,
    alternative: bool,
    id: NamespaceId,
    q: Seq<u8>,
)
    requires
        entries.len() <= usize::MAX,
        ({
            let s = built(entries, locations, alternative, true);
            &&& s.namespace_infos.contains_key(id)
            &&& s.namespace_infos[id].prefix == Some(q)
        }),
    ensures
        ({
            let ns = built(entries, locations, alternative, true).namespace_infos[id].namespace;
            ||| wants(entries, ns, q)
            ||| alternative && bound(entries, ns, q)
            ||| exists|p: Seq<u8>, n: nat|
                {
                    &&& wants(entries, ns, p) || bound_smallest(entries, ns, p)
                    &&& q.len() > p.len() + 1
                    &&& q.take(p.len() as int) == p
                    &&& q[p.len() as int] == 95
                    &&& n >= 1
                    &&& q == #[trigger] (p + times(mark_of(id), n))
                    &&& forall|m: nat|
                        1 <= m < n ==> built(
                            entries,
                            locations,
                            alternative,
                            true,
                        ).known_prefixes.contains_key(#[trigger] (p + times(mark_of(id), m)))
                }
        }),
{
    let s = gathered(entries, locations);
    let cache = prefix_cache(entries, entries.len());
    lemma_gathered(entries, locations, alternative, true);
    lemma_gathered(entries, locations, alternative, false);
    assert(s.namespace_infos.contains_key(id));
    let ns = s.namespace_infos[id].namespace;
    let ids = in_order::<NamespaceId>(s.namespace_infos.dom());
    lemma_in_order_finite::<NamespaceId>(s.namespace_infos.dom());
    let b = built(entries, locations, alternative, false);
    let t = built(entries, locations, alternative, true);
    assert(t == generated_prefixes(b, cache, ids, ids.len()));
    crate::buildlaws::lemma_prefixed_more(s, cache, alternative, false);
    assert forall|i: NamespaceId| #[trigger] b.namespace_infos.contains_key(i) implies
        cache[b.namespace_infos[i].namespace].alternatives.finite() by {
        assert(s.namespace_infos.contains_key(i));
    }
    lemma_generated_from(b, cache, ids, ids.len());
    assert(t.namespace_infos.contains_key(id));
    assert(b.namespace_infos.contains_key(id));
    if b.namespace_infos[id].prefix == Some(q) {
        law_prefixes_come_from_entries(entries, locations, alternative, id, q);
    } else {
        let p = candidate(cache[ns])->0;
        let n = choose|n: nat|
            {
                &&& n >= 1
                &&& t.namespace_infos[id].prefix == Some(#[trigger] made_up(p, id, n))
                &&& made_up_taken(t, p, id, n)
            };
        lemma_made_up_starts(p, id, n);
        lemma_made_up_times(p, id, n);
        assert forall|m: nat| 1 <= m < n implies t.known_prefixes.contains_key(
            #[trigger] (p + times(mark_of(id), m)),
        ) by {
            lemma_made_up_times(p, id, m);
            assert(t.known_prefixes.contains_key(made_up(p, id, m)));
        }
        law_given_prefixes_come_first(entries, ns, p);
        if cache[ns].prefix is None {
            let list = in_order::<NamespacePrefix>(cache[ns].alternatives);
            lemma_in_order_finite::<NamespacePrefix>(cache[ns].alternatives);
            assert(list.contains(list[0]));
            law_alternatives_are_what_schemas_bind(entries, ns, p);
            assert forall|w: Seq<u8>| !#[trigger] wants(entries, ns, w) by {
                law_given_prefixes_come_first(entries, ns, w);
            }
            assert(bound(entries, ns, p));
            assert forall|b: Seq<u8>| #[trigger] bound(entries, ns, b) implies b == p
                || bytes_before(p, b) by {
                law_alternatives_are_what_schemas_bind(entries, ns, b);
                assert(list.contains(b));
                let j = choose|j: int| 0 <= j < list.len() && list[j] == b;
                law_keys_are_ordered(0, 0, p, b, Seq::empty(), Seq::empty());
                assert(j == 0 || before::<NamespacePrefix>(list[0], list[j]));
            }
            assert(bound_smallest(entries, ns, p));
        }
        assert(q == p + times(mark_of(id), n));
    }
}

/// With alternatives, a namespace of a finished collection has a prefix if a schema binds one to it
/// that no other namespace has.
pub proof fn law_free_alternatives_fill_in(
    entries: Seq<ParserEntryView>,
    locations: LocationCache,
    generate: bool,
    id: NamespaceId,
    p: Seq<u8>,
)
    requires
        entries.len() <= usize::MAX,
        ({
            let s = built(entries, locations, true, generate);
            &&& s.namespace_infos.contains_key(id)
            &&& bound(entries, s.namespace_infos[id].namespace, p)
            &&& forall|i: NamespaceId|
                i != id && s.namespace_infos.contains_key(i) ==> (
                #[trigger] s.namespace_infos[i]).prefix != Some(p)
        }),
    ensures
        built(entries, locations, true, generate).namespace_infos[id].prefix is Some,
{
    let s = gathered(entries, locations);
    let cache = prefix_cache(entries, entries.len());
    let t = built(entries, locations, true, generate);
    lemma_gathered(entries, locations, true, generate);
    assert(s.namespace_infos.contains_key(id));
    law_alternatives_are_what_schemas_bind(entries, s.namespace_infos[id].namespace, p);
    assert forall|i: NamespaceId|
        i != id && s.namespace_infos.contains_key(i) implies (#[trigger] prefixed(
        s,
        cache,
        true,
        generate,
    ).namespace_infos[i]).prefix != Some(p) by {
        assert(t.namespace_infos.contains_key(i));
        assert(t.namespace_infos[i].prefix != Some(p));
    }
    law_free_alternatives_are_used(s, cache, generate, id, p);
}

/// With alternatives, every prefix that a schema binds to a namespace is known, where the namespace
/// should have no prefix that it can have.
pub proof fn law_bound_prefixes_are_known(
    entries: Seq<ParserEntryView>,
    locations: LocationCache,
    generate: bool,
    id: NamespaceId,
    p: Seq<u8>,
)
    requires
        entries.len() <= usize::MAX,
        ({
            let s = built(entries, locations, true, generate);
            &&& s.namespace_infos.contains_key(id)
            &&& bound(entries, s.namespace_infos[id].namespace, p)
            &&& forall|w: Seq<u8>| #[trigger]
                wants(entries, s.namespace_infos[id].namespace, w) ==> !wanted_first(
                    entries,
                    s,
                    id,
                    w,
                )
        }),
    ensures
        built(entries, locations, true, generate).known_prefixes.contains_key(p),
{
    let s = gathered(entries, locations);
    let cache = prefix_cache(entries, entries.len());
    let t = built(entries, locations, true, generate);
    let u = built(entries, locations, false, false);
    lemma_gathered(entries, locations, true, generate);
    lemma_gathered(entries, locations, false, false);
    assert(s.namespace_infos.contains_key(id));
    assert(u.namespace_infos.contains_key(id));
    law_alternatives_are_what_schemas_bind(entries, s.namespace_infos[id].namespace, p);
    if let Some(w) = u.namespace_infos[id].prefix {
        law_taken_prefixes_are_not_given_twice(entries, locations, id, w);
        assert forall|i: NamespaceId| #[trigger] t.namespace_infos.contains_key(i) && i.0
            < id.0 implies !wants(entries, t.namespace_infos[i].namespace, w) by {
            assert(s.namespace_infos.contains_key(i));
            assert(u.namespace_infos.contains_key(i));
        }
        assert(wanted_first(entries, t, id, w));
    }
    law_alternatives_are_known(s, cache, generate, id, p);
}

/// Whether every known prefix is that of the namespace that it stands for.
spec fn owned(s: SchemasView) -> bool {
    forall|x: Seq<u8>| #[trigger]
        s.known_prefixes.contains_key(x) ==> s.namespace_infos[s.known_prefixes[x]].prefix == Some(
            x,
        )
}

/// Whether everything that is known stays known.
spec fn keeps_known(s: SchemasView, t: SchemasView) -> bool {
    forall|x: Seq<u8>| #[trigger]
        s.known_prefixes.contains_key(x) ==> t.known_prefixes.contains_key(x)
            && t.known_prefixes[x] == s.known_prefixes[x]
}

/// Which prefix is found first.
proof fn lemma_first_tried(known: Map<Seq<u8>, NamespaceId>, list: Seq<Seq<u8>>) -> (k: int)
    requires
        first_free(known, list) is Some,
    ensures
        0 <= k < list.len(),
        list[k] == first_free(known, list)->0,
        !known.contains_key(list[k]),
        forall|j: int| 0 <= j < k ==> known.contains_key(#[trigger] list[j]),
    decreases list.len(),
{
    if known.contains_key(list[0]) {
        let rest = list.drop_first();
        let k = lemma_first_tried(known, rest);
        assert forall|j: int| 0 <= j < k + 1 implies known.contains_key(#[trigger] list[j]) by {
            if j > 0 {
                assert(known.contains_key(rest[j - 1]));
            }
        }
        k + 1
    } else {
        0
    }
}

/// Own prefixes are those of the namespaces that they stand for.
proof fn lemma_main_owned(s: SchemasView, cache: PrefixCache, ids: Seq<NamespaceId>, n: nat)
    requires
        owned(s),
        n <= ids.len(),
    ensures
        owned(main_prefixes(s, cache, ids, n)),
    decreases n,
{
    if n > 0 {
        lemma_main_owned(s, cache, ids, (n - 1) as nat);
    }
}

/// Alternatives are tried in their order: a namespace that gets one gets the first that is free.
proof fn lemma_alternatives_tried(
    s: SchemasView,
    cache: PrefixCache,
    ids: Seq<NamespaceId>,
    n: nat,
    id: NamespaceId,
    b: Seq<u8>,
)
    requires
        owned(s),
        finitely_many(s, cache),
        s.namespace_infos.contains_key(id),
        s.namespace_infos[id].prefix is None,
        crate::order::lists(ids, s.namespace_infos.dom()),
        n <= ids.len(),
        cache[s.namespace_infos[id].namespace].alternatives.contains(b),
    ensures
        ({
            let t = alternative_prefixes(s, cache, ids, n);
            &&& owned(t)
            &&& t.namespace_infos[id].prefix matches Some(p) ==> (bytes_before(b, p)
                ==> t.known_prefixes.contains_key(b) && t.known_prefixes[b] != id)
        }),
    decreases n,
{
    if n > 0 {
        let m = (n - 1) as nat;
        lemma_alternatives_tried(s, cache, ids, m, id, b);
        lemma_alternative_same(s, s, cache, ids, m);
        let here = ids[m as int];
        assert(ids.contains(here));
        let a = alternative_prefixes(s, cache, ids, m);
        let t = alternative_prefixes(s, cache, ids, n);
        let all = cache[a.namespace_infos[here].namespace].alternatives;
        assert(s.namespace_infos.contains_key(here));
        assert(all.finite());
        let list = in_order::<NamespacePrefix>(all);
        lemma_in_order_finite::<NamespacePrefix>(all);
        if a.namespace_infos[here].prefix is None && first_free(a.known_prefixes, list) is Some {
            let k = lemma_first_tried(a.known_prefixes, list);
            assert(t.namespace_infos[here].prefix == Some(list[k]));
            if here == id {
                assert(list.contains(b));
                let j = choose|j: int| 0 <= j < list.len() && list[j] == b;
                if bytes_before(b, list[k]) {
                    law_keys_are_ordered(0, 0, list[k], b, Seq::empty(), Seq::empty());
                    law_keys_are_ordered(0, 0, b, list[k], Seq::empty(), Seq::empty());
                    let x = byte_code(b);
                    lemma_lex_irreflexive(x);
                    if j > k {
                        assert(before::<NamespacePrefix>(list[k], list[j]));
                        lemma_lex_transitive(x, byte_code(list[k]), x);
                    }
                    assert(a.known_prefixes.contains_key(list[j]));
                    assert(a.known_prefixes[b] != id);
                }
            }
        }
    }
}

/// With alternatives, a namespace gets the first prefix, in byte order, of those that schemas bind
/// to it and that are free: each one before it stands for another namespace. This is stated where
/// the namespace does not have the prefix that it should have, and no prefixes are made up.
pub proof fn law_alternatives_are_tried_in_order(
    entries: Seq<ParserEntryView>,
    locations: LocationCache,
    id: NamespaceId,
    p: Seq<u8>,
    b: Seq<u8>,
)
    requires
        entries.len() <= usize::MAX,
        ({
            let s = built(entries, locations, true, false);
            &&& s.namespace_infos.contains_key(id)
            &&& s.namespace_infos[id].prefix == Some(p)
            &&& !wants(entries, s.namespace_infos[id].namespace, p)
            &&& bound(entries, s.namespace_infos[id].namespace, b)
            &&& bytes_before(b, p)
        }),
    ensures
        ({
            let s = built(entries, locations, true, false);
            &&& s.known_prefixes.contains_key(b)
            &&& s.known_prefixes[b] != id
        }),
{
    let s = gathered(entries, locations);
    let cache = prefix_cache(entries, entries.len());
    let end = built(entries, locations, true, false);
    lemma_gathered(entries, locations, true, false);
    assert(s.namespace_infos.contains_key(id));
    let ns = s.namespace_infos[id].namespace;
    let ids = in_order::<NamespaceId>(s.namespace_infos.dom());
    lemma_in_order_finite::<NamespaceId>(s.namespace_infos.dom());
    lemma_main_from(s, cache, ids, ids.len());
    lemma_main_same(s, s, cache, ids, ids.len());
    lemma_main_owned(s, cache, ids, ids.len());
    let a = main_prefixes(s, cache, ids, ids.len());
    crate::buildlaws::lemma_main_more(s, cache, ids, ids.len());
    assert forall|i: NamespaceId| #[trigger] a.namespace_infos.contains_key(i) implies
        cache[a.namespace_infos[i].namespace].alternatives.finite() by {
        assert(s.namespace_infos.contains_key(i));
    }
    let m = alternative_prefixes(a, cache, ids, ids.len());
    lemma_alternative_same(s, a, cache, ids, ids.len());
    lemma_spare_same(s, m, a, cache, ids, ids.len());
    law_given_prefixes_come_first(entries, ns, p);
    law_alternatives_are_what_schemas_bind(entries, ns, b);
    assert(a.namespace_infos.contains_key(id));
    lemma_alternative_keeps(a, cache, ids, ids.len());
    if let Some(w) = a.namespace_infos[id].prefix {
        assert(cache[ns].prefix == Some(w));
        assert(m.namespace_infos[id].prefix == Some(w));
    } else {
        lemma_alternatives_tried(a, cache, ids, ids.len(), id, b);
    }
    lemma_spare_keeps(m, a, cache, ids, ids.len());
}

/// A prefix that a namespace has is not taken away from it.
proof fn lemma_alternative_keeps(s: SchemasView, cache: PrefixCache, ids: Seq<NamespaceId>, n: nat)
    requires
        n <= ids.len(),
    ensures
        forall|id: NamespaceId|
            s.namespace_infos[id].prefix is Some ==> (#[trigger] alternative_prefixes(
                s,
                cache,
                ids,
                n,
            ).namespace_infos[id]).prefix == s.namespace_infos[id].prefix,
    decreases n,
{
    if n > 0 {
        lemma_alternative_keeps(s, cache, ids, (n - 1) as nat);
        let a = alternative_prefixes(s, cache, ids, (n - 1) as nat);
        let t = alternative_prefixes(s, cache, ids, n);
        assert forall|id: NamespaceId| s.namespace_infos[id].prefix is Some implies (
        #[trigger] t.namespace_infos[id]).prefix == s.namespace_infos[id].prefix by {
            assert(a.namespace_infos[id].prefix == s.namespace_infos[id].prefix);
        }
    }
}

/// What is known stays known when the other alternatives are made known.
proof fn lemma_spare_keeps(
    s: SchemasView,
    own: SchemasView,
    cache: PrefixCache,
    ids: Seq<NamespaceId>,
    n: nat,
)
    requires
        n <= ids.len(),
    ensures
        keeps_known(s, spare_prefixes(s, own, cache, ids, n)),
    decreases n,
{
    if n > 0 {
        lemma_spare_keeps(s, own, cache, ids, (n - 1) as nat);
    }
}

} // verus!
