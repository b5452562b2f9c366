//! What holds of every parser.

use vstd::prelude::*;

use crate::buildlaws::{law_namespaces_add_no_schemas, only_knows};
use crate::buildmodel::{
    aliases, id_cache, ids_distinct, lemma_count_bound, lemma_count_grows, namespace_of, number_at,
};
use crate::models::TempSchemaId;
use crate::parser::{gather, new_parser, Gathered, Parser, ParserEntryView, ParserView};
use crate::request::{
    opt_bytes, part_request, plain_request, RequestView, ResolveRequestType,
};
use crate::xs::{SchemaContent, SchemaView};

verus! {

/// Unless references are resolved, a schema asks for no documents and depends on none.
pub proof fn law_unresolved_references_ask_for_nothing(
    p: ParserView,
    id: TempSchemaId,
    name: Option<Seq<char>>,
    schema: SchemaView,
    location: Option<Seq<char>>,
    namespaces: Map<Option<Seq<u8>>, Seq<Seq<u8>>>,
)
    requires
        !p.resolve_includes,
    ensures
        ({
            let q = p.with_schema(id, name, schema, location, namespaces);
            &&& q.pending == p.pending
            &&& q.next == p.next
            &&& q.entries.last()->dependencies.dom() == Set::<Seq<char>>::empty()
        }),
{
    assert(p.gathered(schema, location).dependencies.dom() =~= Set::<Seq<char>>::empty());
}

/// A document without a namespace that is asked for by a schema of a namespace belongs to that
/// namespace. This is stated of names in printable ASCII.
pub proof fn law_included_documents_inherit_the_namespace(
    req: RequestView,
    schema: SchemaView,
    ns: Seq<char>,
)
    requires
        forall|i: int| 0 <= i < ns.len() ==> 32 <= (#[trigger] ns[i]) as int && (ns[i] as int) < 127,
        req.current_ns == Some(vstd::utf8::encode_utf8(ns)),
        schema.target is None,
    ensures
        opt_bytes(ParserView::inheriting(req, schema).target) == req.current_ns,
{
    crate::text::lemma_shown_ascii(ns);
}

/// What holds of every parser: each identifier was handed out once, and all identifiers of a
/// document that was loaded since the resolver was set stand for one schema.
pub open spec fn consistent(p: ParserView) -> bool {
    &&& forall|i: int|
        0 <= i < p.entries.len() && (#[trigger] p.entries[i]) is Schema ==> p.entries[i]->id.0
            < p.next
    &&& forall|i: int, j: int|
        #![trigger p.entries[i], p.entries[j]]
        0 <= i < j < p.entries.len() && p.entries[i] is Schema && p.entries[j] is Schema ==> {
            &&& p.entries[i]->id != p.entries[j]->id
            &&& !aliases(p.entries[j]->location, p.cache).contains(p.entries[i]->id)
        }
    &&& forall|i: int, l: Seq<char>|
        #![trigger p.entries[i], p.cache[l]]
        0 <= i < p.entries.len() && p.entries[i] is Schema && p.cache.contains_key(l)
            && p.cache[l].contains(p.entries[i]->id) ==> p.entries[i]->location == Some(l)
    &&& forall|l: Seq<char>, t: TempSchemaId|
        #![trigger p.cache[l].contains(t)]
        p.cache.contains_key(l) && p.cache[l].contains(t) ==> t.0 < p.next
    &&& forall|l: Seq<char>, m: Seq<char>, t: TempSchemaId|
        #![trigger p.cache[l].contains(t), p.cache[m].contains(t)]
        p.cache.contains_key(l) && p.cache.contains_key(m) && p.cache[l].contains(t)
            && p.cache[m].contains(t) ==> l == m
    &&& forall|l: Seq<char>|
        #![trigger p.cache.contains_key(l)]
        p.cache.contains_key(l) ==> exists|i: int|
            0 <= i < p.entries.len() && loaded_from(p, #[trigger] p.entries[i], l)
    &&& forall|k: int|
        0 <= k < p.pending.len() ==> fresh(p, (#[trigger] p.pending[k]).0)
    &&& forall|j: int, k: int|
        #![trigger p.pending[j], p.pending[k]]
        0 <= j < k < p.pending.len() ==> p.pending[j].0 != p.pending[k].0
}

/// Whether an entry is the schema of the document that was loaded from a location.
pub open spec fn loaded_from(p: ParserView, entry: ParserEntryView, l: Seq<char>) -> bool {
    entry is Schema && entry->location == Some(l) && p.cache[l].contains(entry->id)
}

/// Whether an identifier was handed out and stands for nothing yet.
pub open spec fn fresh(p: ParserView, t: TempSchemaId) -> bool {
    &&& t.0 < p.next
    &&& forall|i: int|
        0 <= i < p.entries.len() && (#[trigger] p.entries[i]) is Schema ==> p.entries[i]->id != t
    &&& forall|l: Seq<char>| #[trigger] p.cache.contains_key(l) ==> !p.cache[l].contains(t)
}

/// A parser to which nothing was added is consistent, with any settings.
pub proof fn law_new_parsers_are_consistent(
    resolve_includes: bool,
    generate_prefixes: bool,
    alternative_prefixes: bool,
)
    ensures
        consistent(
            ParserView {
                resolve_includes,
                generate_prefixes,
                alternative_prefixes,
                ..new_parser()
            },
        ),
{
}

/// Adding a namespace keeps a parser consistent.
pub proof fn law_namespaces_keep_parsers_consistent(p: ParserView, entry: ParserEntryView)
    requires
        consistent(p),
        !(entry is Schema),
    ensures
        consistent(p.with_entry(entry)),
{
    let q = p.with_entry(entry);
    assert forall|i: int| 0 <= i < q.entries.len() && q.entries[i] is Schema implies i
        < p.entries.len() && q.entries[i] == p.entries[i] by {}
    assert forall|l: Seq<char>| #![trigger q.cache.contains_key(l)] q.cache.contains_key(
        l,
    ) implies exists|i: int|
        0 <= i < q.entries.len() && loaded_from(q, #[trigger] q.entries[i], l) by {
        assert(p.cache.contains_key(l));
        let i = choose|i: int|
            0 <= i < p.entries.len() && loaded_from(p, #[trigger] p.entries[i], l);
        assert(q.entries[i] == p.entries[i]);
    }
    assert forall|k: int| 0 <= k < q.pending.len() implies fresh(q, (#[trigger] q.pending[k]).0) by {
        assert(fresh(p, p.pending[k].0));
    }
}

/// A request keeps a parser consistent, as long as there are identifiers left.
pub proof fn law_requests_keep_parsers_consistent(p: ParserView, req: RequestView)
    requires
        consistent(p),
        p.next < usize::MAX,
    ensures
        consistent(p.requesting(req)),
{
    let q = p.requesting(req);
    let t = TempSchemaId(p.next);
    lemma_next_fresh(p);
    assert forall|k: int| 0 <= k < q.pending.len() implies fresh(q, (#[trigger] q.pending[k]).0) by {
        if k < p.pending.len() {
            assert(q.pending[k] == p.pending[k]);
            assert(fresh(p, p.pending[k].0));
        }
    }
    assert forall|j: int, k: int|
        #![trigger q.pending[j], q.pending[k]]
        0 <= j < k < q.pending.len() implies q.pending[j].0 != q.pending[k].0 by {
        assert(q.pending[j] == p.pending[j]);
        assert(fresh(p, p.pending[j].0));
        if k < p.pending.len() {
            assert(q.pending[k] == p.pending[k]);
        }
    }
}

/// The next identifier stands for nothing.
proof fn lemma_next_fresh(p: ParserView)
    requires
        consistent(p),
        p.next < usize::MAX,
    ensures
        fresh(ParserView { next: p.next.wrapping_add(1), ..p }, TempSchemaId(p.next)),
        forall|k: int| 0 <= k < p.pending.len() ==> (#[trigger] p.pending[k]).0 != TempSchemaId(
            p.next,
        ),
{
    let t = TempSchemaId(p.next);
    assert forall|l: Seq<char>| #[trigger] p.cache.contains_key(l) implies !p.cache[l].contains(
        t,
    ) by {
        if p.cache[l].contains(t) {
            assert(t.0 < p.next);
        }
    }
    assert forall|k: int| 0 <= k < p.pending.len() implies (#[trigger] p.pending[k]).0 != t by {
        assert(fresh(p, p.pending[k].0));
    }
}

/// What the parts of a schema add to the queue.
proof fn lemma_gather(
    content: Seq<SchemaContent>,
    n: nat,
    target: Option<Seq<u8>>,
    location: Option<Seq<char>>,
    g: Gathered,
)
    requires
        g.next + n <= usize::MAX,
    ensures
        ({
            let h = gather(content, n, target, location, g);
            &&& g.next <= h.next <= g.next + n
            &&& h.pending.len() >= g.pending.len()
            &&& forall|k: int|
                0 <= k < g.pending.len() ==> #[trigger] h.pending[k] == g.pending[k]
            &&& forall|k: int|
                g.pending.len() <= k < h.pending.len() ==> g.next <= (
                #[trigger] h.pending[k]).0.0 < h.next
            &&& forall|j: int, k: int|
                #![trigger h.pending[j], h.pending[k]]
                g.pending.len() <= j < k < h.pending.len() ==> h.pending[j].0 != h.pending[k].0
        }),
    decreases n,
{
    if n > 0 {
        let m = (n - 1) as nat;
        lemma_gather(content, m, target, location, g);
        let a = gather(content, m, target, location, g);
        let h = gather(content, n, target, location, g);
        if part_request(content[m as int], target, location) is Some {
            assert(h.next == a.next + 1);
            assert forall|k: int| 0 <= k < g.pending.len() implies #[trigger] h.pending[k]
                == g.pending[k] by {
                assert(h.pending[k] == a.pending[k]);
            }
            assert forall|k: int| g.pending.len() <= k < h.pending.len() implies g.next <= (
            #[trigger] h.pending[k]).0.0 < h.next by {
                if k < a.pending.len() {
                    assert(h.pending[k] == a.pending[k]);
                }
            }
            assert forall|j: int, k: int|
                #![trigger h.pending[j], h.pending[k]]
                g.pending.len() <= j < k < h.pending.len() implies h.pending[j].0
                != h.pending[k].0 by {
                assert(h.pending[j] == a.pending[j]);
                if k < a.pending.len() {
                    assert(h.pending[k] == a.pending[k]);
                }
            }
        }
    }
}

/// The parser with one more schema, which is also known by its location if it has one.
spec fn placed(
    p: ParserView,
    id: TempSchemaId,
    name: Option<Seq<char>>,
    schema: SchemaView,
    location: Option<Seq<char>>,
    namespaces: Map<Option<Seq<u8>>, Seq<Seq<u8>>>,
) -> ParserView {
    let q = p.with_schema(id, name, schema, location, namespaces);
    match location {
        Some(l) => ParserView { cache: q.cache.insert(l, Set::empty().insert(id)), ..q },
        None => q,
    }
}

/// A schema under an identifier that stands for nothing keeps a parser consistent.
proof fn lemma_placed(
    p: ParserView,
    id: TempSchemaId,
    name: Option<Seq<char>>,
    schema: SchemaView,
    location: Option<Seq<char>>,
    namespaces: Map<Option<Seq<u8>>, Seq<Seq<u8>>>,
)
    requires
        consistent(p),
        fresh(p, id),
        forall|k: int| 0 <= k < p.pending.len() ==> (#[trigger] p.pending[k]).0 != id,
        location matches Some(l) ==> !p.cache.contains_key(l),
        p.next + schema.content.len() <= usize::MAX,
    ensures
        consistent(placed(p, id, name, schema, location, namespaces)),
{
    let q = placed(p, id, name, schema, location, namespaces);
    let g = Gathered { pending: p.pending, next: p.next, dependencies: Map::empty() };
    lemma_gather(schema.content, schema.content.len(), opt_bytes(schema.target), location, g);
    let n = p.entries.len();
    assert(p.next <= q.next);
    assert(q.entries.len() == n + 1);
    assert(q.entries[n as int] is Schema);
    assert forall|i: int| 0 <= i < n implies #[trigger] q.entries[i] == p.entries[i] by {}
    assert forall|i: int|
        0 <= i < q.entries.len() && (#[trigger] q.entries[i]) is Schema implies q.entries[i]->id.0
        < q.next by {
        if i < n {
            assert(q.entries[i] == p.entries[i]);
        }
    }
    assert forall|i: int, j: int|
        #![trigger q.entries[i], q.entries[j]]
        0 <= i < j < q.entries.len() && q.entries[i] is Schema && q.entries[j] is Schema implies {
        &&& q.entries[i]->id != q.entries[j]->id
        &&& !aliases(q.entries[j]->location, q.cache).contains(q.entries[i]->id)
    } by {
        assert(q.entries[i] == p.entries[i]);
        if j < n {
            assert(q.entries[j] == p.entries[j]);
        }
    }
    assert forall|i: int, l: Seq<char>|
        #![trigger q.entries[i], q.cache[l]]
        0 <= i < q.entries.len() && q.entries[i] is Schema && q.cache.contains_key(l)
            && q.cache[l].contains(q.entries[i]->id) implies q.entries[i]->location == Some(l) by {
        if i < n {
            assert(q.entries[i] == p.entries[i]);
        }
        if Some(l) != location {
            assert(p.cache.contains_key(l) && q.cache[l] == p.cache[l]);
        }
    }
    assert forall|l: Seq<char>, t: TempSchemaId|
        #![trigger q.cache[l].contains(t)]
        q.cache.contains_key(l) && q.cache[l].contains(t) implies t.0 < q.next by {
        if Some(l) != location {
            assert(p.cache[l].contains(t));
        }
    }
    assert forall|l: Seq<char>, m: Seq<char>, t: TempSchemaId|
        #![trigger q.cache[l].contains(t), q.cache[m].contains(t)]
        q.cache.contains_key(l) && q.cache.contains_key(m) && q.cache[l].contains(t)
            && q.cache[m].contains(t) implies l == m by {
        if Some(l) != location {
            assert(p.cache.contains_key(l) && p.cache[l].contains(t));
        }
        if Some(m) != location {
            assert(p.cache.contains_key(m) && p.cache[m].contains(t));
        }
    }
    assert forall|l: Seq<char>| #![trigger q.cache.contains_key(l)] q.cache.contains_key(
        l,
    ) implies exists|i: int|
        0 <= i < q.entries.len() && loaded_from(q, #[trigger] q.entries[i], l) by {
        if Some(l) == location {
            assert(loaded_from(q, q.entries[n as int], l));
        } else {
            assert(p.cache.contains_key(l));
            let i = choose|i: int|
                0 <= i < p.entries.len() && loaded_from(p, #[trigger] p.entries[i], l);
            assert(q.entries[i] == p.entries[i]);
        }
    }
    assert forall|k: int| 0 <= k < q.pending.len() implies fresh(q, (#[trigger] q.pending[k]).0) by {
        let t = q.pending[k].0;
        if k < p.pending.len() {
            assert(q.pending[k] == p.pending[k]);
            assert(fresh(p, p.pending[k].0));
        } else {
            assert(p.next <= t.0 < q.next);
        }
        assert forall|i: int| 0 <= i < q.entries.len() && (
        #[trigger] q.entries[i]) is Schema implies q.entries[i]->id != t by {
            if i < n {
                assert(q.entries[i] == p.entries[i]);
            }
        }
        assert forall|l: Seq<char>| #[trigger] q.cache.contains_key(l) implies !q.cache[l].contains(
            t,
        ) by {
            if Some(l) != location {
                assert(p.cache.contains_key(l));
                if p.cache[l].contains(t) {
                    assert(t.0 < p.next);
                }
            }
        }
    }
    assert forall|j: int, k: int|
        #![trigger q.pending[j], q.pending[k]]
        0 <= j < k < q.pending.len() implies q.pending[j].0 != q.pending[k].0 by {
        if j < p.pending.len() {
            assert(q.pending[j] == p.pending[j]);
            assert(fresh(p, p.pending[j].0));
        }
        if k < p.pending.len() {
            assert(q.pending[k] == p.pending[k]);
        }
    }
}

/// Adding a schema that did not come from a location keeps a parser consistent, as long as there
/// are identifiers left.
pub proof fn law_texts_keep_parsers_consistent(
    p: ParserView,
    name: Option<Seq<char>>,
    schema: SchemaView,
    namespaces: Map<Option<Seq<u8>>, Seq<Seq<u8>>>,
)
    requires
        consistent(p),
        p.next + 1 + schema.content.len() <= usize::MAX,
    ensures
        consistent(p.with_text(name, schema, namespaces)),
{
    let taken = ParserView { next: p.next.wrapping_add(1), ..p };
    lemma_next_fresh(p);
    assert forall|k: int| 0 <= k < taken.pending.len() implies fresh(
        taken,
        (#[trigger] taken.pending[k]).0,
    ) by {
        assert(fresh(p, p.pending[k].0));
    }
    assert(consistent(taken));
    lemma_placed(taken, TempSchemaId(p.next), name, schema, None, namespaces);
}

/// The parser without the first request of its queue.
pub open spec fn without_first(p: ParserView) -> ParserView {
    ParserView { pending: p.pending.drop_first(), ..p }
}

/// The identifier of the first request is not in use, and taking the request keeps a parser
/// consistent.
proof fn lemma_first_fresh(p: ParserView)
    requires
        consistent(p),
        p.pending.len() > 0,
    ensures
        consistent(without_first(p)),
        fresh(without_first(p), p.pending[0].0),
        forall|k: int|
            0 <= k < without_first(p).pending.len() ==> (
            #[trigger] without_first(p).pending[k]).0 != p.pending[0].0,
{
    let q = without_first(p);
    assert(fresh(p, p.pending[0].0));
    assert forall|k: int| 0 <= k < q.pending.len() implies fresh(q, (#[trigger] q.pending[k]).0)
        && q.pending[k].0 != p.pending[0].0 by {
        assert(q.pending[k] == p.pending[k + 1]);
        assert(fresh(p, p.pending[k + 1].0));
    }
    assert forall|j: int, k: int|
        #![trigger q.pending[j], q.pending[k]]
        0 <= j < k < q.pending.len() implies q.pending[j].0 != q.pending[k].0 by {
        assert(q.pending[j] == p.pending[j + 1]);
        assert(q.pending[k] == p.pending[k + 1]);
    }
}

/// Adding the document of the first request keeps a parser consistent, as long as there are
/// identifiers left.
pub proof fn law_documents_keep_parsers_consistent(
    p: ParserView,
    name: Option<Seq<char>>,
    location: Seq<char>,
    schema: SchemaView,
    namespaces: Map<Option<Seq<u8>>, Seq<Seq<u8>>>,
)
    requires
        consistent(p),
        p.pending.len() > 0,
        !p.cache.contains_key(location),
        p.next + schema.content.len() <= usize::MAX,
    ensures
        consistent(
            without_first(p).with_loaded(
                p.pending[0].0,
                p.pending[0].1,
                name,
                location,
                schema,
                namespaces,
            ),
        ),
{
    lemma_first_fresh(p);
    let schema = ParserView::inheriting(p.pending[0].1, schema);
    lemma_placed(without_first(p), p.pending[0].0, name, schema, Some(location), namespaces);
}

/// A document that was loaded before keeps a parser consistent, and is not added again.
pub proof fn law_loaded_documents_are_not_added_again(p: ParserView, location: Seq<char>)
    requires
        consistent(p),
        p.pending.len() > 0,
        p.cache.contains_key(location),
    ensures
        consistent(without_first(p).with_alias(p.pending[0].0, location)),
        without_first(p).with_alias(p.pending[0].0, location).entries == p.entries,
{
    lemma_first_fresh(p);
    let a = without_first(p);
    let id = p.pending[0].0;
    let q = a.with_alias(id, location);
    assert forall|i: int, j: int|
        #![trigger q.entries[i], q.entries[j]]
        0 <= i < j < q.entries.len() && q.entries[i] is Schema && q.entries[j] is Schema implies {
        &&& q.entries[i]->id != q.entries[j]->id
        &&& !aliases(q.entries[j]->location, q.cache).contains(q.entries[i]->id)
    } by {
        assert(a.entries[i] is Schema && a.entries[j] is Schema);
    }
    assert forall|i: int, l: Seq<char>|
        #![trigger q.entries[i], q.cache[l]]
        0 <= i < q.entries.len() && q.entries[i] is Schema && q.cache.contains_key(l)
            && q.cache[l].contains(q.entries[i]->id) implies q.entries[i]->location == Some(l) by {
        assert(a.entries[i] is Schema && a.cache.contains_key(l));
        assert(a.cache[l].contains(a.entries[i]->id));
    }
    assert forall|l: Seq<char>, t: TempSchemaId|
        #![trigger q.cache[l].contains(t)]
        q.cache.contains_key(l) && q.cache[l].contains(t) implies t.0 < q.next by {
        if t != id {
            assert(a.cache[l].contains(t));
        }
    }
    assert forall|l: Seq<char>, m: Seq<char>, t: TempSchemaId|
        #![trigger q.cache[l].contains(t), q.cache[m].contains(t)]
        q.cache.contains_key(l) && q.cache.contains_key(m) && q.cache[l].contains(t)
            && q.cache[m].contains(t) implies l == m by {
        if t != id {
            assert(a.cache.contains_key(l) && a.cache[l].contains(t));
            assert(a.cache.contains_key(m) && a.cache[m].contains(t));
        } else {
            assert(a.cache.contains_key(l) && a.cache.contains_key(m));
        }
    }
    assert forall|l: Seq<char>| #![trigger q.cache.contains_key(l)] q.cache.contains_key(
        l,
    ) implies exists|i: int|
        0 <= i < q.entries.len() && loaded_from(q, #[trigger] q.entries[i], l) by {
        assert(a.cache.contains_key(l));
        let i = choose|i: int|
            0 <= i < a.entries.len() && loaded_from(a, #[trigger] a.entries[i], l);
        assert(loaded_from(q, q.entries[i], l));
    }
    assert forall|k: int| 0 <= k < q.pending.len() implies fresh(q, (#[trigger] q.pending[k]).0) by {
        assert(fresh(a, a.pending[k].0));
        assert forall|l: Seq<char>| #[trigger] q.cache.contains_key(l) implies !q.cache[l].contains(
            q.pending[k].0,
        ) by {
            assert(a.cache.contains_key(l));
        }
    }
}

/// In a consistent parser an identifier of a document, or of a schema without a location, stands
/// for that schema.
proof fn lemma_stands_for(p: ParserView, n: nat, i: int, t: TempSchemaId)
    requires
        consistent(p),
        0 <= i < n <= p.entries.len(),
        p.entries[i] is Schema,
        t == p.entries[i]->id || (aliases(p.entries[i]->location, p.cache).contains(t) && aliases(
            p.entries[i]->location,
            p.cache,
        ).contains(p.entries[i]->id)),
    ensures
        id_cache(p.entries, n, p.cache).contains_key(t),
        id_cache(p.entries, n, p.cache)[t] == number_at(p.entries, i),
    decreases n,
{
    let last = n - 1;
    if i < last {
        lemma_stands_for(p, (n - 1) as nat, i, t);
        match p.entries[last] {
            ParserEntryView::Schema { id, location, .. } => {
                assert(p.entries[i] is Schema && p.entries[last] is Schema);
                let same = aliases(location, p.cache).insert(id);
                if same.contains(t) {
                    if t != p.entries[i]->id {
                        let l = p.entries[i]->location->0;
                        assert(p.cache.contains_key(l) && p.cache[l].contains(t));
                        if t != id {
                            assert(p.cache[location->0].contains(t));
                        }
                        assert(location == Some(l));
                    }
                    assert(false);
                }
            },
            _ => {},
        }
    }
}

/// The identifier of a schema stands for it, and so do all identifiers of a document that was
/// loaded since the resolver was set.
pub proof fn law_identifiers_of_a_document_agree(p: ParserView, i: int, t: TempSchemaId)
    requires
        consistent(p),
        0 <= i < p.entries.len(),
        p.entries[i] is Schema,
        t == p.entries[i]->id || (p.entries[i]->location matches Some(l)
            && p.cache.contains_key(l) && loaded_from(p, p.entries[i], l)
            && p.cache[l].contains(t)),
    ensures
        id_cache(p.entries, p.entries.len(), p.cache).contains_key(t),
        id_cache(p.entries, p.entries.len(), p.cache)[t] == number_at(p.entries, i),
{
    lemma_stands_for(p, p.entries.len(), i, t);
}

/// A new resolver keeps a parser consistent: what was added before and what is added after can be
/// finished together.
pub proof fn law_new_resolvers_keep_parsers_consistent(p: ParserView)
    requires
        consistent(p),
    ensures
        consistent(p.with_new_resolver()),
{
}

/// A consistent parser can be finished.
pub proof fn law_consistent_parsers_can_be_finished(p: ParserView)
    requires
        consistent(p),
        p.entries.len() <= usize::MAX,
    ensures
        ids_distinct(p.entries, p.cache),
{
    let ids = id_cache(p.entries, p.entries.len(), p.cache);
    assert forall|i: int, j: int|
        #![trigger p.entries[i], p.entries[j]]
        0 <= i < j < p.entries.len() && p.entries[i] is Schema
            && p.entries[j] is Schema implies ids[p.entries[i]->id] != ids[p.entries[j]->id] by {
        law_identifiers_of_a_document_agree(p, i, p.entries[i]->id);
        law_identifiers_of_a_document_agree(p, j, p.entries[j]->id);
        lemma_count_grows(p.entries, (i + 1) as nat, (j + 1) as nat);
        lemma_count_bound(p.entries, (j + 1) as nat);
    }
}

/// A parser to which a namespace was added finishes with the schemas that it would have without
/// it, and knows that namespace besides.
pub proof fn law_parsers_with_a_namespace_have_the_same_schemas<TResolver>(
    p: &Parser<TResolver>,
    q: &Parser<TResolver>,
    entry: ParserEntryView,
)
    requires
        !(entry is Schema),
        q@ == p@.with_entry(entry),
    ensures
        only_knows(p@.finished(), q@.finished(), namespace_of(entry)),
{
    q.lemma_entries_fit();
    law_namespaces_add_no_schemas(
        p@.entries,
        p@.cache,
        p@.alternative_prefixes,
        p@.generate_prefixes,
        entry,
    );
}

/// What is found for a request: the schema of a document, with its name, its location and the
/// prefixes that it binds.
pub struct Answer {
    pub name: Option<Seq<char>>,
    pub location: Seq<char>,
    pub schema: SchemaView,
    pub namespaces: Map<Option<Seq<u8>>, Seq<Seq<u8>>>,
}

/// The parser after its first request was taken off the queue and answered, unless there is no
/// answer or it is refused.
pub open spec fn answered(
    p: ParserView,
    answer: spec_fn(RequestView) -> Option<Answer>,
) -> Option<ParserView> {
    let (id, req) = p.pending[0];
    let q = without_first(p);
    match answer(req) {
        Some(a) => if q.cache.contains_key(a.location) {
            Some(q.with_alias(id, a.location))
        } else if ParserView::mismatching(req, a.schema) {
            None
        } else {
            Some(q.with_loaded(id, req, a.name, a.location, a.schema, a.namespaces))
        },
        None => None,
    }
}

/// The parser after up to `n` requests were answered, until its queue is empty.
pub open spec fn drained(
    p: ParserView,
    answer: spec_fn(RequestView) -> Option<Answer>,
    n: nat,
) -> Option<ParserView>
    decreases n,
{
    if n == 0 || p.pending.len() == 0 {
        Some(p)
    } else {
        match answered(p, answer) {
            Some(q) => drained(q, answer, (n - 1) as nat),
            None => None,
        }
    }
}

/// Documents that were loaded stay loaded while requests are answered.
proof fn lemma_drained_cache(
    p: ParserView,
    answer: spec_fn(RequestView) -> Option<Answer>,
    n: nat,
    location: Seq<char>,
)
    requires
        p.cache.contains_key(location),
        drained(p, answer, n) is Some,
    ensures
        drained(p, answer, n)->0.cache.contains_key(location),
    decreases n,
{
    if n > 0 && p.pending.len() > 0 {
        lemma_drained_cache(answered(p, answer)->0, answer, (n - 1) as nat, location);
    }
}

/// A URL that is added twice is loaded once: where the same request always has the same answer,
/// the second time one request is made, and no schema is added.
pub proof fn law_a_url_added_twice_is_loaded_once(
    p: ParserView,
    answer: spec_fn(RequestView) -> Option<Answer>,
    url: Seq<char>,
    n: nat,
    m: nat,
)
    requires
        p.pending.len() == 0,
        m >= 1,
        ({
            let added = drained(
                p.requesting(plain_request(url, ResolveRequestType::UserDefined)),
                answer,
                n,
            );
            added is Some && added->0.pending.len() == 0
        }),
    ensures
        ({
            let req = plain_request(url, ResolveRequestType::UserDefined);
            let q = drained(p.requesting(req), answer, n)->0;
            let again = q.requesting(req);
            &&& again.pending == seq![(TempSchemaId(q.next), req)]
            &&& drained(again, answer, m) is Some
            &&& drained(again, answer, m)->0.pending.len() == 0
            &&& drained(again, answer, m)->0.entries == q.entries
        }),
{
    let req = plain_request(url, ResolveRequestType::UserDefined);
    let first = p.requesting(req);
    assert(first.pending[0].1 == req);
    let location = answer(req)->0.location;
    let once = answered(first, answer)->0;
    assert(once.cache.contains_key(location));
    lemma_drained_cache(once, answer, (n - 1) as nat, location);
    let q = drained(first, answer, n)->0;
    let again = q.requesting(req);
    assert(again.pending =~= seq![(TempSchemaId(q.next), req)]);
    let done = answered(again, answer)->0;
    assert(done == without_first(again).with_alias(TempSchemaId(q.next), location));
    assert(done.pending.len() == 0);
    assert(drained(done, answer, (m - 1) as nat) == Some(done));
}

} // verus!
