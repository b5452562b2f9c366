//! What a schema that is added to a parser asks for, and what it leaves in the parser.

use vstd::prelude::*;
use vstd::utf8::encode_utf8;

use crate::models::{Dependency, TempSchemaId};
use crate::parser::{gather, Gathered, ParserView};
use crate::request::{
    opt_bytes, part_dependency, part_request, RequestView, ResolveRequestType,
};
use crate::xs::{SchemaContent, SchemaView};

verus! {

/// Whether a part of a schema refers to the document of a location: an inclusion, a redefinition
/// and an override always do, and an import does if it has a location.
pub open spec fn asks_for(c: SchemaContent, l: Seq<char>) -> bool {
    ||| c matches SchemaContent::Import(x) && x.schema_location matches Some(s) && s@ == l
    ||| c matches SchemaContent::Include(x) && x.schema_location@ == l
    ||| c matches SchemaContent::Redefine(x) && x.schema_location@ == l
    ||| c matches SchemaContent::Override(x) && x.schema_location@ == l
}

/// Whether a part of a schema refers to a document.
pub open spec fn asks(c: SchemaContent) -> bool {
    exists|l: Seq<char>| asks_for(c, l)
}

/// How many of the first `n` parts of a schema refer to documents.
pub open spec fn asking(content: Seq<SchemaContent>, n: nat) -> nat
    decreases n,
{
    if n == 0 {
        0
    } else if asks(content[n - 1]) {
        asking(content, (n - 1) as nat) + 1
    } else {
        asking(content, (n - 1) as nat)
    }
}

/// Whether a request is the one that a part of a schema makes, of a schema with the given target
/// namespace and location.
pub open spec fn requested_by(
    req: RequestView,
    c: SchemaContent,
    target: Option<Seq<char>>,
    location: Option<Seq<char>>,
) -> bool {
    &&& asks_for(c, req.requested_location)
    &&& req.current_location == location
    &&& match target {
        Some(t) => req.current_ns == Some(encode_utf8(t)),
        None => req.current_ns is None,
    }
    &&& match c {
        SchemaContent::Import(x) => {
            &&& req.request_type == ResolveRequestType::ImportRequest
            &&& match x.namespace {
                Some(ns) => req.requested_ns == Some(encode_utf8(ns@)),
                None => req.requested_ns is None,
            }
        },
        _ => req.request_type == ResolveRequestType::IncludeRequest && req.requested_ns is None,
    }
}

/// Whether a dependency is of the kind of a part of a schema, and points to a document.
pub open spec fn depends_by(
    d: Dependency<TempSchemaId>,
    c: SchemaContent,
    id: TempSchemaId,
) -> bool {
    match c {
        SchemaContent::Import(_) => d == Dependency::Import(id),
        SchemaContent::Include(_) => d == Dependency::Include(id),
        SchemaContent::Redefine(_) => d == Dependency::Redefine(id),
        SchemaContent::Override(_) => d == Dependency::Override(id),
        _ => false,
    }
}

/// No more parts refer to documents than there are.
proof fn lemma_asking_bound(content: Seq<SchemaContent>, n: nat)
    ensures
        asking(content, n) <= n,
    decreases n,
{
    if n > 0 {
        lemma_asking_bound(content, (n - 1) as nat);
    }
}

/// Later parts are not counted among earlier ones.
proof fn lemma_asking_grows(content: Seq<SchemaContent>, i: nat, n: nat)
    requires
        i < n,
        asks(content[i as int]),
    ensures
        asking(content, i) < asking(content, n),
    decreases n,
{
    if i < n - 1 {
        lemma_asking_grows(content, i, (n - 1) as nat);
    }
}

/// What one part of a schema asks for.
proof fn lemma_part(c: SchemaContent, target: Option<Seq<char>>, location: Option<Seq<char>>)
    ensures
        match part_request(c, opt_bytes(target), location) {
            Some(req) => {
                &&& asks(c)
                &&& requested_by(req, c, target, location)
                &&& forall|l: Seq<char>| #[trigger] asks_for(c, l) <==> l == req.requested_location
                &&& forall|id: TempSchemaId|
                    depends_by(#[trigger] part_dependency(c, id), c, id)
            },
            None => !asks(c) && forall|l: Seq<char>| !#[trigger] asks_for(c, l),
        },
{
    if let Some(req) = part_request(c, opt_bytes(target), location) {
        assert(asks_for(c, req.requested_location));
    }
}

/// What the first `n` parts of a schema add to the queue.
proof fn lemma_gathered(
    content: Seq<SchemaContent>,
    n: nat,
    target: Option<Seq<char>>,
    location: Option<Seq<char>>,
    g: Gathered,
)
    requires
        n <= content.len(),
        g.next + content.len() <= usize::MAX,
    ensures
        ({
            let h = gather(content, n, opt_bytes(target), location, g);
            let m = g.pending.len() as int;
            &&& h.pending.len() == m + asking(content, n)
            &&& h.next == g.next + asking(content, n)
            &&& forall|k: int| 0 <= k < m ==> #[trigger] h.pending[k] == g.pending[k]
            &&& forall|i: nat|
                i < n && asks(content[i as int]) ==> {
                    let (id, req) = h.pending[m + #[trigger] asking(content, i)];
                    &&& id == TempSchemaId((g.next + asking(content, i)) as usize)
                    &&& requested_by(req, content[i as int], target, location)
                }
        }),
    decreases n,
{
    if n > 0 {
        let p = (n - 1) as nat;
        let c = content[p as int];
        lemma_gathered(content, p, target, location, g);
        lemma_asking_bound(content, n);
        lemma_part(c, target, location);
        let a = gather(content, p, opt_bytes(target), location, g);
        let h = gather(content, n, opt_bytes(target), location, g);
        let m = g.pending.len() as int;
        if let Some(req) = part_request(c, opt_bytes(target), location) {
            let id = TempSchemaId((g.next + asking(content, p)) as usize);
            assert(h.pending == a.pending.push((id, req)));
            assert forall|i: nat| i < n && asks(content[i as int]) implies ({
                let (t, r) = h.pending[m + #[trigger] asking(content, i)];
                &&& t == TempSchemaId((g.next + asking(content, i)) as usize)
                &&& requested_by(r, content[i as int], target, location)
            }) by {
                if i < p {
                    lemma_asking_grows(content, i, p);
                    let k = m + asking(content, i);
                    assert(h.pending[k] == a.pending[k]);
                }
            }
            assert forall|k: int| 0 <= k < m implies #[trigger] h.pending[k] == g.pending[k] by {
                assert(h.pending[k] == a.pending[k]);
            }
        }
    }
}

/// What the first `n` parts of a schema depend on.
proof fn lemma_depended(
    content: Seq<SchemaContent>,
    n: nat,
    target: Option<Seq<char>>,
    location: Option<Seq<char>>,
    g: Gathered,
)
    requires
        n <= content.len(),
        g.next + content.len() <= usize::MAX,
        g.dependencies == Map::<Seq<char>, Dependency<TempSchemaId>>::empty(),
    ensures
        ({
            let h = gather(content, n, opt_bytes(target), location, g);
            &&& forall|l: Seq<char>| #[trigger]
                h.dependencies.contains_key(l) <==> exists|i: int|
                    0 <= i < n && asks_for(#[trigger] content[i], l)
            &&& forall|i: int, l: Seq<char>|
                #![trigger asks_for(content[i], l)]
                0 <= i < n && asks_for(content[i], l) && (forall|j: int|
                    i < j < n ==> !asks_for(#[trigger] content[j], l)) ==> depends_by(
                    h.dependencies[l],
                    content[i],
                    TempSchemaId((g.next + asking(content, i as nat)) as usize),
                )
        }),
    decreases n,
{
    if n > 0 {
        let p = (n - 1) as nat;
        let c = content[p as int];
        lemma_depended(content, p, target, location, g);
        lemma_gathered(content, p, target, location, g);
        lemma_part(c, target, location);
        let a = gather(content, p, opt_bytes(target), location, g);
        let h = gather(content, n, opt_bytes(target), location, g);
        let here = part_request(c, opt_bytes(target), location);
        assert forall|l: Seq<char>| #[trigger] h.dependencies.contains_key(l) <==> exists|i: int|
            0 <= i < n && asks_for(#[trigger] content[i], l) by {
            if a.dependencies.contains_key(l) {
                let i = choose|i: int| 0 <= i < p && asks_for(#[trigger] content[i], l);
                assert(asks_for(content[i], l));
            }
            if h.dependencies.contains_key(l) && !a.dependencies.contains_key(l) {
                assert(asks_for(content[p as int], l));
            }
            if exists|i: int| 0 <= i < n && asks_for(#[trigger] content[i], l) {
                let i = choose|i: int| 0 <= i < n && asks_for(#[trigger] content[i], l);
                if i < p {
                    assert(a.dependencies.contains_key(l));
                }
            }
        }
        assert forall|i: int, l: Seq<char>|
            #![trigger asks_for(content[i], l)]
            0 <= i < n && asks_for(content[i], l) && (forall|j: int|
                i < j < n ==> !asks_for(#[trigger] content[j], l)) implies depends_by(
            h.dependencies[l],
            content[i],
            TempSchemaId((g.next + asking(content, i as nat)) as usize),
        ) by {
            if i < p {
                assert(!asks_for(content[p as int], l));
                assert(h.dependencies[l] == a.dependencies[l]);
                assert(forall|j: int| i < j < p ==> !asks_for(#[trigger] content[j], l));
            } else {
                let id = TempSchemaId(a.next);
                assert(h.dependencies[l] == part_dependency(c, id));
            }
        }
    }
}

/// Every part of a schema that refers to a document makes a request, and nothing else does. The
/// requests are queued in document order, behind those that are there, each under an identifier of
/// its own. Each names the document and the namespace that the part asks for, and the location and
/// the namespace of the schema that asks, whether it imports, includes, redefines or overrides.
pub proof fn law_every_reference_is_requested(
    p: ParserView,
    id: TempSchemaId,
    name: Option<Seq<char>>,
    schema: SchemaView,
    location: Option<Seq<char>>,
    namespaces: Map<Option<Seq<u8>>, Seq<Seq<u8>>>,
)
    requires
        p.resolve_includes,
        p.next + schema.content.len() <= usize::MAX,
    ensures
        ({
            let q = p.with_schema(id, name, schema, location, namespaces);
            let m = p.pending.len() as int;
            &&& q.pending.len() == m + asking(schema.content, schema.content.len())
            &&& q.next == p.next + asking(schema.content, schema.content.len())
            &&& forall|k: int| 0 <= k < m ==> #[trigger] q.pending[k] == p.pending[k]
            &&& forall|i: nat|
                i < schema.content.len() && asks(schema.content[i as int]) ==> {
                    let (t, req) = q.pending[m + #[trigger] asking(schema.content, i)];
                    &&& t == TempSchemaId((p.next + asking(schema.content, i)) as usize)
                    &&& requested_by(req, schema.content[i as int], schema.target, location)
                }
        }),
{
    let g = Gathered { pending: p.pending, next: p.next, dependencies: Map::empty() };
    lemma_gathered(schema.content, schema.content.len(), schema.target, location, g);
}

/// Which part of a schema made the request at a place.
proof fn lemma_asked(content: Seq<SchemaContent>, n: nat, k: nat) -> (i: int)
    requires
        k < asking(content, n),
    ensures
        0 <= i < n,
        asks(content[i]),
        asking(content, i as nat) == k,
    decreases n,
{
    let m = (n - 1) as nat;
    if asks(content[m as int]) && asking(content, m) == k {
        m as int
    } else {
        lemma_asked(content, m, k)
    }
}

/// Every request that a schema makes names the schema that asks: its location, and its target
/// namespace.
pub proof fn law_requests_name_the_schema_that_asks(
    p: ParserView,
    id: TempSchemaId,
    name: Option<Seq<char>>,
    schema: SchemaView,
    location: Option<Seq<char>>,
    namespaces: Map<Option<Seq<u8>>, Seq<Seq<u8>>>,
    k: int,
)
    requires
        p.next + schema.content.len() <= usize::MAX,
        p.pending.len() <= k < p.with_schema(
            id,
            name,
            schema,
            location,
            namespaces,
        ).pending.len(),
    ensures
        ({
            let req = p.with_schema(id, name, schema, location, namespaces).pending[k].1;
            &&& req.current_location == location
            &&& match schema.target {
                Some(t) => req.current_ns == Some(encode_utf8(t)),
                None => req.current_ns is None,
            }
        }),
{
    if p.resolve_includes {
        law_every_reference_is_requested(p, id, name, schema, location, namespaces);
        let i = lemma_asked(
            schema.content,
            schema.content.len(),
            (k - p.pending.len()) as nat,
        );
        assert(asks(schema.content[i]));
    }
}

/// The entry of a schema depends on every document that the schema refers to, under the location
/// that it gives, and on nothing else. The dependency is of the kind of the reference, and points to
/// the request that it made; of several references to a location the last one counts.
pub proof fn law_references_are_dependencies(
    p: ParserView,
    id: TempSchemaId,
    name: Option<Seq<char>>,
    schema: SchemaView,
    location: Option<Seq<char>>,
    namespaces: Map<Option<Seq<u8>>, Seq<Seq<u8>>>,
)
    requires
        p.resolve_includes,
        p.next + schema.content.len() <= usize::MAX,
    ensures
        ({
            let q = p.with_schema(id, name, schema, location, namespaces);
            let dependencies = q.entries.last()->dependencies;
            let content = schema.content;
            &&& forall|l: Seq<char>| #[trigger]
                dependencies.contains_key(l) <==> exists|i: int|
                    0 <= i < content.len() && asks_for(#[trigger] content[i], l)
            &&& forall|i: int, l: Seq<char>|
                #![trigger asks_for(content[i], l)]
                0 <= i < content.len() && asks_for(content[i], l) && (forall|j: int|
                    i < j < content.len() ==> !asks_for(#[trigger] content[j], l)) ==> depends_by(
                    dependencies[l],
                    content[i],
                    TempSchemaId((p.next + asking(content, i as nat)) as usize),
                )
        }),
{
    let g = Gathered { pending: p.pending, next: p.next, dependencies: Map::empty() };
    lemma_depended(schema.content, schema.content.len(), schema.target, location, g);
}

/// Whether a parser has one more schema, with all that is known of it, and is otherwise as it was,
/// apart from its queue, its counter and the documents that it has loaded.
pub open spec fn added(
    p: ParserView,
    q: ParserView,
    id: TempSchemaId,
    name: Option<Seq<char>>,
    schema: SchemaView,
    location: Option<Seq<char>>,
    namespaces: Map<Option<Seq<u8>>, Seq<Seq<u8>>>,
) -> bool {
    let n = p.entries.len();
    &&& q.entries.len() == n + 1
    &&& forall|i: int| 0 <= i < n ==> #[trigger] q.entries[i] == p.entries[i]
    &&& q.entries[n as int] is Schema
    &&& q.entries[n as int]->id == id
    &&& q.entries[n as int]->name == name
    &&& q.entries[n as int]->schema == schema
    &&& q.entries[n as int]->location == location
    &&& q.entries[n as int]->namespaces == namespaces
    &&& match schema.target {
        Some(t) => q.entries[n as int]->target_ns == Some(encode_utf8(t)),
        None => q.entries[n as int]->target_ns is None,
    }
    &&& q.resolve_includes == p.resolve_includes
    &&& q.generate_prefixes == p.generate_prefixes
    &&& q.alternative_prefixes == p.alternative_prefixes
}

/// A schema is added under its identifier, with its name, its location and what it binds.
pub proof fn law_schemas_are_added(
    p: ParserView,
    id: TempSchemaId,
    name: Option<Seq<char>>,
    schema: SchemaView,
    location: Option<Seq<char>>,
    namespaces: Map<Option<Seq<u8>>, Seq<Seq<u8>>>,
)
    ensures
        ({
            let q = p.with_schema(id, name, schema, location, namespaces);
            added(p, q, id, name, schema, location, namespaces) && q.cache == p.cache
        }),
{
}

/// A text is added under the next identifier. It has no location, and no document counts as loaded
/// for it.
pub proof fn law_texts_are_added(
    p: ParserView,
    name: Option<Seq<char>>,
    schema: SchemaView,
    namespaces: Map<Option<Seq<u8>>, Seq<Seq<u8>>>,
)
    ensures
        ({
            let q = p.with_text(name, schema, namespaces);
            &&& added(p, q, TempSchemaId(p.next), name, schema, None, namespaces)
            &&& q.cache == p.cache
        }),
{
}

/// A document is added under the identifier of its request, and counts as loaded from then on, for
/// that identifier alone. Where it has no target namespace, it has that of the schema that asked for
/// it; otherwise it keeps its own.
pub proof fn law_documents_are_added(
    p: ParserView,
    id: TempSchemaId,
    req: RequestView,
    name: Option<Seq<char>>,
    location: Seq<char>,
    schema: SchemaView,
    namespaces: Map<Option<Seq<u8>>, Seq<Seq<u8>>>,
)
    ensures
        ({
            let q = p.with_loaded(id, req, name, location, schema, namespaces);
            let placed = SchemaView {
                target: match (schema.target, req.current_ns) {
                    (None, Some(ns)) => Some(crate::text::shown(ns)),
                    (target, _) => target,
                },
                content: schema.content,
            };
            &&& added(p, q, id, name, placed, Some(location), namespaces)
            &&& q.cache.contains_key(location)
            &&& forall|t: TempSchemaId| #[trigger] q.cache[location].contains(t) <==> t == id
            &&& forall|l: Seq<char>|
                l != location ==> (#[trigger] q.cache.contains_key(l) <==> p.cache.contains_key(l))
                    && (p.cache.contains_key(l) ==> q.cache[l] == p.cache[l])
        }),
{
}

/// A document that was loaded before is not added again. The identifier of the request stands for
/// it too, and nothing else changes.
pub proof fn law_loaded_documents_get_one_more_identifier(
    p: ParserView,
    id: TempSchemaId,
    location: Seq<char>,
)
    requires
        p.cache.contains_key(location),
    ensures
        ({
            let q = p.with_alias(id, location);
            &&& q.entries == p.entries
            &&& q.pending == p.pending
            &&& q.next == p.next
            &&& q.cache.dom() == p.cache.dom()
            &&& forall|l: Seq<char>, t: TempSchemaId|
                #![trigger q.cache[l].contains(t)]
                p.cache.contains_key(l) ==> (q.cache[l].contains(t) <==> p.cache[l].contains(t) || (l
                    == location && t == id))
        }),
{
    let q = p.with_alias(id, location);
    assert(q.cache.dom() =~= p.cache.dom());
}

/// A document is refused exactly if it was asked for by an inclusion, a redefinition or an override
/// of a schema of a namespace, and has another target namespace. An import, and a document without a
/// target namespace, is never refused.
pub proof fn law_other_namespaces_are_refused(req: RequestView, schema: SchemaView)
    ensures
        ParserView::mismatching(req, schema) <==> {
            &&& req.request_type == ResolveRequestType::IncludeRequest
            &&& req.current_ns matches Some(ns) && schema.target matches Some(t) && encode_utf8(t)
                != ns
        },
{
}

} // verus!
