//! What a parser holds, and what its settings do.

use vstd::prelude::*;

use crate::buildmodel::{ids_distinct, number_at};
use crate::collectionlaws::{
    counted_from_one, law_namespaces_are_counted_from_one, law_references_lead_to_their_schemas,
    law_schemas_are_counted_from_one, pointed, schema_places, stands_for_last,
};
use crate::models::{
    xml_namespace, xml_prefix, xs_namespace, xs_prefix, xsi_namespace, Dependency, NamespaceId,
    SchemaId, TempSchemaId,
};
use crate::parser::{new_parser, ParserEntryView, ParserView};
use crate::prefixlaws::{
    bound, law_free_alternatives_fill_in, law_made_up_prefixes_fill_in,
    law_prefixes_come_from_entries, law_wanted_prefixes_are_given, wanted_first, wants,
};
use crate::request::{plain_request, RequestView, ResolveRequestType};

verus! {

/// A new parser holds nothing, asks for nothing, and neither resolves references nor chooses
/// prefixes by itself. What it finishes with is empty.
pub proof fn law_new_parsers_are_empty()
    ensures
        new_parser().entries.len() == 0,
        new_parser().pending.len() == 0,
        new_parser().next == 0,
        forall|l: Seq<char>| !#[trigger] new_parser().cache.contains_key(l),
        !new_parser().resolve_includes,
        !new_parser().generate_prefixes,
        !new_parser().alternative_prefixes,
        forall|id: SchemaId| !#[trigger] new_parser().finished().schemas.contains_key(id),
        forall|ns: Option<Seq<u8>>| !#[trigger]
            new_parser().finished().known_namespaces.contains_key(ns),
{
    let p = new_parser();
    let none = Seq::<int>::empty();
    assert(schema_places(p.entries, none));
    law_schemas_are_counted_from_one(p.entries, p.cache, false, false, none);
    law_namespaces_are_counted_from_one(p.entries, p.cache, false, false);
    assert(counted_from_one(p.finished(), p.entries, 0));
}

/// A new resolver keeps everything that was added, and the identifiers that were given out. What
/// the old one was asked for, and where it found what it loaded, is forgotten. From then on
/// references are resolved, and prefixes are chosen and made up.
pub proof fn law_new_resolvers_start_over(p: ParserView)
    ensures
        p.with_new_resolver().entries == p.entries,
        p.with_new_resolver().next == p.next,
        p.with_new_resolver().pending.len() == 0,
        forall|l: Seq<char>| !#[trigger] p.with_new_resolver().cache.contains_key(l),
        p.with_new_resolver().resolve_includes,
        p.with_new_resolver().generate_prefixes,
        p.with_new_resolver().alternative_prefixes,
{
}

/// A request is put behind those that wait, under the next identifier, and changes nothing else.
pub proof fn law_requests_wait_in_line(p: ParserView, req: RequestView)
    ensures
        p.requesting(req).pending.len() == p.pending.len() + 1,
        forall|i: int|
            0 <= i < p.pending.len() ==> #[trigger] p.requesting(req).pending[i] == p.pending[i],
        p.requesting(req).pending.last() == (TempSchemaId(p.next), req),
        p.next < usize::MAX ==> p.requesting(req).next == p.next + 1,
        p.requesting(req).entries == p.entries,
        p.requesting(req).cache == p.cache,
        p.requesting(req).resolve_includes == p.resolve_includes,
        p.requesting(req).generate_prefixes == p.generate_prefixes,
        p.requesting(req).alternative_prefixes == p.alternative_prefixes,
{
}

/// What a user asks for is asked for by no schema: the request names the location and its kind, and
/// nothing else.
pub proof fn law_plain_requests_name_no_schema(
    location: Seq<char>,
    request_type: ResolveRequestType,
)
    ensures
        plain_request(location, request_type).requested_location == location,
        plain_request(location, request_type).request_type == request_type,
        plain_request(location, request_type).requested_ns is None,
        plain_request(location, request_type).current_ns is None,
        plain_request(location, request_type).current_location is None,
{
}

/// An entry is put behind those that are there, and changes nothing else.
pub proof fn law_entries_are_kept_in_order(p: ParserView, entry: ParserEntryView)
    ensures
        p.with_entry(entry).entries.len() == p.entries.len() + 1,
        forall|i: int|
            0 <= i < p.entries.len() ==> #[trigger] p.with_entry(entry).entries[i] == p.entries[i],
        p.with_entry(entry).entries.last() == entry,
        p.with_entry(entry).pending == p.pending,
        p.with_entry(entry).cache == p.cache,
        p.with_entry(entry).next == p.next,
        p.with_entry(entry).resolve_includes == p.resolve_includes,
        p.with_entry(entry).generate_prefixes == p.generate_prefixes,
        p.with_entry(entry).alternative_prefixes == p.alternative_prefixes,
{
}

/// Unless a parser makes up prefixes, every prefix that it finishes with is one that the namespace
/// should have, or one that a schema binds to it; the latter only if the parser uses alternatives.
pub proof fn law_parsers_make_up_prefixes_if_asked(p: ParserView, id: NamespaceId, q: Seq<u8>)
    requires
        p.entries.len() <= usize::MAX,
        p.finished().namespace_infos.contains_key(id),
    ensures
        ({
            let info = p.finished().namespace_infos[id];
            &&& !p.generate_prefixes && info.prefix == Some(q) ==> wants(
                p.entries,
                info.namespace,
                q,
            ) || (p.alternative_prefixes && bound(p.entries, info.namespace, q))
            &&& p.generate_prefixes && (wants(p.entries, info.namespace, q) || bound(
                p.entries,
                info.namespace,
                q,
            )) ==> info.prefix is Some
        }),
{
    let info = p.finished().namespace_infos[id];
    if !p.generate_prefixes && info.prefix == Some(q) {
        law_prefixes_come_from_entries(p.entries, p.cache, p.alternative_prefixes, id, q);
    }
    if p.generate_prefixes && (wants(p.entries, info.namespace, q) || bound(
        p.entries,
        info.namespace,
        q,
    )) {
        law_made_up_prefixes_fill_in(p.entries, p.cache, p.alternative_prefixes, id, q);
    }
}

/// A parser that uses alternatives gives a namespace a prefix if a schema binds one to it that no
/// other namespace has.
pub proof fn law_parsers_use_alternatives_if_asked(p: ParserView, id: NamespaceId, q: Seq<u8>)
    requires
        p.entries.len() <= usize::MAX,
        p.alternative_prefixes,
        p.finished().namespace_infos.contains_key(id),
        bound(p.entries, p.finished().namespace_infos[id].namespace, q),
        forall|i: NamespaceId|
            i != id && p.finished().namespace_infos.contains_key(i) ==> (
            #[trigger] p.finished().namespace_infos[i]).prefix != Some(q),
    ensures
        p.finished().namespace_infos[id].prefix is Some,
{
    law_free_alternatives_fill_in(p.entries, p.cache, p.generate_prefixes, id, q);
}

/// A parser finishes with a dependency for every reference of its schemas whose document was loaded:
/// of the same kind, and on the schema of that document, whatever its settings are.
pub proof fn law_parsers_finish_with_their_references(
    p: ParserView,
    i: int,
    j: int,
    l: Seq<char>,
)
    requires
        ids_distinct(p.entries, p.cache),
        p.entries.len() <= usize::MAX,
        0 <= i < p.entries.len(),
        p.entries[i] is Schema,
        p.entries[i]->dependencies.contains_key(l),
        stands_for_last(p.entries, p.cache, pointed(p.entries[i]->dependencies[l]), j),
    ensures
        ({
            let s = p.finished();
            let given = p.entries[i]->dependencies[l];
            let info = s.schemas[number_at(p.entries, i)];
            let target = number_at(p.entries, j);
            &&& s.schemas.contains_key(number_at(p.entries, i))
            &&& s.schemas.contains_key(target)
            &&& s.schemas[target].schema == p.entries[j]->schema
            &&& info.dependencies.contains_key(l)
            &&& given is Import ==> info.dependencies[l] == Dependency::Import(target)
            &&& given is Include ==> info.dependencies[l] == Dependency::Include(target)
            &&& given is Redefine ==> info.dependencies[l] == Dependency::Redefine(target)
            &&& given is Override ==> info.dependencies[l] == Dependency::Override(target)
        }),
{
    law_references_lead_to_their_schemas(
        p.entries,
        p.cache,
        p.alternative_prefixes,
        p.generate_prefixes,
        i,
        j,
        l,
    );
}

/// A parser gives a namespace the prefix that it should have, unless a namespace with a smaller
/// number should have it too, whatever its settings are.
pub proof fn law_parsers_give_wanted_prefixes(p: ParserView, id: NamespaceId, q: Seq<u8>)
    requires
        p.entries.len() <= usize::MAX,
        p.finished().namespace_infos.contains_key(id),
        wants(p.entries, p.finished().namespace_infos[id].namespace, q),
        wanted_first(p.entries, p.finished(), id, q),
    ensures
        p.finished().namespace_infos[id].prefix == Some(q),
        p.finished().known_prefixes.contains_key(q),
        p.finished().known_prefixes[q] == id,
{
    law_wanted_prefixes_are_given(
        p.entries,
        p.cache,
        p.alternative_prefixes,
        p.generate_prefixes,
        id,
        q,
    );
}

/// A parser finishes with every schema that was added, and no others, numbered from one in the order
/// in which they were added. Each keeps its name and its location, and has the number of its target
/// namespace.
pub proof fn law_parsers_finish_with_their_schemas(p: ParserView, places: Seq<int>)
    requires
        ids_distinct(p.entries, p.cache),
        p.entries.len() <= usize::MAX,
        schema_places(p.entries, places),
    ensures
        ({
            let s = p.finished();
            &&& forall|id: SchemaId| #[trigger]
                s.schemas.contains_key(id) <==> 1 <= id.0 <= places.len()
            &&& forall|a: int|
                0 <= a < places.len() ==> {
                    let info = s.schemas[SchemaId((a + 1) as usize)];
                    let entry = p.entries[#[trigger] places[a]];
                    &&& info.schema == entry->schema
                    &&& info.name == entry->name
                    &&& info.location == entry->location
                    &&& s.known_namespaces.contains_key(entry->target_ns)
                    &&& info.namespace_id == s.known_namespaces[entry->target_ns]
                }
        }),
{
    law_schemas_are_counted_from_one(
        p.entries,
        p.cache,
        p.alternative_prefixes,
        p.generate_prefixes,
        places,
    );
}

/// What the namespaces and prefixes that every schema may use are called.
pub proof fn law_well_known_names()
    ensures
        xs_prefix() == seq![120u8, 115u8],
        xml_prefix() == seq![120u8, 109u8, 108u8],
        xs_namespace() == vstd::utf8::encode_utf8("http://www.w3.org/2001/XMLSchema"@),
        xsi_namespace() == vstd::utf8::encode_utf8("http://www.w3.org/2001/XMLSchema-instance"@),
        xml_namespace() == vstd::utf8::encode_utf8("http://www.w3.org/XML/1998/namespace"@),
{
    reveal_strlit("xs");
    reveal_strlit("xml");
    assert(vstd::utf8::is_ascii_chars("xs"@));
    assert(vstd::utf8::is_ascii_chars("xml"@));
    vstd::utf8::is_ascii_chars_encode_utf8("xs"@);
    vstd::utf8::is_ascii_chars_encode_utf8("xml"@);
    let a = xs_prefix();
    let b = xml_prefix();
    assert(a[0] == 120 && a[1] == 115);
    assert(b[0] == 120 && b[1] == 109 && b[2] == 108);
    assert(xs_prefix() =~= seq![120u8, 115u8]);
    assert(xml_prefix() =~= seq![120u8, 109u8, 108u8]);
}

} // verus!
