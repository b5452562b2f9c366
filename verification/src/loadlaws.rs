//! What holds of the ways to add a text.

use vstd::prelude::*;
use vstd::utf8::encode_utf8;

use crate::load::added_text;
use crate::parser::{ParseError, Parser, ParserEntryView, ParserView};
use crate::reader::{byte_events, deserialized, DeserializeSchema, EventView, ReadError};
use crate::xs::Schema;

verus! {

/// Whether a deserializer always makes the same of the same events.
pub open spec fn steady<D: DeserializeSchema>(
    deserializer: &D,
    events: Map<nat, Option<EventView>>,
) -> bool {
    forall|
        r: Result<Schema, ReadError>,
        m: Map<Option<Seq<u8>>, Seq<Seq<u8>>>,
        s: Result<Schema, ReadError>,
        n: Map<Option<Seq<u8>>, Seq<Seq<u8>>>,
    |
        #![trigger
            deserialized(deserializer, events, r, m),
            deserialized(deserializer, events, s, n)
        ]
        deserialized(deserializer, events, r, m) && deserialized(deserializer, events, s, n) ==> r
            == s && m == n
}

/// The parser whose last schema has another name.
pub open spec fn renamed(p: ParserView, name: Option<Seq<char>>) -> ParserView {
    match p.entries.last() {
        ParserEntryView::Schema {
            id,
            schema,
            location,
            target_ns,
            namespaces,
            dependencies,
            ..
        } => ParserView {
            entries: p.entries.drop_last().push(
                ParserEntryView::Schema {
                    id,
                    name,
                    schema,
                    location,
                    target_ns,
                    namespaces,
                    dependencies,
                },
            ),
            ..p
        },
        _ => p,
    }
}

/// A text that is added under a name differs from one that is added without a name in the name
/// alone: both are added, or both fail with the same error, and everything else of the parser is
/// the same.
pub proof fn law_named_texts_differ_in_the_name<TResolver, D: DeserializeSchema>(
    before: ParserView,
    name: Seq<char>,
    text: Seq<char>,
    deserializer: &D,
    r: Result<Parser<TResolver>, ParseError>,
    s: Result<Parser<TResolver>, ParseError>,
)
    requires
        steady(deserializer, byte_events(encode_utf8(text))),
        added_text(before, None, byte_events(encode_utf8(text)), deserializer, r),
        added_text(before, Some(name), byte_events(encode_utf8(text)), deserializer, s),
    ensures
        match (r, s) {
            (Ok(p), Ok(q)) => {
                &&& q@ == renamed(p@, Some(name))
                &&& p@.entries.last()->name is None
            },
            (Err(e), Err(f)) => e == f,
            _ => false,
        },
{
    if let Ok(p) = r {
        if let Ok(q) = s {
            assert(p@.entries.drop_last() =~= before.entries);
            assert(q@ == renamed(p@, Some(name)));
        }
    }
}

/// A text and a document that holds its bytes give the same parser, or the same error.
pub proof fn law_texts_and_their_bytes_agree<TResolver, D: DeserializeSchema>(
    before: ParserView,
    name: Option<Seq<char>>,
    text: Seq<char>,
    bytes: Seq<u8>,
    deserializer: &D,
    r: Result<Parser<TResolver>, ParseError>,
    s: Result<Parser<TResolver>, ParseError>,
)
    requires
        bytes == encode_utf8(text),
        steady(deserializer, byte_events(bytes)),
        added_text(before, name, byte_events(encode_utf8(text)), deserializer, r),
        added_text(before, name, byte_events(bytes), deserializer, s),
    ensures
        match (r, s) {
            (Ok(p), Ok(q)) => p@ == q@,
            (Err(e), Err(f)) => e == f,
            _ => false,
        },
{
}

} // verus!
