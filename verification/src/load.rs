//! Adds documents to a parser.

use vstd::prelude::*;
use vstd::utf8::encode_utf8;

use crate::models::{opt_location, Location, TempSchemaId};
use crate::parser::{ParseError, Parser, ParserView};
use crate::reader::{
    byte_events, deserialized, new_reader, DeserializeSchema, EventView, SchemaReader,
};
use crate::request::{opt_bytes, plain_request, RequestView, ResolveRequest, ResolveRequestType};
use crate::text::opt_text;
use crate::xs::Schema;

verus! {

/// The start of the URL of a file.
pub open spec fn file_scheme() -> Seq<char> {
    "file://"@
}

/// The characters of a path that stand for themselves in a URL: letters, digits, `-`, `_`, `~` and
/// `.`.
pub open spec fn plain_char(c: char) -> bool {
    ||| 'a' <= c <= 'z'
    ||| 'A' <= c <= 'Z'
    ||| '0' <= c <= '9'
    ||| c == '-'
    ||| c == '_'
    ||| c == '~'
    ||| c == '.'
}

/// Whether a path, or a component of it, ends at a place.
pub open spec fn ends_at(path: Seq<char>, i: int) -> bool {
    i == path.len() || path[i] == '/'
}

/// Whether the component at a place is `.` or `..`, or empty.
pub open spec fn special_component(path: Seq<char>, i: int) -> bool {
    ||| ends_at(path, i)
    ||| path[i] == '.' && ends_at(path, i + 1)
    ||| path[i] == '.' && path[i + 1] == '.' && ends_at(path, i + 2)
}

/// A path of plain components: each one comes after a single `/`, and is neither `.` nor `..`.
pub open spec fn plain_path(path: Seq<char>) -> bool {
    &&& path.len() > 0
    &&& path[0] == '/'
    &&& forall|i: int| 0 <= i < path.len() ==> (#[trigger] path[i]) == '/' || plain_char(path[i])
    &&& forall|i: int|
        0 <= i < path.len() && (#[trigger] path[i]) == '/' ==> !special_component(path, i + 1)
}

/// `Url::from_file_path` turns an absolute path into a URL with the scheme `file`, whose path is
/// not empty. A relative path, such as the empty one, has no URL. A plain path is written in the
/// URL as it is.
///
/// Which paths are absolute, and how the URL of any other path is written, depends on the machine
/// and is not stated.
#[verifier::external_body]
fn file_url(path: &str) -> (r: Option<String>)
    ensures
        match r {
            Some(url) => {
                &&& path@.len() > 0
                &&& url@.len() > file_scheme().len()
                &&& url@.take(file_scheme().len() as int) == file_scheme()
                &&& plain_path(path@) ==> url@ == file_scheme() + path@
            },
            None => true,
        },
{
    url::Url::from_file_path(path).ok().map(String::from)
}

/// Whether a path has the given URL, or none, on the machine.
pub closed spec fn has_file_url(path: Seq<char>, url: Option<Seq<char>>) -> bool {
    exists|s: &str, r: Option<String>| #[trigger]
        call_ensures(file_url, (s,), r) && s@ == path && opt_text(r) == url
}

/// What the URL of a file looks like: it has the scheme `file`, and a plain path is written in it
/// as it is.
pub proof fn law_file_urls_name_the_path(path: Seq<char>, url: Seq<char>)
    requires
        has_file_url(path, Some(url)),
    ensures
        path.len() > 0,
        url.len() > file_scheme().len(),
        url.take(file_scheme().len() as int) == file_scheme(),
        plain_path(path) ==> url == file_scheme() + path,
{
}

/// A document that was found for a request.
#[derive(Debug)]
pub struct Resolved {
    /// The name of the schema, if it has one.
    pub name: Option<String>,
    /// Where the document is.
    pub location: Location,
    /// The bytes of the document.
    pub content: Vec<u8>,
}

/// Whether a parser, or an error, is what comes of adding the schema of a text: what the
/// deserializer makes of the events of the text is added, or its error is reported.
pub open spec fn added_text<TResolver, D: DeserializeSchema>(
    before: ParserView,
    name: Option<Seq<char>>,
    events: Map<nat, Option<EventView>>,
    deserializer: &D,
    r: Result<Parser<TResolver>, ParseError>,
) -> bool {
    match r {
        Ok(after) => exists|schema: Schema, namespaces: Map<Option<Seq<u8>>, Seq<Seq<u8>>>| #[trigger]
            deserialized(deserializer, events, Ok(schema), namespaces) && after@
                == before.with_text(name, schema@, namespaces),
        Err(ParseError::Xml { error, location }) => location is None && exists|
            namespaces: Map<Option<Seq<u8>>, Seq<Seq<u8>>>,
        | #[trigger] deserialized(deserializer, events, Err(error), namespaces),
        Err(_) => false,
    }
}

/// Whether a parser, and an error if there is one, is what comes of adding a document: what the
/// deserializer makes of the events of the document is added, unless it is refused, or the
/// deserializer's error is reported.
pub open spec fn added_document<D: DeserializeSchema>(
    before: ParserView,
    id: TempSchemaId,
    req: RequestView,
    d: Resolved,
    deserializer: &D,
    after: ParserView,
    r: Result<(), ParseError>,
) -> bool {
    let events = byte_events(d.content@);
    match r {
        Ok(()) => exists|schema: Schema, namespaces: Map<Option<Seq<u8>>, Seq<Seq<u8>>>|
            {
                &&& #[trigger] deserialized(deserializer, events, Ok(schema), namespaces)
                &&& !ParserView::mismatching(req, schema@)
                &&& after == before.with_loaded(
                    id,
                    req,
                    opt_text(d.name),
                    d.location@,
                    schema@,
                    namespaces,
                )
            },
        Err(ParseError::Xml { error, location }) => {
            &&& opt_location(location) == Some(d.location@)
            &&& exists|namespaces: Map<Option<Seq<u8>>, Seq<Seq<u8>>>| #[trigger]
                deserialized(deserializer, events, Err(error), namespaces)
            &&& after == before
        },
        Err(ParseError::MismatchingTargetNamespace { location, found, expected }) => {
            &&& location@ == d.location@
            &&& exists|schema: Schema, namespaces: Map<Option<Seq<u8>>, Seq<Seq<u8>>>|
                {
                    &&& #[trigger] deserialized(deserializer, events, Ok(schema), namespaces)
                    &&& ParserView::mismatching(req, schema@)
                    &&& Some(found@) == opt_bytes(schema@.target)
                }
            &&& Some(expected@) == req.current_ns
            &&& after == before
        },
        Err(_) => false,
    }
}

impl<TResolver> Parser<TResolver> {
    /// Adds the schema of a text.
    pub fn add_schema_from_str<D: DeserializeSchema>(
        self,
        schema: &str,
        deserializer: &D,
    ) -> (r: Result<Self, ParseError>)
        ensures
            added_text(self@, None, byte_events(encode_utf8(schema@)), deserializer, r),
            r matches Ok(p) ==> p.resolver() == self.resolver(),
    {
        self.add_named_schema_from_str_impl(None, schema, deserializer)
    }

    /// Adds the schema of a text under a name.
    pub fn add_named_schema_from_str<D: DeserializeSchema>(
        self,
        name: String,
        schema: &str,
        deserializer: &D,
    ) -> (r: Result<Self, ParseError>)
        ensures
            added_text(self@, Some(name@), byte_events(encode_utf8(schema@)), deserializer, r),
            r matches Ok(p) ==> p.resolver() == self.resolver(),
    {
        self.add_named_schema_from_str_impl(Some(name), schema, deserializer)
    }

    /// Adds the schema of a text.
    pub fn add_named_schema_from_str_impl<D: DeserializeSchema>(
        self,
        name: Option<String>,
        schema: &str,
        deserializer: &D,
    ) -> (r: Result<Self, ParseError>)
        ensures
            added_text(self@, opt_text(name), byte_events(encode_utf8(schema@)), deserializer, r),
            r matches Ok(p) ==> p.resolver() == self.resolver(),
    {
        self.add_read(name, SchemaReader::from_text(schema), deserializer)
    }

    /// Adds the schema of a document in memory.
    pub fn add_schema_from_reader<D: DeserializeSchema>(
        self,
        document: &[u8],
        deserializer: &D,
    ) -> (r: Result<Self, ParseError>)
        ensures
            added_text(self@, None, byte_events(document@), deserializer, r),
            r matches Ok(p) ==> p.resolver() == self.resolver(),
    {
        self.add_named_schema_from_reader_impl(None, document, deserializer)
    }

    /// Adds the schema of a document in memory under a name.
    pub fn add_named_schema_from_reader<D: DeserializeSchema>(
        self,
        name: String,
        document: &[u8],
        deserializer: &D,
    ) -> (r: Result<Self, ParseError>)
        ensures
            added_text(self@, Some(name@), byte_events(document@), deserializer, r),
            r matches Ok(p) ==> p.resolver() == self.resolver(),
    {
        self.add_named_schema_from_reader_impl(Some(name), document, deserializer)
    }

    /// Adds the schema of a document in memory.
    pub fn add_named_schema_from_reader_impl<D: DeserializeSchema>(
        self,
        name: Option<String>,
        document: &[u8],
        deserializer: &D,
    ) -> (r: Result<Self, ParseError>)
        ensures
            added_text(self@, opt_text(name), byte_events(document@), deserializer, r),
            r matches Ok(p) ==> p.resolver() == self.resolver(),
    {
        self.add_read(name, SchemaReader::from_bytes(document), deserializer)
    }

    /// Adds the schema that a new reader reads.
    fn add_read<D: DeserializeSchema>(
        self,
        name: Option<String>,
        reader: SchemaReader<'_>,
        deserializer: &D,
    ) -> (r: Result<Self, ParseError>)
        requires
            reader@ == new_reader(reader@.unread),
        ensures
            added_text(self@, opt_text(name), reader@.unread, deserializer, r),
            r matches Ok(p) ==> p.resolver() == self.resolver(),
    {
        let mut p = self;
        let ghost events = reader@.unread;
        let (schema, reader) = deserializer.deserialize(reader);
        assert(deserialized(deserializer, events, schema, reader@.namespaces));
        match schema {
            Ok(schema) => {
                p.add_text(name, schema, reader.into_namespaces());
                Ok(p)
            },
            Err(error) => Err(ParseError::Xml { error, location: None }),
        }
    }

    /// Queues the document of a file, whose path is absolute.
    pub fn add_schema_from_file(self, path: String) -> (r: Result<Self, ParseError>)
        ensures
            match r {
                Ok(p) => exists|url: Seq<char>| #[trigger]
                    has_file_url(path@, Some(url)) && p@ == self@.requesting(
                        plain_request(url, ResolveRequestType::UserDefined),
                    ),
                Err(e) => e == ParseError::InvalidFilePath(path) && has_file_url(path@, None),
            },
            r matches Ok(p) ==> p.resolver() == self.resolver(),
    {
        let url = file_url(path.as_str());
        assert(has_file_url(path@, opt_text(url)));
        match url {
            Some(url) => Ok(self.add_schema_from_url(Location(url))),
            None => Err(ParseError::InvalidFilePath(path)),
        }
    }

    /// Handles what was found for a request.
    ///
    /// A document that was loaded before is not loaded again: the identifier of the request stands
    /// for it too.
    pub fn resolve_location<D: DeserializeSchema>(
        &mut self,
        id: TempSchemaId,
        req: ResolveRequest,
        found: Option<Resolved>,
        deserializer: &D,
    ) -> (r: Result<(), ParseError>)
        ensures
            match found {
                None => r == Err::<(), ParseError>(ParseError::UnableToResolve(req))
                    && final(self)@ == old(self)@,
                Some(d) => if old(self)@.cache.contains_key(d.location@) {
                    r is Ok && final(self)@ == old(self)@.with_alias(id, d.location@)
                } else {
                    added_document(old(self)@, id, req@, d, deserializer, final(self)@, r)
                },
            },
            final(self).resolver() == old(self).resolver(),
    {
        let found = match found {
            Some(found) => found,
            None => {
                return Err(ParseError::UnableToResolve(req));
            },
        };
        if self.find_loaded(id, &found.location) {
            return Ok(());
        }
        let reader = SchemaReader::from_bytes(found.content.as_slice());
        let (schema, reader) = deserializer.deserialize(reader);
        assert(deserialized(
            deserializer,
            byte_events(found.content@),
            schema,
            reader@.namespaces,
        ));
        match schema {
            Ok(schema) => {
                let namespaces = reader.into_namespaces();
                self.place_schema(id, req, found.name, found.location, schema, namespaces)
            },
            Err(error) => Err(ParseError::Xml { error, location: Some(found.location) }),
        }
    }
}

} // verus!
