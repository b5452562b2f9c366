//! Requests to load a schema document.

use vstd::prelude::*;

use crate::models::{opt_location, opt_ns, Dependency, Location, Namespace, TempSchemaId};
use crate::text::{encode, opt_text};
use crate::xs::{Import, SchemaContent};

verus! {

/// Why a document is requested.
#[derive(Debug, Clone, Copy, PartialEq, Eq, Structural)]
pub enum ResolveRequestType {
    /// The user asked for the document.
    UserDefined,
    /// A schema imports the document.
    ImportRequest,
    /// A schema includes, redefines or overrides the document.
    IncludeRequest,
}

/// A request to load a document.
#[derive(Debug)]
pub struct ResolveRequest {
    /// The location as it was written.
    pub requested_location: String,
    /// Why the document is requested.
    pub request_type: ResolveRequestType,
    /// The namespace that the document is expected to have.
    pub requested_ns: Option<Namespace>,
    /// The namespace of the schema that asks for the document.
    pub current_ns: Option<Namespace>,
    /// The location of the schema that asks for the document.
    pub current_location: Option<Location>,
}

/// The parts of a request.
pub struct RequestView {
    pub requested_location: Seq<char>,
    pub request_type: ResolveRequestType,
    pub requested_ns: Option<Seq<u8>>,
    pub current_ns: Option<Seq<u8>>,
    pub current_location: Option<Seq<char>>,
}

impl View for ResolveRequest {
    type V = RequestView;

    open spec fn view(&self) -> RequestView {
        RequestView {
            requested_location: self.requested_location@,
            request_type: self.request_type,
            requested_ns: opt_ns(self.requested_ns),
            current_ns: opt_ns(self.current_ns),
            current_location: opt_location(self.current_location),
        }
    }
}

/// A request of which only the location and the reason are known.
pub open spec fn plain_request(
    location: Seq<char>,
    request_type: ResolveRequestType,
) -> RequestView {
    RequestView {
        requested_location: location,
        request_type,
        requested_ns: None,
        current_ns: None,
        current_location: None,
    }
}

impl ResolveRequest {
    /// Creates a request of which only the location and the reason are known.
    pub fn new(requested_location: String, request_type: ResolveRequestType) -> (r: Self)
        ensures
            r@ == plain_request(requested_location@, request_type),
    {
        ResolveRequest {
            requested_location,
            request_type,
            requested_ns: None,
            current_ns: None,
            current_location: None,
        }
    }

    /// Sets the namespace of the schema that asks for the document.
    pub fn current_ns(self, ns: Namespace) -> (r: Self)
        ensures
            r@ == (RequestView { current_ns: Some(ns@), ..self@ }),
    {
        let mut r = self;
        r.current_ns = Some(ns);
        r
    }

    /// Sets the namespace that the document is expected to have.
    pub fn requested_ns(self, ns: Namespace) -> (r: Self)
        ensures
            r@ == (RequestView { requested_ns: Some(ns@), ..self@ }),
    {
        let mut r = self;
        r.requested_ns = Some(ns);
        r
    }

    /// Sets the location of the schema that asks for the document.
    pub fn current_location(self, location: Location) -> (r: Self)
        ensures
            r@ == (RequestView { current_location: Some(location@), ..self@ }),
    {
        let mut r = self;
        r.current_location = Some(location);
        r
    }
}

/// The bytes of a text that may be absent.
pub open spec fn opt_bytes(s: Option<Seq<char>>) -> Option<Seq<u8>> {
    match s {
        Some(s) => Some(vstd::utf8::encode_utf8(s)),
        None => None,
    }
}

/// The request of an import. An import without a location asks for nothing.
pub open spec fn import_request(
    import: Import,
    current_ns: Option<Seq<u8>>,
    current_location: Option<Seq<char>>,
) -> Option<RequestView> {
    match import.schema_location {
        Some(location) => Some(
            RequestView {
                requested_location: location@,
                request_type: ResolveRequestType::ImportRequest,
                requested_ns: opt_bytes(opt_text(import.namespace)),
                current_ns,
                current_location,
            },
        ),
        None => None,
    }
}

/// The request of an inclusion, redefinition or override.
pub open spec fn include_request(
    location: Seq<char>,
    current_ns: Option<Seq<u8>>,
    current_location: Option<Seq<char>>,
) -> RequestView {
    RequestView {
        requested_location: location,
        request_type: ResolveRequestType::IncludeRequest,
        requested_ns: None,
        current_ns,
        current_location,
    }
}

/// The request of an import.
pub fn import_req(
    import: &Import,
    current_ns: Option<Namespace>,
    current_location: Option<&Location>,
) -> (r: Option<ResolveRequest>)
    ensures
        ({
            let location = match current_location {
                Some(l) => Some(l@),
                None => None,
            };
            match r {
                Some(r) => import_request(*import, opt_ns(current_ns), location) == Some(r@),
                None => import_request(*import, opt_ns(current_ns), location) is None,
            }
        }),
        r is Some <==> import.schema_location is Some,
        r matches Some(r) ==> ({
            &&& r@.requested_location == import.schema_location->0@
            &&& r@.request_type == ResolveRequestType::ImportRequest
            &&& r@.requested_ns is Some <==> import.namespace is Some
            &&& r@.requested_ns is Some ==> r@.requested_ns->0 == vstd::utf8::encode_utf8(
                import.namespace->0@,
            )
            &&& r@.current_ns is Some <==> current_ns is Some
            &&& r@.current_ns is Some ==> r@.current_ns->0 == current_ns->0@
            &&& r@.current_location is Some <==> current_location is Some
            &&& r@.current_location is Some ==> r@.current_location->0 == current_location->0@
        }),
{
    let location = match &import.schema_location {
        Some(location) => location.clone(),
        None => {
            return None;
        },
    };
    let mut req = ResolveRequest::new(location, ResolveRequestType::ImportRequest);
    match current_ns {
        Some(ns) => {
            req = req.current_ns(ns);
        },
        None => {},
    }
    match &import.namespace {
        Some(ns) => {
            req = req.requested_ns(Namespace::new(encode(ns.as_str())));
        },
        None => {},
    }
    match current_location {
        Some(l) => {
            req = req.current_location(l.copy());
        },
        None => {},
    }
    Some(req)
}

/// The request of an inclusion, redefinition or override.
pub fn include_req(
    schema_location: &String,
    current_ns: Option<Namespace>,
    current_location: Option<&Location>,
) -> (r: ResolveRequest)
    ensures
        ({
            let location = match current_location {
                Some(l) => Some(l@),
                None => None,
            };
            r@ == include_request(schema_location@, opt_ns(current_ns), location)
        }),
        r@.requested_location == schema_location@,
        r@.request_type == ResolveRequestType::IncludeRequest,
        r@.requested_ns is None,
        r@.current_ns is Some <==> current_ns is Some,
        r@.current_ns is Some ==> r@.current_ns->0 == current_ns->0@,
        r@.current_location is Some <==> current_location is Some,
        r@.current_location is Some ==> r@.current_location->0 == current_location->0@,
{
    let mut req = ResolveRequest::new(
        schema_location.clone(),
        ResolveRequestType::IncludeRequest,
    );
    match current_ns {
        Some(ns) => {
            req = req.current_ns(ns);
        },
        None => {},
    }
    match current_location {
        Some(l) => {
            req = req.current_location(l.copy());
        },
        None => {},
    }
    req
}

/// The request that a part of a schema makes.
pub open spec fn part_request(
    c: SchemaContent,
    target: Option<Seq<u8>>,
    location: Option<Seq<char>>,
) -> Option<RequestView> {
    match c {
        SchemaContent::Import(x) => import_request(x, target, location),
        SchemaContent::Include(x) => Some(include_request(x.schema_location@, target, location)),
        SchemaContent::Redefine(x) => Some(include_request(x.schema_location@, target, location)),
        SchemaContent::Override(x) => Some(include_request(x.schema_location@, target, location)),
        _ => None,
    }
}

/// The dependency that a part of a schema stands for.
pub open spec fn part_dependency(c: SchemaContent, id: TempSchemaId) -> Dependency<TempSchemaId> {
    match c {
        SchemaContent::Include(_) => Dependency::Include(id),
        SchemaContent::Redefine(_) => Dependency::Redefine(id),
        SchemaContent::Override(_) => Dependency::Override(id),
        _ => Dependency::Import(id),
    }
}

} // verus!
