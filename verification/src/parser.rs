//! Collects schema documents and the requests for further documents.

use std::collections::VecDeque;

use vstd::prelude::*;

use crate::builder::{check_ids, SchemasBuilder};
use crate::buildmodel::{built, ids_distinct, prefix_cache};
use crate::buildlaws::{
    law_built_valid, law_finished_prefixes_are_unique, prefixes_bound, prefixes_map_back,
};
use crate::models::{
    copy_ns, opt_location, opt_ns, xml_namespace, xml_prefix, xs_namespace, xs_prefix, Dependency,
    Label, Location, MaybeNamespace, Namespace, NamespacePrefix, TempSchemaId,
};
use crate::ordmap::{OrdMap, OrdSet};
use crate::reader::ReadError;
use crate::request::{
    import_req, include_req, opt_bytes, part_dependency, part_request, plain_request, RequestView,
    ResolveRequest, ResolveRequestType,
};
use crate::schemas::{Schemas, SchemasView};
use crate::text::{encode, opt_text, same_bytes, show, shown};
use crate::xs::{Schema, SchemaContent, SchemaView};

verus! {

/// The prefixes that a document binds to each namespace, in document order.
pub type Namespaces = OrdMap<MaybeNamespace, Vec<NamespacePrefix>>;

/// Asks for no documents.
#[derive(Debug, Clone, Copy)]
pub struct NoOpResolver;

/// Asks for the documents of the file system.
#[derive(Debug, Clone, Copy)]
pub struct FileResolver;

/// What was added to a parser.
pub enum ParserEntry {
    AnonymousNamespace,
    Namespace { prefix: NamespacePrefix, namespace: Namespace },
    Schema {
        id: TempSchemaId,
        name: Option<String>,
        schema: Schema,
        location: Option<Location>,
        target_ns: Option<Namespace>,
        namespaces: Namespaces,
        dependencies: OrdMap<Label, Dependency<TempSchemaId>>,
    },
}

/// The parts of what was added to a parser.
pub enum ParserEntryView {
    AnonymousNamespace,
    Namespace { prefix: Seq<u8>, namespace: Seq<u8> },
    Schema {
        id: TempSchemaId,
        name: Option<Seq<char>>,
        schema: SchemaView,
        location: Option<Seq<char>>,
        target_ns: Option<Seq<u8>>,
        namespaces: Map<Option<Seq<u8>>, Seq<Seq<u8>>>,
        dependencies: Map<Seq<char>, Dependency<TempSchemaId>>,
    },
}

impl DeepView for ParserEntry {
    type V = ParserEntryView;

    open spec fn deep_view(&self) -> ParserEntryView {
        match self {
            ParserEntry::AnonymousNamespace => ParserEntryView::AnonymousNamespace,
            ParserEntry::Namespace { prefix, namespace } => ParserEntryView::Namespace {
                prefix: prefix@,
                namespace: namespace@,
            },
            ParserEntry::Schema {
                id,
                name,
                schema,
                location,
                target_ns,
                namespaces,
                dependencies,
            } => ParserEntryView::Schema {
                id: *id,
                name: opt_text(*name),
                schema: schema@,
                location: opt_location(*location),
                target_ns: opt_ns(*target_ns),
                namespaces: namespaces@,
                dependencies: dependencies@,
            },
        }
    }
}

/// Collects schema documents.
///
/// The parser keeps a queue of documents that the collected ones refer to. `TResolver` stands for
/// the way in which documents are fetched.
pub struct Parser<TResolver = NoOpResolver> {
    cache: OrdMap<Location, OrdSet<TempSchemaId>>,
    entries: Vec<ParserEntry>,
    pending: VecDeque<(TempSchemaId, ResolveRequest)>,
    next_temp_id: usize,
    resolver: TResolver,
    resolve_includes: bool,
    generate_prefixes: bool,
    alternative_prefixes: bool,
}

/// The parts of a parser.
pub struct ParserView {
    /// The documents that were loaded, and the identifiers that stand for each.
    pub cache: Map<Seq<char>, Set<TempSchemaId>>,
    /// What was added, in order.
    pub entries: Seq<ParserEntryView>,
    /// The documents to load next, in order.
    pub pending: Seq<(TempSchemaId, RequestView)>,
    /// The number of the next identifier.
    pub next: usize,
    /// Whether documents are loaded that the collected ones refer to.
    pub resolve_includes: bool,
    /// Whether prefixes are made up.
    pub generate_prefixes: bool,
    /// Whether prefixes of other documents are used.
    pub alternative_prefixes: bool,
}

/// The view of a queue of requests.
pub open spec fn queue_view(q: Seq<(TempSchemaId, ResolveRequest)>) -> Seq<
    (TempSchemaId, RequestView),
> {
    Seq::new(q.len(), |i: int| (q[i].0, q[i].1@))
}

impl<TResolver> View for Parser<TResolver> {
    type V = ParserView;

    closed spec fn view(&self) -> ParserView {
        ParserView {
            cache: self.cache@,
            entries: self.entries.deep_view(),
            pending: queue_view(self.pending@),
            next: self.next_temp_id,
            resolve_includes: self.resolve_includes,
            generate_prefixes: self.generate_prefixes,
            alternative_prefixes: self.alternative_prefixes,
        }
    }
}

/// Why a document cannot be added.
#[derive(Debug)]
pub enum ParseError {
    /// No document was found for a request.
    UnableToResolve(ResolveRequest),
    /// An included document belongs to another namespace than the one that includes it.
    MismatchingTargetNamespace { location: Location, found: Namespace, expected: Namespace },
    /// A path is no location.
    InvalidFilePath(String),
    /// A document cannot be read.
    Xml { error: ReadError, location: Option<Location> },
}

/// What was gathered from the parts of a schema.
pub struct Gathered {
    pub pending: Seq<(TempSchemaId, RequestView)>,
    pub next: usize,
    pub dependencies: Map<Seq<char>, Dependency<TempSchemaId>>,
}

/// What the first `n` parts of a schema add: each request gets an identifier and is queued, and
/// the schema depends on it under the location that was requested.
pub open spec fn gather(
    content: Seq<SchemaContent>,
    n: nat,
    target: Option<Seq<u8>>,
    location: Option<Seq<char>>,
    g: Gathered,
) -> Gathered
    decreases n,
{
    if n == 0 {
        g
    } else {
        let before = gather(content, (n - 1) as nat, target, location, g);
        match part_request(content[n - 1], target, location) {
            Some(req) => {
                let id = TempSchemaId(before.next);
                Gathered {
                    pending: before.pending.push((id, req)),
                    next: before.next.wrapping_add(1),
                    dependencies: before.dependencies.insert(
                        req.requested_location,
                        part_dependency(content[n - 1], id),
                    ),
                }
            },
            None => before,
        }
    }
}

impl ParserView {
    /// What the parts of a schema add to the parser.
    pub open spec fn gathered(self, schema: SchemaView, location: Option<Seq<char>>) -> Gathered {
        let g = Gathered { pending: self.pending, next: self.next, dependencies: Map::empty() };
        if self.resolve_includes {
            gather(schema.content, schema.content.len(), opt_bytes(schema.target), location, g)
        } else {
            g
        }
    }

    /// The parser with one more schema.
    pub open spec fn with_schema(
        self,
        id: TempSchemaId,
        name: Option<Seq<char>>,
        schema: SchemaView,
        location: Option<Seq<char>>,
        namespaces: Map<Option<Seq<u8>>, Seq<Seq<u8>>>,
    ) -> ParserView {
        let g = self.gathered(schema, location);
        ParserView {
            entries: self.entries.push(
                ParserEntryView::Schema {
                    id,
                    name,
                    schema,
                    location,
                    target_ns: opt_bytes(schema.target),
                    namespaces,
                    dependencies: g.dependencies,
                },
            ),
            pending: g.pending,
            next: g.next,
            ..self
        }
    }

    /// The parser with one more schema that did not come from a location.
    pub open spec fn with_text(
        self,
        name: Option<Seq<char>>,
        schema: SchemaView,
        namespaces: Map<Option<Seq<u8>>, Seq<Seq<u8>>>,
    ) -> ParserView {
        let taken = ParserView { next: self.next.wrapping_add(1), ..self };
        taken.with_schema(TempSchemaId(self.next), name, schema, None, namespaces)
    }

    /// The parser with one more request.
    pub open spec fn requesting(self, req: RequestView) -> ParserView {
        ParserView {
            pending: self.pending.push((TempSchemaId(self.next), req)),
            next: self.next.wrapping_add(1),
            ..self
        }
    }

    /// Whether a document belongs to another namespace than the one that includes it.
    pub open spec fn mismatching(req: RequestView, schema: SchemaView) -> bool {
        &&& req.request_type == ResolveRequestType::IncludeRequest
        &&& req.current_ns is Some
        &&& schema.target is Some
        &&& opt_bytes(schema.target) != req.current_ns
    }

    /// The schema with the namespace of the schema that asks for it, where it has none.
    pub open spec fn inheriting(req: RequestView, schema: SchemaView) -> SchemaView {
        match (req.current_ns, schema.target) {
            (Some(ns), None) => SchemaView { target: Some(shown(ns)), ..schema },
            _ => schema,
        }
    }

    /// The parser with one more schema that was loaded from a location.
    pub open spec fn with_loaded(
        self,
        id: TempSchemaId,
        req: RequestView,
        name: Option<Seq<char>>,
        location: Seq<char>,
        schema: SchemaView,
        namespaces: Map<Option<Seq<u8>>, Seq<Seq<u8>>>,
    ) -> ParserView {
        let p = self.with_schema(
            id,
            name,
            Self::inheriting(req, schema),
            Some(location),
            namespaces,
        );
        ParserView { cache: p.cache.insert(location, Set::empty().insert(id)), ..p }
    }

    /// The parser in which one more identifier stands for a document that was loaded.
    pub open spec fn with_alias(self, id: TempSchemaId, location: Seq<char>) -> ParserView {
        ParserView {
            cache: self.cache.insert(location, self.cache[location].insert(id)),
            ..self
        }
    }

    /// The parser with a new resolver.
    pub open spec fn with_new_resolver(self) -> ParserView {
        ParserView {
            entries: self.entries,
            next: self.next,
            resolve_includes: true,
            generate_prefixes: true,
            alternative_prefixes: true,
            ..new_parser()
        }
    }

    /// The collection of all schemas that were added.
    pub open spec fn finished(self) -> SchemasView {
        built(self.entries, self.cache, self.alternative_prefixes, self.generate_prefixes)
    }

    /// The parser with one more entry.
    pub open spec fn with_entry(self, entry: ParserEntryView) -> ParserView {
        ParserView { entries: self.entries.push(entry), ..self }
    }
}

/// A parser to which nothing was added.
pub open spec fn new_parser() -> ParserView {
    ParserView {
        cache: Map::empty(),
        entries: Seq::empty(),
        pending: Seq::empty(),
        next: 0,
        resolve_includes: false,
        generate_prefixes: false,
        alternative_prefixes: false,
    }
}

impl<TResolver> Parser<TResolver> {
    /// The way in which documents are fetched.
    pub closed spec fn resolver(&self) -> TResolver {
        self.resolver
    }

    /// What was added to a parser can be counted.
    pub proof fn lemma_entries_fit(&self)
        ensures
            self@.entries.len() <= usize::MAX,
    {
        assert(self@.entries.len() == self.entries.len());
    }
}

impl Parser<NoOpResolver> {
    /// Creates a parser that asks for no documents.
    pub fn new() -> (p: Self)
        ensures
            p@ == new_parser(),
            p.resolver() == NoOpResolver,
    {
        let p = Parser {
            cache: OrdMap::new(),
            entries: Vec::new(),
            pending: VecDeque::new(),
            next_temp_id: 0,
            resolver: NoOpResolver,
            resolve_includes: false,
            generate_prefixes: false,
            alternative_prefixes: false,
        };
        assert(p@.entries =~= Seq::<ParserEntryView>::empty());
        assert(p@.pending =~= Seq::<(TempSchemaId, RequestView)>::empty());
        p
    }
}

impl<TResolver> Parser<TResolver> {
    /// Sets the resolver of the file system.
    pub fn with_default_resolver(self) -> (p: Parser<FileResolver>)
        ensures
            p@ == self@.with_new_resolver(),
            p.resolver() == FileResolver,
    {
        self.with_resolver(FileResolver)
    }

    /// Sets the resolver. What was added stays, and identifiers are counted on; the queue, the
    /// loaded documents and the settings start anew.
    pub fn with_resolver<XResolver>(self, resolver: XResolver) -> (p: Parser<XResolver>)
        ensures
            p@ == self@.with_new_resolver(),
            p.resolver() == resolver,
    {
        let p = Parser {
            cache: OrdMap::new(),
            entries: self.entries,
            pending: VecDeque::new(),
            next_temp_id: self.next_temp_id,
            resolver,
            resolve_includes: true,
            generate_prefixes: true,
            alternative_prefixes: true,
        };
        assert(p@.pending =~= Seq::<(TempSchemaId, RequestView)>::empty());
        p
    }

    /// The resolver. What becomes of it becomes of the parser's resolver; nothing else changes.
    pub fn resolver_mut(&mut self) -> (r: &mut TResolver)
        ensures
            *r == old(self).resolver(),
            final(self).resolver() == *final(r),
            final(self)@ == old(self)@,
    {
        &mut self.resolver
    }

    /// Sets whether documents are loaded that the collected ones refer to.
    pub fn resolve_includes(self, value: bool) -> (p: Self)
        ensures
            p@ == (ParserView { resolve_includes: value, ..self@ }),
            p.resolver() == self.resolver(),
    {
        let mut p = self;
        p.resolve_includes = value;
        p
    }

    /// Sets whether a prefix is made up for a namespace whose own prefix is taken.
    pub fn generate_prefixes(self, value: bool) -> (p: Self)
        ensures
            p@ == (ParserView { generate_prefixes: value, ..self@ }),
            p.resolver() == self.resolver(),
    {
        let mut p = self;
        p.generate_prefixes = value;
        p
    }

    /// Sets whether a namespace whose own prefix is unknown or taken uses one that other documents
    /// bind to it. The others stand for it too, as far as no other namespace has them.
    pub fn alternative_prefixes(self, value: bool) -> (p: Self)
        ensures
            p@ == (ParserView { alternative_prefixes: value, ..self@ }),
            p.resolver() == self.resolver(),
    {
        let mut p = self;
        p.alternative_prefixes = value;
        p
    }

    /// Whether the collection can be built: whether no two schemas stand for the same document.
    pub fn can_finish(&self) -> (b: bool)
        ensures
            b == ids_distinct(self@.entries, self@.cache),
    {
        check_ids(&self.entries, &self.cache)
    }

    /// Builds the collection of all schemas that were added.
    ///
    /// No two schemas may stand for the same document: that is so of every parser whose identifiers
    /// were used once, as long as there are identifiers left.
    pub fn finish(self) -> (r: Schemas)
        requires
            ids_distinct(self@.entries, self@.cache),
        ensures
            r@ == self@.finished(),
            r@.valid(),
            prefixes_map_back(r@),
            prefixes_bound(r@, prefix_cache(self@.entries, self@.entries.len())),
    {
        proof {
            self.lemma_entries_fit();
            law_finished_prefixes_are_unique(
                self@.entries,
                self@.cache,
                self@.alternative_prefixes,
                self@.generate_prefixes,
            );
            law_built_valid(
                self@.entries,
                self@.cache,
                self@.alternative_prefixes,
                self@.generate_prefixes,
            );
        }
        SchemasBuilder::new(
            self.entries,
            self.cache,
            self.generate_prefixes,
            self.alternative_prefixes,
        ).build()
    }

    /// Adds an entry.
    fn push_entry(&mut self, entry: ParserEntry)
        ensures
            final(self)@ == old(self)@.with_entry(entry.deep_view()),
            final(self).resolver() == old(self).resolver(),
    {
        self.entries.push(entry);
        assert(self.entries.deep_view() =~= old(self).entries.deep_view().push(entry.deep_view()));
    }

    /// Adds the default namespaces: the anonymous namespace, and the namespaces of XML Schema and
    /// XML with their usual prefixes.
    pub fn with_default_namespaces(self) -> (p: Self)
        ensures
            p@ == self@.with_entry(ParserEntryView::AnonymousNamespace).with_entry(
                ParserEntryView::Namespace { prefix: xs_prefix(), namespace: xs_namespace() },
            ).with_entry(
                ParserEntryView::Namespace { prefix: xml_prefix(), namespace: xml_namespace() },
            ),
            p.resolver() == self.resolver(),
    {
        self.with_anonymous_namespace().with_namespace(
            NamespacePrefix::xs(),
            Namespace::xs(),
        ).with_namespace(NamespacePrefix::xml(), Namespace::xml())
    }

    /// Adds a namespace with its prefix.
    pub fn with_namespace(self, prefix: NamespacePrefix, namespace: Namespace) -> (p: Self)
        ensures
            p@ == self@.with_entry(
                ParserEntryView::Namespace { prefix: prefix@, namespace: namespace@ },
            ),
            p.resolver() == self.resolver(),
    {
        let mut p = self;
        p.push_entry(ParserEntry::Namespace { prefix, namespace });
        p
    }

    /// Adds the anonymous namespace, of everything that has no namespace.
    pub fn with_anonymous_namespace(self) -> (p: Self)
        ensures
            p@ == self@.with_entry(ParserEntryView::AnonymousNamespace),
            p.resolver() == self.resolver(),
    {
        let mut p = self;
        p.push_entry(ParserEntry::AnonymousNamespace);
        p
    }

    /// Takes a new identifier.
    pub fn temp_schema_id(&mut self) -> (id: TempSchemaId)
        ensures
            id == TempSchemaId(old(self)@.next),
            final(self)@ == (ParserView {
                next: old(self)@.next.wrapping_add(1),
                ..old(self)@
            }),
            final(self).resolver() == old(self).resolver(),
    {
        let id = TempSchemaId(self.next_temp_id);
        self.next_temp_id = self.next_temp_id.wrapping_add(1);
        id
    }

    /// Queues a request.
    pub fn add_pending(&mut self, req: ResolveRequest) -> (id: TempSchemaId)
        ensures
            id == TempSchemaId(old(self)@.next),
            final(self)@ == old(self)@.requesting(req@),
            final(self).resolver() == old(self).resolver(),
    {
        let id = self.temp_schema_id();
        self.pending.push_back((id, req));
        assert(self@.pending =~= old(self)@.pending.push((id, req@)));
        id
    }

    /// Takes the next request off the queue.
    pub fn next_pending(&mut self) -> (r: Option<(TempSchemaId, ResolveRequest)>)
        ensures
            match r {
                Some((id, req)) => {
                    &&& old(self)@.pending.len() > 0
                    &&& old(self)@.pending[0] == (id, req@)
                    &&& final(self)@ == (ParserView {
                        pending: old(self)@.pending.drop_first(),
                        ..old(self)@
                    })
                },
                None => old(self)@.pending.len() == 0 && final(self)@ == old(self)@,
            },
            final(self).resolver() == old(self).resolver(),
    {
        let r = self.pending.pop_front();
        proof {
            if r is Some {
                assert(self@.pending =~= old(self)@.pending.drop_first());
            } else {
                assert(self@.pending =~= old(self)@.pending);
            }
        }
        r
    }

    /// Adds a schema, and queues the documents that it refers to.
    pub fn add_schema(
        &mut self,
        id: TempSchemaId,
        name: Option<String>,
        schema: Schema,
        location: Option<Location>,
        namespaces: Namespaces,
    )
        ensures
            final(self)@ == old(self)@.with_schema(
                id,
                opt_text(name),
                schema@,
                opt_location(location),
                namespaces@,
            ),
            final(self).resolver() == old(self).resolver(),
    {
        let ghost st = self@;
        let target_ns = match &schema.target_namespace {
            Some(ns) => Some(Namespace::new(encode(ns.as_str()))),
            None => None,
        };
        let mut dependencies: OrdMap<Label, Dependency<TempSchemaId>> = OrdMap::new();
        let ghost g = Gathered { pending: st.pending, next: st.next, dependencies: Map::empty() };
        if self.resolve_includes {
            let mut i: usize = 0;
            while i < schema.content.len()
                invariant
                    i <= schema.content@.len(),
                    self.resolver() == old(self).resolver(),
                    opt_ns(target_ns) == opt_bytes(schema@.target),
                    g == (Gathered {
                        pending: st.pending,
                        next: st.next,
                        dependencies: Map::empty(),
                    }),
                    ({
                        let now = gather(
                            schema@.content,
                            i as nat,
                            opt_ns(target_ns),
                            opt_location(location),
                            g,
                        );
                        &&& self@ == (ParserView { pending: now.pending, next: now.next, ..st })
                        &&& dependencies@ == now.dependencies
                    }),
                decreases schema.content@.len() - i,
            {
                let current = match &location {
                    Some(l) => Some(l),
                    None => None,
                };
                let c = &schema.content[i];
                match c {
                    SchemaContent::Import(x) => {
                        match import_req(x, copy_ns(&target_ns), current) {
                            Some(req) => {
                                let requested = req.requested_location.clone();
                                let id = self.add_pending(req);
                                dependencies.insert(Label(requested), Dependency::Import(id));
                            },
                            None => {},
                        }
                    },
                    SchemaContent::Include(x) => {
                        let req = include_req(&x.schema_location, copy_ns(&target_ns), current);
                        let requested = req.requested_location.clone();
                        let id = self.add_pending(req);
                        dependencies.insert(Label(requested), Dependency::Include(id));
                    },
                    SchemaContent::Redefine(x) => {
                        let req = include_req(&x.schema_location, copy_ns(&target_ns), current);
                        let requested = req.requested_location.clone();
                        let id = self.add_pending(req);
                        dependencies.insert(Label(requested), Dependency::Redefine(id));
                    },
                    SchemaContent::Override(x) => {
                        let req = include_req(&x.schema_location, copy_ns(&target_ns), current);
                        let requested = req.requested_location.clone();
                        let id = self.add_pending(req);
                        dependencies.insert(Label(requested), Dependency::Override(id));
                    },
                    _ => {},
                }
                i = i + 1;
            }
        }
        self.push_entry(
            ParserEntry::Schema {
                id,
                name,
                schema,
                location,
                target_ns,
                namespaces,
                dependencies,
            },
        );
    }

    /// Adds a schema that did not come from a location.
    pub fn add_text(&mut self, name: Option<String>, schema: Schema, namespaces: Namespaces)
        ensures
            final(self)@ == old(self)@.with_text(opt_text(name), schema@, namespaces@),
            final(self).resolver() == old(self).resolver(),
    {
        let id = self.temp_schema_id();
        self.add_schema(id, name, schema, None, namespaces);
    }

    /// Whether a document was loaded already. If so, the identifier stands for it too.
    pub fn find_loaded(&mut self, id: TempSchemaId, location: &Location) -> (b: bool)
        ensures
            b == old(self)@.cache.contains_key(location@),
            final(self)@ == if b {
                old(self)@.with_alias(id, location@)
            } else {
                old(self)@
            },
            final(self).resolver() == old(self).resolver(),
    {
        match self.cache.remove(location) {
            Some(ids) => {
                let mut ids = ids;
                ids.insert(id);
                let ghost v = ids@;
                self.cache.insert(location.copy(), ids);
                assert(self.cache@ =~= old(self).cache@.insert(location@, v));
                true
            },
            None => {
                assert(self.cache@ =~= old(self).cache@);
                false
            },
        }
    }

    /// Adds a schema that was loaded from a location, unless it belongs to another namespace than
    /// the one that includes it.
    pub fn place_schema(
        &mut self,
        id: TempSchemaId,
        req: ResolveRequest,
        name: Option<String>,
        location: Location,
        schema: Schema,
        namespaces: Namespaces,
    ) -> (r: Result<(), ParseError>)
        ensures
            match r {
                Ok(()) => {
                    &&& !ParserView::mismatching(req@, schema@)
                    &&& final(self)@ == old(self)@.with_loaded(
                        id,
                        req@,
                        opt_text(name),
                        location@,
                        schema@,
                        namespaces@,
                    )
                },
                Err(ParseError::MismatchingTargetNamespace { location: l, found, expected }) => {
                    &&& ParserView::mismatching(req@, schema@)
                    &&& final(self)@ == old(self)@
                    &&& l@ == location@
                    &&& Some(found@) == opt_bytes(schema@.target)
                    &&& Some(expected@) == req@.current_ns
                },
                Err(_) => false,
            },
            final(self).resolver() == old(self).resolver(),
    {
        let mut schema = schema;
        let ghost given = schema@;
        match req.current_ns {
            Some(current_ns) => {
                match &schema.target_namespace {
                    Some(ns) => {
                        let found = encode(ns.as_str());
                        let included = match req.request_type {
                            ResolveRequestType::IncludeRequest => true,
                            _ => false,
                        };
                        if included && !same_bytes(found.as_slice(), current_ns.0.as_slice()) {
                            return Err(
                                ParseError::MismatchingTargetNamespace {
                                    location,
                                    found: Namespace::new(found),
                                    expected: current_ns,
                                },
                            );
                        }
                    },
                    None => {
                        schema.target_namespace = Some(show(current_ns.0.as_slice()));
                    },
                }
            },
            None => {},
        }
        assert(schema@ == ParserView::inheriting(req@, given));
        let key = location.copy();
        self.add_schema(id, name, schema, Some(location), namespaces);
        let mut ids: OrdSet<TempSchemaId> = OrdSet::new();
        ids.insert(id);
        self.cache.insert(key, ids);
        Ok(())
    }

    /// Queues the document of a URL.
    pub fn add_schema_from_url(self, url: Location) -> (p: Self)
        ensures
            p@ == self@.requesting(plain_request(url@, ResolveRequestType::UserDefined)),
            p.resolver() == self.resolver(),
    {
        let mut p = self;
        let _id = p.add_pending(ResolveRequest::new(url.0, ResolveRequestType::UserDefined));
        p
    }
}

} // verus!
