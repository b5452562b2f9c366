use std::cell::Cell;

use xsd_parser::load::Resolved;
use xsd_parser::models::{
    Location, MaybeNamespace, Namespace, NamespaceId, NamespacePrefix, QName, SchemaId,
};
use xsd_parser::ordmap::OrdMap;
use xsd_parser::parser::{NoOpResolver, Namespaces, ParseError, Parser};
use xsd_parser::reader::{DeserializeSchema, ReadError, SchemaReader, MAX_DEPTH};
use xsd_parser::request::{ResolveRequest, ResolveRequestType};
use xsd_parser::schemas::Schemas;
use xsd_parser::xs::{Import, Include, Override, Redefine, Schema, SchemaContent};

fn schema(target: Option<&str>, content: Vec<SchemaContent>) -> Schema {
    Schema { target_namespace: target.map(|x| x.to_string()), content }
}

fn ns(s: &str) -> Namespace {
    Namespace::new(s.as_bytes().to_vec())
}

fn prefix(s: &str) -> NamespacePrefix {
    NamespacePrefix::new(s.as_bytes().to_vec())
}

fn bindings(list: &[(&str, &[&str])]) -> Namespaces {
    let mut r: Namespaces = OrdMap::new();
    for (n, ps) in list {
        r.insert(MaybeNamespace(Some(ns(n))), ps.iter().map(|p| prefix(p)).collect());
    }
    r
}

fn prefix_of(s: &Schemas, id: usize) -> Option<String> {
    let info = s.get_namespace_info(&NamespaceId(id)).unwrap();
    info.prefix.as_ref().map(|p| String::from_utf8(p.0.clone()).unwrap())
}

fn known(s: &Schemas, p: &str) -> Option<usize> {
    s.resolve_prefix(&prefix(p)).map(|x| x.0)
}

/// Reads the whole document and gives back a fixed schema.
struct Fixed {
    target: Option<String>,
    locations: Vec<String>,
    tags: Cell<usize>,
}

impl Fixed {
    fn new(target: Option<&str>, locations: &[&str]) -> Self {
        Fixed {
            target: target.map(|x| x.to_string()),
            locations: locations.iter().map(|x| x.to_string()).collect(),
            tags: Cell::new(0),
        }
    }

    fn read(&self, reader: &mut SchemaReader<'_>) -> Result<Schema, ReadError> {
        loop {
            if reader.depth() >= MAX_DEPTH {
                return Err(ReadError::Content("too deep".to_string()));
            }
            match reader.read_event()? {
                quick_xml::events::Event::Eof => break,
                quick_xml::events::Event::Start(_) | quick_xml::events::Event::Empty(_) => {
                    self.tags.set(self.tags.get() + 1);
                }
                _ => {}
            }
        }
        Ok(Schema {
            target_namespace: self.target.clone(),
            content: self
                .locations
                .iter()
                .map(|l| SchemaContent::Include(Include { schema_location: l.clone() }))
                .collect(),
        })
    }
}

impl DeserializeSchema for Fixed {
    fn deserialize<'a>(
        &self,
        reader: SchemaReader<'a>,
    ) -> (Result<Schema, ReadError>, SchemaReader<'a>) {
        let mut reader = reader;
        let schema = self.read(&mut reader);
        (schema, reader)
    }
}

#[test]
fn generated_prefixes_go_to_the_later_namespaces() {
    let mut p = Parser::new()
        .with_default_namespaces()
        .alternative_prefixes(true)
        .generate_prefixes(true);
    for n in ["http://example.com/request/01", "http://example.com/request/02", "http://example.com/request/03"] {
        p.add_text(None, schema(Some(n), vec![]), bindings(&[(n, &["rq"])]));
    }
    let s = p.finish();
    assert_eq!(prefix_of(&s, 0), None);
    assert_eq!(prefix_of(&s, 1).as_deref(), Some("xs"));
    assert_eq!(prefix_of(&s, 2).as_deref(), Some("xml"));
    assert_eq!(prefix_of(&s, 3).as_deref(), Some("rq"));
    assert_eq!(prefix_of(&s, 4).as_deref(), Some("rq_4"));
    assert_eq!(prefix_of(&s, 5).as_deref(), Some("rq_5"));
    assert_eq!(known(&s, "rq"), Some(3));
    assert_eq!(known(&s, "rq_4"), Some(4));
    assert_eq!(known(&s, "rq_5"), Some(5));
}

#[test]
fn without_generated_prefixes_the_later_namespaces_have_none() {
    let mut p = Parser::new().alternative_prefixes(true);
    for n in ["a", "b"] {
        p.add_text(None, schema(Some(n), vec![]), bindings(&[(n, &["rq"])]));
    }
    let s = p.finish();
    assert_eq!(prefix_of(&s, 1).as_deref(), Some("rq"));
    assert_eq!(prefix_of(&s, 2), None);
}

#[test]
fn alternative_prefixes_of_other_documents_are_used() {
    let mut p = Parser::new().alternative_prefixes(true);
    p.add_text(None, schema(Some("a"), vec![]), bindings(&[("a", &["x"]), ("b", &["c", "d"])]));
    p.add_text(None, schema(Some("b"), vec![]), bindings(&[("b", &["x"])]));
    let s = p.finish();
    assert_eq!(prefix_of(&s, 1).as_deref(), Some("x"));
    assert_eq!(prefix_of(&s, 2).as_deref(), Some("c"));
    assert_eq!(known(&s, "c"), Some(2));
    assert_eq!(known(&s, "d"), Some(2));
}

#[test]
fn all_alternatives_of_a_namespace_are_known() {
    let mut p = Parser::new().alternative_prefixes(true);
    p.add_text(None, schema(Some("m"), vec![]), OrdMap::new());
    p.add_text(None, schema(Some("o"), vec![]), bindings(&[("m", &["a", "b"])]));
    let s = p.finish();
    assert_eq!(prefix_of(&s, 1).as_deref(), Some("a"));
    assert_eq!(known(&s, "a"), Some(1));
    assert_eq!(known(&s, "b"), Some(1));
    assert_eq!(known(&s, "c"), None);
}

#[test]
fn a_namespace_with_its_own_prefix_uses_no_others() {
    let mut p = Parser::new().alternative_prefixes(true);
    p.add_text(None, schema(Some("m"), vec![]), bindings(&[("m", &["m"])]));
    p.add_text(None, schema(Some("o"), vec![]), bindings(&[("m", &["a", "b"])]));
    let s = p.finish();
    assert_eq!(prefix_of(&s, 1).as_deref(), Some("m"));
    assert_eq!(known(&s, "m"), Some(1));
    assert_eq!(known(&s, "a"), None);
}

#[test]
fn namespaces_with_the_same_alternatives_use_one_each() {
    let mut p = Parser::new().alternative_prefixes(true);
    let both: &[&str] = &["a", "b"];
    p.add_text(None, schema(Some("m"), vec![]), OrdMap::new());
    p.add_text(None, schema(Some("n"), vec![]), OrdMap::new());
    p.add_text(None, schema(Some("o"), vec![]), bindings(&[("m", both), ("n", both)]));
    let s = p.finish();
    assert_eq!(prefix_of(&s, 1).as_deref(), Some("a"));
    assert_eq!(prefix_of(&s, 2).as_deref(), Some("b"));
    assert_eq!(prefix_of(&s, 3), None);
    assert_eq!(known(&s, "a"), Some(1));
    assert_eq!(known(&s, "b"), Some(2));
}

#[test]
fn a_namespace_that_was_added_has_its_prefix() {
    let p = Parser::new().with_namespace(prefix("p"), ns("a")).with_namespace(prefix("q"), ns("a"));
    let s = p.finish();
    assert_eq!(s.resolve_namespace(&MaybeNamespace(Some(ns("a")))).map(|x| x.0), Some(1));
    assert_eq!(prefix_of(&s, 1).as_deref(), Some("q"));
    assert_eq!(known(&s, "p"), None);
}

#[test]
fn schemas_are_numbered_from_one() {
    let mut p = Parser::new().with_anonymous_namespace();
    p.add_text(Some("one".to_string()), schema(None, vec![]), OrdMap::new());
    p.add_text(Some("two".to_string()), schema(Some("a"), vec![]), OrdMap::new());
    let s = p.finish();
    let one = s.get_schema(&SchemaId(1)).unwrap();
    let two = s.get_schema(&SchemaId(2)).unwrap();
    assert_eq!(one.name.as_deref(), Some("one"));
    assert_eq!(one.namespace_id, NamespaceId(0));
    assert_eq!(two.name.as_deref(), Some("two"));
    assert_eq!(two.namespace_id, NamespaceId(1));
    assert!(s.get_schema(&SchemaId(3)).is_none());
    assert_eq!(s.get_namespace_info(&NamespaceId(1)).unwrap().schemas, vec![SchemaId(2)]);
}

#[test]
fn nothing_is_requested_unless_includes_are_resolved() {
    let mut p = Parser::new();
    p.add_text(
        None,
        schema(
            Some("a"),
            vec![SchemaContent::Include(Include { schema_location: "b.xsd".to_string() })],
        ),
        OrdMap::new(),
    );
    assert!(p.next_pending().is_none());
    let s = p.finish();
    assert_eq!(s.get_schema(&SchemaId(1)).unwrap().dependencies.len(), 0);
}

#[test]
fn every_reference_is_requested_in_order() {
    let mut p = Parser::new().resolve_includes(true);
    p.add_text(
        None,
        schema(
            Some("a"),
            vec![
                SchemaContent::Import(Import {
                    namespace: Some("b".to_string()),
                    schema_location: Some("b.xsd".to_string()),
                }),
                SchemaContent::Import(Import { namespace: None, schema_location: None }),
                SchemaContent::Include(Include { schema_location: "c.xsd".to_string() }),
                SchemaContent::Redefine(Redefine {
                    schema_location: "d.xsd".to_string(),
                    content: vec![],
                }),
                SchemaContent::Override(Override {
                    schema_location: "e.xsd".to_string(),
                    content: vec![],
                }),
            ],
        ),
        OrdMap::new(),
    );
    let (id, req) = p.next_pending().unwrap();
    assert_eq!(id.0, 1);
    assert_eq!(req.requested_location, "b.xsd");
    assert_eq!(req.request_type, ResolveRequestType::ImportRequest);
    assert_eq!(req.requested_ns.unwrap().0, b"b".to_vec());
    assert_eq!(req.current_ns.unwrap().0, b"a".to_vec());
    assert!(req.current_location.is_none());
    for (n, l) in [(2, "c.xsd"), (3, "d.xsd"), (4, "e.xsd")] {
        let (id, req) = p.next_pending().unwrap();
        assert_eq!(id.0, n);
        assert_eq!(req.requested_location, l);
        assert_eq!(req.request_type, ResolveRequestType::IncludeRequest);
        assert!(req.requested_ns.is_none());
    }
    assert!(p.next_pending().is_none());
}

fn document(location: &str, content: &str) -> Option<Resolved> {
    Some(Resolved {
        name: None,
        location: Location(location.to_string()),
        content: content.as_bytes().to_vec(),
    })
}

#[test]
fn a_document_is_loaded_once() {
    let mut p = Parser::new().with_resolver(NoOpResolver);
    p = p.add_schema_from_url(Location("http://x/a.xsd".to_string()));
    let (id, req) = p.next_pending().unwrap();
    assert_eq!(req.request_type, ResolveRequestType::UserDefined);
    p.resolve_location(id, req, document("http://x/a.xsd", "<a/>"), &Fixed::new(Some("a"), &["b.xsd", "a.xsd"]))
        .unwrap();
    let (id, req) = p.next_pending().unwrap();
    assert_eq!(req.current_location.as_ref().unwrap().0, "http://x/a.xsd");
    p.resolve_location(id, req, document("http://x/b.xsd", "<b/>"), &Fixed::new(None, &[])).unwrap();
    let (id, req) = p.next_pending().unwrap();
    let unused = Fixed::new(None, &[]);
    p.resolve_location(id, req, document("http://x/a.xsd", "<a/>"), &unused).unwrap();
    assert_eq!(unused.tags.get(), 0);
    assert!(p.next_pending().is_none());
    let s = p.finish();
    assert!(s.get_schema(&SchemaId(3)).is_none());
    let a = s.get_schema(&SchemaId(1)).unwrap();
    assert_eq!(a.dependencies.len(), 2);
    assert_eq!(a.dependencies.key_at(0).0, "a.xsd");
    assert_eq!(*a.dependencies.value_at(0).get(), SchemaId(1));
    assert_eq!(*a.dependencies.value_at(1).get(), SchemaId(2));
    let b = s.get_schema(&SchemaId(2)).unwrap();
    assert_eq!(b.schema.target_namespace.as_deref(), Some("a"));
    assert_eq!(b.namespace_id, a.namespace_id);
}

#[test]
fn an_included_document_of_another_namespace_is_refused() {
    let mut p = Parser::new();
    let req = ResolveRequest::new("b.xsd".to_string(), ResolveRequestType::IncludeRequest)
        .current_ns(ns("a"));
    let id = p.temp_schema_id();
    match p.resolve_location(id, req, document("http://x/b.xsd", "<b/>"), &Fixed::new(Some("b"), &[])) {
        Err(ParseError::MismatchingTargetNamespace { location, found, expected }) => {
            assert_eq!(location.0, "http://x/b.xsd");
            assert_eq!(found.0, b"b".to_vec());
            assert_eq!(expected.0, b"a".to_vec());
        }
        r => panic!("{r:?}"),
    }
    let req = ResolveRequest::new("b.xsd".to_string(), ResolveRequestType::ImportRequest)
        .current_ns(ns("a"));
    assert!(p
        .resolve_location(id, req, document("http://x/b.xsd", "<b/>"), &Fixed::new(Some("b"), &[]))
        .is_ok());
}

#[test]
fn a_document_that_is_not_found_is_an_error() {
    let mut p = Parser::new();
    let req = ResolveRequest::new("b.xsd".to_string(), ResolveRequestType::UserDefined);
    let id = p.temp_schema_id();
    match p.resolve_location(id, req, None, &Fixed::new(None, &[])) {
        Err(ParseError::UnableToResolve(req)) => assert_eq!(req.requested_location, "b.xsd"),
        r => panic!("{r:?}"),
    }
}

#[test]
fn an_inherited_namespace_is_displayed() {
    let mut p = Parser::new();
    let req = ResolveRequest::new("b.xsd".to_string(), ResolveRequestType::IncludeRequest)
        .current_ns(Namespace::new(vec![b'a', 10, 0xe9]));
    let id = p.temp_schema_id();
    p.resolve_location(id, req, document("http://x/b.xsd", "<b/>"), &Fixed::new(None, &[])).unwrap();
    let s = p.finish();
    let b = s.get_schema(&SchemaId(1)).unwrap();
    assert_eq!(b.schema.target_namespace.as_deref(), Some("a\\x0A\u{e9}"));
}

#[test]
fn a_text_binds_the_prefixes_of_its_tags() {
    let text = r#"<xs:schema xmlns:xs="http://www.w3.org/2001/XMLSchema" xmlns:a="urn:a">
        <xs:element xmlns:b="urn:a" name="x"/>
    </xs:schema>"#;
    let d = Fixed::new(Some("urn:a"), &[]);
    let p = Parser::new().add_schema_from_str(text, &d).unwrap();
    assert_eq!(d.tags.get(), 2);
    let s = p.finish();
    assert_eq!(prefix_of(&s, 1).as_deref(), Some("a"));
    let d = Fixed::new(Some("urn:a"), &[]);
    let s = Parser::new()
        .with_namespace(prefix("a"), ns("urn:z"))
        .alternative_prefixes(true)
        .add_named_schema_from_str("n".to_string(), text, &d)
        .unwrap()
        .finish();
    assert_eq!(prefix_of(&s, 2).as_deref(), Some("b"));
    assert_eq!(s.get_schema(&SchemaId(1)).unwrap().name.as_deref(), Some("n"));
}

#[test]
fn a_document_in_memory_is_read_in_its_encoding() {
    let mut bytes = b"\xef\xbb\xbf".to_vec();
    bytes.extend_from_slice(br#"<a xmlns:p="urn:p"><b></b></a>"#);
    let d = Fixed::new(Some("urn:p"), &[]);
    let s = Parser::new().add_schema_from_reader(&bytes, &d).unwrap().finish();
    assert_eq!(d.tags.get(), 2);
    assert_eq!(prefix_of(&s, 1).as_deref(), Some("p"));
    let d = Fixed::new(Some("urn:p"), &[]);
    let s = Parser::new()
        .add_named_schema_from_reader("m".to_string(), &bytes, &d)
        .unwrap()
        .finish();
    assert_eq!(s.get_schema(&SchemaId(1)).unwrap().name.as_deref(), Some("m"));
}

#[test]
fn a_faulty_document_is_an_error() {
    match Parser::new().add_schema_from_str("<a></b>", &Fixed::new(None, &[])) {
        Err(ParseError::Xml { error: ReadError::Xml(_), location: None }) => {}
        _ => panic!(),
    }
    match Parser::new().add_schema_from_str("<a x=1/>", &Fixed::new(None, &[])) {
        Err(ParseError::Xml { error: ReadError::Attribute(_), location: None }) => {}
        _ => panic!(),
    }
    let mut p = Parser::new();
    let req = ResolveRequest::new("b.xsd".to_string(), ResolveRequestType::UserDefined);
    let id = p.temp_schema_id();
    match p.resolve_location(id, req, document("http://x/b.xsd", "<b"), &Fixed::new(None, &[])) {
        Err(ParseError::Xml { location: Some(l), .. }) => assert_eq!(l.0, "http://x/b.xsd"),
        r => panic!("{r:?}"),
    }
}

#[test]
fn prefixes_are_bound_up_to_the_faulty_attribute() {
    let mut r = SchemaReader::from_text(r#"<a xmlns:p="urn:1" p:xmlns="urn:2" xmlns="urn:3" x=1 xmlns:q="urn:4"/>"#);
    assert!(r.read_event().is_err());
    let n = r.into_namespaces();
    assert_eq!(n.len(), 1);
    assert_eq!(n.key_at(0).0.as_ref().unwrap().0, b"urn:1".to_vec());
    assert_eq!(n.value_at(0).len(), 1);
    assert_eq!(n.value_at(0)[0].0, b"p".to_vec());
}

#[test]
fn open_tags_are_counted() {
    let mut r = SchemaReader::from_text("<a><b/></a>");
    assert_eq!(r.depth(), 0);
    r.read_event().unwrap();
    assert_eq!(r.depth(), 1);
    r.read_event().unwrap();
    assert_eq!(r.depth(), 1);
    r.read_event().unwrap();
    assert_eq!(r.depth(), 0);
}

#[test]
fn a_file_is_requested_by_its_url() {
    let mut p = Parser::new().add_schema_from_file("/tmp/a b.xsd".to_string()).unwrap();
    let (_, req) = p.next_pending().unwrap();
    assert_eq!(req.requested_location, "file:///tmp/a%20b.xsd");
    let mut p = Parser::new().add_schema_from_file("/dir/x.y/.z.xsd".to_string()).unwrap();
    let (_, req) = p.next_pending().unwrap();
    assert_eq!(req.requested_location, "file:///dir/x.y/.z.xsd");
    let mut p = Parser::new().add_schema_from_file("/x/a-b_c~1/d".to_string()).unwrap();
    let (_, req) = p.next_pending().unwrap();
    assert_eq!(req.requested_location, "file:///x/a-b_c~1/d");
    match Parser::new().add_schema_from_file("a.xsd".to_string()) {
        Err(ParseError::InvalidFilePath(p)) => assert_eq!(p, "a.xsd"),
        _ => panic!(),
    }
}

#[test]
fn a_new_resolver_keeps_what_was_added() {
    let mut p = Parser::new().resolve_includes(true);
    p.add_text(
        None,
        schema(
            Some("a"),
            vec![SchemaContent::Include(Include { schema_location: "b.xsd".to_string() })],
        ),
        bindings(&[("a", &["p"])]),
    );
    let mut p = p.with_default_resolver();
    assert!(p.next_pending().is_none());
    assert!(p.can_finish());
    let s = p.finish();
    assert_eq!(prefix_of(&s, 1).as_deref(), Some("p"));
    assert_eq!(s.get_schema(&SchemaId(1)).unwrap().dependencies.len(), 0);
}

#[test]
fn schemas_of_two_resolvers_are_finished_together() {
    let text = "<xs:schema xmlns:xs='http://www.w3.org/2001/XMLSchema'/>";
    let d = Fixed::new(None, &[]);
    let p = Parser::new()
        .with_default_resolver()
        .add_schema_from_str(text, &d)
        .unwrap()
        .with_default_resolver()
        .add_schema_from_str(text, &d)
        .unwrap();
    assert!(p.can_finish());
    let s = p.finish();
    assert_eq!(s.schemas.len(), 2);
    assert!(s.get_schema(&SchemaId(1)).is_some());
    assert!(s.get_schema(&SchemaId(2)).is_some());
}

#[test]
fn a_document_may_be_loaded_again_by_another_resolver() {
    let mut p = Parser::new().with_resolver(NoOpResolver);
    for _ in 0..2 {
        p = p.with_resolver(NoOpResolver).add_schema_from_url(Location("http://x/a".to_string()));
        let (id, req) = p.next_pending().unwrap();
        p.resolve_location(id, req, document("http://x/a", "<a/>"), &Fixed::new(Some("a"), &[]))
            .unwrap();
    }
    assert!(p.can_finish());
    assert_eq!(p.finish().schemas.len(), 2);
}

#[test]
fn an_identifier_that_is_used_twice_cannot_be_finished() {
    let mut p = Parser::new();
    let id = p.temp_schema_id();
    p.add_schema(id, None, schema(Some("a"), vec![]), None, OrdMap::new());
    assert!(p.can_finish());
    p.add_schema(id, None, schema(Some("b"), vec![]), None, OrdMap::new());
    assert!(!p.can_finish());
}

#[test]
fn a_url_that_is_added_twice_is_loaded_once() {
    let d = Fixed::new(Some("a"), &[]);
    let mut p = Parser::new().with_resolver(NoOpResolver);
    let mut requests = 0;
    for _ in 0..2 {
        p = p.add_schema_from_url(Location("http://x/a.xsd".to_string()));
        while let Some((id, req)) = p.next_pending() {
            requests += 1;
            assert_eq!(req.requested_location, "http://x/a.xsd");
            assert_eq!(req.request_type, ResolveRequestType::UserDefined);
            assert!(req.current_ns.is_none());
            p.resolve_location(id, req, document("http://x/a.xsd", "<a/>"), &d).unwrap();
        }
    }
    assert_eq!(requests, 2);
    assert_eq!(d.tags.get(), 1);
    assert_eq!(p.finish().schemas.len(), 1);
}

#[test]
fn a_text_its_bytes_and_a_named_text_agree() {
    let text = r#"<a xmlns:p="urn:p" xmlns:q="urn:é"><b xmlns:r="urn:p"/></a>"#;
    let d = Fixed::new(Some("urn:p"), &[]);
    let list = [
        Parser::new().add_schema_from_str(text, &d).unwrap().finish(),
        Parser::new().add_schema_from_reader(text.as_bytes(), &d).unwrap().finish(),
        Parser::new().add_named_schema_from_str("n".to_string(), text, &d).unwrap().finish(),
    ];
    for (s, name) in list.iter().zip([None, None, Some("n")]) {
        let info = s.get_schema(&SchemaId(1)).unwrap();
        assert_eq!(info.name.as_deref(), name);
        assert_eq!(info.schema.target_namespace.as_deref(), Some("urn:p"));
        assert_eq!(prefix_of(s, 1).as_deref(), Some("p"));
        assert_eq!(s.namespace_infos.len(), 1);
    }
}

#[test]
fn names_are_split_at_the_first_colon() {
    let q = QName::from_bytes(b"a:b:c".to_vec());
    assert_eq!(q.local_name(), b"b:c".to_vec());
    assert!(q.namespace().is_none());
    let q = QName::from_bytes(b"abc".to_vec()).with_namespace(ns("n"));
    assert_eq!(q.local_name(), b"abc".to_vec());
    assert_eq!(q.namespace().unwrap().0, b"n".to_vec());
}

#[test]
fn a_namespace_has_no_prefix_where_all_its_alternatives_are_taken() {
    let mut p = Parser::new().alternative_prefixes(true);
    p.add_text(None, schema(Some("a"), vec![]), bindings(&[("a", &["x"])]));
    p.add_text(None, schema(Some("b"), vec![]), bindings(&[("b", &["y"])]));
    p.add_text(None, schema(Some("c"), vec![]), bindings(&[("c", &["x", "y"])]));
    let s = p.finish();
    assert_eq!(prefix_of(&s, 1).as_deref(), Some("x"));
    assert_eq!(prefix_of(&s, 2).as_deref(), Some("y"));
    assert_eq!(prefix_of(&s, 3), None);
}

#[test]
fn prefixes_differ_and_map_back() {
    let mut p = Parser::new().alternative_prefixes(true).generate_prefixes(true);
    for n in ["a", "b", "c", "d"] {
        p.add_text(None, schema(Some(n), vec![]), bindings(&[(n, &["rq", "x"])]));
    }
    let s = p.finish();
    for (id, expected) in [(1, "rq"), (2, "x"), (3, "rq_3"), (4, "rq_4")] {
        assert_eq!(prefix_of(&s, id).as_deref(), Some(expected));
        assert_eq!(known(&s, expected), Some(id));
    }
}

#[test]
fn a_made_up_prefix_is_new() {
    let mut p = Parser::new().generate_prefixes(true);
    p = p.with_namespace(prefix("a"), ns("one")).with_namespace(prefix("a_3"), ns("two"));
    p.add_text(None, schema(Some("three"), vec![]), bindings(&[("three", &["a"])]));
    let s = p.finish();
    for (id, expected) in [(1, "a"), (2, "a_3"), (3, "a_3_3")] {
        assert_eq!(prefix_of(&s, id).as_deref(), Some(expected));
        assert_eq!(known(&s, expected), Some(id));
    }
}

#[test]
fn namespaces_add_no_schemas() {
    let s = Parser::new()
        .with_default_namespaces()
        .with_namespace(prefix("p"), ns("urn:p"))
        .finish();
    assert!(s.get_schema(&SchemaId(1)).is_none());
    assert_eq!(s.resolve_namespace(&MaybeNamespace(None)).map(|x| x.0), Some(0));
    for (n, id) in [
        ("http://www.w3.org/2001/XMLSchema", 1),
        ("http://www.w3.org/XML/1998/namespace", 2),
        ("urn:p", 3),
    ] {
        assert_eq!(s.resolve_namespace(&MaybeNamespace(Some(ns(n)))).map(|x| x.0), Some(id));
        assert!(s.get_namespace_info(&NamespaceId(id)).unwrap().schemas.is_empty());
    }
}

#[test]
fn the_resolver_of_a_parser_can_be_changed() {
    let mut p = Parser::new().with_resolver(7).with_anonymous_namespace();
    assert_eq!(*p.resolver_mut(), 7);
    *p.resolver_mut() = 8;
    assert_eq!(*p.resolver_mut(), 8);
    assert_eq!(p.finish().namespace_infos.len(), 1);
}
