use std::cell::RefCell;

use xsd_parser::ident::{IdentType, Name, TypeIdent};
use xsd_parser::identcache::{IdentCache, InterpreterError};
use xsd_parser::load::Resolved;
use xsd_parser::models::{Dependency, Label, Location, Namespace, NamespaceId, QName, SchemaId};
use xsd_parser::naming::MetaTypes;
use xsd_parser::nodes::{Node, NodeCacheEntry, NodeDependency, NodeDependencyKey};
use xsd_parser::ordmap::OrdMap;
use xsd_parser::parser::{NoOpResolver, Parser};
use xsd_parser::processor::State;
use xsd_parser::reader::{DeserializeSchema, ReadError, SchemaReader};
use xsd_parser::schemas::{SchemaInfo, Schemas};
use xsd_parser::xs::{
    AttributeGroupType, AttributeGroupTypeContent, AttributeType, ComplexBaseType,
    ComplexBaseTypeContent, ComplexContent, ComplexContentContent, ElementType, ElementTypeContent,
    ExtensionType, ExtensionTypeContent, GroupType, GroupTypeContent, Import, Include, List,
    Override, OverrideContent, Redefine, RedefineContent, Restriction, RestrictionType, Schema,
    SchemaContent, SimpleBaseType, SimpleBaseTypeContent, SimpleContent, SimpleContentContent,
    Union,
};

const XS: &str = "http://www.w3.org/2001/XMLSchema";

fn q(ns: &str, name: &str) -> QName {
    QName::from_bytes(format!("p:{name}").into_bytes())
        .with_namespace(Namespace::new(ns.as_bytes().to_vec()))
}

fn schema(target: &str, content: Vec<SchemaContent>) -> Schema {
    Schema { target_namespace: Some(target.to_string()), content }
}

fn simple(name: Option<&str>, id: usize, content: Vec<SimpleBaseTypeContent>) -> SimpleBaseType {
    SimpleBaseType { id, name: name.map(|x| x.to_string()), content }
}

fn restriction(base: QName) -> SimpleBaseTypeContent {
    SimpleBaseTypeContent::Restriction(Restriction { base: Some(base), content: vec![] })
}

fn element(name: Option<&str>, id: usize) -> ElementType {
    ElementType {
        id,
        name: name.map(|x| x.to_string()),
        ref_: None,
        type_: None,
        substitution_group: None,
        content: vec![],
    }
}

fn attribute(name: Option<&str>) -> AttributeType {
    AttributeType { name: name.map(|x| x.to_string()), ref_: None, type_: None, simple_type: None }
}

fn complex(name: &str, content: Vec<ComplexBaseTypeContent>) -> ComplexBaseType {
    ComplexBaseType { name: Some(name.to_string()), content }
}

fn group(name: Option<&str>, ref_: Option<QName>, content: Vec<GroupTypeContent>) -> GroupType {
    GroupType { name: name.map(|x| x.to_string()), ref_, content }
}

/// The built-in types that the tests refer to.
fn builtin() -> Schema {
    schema(
        XS,
        vec![
            SchemaContent::SimpleType(simple(Some("string"), 1, vec![])),
            SchemaContent::SimpleType(simple(Some("int"), 2, vec![])),
        ],
    )
}

/// Namespace 0 is anonymous, 1 is XML Schema, 2 XML. Schema 1 holds the built-in types.
fn schemas(list: Vec<Schema>) -> Schemas {
    let mut p = Parser::new().with_default_namespaces();
    p.add_text(None, builtin(), OrdMap::new());
    for s in list {
        p.add_text(None, s, OrdMap::new());
    }
    p.finish()
}

fn ident(ns: usize, schema: usize, type_: IdentType, name: &str) -> TypeIdent {
    TypeIdent {
        ns: NamespaceId(ns),
        schema: SchemaId(schema),
        name: Name::new_named(name.to_string()),
        type_,
    }
}

fn made_up(ns: usize, schema: usize, type_: IdentType, name: &str) -> TypeIdent {
    TypeIdent {
        ns: NamespaceId(ns),
        schema: SchemaId(schema),
        name: Name::new_generated(name.to_string()),
        type_,
    }
}

fn named(ns: usize, type_: IdentType, name: &str) -> NodeDependencyKey {
    NodeDependencyKey::Named(NamespaceId(ns), type_, name.to_string())
}

fn entry<'x, 'a>(s: &'x State<'a>, i: &TypeIdent) -> &'x NodeCacheEntry<'a> {
    match s.node_cache.get(i) {
        Some(e) => e,
        None => panic!("no entry for {i:?}"),
    }
}

fn strong(e: &NodeCacheEntry<'_>, k: NodeDependencyKey, i: TypeIdent) {
    match e.dependencies.get(&k) {
        Some(NodeDependency::Strong(j)) => assert!(j.same(&i), "{j:?} {i:?}"),
        x => panic!("{x:?}"),
    }
}

fn weak(e: &NodeCacheEntry<'_>, k: NodeDependencyKey, i: TypeIdent) {
    match e.dependencies.get(&k) {
        Some(NodeDependency::Weak(j)) => assert!(j.same(&i), "{j:?} {i:?}"),
        x => panic!("{x:?}"),
    }
}

fn lazy(e: &NodeCacheEntry<'_>, k: NodeDependencyKey, i: TypeIdent) {
    match e.dependencies.get(&k) {
        Some(NodeDependency::Lazy(j)) => assert!(j.same(&i), "{j:?} {i:?}"),
        x => panic!("{x:?}"),
    }
}

#[test]
fn types_of_other_schemas_are_found_without_resolved_imports() {
    let import = || {
        SchemaContent::Import(Import {
            namespace: Some("urn:common".to_string()),
            schema_location: Some("common_types.xsd".to_string()),
        })
    };
    let request = |ns: &str| {
        let mut e = element(Some("Request"), 1);
        e.type_ = Some(q("urn:common", "HeaderT"));
        schema(ns, vec![import(), SchemaContent::Element(e)])
    };
    let s = schemas(vec![
        schema(
            "urn:common",
            vec![SchemaContent::ComplexType(complex("HeaderT", vec![]))],
        ),
        request("urn:request:1"),
        request("urn:request:2"),
    ]);
    let mut st = State::new(&s);
    assert!(st.can_create_node_cache());
    st.create_node_cache().unwrap();
    for (ns, id) in [(4, 3), (5, 4)] {
        let e = entry(&st, &ident(ns, id, IdentType::Element, "Request"));
        weak(e, named(3, IdentType::Type, "HeaderT"), ident(3, 2, IdentType::Type, "HeaderT"));
        assert_eq!(e.dependencies.len(), 1);
        assert!(e.redefine_base.is_none());
        assert!(matches!(e.node, Node::Element(_)));
    }
}

#[test]
fn a_later_definition_of_the_same_schema_is_found() {
    let s = schemas(vec![schema(
        "urn:a",
        vec![
            SchemaContent::SimpleType(simple(Some("A"), 1, vec![restriction(q("urn:a", "B"))])),
            SchemaContent::SimpleType(simple(Some("B"), 2, vec![restriction(q(XS, "string"))])),
        ],
    )]);
    let mut st = State::new(&s);
    assert!(st.can_create_node_cache());
    st.create_node_cache().unwrap();
    let a = entry(&st, &ident(3, 2, IdentType::Type, "A"));
    strong(a, named(3, IdentType::Type, "B"), ident(3, 2, IdentType::Type, "B"));
    let b = entry(&st, &ident(3, 2, IdentType::Type, "B"));
    strong(b, named(1, IdentType::Type, "string"), ident(1, 1, IdentType::Type, "string"));
}

#[test]
fn unknown_references_are_errors() {
    let with = |base: QName| {
        schemas(vec![schema(
            "urn:a",
            vec![SchemaContent::SimpleType(simple(Some("A"), 1, vec![restriction(base)]))],
        )])
    };
    let s = with(q("urn:unknown", "B"));
    match State::new(&s).create_node_cache() {
        Err(InterpreterError::UnknownNamespace(n)) => assert_eq!(n.0, b"urn:unknown".to_vec()),
        r => panic!("{r:?}"),
    }
    let s = with(q(XS, "unknown"));
    match State::new(&s).create_node_cache() {
        Err(InterpreterError::UnknownType(i)) => {
            assert_eq!(i.name.as_str(), "unknown");
            assert_eq!(i.schema, SchemaId(0));
        }
        r => panic!("{r:?}"),
    }
    let s = with(QName::from_bytes(b"a:\xff".to_vec()));
    match State::new(&s).create_node_cache() {
        Err(InterpreterError::InvalidLocalName(b)) => assert_eq!(b, b"\xff".to_vec()),
        r => panic!("{r:?}"),
    }
}

#[test]
fn a_name_without_namespace_belongs_to_the_schema() {
    let s = schemas(vec![schema(
        "urn:a",
        vec![
            SchemaContent::SimpleType(simple(Some("B"), 2, vec![])),
            SchemaContent::SimpleType(simple(
                Some("A"),
                1,
                vec![restriction(QName::from_bytes(b"B".to_vec()))],
            )),
        ],
    )]);
    let mut st = State::new(&s);
    assert!(st.can_create_node_cache());
    st.create_node_cache().unwrap();
    let a = entry(&st, &ident(3, 2, IdentType::Type, "A"));
    strong(a, named(3, IdentType::Type, "B"), ident(3, 2, IdentType::Type, "B"));
}

#[test]
fn the_items_of_a_list_are_named_after_it() {
    let list = |name: Option<&str>, item: Option<QName>| {
        SimpleBaseTypeContent::List(List {
            item_type: item,
            simple_type: Some(Box::new(simple(name, 7, vec![restriction(q(XS, "int"))]))),
        })
    };
    let s = schemas(vec![schema(
        "urn:a",
        vec![
            SchemaContent::SimpleType(simple(Some("FooType"), 1, vec![list(None, None)])),
            SchemaContent::SimpleType(simple(Some("Bar"), 2, vec![list(Some("Own"), None)])),
            SchemaContent::SimpleType(simple(
                Some("Baz"),
                3,
                vec![list(None, Some(q(XS, "string")))],
            )),
        ],
    )]);
    let mut st = State::new(&s);
    assert!(st.can_create_node_cache());
    st.create_node_cache().unwrap();
    for (of, item) in [("FooType", "FooItem"), ("Bar", "Own"), ("Baz", "string")] {
        let e = entry(&st, &ident(3, 2, IdentType::Type, of));
        let i = ident(3, 2, IdentType::Type, item);
        weak(e, NodeDependencyKey::InlineSimpleType(7), i.copy());
        strong(
            entry(&st, &i),
            named(1, IdentType::Type, "int"),
            ident(1, 1, IdentType::Type, "int"),
        );
    }
    weak(
        entry(&st, &ident(3, 2, IdentType::Type, "Baz")),
        named(1, IdentType::Type, "string"),
        ident(1, 1, IdentType::Type, "string"),
    );
}

#[test]
fn definitions_in_place_are_named_after_what_they_stand_in() {
    let mut inner = element(Some("Child"), 9);
    inner.content = vec![ElementTypeContent::ComplexType(ComplexBaseType {
        name: None,
        content: vec![],
    })];
    let mut attr = attribute(Some("attr"));
    attr.simple_type = Some(simple(None, 8, vec![restriction(q(XS, "int"))]));
    let mut nested = element(None, 10);
    nested.content = vec![];
    let s = schemas(vec![schema(
        "urn:a",
        vec![
            SchemaContent::SimpleType(simple(
                Some("U"),
                1,
                vec![SimpleBaseTypeContent::Union(Union {
                    member_types: Some(vec![q(XS, "string"), q(XS, "int")]),
                    simple_type: vec![simple(None, 5, vec![]), simple(Some("Own"), 6, vec![])],
                })],
            )),
            SchemaContent::ComplexType(complex(
                "C",
                vec![
                    ComplexBaseTypeContent::Sequence(group(
                        None,
                        None,
                        vec![GroupTypeContent::Element(inner)],
                    )),
                    ComplexBaseTypeContent::Attribute(attr),
                ],
            )),
            SchemaContent::Group(group(
                Some("G"),
                None,
                vec![GroupTypeContent::Choice(group(
                    None,
                    None,
                    vec![GroupTypeContent::Element(nested)],
                ))],
            )),
        ],
    )]);
    let mut st = State::new(&s);
    assert!(st.can_create_node_cache());
    st.create_node_cache().unwrap();
    let u = entry(&st, &ident(3, 2, IdentType::Type, "U"));
    weak(u, named(1, IdentType::Type, "string"), ident(1, 1, IdentType::Type, "string"));
    weak(u, named(1, IdentType::Type, "int"), ident(1, 1, IdentType::Type, "int"));
    weak(u, NodeDependencyKey::InlineSimpleType(5), made_up(3, 2, IdentType::Type, "U1"));
    weak(u, NodeDependencyKey::InlineSimpleType(6), made_up(3, 2, IdentType::Type, "UOwn"));
    let c = entry(&st, &ident(3, 2, IdentType::Type, "C"));
    weak(c, NodeDependencyKey::InlineElement(9), made_up(3, 2, IdentType::Element, "CChild"));
    weak(c, NodeDependencyKey::InlineSimpleType(8), made_up(3, 2, IdentType::Type, "Cattr"));
    let g = entry(&st, &ident(3, 2, IdentType::Group, "G"));
    weak(g, NodeDependencyKey::InlineElement(10), made_up(3, 2, IdentType::Element, "Temp5"));
}

#[test]
fn groups_and_attribute_groups_are_looked_up_late() {
    let mut r = element(None, 3);
    r.ref_ = Some(q("urn:a", "E"));
    let mut a = attribute(None);
    a.ref_ = Some(q("urn:a", "At"));
    a.type_ = Some(q(XS, "int"));
    let mut head = element(Some("E"), 4);
    head.substitution_group = Some(vec![q("urn:a", "H")]);
    let mut typed = attribute(Some("At"));
    typed.type_ = Some(q(XS, "string"));
    let s = schemas(vec![schema(
        "urn:a",
        vec![
            SchemaContent::Group(group(Some("G"), None, vec![GroupTypeContent::Element(r)])),
            SchemaContent::AttributeGroup(AttributeGroupType {
                name: Some("AG".to_string()),
                ref_: None,
                content: vec![AttributeGroupTypeContent::Attribute(a)],
            }),
            SchemaContent::Element(head),
            SchemaContent::Element(element(Some("H"), 5)),
            SchemaContent::Attribute(typed),
            SchemaContent::ComplexType(complex(
                "C",
                vec![
                    ComplexBaseTypeContent::Group(group(None, Some(q("urn:a", "G")), vec![])),
                    ComplexBaseTypeContent::AttributeGroup(AttributeGroupType {
                        name: None,
                        ref_: Some(q("urn:a", "AG")),
                        content: vec![],
                    }),
                ],
            )),
            SchemaContent::ComplexType(complex(
                "D",
                vec![
                    ComplexBaseTypeContent::ComplexContent(ComplexContent {
                        content: vec![ComplexContentContent::Extension(ExtensionType {
                            base: q("urn:a", "C"),
                            content: vec![ExtensionTypeContent::Sequence(group(
                                None,
                                None,
                                vec![],
                            ))],
                        })],
                    }),
                    ComplexBaseTypeContent::SimpleContent(SimpleContent {
                        content: vec![SimpleContentContent::Restriction(RestrictionType {
                            base: q(XS, "string"),
                            content: vec![],
                        })],
                    }),
                ],
            )),
        ],
    )]);
    let mut st = State::new(&s);
    assert!(st.can_create_node_cache());
    st.create_node_cache().unwrap();
    let g = entry(&st, &ident(3, 2, IdentType::Group, "G"));
    weak(g, named(3, IdentType::Element, "E"), ident(3, 2, IdentType::Element, "E"));
    let ag = entry(&st, &ident(3, 2, IdentType::AttributeGroup, "AG"));
    weak(ag, named(3, IdentType::Attribute, "At"), ident(3, 2, IdentType::Attribute, "At"));
    weak(ag, named(1, IdentType::Type, "int"), ident(1, 1, IdentType::Type, "int"));
    let e = entry(&st, &ident(3, 2, IdentType::Element, "E"));
    strong(e, named(3, IdentType::Element, "H"), ident(3, 2, IdentType::Element, "H"));
    let at = entry(&st, &ident(3, 2, IdentType::Attribute, "At"));
    weak(at, named(1, IdentType::Type, "string"), ident(1, 1, IdentType::Type, "string"));
    let c = entry(&st, &ident(3, 2, IdentType::Type, "C"));
    lazy(c, named(3, IdentType::Group, "G"), ident(3, 2, IdentType::Group, "G"));
    lazy(
        c,
        named(3, IdentType::AttributeGroup, "AG"),
        ident(3, 2, IdentType::AttributeGroup, "AG"),
    );
    let d = entry(&st, &ident(3, 2, IdentType::Type, "D"));
    strong(d, named(3, IdentType::Type, "C"), ident(3, 2, IdentType::Type, "C"));
    strong(d, named(1, IdentType::Type, "string"), ident(1, 1, IdentType::Type, "string"));
}

/// Hands out prepared schemas, one after the other.
struct Prepared(RefCell<Vec<Schema>>);

impl DeserializeSchema for Prepared {
    fn deserialize<'a>(
        &self,
        reader: SchemaReader<'a>,
    ) -> (Result<Schema, ReadError>, SchemaReader<'a>) {
        (Ok(self.0.borrow_mut().remove(0)), reader)
    }
}

/// Loads the first document, and all that the documents refer to by the place in the list.
fn load(documents: Vec<Schema>) -> Schemas {
    let count = documents.len();
    let mut list = documents.into_iter().map(Some).collect::<Vec<_>>();
    let mut p = Parser::new().with_resolver(NoOpResolver).with_default_namespaces();
    p.add_text(None, builtin(), OrdMap::new());
    let mut p = p.add_schema_from_url(Location("0".to_string()));
    while let Some((id, req)) = p.next_pending() {
        let n: usize = req.requested_location.parse().unwrap();
        assert!(n < count);
        let d = Prepared(RefCell::new(list[n].take().into_iter().collect()));
        let found = Resolved {
            name: None,
            location: Location(n.to_string()),
            content: vec![],
        };
        p.resolve_location(id, req, Some(found), &d).unwrap();
    }
    p.finish()
}

fn base_document() -> Schema {
    let mut e = element(Some("E"), 1);
    e.type_ = Some(q("urn:a", "B"));
    schema(
        "urn:a",
        vec![
            SchemaContent::SimpleType(simple(Some("A"), 2, vec![restriction(q(XS, "string"))])),
            SchemaContent::SimpleType(simple(Some("B"), 3, vec![restriction(q("urn:a", "A"))])),
            SchemaContent::Element(e),
            SchemaContent::SimpleType(simple(Some("X"), 4, vec![restriction(q(XS, "string"))])),
        ],
    )
}

#[test]
fn an_override_replaces_a_definition_for_everything_that_depends_on_it() {
    let s = load(vec![
        schema(
            "urn:a",
            vec![SchemaContent::Override(Override {
                schema_location: "1".to_string(),
                content: vec![OverrideContent::SimpleType(simple(
                    Some("A"),
                    2,
                    vec![restriction(q(XS, "int"))],
                ))],
            })],
        ),
        base_document(),
    ]);
    let mut st = State::new(&s);
    assert!(st.can_create_node_cache());
    st.create_node_cache().unwrap();
    let t = IdentType::Type;
    let a = entry(&st, &ident(3, 2, t, "A"));
    strong(a, named(1, t, "int"), ident(1, 1, t, "int"));
    assert!(a.redefine_base.as_ref().unwrap().same(&ident(3, 3, t, "A")));
    let b = entry(&st, &ident(3, 2, t, "B"));
    strong(b, named(3, t, "A"), ident(3, 2, t, "A"));
    assert!(b.redefine_base.as_ref().unwrap().same(&ident(3, 3, t, "B")));
    let e = entry(&st, &ident(3, 2, IdentType::Element, "E"));
    weak(e, named(3, t, "B"), ident(3, 2, t, "B"));
    assert!(st.node_cache.get(&ident(3, 2, t, "X")).is_none());
    let old = entry(&st, &ident(3, 3, t, "B"));
    strong(old, named(3, t, "A"), ident(3, 3, t, "A"));
    strong(entry(&st, &ident(3, 3, t, "A")), named(1, t, "string"), ident(1, 1, t, "string"));
}

#[test]
fn all_dependencies_on_a_replaced_definition_are_replaced() {
    let typed = |id: usize| {
        let mut e = element(Some("e"), id);
        e.content = vec![ElementTypeContent::SimpleType(simple(
            None,
            id + 10,
            vec![restriction(q("urn:a", "A"))],
        ))];
        GroupTypeContent::Element(e)
    };
    let s = load(vec![
        schema(
            "urn:a",
            vec![SchemaContent::Override(Override {
                schema_location: "1".to_string(),
                content: vec![OverrideContent::SimpleType(simple(
                    Some("A"),
                    2,
                    vec![restriction(q(XS, "int"))],
                ))],
            })],
        ),
        schema(
            "urn:a",
            vec![
                SchemaContent::SimpleType(simple(Some("A"), 2, vec![restriction(q(XS, "string"))])),
                SchemaContent::ComplexType(complex(
                    "C",
                    vec![ComplexBaseTypeContent::Sequence(group(
                        None,
                        None,
                        vec![typed(7), typed(8)],
                    ))],
                )),
            ],
        ),
    ]);
    let mut st = State::new(&s);
    assert!(st.can_create_node_cache());
    st.create_node_cache().unwrap();
    let t = IdentType::Type;
    for schema in [2, 3] {
        let c = entry(&st, &ident(3, schema, t, "C"));
        let e = made_up(3, schema, IdentType::Element, "Ce");
        assert_eq!(c.dependencies.len(), 2);
        weak(c, NodeDependencyKey::InlineElement(7), e.copy());
        weak(c, NodeDependencyKey::InlineElement(8), e.copy());
        strong(entry(&st, &e), named(3, t, "A"), ident(3, schema, t, "A"));
    }
}

#[test]
fn a_redefinition_refers_to_what_it_redefines() {
    let s = load(vec![
        schema(
            "urn:a",
            vec![SchemaContent::Redefine(Redefine {
                schema_location: "1".to_string(),
                content: vec![
                    RedefineContent::Annotation,
                    RedefineContent::SimpleType(simple(
                        Some("A"),
                        2,
                        vec![restriction(q("urn:a", "A"))],
                    )),
                ],
            })],
        ),
        base_document(),
    ]);
    let mut st = State::new(&s);
    assert!(st.can_create_node_cache());
    st.create_node_cache().unwrap();
    let t = IdentType::Type;
    let a = entry(&st, &ident(3, 2, t, "A"));
    strong(a, named(3, t, "A"), ident(3, 3, t, "A"));
    let b = entry(&st, &ident(3, 2, t, "B"));
    strong(b, named(3, t, "A"), ident(3, 2, t, "A"));
}

#[test]
fn schemas_may_refer_to_each_other() {
    let inclusion = |n: &str| SchemaContent::Include(Include { schema_location: n.to_string() });
    let s = load(vec![
        schema(
            "urn:a",
            vec![
                inclusion("1"),
                SchemaContent::SimpleType(simple(Some("A"), 1, vec![restriction(q("urn:a", "B"))])),
            ],
        ),
        schema(
            "urn:a",
            vec![
                inclusion("0"),
                SchemaContent::SimpleType(simple(Some("B"), 2, vec![])),
            ],
        ),
    ]);
    let mut st = State::new(&s);
    assert!(st.can_create_node_cache());
    st.create_node_cache().unwrap();
    let t = IdentType::Type;
    let a = entry(&st, &ident(3, 2, t, "A"));
    strong(a, named(3, t, "B"), ident(3, 3, t, "B"));
}

#[test]
fn identifiers_are_resolved_in_what_a_schema_sees() {
    let t = IdentType::Type;
    let mut c = IdentCache::new();
    c.add_schema(NamespaceId(4), SchemaId(1));
    c.add_schema(NamespaceId(4), SchemaId(2));
    c.add_schema(NamespaceId(4), SchemaId(3));
    c.add_dependency(SchemaId(3), Dependency::Include(SchemaId(2)));
    c.insert(ident(4, 1, t, "A"));
    c.insert(ident(4, 2, t, "A"));
    let get = |r: Result<TypeIdent, InterpreterError>| r.unwrap().schema.0;
    assert_eq!(get(c.resolve(ident(4, 0, t, "A"))), 1);
    assert_eq!(get(c.resolve(ident(4, 9, t, "A"))), 9);
    assert_eq!(get(c.resolve_for_schema(SchemaId(3), ident(4, 0, t, "A"))), 2);
    assert_eq!(get(c.resolve_for_schema(SchemaId(1), ident(4, 0, t, "A"))), 1);
    assert_eq!(get(c.resolve_for_schema(SchemaId(3), ident(4, 0, t, "B"))), 3);
    assert!(c.resolve_for_schema(SchemaId(3), ident(5, 0, t, "A")).is_err());
    c.add_global_namespace(NamespaceId(4));
    assert_eq!(get(c.resolve_for_schema(SchemaId(3), ident(4, 0, t, "A"))), 1);
    let set = c.schema_set(SchemaId(3));
    assert_eq!(set.len(), 1);
    assert!(set[0].same(&ident(4, 2, t, "A")));
    c.insert(ident(4, 3, t, "A"));
    let set = c.schema_set(SchemaId(3));
    assert_eq!(set.len(), 1);
    assert!(set[0].same(&ident(4, 3, t, "A")));
}

#[test]
fn names_are_built_from_their_parts() {
    let mut t = MetaTypes::new(7);
    assert_eq!(t.name_builder().finish().as_str(), "Unnamed7");
    assert!(!t.name_builder().finish().is_named());
    let n = t.name_builder().or(&None).or(&Some("A".to_string())).or(&Some("B".to_string())).finish();
    assert_eq!(n.as_str(), "A");
    assert!(n.is_named());
    let n = t.name_builder().or(&Some("A".to_string())).extend(true, Some("X".to_string())).finish();
    assert_eq!(n.as_str(), "XA");
    assert!(!n.is_named());
    let b = t.name_builder().extend(true, Some("X".to_string())).extend(false, Some("Y".to_string()));
    assert!(b.has_extension());
    assert_eq!(b.finish().as_str(), "YX11");
    let b = t.name_builder().extend(true, Some("X".to_string())).extend(true, Some("Y".to_string()));
    assert_eq!(b.with_id(false).finish().as_str(), "Y");
    assert_eq!(t.name_builder().shared_name("Temp").finish().as_str(), "Temp13");
}

#[test]
fn the_kind_of_an_entry_is_that_of_its_node() {
    let g = group(Some("G"), None, vec![]);
    let e = NodeCacheEntry::new(Node::Group(&g));
    assert_eq!(e.ident_type(), IdentType::Group);
    let x = complex("C", vec![]);
    assert_eq!(NodeCacheEntry::new(Node::ComplexType(&x)).ident_type(), IdentType::Type);
    assert_eq!(e.copy().dependencies.len(), 0);
    let mut d = NodeDependency::Lazy(ident(1, 2, IdentType::Group, "G"));
    *d.deref_mut() = ident(1, 3, IdentType::Group, "G");
    assert!(d.deref().same(&ident(1, 3, IdentType::Group, "G")));
    assert!(matches!(d, NodeDependency::Lazy(_)));
}

#[test]
fn every_definition_has_an_entry() {
    let s = schemas(vec![schema(
        "urn:a",
        vec![
            SchemaContent::Annotation,
            SchemaContent::Element(element(Some("E"), 1)),
            SchemaContent::Attribute(attribute(Some("A"))),
            SchemaContent::SimpleType(simple(Some("S"), 2, vec![])),
            SchemaContent::ComplexType(complex("C", vec![])),
            SchemaContent::Group(group(Some("G"), None, vec![])),
            SchemaContent::AttributeGroup(AttributeGroupType {
                name: Some("AG".to_string()),
                ref_: None,
                content: vec![],
            }),
        ],
    )]);
    let mut st = State::new(&s);
    assert!(st.can_create_node_cache());
    st.create_node_cache().unwrap();
    for (type_, name) in [
        (IdentType::Element, "E"),
        (IdentType::Attribute, "A"),
        (IdentType::Type, "S"),
        (IdentType::Type, "C"),
        (IdentType::Group, "G"),
        (IdentType::AttributeGroup, "AG"),
    ] {
        assert!(entry(&st, &ident(3, 2, type_, name)).dependencies.len() == 0);
    }
}

#[test]
fn unnamed_definitions_have_no_entry() {
    let s = schemas(vec![schema("urn:a", vec![SchemaContent::Element(element(None, 1))])]);
    assert!(!State::new(&s).can_create_node_cache());
    let unnamed = |location: &str| {
        SchemaContent::Redefine(Redefine {
            schema_location: location.to_string(),
            content: vec![RedefineContent::SimpleType(simple(None, 1, vec![]))],
        })
    };
    let s = schemas(vec![schema("urn:a", vec![unnamed("unresolved")])]);
    assert!(State::new(&s).can_create_node_cache());
    let s = load(vec![schema("urn:a", vec![unnamed("1")]), base_document()]);
    assert!(!State::new(&s).can_create_node_cache());
}

#[test]
fn dependencies_are_schemas_of_the_collection() {
    let mut s = schemas(vec![schema("urn:a", vec![])]);
    let mut dependencies = OrdMap::new();
    dependencies.insert(Label("b.xsd".to_string()), Dependency::Include(SchemaId(2)));
    let info = |dependencies| SchemaInfo {
        name: None,
        schema: schema("urn:a", vec![]),
        location: None,
        namespace_id: NamespaceId(3),
        dependencies,
    };
    s.schemas.insert(SchemaId(3), info(dependencies));
    assert!(State::new(&s).can_create_node_cache());
    let mut dependencies = OrdMap::new();
    dependencies.insert(Label("b.xsd".to_string()), Dependency::Include(SchemaId(9)));
    s.schemas.insert(SchemaId(3), info(dependencies));
    assert!(!State::new(&s).can_create_node_cache());
}

#[test]
fn what_is_defined_in_place_is_told_apart() {
    let union = |second: usize| {
        schemas(vec![schema(
            "urn:a",
            vec![SchemaContent::SimpleType(simple(
                Some("U"),
                1,
                vec![SimpleBaseTypeContent::Union(Union {
                    member_types: None,
                    simple_type: vec![
                        simple(None, 2, vec![restriction(q(XS, "string"))]),
                        simple(None, second, vec![restriction(q(XS, "string"))]),
                    ],
                })],
            ))],
        )])
    };
    let s = union(2);
    assert!(!State::new(&s).can_create_node_cache());
    let s = union(3);
    let mut st = State::new(&s);
    assert!(st.can_create_node_cache());
    st.create_node_cache().unwrap();
    let u = entry(&st, &ident(3, 2, IdentType::Type, "U"));
    assert_eq!(u.dependencies.len(), 2);
    assert!(u.dependencies.get(&NodeDependencyKey::InlineSimpleType(2)).is_some());
    assert!(u.dependencies.get(&NodeDependencyKey::InlineSimpleType(3)).is_some());
}

#[test]
fn definitions_in_groups_are_told_apart() {
    let grouped = |outer: usize, inner: usize| {
        let list = |id: usize| GroupTypeContent::Element(element(Some("e"), id));
        schemas(vec![schema(
            "urn:a",
            vec![SchemaContent::ComplexType(complex(
                "C",
                vec![ComplexBaseTypeContent::Sequence(group(
                    None,
                    None,
                    vec![list(outer), GroupTypeContent::Group(group(None, None, vec![list(inner)]))],
                ))],
            ))],
        )])
    };
    let s = grouped(7, 7);
    assert!(!State::new(&s).can_create_node_cache());
    let s = grouped(7, 8);
    let mut st = State::new(&s);
    assert!(st.can_create_node_cache());
    st.create_node_cache().unwrap();
    let c = entry(&st, &ident(3, 2, IdentType::Type, "C"));
    assert!(c.dependencies.get(&NodeDependencyKey::InlineElement(7)).is_some());
    assert!(c.dependencies.get(&NodeDependencyKey::InlineElement(8)).is_some());
}
