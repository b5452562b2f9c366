//! The collection of all loaded schemas.

use vstd::prelude::*;

use crate::models::{
    opt_location, opt_ns, opt_prefix, Dependency, Label, Location, MaybeNamespace, Namespace,
    NamespaceId, NamespacePrefix, SchemaId,
};
use crate::ordmap::OrdMap;
use crate::text::opt_text;
use crate::xs::{Schema, SchemaView};

verus! {

/// A loaded schema.
pub struct SchemaInfo {
    /// The name of the schema, if it has one.
    pub name: Option<String>,
    /// The content of the schema.
    pub schema: Schema,
    /// Where the schema was loaded from, if it was not given as text.
    pub location: Option<Location>,
    /// The target namespace of the schema.
    pub namespace_id: NamespaceId,
    /// The schemas that this one refers to, by the location that it gives for them.
    pub dependencies: OrdMap<Label, Dependency<SchemaId>>,
}

/// The parts of a loaded schema.
pub struct SchemaInfoView {
    pub name: Option<Seq<char>>,
    pub schema: SchemaView,
    pub location: Option<Seq<char>>,
    pub namespace_id: NamespaceId,
    pub dependencies: Map<Seq<char>, Dependency<SchemaId>>,
}

impl View for SchemaInfo {
    type V = SchemaInfoView;

    open spec fn view(&self) -> SchemaInfoView {
        SchemaInfoView {
            name: opt_text(self.name),
            schema: self.schema@,
            location: opt_location(self.location),
            namespace_id: self.namespace_id,
            dependencies: self.dependencies@,
        }
    }
}

impl DeepView for SchemaInfo {
    type V = SchemaInfoView;

    open spec fn deep_view(&self) -> SchemaInfoView {
        self@
    }
}

/// A namespace of the loaded schemas.
pub struct NamespaceInfo {
    /// The name of the namespace; the anonymous one has none.
    pub namespace: Option<Namespace>,
    /// The prefix that was chosen for the namespace.
    pub prefix: Option<NamespacePrefix>,
    /// The schemas of the namespace.
    pub schemas: Vec<SchemaId>,
}

/// The parts of a namespace.
pub struct NamespaceInfoView {
    pub namespace: Option<Seq<u8>>,
    pub prefix: Option<Seq<u8>>,
    pub schemas: Seq<SchemaId>,
}

impl View for NamespaceInfo {
    type V = NamespaceInfoView;

    open spec fn view(&self) -> NamespaceInfoView {
        NamespaceInfoView {
            namespace: opt_ns(self.namespace),
            prefix: opt_prefix(self.prefix),
            schemas: self.schemas@,
        }
    }
}

impl DeepView for NamespaceInfo {
    type V = NamespaceInfoView;

    open spec fn deep_view(&self) -> NamespaceInfoView {
        self@
    }
}

impl NamespaceInfo {
    /// A namespace without a prefix and without schemas.
    pub fn new(namespace: Option<Namespace>) -> (i: Self)
        ensures
            i@ == new_namespace(opt_ns(namespace)),
    {
        NamespaceInfo { namespace, prefix: None, schemas: Vec::new() }
    }
}

/// A namespace without a prefix and without schemas.
pub open spec fn new_namespace(namespace: Option<Seq<u8>>) -> NamespaceInfoView {
    NamespaceInfoView { namespace, prefix: None, schemas: Seq::empty() }
}

/// All loaded schemas and their namespaces.
pub struct Schemas {
    pub schemas: OrdMap<SchemaId, SchemaInfo>,
    pub namespace_infos: OrdMap<NamespaceId, NamespaceInfo>,
    pub known_prefixes: OrdMap<NamespacePrefix, NamespaceId>,
    pub known_namespaces: OrdMap<MaybeNamespace, NamespaceId>,
    pub last_schema_id: usize,
    pub last_namespace_id: usize,
}

/// The parts of a schema collection.
pub struct SchemasView {
    pub schemas: Map<SchemaId, SchemaInfoView>,
    pub namespace_infos: Map<NamespaceId, NamespaceInfoView>,
    pub known_prefixes: Map<Seq<u8>, NamespaceId>,
    pub known_namespaces: Map<Option<Seq<u8>>, NamespaceId>,
    pub last_schema_id: usize,
    pub last_namespace_id: usize,
}

impl View for Schemas {
    type V = SchemasView;

    open spec fn view(&self) -> SchemasView {
        SchemasView {
            schemas: self.schemas@,
            namespace_infos: self.namespace_infos@,
            known_prefixes: self.known_prefixes@,
            known_namespaces: self.known_namespaces@,
            last_schema_id: self.last_schema_id,
            last_namespace_id: self.last_namespace_id,
        }
    }
}

/// The empty schema collection.
pub open spec fn no_schemas() -> SchemasView {
    SchemasView {
        schemas: Map::empty(),
        namespace_infos: Map::empty(),
        known_prefixes: Map::empty(),
        known_namespaces: Map::empty(),
        last_schema_id: 0,
        last_namespace_id: 0,
    }
}

impl SchemasView {
    /// Namespaces and their names belong together one for one.
    pub open spec fn namespaces_agree(self) -> bool {
        &&& forall|k: Option<Seq<u8>>| #[trigger]
            self.known_namespaces.contains_key(k) ==> {
                &&& self.namespace_infos.contains_key(self.known_namespaces[k])
                &&& self.namespace_infos[self.known_namespaces[k]].namespace == k
            }
        &&& forall|id: NamespaceId| #[trigger]
            self.namespace_infos.contains_key(id) ==> {
                &&& self.known_namespaces.contains_key(self.namespace_infos[id].namespace)
                &&& self.known_namespaces[self.namespace_infos[id].namespace] == id
            }
    }

    /// Every schema is listed by its namespace.
    pub open spec fn schemas_listed(self) -> bool {
        forall|id: SchemaId| #[trigger]
            self.schemas.contains_key(id) ==> {
                &&& self.namespace_infos.contains_key(self.schemas[id].namespace_id)
                &&& self.namespace_infos[self.schemas[id].namespace_id].schemas.contains(id)
            }
    }

    /// Every schema that is referred to is in the collection.
    pub open spec fn dependencies_known(self) -> bool {
        forall|id: SchemaId, l: Seq<char>| #![trigger self.schemas[id].dependencies[l]]
            self.schemas.contains_key(id) && self.schemas[id].dependencies.contains_key(l)
                ==> self.schemas.contains_key(self.schemas[id].dependencies[l].target())
    }

    /// What holds of every finished schema collection.
    pub open spec fn valid(self) -> bool {
        &&& self.namespaces_agree()
        &&& self.schemas_listed()
        &&& self.dependencies_known()
    }
}

impl Schemas {
    /// Creates an empty schema collection.
    pub fn new() -> (s: Self)
        ensures
            s@ == no_schemas(),
    {
        Schemas {
            schemas: OrdMap::new(),
            namespace_infos: OrdMap::new(),
            known_prefixes: OrdMap::new(),
            known_namespaces: OrdMap::new(),
            last_schema_id: 0,
            last_namespace_id: 0,
        }
    }

    /// Hands out a new schema identifier.
    pub fn next_schema_id(&mut self) -> (id: SchemaId)
        ensures
            final(self)@ == (SchemasView {
                last_schema_id: old(self).last_schema_id.wrapping_add(1),
                ..old(self)@
            }),
            id == SchemaId(final(self)@.last_schema_id),
    {
        self.last_schema_id = self.last_schema_id.wrapping_add(1);
        SchemaId(self.last_schema_id)
    }

    /// Looks up a schema.
    pub fn get_schema(&self, id: &SchemaId) -> (r: Option<&SchemaInfo>)
        ensures
            match r {
                Some(i) => self@.schemas.contains_key(*id) && i@ == self@.schemas[*id],
                None => !self@.schemas.contains_key(*id),
            },
    {
        self.schemas.get(id)
    }

    /// Looks up a namespace.
    pub fn get_namespace_info(&self, id: &NamespaceId) -> (r: Option<&NamespaceInfo>)
        ensures
            match r {
                Some(i) => self@.namespace_infos.contains_key(*id) && i@
                    == self@.namespace_infos[*id],
                None => !self@.namespace_infos.contains_key(*id),
            },
    {
        self.namespace_infos.get(id)
    }

    /// Looks up the identifier of a namespace.
    pub fn resolve_namespace(&self, ns: &MaybeNamespace) -> (r: Option<NamespaceId>)
        ensures
            match r {
                Some(id) => self@.known_namespaces.contains_key(ns@) && id
                    == self@.known_namespaces[ns@],
                None => !self@.known_namespaces.contains_key(ns@),
            },
    {
        match self.known_namespaces.get(ns) {
            Some(id) => Some(*id),
            None => None,
        }
    }

    /// Looks up the namespace that a prefix stands for.
    pub fn resolve_prefix(&self, prefix: &NamespacePrefix) -> (r: Option<NamespaceId>)
        ensures
            match r {
                Some(id) => self@.known_prefixes.contains_key(prefix@) && id
                    == self@.known_prefixes[prefix@],
                None => !self@.known_prefixes.contains_key(prefix@),
            },
    {
        match self.known_prefixes.get(prefix) {
            Some(id) => Some(*id),
            None => None,
        }
    }
}

} // verus!
