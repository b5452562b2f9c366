//! Whether the node cache of a schema collection can be created.

use vstd::prelude::*;

use super::inline::keys_of_node_differ;
use super::State;
use crate::keys::keys_differ;
use crate::models::{Label, SchemaId};
use crate::nodes::Node;
use crate::order::in_order;
use crate::schemas::{SchemaInfo, Schemas};
use crate::schemawalk::{
    all_distinct, all_named, is_distinct, is_named, override_definition, override_definitions,
    part_distinct, part_named, readable, redefine_definition, redefine_definitions, schema_distinct,
    schema_named,
};
use crate::steps::node_steps;
use crate::xs::{Override, OverrideContent, Redefine, RedefineContent, SchemaContent};

verus! {

/// Whether a definition has a name, and what is defined in it can be told apart.
fn sound(name: &Option<String>, node: Node<'_>) -> (b: bool)
    ensures
        b == (name is Some && keys_differ(node_steps(node@))),
{
    name.is_some() && keys_of_node_differ(&node)
}

/// Whether the definition of a part of an override has a name, and what is defined in it can be
/// told apart.
fn override_part_sound(c: &OverrideContent) -> (b: bool)
    ensures
        b == (is_named(override_definition(*c)) && is_distinct(override_definition(*c))),
{
    match c {
        OverrideContent::Element(x) => sound(&x.name, Node::Element(x)),
        OverrideContent::Attribute(x) => sound(&x.name, Node::Attribute(x)),
        OverrideContent::SimpleType(x) => sound(&x.name, Node::SimpleType(x)),
        OverrideContent::ComplexType(x) => sound(&x.name, Node::ComplexType(x)),
        OverrideContent::Group(x) => sound(&x.name, Node::Group(x)),
        OverrideContent::AttributeGroup(x) => sound(&x.name, Node::AttributeGroup(x)),
        OverrideContent::Annotation | OverrideContent::Notation => true,
    }
}

/// Whether the definition of a part of a redefinition has a name, and what is defined in it can be
/// told apart.
fn redefine_part_sound(c: &RedefineContent) -> (b: bool)
    ensures
        b == (is_named(redefine_definition(*c)) && is_distinct(redefine_definition(*c))),
{
    match c {
        RedefineContent::SimpleType(x) => sound(&x.name, Node::SimpleType(x)),
        RedefineContent::ComplexType(x) => sound(&x.name, Node::ComplexType(x)),
        RedefineContent::Group(x) => sound(&x.name, Node::Group(x)),
        RedefineContent::AttributeGroup(x) => sound(&x.name, Node::AttributeGroup(x)),
        RedefineContent::Annotation => true,
    }
}

/// Whether all definitions of an override have names, and what is defined in
/// them can be told apart.
fn override_sound(x: &Override) -> (b: bool)
    ensures
        b == (all_named(override_definitions(x.content@)) && all_distinct(
            override_definitions(x.content@),
        )),
{
    let ghost defs = override_definitions(x.content@);
    let mut i: usize = 0;
    while i < x.content.len()
        invariant
            defs == override_definitions(x.content@),
            i <= x.content.len(),
            forall|j: int|
                0 <= j < i ==> is_named(#[trigger] defs[j]) && is_distinct(defs[j]),
        decreases x.content.len() - i,
    {
        assert(defs[i as int] == override_definition(x.content@[i as int]));
        if !override_part_sound(&x.content[i]) {
            return false;
        }
        i = i + 1;
    }
    true
}

/// Whether all definitions of a redefinition have names, and what is defined in
/// them can be told apart.
fn redefine_sound(x: &Redefine) -> (b: bool)
    ensures
        b == (all_named(redefine_definitions(x.content@)) && all_distinct(
            redefine_definitions(x.content@),
        )),
{
    let ghost defs = redefine_definitions(x.content@);
    let mut i: usize = 0;
    while i < x.content.len()
        invariant
            defs == redefine_definitions(x.content@),
            i <= x.content.len(),
            forall|j: int|
                0 <= j < i ==> is_named(#[trigger] defs[j]) && is_distinct(defs[j]),
        decreases x.content.len() - i,
    {
        assert(defs[i as int] == redefine_definition(x.content@[i as int]));
        if !redefine_part_sound(&x.content[i]) {
            return false;
        }
        i = i + 1;
    }
    true
}

/// Whether all definitions of a part of a schema that are read have names, and what is defined
/// in them can be told apart.
fn part_sound(c: &SchemaContent, info: &SchemaInfo) -> (b: bool)
    ensures
        b == (part_named(*c, info@.dependencies) && part_distinct(*c, info@.dependencies)),
{
    match c {
        SchemaContent::Override(x) => !info.dependencies.contains_key(
            &Label(x.schema_location.clone()),
        ) || override_sound(x),
        SchemaContent::Redefine(x) => !info.dependencies.contains_key(
            &Label(x.schema_location.clone()),
        ) || redefine_sound(x),
        SchemaContent::Element(x) => sound(&x.name, Node::Element(x)),
        SchemaContent::Attribute(x) => sound(&x.name, Node::Attribute(x)),
        SchemaContent::SimpleType(x) => sound(&x.name, Node::SimpleType(x)),
        SchemaContent::ComplexType(x) => sound(&x.name, Node::ComplexType(x)),
        SchemaContent::Group(x) => sound(&x.name, Node::Group(x)),
        SchemaContent::AttributeGroup(x) => sound(&x.name, Node::AttributeGroup(x)),
        _ => true,
    }
}

/// Whether all definitions of a schema that are read have names, and what is defined in
/// them can be told apart.
fn schema_sound(info: &SchemaInfo) -> (b: bool)
    ensures
        b == (schema_named(info@) && schema_distinct(info@)),
{
    let mut i: usize = 0;
    while i < info.schema.content.len()
        invariant
            i <= info.schema.content.len(),
            forall|j: int|
                0 <= j < i ==> part_named(
                    #[trigger] info@.schema.content[j],
                    info@.dependencies,
                ) && part_distinct(info@.schema.content[j], info@.dependencies),
        decreases info.schema.content.len() - i,
    {
        assert(info@.schema.content[i as int] == info.schema.content@[i as int]);
        if !part_sound(&info.schema.content[i], info) {
            return false;
        }
        i = i + 1;
    }
    true
}

/// Whether a schema depends on schemas of the collection only.
fn dependencies_known(info: &SchemaInfo, schemas: &Schemas) -> (b: bool)
    ensures
        b == (forall|l: Seq<char>| #[trigger]
            info@.dependencies.contains_key(l) ==> schemas@.schemas.contains_key(
                info@.dependencies[l].target(),
            )),
{
    let n = info.dependencies.len();
    let ghost order = in_order::<Label>(info@.dependencies.dom());
    let mut i: usize = 0;
    while i < n
        invariant
            n == order.len(),
            order == in_order::<Label>(info.dependencies@.dom()),
            i <= n,
            forall|j: int|
                0 <= j < i ==> schemas@.schemas.contains_key(
                    info@.dependencies[#[trigger] order[j]].target(),
                ),
        decreases n - i,
    {
        let _label = info.dependencies.key_at(i);
        if !schemas.schemas.contains_key(info.dependencies.value_at(i).get()) {
            assert(info@.dependencies.contains_key(order[i as int]));
            return false;
        }
        i = i + 1;
    }
    assert forall|l: Seq<char>| #[trigger]
        info@.dependencies.contains_key(l) implies schemas@.schemas.contains_key(
        info@.dependencies[l].target(),
    ) by {
        assert(info@.dependencies.dom().contains(l));
        assert(order.contains(l));
    }
    true
}

impl<'a> State<'a> {
    /// Whether the node cache can be created: all definitions that are read have names and tell
    /// apart what is defined in them, and schemas depend on schemas of the collection only.
    pub fn can_create_node_cache(&self) -> (b: bool)
        ensures
            b == readable(self@.schemas),
    {
        let schemas = self.schemas;
        let n = schemas.schemas.len();
        let ghost all = schemas@.schemas;
        let ghost order = in_order::<SchemaId>(all.dom());
        let mut i: usize = 0;
        while i < n
            invariant
                all == schemas@.schemas,
                schemas@ == self@.schemas,
                n == order.len(),
                order == in_order::<SchemaId>(schemas.schemas@.dom()),
                i <= n,
                forall|j: int|
                    0 <= j < i ==> schema_named(all[#[trigger] order[j]]) && schema_distinct(
                        all[order[j]],
                    ),
                forall|j: int, l: Seq<char>|
                    #![trigger all[order[j]].dependencies[l]]
                    0 <= j < i && all[order[j]].dependencies.contains_key(l) ==> all.contains_key(
                        all[order[j]].dependencies[l].target(),
                    ),
            decreases n - i,
        {
            let id = schemas.schemas.key_at(i);
            let info = schemas.schemas.value_at(i);
            assert(all[order[i as int]] == info@);
            if !schema_sound(info) {
                assert(all.contains_key(id@));
                return false;
            }
            if !dependencies_known(info, schemas) {
                proof {
                    let l = choose|l: Seq<char>| #[trigger]
                        info@.dependencies.contains_key(l) && !all.contains_key(
                            info@.dependencies[l].target(),
                        );
                    assert(all[id@].dependencies[l] == info@.dependencies[l]);
                }
                return false;
            }
            i = i + 1;
        }
        proof {
            assert forall|id: SchemaId| #[trigger] all.contains_key(id) implies exists|j: int|
                0 <= j < n && #[trigger] order[j] == id by {
                assert(all.dom().contains(id));
                assert(order.contains(id));
            }
            assert forall|id: SchemaId, l: Seq<char>|
                #![trigger all[id].dependencies[l]]
                all.contains_key(id) && all[id].dependencies.contains_key(
                    l,
                ) implies all.contains_key(all[id].dependencies[l].target()) by {
                let j = choose|j: int| 0 <= j < n && #[trigger] order[j] == id;
                assert(all[order[j]].dependencies[l] == all[id].dependencies[l]);
            }
        }
        true
    }
}

} // verus!
