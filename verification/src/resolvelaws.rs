//! What the names in a schema refer to.

use vstd::prelude::*;

use crate::ident::{IdentType, IdentView, NameView};
use crate::identcache::{first_fit, fits, known, ErrorView, IdentCacheView};
use crate::models::{local_part, Dependency, Label, NamespaceId, QNameView, SchemaId};
use crate::order::{in_order, lemma_in_order_finite};
use crate::recordlaws::space_of;
use crate::schemas::{SchemaInfoView, SchemasView};
use crate::schemawalk::{global_namespaces, registered};
use crate::text::text_of;
use crate::walk::CacheView;
use crate::walklaws::lemma_listed_once;

verus! {

/// The identifier of a name in a schema.
pub open spec fn in_place_of(
    space: NamespaceId,
    schema: SchemaId,
    kind: IdentType,
    text: Seq<char>,
) -> IdentView {
    IdentView { ns: space, schema, name: NameView { named: true, text }, type_: kind }
}

/// Whether some schema defines a name.
pub open spec fn defined_somewhere(
    idents: Set<IdentView>,
    space: NamespaceId,
    kind: IdentType,
    text: Seq<char>,
) -> bool {
    exists|s: SchemaId| idents.contains(#[trigger] in_place_of(space, s, kind, text))
}

/// Whether a schema is the first one, by its number, that defines a name.
pub open spec fn defined_first(
    idents: Set<IdentView>,
    space: NamespaceId,
    kind: IdentType,
    text: Seq<char>,
    s: SchemaId,
) -> bool {
    &&& idents.contains(in_place_of(space, s, kind, text))
    &&& forall|r: SchemaId|
        idents.contains(#[trigger] in_place_of(space, r, kind, text)) ==> s.0 <= r.0
}

/// The schema that a dependency points to.
pub open spec fn leads_to(d: Dependency<SchemaId>) -> SchemaId {
    match d {
        Dependency::Import(s) => s,
        Dependency::Include(s) => s,
        Dependency::Redefine(s) => s,
        Dependency::Override(s) => s,
    }
}

/// The dependencies of a schema.
pub open spec fn scope_of(c: IdentCacheView, schema: SchemaId) -> Seq<Dependency<SchemaId>> {
    if c.scopes.contains_key(schema) {
        c.scopes[schema].dependencies
    } else {
        Seq::empty()
    }
}

/// Whether a dependency is the first one of a schema whose schema defines a name.
pub open spec fn found_in(
    c: IdentCacheView,
    schema: SchemaId,
    space: NamespaceId,
    kind: IdentType,
    text: Seq<char>,
    j: int,
) -> bool {
    let deps = scope_of(c, schema);
    &&& 0 <= j < deps.len()
    &&& c.idents.contains(in_place_of(space, leads_to(deps[j]), kind, text))
    &&& forall|k: int|
        0 <= k < j ==> !c.idents.contains(
            in_place_of(space, leads_to(#[trigger] deps[k]), kind, text),
        )
}

/// Where a name is known among all schemas, and where it is known first.
pub proof fn lemma_known(
    idents: Set<IdentView>,
    space: NamespaceId,
    kind: IdentType,
    text: Seq<char>,
)
    ensures
        ({
            let wanted = in_place_of(space, SchemaId(0), kind, text);
            &&& known(idents, wanted) <==> defined_somewhere(idents, space, kind, text)
            &&& forall|i: IdentView| #[trigger]
                first_fit(idents, wanted, i) <==> defined_first(
                    idents,
                    space,
                    kind,
                    text,
                    i.schema,
                ) && i == in_place_of(space, i.schema, kind, text)
        }),
{
    let wanted = in_place_of(space, SchemaId(0), kind, text);
    assert forall|i: IdentView| #[trigger] fits(i, wanted) <==> i == in_place_of(
        space,
        i.schema,
        kind,
        text,
    ) by {}
    if known(idents, wanted) {
        let i = choose|i: IdentView| #[trigger] idents.contains(i) && fits(i, wanted);
        assert(idents.contains(in_place_of(space, i.schema, kind, text)));
    }
    if defined_somewhere(idents, space, kind, text) {
        let s = choose|s: SchemaId| idents.contains(#[trigger] in_place_of(space, s, kind, text));
        assert(fits(in_place_of(space, s, kind, text), wanted));
    }
    assert forall|i: IdentView| #[trigger] first_fit(idents, wanted, i) <==> defined_first(
        idents,
        space,
        kind,
        text,
        i.schema,
    ) && i == in_place_of(space, i.schema, kind, text) by {
        if first_fit(idents, wanted, i) {
            assert forall|r: SchemaId| idents.contains(
                #[trigger] in_place_of(space, r, kind, text),
            ) implies i.schema.0 <= r.0 by {
                assert(fits(in_place_of(space, r, kind, text), wanted));
            }
        }
        if defined_first(idents, space, kind, text, i.schema) && i == in_place_of(
            space,
            i.schema,
            kind,
            text,
        ) {
            assert forall|j: IdentView| #[trigger] idents.contains(j) && fits(
                j,
                wanted,
            ) implies i.schema.0 <= j.schema.0 by {
                assert(j == in_place_of(space, j.schema, kind, text));
            }
        }
    }
}

/// A name that some schema defines is defined by a first one.
proof fn lemma_defined_first(
    idents: Set<IdentView>,
    space: NamespaceId,
    kind: IdentType,
    text: Seq<char>,
    s: SchemaId,
) -> (f: SchemaId)
    requires
        idents.contains(in_place_of(space, s, kind, text)),
    ensures
        defined_first(idents, space, kind, text, f),
    decreases s.0,
{
    if defined_first(idents, space, kind, text, s) {
        s
    } else {
        let r = choose|r: SchemaId|
            idents.contains(#[trigger] in_place_of(space, r, kind, text)) && r.0 < s.0;
        lemma_defined_first(idents, space, kind, text, r)
    }
}

/// What is found in the dependencies of a schema.
proof fn lemma_in_dependencies(
    c: IdentCacheView,
    deps: Seq<Dependency<SchemaId>>,
    space: NamespaceId,
    kind: IdentType,
    text: Seq<char>,
)
    ensures
        ({
            let wanted = in_place_of(space, SchemaId(0), kind, text);
            match c.in_dependencies(deps, wanted) {
                Some(i) => exists|j: int|
                    #![trigger deps[j]]
                    {
                        &&& 0 <= j < deps.len()
                        &&& i == in_place_of(space, leads_to(deps[j]), kind, text)
                        &&& c.idents.contains(i)
                        &&& forall|k: int|
                            0 <= k < j ==> !c.idents.contains(
                                in_place_of(space, leads_to(#[trigger] deps[k]), kind, text),
                            )
                    },
                None => forall|k: int|
                    0 <= k < deps.len() ==> !c.idents.contains(
                        in_place_of(space, leads_to(#[trigger] deps[k]), kind, text),
                    ),
            }
        }),
    decreases deps.len(),
{
    let wanted = in_place_of(space, SchemaId(0), kind, text);
    if deps.len() > 0 {
        let first = in_place_of(space, leads_to(deps[0]), kind, text);
        assert(wanted.in_schema(deps[0].target()) == first);
        if c.idents.contains(first) {
            assert(c.in_dependencies(deps, wanted) == Some(first));
        } else {
            let rest = deps.drop_first();
            lemma_in_dependencies(c, rest, space, kind, text);
            if let Some(i) = c.in_dependencies(rest, wanted) {
                let j = choose|j: int|
                    #![trigger rest[j]]
                    {
                        &&& 0 <= j < rest.len()
                        &&& i == in_place_of(space, leads_to(rest[j]), kind, text)
                        &&& c.idents.contains(i)
                        &&& forall|k: int|
                            0 <= k < j ==> !c.idents.contains(
                                in_place_of(space, leads_to(#[trigger] rest[k]), kind, text),
                            )
                    };
                assert(deps[j + 1] == rest[j]);
                assert forall|k: int| 0 <= k < j + 1 implies !c.idents.contains(
                    in_place_of(space, leads_to(#[trigger] deps[k]), kind, text),
                ) by {
                    if k > 0 {
                        assert(rest[k - 1] == deps[k]);
                    }
                }
            } else {
                assert forall|k: int| 0 <= k < deps.len() implies !c.idents.contains(
                    in_place_of(space, leads_to(#[trigger] deps[k]), kind, text),
                ) by {
                    if k > 0 {
                        assert(rest[k - 1] == deps[k]);
                    }
                }
            }
        }
    }
}

/// What a name refers to, for a schema that sees some others. A name of a namespace that is visible
/// everywhere refers to the first schema that defines it. Any other name refers to the schema
/// itself if it defines the name, or else to the first of the schemas that it depends on that does,
/// or else, if no schema defines it and the namespace is that of the schema, to the schema itself,
/// which is taken to define it later, or else to the first schema that defines it. Otherwise it
/// refers to nothing.
pub open spec fn refers_to(
    c: IdentCacheView,
    schema: SchemaId,
    space: NamespaceId,
    kind: IdentType,
    text: Seq<char>,
    found: SchemaId,
) -> bool {
    let global = c.globals.contains(space);
    let own = c.idents.contains(in_place_of(space, schema, kind, text));
    let seen = exists|j: int| #[trigger] found_in(c, schema, space, kind, text, j);
    let some = defined_somewhere(c.idents, space, kind, text);
    ||| global && defined_first(c.idents, space, kind, text, found)
    ||| !global && own && found == schema
    ||| !global && !own && exists|j: int| #[trigger]
        found_in(c, schema, space, kind, text, j) && found == leads_to(scope_of(c, schema)[j])
    ||| {
        &&& !global && !own && !seen && !some
        &&& c.scopes.contains_key(schema) && c.scopes[schema].ns == space
        &&& found == schema
    }
    ||| !global && !own && !seen && defined_first(c.idents, space, kind, text, found)
}

/// A name that stands in a definition that redefines nothing of that name refers to what the schema
/// sees. A name refers to nothing exactly if its namespace is unknown, its local part is no text, or
/// no schema has anything of that name to refer to.
pub proof fn law_names_refer_to_what_a_schema_sees(
    st: CacheView,
    name: QNameView,
    kind: IdentType,
)
    requires
        match st.active().redefine_base {
            Some(b) => !(Some(b.ns) == space_of(st.schemas, st.current_ns(), name)
                && Some(b.name.text) == text_of(local_part(name.raw)) && b.type_ == kind),
            None => true,
        },
    ensures
        match st.resolved(name, kind) {
            Ok(i) => {
                &&& space_of(st.schemas, st.current_ns(), name) == Some(i.ns)
                &&& text_of(local_part(name.raw)) == Some(i.name.text)
                &&& i == in_place_of(i.ns, i.schema, kind, i.name.text)
                &&& refers_to(st.idents, st.current_schema(), i.ns, kind, i.name.text, i.schema)
            },
            Err(ErrorView::UnknownNamespace(n)) => {
                &&& name.ns == Some(n)
                &&& !st.schemas.known_namespaces.contains_key(name.ns)
            },
            Err(ErrorView::InvalidLocalName(b)) => {
                &&& space_of(st.schemas, st.current_ns(), name) is Some
                &&& b == local_part(name.raw)
                &&& text_of(b) is None
            },
            Err(ErrorView::UnknownType(i)) => {
                &&& space_of(st.schemas, st.current_ns(), name) == Some(i.ns)
                &&& text_of(local_part(name.raw)) == Some(i.name.text)
                &&& i == in_place_of(i.ns, SchemaId(0), kind, i.name.text)
                &&& forall|s: SchemaId|
                    !refers_to(st.idents, st.current_schema(), i.ns, kind, i.name.text, s)
            },
        },
{
    let c = st.idents;
    let schema = st.current_schema();
    if let Ok(wanted) = st.wanted(name, kind) {
        let space = wanted.ns;
        let text = wanted.name.text;
        assert(wanted == in_place_of(space, SchemaId(0), kind, text));
        lemma_known(c.idents, space, kind, text);
        let deps = scope_of(c, schema);
        assert(deps == c.dependencies_of(schema));
        lemma_in_dependencies(c, deps, space, kind, text);
        if defined_somewhere(c.idents, space, kind, text) {
            let s = choose|s: SchemaId|
                c.idents.contains(#[trigger] in_place_of(space, s, kind, text));
            let f = lemma_defined_first(c.idents, space, kind, text, s);
            assert(first_fit(c.idents, wanted, in_place_of(space, f, kind, text)));
            let i = choose|i: IdentView| first_fit(c.idents, wanted, i);
            assert(first_fit(c.idents, wanted, i));
        }
        if let Some(i) = c.in_dependencies(deps, wanted) {
            let j = choose|j: int|
                #![trigger deps[j]]
                {
                    &&& 0 <= j < deps.len()
                    &&& i == in_place_of(space, leads_to(deps[j]), kind, text)
                    &&& c.idents.contains(i)
                    &&& forall|k: int|
                        0 <= k < j ==> !c.idents.contains(
                            in_place_of(space, leads_to(#[trigger] deps[k]), kind, text),
                        )
                };
            assert(found_in(c, schema, space, kind, text, j));
        } else {
            assert forall|j: int| !#[trigger] found_in(c, schema, space, kind, text, j) by {
                if 0 <= j < deps.len() {
                    assert(!c.idents.contains(in_place_of(space, leads_to(deps[j]), kind, text)));
                }
            }
        }
        if st.resolved(name, kind) is Err {
            assert(!defined_somewhere(c.idents, space, kind, text));
            assert forall|s: SchemaId| !refers_to(c, schema, space, kind, text, s) by {
                assert(!c.idents.contains(in_place_of(space, schema, kind, text)));
                assert(!c.idents.contains(in_place_of(space, s, kind, text)));
                assert forall|j: int| !#[trigger] found_in(c, schema, space, kind, text, j) by {
                    if 0 <= j < deps.len() {
                        assert(!c.idents.contains(
                            in_place_of(space, leads_to(deps[j]), kind, text),
                        ));
                    }
                }
            }
        }
    }
}

/// In a definition that redefines another one, the name of that definition refers to the one that is
/// redefined.
pub proof fn law_redefined_names_refer_to_the_base(
    st: CacheView,
    name: QNameView,
    kind: IdentType,
    base: IdentView,
)
    requires
        st.active().redefine_base == Some(base),
        space_of(st.schemas, st.current_ns(), name) == Some(base.ns),
        text_of(local_part(name.raw)) == Some(base.name.text),
        base.type_ == kind,
    ensures
        st.resolved(name, kind) == Ok::<IdentView, ErrorView>(base),
{
}

/// A schema takes over itself, and the content of every known schema that a schema it takes over
/// includes, redefines or overrides. What it imports, it does not take over.
pub proof fn law_included_content_is_taken_over(
    c: IdentCacheView,
    schema: SchemaId,
    a: SchemaId,
    b: SchemaId,
)
    ensures
        c.set_of(schema).contains(schema),
        c.set_of(schema).contains(a) && c.scopes.contains_key(b) && (scope_of(c, a).contains(
            Dependency::Include(b),
        ) || scope_of(c, a).contains(Dependency::Redefine(b)) || scope_of(c, a).contains(
            Dependency::Override(b),
        )) ==> c.set_of(schema).contains(b),
{
    assert(c.within(schema, 0).contains(schema));
    let deps = scope_of(c, a);
    if c.set_of(schema).contains(a) && c.scopes.contains_key(b) && (deps.contains(
        Dependency::Include(b),
    ) || deps.contains(Dependency::Redefine(b)) || deps.contains(Dependency::Override(b))) {
        let n = choose|n: nat| #[trigger] c.within(schema, n).contains(a);
        let d = if deps.contains(Dependency::Include(b)) {
            Dependency::Include(b)
        } else if deps.contains(Dependency::Redefine(b)) {
            Dependency::Redefine(b)
        } else {
            Dependency::Override(b)
        };
        let k = choose|k: int| 0 <= k < deps.len() && deps[k] == d;
        assert(deps == c.dependencies_of(a));
        assert(!(c.dependencies_of(a)[k] is Import));
        assert(c.takes_over(a, b));
        assert(c.within(schema, n + 1).contains(b));
    }
}

/// Every schema that is taken over is reached: it is in each set that holds the schema, and with
/// each schema those that it includes, redefines or overrides.
pub proof fn law_nothing_else_is_taken_over(
    c: IdentCacheView,
    schema: SchemaId,
    all: Set<SchemaId>,
    b: SchemaId,
)
    requires
        all.contains(schema),
        forall|x: SchemaId, d: Dependency<SchemaId>|
            #![trigger all.contains(x), scope_of(c, x).contains(d)]
            all.contains(x) && scope_of(c, x).contains(d) && !(d is Import) ==> all.contains(
                leads_to(d),
            ),
        c.set_of(schema).contains(b),
    ensures
        all.contains(b),
{
    let n = choose|n: nat| #[trigger] c.within(schema, n).contains(b);
    assert forall|x: SchemaId, y: SchemaId|
        all.contains(x) && #[trigger] c.takes_over(x, y) implies all.contains(y) by {
        let k = choose|k: int|
            0 <= k < c.dependencies_of(x).len() && !(#[trigger] c.dependencies_of(
                x,
            )[k] is Import) && c.dependencies_of(x)[k].target() == y;
        let d = c.dependencies_of(x)[k];
        assert(scope_of(c, x)[k] == d);
        assert(scope_of(c, x).contains(d));
    }
    crate::identcache::lemma_closed(c, schema, all, n);
}

/// What a schema sees of what is known: everything of its own, and what the schemas that it takes
/// over define, unless it has a definition of that name and kind itself.
pub proof fn law_own_definitions_hide_others(c: IdentCacheView, schema: SchemaId, i: IdentView)
    ensures
        c.visible(schema, i) <==> c.idents.contains(i) && (i.schema == schema || (c.set_of(
            schema,
        ).contains(i.schema) && !c.idents.contains(IdentView { schema, ..i }))),
{
}

/// A schema that is visited is known with its namespace, and with everything that it depends on, of
/// whatever kind. What was known of other schemas stays.
pub proof fn law_visited_schemas_are_known_with_their_dependencies(
    c: IdentCacheView,
    schema: SchemaId,
    info: SchemaInfoView,
    d: Dependency<SchemaId>,
    other: SchemaId,
)
    requires
        info.dependencies.dom().finite(),
    ensures
        ({
            let r = registered(c, schema, info);
            &&& r.scopes.contains_key(schema)
            &&& r.scopes[schema].ns == info.namespace_id
            &&& scope_of(r, schema).contains(d) <==> scope_of(c, schema).contains(d) || exists|
                l: Seq<char>,
            | #[trigger] info.dependencies.contains_key(l) && info.dependencies[l] == d
            &&& other != schema ==> scope_of(r, other) == scope_of(c, other)
            &&& r.idents == c.idents
            &&& r.globals == c.globals
        }),
{
    let r = registered(c, schema, info);
    let order = in_order::<Label>(info.dependencies.dom());
    let listed = crate::schemawalk::listed_dependencies(info.dependencies);
    let before = scope_of(c, schema);
    let all = scope_of(r, schema);
    lemma_in_order_finite::<Label>(info.dependencies.dom());
    assert(all == before + listed);
    if before.contains(d) {
        let k = choose|k: int| 0 <= k < before.len() && before[k] == d;
        assert(all[k] == d);
    }
    if exists|l: Seq<char>| #[trigger]
        info.dependencies.contains_key(l) && info.dependencies[l] == d {
        let l = choose|l: Seq<char>| #[trigger]
            info.dependencies.contains_key(l) && info.dependencies[l] == d;
        assert(order.contains(l));
        let k = choose|k: int| 0 <= k < order.len() && order[k] == l;
        assert(listed[k] == d);
        assert(all[before.len() + k] == d);
    }
    if all.contains(d) && !before.contains(d) {
        let k = choose|k: int| 0 <= k < all.len() && all[k] == d;
        if k < before.len() {
            assert(before[k] == d);
        }
        let l = order[k - before.len()];
        assert(order.contains(l));
        assert(info.dependencies.contains_key(l) && info.dependencies[l] == d);
    }
}

/// The namespaces that are visible everywhere are those of XML Schema, of XML and of XML Schema
/// instances.
pub proof fn law_three_namespaces_are_visible_everywhere(schemas: SchemasView, id: NamespaceId)
    ensures
        global_namespaces(schemas).contains(id) <==> schemas.namespace_infos.contains_key(id) && (
        schemas.namespace_infos[id].namespace == Some(
            vstd::utf8::encode_utf8("http://www.w3.org/2001/XMLSchema"@),
        ) || schemas.namespace_infos[id].namespace == Some(
            vstd::utf8::encode_utf8("http://www.w3.org/XML/1998/namespace"@),
        ) || schemas.namespace_infos[id].namespace == Some(
            vstd::utf8::encode_utf8("http://www.w3.org/2001/XMLSchema-instance"@),
        )),
{
}

/// Everything that a schema sees is listed, each identifier once, and nothing else is.
pub proof fn law_everything_visible_is_listed_once(
    c: IdentCacheView,
    schema: SchemaId,
    i: IdentView,
)
    requires
        c.idents.finite(),
    ensures
        c.schema_set(schema).no_duplicates(),
        c.schema_set(schema).contains(i) <==> c.idents.contains(i) && (i.schema == schema || (
        c.set_of(schema).contains(i.schema) && !c.idents.contains(IdentView { schema, ..i }))),
{
    lemma_listed_once(schema, c);
    law_own_definitions_hide_others(c, schema, i);
    let list = c.schema_set(schema);
    if list.contains(i) {
        let k = choose|k: int| 0 <= k < list.len() && list[k] == i;
        assert(c.visible(schema, list[k]));
    }
    assert forall|a: int, b: int| 0 <= a < list.len() && 0 <= b < list.len() && a
        != b implies list[a] != list[b] by {
        if a < b {
            assert(list[a] != list[b]);
        } else {
            assert(list[b] != list[a]);
        }
    }
}

/// An identifier that names its schema is what it is: it is not looked up. One that does not is
/// looked up among all schemas, and the first schema that defines it is found, or none.
pub proof fn law_identifiers_are_looked_up_without_a_schema(
    c: IdentCacheView,
    schema: SchemaId,
    space: NamespaceId,
    s: SchemaId,
    kind: IdentType,
    text: Seq<char>,
)
    ensures
        ({
            let wanted = in_place_of(space, s, kind, text);
            &&& s.0 != 0 ==> c.resolve(wanted) == Ok::<IdentView, ErrorView>(wanted)
            &&& s.0 != 0 ==> c.resolve_for_schema(schema, wanted) == Ok::<IdentView, ErrorView>(
                wanted,
            )
            &&& s.0 == 0 ==> match c.resolve(wanted) {
                Ok(i) => {
                    &&& i == in_place_of(space, i.schema, kind, text)
                    &&& defined_first(c.idents, space, kind, text, i.schema)
                },
                Err(e) => {
                    &&& e == ErrorView::UnknownType(wanted)
                    &&& !defined_somewhere(c.idents, space, kind, text)
                },
            }
        }),
{
    if s.0 == 0 {
        lemma_known(c.idents, space, kind, text);
        let wanted = in_place_of(space, s, kind, text);
        assert(wanted == in_place_of(space, SchemaId(0), kind, text));
        if defined_somewhere(c.idents, space, kind, text) {
            let r = choose|r: SchemaId|
                c.idents.contains(#[trigger] in_place_of(space, r, kind, text));
            let f = lemma_defined_first(c.idents, space, kind, text, r);
            assert(first_fit(c.idents, wanted, in_place_of(space, f, kind, text)));
            let i = choose|i: IdentView| first_fit(c.idents, wanted, i);
            assert(first_fit(c.idents, wanted, i));
        }
    }
}

} // verus!
