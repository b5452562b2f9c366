//! What the tags of a document bind.

use vstd::prelude::*;

use crate::models::{colon_at, local_part, prefix_part};
use crate::reader::{
    depth_after, sound_attributes, with_attributes, with_tag, xmlns, AttributeView, EventKind,
};
use crate::textlaws::law_names_are_split_at_the_first_colon;

verus! {

/// What stands in front of the prefix in the name of an attribute that binds it: `xmlns:`.
pub open spec fn binding_mark() -> Seq<u8> {
    seq![120u8, 109u8, 108u8, 110u8, 115u8, 58u8]
}

/// Whether an attribute binds a prefix to a namespace.
pub open spec fn binds_to(a: AttributeView, namespace: Seq<u8>) -> bool {
    a matches AttributeView::Sound { key, value } && value == namespace
        && binding_mark().is_prefix_of(key)
}

/// The prefix that an attribute binds.
pub open spec fn bound_by(a: AttributeView) -> Seq<u8> {
    a->key.skip(6)
}

/// The prefixes that are bound to a namespace.
pub open spec fn bound_to(
    namespaces: Map<Option<Seq<u8>>, Seq<Seq<u8>>>,
    ns: Option<Seq<u8>>,
) -> Seq<Seq<u8>> {
    if namespaces.contains_key(ns) {
        namespaces[ns]
    } else {
        Seq::empty()
    }
}

/// The prefixes that attributes bind to a namespace, in their order.
pub open spec fn bound_in(attributes: Seq<AttributeView>, namespace: Seq<u8>) -> Seq<Seq<u8>> {
    attributes.filter(|a: AttributeView| binds_to(a, namespace)).map_values(
        |a: AttributeView| bound_by(a),
    )
}

/// What `xmlns` is in bytes.
proof fn lemma_xmlns()
    ensures
        xmlns().push(58) == binding_mark(),
        !xmlns().contains(58),
        xmlns().len() == 5,
{
    reveal_strlit("xmlns");
    let text = "xmlns"@;
    assert(vstd::utf8::is_ascii_chars(text));
    vstd::utf8::is_ascii_chars_encode_utf8(text);
    let b = xmlns();
    assert(b[0] == 120 && b[1] == 109 && b[2] == 108 && b[3] == 110 && b[4] == 115);
    assert(xmlns().push(58) =~= binding_mark());
}

/// The byte at the first colon is a colon.
proof fn lemma_at_colon(raw: Seq<u8>)
    ensures
        0 <= colon_at(raw) <= raw.len(),
        colon_at(raw) < raw.len() ==> raw[colon_at(raw)] == 58,
    decreases raw.len(),
{
    if raw.len() > 0 && raw[0] != 58 {
        lemma_at_colon(raw.drop_first());
    }
}

/// Which names of attributes have the prefix `xmlns`.
proof fn lemma_mark(key: Seq<u8>)
    ensures
        prefix_part(key) == Some(xmlns()) <==> binding_mark().is_prefix_of(key),
        prefix_part(key) == Some(xmlns()) ==> local_part(key) == key.skip(6),
{
    lemma_xmlns();
    if binding_mark().is_prefix_of(key) {
        law_names_are_split_at_the_first_colon(xmlns(), key.skip(6));
        assert(key =~= binding_mark() + key.skip(6));
    }
    if prefix_part(key) == Some(xmlns()) {
        lemma_at_colon(key);
        let k = colon_at(key);
        assert(key.take(k).len() == k);
        assert(key.take(6) =~= key.take(k).push(58));
        assert(binding_mark() =~= key.take(6));
    }
}

/// What the first attributes bind.
proof fn lemma_bound(
    namespaces: Map<Option<Seq<u8>>, Seq<Seq<u8>>>,
    attributes: Seq<AttributeView>,
    n: nat,
    namespace: Seq<u8>,
)
    requires
        n <= attributes.len(),
    ensures
        ({
            let t = with_attributes(namespaces, attributes, n);
            let new = bound_in(attributes.take(n as int), namespace);
            &&& bound_to(t, Some(namespace)) == bound_to(namespaces, Some(namespace)) + new
            &&& t.contains_key(Some(namespace)) <==> namespaces.contains_key(Some(namespace))
                || new.len() > 0
            &&& bound_to(t, None) == bound_to(namespaces, None)
            &&& t.contains_key(None) <==> namespaces.contains_key(None)
        }),
    decreases n,
{
    reveal(Seq::filter);
    let mine = |a: AttributeView| binds_to(a, namespace);
    let prefix = |a: AttributeView| bound_by(a);
    let first = attributes.take(n as int);
    if n > 0 {
        lemma_bound(namespaces, attributes, (n - 1) as nat, namespace);
        let last = attributes[n - 1];
        assert(first.drop_last() =~= attributes.take(n - 1));
        assert(first.last() == last);
        if let AttributeView::Sound { key, value } = last {
            lemma_mark(key);
        }
        let before = bound_in(attributes.take(n - 1), namespace);
        let after = bound_in(first, namespace);
        if binds_to(last, namespace) {
            assert(first.filter(mine) == first.drop_last().filter(mine).push(last));
            assert(after =~= before.push(bound_by(last)));
        } else {
            assert(first.filter(mine) == first.drop_last().filter(mine));
            assert(after =~= before);
        }
        assert(bound_to(with_attributes(namespaces, attributes, n), Some(namespace)) =~= bound_to(
            namespaces,
            Some(namespace),
        ) + after);
    } else {
        assert(first =~= Seq::empty());
        assert(bound_in(first, namespace) =~= Seq::empty());
        assert(bound_to(namespaces, Some(namespace)) =~= bound_to(namespaces, Some(namespace))
            + bound_in(first, namespace));
    }
}

/// How many attributes come before the first faulty one.
proof fn lemma_sound(attributes: Seq<AttributeView>, n: nat)
    requires
        n <= attributes.len(),
        forall|i: int| 0 <= i < n ==> !(#[trigger] attributes[i] is Faulty),
        n == attributes.len() || attributes[n as int] is Faulty,
    ensures
        sound_attributes(attributes) == n,
    decreases n,
{
    if n > 0 {
        assert(!(attributes[0] is Faulty));
        assert forall|i: int| 0 <= i < n - 1 implies
            !(#[trigger] attributes.drop_first()[i] is Faulty) by {
            assert(!(attributes[i + 1] is Faulty));
        }
        lemma_sound(attributes.drop_first(), (n - 1) as nat);
    }
}

/// The attributes of a tag, up to the first faulty one, bind prefixes to namespaces: each one that
/// is called `xmlns:` and a prefix binds that prefix to the namespace that is its value. Prefixes
/// are kept in the order in which they are bound, behind those that were bound before. Nothing else
/// is bound, and nothing is ever bound to the anonymous namespace.
pub proof fn law_tags_bind_prefixes(
    namespaces: Map<Option<Seq<u8>>, Seq<Seq<u8>>>,
    attributes: Seq<AttributeView>,
    n: nat,
    namespace: Seq<u8>,
)
    requires
        n <= attributes.len(),
        forall|i: int| 0 <= i < n ==> !(#[trigger] attributes[i] is Faulty),
        n == attributes.len() || attributes[n as int] is Faulty,
    ensures
        ({
            let t = with_tag(namespaces, attributes);
            let new = bound_in(attributes.take(n as int), namespace);
            &&& bound_to(t, Some(namespace)) == bound_to(namespaces, Some(namespace)) + new
            &&& t.contains_key(Some(namespace)) <==> namespaces.contains_key(Some(namespace))
                || new.len() > 0
            &&& bound_to(t, None) == bound_to(namespaces, None)
            &&& t.contains_key(None) <==> namespaces.contains_key(None)
        }),
{
    lemma_sound(attributes, n);
    lemma_bound(namespaces, attributes, n, namespace);
}

/// A tag is faulty exactly if one of its attributes is.
pub proof fn law_faulty_attributes_are_found(attributes: Seq<AttributeView>)
    ensures
        sound_attributes(attributes) == attributes.len() <==> forall|i: int|
            0 <= i < attributes.len() ==> !(#[trigger] attributes[i] is Faulty),
        sound_attributes(attributes) <= attributes.len(),
    decreases attributes.len(),
{
    if attributes.len() > 0 {
        law_faulty_attributes_are_found(attributes.drop_first());
        if attributes[0] is Faulty {
        } else if sound_attributes(attributes) == attributes.len() {
            assert forall|i: int| 0 <= i < attributes.len() implies
                !(#[trigger] attributes[i] is Faulty) by {
                if i > 0 {
                    assert(!(attributes.drop_first()[i - 1] is Faulty));
                }
            }
        } else {
            let k = choose|k: int|
                0 <= k < attributes.drop_first().len()
                    && #[trigger] attributes.drop_first()[k] is Faulty;
            assert(attributes[k + 1] is Faulty);
        }
    }
}

/// A start tag opens one more element, and an end tag closes one if any is open. Nothing else
/// changes how many are open.
pub proof fn law_tags_open_and_close_elements(depth: nat, kind: EventKind)
    ensures
        depth_after(depth_after(depth, EventKind::Start), EventKind::End) == depth,
        depth_after(depth, EventKind::Start) == depth + 1,
        depth_after(0, EventKind::End) == 0,
        !(kind is Start) && !(kind is End) ==> depth_after(depth, kind) == depth,
{
}

} // verus!
