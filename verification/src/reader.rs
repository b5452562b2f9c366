//! Reads XML events and collects the namespace prefixes that a document binds.

use quick_xml::events::attributes::AttrError;
use quick_xml::events::Event;
use quick_xml::NsReader;
use vstd::prelude::*;
use vstd::utf8::encode_utf8;

use crate::models::{
    local_part, prefix_part, split_name, MaybeNamespace, Namespace, NamespacePrefix,
};
use crate::ordmap::OrdMap;
use crate::parser::Namespaces;
use crate::text::same_bytes;
use crate::xs::Schema;

verus! {

/// `quick_xml::NsReader`: reads the events of a document one after the other.
#[verifier::external_type_specification]
#[verifier::external_body]
#[verifier::reject_recursive_types(R)]
pub struct ExNsReader<R>(quick_xml::NsReader<R>);

/// `quick_xml::events::Event`: one event of a document.
#[verifier::external_type_specification]
#[verifier::external_body]
pub struct ExEvent<'a>(quick_xml::events::Event<'a>);

/// `quick_xml::Error`: why no event can be read.
#[verifier::external_type_specification]
#[verifier::external_body]
pub struct ExXmlError(quick_xml::Error);

/// `quick_xml::events::attributes::AttrError`: what is wrong with an attribute.
#[verifier::external_type_specification]
#[verifier::external_body]
pub struct ExAttrError(quick_xml::events::attributes::AttrError);

/// The events that matter here.
#[derive(Debug, Clone, Copy, PartialEq, Eq, Structural)]
pub enum EventKind {
    /// An opening tag.
    Start,
    /// A tag that is closed at once.
    Empty,
    /// A closing tag.
    End,
    /// Anything else.
    Other,
}

/// An attribute of a tag.
#[derive(Debug)]
pub struct XmlAttribute {
    pub key: Vec<u8>,
    pub value: Vec<u8>,
}

/// What is known of an attribute.
pub enum AttributeView {
    /// An attribute with its name and its raw value.
    Sound { key: Seq<u8>, value: Seq<u8> },
    /// Something that is no attribute, or one whose name occurred before.
    Faulty,
}

/// What is known of an event: its kind, and its attributes if it is a tag.
pub struct EventView {
    pub kind: EventKind,
    pub attributes: Seq<AttributeView>,
}

/// The view of a list of attributes.
pub open spec fn attributes_view(list: Seq<Result<XmlAttribute, AttrError>>) -> Seq<AttributeView> {
    Seq::new(
        list.len(),
        |i: int|
            match list[i] {
                Ok(a) => AttributeView::Sound { key: a.key@, value: a.value@ },
                Err(_) => AttributeView::Faulty,
            },
    )
}

/// What an event holds.
pub uninterp spec fn event_view(event: Event<'_>) -> EventView;

/// What a reader holds: the outcomes of all further calls of `read_event`, by their number. An
/// error has no event.
pub uninterp spec fn unread(reader: NsReader<&[u8]>) -> Map<nat, Option<EventView>>;

/// How many tags of a reader are open.
pub uninterp spec fn open_tags(reader: NsReader<&[u8]>) -> nat;

/// The outcomes of reading bytes.
pub uninterp spec fn byte_events(bytes: Seq<u8>) -> Map<nat, Option<EventView>>;

/// The most tags that a reader can keep open.
pub const MAX_DEPTH: usize = 65535;

/// The outcomes after the first one.
pub open spec fn later(events: Map<nat, Option<EventView>>) -> Map<nat, Option<EventView>> {
    Map::new(|n: nat| events.contains_key(n + 1), |n: nat| events[n + 1])
}

/// `NsReader::from_str` reads a text. What it reads are the events of the UTF-8 bytes of the text,
/// and no tag is open. In what encoding the reader decodes is not part of an event here.
#[verifier::external_body]
fn read_text<'a>(text: &'a str) -> (r: NsReader<&'a [u8]>)
    ensures
        unread(r) == byte_events(encode_utf8(text@)),
        open_tags(r) == 0,
{
    NsReader::from_str(text)
}

/// `NsReader::from_reader` on bytes in memory reads the bytes. What it reads is a function of the
/// bytes, and no tag is open.
#[verifier::external_body]
fn read_bytes<'a>(bytes: &'a [u8]) -> (r: NsReader<&'a [u8]>)
    ensures
        unread(r) == byte_events(bytes@),
        open_tags(r) == 0,
{
    NsReader::from_reader(bytes)
}

/// `NsReader::read_event` on bytes in memory gives the next outcome and leaves the later ones. It
/// keeps a 16 bit count of open tags, which an opening tag increases and a closing tag decreases.
/// An error may increase it too.
#[verifier::external_body]
fn next_event<'a>(reader: &mut NsReader<&'a [u8]>) -> (r: Result<Event<'a>, quick_xml::Error>)
    requires
        open_tags(*old(reader)) < MAX_DEPTH,
    ensures
        unread(*final(reader)) == later(unread(*old(reader))),
        unread(*old(reader)).contains_key(0),
        match r {
            Ok(event) => unread(*old(reader))[0] == Some(event_view(event)) && open_tags(
                *final(reader),
            ) == depth_after(open_tags(*old(reader)), event_view(event).kind),
            Err(_) => unread(*old(reader))[0] is None && open_tags(*final(reader)) <= open_tags(
                *old(reader),
            ) + 1,
        },
    no_unwind
{
    reader.read_event()
}

/// How many tags are open after an event.
pub open spec fn depth_after(depth: nat, kind: EventKind) -> nat {
    match kind {
        EventKind::Start => depth + 1,
        EventKind::End => if depth > 0 {
            (depth - 1) as nat
        } else {
            0
        },
        _ => depth,
    }
}

/// `Event` is an enumeration: tells opening tags, tags that are closed at once and closing tags
/// from all other events.
#[verifier::external_body]
fn event_kind(event: &Event<'_>) -> (k: EventKind)
    ensures
        k == event_view(*event).kind,
{
    match event {
        Event::Start(_) => EventKind::Start,
        Event::Empty(_) => EventKind::Empty,
        Event::End(_) => EventKind::End,
        _ => EventKind::Other,
    }
}

/// `BytesStart::attributes` lists the attributes of a tag with their raw values. Any other event
/// has no attributes.
#[verifier::external_body]
fn event_attributes(event: &Event<'_>) -> (r: Vec<Result<XmlAttribute, AttrError>>)
    ensures
        attributes_view(r@) == event_view(*event).attributes,
{
    match event {
        Event::Start(x) | Event::Empty(x) => x.attributes().map(
            |a| a.map(
                |a| XmlAttribute { key: a.key.as_ref().to_vec(), value: a.value.into_owned() },
            ),
        ).collect(),
        _ => Vec::new(),
    }
}

/// Why a document cannot be read.
#[derive(Debug)]
pub enum ReadError {
    /// No event can be read.
    Xml(quick_xml::Error),
    /// A tag has a faulty attribute.
    Attribute(AttrError),
    /// The document is no schema.
    Content(String),
}

/// The bytes of the prefix by which attributes bind prefixes.
pub open spec fn xmlns() -> Seq<u8> {
    encode_utf8("xmlns"@)
}

/// The prefixes of all namespaces with one more.
pub open spec fn with_binding(
    namespaces: Map<Option<Seq<u8>>, Seq<Seq<u8>>>,
    namespace: Seq<u8>,
    prefix: Seq<u8>,
) -> Map<Option<Seq<u8>>, Seq<Seq<u8>>> {
    let key = Some(namespace);
    let before = if namespaces.contains_key(key) {
        namespaces[key]
    } else {
        Seq::empty()
    };
    namespaces.insert(key, before.push(prefix))
}

/// What an attribute binds: `xmlns:prefix="namespace"` binds a prefix, anything else nothing.
pub open spec fn with_attribute(
    namespaces: Map<Option<Seq<u8>>, Seq<Seq<u8>>>,
    attribute: AttributeView,
) -> Map<Option<Seq<u8>>, Seq<Seq<u8>>> {
    match attribute {
        AttributeView::Sound { key, value } if prefix_part(key) == Some(xmlns()) => with_binding(
            namespaces,
            value,
            local_part(key),
        ),
        _ => namespaces,
    }
}

/// What the first `n` attributes of a tag bind.
pub open spec fn with_attributes(
    namespaces: Map<Option<Seq<u8>>, Seq<Seq<u8>>>,
    attributes: Seq<AttributeView>,
    n: nat,
) -> Map<Option<Seq<u8>>, Seq<Seq<u8>>>
    decreases n,
{
    if n == 0 {
        namespaces
    } else {
        with_attribute(with_attributes(namespaces, attributes, (n - 1) as nat), attributes[n - 1])
    }
}

/// How many attributes come before the first faulty one.
pub open spec fn sound_attributes(attributes: Seq<AttributeView>) -> nat
    decreases attributes.len(),
{
    if attributes.len() == 0 || attributes[0] is Faulty {
        0
    } else {
        1 + sound_attributes(attributes.drop_first())
    }
}

/// What a tag binds: what its attributes bind, up to the first faulty one.
pub open spec fn with_tag(
    namespaces: Map<Option<Seq<u8>>, Seq<Seq<u8>>>,
    attributes: Seq<AttributeView>,
) -> Map<Option<Seq<u8>>, Seq<Seq<u8>>> {
    with_attributes(namespaces, attributes, sound_attributes(attributes))
}

/// Adds a prefix to those of a namespace.
fn bind(namespaces: &mut Namespaces, namespace: Namespace, prefix: NamespacePrefix)
    ensures
        final(namespaces)@ == with_binding(old(namespaces)@, namespace@, prefix@),
{
    let ghost before = namespaces@;
    let ghost pv = prefix@;
    let key = MaybeNamespace(Some(namespace));
    let mut prefixes = match namespaces.remove(&key) {
        Some(prefixes) => prefixes,
        None => Vec::new(),
    };
    let ghost list = prefixes.deep_view();
    proof {
        if !before.contains_key(key@) {
            assert(list =~= Seq::empty());
        }
    }
    prefixes.push(prefix);
    assert(prefixes.deep_view() =~= list.push(pv));
    let ghost kv = key@;
    namespaces.insert(key, prefixes);
    assert(namespaces@ =~= before.insert(kv, list.push(pv)));
}

/// Collects what the attributes of a tag bind, up to the first faulty one.
pub fn bind_all(
    namespaces: &mut Namespaces,
    attributes: Vec<Result<XmlAttribute, AttrError>>,
) -> (r: Result<(), AttrError>)
    ensures
        final(namespaces)@ == with_tag(old(namespaces)@, attributes_view(attributes@)),
        r is Ok <==> sound_attributes(attributes_view(attributes@)) == attributes@.len(),
{
    let ghost before = namespaces@;
    let ghost all = attributes_view(attributes@);
    let ghost given = attributes@;
    assert(all.skip(0) =~= all);
    for attribute in it: attributes.into_iter()
        invariant
            it.seq() == given,
            all == attributes_view(given),
            before == old(namespaces)@,
            namespaces@ == with_attributes(before, all, it.index() as nat),
            sound_attributes(all) == it.index() + sound_attributes(all.skip(it.index() as int)),
    {
        let ghost k = it.index();
        proof {
            assert(given[k] == attribute);
            assert(all.skip(k)[0] == all[k]);
            assert(all.skip(k).drop_first() =~= all.skip(k + 1));
        }
        match attribute {
            Ok(a) => {
                let (prefix, local) = split_name(a.key.as_slice());
                match prefix {
                    Some(prefix) => {
                        if same_bytes(prefix.as_slice(), "xmlns".as_bytes()) {
                            bind(
                                namespaces,
                                Namespace::new(a.value),
                                NamespacePrefix::new(local),
                            );
                        }
                    },
                    None => {},
                }
            },
            Err(e) => {
                return Err(e);
            },
        }
    }
    Ok(())
}

/// Reads the events of a schema document, and collects the prefixes that it binds.
pub struct SchemaReader<'a> {
    inner: NsReader<&'a [u8]>,
    namespaces: Namespaces,
    depth: usize,
}

/// The parts of a schema reader.
pub struct ReaderView {
    /// The outcomes of all further reads.
    pub unread: Map<nat, Option<EventView>>,
    /// The prefixes that were bound so far.
    pub namespaces: Map<Option<Seq<u8>>, Seq<Seq<u8>>>,
    /// How many tags are open at most.
    pub depth: nat,
}

/// A reader that has read nothing.
pub open spec fn new_reader(events: Map<nat, Option<EventView>>) -> ReaderView {
    ReaderView { unread: events, namespaces: Map::empty(), depth: 0 }
}

impl<'a> View for SchemaReader<'a> {
    type V = ReaderView;

    closed spec fn view(&self) -> ReaderView {
        ReaderView {
            unread: unread(self.inner),
            namespaces: self.namespaces@,
            depth: self.depth as nat,
        }
    }
}

impl<'a> SchemaReader<'a> {
    #[verifier::type_invariant]
    spec fn counted(self) -> bool {
        open_tags(self.inner) <= self.depth
    }

    /// Reads a text.
    pub fn from_text(text: &'a str) -> (r: Self)
        ensures
            r@ == new_reader(byte_events(encode_utf8(text@))),
    {
        SchemaReader { inner: read_text(text), namespaces: OrdMap::new(), depth: 0 }
    }

    /// Reads bytes.
    pub fn from_bytes(bytes: &'a [u8]) -> (r: Self)
        ensures
            r@ == new_reader(byte_events(bytes@)),
    {
        SchemaReader { inner: read_bytes(bytes), namespaces: OrdMap::new(), depth: 0 }
    }

    /// Reads the next event, and collects the prefixes that it binds.
    pub fn read_event(&mut self) -> (r: Result<Event<'a>, ReadError>)
        requires
            old(self)@.depth < MAX_DEPTH,
        ensures
            final(self)@.unread == later(old(self)@.unread),
            old(self)@.unread.contains_key(0),
            match old(self)@.unread[0] {
                Some(event) => {
                    &&& final(self)@.namespaces == with_tag(
                        old(self)@.namespaces,
                        event.attributes,
                    )
                    &&& final(self)@.depth == depth_after(old(self)@.depth, event.kind)
                    &&& match r {
                        Ok(e) => event_view(e) == event && sound_attributes(event.attributes)
                            == event.attributes.len(),
                        Err(e) => e is Attribute && sound_attributes(event.attributes)
                            < event.attributes.len(),
                    }
                },
                None => {
                    &&& r matches Err(e) && e is Xml
                    &&& final(self)@.namespaces == old(self)@.namespaces
                    &&& final(self)@.depth == old(self)@.depth + 1
                },
            },
    {
        proof {
            use_type_invariant(&*self);
        }
        let depth = self.depth;
        self.depth = depth + 1;
        let event = match next_event(&mut self.inner) {
            Ok(event) => event,
            Err(e) => {
                return Err(ReadError::Xml(e));
            },
        };
        match event_kind(&event) {
            EventKind::Start => {},
            EventKind::End => {
                self.depth = if depth > 0 {
                    depth - 1
                } else {
                    0
                };
            },
            _ => {
                self.depth = depth;
            },
        }
        let attributes = event_attributes(&event);
        proof {
            lemma_sound_bound(attributes_view(attributes@));
        }
        let mut namespaces: Namespaces = OrdMap::new();
        std::mem::swap(&mut namespaces, &mut self.namespaces);
        let r = bind_all(&mut namespaces, attributes);
        self.namespaces = namespaces;
        match r {
            Ok(()) => Ok(event),
            Err(e) => Err(ReadError::Attribute(e)),
        }
    }

    /// How many tags are open at most. No event can be read if there are `MAX_DEPTH` of them.
    pub fn depth(&self) -> (n: usize)
        ensures
            n == self@.depth,
    {
        self.depth
    }

    /// The prefixes that were bound.
    pub fn into_namespaces(self) -> (n: Namespaces)
        ensures
            n@ == self@.namespaces,
    {
        self.namespaces
    }
}

/// No more attributes are sound than there are.
proof fn lemma_sound_bound(attributes: Seq<AttributeView>)
    ensures
        sound_attributes(attributes) <= attributes.len(),
    decreases attributes.len(),
{
    if attributes.len() > 0 {
        lemma_sound_bound(attributes.drop_first());
    }
}

/// Makes a schema of the events of a document.
pub trait DeserializeSchema {
    /// Reads events until the schema is complete, and gives the reader back. Before each event,
    /// the reader's depth is to be below `MAX_DEPTH`.
    fn deserialize<'a>(&self, reader: SchemaReader<'a>) -> (r: (
        Result<Schema, ReadError>,
        SchemaReader<'a>,
    ));
}

/// Whether a deserializer may make a schema, or fail, and see the given prefixes bound, where a new
/// reader reads the given events.
pub open spec fn deserialized<D: DeserializeSchema>(
    deserializer: &D,
    events: Map<nat, Option<EventView>>,
    r: Result<Schema, ReadError>,
    namespaces: Map<Option<Seq<u8>>, Seq<Seq<u8>>>,
) -> bool {
    exists|start: SchemaReader<'_>, end: SchemaReader<'_>|
        {
            &&& start@ == new_reader(events)
            &&& end@.namespaces == namespaces
            &&& #[trigger] call_ensures(D::deserialize, (deserializer, start), (r, end))
        }
}

} // verus!
