//! The plain values of the schema model: identifiers, namespaces, qualified names, locations.

use vstd::prelude::*;

use crate::order::{byte_code, cons, lex_order, text_code, Key, Order};
use crate::order::{
    lemma_byte_code_injective, lemma_cons_order, lemma_text_code_injective, order_of_bytes,
    order_of_numbers,
};
use crate::text::{copy_bytes, encode};

verus! {

/// Identifies a schema while its document is being loaded.
#[derive(Debug, Clone, Copy, PartialEq, Eq, Structural)]
pub struct TempSchemaId(pub usize);

/// Identifies a schema of a finished schema collection.
#[derive(Debug, Clone, Copy, PartialEq, Eq, Structural)]
pub struct SchemaId(pub usize);

/// Identifies a namespace of a finished schema collection.
#[derive(Debug, Clone, Copy, PartialEq, Eq, Structural)]
pub struct NamespaceId(pub usize);

/// The number of the schema of an identifier that was not resolved yet.
pub const UNKNOWN_SCHEMA: usize = 0;

/// The number of the namespace of everything that has no namespace.
pub const ANONYMOUS_NAMESPACE: usize = 0;

impl View for TempSchemaId {
    type V = TempSchemaId;

    open spec fn view(&self) -> TempSchemaId {
        *self
    }
}

impl DeepView for TempSchemaId {
    type V = TempSchemaId;

    open spec fn deep_view(&self) -> TempSchemaId {
        *self
    }
}

impl View for SchemaId {
    type V = SchemaId;

    open spec fn view(&self) -> SchemaId {
        *self
    }
}

impl DeepView for SchemaId {
    type V = SchemaId;

    open spec fn deep_view(&self) -> SchemaId {
        *self
    }
}

impl View for NamespaceId {
    type V = NamespaceId;

    open spec fn view(&self) -> NamespaceId {
        *self
    }
}

impl DeepView for NamespaceId {
    type V = NamespaceId;

    open spec fn deep_view(&self) -> NamespaceId {
        *self
    }
}

/// The code of a single number.
pub open spec fn number_code(n: int) -> Seq<int> {
    cons(n, Seq::empty())
}

/// Numbers are ordered as their codes are.
proof fn lemma_number_order(a: int, b: int)
    ensures
        a < b ==> lex_order(number_code(a), number_code(b)) == Order::Before,
        a > b ==> lex_order(number_code(a), number_code(b)) == Order::After,
        a == b ==> lex_order(number_code(a), number_code(b)) == Order::Same,
        number_code(a) == number_code(b) ==> a == b,
{
    lemma_cons_order(a, Seq::empty(), b, Seq::empty());
}

impl Key for TempSchemaId {
    open spec fn code(v: TempSchemaId) -> Seq<int> {
        number_code(v.0 as int)
    }

    proof fn code_injective(a: TempSchemaId, b: TempSchemaId) {
        lemma_number_order(a.0 as int, b.0 as int);
    }

    fn order_of(&self, other: &Self) -> (o: Order) {
        proof {
            lemma_number_order(self.0 as int, other.0 as int);
        }
        order_of_numbers(self.0, other.0)
    }
}

impl Key for SchemaId {
    open spec fn code(v: SchemaId) -> Seq<int> {
        number_code(v.0 as int)
    }

    proof fn code_injective(a: SchemaId, b: SchemaId) {
        lemma_number_order(a.0 as int, b.0 as int);
    }

    fn order_of(&self, other: &Self) -> (o: Order) {
        proof {
            lemma_number_order(self.0 as int, other.0 as int);
        }
        order_of_numbers(self.0, other.0)
    }
}

impl Key for NamespaceId {
    open spec fn code(v: NamespaceId) -> Seq<int> {
        number_code(v.0 as int)
    }

    proof fn code_injective(a: NamespaceId, b: NamespaceId) {
        lemma_number_order(a.0 as int, b.0 as int);
    }

    fn order_of(&self, other: &Self) -> (o: Order) {
        proof {
            lemma_number_order(self.0 as int, other.0 as int);
        }
        order_of_numbers(self.0, other.0)
    }
}

/// The bytes of a namespace name.
#[derive(Debug)]
pub struct Namespace(pub Vec<u8>);

/// The bytes of a namespace prefix.
#[derive(Debug)]
pub struct NamespacePrefix(pub Vec<u8>);

impl View for Namespace {
    type V = Seq<u8>;

    open spec fn view(&self) -> Seq<u8> {
        self.0@
    }
}

impl DeepView for Namespace {
    type V = Seq<u8>;

    open spec fn deep_view(&self) -> Seq<u8> {
        self.0@
    }
}

impl View for NamespacePrefix {
    type V = Seq<u8>;

    open spec fn view(&self) -> Seq<u8> {
        self.0@
    }
}

impl DeepView for NamespacePrefix {
    type V = Seq<u8>;

    open spec fn deep_view(&self) -> Seq<u8> {
        self.0@
    }
}

impl Namespace {
    /// Creates a namespace from its bytes.
    pub fn new(bytes: Vec<u8>) -> (n: Self)
        ensures
            n@ == bytes@,
    {
        Namespace(bytes)
    }

    /// The namespace of XML Schema.
    pub fn xs() -> (n: Self)
        ensures
            n@ == xs_namespace(),
    {
        Namespace(encode("http://www.w3.org/2001/XMLSchema"))
    }

    /// The namespace of XML Schema instances.
    pub fn xsi() -> (n: Self)
        ensures
            n@ == xsi_namespace(),
    {
        Namespace(encode("http://www.w3.org/2001/XMLSchema-instance"))
    }

    /// The namespace of XML.
    pub fn xml() -> (n: Self)
        ensures
            n@ == xml_namespace(),
    {
        Namespace(encode("http://www.w3.org/XML/1998/namespace"))
    }

    /// Copies the namespace.
    pub fn copy(&self) -> (n: Self)
        ensures
            n@ == self@,
    {
        Namespace(copy_bytes(&self.0))
    }
}

/// The bytes of the XML Schema namespace.
pub open spec fn xs_namespace() -> Seq<u8> {
    vstd::utf8::encode_utf8("http://www.w3.org/2001/XMLSchema"@)
}

/// The bytes of the XML Schema instance namespace.
pub open spec fn xsi_namespace() -> Seq<u8> {
    vstd::utf8::encode_utf8("http://www.w3.org/2001/XMLSchema-instance"@)
}

/// The bytes of the XML namespace.
pub open spec fn xml_namespace() -> Seq<u8> {
    vstd::utf8::encode_utf8("http://www.w3.org/XML/1998/namespace"@)
}

/// The bytes of the usual prefix of XML Schema.
pub open spec fn xs_prefix() -> Seq<u8> {
    vstd::utf8::encode_utf8("xs"@)
}

/// The bytes of the prefix of XML.
pub open spec fn xml_prefix() -> Seq<u8> {
    vstd::utf8::encode_utf8("xml"@)
}

impl NamespacePrefix {
    /// Creates a prefix from its bytes.
    pub fn new(bytes: Vec<u8>) -> (n: Self)
        ensures
            n@ == bytes@,
    {
        NamespacePrefix(bytes)
    }

    /// The usual prefix of XML Schema.
    pub fn xs() -> (n: Self)
        ensures
            n@ == xs_prefix(),
    {
        NamespacePrefix(encode("xs"))
    }

    /// The prefix of XML.
    pub fn xml() -> (n: Self)
        ensures
            n@ == xml_prefix(),
    {
        NamespacePrefix(encode("xml"))
    }

    /// Copies the prefix.
    pub fn copy(&self) -> (n: Self)
        ensures
            n@ == self@,
    {
        NamespacePrefix(copy_bytes(&self.0))
    }
}

impl Key for NamespacePrefix {
    open spec fn code(v: Seq<u8>) -> Seq<int> {
        byte_code(v)
    }

    proof fn code_injective(a: Seq<u8>, b: Seq<u8>) {
        lemma_byte_code_injective(a, b);
    }

    fn order_of(&self, other: &Self) -> (o: Order) {
        order_of_bytes(self.0.as_slice(), other.0.as_slice())
    }
}

/// A namespace, or its absence.
#[derive(Debug)]
pub struct MaybeNamespace(pub Option<Namespace>);

/// The view of an optional namespace.
pub open spec fn opt_ns(n: Option<Namespace>) -> Option<Seq<u8>> {
    match n {
        Some(n) => Some(n@),
        None => None,
    }
}

/// The view of an optional prefix.
pub open spec fn opt_prefix(n: Option<NamespacePrefix>) -> Option<Seq<u8>> {
    match n {
        Some(n) => Some(n@),
        None => None,
    }
}

/// Copies an optional namespace.
pub fn copy_ns(n: &Option<Namespace>) -> (r: Option<Namespace>)
    ensures
        opt_ns(r) == opt_ns(*n),
{
    match n {
        Some(n) => Some(n.copy()),
        None => None,
    }
}

/// Copies an optional prefix.
pub fn copy_prefix(n: &Option<NamespacePrefix>) -> (r: Option<NamespacePrefix>)
    ensures
        opt_prefix(r) == opt_prefix(*n),
{
    match n {
        Some(n) => Some(n.copy()),
        None => None,
    }
}

impl View for MaybeNamespace {
    type V = Option<Seq<u8>>;

    open spec fn view(&self) -> Option<Seq<u8>> {
        opt_ns(self.0)
    }
}

impl DeepView for MaybeNamespace {
    type V = Option<Seq<u8>>;

    open spec fn deep_view(&self) -> Option<Seq<u8>> {
        opt_ns(self.0)
    }
}

impl MaybeNamespace {
    /// Copies the namespace, if there is one.
    pub fn copy(&self) -> (r: Self)
        ensures
            r@ == self@,
    {
        MaybeNamespace(copy_ns(&self.0))
    }
}

impl Key for MaybeNamespace {
    open spec fn code(v: Option<Seq<u8>>) -> Seq<int> {
        match v {
            None => Seq::empty(),
            Some(b) => cons(0, byte_code(b)),
        }
    }

    proof fn code_injective(a: Option<Seq<u8>>, b: Option<Seq<u8>>) {
        match (a, b) {
            (Some(x), Some(y)) => {
                lemma_cons_order(0, byte_code(x), 0, byte_code(y));
                lemma_byte_code_injective(x, y);
            },
            (Some(x), None) => {
                assert(cons(0, byte_code(x)).len() > 0);
            },
            (None, Some(y)) => {
                assert(cons(0, byte_code(y)).len() > 0);
            },
            (None, None) => {},
        }
    }

    fn order_of(&self, other: &Self) -> (o: Order) {
        match (&self.0, &other.0) {
            (Some(x), Some(y)) => {
                proof {
                    lemma_cons_order(0, byte_code(x@), 0, byte_code(y@));
                }
                order_of_bytes(x.0.as_slice(), y.0.as_slice())
            },
            (Some(x), None) => {
                assert(Self::code(self@).len() > 0);
                Order::After
            },
            (None, Some(y)) => {
                assert(Self::code(other@).len() > 0);
                Order::Before
            },
            (None, None) => Order::Same,
        }
    }
}

/// The location of a document: the text of its URL.
///
/// Two URLs are the same exactly when their texts are.
#[derive(Debug)]
pub struct Location(pub String);

impl View for Location {
    type V = Seq<char>;

    open spec fn view(&self) -> Seq<char> {
        self.0@
    }
}

impl DeepView for Location {
    type V = Seq<char>;

    open spec fn deep_view(&self) -> Seq<char> {
        self.0@
    }
}

impl Location {
    /// Copies the location.
    pub fn copy(&self) -> (r: Self)
        ensures
            r@ == self@,
    {
        Location(self.0.clone())
    }
}

/// The view of an optional location.
pub open spec fn opt_location(l: Option<Location>) -> Option<Seq<char>> {
    match l {
        Some(l) => Some(l@),
        None => None,
    }
}

impl Key for Location {
    open spec fn code(v: Seq<char>) -> Seq<int> {
        text_code(v)
    }

    proof fn code_injective(a: Seq<char>, b: Seq<char>) {
        lemma_text_code_injective(a, b);
    }

    fn order_of(&self, other: &Self) -> (o: Order) {
        order_of_bytes(self.0.as_str().as_bytes(), other.0.as_str().as_bytes())
    }
}

/// A relation of one schema to another.
#[derive(Debug, Clone, Copy, PartialEq, Eq, Structural)]
pub enum Dependency<T> {
    Import(T),
    Include(T),
    Redefine(T),
    Override(T),
}

impl<T> Dependency<T> {
    /// What the dependency points to.
    pub open spec fn target(self) -> T {
        match self {
            Dependency::Import(t) => t,
            Dependency::Include(t) => t,
            Dependency::Redefine(t) => t,
            Dependency::Override(t) => t,
        }
    }

    /// The same relation to something else.
    pub open spec fn retarget<U>(self, u: U) -> Dependency<U> {
        match self {
            Dependency::Import(_) => Dependency::Import(u),
            Dependency::Include(_) => Dependency::Include(u),
            Dependency::Redefine(_) => Dependency::Redefine(u),
            Dependency::Override(_) => Dependency::Override(u),
        }
    }

    /// What the dependency points to.
    pub fn get(&self) -> (t: &T)
        ensures
            *t == self.target(),
    {
        match self {
            Dependency::Import(t) => t,
            Dependency::Include(t) => t,
            Dependency::Redefine(t) => t,
            Dependency::Override(t) => t,
        }
    }

    /// The same relation to something else.
    pub fn map_to<U>(&self, u: U) -> (d: Dependency<U>)
        ensures
            d == self.retarget(u),
    {
        match self {
            Dependency::Import(_) => Dependency::Import(u),
            Dependency::Include(_) => Dependency::Include(u),
            Dependency::Redefine(_) => Dependency::Redefine(u),
            Dependency::Override(_) => Dependency::Override(u),
        }
    }
}

impl View for Dependency<TempSchemaId> {
    type V = Dependency<TempSchemaId>;

    open spec fn view(&self) -> Dependency<TempSchemaId> {
        *self
    }
}

impl DeepView for Dependency<TempSchemaId> {
    type V = Dependency<TempSchemaId>;

    open spec fn deep_view(&self) -> Dependency<TempSchemaId> {
        *self
    }
}

impl View for Dependency<SchemaId> {
    type V = Dependency<SchemaId>;

    open spec fn view(&self) -> Dependency<SchemaId> {
        *self
    }
}

impl DeepView for Dependency<SchemaId> {
    type V = Dependency<SchemaId>;

    open spec fn deep_view(&self) -> Dependency<SchemaId> {
        *self
    }
}

/// A text that is a key.
#[derive(Debug)]
pub struct Label(pub String);

impl View for Label {
    type V = Seq<char>;

    open spec fn view(&self) -> Seq<char> {
        self.0@
    }
}

impl DeepView for Label {
    type V = Seq<char>;

    open spec fn deep_view(&self) -> Seq<char> {
        self.0@
    }
}

impl Key for Label {
    open spec fn code(v: Seq<char>) -> Seq<int> {
        text_code(v)
    }

    proof fn code_injective(a: Seq<char>, b: Seq<char>) {
        lemma_text_code_injective(a, b);
    }

    fn order_of(&self, other: &Self) -> (o: Order) {
        order_of_bytes(self.0.as_str().as_bytes(), other.0.as_str().as_bytes())
    }
}

/// Where the first colon of a name stands, or the length of the name if it has none.
pub open spec fn colon_at(raw: Seq<u8>) -> int
    decreases raw.len(),
{
    if raw.len() == 0 || raw[0] == 58 {
        0
    } else {
        1 + colon_at(raw.drop_first())
    }
}

/// The part of a qualified name before its first colon, if it has one.
pub open spec fn prefix_part(raw: Seq<u8>) -> Option<Seq<u8>> {
    if colon_at(raw) < raw.len() {
        Some(raw.take(colon_at(raw)))
    } else {
        None
    }
}

/// The part of a qualified name after its first colon, or all of it.
pub open spec fn local_part(raw: Seq<u8>) -> Seq<u8> {
    if colon_at(raw) < raw.len() {
        raw.skip(colon_at(raw) + 1)
    } else {
        raw
    }
}

/// Finds the first colon of a name.
pub fn find_colon(raw: &[u8]) -> (i: usize)
    ensures
        i == colon_at(raw@),
        i <= raw@.len(),
{
    let mut i: usize = 0;
    assert(raw@.skip(0) =~= raw@);
    while i < raw.len() && raw[i] != 58
        invariant
            i <= raw@.len(),
            colon_at(raw@) == i + colon_at(raw@.skip(i as int)),
        decreases raw@.len() - i,
    {
        assert(raw@.skip(i as int).drop_first() =~= raw@.skip(i + 1));
        i = i + 1;
    }
    i
}

/// A qualified name together with the namespace that its prefix stands for.
#[derive(Debug)]
pub struct QName {
    raw: Vec<u8>,
    ns: Option<Namespace>,
}

/// The namespace and the raw bytes of a qualified name.
pub struct QNameView {
    pub ns: Option<Seq<u8>>,
    pub raw: Seq<u8>,
}

impl View for QName {
    type V = QNameView;

    closed spec fn view(&self) -> QNameView {
        QNameView { ns: opt_ns(self.ns), raw: self.raw@ }
    }
}

impl QName {
    /// Creates a qualified name without a namespace.
    pub fn from_bytes(raw: Vec<u8>) -> (q: Self)
        ensures
            q@ == (QNameView { ns: None, raw: raw@ }),
    {
        QName { raw, ns: None }
    }

    /// Sets the namespace.
    pub fn with_namespace(self, ns: Namespace) -> (q: Self)
        ensures
            q@ == (QNameView { ns: Some(ns@), raw: self@.raw }),
    {
        QName { raw: self.raw, ns: Some(ns) }
    }

    /// The namespace of the name.
    pub fn namespace(&self) -> (n: Option<&Namespace>)
        ensures
            match n {
                Some(n) => self@.ns == Some(n@),
                None => self@.ns is None,
            },
    {
        match &self.ns {
            Some(n) => Some(n),
            None => None,
        }
    }

    /// The local part of the name.
    pub fn local_name(&self) -> (l: Vec<u8>)
        ensures
            l@ == local_part(self@.raw),
    {
        split_name(self.raw.as_slice()).1
    }
}

/// Splits a qualified name at its first colon.
pub fn split_name(raw: &[u8]) -> (r: (Option<Vec<u8>>, Vec<u8>))
    ensures
        match r.0 {
            Some(p) => prefix_part(raw@) == Some(p@),
            None => prefix_part(raw@) is None,
        },
        r.1@ == local_part(raw@),
{
    let i = find_colon(raw);
    if i < raw.len() {
        let p = vstd::slice::slice_subrange(raw, 0, i);
        let l = vstd::slice::slice_subrange(raw, i + 1, raw.len());
        assert(p@ =~= raw@.take(i as int));
        assert(l@ =~= raw@.skip(i + 1));
        (Some(vstd::slice::slice_to_vec(p)), vstd::slice::slice_to_vec(l))
    } else {
        (None, vstd::slice::slice_to_vec(raw))
    }
}

} // verus!
