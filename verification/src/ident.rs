//! Identifiers of types.

use vstd::prelude::*;

use crate::models::{NamespaceId, SchemaId};
use crate::order::{cons, text_code, Key, Order};
use crate::order::{lemma_cons_order, lemma_text_code_injective, order_of_bytes, order_of_numbers};

verus! {

/// The kind of thing that an identifier names.
#[derive(Debug, Clone, Copy, PartialEq, Eq, Structural)]
pub enum IdentType {
    Element,
    Attribute,
    Type,
    Group,
    AttributeGroup,
}

impl IdentType {
    /// The place of the kind in the order of kinds.
    pub open spec fn rank(self) -> int {
        match self {
            IdentType::Element => 0,
            IdentType::Attribute => 1,
            IdentType::Type => 2,
            IdentType::Group => 3,
            IdentType::AttributeGroup => 4,
        }
    }

    /// The place of the kind among all kinds.
    pub fn number(&self) -> (n: usize)
        ensures
            n == self.rank(),
    {
        match self {
            IdentType::Element => 0,
            IdentType::Attribute => 1,
            IdentType::Type => 2,
            IdentType::Group => 3,
            IdentType::AttributeGroup => 4,
        }
    }
}

/// A name that was given in a schema, or one that was made up for something without a name.
#[derive(Debug)]
pub struct Name {
    named: bool,
    text: String,
}

/// The text of a name, and whether it was given.
pub struct NameView {
    pub named: bool,
    pub text: Seq<char>,
}

impl View for Name {
    type V = NameView;

    closed spec fn view(&self) -> NameView {
        NameView { named: self.named, text: self.text@ }
    }
}

impl Name {
    /// A name that was given.
    pub fn new_named(text: String) -> (n: Self)
        ensures
            n@ == (NameView { named: true, text: text@ }),
    {
        Name { named: true, text }
    }

    /// A name that was made up.
    pub fn new_generated(text: String) -> (n: Self)
        ensures
            n@ == (NameView { named: false, text: text@ }),
    {
        Name { named: false, text }
    }

    /// Whether the name was given.
    pub fn is_named(&self) -> (b: bool)
        ensures
            b == self@.named,
    {
        self.named
    }

    /// The text of the name.
    pub fn as_str(&self) -> (s: &str)
        ensures
            s@ == self@.text,
    {
        self.text.as_str()
    }

    /// Copies the name.
    pub fn copy(&self) -> (n: Self)
        ensures
            n@ == self@,
    {
        Name { named: self.named, text: self.text.clone() }
    }
}

/// Identifies a type, element, attribute or group of a schema.
#[derive(Debug)]
pub struct TypeIdent {
    pub ns: NamespaceId,
    pub schema: SchemaId,
    pub name: Name,
    pub type_: IdentType,
}

/// The parts of a type identifier.
pub struct IdentView {
    pub ns: NamespaceId,
    pub schema: SchemaId,
    pub name: NameView,
    pub type_: IdentType,
}

impl IdentView {
    /// The same identifier in another schema.
    pub open spec fn in_schema(self, schema: SchemaId) -> IdentView {
        IdentView { schema, ..self }
    }
}

impl View for TypeIdent {
    type V = IdentView;

    open spec fn view(&self) -> IdentView {
        IdentView { ns: self.ns, schema: self.schema, name: self.name@, type_: self.type_ }
    }
}

impl DeepView for TypeIdent {
    type V = IdentView;

    open spec fn deep_view(&self) -> IdentView {
        self@
    }
}

/// The code of a name: given names come first.
pub open spec fn name_code(n: NameView) -> Seq<int> {
    cons(if n.named { 0 } else { 1 }, text_code(n.text))
}

impl Key for TypeIdent {
    open spec fn code(v: IdentView) -> Seq<int> {
        cons(
            v.ns.0 as int,
            cons(v.schema.0 as int, cons(v.type_.rank(), name_code(v.name))),
        )
    }

    proof fn code_injective(a: IdentView, b: IdentView) {
        let a3 = name_code(a.name);
        let b3 = name_code(b.name);
        let a2 = cons(a.type_.rank(), a3);
        let b2 = cons(b.type_.rank(), b3);
        let a1 = cons(a.schema.0 as int, a2);
        let b1 = cons(b.schema.0 as int, b2);
        lemma_cons_order(a.ns.0 as int, a1, b.ns.0 as int, b1);
        lemma_cons_order(a.schema.0 as int, a2, b.schema.0 as int, b2);
        lemma_cons_order(a.type_.rank(), a3, b.type_.rank(), b3);
        let x: int = if a.name.named { 0 } else { 1 };
        let y: int = if b.name.named { 0 } else { 1 };
        lemma_cons_order(x, text_code(a.name.text), y, text_code(b.name.text));
        lemma_text_code_injective(a.name.text, b.name.text);
    }

    fn order_of(&self, other: &Self) -> (o: Order) {
        proof {
            let a = self@;
            let b = other@;
            let a3 = name_code(a.name);
            let b3 = name_code(b.name);
            let a2 = cons(a.type_.rank(), a3);
            let b2 = cons(b.type_.rank(), b3);
            let a1 = cons(a.schema.0 as int, a2);
            let b1 = cons(b.schema.0 as int, b2);
            lemma_cons_order(a.ns.0 as int, a1, b.ns.0 as int, b1);
            lemma_cons_order(a.schema.0 as int, a2, b.schema.0 as int, b2);
            lemma_cons_order(a.type_.rank(), a3, b.type_.rank(), b3);
            let x: int = if a.name.named { 0 } else { 1 };
            let y: int = if b.name.named { 0 } else { 1 };
            lemma_cons_order(x, text_code(a.name.text), y, text_code(b.name.text));
        }
        match order_of_numbers(self.ns.0, other.ns.0) {
            Order::Same => {},
            o => {
                return o;
            },
        }
        match order_of_numbers(self.schema.0, other.schema.0) {
            Order::Same => {},
            o => {
                return o;
            },
        }
        match order_of_numbers(self.type_.number(), other.type_.number()) {
            Order::Same => {},
            o => {
                return o;
            },
        }
        if self.name.named && !other.name.named {
            return Order::Before;
        }
        if !self.name.named && other.name.named {
            return Order::After;
        }
        order_of_bytes(self.name.text.as_str().as_bytes(), other.name.text.as_str().as_bytes())
    }
}

impl TypeIdent {
    /// Copies the identifier.
    pub fn copy(&self) -> (i: Self)
        ensures
            i@ == self@,
    {
        TypeIdent { ns: self.ns, schema: self.schema, name: self.name.copy(), type_: self.type_ }
    }

    /// The same identifier in another schema.
    pub fn with_schema(self, schema: SchemaId) -> (i: Self)
        ensures
            i@ == self@.in_schema(schema),
    {
        TypeIdent { ns: self.ns, schema, name: self.name, type_: self.type_ }
    }

    /// Whether two identifiers are the same.
    pub fn same(&self, other: &Self) -> (b: bool)
        ensures
            b == (self@ == other@),
    {
        let o = self.order_of(other);
        proof {
            if Self::code(self@) == Self::code(other@) {
                Self::code_injective(self@, other@);
            }
        }
        match o {
            Order::Same => true,
            _ => false,
        }
    }
}

} // verus!
