//! How definitions without a name of their own are named.

use vstd::prelude::*;

use crate::ident::{Name, NameView};
use crate::text::{clone_text, decimal, digits, join, opt_text, show, shown};

verus! {

/// The decimal text of a number.
pub open spec fn number_text(n: usize) -> Seq<char> {
    shown(digits(n as nat))
}

/// Hands out the numbers that tell made up names apart.
#[derive(Debug)]
pub struct MetaTypes {
    next_name_id: usize,
}

impl View for MetaTypes {
    type V = usize;

    closed spec fn view(&self) -> usize {
        self.next_name_id
    }
}

impl MetaTypes {
    /// Starts with the given number.
    pub fn new(first: usize) -> (t: Self)
        ensures
            t@ == first,
    {
        MetaTypes { next_name_id: first }
    }

    /// Starts to build a name.
    pub fn name_builder(&mut self) -> (b: NameBuilder)
        ensures
            final(self)@ == old(self)@.wrapping_add(1),
            b@ == new_builder(old(self)@),
    {
        let id = self.next_name_id;
        self.next_name_id = id.wrapping_add(1);
        NameBuilder { id, with_id: true, name: None, extension: None }
    }
}

/// Builds a name from what is known of a definition.
#[derive(Debug)]
pub struct NameBuilder {
    id: usize,
    with_id: bool,
    name: Option<Name>,
    extension: Option<String>,
}

/// What a name builder knows.
pub struct BuilderView {
    pub id: usize,
    pub with_id: bool,
    pub name: Option<NameView>,
    pub extension: Option<Seq<char>>,
}

impl View for NameBuilder {
    type V = BuilderView;

    closed spec fn view(&self) -> BuilderView {
        BuilderView {
            id: self.id,
            with_id: self.with_id,
            name: match self.name {
                Some(n) => Some(n@),
                None => None,
            },
            extension: opt_text(self.extension),
        }
    }
}

/// A builder that knows nothing but its number.
pub open spec fn new_builder(id: usize) -> BuilderView {
    BuilderView { id, with_id: true, name: None, extension: None }
}

impl BuilderView {
    /// Takes a given name, unless there is a name already.
    pub open spec fn or_given(self, name: Option<Seq<char>>) -> BuilderView {
        match (self.name, name) {
            (None, Some(text)) => BuilderView {
                name: Some(NameView { named: true, text }),
                ..self
            },
            _ => self,
        }
    }

    /// Puts a text in front of the name: in place of the text that is there, or before it.
    pub open spec fn extended(self, replace: bool, part: Option<Seq<char>>) -> BuilderView {
        match part {
            None => self,
            Some(p) => BuilderView {
                extension: match self.extension {
                    Some(e) if !replace => Some(p + e),
                    _ => Some(p),
                },
                ..self
            },
        }
    }

    /// The finished name. Only a given name without an extension counts as given.
    pub open spec fn finished(self) -> NameView {
        match (self.name, self.extension) {
            (Some(n), None) => n,
            (Some(n), Some(e)) => NameView { named: false, text: e + n.text },
            (None, Some(e)) => NameView {
                named: false,
                text: if self.with_id {
                    e + number_text(self.id)
                } else {
                    e
                },
            },
            (None, None) => NameView { named: false, text: "Unnamed"@ + number_text(self.id) },
        }
    }
}

impl NameBuilder {
    /// Takes a given name, unless there is a name already.
    pub fn or(self, name: &Option<String>) -> (b: Self)
        ensures
            b@ == self@.or_given(opt_text(*name)),
    {
        self.or_text(clone_text(name))
    }

    /// Takes a given name, unless there is a name already.
    pub fn or_text(self, name: Option<String>) -> (b: Self)
        ensures
            b@ == self@.or_given(opt_text(name)),
    {
        match (self.name, name) {
            (None, Some(text)) => NameBuilder {
                id: self.id,
                with_id: self.with_id,
                name: Some(Name::new_named(text)),
                extension: self.extension,
            },
            (n, _) => NameBuilder {
                id: self.id,
                with_id: self.with_id,
                name: n,
                extension: self.extension,
            },
        }
    }

    /// Puts a text in front of the name: in place of the text that is there, or before it.
    pub fn extend(self, replace: bool, part: Option<String>) -> (b: Self)
        ensures
            b@ == self@.extended(replace, opt_text(part)),
    {
        let extension = match (part, self.extension) {
            (None, e) => e,
            (Some(p), None) => Some(p),
            (Some(p), Some(e)) => if replace {
                Some(p)
            } else {
                Some(join(p.as_str(), e.as_str()))
            },
        };
        NameBuilder { id: self.id, with_id: self.with_id, name: self.name, extension }
    }

    /// Whether a text stands in front of the name.
    pub fn has_extension(&self) -> (b: bool)
        ensures
            b == self@.extension is Some,
    {
        self.extension.is_some()
    }

    /// Sets whether a made up name ends with the number of the builder.
    pub fn with_id(self, value: bool) -> (b: Self)
        ensures
            b@ == (BuilderView { with_id: value, ..self@ }),
    {
        NameBuilder { id: self.id, with_id: value, name: self.name, extension: self.extension }
    }

    /// Makes up a name from a text and the number of the builder.
    pub fn shared_name(self, text: &str) -> (b: Self)
        ensures
            b@ == (BuilderView {
                name: Some(NameView { named: false, text: text@ + number_text(self@.id) }),
                ..self@
            }),
    {
        let text = numbered(text, self.id);
        NameBuilder {
            id: self.id,
            with_id: self.with_id,
            name: Some(Name::new_generated(text)),
            extension: self.extension,
        }
    }

    /// Finishes the name.
    pub fn finish(self) -> (n: Name)
        ensures
            n@ == self@.finished(),
    {
        match (self.name, self.extension) {
            (Some(n), None) => n,
            (Some(n), Some(e)) => Name::new_generated(join(e.as_str(), n.as_str())),
            (None, Some(e)) => if self.with_id {
                Name::new_generated(numbered(e.as_str(), self.id))
            } else {
                Name::new_generated(e)
            },
            (None, None) => Name::new_generated(numbered("Unnamed", self.id)),
        }
    }
}

/// A text followed by a number.
fn numbered(text: &str, n: usize) -> (r: String)
    ensures
        r@ == text@ + number_text(n),
{
    join(text, show(decimal(n).as_slice()).as_str())
}

} // verus!
