//! Processes the definitions of a schema.

use vstd::prelude::*;

use super::{auto_extend, failure, NodeCacheProcessor, StackEntry};
use crate::ident::{IdentType, Name};
use crate::identcache::InterpreterError;
use crate::models::QName;
use crate::nodes::{Node, NodeDependency, NodeDependencyKey};
use crate::steps::{
    attribute_group_content_item, attribute_group_content_steps, attribute_group_ref_steps,
    attribute_group_steps, attribute_naming, attribute_ref_steps, attribute_ref_type_steps,
    attribute_steps, attribute_type_steps, complex_content_content_item,
    complex_content_content_steps, complex_content_steps, complex_type_content_item,
    complex_type_content_steps, complex_type_steps, element_content_item, element_content_steps,
    element_ref_steps, element_ref_type_steps, element_steps, extension_content_item,
    extension_content_steps, extension_steps, group_content_steps, group_list_item,
    group_list_steps, group_ref_steps, group_steps, inline_element, inline_simple_type, item_naming,
    list_steps, list_type_steps, opt_reference, opt_references, reference, references,
    restriction_content_item, restriction_content_steps, restriction_steps,
    simple_content_content_item, simple_content_content_steps, simple_content_steps,
    simple_restriction_content_item, simple_restriction_content_steps, simple_restriction_steps,
    simple_type_content_item, simple_type_content_steps, simple_type_steps, union_member_item,
    union_member_steps, union_steps,
};
use crate::steps::{DependencyKeyView, Marker, Naming, NodeView, Step, Strength};
use crate::text::{clone_text, decode, join, opt_text, trim_suffix};
use crate::walk::{define_inline, run, StackView};
use crate::walk::{
    lemma_entered, lemma_pushed, lemma_run_add, lemma_run_kept, lemma_run_none, lemma_run_one,
    lemma_shape_positions, lemma_stuck,
};
use crate::xs::{
    AttributeGroupType, AttributeGroupTypeContent, AttributeType, ComplexBaseType,
    ComplexBaseTypeContent, ComplexContent, ComplexContentContent, ElementType, ElementTypeContent,
    ExtensionType, ExtensionTypeContent, GroupType, GroupTypeContent, List, Restriction,
    RestrictionContent, RestrictionType, RestrictionTypeContent, SimpleBaseType,
    SimpleBaseTypeContent, SimpleContent, SimpleContentContent, Union,
};

verus! {

impl<'a> NodeCacheProcessor<'a> {
    /// Processes a reference that may be absent.
    fn refer_opt(
        &mut self,
        kind: IdentType,
        name: &Option<QName>,
        strength: Strength,
    ) -> (r: Result<(), InterpreterError>)
        requires
            old(self)@.in_entry(),
        ensures
            (final(self)@, failure(r)) == run(opt_reference(kind, *name, strength), old(self)@),
    {
        match name {
            Some(name) => {
                proof {
                    lemma_run_one(reference(kind, *name, strength), self@);
                }
                self.refer(kind, name, strength)
            },
            None => {
                proof {
                    lemma_run_none(self@);
                }
                Ok(())
            },
        }
    }

    /// Processes a list of references that may be absent.
    fn refer_all(
        &mut self,
        kind: IdentType,
        names: &Option<Vec<QName>>,
        strength: Strength,
    ) -> (r: Result<(), InterpreterError>)
        requires
            old(self)@.in_entry(),
        ensures
            (final(self)@, failure(r)) == run(opt_references(kind, *names, strength), old(self)@),
    {
        let names = match names {
            Some(names) => names,
            None => {
                proof {
                    lemma_run_none(self@);
                }
                return Ok(());
            },
        };
        let ghost st = self@;
        let mut i: usize = 0;
        let mut r: Result<(), InterpreterError> = Ok(());
        proof {
            lemma_run_none(st);
            assert(references(kind, names@.take(0), strength) =~= Seq::<Step>::empty());
        }
        while i < names.len() && r.is_ok()
            invariant
                i <= names@.len(),
                st.in_entry(),
                run(references(kind, names@.take(i as int), strength), st) == (self@, failure(r)),
            decreases names@.len() - i,
        {
            proof {
                let prefix = references(kind, names@.take(i as int), strength);
                lemma_run_kept(prefix, st);
                lemma_run_add(prefix, seq![reference(kind, names@[i as int], strength)], st);
                lemma_run_one(reference(kind, names@[i as int], strength), self@);
                lemma_references_step(kind, names@, strength, i as nat);
            }
            r = self.refer(kind, &names[i], strength);
            i = i + 1;
        }
        proof {
            if r is Err {
                let list = |k: nat| references(kind, names@.take(k as int), strength);
                let item = |k: nat| seq![reference(kind, names@[k as int], strength)];
                assert forall|k: nat| i <= k < names@.len() implies #[trigger] list(k + 1) == list(k)
                    + item(k) by {
                    lemma_references_step(kind, names@, strength, k);
                }
                lemma_stuck(list, item, i as nat, names@.len(), st);
            }
            assert(names@.take(names@.len() as int) =~= names@);
        }
        r
    }

    /// Processes a declared element.
    pub fn process_element(&mut self, ty: &'a ElementType) -> (r: Result<(), InterpreterError>)
        requires
            old(self)@.in_entry(),
        ensures
            (final(self)@, failure(r)) == run(element_steps(*ty), old(self)@),
        decreases *ty, 0nat,
    {
        let ghost start = self@;
        let ghost a = opt_reference(IdentType::Type, ty.type_, Strength::Weak);
        let ghost b = opt_references(IdentType::Element, ty.substitution_group, Strength::Strong);
        let ghost c = element_content_steps(ty.content@, ty.content@.len());
        proof {
            lemma_run_add(a, b, start);
            lemma_run_add(a + b, c, start);
        }
        match self.refer_opt(IdentType::Type, &ty.type_, Strength::Weak) {
            Ok(()) => {},
            Err(e) => {
                return Err(e);
            },
        }
        proof {
            lemma_run_kept(a, start);
        }
        match self.refer_all(IdentType::Element, &ty.substitution_group, Strength::Strong) {
            Ok(()) => {},
            Err(e) => {
                return Err(e);
            },
        }
        proof {
            lemma_run_kept(a + b, start);
        }
        let ghost st = self@;
        let mut i: usize = 0;
        let mut r: Result<(), InterpreterError> = Ok(());
        proof {
            lemma_run_none(st);
        }
        while i < ty.content.len() && r.is_ok()
            invariant
                i <= ty.content@.len(),
                st.in_entry(),
                run(element_content_steps(ty.content@, i as nat), st) == (self@, failure(r)),
            decreases ty.content@.len() - i,
        {
            proof {
                let prefix = element_content_steps(ty.content@, i as nat);
                lemma_run_kept(prefix, st);
                lemma_run_add(prefix, element_content_item(ty.content@[i as int]), st);
                lemma_run_none(self@);
            }
            r = match &ty.content[i] {
                ElementTypeContent::SimpleType(x) => self.process_simple_type(x),
                ElementTypeContent::ComplexType(x) => self.process_complex_type(x),
                _ => Ok(()),
            };
            i = i + 1;
        }
        proof {
            if r is Err {
                lemma_stuck(
                    |k: nat| element_content_steps(ty.content@, k),
                    |k: nat| element_content_item(ty.content@[k as int]),
                    i as nat,
                    ty.content@.len(),
                    st,
                );
            }
        }
        r
    }

    /// Processes a declared attribute.
    pub fn process_attribute(&mut self, ty: &'a AttributeType) -> (r: Result<(), InterpreterError>)
        requires
            old(self)@.in_entry(),
        ensures
            (final(self)@, failure(r)) == run(attribute_steps(*ty), old(self)@),
        decreases *ty, 0nat,
    {
        let ghost start = self@;
        let ghost a = opt_reference(IdentType::Type, ty.type_, Strength::Weak);
        proof {
            lemma_run_add(a, attribute_type_steps(*ty), start);
        }
        match self.refer_opt(IdentType::Type, &ty.type_, Strength::Weak) {
            Ok(()) => {},
            Err(e) => {
                return Err(e);
            },
        }
        proof {
            lemma_run_kept(a, start);
        }
        match &ty.simple_type {
            Some(x) => self.process_simple_type(x),
            None => {
                proof {
                    lemma_run_none(self@);
                }
                Ok(())
            },
        }
    }

    /// Processes a simple type.
    pub fn process_simple_type(
        &mut self,
        ty: &'a SimpleBaseType,
    ) -> (r: Result<(), InterpreterError>)
        requires
            old(self)@.in_entry(),
        ensures
            (final(self)@, failure(r)) == run(simple_type_steps(*ty), old(self)@),
        decreases *ty, 0nat,
    {
        let ghost st = self@;
        let mut i: usize = 0;
        let mut r: Result<(), InterpreterError> = Ok(());
        proof {
            lemma_run_none(st);
        }
        while i < ty.content.len() && r.is_ok()
            invariant
                i <= ty.content@.len(),
                st.in_entry(),
                run(simple_type_content_steps(ty.content@, i as nat), st) == (self@, failure(r)),
            decreases ty.content@.len() - i,
        {
            proof {
                let prefix = simple_type_content_steps(ty.content@, i as nat);
                lemma_run_kept(prefix, st);
                lemma_run_add(prefix, simple_type_content_item(ty.content@[i as int]), st);
                lemma_run_none(self@);
            }
            r = match &ty.content[i] {
                SimpleBaseTypeContent::List(x) => self.process_list(x),
                SimpleBaseTypeContent::Union(x) => self.process_simple_union(x),
                SimpleBaseTypeContent::Restriction(x) => self.process_simple_restriction(x),
                SimpleBaseTypeContent::Annotation => Ok(()),
            };
            i = i + 1;
        }
        proof {
            if r is Err {
                lemma_stuck(
                    |k: nat| simple_type_content_steps(ty.content@, k),
                    |k: nat| simple_type_content_item(ty.content@[k as int]),
                    i as nat,
                    ty.content@.len(),
                    st,
                );
            }
        }
        r
    }

    /// Processes a restriction of a simple type.
    pub fn process_simple_restriction(
        &mut self,
        ty: &'a Restriction,
    ) -> (r: Result<(), InterpreterError>)
        requires
            old(self)@.in_entry(),
        ensures
            (final(self)@, failure(r)) == run(simple_restriction_steps(*ty), old(self)@),
        decreases *ty, 0nat,
    {
        let ghost start = self@;
        let ghost a = opt_reference(IdentType::Type, ty.base, Strength::Strong);
        proof {
            lemma_run_add(
                a,
                simple_restriction_content_steps(ty.content@, ty.content@.len()),
                start,
            );
        }
        match self.refer_opt(IdentType::Type, &ty.base, Strength::Strong) {
            Ok(()) => {},
            Err(e) => {
                return Err(e);
            },
        }
        proof {
            lemma_run_kept(a, start);
        }
        let ghost st = self@;
        let mut i: usize = 0;
        let mut r: Result<(), InterpreterError> = Ok(());
        proof {
            lemma_run_none(st);
        }
        while i < ty.content.len() && r.is_ok()
            invariant
                i <= ty.content@.len(),
                st.in_entry(),
                run(simple_restriction_content_steps(ty.content@, i as nat), st) == (self@, failure(r)),
            decreases ty.content@.len() - i,
        {
            proof {
                let prefix = simple_restriction_content_steps(ty.content@, i as nat);
                lemma_run_kept(prefix, st);
                lemma_run_add(prefix, simple_restriction_content_item(ty.content@[i as int]), st);
                lemma_run_none(self@);
            }
            r = match &ty.content[i] {
                RestrictionContent::SimpleType(x) => self.process_simple_type(x),
                _ => Ok(()),
            };
            i = i + 1;
        }
        proof {
            if r is Err {
                lemma_stuck(
                    |k: nat| simple_restriction_content_steps(ty.content@, k),
                    |k: nat| simple_restriction_content_item(ty.content@[k as int]),
                    i as nat,
                    ty.content@.len(),
                    st,
                );
            }
        }
        r
    }

    /// Processes a complex type.
    pub fn process_complex_type(
        &mut self,
        ty: &'a ComplexBaseType,
    ) -> (r: Result<(), InterpreterError>)
        requires
            old(self)@.in_entry(),
        ensures
            (final(self)@, failure(r)) == run(complex_type_steps(*ty), old(self)@),
        decreases *ty, 0nat,
    {
        let ghost st = self@;
        let mut i: usize = 0;
        let mut r: Result<(), InterpreterError> = Ok(());
        proof {
            lemma_run_none(st);
        }
        while i < ty.content.len() && r.is_ok()
            invariant
                i <= ty.content@.len(),
                st.in_entry(),
                run(complex_type_content_steps(ty.content@, i as nat), st) == (self@, failure(r)),
            decreases ty.content@.len() - i,
        {
            proof {
                let prefix = complex_type_content_steps(ty.content@, i as nat);
                lemma_run_kept(prefix, st);
                lemma_run_add(prefix, complex_type_content_item(ty.content@[i as int]), st);
                lemma_run_none(self@);
            }
            r = match &ty.content[i] {
                ComplexBaseTypeContent::SimpleContent(x) => self.process_simple_content(x),
                ComplexBaseTypeContent::ComplexContent(x) => self.process_complex_content(x),
                ComplexBaseTypeContent::All(x) => self.process_group_content(x),
                ComplexBaseTypeContent::Choice(x) => self.process_group_content(x),
                ComplexBaseTypeContent::Sequence(x) => self.process_group_content(x),
                ComplexBaseTypeContent::Attribute(x) => self.process_attribute_ref(x),
                ComplexBaseTypeContent::Group(x) => self.process_group_ref(x),
                ComplexBaseTypeContent::AttributeGroup(x) => self.process_attribute_group_ref(x),
                _ => Ok(()),
            };
            i = i + 1;
        }
        proof {
            if r is Err {
                lemma_stuck(
                    |k: nat| complex_type_content_steps(ty.content@, k),
                    |k: nat| complex_type_content_item(ty.content@[k as int]),
                    i as nat,
                    ty.content@.len(),
                    st,
                );
            }
        }
        r
    }

    /// Processes a simple content.
    pub fn process_simple_content(
        &mut self,
        ty: &'a SimpleContent,
    ) -> (r: Result<(), InterpreterError>)
        requires
            old(self)@.in_entry(),
        ensures
            (final(self)@, failure(r)) == run(simple_content_steps(*ty), old(self)@),
        decreases *ty, 0nat,
    {
        let ghost st = self@;
        let mut i: usize = 0;
        let mut r: Result<(), InterpreterError> = Ok(());
        proof {
            lemma_run_none(st);
        }
        while i < ty.content.len() && r.is_ok()
            invariant
                i <= ty.content@.len(),
                st.in_entry(),
                run(simple_content_content_steps(ty.content@, i as nat), st) == (self@, failure(r)),
            decreases ty.content@.len() - i,
        {
            proof {
                let prefix = simple_content_content_steps(ty.content@, i as nat);
                lemma_run_kept(prefix, st);
                lemma_run_add(prefix, simple_content_content_item(ty.content@[i as int]), st);
                lemma_run_none(self@);
            }
            r = match &ty.content[i] {
                SimpleContentContent::Restriction(x) => self.process_restriction(x),
                SimpleContentContent::Extension(x) => self.process_extension(x),
                SimpleContentContent::Annotation => Ok(()),
            };
            i = i + 1;
        }
        proof {
            if r is Err {
                lemma_stuck(
                    |k: nat| simple_content_content_steps(ty.content@, k),
                    |k: nat| simple_content_content_item(ty.content@[k as int]),
                    i as nat,
                    ty.content@.len(),
                    st,
                );
            }
        }
        r
    }

    /// Processes a complex content.
    pub fn process_complex_content(
        &mut self,
        ty: &'a ComplexContent,
    ) -> (r: Result<(), InterpreterError>)
        requires
            old(self)@.in_entry(),
        ensures
            (final(self)@, failure(r)) == run(complex_content_steps(*ty), old(self)@),
        decreases *ty, 0nat,
    {
        let ghost st = self@;
        let mut i: usize = 0;
        let mut r: Result<(), InterpreterError> = Ok(());
        proof {
            lemma_run_none(st);
        }
        while i < ty.content.len() && r.is_ok()
            invariant
                i <= ty.content@.len(),
                st.in_entry(),
                run(complex_content_content_steps(ty.content@, i as nat), st) == (self@, failure(r)),
            decreases ty.content@.len() - i,
        {
            proof {
                let prefix = complex_content_content_steps(ty.content@, i as nat);
                lemma_run_kept(prefix, st);
                lemma_run_add(prefix, complex_content_content_item(ty.content@[i as int]), st);
                lemma_run_none(self@);
            }
            r = match &ty.content[i] {
                ComplexContentContent::Restriction(x) => self.process_restriction(x),
                ComplexContentContent::Extension(x) => self.process_extension(x),
                ComplexContentContent::Annotation => Ok(()),
            };
            i = i + 1;
        }
        proof {
            if r is Err {
                lemma_stuck(
                    |k: nat| complex_content_content_steps(ty.content@, k),
                    |k: nat| complex_content_content_item(ty.content@[k as int]),
                    i as nat,
                    ty.content@.len(),
                    st,
                );
            }
        }
        r
    }

    /// Processes a restriction of a complex type.
    pub fn process_restriction(
        &mut self,
        ty: &'a RestrictionType,
    ) -> (r: Result<(), InterpreterError>)
        requires
            old(self)@.in_entry(),
        ensures
            (final(self)@, failure(r)) == run(restriction_steps(*ty), old(self)@),
        decreases *ty, 0nat,
    {
        let ghost start = self@;
        let ghost a = seq![reference(IdentType::Type, ty.base, Strength::Strong)];
        proof {
            lemma_run_one(reference(IdentType::Type, ty.base, Strength::Strong), start);
            lemma_run_add(a, restriction_content_steps(ty.content@, ty.content@.len()), start);
        }
        match self.refer(IdentType::Type, &ty.base, Strength::Strong) {
            Ok(()) => {},
            Err(e) => {
                return Err(e);
            },
        }
        proof {
            lemma_run_kept(a, start);
        }
        let ghost st = self@;
        let mut i: usize = 0;
        let mut r: Result<(), InterpreterError> = Ok(());
        proof {
            lemma_run_none(st);
        }
        while i < ty.content.len() && r.is_ok()
            invariant
                i <= ty.content@.len(),
                st.in_entry(),
                run(restriction_content_steps(ty.content@, i as nat), st) == (self@, failure(r)),
            decreases ty.content@.len() - i,
        {
            proof {
                let prefix = restriction_content_steps(ty.content@, i as nat);
                lemma_run_kept(prefix, st);
                lemma_run_add(prefix, restriction_content_item(ty.content@[i as int]), st);
                lemma_run_none(self@);
            }
            r = self.process_restriction_part(&ty.content[i]);
            i = i + 1;
        }
        proof {
            if r is Err {
                lemma_stuck(
                    |k: nat| restriction_content_steps(ty.content@, k),
                    |k: nat| restriction_content_item(ty.content@[k as int]),
                    i as nat,
                    ty.content@.len(),
                    st,
                );
            }
        }
        r
    }

    /// Processes a part of a restriction.
    fn process_restriction_part(
        &mut self,
        c: &'a RestrictionTypeContent,
    ) -> (r: Result<(), InterpreterError>)
        requires
            old(self)@.in_entry(),
        ensures
            (final(self)@, failure(r)) == run(restriction_content_item(*c), old(self)@),
        decreases *c, 0nat,
    {
        proof {
            lemma_run_none(self@);
        }
        match c {
            RestrictionTypeContent::Group(x) => self.process_group_ref(x),
            RestrictionTypeContent::All(x) => self.process_group_content(x),
            RestrictionTypeContent::Choice(x) => self.process_group_content(x),
            RestrictionTypeContent::Sequence(x) => self.process_group_content(x),
            RestrictionTypeContent::SimpleType(x) => self.process_simple_type(x),
            RestrictionTypeContent::Attribute(x) => self.process_attribute_ref(x),
            RestrictionTypeContent::AttributeGroup(x) => self.process_attribute_group_ref(x),
            _ => Ok(()),
        }
    }

    /// Processes an extension of a complex type.
    pub fn process_extension(&mut self, ty: &'a ExtensionType) -> (r: Result<(), InterpreterError>)
        requires
            old(self)@.in_entry(),
        ensures
            (final(self)@, failure(r)) == run(extension_steps(*ty), old(self)@),
        decreases *ty, 0nat,
    {
        let ghost start = self@;
        let ghost a = seq![reference(IdentType::Type, ty.base, Strength::Strong)];
        proof {
            lemma_run_one(reference(IdentType::Type, ty.base, Strength::Strong), start);
            lemma_run_add(a, extension_content_steps(ty.content@, ty.content@.len()), start);
        }
        match self.refer(IdentType::Type, &ty.base, Strength::Strong) {
            Ok(()) => {},
            Err(e) => {
                return Err(e);
            },
        }
        proof {
            lemma_run_kept(a, start);
        }
        let ghost st = self@;
        let mut i: usize = 0;
        let mut r: Result<(), InterpreterError> = Ok(());
        proof {
            lemma_run_none(st);
        }
        while i < ty.content.len() && r.is_ok()
            invariant
                i <= ty.content@.len(),
                st.in_entry(),
                run(extension_content_steps(ty.content@, i as nat), st) == (self@, failure(r)),
            decreases ty.content@.len() - i,
        {
            proof {
                let prefix = extension_content_steps(ty.content@, i as nat);
                lemma_run_kept(prefix, st);
                lemma_run_add(prefix, extension_content_item(ty.content@[i as int]), st);
                lemma_run_none(self@);
            }
            r = self.process_extension_part(&ty.content[i]);
            i = i + 1;
        }
        proof {
            if r is Err {
                lemma_stuck(
                    |k: nat| extension_content_steps(ty.content@, k),
                    |k: nat| extension_content_item(ty.content@[k as int]),
                    i as nat,
                    ty.content@.len(),
                    st,
                );
            }
        }
        r
    }

    /// Processes a part of an extension.
    fn process_extension_part(
        &mut self,
        c: &'a ExtensionTypeContent,
    ) -> (r: Result<(), InterpreterError>)
        requires
            old(self)@.in_entry(),
        ensures
            (final(self)@, failure(r)) == run(extension_content_item(*c), old(self)@),
        decreases *c, 0nat,
    {
        proof {
            lemma_run_none(self@);
        }
        match c {
            ExtensionTypeContent::Group(x) => self.process_group_ref(x),
            ExtensionTypeContent::All(x) => self.process_group_content(x),
            ExtensionTypeContent::Choice(x) => self.process_group_content(x),
            ExtensionTypeContent::Sequence(x) => self.process_group_content(x),
            ExtensionTypeContent::Attribute(x) => self.process_attribute_ref(x),
            ExtensionTypeContent::AttributeGroup(x) => self.process_attribute_group_ref(x),
            _ => Ok(()),
        }
    }

    /// Processes what a group holds.
    pub fn process_group_content(&mut self, ty: &'a GroupType) -> (r: Result<(), InterpreterError>)
        requires
            old(self)@.in_entry(),
        ensures
            (final(self)@, failure(r)) == run(group_content_steps(*ty), old(self)@),
        decreases *ty, 0nat,
    {
        let ghost st = self@;
        let mut i: usize = 0;
        let mut r: Result<(), InterpreterError> = Ok(());
        proof {
            lemma_run_none(st);
        }
        while i < ty.content.len() && r.is_ok()
            invariant
                i <= ty.content@.len(),
                st.in_entry(),
                run(group_list_steps(ty.content@, i as nat), st) == (self@, failure(r)),
            decreases ty.content@.len() - i,
        {
            proof {
                let prefix = group_list_steps(ty.content@, i as nat);
                lemma_run_kept(prefix, st);
                lemma_run_add(prefix, group_list_item(ty.content@[i as int]), st);
                lemma_run_none(self@);
            }
            r = match &ty.content[i] {
                GroupTypeContent::Group(x) => self.process_group_ref(x),
                GroupTypeContent::Element(x) => self.process_element_ref(x),
                GroupTypeContent::All(x) => self.process_group_content(x),
                GroupTypeContent::Choice(x) => self.process_group_content(x),
                GroupTypeContent::Sequence(x) => self.process_group_content(x),
                _ => Ok(()),
            };
            i = i + 1;
        }
        proof {
            if r is Err {
                lemma_stuck(
                    |k: nat| group_list_steps(ty.content@, k),
                    |k: nat| group_list_item(ty.content@[k as int]),
                    i as nat,
                    ty.content@.len(),
                    st,
                );
            }
        }
        r
    }

    /// Processes a declared group.
    pub fn process_group(&mut self, ty: &'a GroupType) -> (r: Result<(), InterpreterError>)
        requires
            old(self)@.in_entry(),
        ensures
            (final(self)@, failure(r)) == run(group_steps(*ty), old(self)@),
        decreases *ty, 1nat,
    {
        let ghost start = self@;
        proof {
            lemma_pushed(start.stack, StackView::Group);
            lemma_run_one(
                Step::Within { marker: Marker::Group, body: group_content_steps(*ty) },
                start,
            );
        }
        self.push_stack(StackEntry::Group);
        let ghost inner = self@;
        match self.process_group_content(ty) {
            Ok(()) => {},
            Err(e) => {
                return Err(e);
            },
        }
        proof {
            lemma_run_kept(group_content_steps(*ty), inner);
        }
        let _level = self.pop_stack();
        Ok(())
    }

    /// Processes a group that may refer to another one.
    pub fn process_group_ref(&mut self, ty: &'a GroupType) -> (r: Result<(), InterpreterError>)
        requires
            old(self)@.in_entry(),
        ensures
            (final(self)@, failure(r)) == run(group_ref_steps(*ty), old(self)@),
        decreases *ty, 2nat,
    {
        let ghost start = self@;
        let ghost a = opt_reference(IdentType::Group, ty.ref_, Strength::Lazy);
        proof {
            lemma_run_add(a, group_steps(*ty), start);
        }
        match self.refer_opt(IdentType::Group, &ty.ref_, Strength::Lazy) {
            Ok(()) => {},
            Err(e) => {
                return Err(e);
            },
        }
        proof {
            lemma_run_kept(a, start);
        }
        self.process_group(ty)
    }

    /// Processes a declared attribute group.
    pub fn process_attribute_group(
        &mut self,
        ty: &'a AttributeGroupType,
    ) -> (r: Result<(), InterpreterError>)
        requires
            old(self)@.in_entry(),
        ensures
            (final(self)@, failure(r)) == run(attribute_group_steps(*ty), old(self)@),
        decreases *ty, 1nat,
    {
        let ghost start = self@;
        proof {
            lemma_pushed(start.stack, StackView::AttributeGroup);
            lemma_run_one(
                Step::Within {
                    marker: Marker::AttributeGroup,
                    body: attribute_group_content_steps(ty.content@, ty.content@.len()),
                },
                start,
            );
        }
        self.push_stack(StackEntry::AttributeGroup);
        let ghost st = self@;
        let mut i: usize = 0;
        let mut r: Result<(), InterpreterError> = Ok(());
        proof {
            lemma_run_none(st);
        }
        while i < ty.content.len() && r.is_ok()
            invariant
                i <= ty.content@.len(),
                st.in_entry(),
                run(attribute_group_content_steps(ty.content@, i as nat), st) == (self@, failure(r)),
            decreases ty.content@.len() - i,
        {
            proof {
                let prefix = attribute_group_content_steps(ty.content@, i as nat);
                lemma_run_kept(prefix, st);
                lemma_run_add(prefix, attribute_group_content_item(ty.content@[i as int]), st);
                lemma_run_none(self@);
            }
            r = match &ty.content[i] {
                AttributeGroupTypeContent::Attribute(x) => self.process_attribute_ref(x),
                AttributeGroupTypeContent::AttributeGroup(x) => self.process_attribute_group_ref(x),
                _ => Ok(()),
            };
            i = i + 1;
        }
        proof {
            if r is Err {
                lemma_stuck(
                    |k: nat| attribute_group_content_steps(ty.content@, k),
                    |k: nat| attribute_group_content_item(ty.content@[k as int]),
                    i as nat,
                    ty.content@.len(),
                    st,
                );
            }
        }
        if r.is_err() {
            return r;
        }
        proof {
            lemma_run_kept(attribute_group_content_steps(ty.content@, ty.content@.len()), st);
        }
        let _level = self.pop_stack();
        Ok(())
    }

    /// Processes an attribute group that may refer to another one.
    pub fn process_attribute_group_ref(
        &mut self,
        ty: &'a AttributeGroupType,
    ) -> (r: Result<(), InterpreterError>)
        requires
            old(self)@.in_entry(),
        ensures
            (final(self)@, failure(r)) == run(attribute_group_ref_steps(*ty), old(self)@),
        decreases *ty, 2nat,
    {
        let ghost start = self@;
        let ghost a = opt_reference(IdentType::AttributeGroup, ty.ref_, Strength::Lazy);
        proof {
            lemma_run_add(a, attribute_group_steps(*ty), start);
        }
        match self.refer_opt(IdentType::AttributeGroup, &ty.ref_, Strength::Lazy) {
            Ok(()) => {},
            Err(e) => {
                return Err(e);
            },
        }
        proof {
            lemma_run_kept(a, start);
        }
        self.process_attribute_group(ty)
    }

    /// Processes a simple type that is defined in place, under the given name.
    fn define_simple_type(
        &mut self,
        name: Name,
        x: &'a SimpleBaseType,
    ) -> (r: Result<(), InterpreterError>)
        requires
            old(self)@.in_entry(),
        ensures
            (final(self)@, failure(r)) == define_inline(
                NodeView::SimpleType(*x),
                name@,
                DependencyKeyView::InlineSimpleType(x.id),
                simple_type_steps(*x),
                old(self)@,
            ),
        decreases *x, 1nat,
    {
        proof {
            lemma_pushed(self@.stack, self@.opened(name@, NodeView::SimpleType(*x)).stack.last());
        }
        let ghost outer = self@;
        self.new_inline_entry(name, Node::SimpleType(x));
        let ghost inner = self@;
        match self.process_simple_type(x) {
            Ok(()) => {},
            Err(e) => {
                return Err(e);
            },
        }
        proof {
            lemma_entered(outer, inner, simple_type_steps(*x));
            lemma_shape_positions(outer.stack, self@.closed().stack);
        }
        let ident = self.finish_entry();
        self.add_dependency_with_key(
            NodeDependencyKey::InlineSimpleType(x.id),
            NodeDependency::Weak(ident),
        );
        Ok(())
    }

    /// Processes a list.
    pub fn process_list(&mut self, ty: &'a List) -> (r: Result<(), InterpreterError>)
        requires
            old(self)@.in_entry(),
        ensures
            (final(self)@, failure(r)) == run(list_steps(*ty), old(self)@),
        decreases *ty, 0nat,
    {
        let ghost start = self@;
        let ghost a = opt_reference(IdentType::Type, ty.item_type, Strength::Weak);
        proof {
            lemma_run_add(a, list_type_steps(*ty), start);
        }
        match self.refer_opt(IdentType::Type, &ty.item_type, Strength::Weak) {
            Ok(()) => {},
            Err(e) => {
                return Err(e);
            },
        }
        proof {
            lemma_run_kept(a, start);
        }
        match &ty.simple_type {
            Some(x) => {
                proof {
                    lemma_run_one(inline_simple_type(**x, item_naming(*ty, **x)), self@);
                }
                let item = match &ty.item_type {
                    Some(name) => decode(name.local_name().as_slice()),
                    None => None,
                };
                let last = match self.last_named_type() {
                    Some(s) => Some(join(trim_suffix(s, "Type").as_str(), "Item")),
                    None => None,
                };
                let name = self.types.name_builder().or(&x.name).or_text(item).or_text(
                    last,
                ).finish();
                self.define_simple_type(name, x)
            },
            None => {
                proof {
                    lemma_run_none(self@);
                }
                Ok(())
            },
        }
    }

    /// Processes a union.
    pub fn process_simple_union(&mut self, ty: &'a Union) -> (r: Result<(), InterpreterError>)
        requires
            old(self)@.in_entry(),
        ensures
            (final(self)@, failure(r)) == run(union_steps(*ty), old(self)@),
        decreases *ty, 0nat,
    {
        let ghost start = self@;
        let ghost a = opt_references(IdentType::Type, ty.member_types, Strength::Weak);
        proof {
            lemma_run_add(a, union_member_steps(ty.simple_type@, ty.simple_type@.len()), start);
        }
        match self.refer_all(IdentType::Type, &ty.member_types, Strength::Weak) {
            Ok(()) => {},
            Err(e) => {
                return Err(e);
            },
        }
        proof {
            lemma_run_kept(a, start);
        }
        let ghost st = self@;
        let mut i: usize = 0;
        let mut r: Result<(), InterpreterError> = Ok(());
        proof {
            lemma_run_none(st);
        }
        while i < ty.simple_type.len() && r.is_ok()
            invariant
                i <= ty.simple_type@.len(),
                st.in_entry(),
                run(union_member_steps(ty.simple_type@, i as nat), st) == (self@, failure(r)),
            decreases ty.simple_type@.len() - i,
        {
            proof {
                let prefix = union_member_steps(ty.simple_type@, i as nat);
                lemma_run_kept(prefix, st);
                lemma_run_add(prefix, union_member_item(ty.simple_type@[i as int]), st);
                lemma_run_none(self@);
            }
            let x = &ty.simple_type[i];
            proof {
                lemma_run_one(
                    inline_simple_type(*x, Naming::Member { own: opt_text(x.name) }),
                    self@,
                );
            }
            let builder = self.types.name_builder().or(&x.name);
            let name = auto_extend(builder, false, true, &self.stack).finish();
            r = self.define_simple_type(name, x);
            i = i + 1;
        }
        proof {
            if r is Err {
                lemma_stuck(
                    |k: nat| union_member_steps(ty.simple_type@, k),
                    |k: nat| union_member_item(ty.simple_type@[k as int]),
                    i as nat,
                    ty.simple_type@.len(),
                    st,
                );
            }
        }
        r
    }

    /// Processes an attribute that stands in another definition.
    pub fn process_attribute_ref(
        &mut self,
        ty: &'a AttributeType,
    ) -> (r: Result<(), InterpreterError>)
        requires
            old(self)@.in_entry(),
        ensures
            (final(self)@, failure(r)) == run(attribute_ref_steps(*ty), old(self)@),
        decreases *ty, 1nat,
    {
        let ghost start = self@;
        let ghost a = opt_reference(IdentType::Attribute, ty.ref_, Strength::Weak);
        let ghost b = opt_reference(IdentType::Type, ty.type_, Strength::Weak);
        proof {
            lemma_run_add(a, b, start);
            lemma_run_add(a + b, attribute_ref_type_steps(*ty), start);
        }
        match self.refer_opt(IdentType::Attribute, &ty.ref_, Strength::Weak) {
            Ok(()) => {},
            Err(e) => {
                return Err(e);
            },
        }
        proof {
            lemma_run_kept(a, start);
        }
        match self.refer_opt(IdentType::Type, &ty.type_, Strength::Weak) {
            Ok(()) => {},
            Err(e) => {
                return Err(e);
            },
        }
        proof {
            lemma_run_kept(a + b, start);
        }
        match &ty.simple_type {
            Some(x) => {
                proof {
                    lemma_run_one(inline_simple_type(*x, attribute_naming(*ty, *x)), self@);
                }
                let builder = self.types.name_builder().or(&ty.name).or(&x.name);
                let name = auto_extend(builder, true, true, &self.stack).finish();
                self.define_simple_type(name, x)
            },
            None => {
                proof {
                    lemma_run_none(self@);
                }
                Ok(())
            },
        }
    }

    /// Processes an element that stands in another definition.
    pub fn process_element_ref(&mut self, ty: &'a ElementType) -> (r: Result<(), InterpreterError>)
        requires
            old(self)@.in_entry(),
        ensures
            (final(self)@, failure(r)) == run(element_ref_steps(*ty), old(self)@),
        decreases *ty, 2nat,
    {
        let ghost start = self@;
        let ghost a = opt_reference(IdentType::Element, ty.ref_, Strength::Weak);
        let ghost b = opt_reference(IdentType::Type, ty.type_, Strength::Weak);
        proof {
            lemma_run_add(a, b, start);
            lemma_run_add(a + b, element_ref_type_steps(*ty), start);
        }
        match self.refer_opt(IdentType::Element, &ty.ref_, Strength::Weak) {
            Ok(()) => {},
            Err(e) => {
                return Err(e);
            },
        }
        proof {
            lemma_run_kept(a, start);
        }
        match self.refer_opt(IdentType::Type, &ty.type_, Strength::Weak) {
            Ok(()) => {},
            Err(e) => {
                return Err(e);
            },
        }
        proof {
            lemma_run_kept(a + b, start);
        }
        proof {
            lemma_run_none(self@);
        }
        if ty.type_.is_some() || ty.ref_.is_some() {
            return Ok(());
        }
        proof {
            lemma_run_one(inline_element(*ty), self@);
        }
        let builder = self.types.name_builder().extend(true, clone_text(&ty.name));
        let builder = auto_extend(builder, true, false, &self.stack);
        let builder = if builder.has_extension() {
            builder.with_id(false)
        } else {
            builder.shared_name("Temp")
        };
        let name = builder.finish();
        proof {
            lemma_pushed(self@.stack, self@.opened(name@, NodeView::Element(*ty)).stack.last());
        }
        let ghost outer = self@;
        self.new_inline_entry(name, Node::Element(ty));
        let ghost inner = self@;
        match self.process_element(ty) {
            Ok(()) => {},
            Err(e) => {
                return Err(e);
            },
        }
        proof {
            lemma_entered(outer, inner, element_steps(*ty));
            lemma_shape_positions(outer.stack, self@.closed().stack);
        }
        let ident = self.finish_entry();
        self.add_dependency_with_key(
            NodeDependencyKey::InlineElement(ty.id),
            NodeDependency::Weak(ident),
        );
        Ok(())
    }
}

/// One more name is one more reference.
proof fn lemma_references_step(kind: IdentType, names: Seq<QName>, strength: Strength, k: nat)
    requires
        k < names.len(),
    ensures
        references(kind, names.take((k + 1) as int), strength) == references(
            kind,
            names.take(k as int),
            strength,
        ) + seq![reference(kind, names[k as int], strength)],
{
    assert(references(kind, names.take((k + 1) as int), strength) =~= references(
        kind,
        names.take(k as int),
        strength,
    ) + seq![reference(kind, names[k as int], strength)]);
}

} // verus!
