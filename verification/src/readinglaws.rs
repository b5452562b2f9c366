//! In which order the parts of a definition are read. Of several mentions of a name in a definition
//! the last one counts, so the order decides how strong a dependency is.

use vstd::prelude::*;

use crate::ident::IdentType;
use crate::identcache::ErrorView;
use crate::steps::{
    attribute_group_content_steps, complex_content_content_steps, complex_type_content_steps,
    element_content_steps, element_steps, extension_content_steps, extension_steps,
    group_list_steps, restriction_content_steps, restriction_steps, simple_content_content_steps,
    simple_restriction_content_steps, simple_restriction_steps, simple_type_content_steps,
    union_member_steps, Step, Strength,
};
use crate::walk::{lemma_run_add, run, run_step, CacheView};
use crate::xs::{
    AttributeGroupTypeContent, ComplexBaseTypeContent, ComplexContentContent, ElementType,
    ElementTypeContent, ExtensionType, ExtensionTypeContent, GroupTypeContent, Restriction,
    RestrictionContent, RestrictionType, RestrictionTypeContent, SimpleBaseType,
    SimpleBaseTypeContent, SimpleContentContent,
};

verus! {

/// The parts of an element are read in their order: what is read of the first `m` of them is what
/// is read first of more of them.
pub proof fn law_element_content_is_read_in_order(
    content: Seq<ElementTypeContent>,
    m: nat,
    n: nat,
)
    requires
        m <= n <= content.len(),
    ensures
        element_content_steps(content, m).is_prefix_of(
            element_content_steps(content, n),
        ),
    decreases n,
{
    reveal_with_fuel(element_content_steps, 1);
    if m < n {
        law_element_content_is_read_in_order(content, m, (n - 1) as nat);
    }
}

/// The parts of a simple type are read in their order: what is read of the first `m` of them is
/// what is read first of more of them.
pub proof fn law_simple_type_content_is_read_in_order(
    content: Seq<SimpleBaseTypeContent>,
    m: nat,
    n: nat,
)
    requires
        m <= n <= content.len(),
    ensures
        simple_type_content_steps(content, m).is_prefix_of(
            simple_type_content_steps(content, n),
        ),
    decreases n,
{
    reveal_with_fuel(simple_type_content_steps, 1);
    if m < n {
        law_simple_type_content_is_read_in_order(content, m, (n - 1) as nat);
    }
}

/// The parts of a restriction of a simple type are read in their order: what is read of the first
/// `m` of them is what is read first of more of them.
pub proof fn law_simple_restriction_content_is_read_in_order(
    content: Seq<RestrictionContent>,
    m: nat,
    n: nat,
)
    requires
        m <= n <= content.len(),
    ensures
        simple_restriction_content_steps(content, m).is_prefix_of(
            simple_restriction_content_steps(content, n),
        ),
    decreases n,
{
    reveal_with_fuel(simple_restriction_content_steps, 1);
    if m < n {
        law_simple_restriction_content_is_read_in_order(content, m, (n - 1) as nat);
    }
}

/// The parts of a union are read in their order: what is read of the first `m` of them is what is
/// read first of more of them.
pub proof fn law_union_member_is_read_in_order(
    content: Seq<SimpleBaseType>,
    m: nat,
    n: nat,
)
    requires
        m <= n <= content.len(),
    ensures
        union_member_steps(content, m).is_prefix_of(
            union_member_steps(content, n),
        ),
    decreases n,
{
    reveal_with_fuel(union_member_steps, 1);
    if m < n {
        law_union_member_is_read_in_order(content, m, (n - 1) as nat);
    }
}

/// The parts of a complex type are read in their order: what is read of the first `m` of them is
/// what is read first of more of them.
pub proof fn law_complex_type_content_is_read_in_order(
    content: Seq<ComplexBaseTypeContent>,
    m: nat,
    n: nat,
)
    requires
        m <= n <= content.len(),
    ensures
        complex_type_content_steps(content, m).is_prefix_of(
            complex_type_content_steps(content, n),
        ),
    decreases n,
{
    reveal_with_fuel(complex_type_content_steps, 1);
    if m < n {
        law_complex_type_content_is_read_in_order(content, m, (n - 1) as nat);
    }
}

/// The parts of a simple content are read in their order: what is read of the first `m` of them is
/// what is read first of more of them.
pub proof fn law_simple_content_content_is_read_in_order(
    content: Seq<SimpleContentContent>,
    m: nat,
    n: nat,
)
    requires
        m <= n <= content.len(),
    ensures
        simple_content_content_steps(content, m).is_prefix_of(
            simple_content_content_steps(content, n),
        ),
    decreases n,
{
    reveal_with_fuel(simple_content_content_steps, 1);
    if m < n {
        law_simple_content_content_is_read_in_order(content, m, (n - 1) as nat);
    }
}

/// The parts of a complex content are read in their order: what is read of the first `m` of them is
/// what is read first of more of them.
pub proof fn law_complex_content_content_is_read_in_order(
    content: Seq<ComplexContentContent>,
    m: nat,
    n: nat,
)
    requires
        m <= n <= content.len(),
    ensures
        complex_content_content_steps(content, m).is_prefix_of(
            complex_content_content_steps(content, n),
        ),
    decreases n,
{
    reveal_with_fuel(complex_content_content_steps, 1);
    if m < n {
        law_complex_content_content_is_read_in_order(content, m, (n - 1) as nat);
    }
}

/// The parts of a restriction are read in their order: what is read of the first `m` of them is
/// what is read first of more of them.
pub proof fn law_restriction_content_is_read_in_order(
    content: Seq<RestrictionTypeContent>,
    m: nat,
    n: nat,
)
    requires
        m <= n <= content.len(),
    ensures
        restriction_content_steps(content, m).is_prefix_of(
            restriction_content_steps(content, n),
        ),
    decreases n,
{
    reveal_with_fuel(restriction_content_steps, 1);
    if m < n {
        law_restriction_content_is_read_in_order(content, m, (n - 1) as nat);
    }
}

/// The parts of an extension are read in their order: what is read of the first `m` of them is what
/// is read first of more of them.
pub proof fn law_extension_content_is_read_in_order(
    content: Seq<ExtensionTypeContent>,
    m: nat,
    n: nat,
)
    requires
        m <= n <= content.len(),
    ensures
        extension_content_steps(content, m).is_prefix_of(
            extension_content_steps(content, n),
        ),
    decreases n,
{
    reveal_with_fuel(extension_content_steps, 1);
    if m < n {
        law_extension_content_is_read_in_order(content, m, (n - 1) as nat);
    }
}

/// The parts of a group are read in their order: what is read of the first `m` of them is what is
/// read first of more of them.
pub proof fn law_group_list_is_read_in_order(
    content: Seq<GroupTypeContent>,
    m: nat,
    n: nat,
)
    requires
        m <= n <= content.len(),
    ensures
        group_list_steps(content, m).is_prefix_of(
            group_list_steps(content, n),
        ),
    decreases n,
{
    reveal_with_fuel(group_list_steps, 1);
    if m < n {
        law_group_list_is_read_in_order(content, m, (n - 1) as nat);
    }
}

/// The parts of an attribute group are read in their order: what is read of the first `m` of them
/// is what is read first of more of them.
pub proof fn law_attribute_group_content_is_read_in_order(
    content: Seq<AttributeGroupTypeContent>,
    m: nat,
    n: nat,
)
    requires
        m <= n <= content.len(),
    ensures
        attribute_group_content_steps(content, m).is_prefix_of(
            attribute_group_content_steps(content, n),
        ),
    decreases n,
{
    reveal_with_fuel(attribute_group_content_steps, 1);
    if m < n {
        law_attribute_group_content_is_read_in_order(content, m, (n - 1) as nat);
    }
}

/// What a definition depends on after reading its `base` and its parts: the `base` is read first,
/// so that a mention of the same name in the parts counts.
pub proof fn law_bases_are_read_first(
    r: RestrictionType,
    e: ExtensionType,
    s: Restriction,
    st: CacheView,
)
    ensures
        ({
            let mid = st.refer(IdentType::Type, r.base@, Strength::Strong);
            run(restriction_steps(r), st) == if mid.1 is Some {
                mid
            } else {
                run(restriction_content_steps(r.content@, r.content@.len()), mid.0)
            }
        }),
        ({
            let mid = st.refer(IdentType::Type, e.base@, Strength::Strong);
            run(extension_steps(e), st) == if mid.1 is Some {
                mid
            } else {
                run(extension_content_steps(e.content@, e.content@.len()), mid.0)
            }
        }),
        s.base matches Some(q) ==> ({
            let mid = st.refer(IdentType::Type, q@, Strength::Strong);
            run(simple_restriction_steps(s), st) == if mid.1 is Some {
                mid
            } else {
                run(simple_restriction_content_steps(s.content@, s.content@.len()), mid.0)
            }
        }),
{
    reveal_with_fuel(restriction_steps, 1);
    reveal_with_fuel(extension_steps, 1);
    reveal_with_fuel(simple_restriction_steps, 1);
    let kind = IdentType::Type;
    let strength = Strength::Strong;
    let one = Step::Reference { kind, name: r.base@, strength };
    lemma_one(one, st);
    lemma_run_add(seq![one], restriction_content_steps(r.content@, r.content@.len()), st);
    let other = Step::Reference { kind, name: e.base@, strength };
    lemma_one(other, st);
    lemma_run_add(seq![other], extension_content_steps(e.content@, e.content@.len()), st);
    if let Some(q) = s.base {
        let first = Step::Reference { kind, name: q@, strength };
        lemma_one(first, st);
        lemma_run_add(
            seq![first],
            simple_restriction_content_steps(s.content@, s.content@.len()),
            st,
        );
    }
}

/// The heads in the `substitutionGroup` of an element without a `type` are read first, in their
/// order, so that a mention of the same element in its content counts.
pub proof fn law_heads_are_read_before_the_content(x: ElementType, i: int)
    requires
        x.type_ is None,
        x.substitution_group is Some,
        0 <= i < x.substitution_group->0@.len(),
    ensures
        i < element_steps(x).len(),
        element_steps(x)[i] == (Step::Reference {
            kind: IdentType::Element,
            name: x.substitution_group->0@[i]@,
            strength: Strength::Strong,
        }),
{
    reveal_with_fuel(element_steps, 1);
}

/// Taking one step.
proof fn lemma_one(step: Step, st: CacheView)
    ensures
        run(seq![step], st) == run_step(step, st),
{
    reveal_with_fuel(run, 1);
    let steps = seq![step];
    assert(steps.drop_last() =~= Seq::empty());
    assert(run(Seq::<Step>::empty(), st) == (st, None::<ErrorView>));
}

} // verus!
