//! What definitions without a name of their own are called.

use vstd::prelude::*;

use crate::contents::{kind_of, place_key};
use crate::ident::{IdentView, NameView};
use crate::keys::lemma_inline_below;
use crate::naming::{new_builder, number_text, BuilderView};
use crate::nodes::DependencyView;
use crate::recordlaws::{lemma_defining, recorded};
use crate::stepcontents::{lemma_node_steps, step_sound};
use crate::steps::{DependencyKeyView, Naming, NodeView, Step, Strength};
use crate::text::{digits, shown, text_of};
use crate::textlaws::{
    law_bytes_are_shown_one_by_one, law_numbers_are_written_in_decimal, law_suffixes_are_taken_off,
};
use crate::walk::{
    inline_name, lemma_positions, lemma_pushed, lemma_run_kept, marker_level, name_on, named_on,
    run, run_step, CacheView, StackView,
};

verus! {

/// Whether a level of the stack is a definition with a name of its own.
pub open spec fn is_named_level(level: StackView) -> bool {
    level matches StackView::Node { ident, .. } && ident.name.named
}

/// Whether level `k` is the innermost definition with a name of its own.
pub open spec fn named_at(stack: Seq<StackView>, k: int) -> bool {
    &&& 0 <= k < stack.len()
    &&& is_named_level(stack[k])
    &&& forall|j: int| k < j < stack.len() ==> !is_named_level(#[trigger] stack[j])
}

/// Whether level `k` is the innermost definition, whatever groups are around.
pub open spec fn node_at(stack: Seq<StackView>, k: int) -> bool {
    &&& 0 <= k < stack.len()
    &&& stack[k] is Node
    &&& forall|j: int| k < j < stack.len() ==> !(#[trigger] stack[j] is Node)
}

/// Whether level `k` is the innermost definition, and no group stands between.
pub open spec fn holder_at(stack: Seq<StackView>, k: int) -> bool {
    &&& 0 <= k < stack.len()
    &&& stack[k] is Node
    &&& forall|j: int| k < j < stack.len() ==> #[trigger] stack[j] is Schema
}

/// Whether a group stands inside the innermost definition, or there is no definition.
pub open spec fn held_by_none(stack: Seq<StackView>) -> bool {
    ||| forall|j: int| 0 <= j < stack.len() ==> #[trigger] stack[j] is Schema
    ||| exists|k: int|
        {
            &&& 0 <= k < stack.len()
            &&& !(#[trigger] stack[k] is Node) && !(stack[k] is Schema)
            &&& forall|j: int| k < j < stack.len() ==> #[trigger] stack[j] is Schema
        }
}

/// The text of the name of the definition at a level.
pub open spec fn text_at(stack: Seq<StackView>, k: int) -> Seq<char> {
    stack[k]->ident.name.text
}

/// A name that was made up.
pub open spec fn made_up_name(text: Seq<char>) -> NameView {
    NameView { named: false, text }
}

/// A name that was given.
pub open spec fn given_name(text: Seq<char>) -> NameView {
    NameView { named: true, text }
}

proof fn lemma_named_at(stack: Seq<StackView>, k: int)
    requires
        named_at(stack, k),
    ensures
        named_on(stack) == Some(text_at(stack, k)),
    decreases stack.len(),
{
    if k < stack.len() - 1 {
        assert(!is_named_level(stack[stack.len() - 1]));
        assert forall|j: int| k < j < stack.drop_last().len() implies !is_named_level(
            #[trigger] stack.drop_last()[j],
        ) by {
            assert(!is_named_level(stack[j]));
        }
        lemma_named_at(stack.drop_last(), k);
    }
}

proof fn lemma_named_nowhere(stack: Seq<StackView>)
    requires
        forall|j: int| 0 <= j < stack.len() ==> !is_named_level(#[trigger] stack[j]),
    ensures
        named_on(stack) is None,
    decreases stack.len(),
{
    if stack.len() > 0 {
        assert(!is_named_level(stack[stack.len() - 1]));
        assert forall|j: int| 0 <= j < stack.drop_last().len() implies !is_named_level(
            #[trigger] stack.drop_last()[j],
        ) by {
            assert(!is_named_level(stack[j]));
        }
        lemma_named_nowhere(stack.drop_last());
    }
}

proof fn lemma_node_at(stack: Seq<StackView>, k: int)
    requires
        node_at(stack, k),
    ensures
        name_on(stack, false) == Some(text_at(stack, k)),
    decreases stack.len(),
{
    if k < stack.len() - 1 {
        assert(!(stack[stack.len() - 1] is Node));
        assert forall|j: int| k < j < stack.drop_last().len() implies !(
        #[trigger] stack.drop_last()[j] is Node) by {
            assert(!(stack[j] is Node));
        }
        lemma_node_at(stack.drop_last(), k);
    }
}

proof fn lemma_node_nowhere(stack: Seq<StackView>)
    requires
        forall|j: int| 0 <= j < stack.len() ==> !(#[trigger] stack[j] is Node),
    ensures
        name_on(stack, false) is None,
    decreases stack.len(),
{
    if stack.len() > 0 {
        assert(!(stack[stack.len() - 1] is Node));
        assert forall|j: int| 0 <= j < stack.drop_last().len() implies !(
        #[trigger] stack.drop_last()[j] is Node) by {
            assert(!(stack[j] is Node));
        }
        lemma_node_nowhere(stack.drop_last());
    }
}

proof fn lemma_holder_at(stack: Seq<StackView>, k: int)
    requires
        0 <= k < stack.len(),
        !(stack[k] is Schema),
        forall|j: int| k < j < stack.len() ==> #[trigger] stack[j] is Schema,
    ensures
        name_on(stack, true) == if stack[k] is Node {
            Some(text_at(stack, k))
        } else {
            None
        },
    decreases stack.len(),
{
    if k < stack.len() - 1 {
        assert(stack[stack.len() - 1] is Schema);
        assert forall|j: int| k < j < stack.drop_last().len() implies
        #[trigger] stack.drop_last()[j] is Schema by {
            assert(stack[j] is Schema);
        }
        lemma_holder_at(stack.drop_last(), k);
    }
}

proof fn lemma_only_schemas(stack: Seq<StackView>)
    requires
        forall|j: int| 0 <= j < stack.len() ==> #[trigger] stack[j] is Schema,
    ensures
        name_on(stack, true) is None,
    decreases stack.len(),
{
    if stack.len() > 0 {
        assert(stack[stack.len() - 1] is Schema);
        assert forall|j: int| 0 <= j < stack.drop_last().len() implies
        #[trigger] stack.drop_last()[j] is Schema by {
            assert(stack[j] is Schema);
        }
        lemma_only_schemas(stack.drop_last());
    }
}

proof fn lemma_held_by_none(stack: Seq<StackView>)
    requires
        held_by_none(stack),
    ensures
        name_on(stack, true) is None,
{
    if forall|j: int| 0 <= j < stack.len() ==> #[trigger] stack[j] is Schema {
        lemma_only_schemas(stack);
    } else {
        let k = choose|k: int|
            {
                &&& 0 <= k < stack.len()
                &&& !(#[trigger] stack[k] is Node) && !(stack[k] is Schema)
                &&& forall|j: int| k < j < stack.len() ==> #[trigger] stack[j] is Schema
            };
        lemma_holder_at(stack, k);
    }
}

/// The number in a name is written in decimal.
pub proof fn law_names_count_in_decimal(n: usize)
    ensures
        number_text(n).len() == digits(n as nat).len(),
        forall|i: int|
            0 <= i < digits(n as nat).len() ==> #[trigger] number_text(n)[i] == digits(
                n as nat,
            )[i] as char,
{
    law_numbers_are_written_in_decimal(n as nat);
    lemma_shown_digits(digits(n as nat));
}

proof fn lemma_shown_digits(b: Seq<u8>)
    requires
        forall|i: int| 0 <= i < b.len() ==> 48 <= #[trigger] b[i] <= 57,
    ensures
        shown(b).len() == b.len(),
        forall|i: int| 0 <= i < b.len() ==> #[trigger] shown(b)[i] == b[i] as char,
    decreases b.len(),
{
    if b.len() > 0 {
        lemma_shown_digits(b.drop_last());
        law_bytes_are_shown_one_by_one(b.drop_last(), b.last());
        assert(b.drop_last().push(b.last()) =~= b);
    }
}

/// The item type that is defined in place in a list is called by its own name. Without one it is
/// called like the `itemType` of the list, if that is a text. Otherwise it is called after the
/// innermost definition with a name of its own: `Type` at the end of that name becomes `Item`, and a
/// name that ends otherwise has `Item` behind it. Without any of these it is unnamed, and numbered.
pub proof fn law_items_are_named_after_their_list(
    own: Option<Seq<char>>,
    item: Option<Seq<u8>>,
    id: usize,
    stack: Seq<StackView>,
    k: int,
    front: Seq<char>,
)
    ensures
        ({
            let name = inline_name(Naming::Item { own, item }, id, stack);
            let item_text = match item {
                Some(b) => text_of(b),
                None => None,
            };
            &&& own is Some ==> name == given_name(own->0)
            &&& own is None && item_text is Some ==> name == given_name(item_text->0)
            &&& own is None && item_text is None && named_at(stack, k) && text_at(stack, k)
                == front + "Type"@ ==> name == given_name(front + "Item"@)
            &&& own is None && item_text is None && named_at(stack, k) && (forall|f: Seq<char>|
                text_at(stack, k) != #[trigger] (f + "Type"@)) ==> name == given_name(
                text_at(stack, k) + "Item"@,
            )
            &&& own is None && item_text is None && (forall|j: int|
                0 <= j < stack.len() ==> !is_named_level(#[trigger] stack[j])) ==> name
                == made_up_name("Unnamed"@ + number_text(id))
        }),
{
    if named_at(stack, k) {
        lemma_named_at(stack, k);
        law_suffixes_are_taken_off(front, "Type"@, text_at(stack, k));
    }
    if forall|j: int| 0 <= j < stack.len() ==> !is_named_level(#[trigger] stack[j]) {
        lemma_named_nowhere(stack);
    }
}

/// A member type that is defined in place in a union is called after the innermost definition: the
/// name of that definition, followed by the own name of the member, or by a number without one.
/// Outside of definitions the own name alone counts, or the member is unnamed, and numbered.
pub proof fn law_members_are_named_after_their_union(
    own: Option<Seq<char>>,
    id: usize,
    stack: Seq<StackView>,
    k: int,
)
    ensures
        ({
            let name = inline_name(Naming::Member { own }, id, stack);
            let alone = forall|j: int| 0 <= j < stack.len() ==> !(#[trigger] stack[j] is Node);
            &&& own is Some && node_at(stack, k) ==> name == made_up_name(
                text_at(stack, k) + own->0,
            )
            &&& own is None && node_at(stack, k) ==> name == made_up_name(
                text_at(stack, k) + number_text(id),
            )
            &&& own is Some && alone ==> name == given_name(own->0)
            &&& own is None && alone ==> name == made_up_name("Unnamed"@ + number_text(id))
        }),
{
    if node_at(stack, k) {
        lemma_node_at(stack, k);
    }
    if forall|j: int| 0 <= j < stack.len() ==> !(#[trigger] stack[j] is Node) {
        lemma_node_nowhere(stack);
    }
}

/// A type that is defined in place in an attribute is called like the attribute, or by its own name
/// where the attribute has none. Where the attribute stands in a definition, with no group between,
/// the name of that definition comes first, and a number stands for a name that is missing.
/// Elsewhere a type without a name is unnamed, and numbered.
pub proof fn law_types_are_named_after_their_attribute(
    attribute: Option<Seq<char>>,
    own: Option<Seq<char>>,
    id: usize,
    stack: Seq<StackView>,
    k: int,
)
    ensures
        ({
            let name = inline_name(Naming::OfAttribute { attribute, own }, id, stack);
            let text = if attribute is Some {
                attribute
            } else {
                own
            };
            &&& text is Some && holder_at(stack, k) ==> name == made_up_name(
                text_at(stack, k) + text->0,
            )
            &&& text is None && holder_at(stack, k) ==> name == made_up_name(
                text_at(stack, k) + number_text(id),
            )
            &&& text is Some && held_by_none(stack) ==> name == given_name(text->0)
            &&& text is None && held_by_none(stack) ==> name == made_up_name(
                "Unnamed"@ + number_text(id),
            )
        }),
{
    if holder_at(stack, k) {
        lemma_holder_at(stack, k);
    }
    if held_by_none(stack) {
        lemma_held_by_none(stack);
    }
}

/// An element that is defined in place in a definition, with no group between, is called after that
/// definition: the name of the definition, followed by that of the element if it has one. Elsewhere
/// the name of the element alone counts, and one without a name is numbered. The name is never one
/// that was given.
pub proof fn law_elements_are_named_after_what_holds_them(
    own: Option<Seq<char>>,
    id: usize,
    stack: Seq<StackView>,
    k: int,
)
    ensures
        ({
            let name = inline_name(Naming::OfElement { own }, id, stack);
            &&& own is Some && holder_at(stack, k) ==> name == made_up_name(
                text_at(stack, k) + own->0,
            )
            &&& own is None && holder_at(stack, k) ==> name == made_up_name(text_at(stack, k))
            &&& own is Some && held_by_none(stack) ==> name == made_up_name(own->0)
            &&& own is None && held_by_none(stack) ==> name == made_up_name(
                "Temp"@ + number_text(id),
            )
        }),
{
    if holder_at(stack, k) {
        lemma_holder_at(stack, k);
    }
    if held_by_none(stack) {
        lemma_held_by_none(stack);
    }
}

/// A name that is put together keeps the first name that it is given. A part is put in front of what
/// stands in front of the name, or in its place.
pub proof fn law_names_are_put_together(
    b: BuilderView,
    first: Seq<char>,
    second: Option<Seq<char>>,
    part: Seq<char>,
    front: Seq<char>,
)
    ensures
        b.name is None ==> b.or_given(Some(first)).name == Some(given_name(first)),
        b.name is Some ==> b.or_given(second) == b,
        b.or_given(None) == b,
        b.or_given(second).extension == b.extension,
        b.extended(true, Some(part)).extension == Some(part),
        b.extension == Some(front) ==> b.extended(false, Some(part)).extension == Some(
            part + front,
        ),
        b.extension is None ==> b.extended(false, Some(part)).extension == Some(part),
        b.extended(true, None) == b && b.extended(false, None) == b,
        b.extended(true, Some(part)).name == b.name && b.extended(false, Some(part)).name == b.name,
{
}

/// A name that was given stays given unless something stands in front of it. What has no name is
/// called by what would stand in front of it, and by its number unless that is left out, or else is
/// unnamed, and numbered.
pub proof fn law_names_are_finished(b: BuilderView, name: NameView, front: Seq<char>)
    ensures
        b.name == Some(name) && b.extension is None ==> b.finished() == name,
        b.name == Some(name) && b.extension == Some(front) ==> b.finished() == made_up_name(
            front + name.text,
        ),
        b.name is None && b.extension == Some(front) && b.with_id ==> b.finished() == made_up_name(
            front + number_text(b.id),
        ),
        b.name is None && b.extension == Some(front) && !b.with_id ==> b.finished()
            == made_up_name(front),
        b.name is None && b.extension is None ==> b.finished() == made_up_name(
            "Unnamed"@ + number_text(b.id),
        ),
        new_builder(b.id).name is None && new_builder(b.id).extension is None && new_builder(
            b.id,
        ).with_id && new_builder(b.id).id == b.id,
{
}

/// How many definitions stand in place in some steps, at any depth.
pub open spec fn numbers_taken(steps: Seq<Step>) -> nat
    decreases steps,
{
    if steps.len() == 0 {
        0
    } else {
        numbers_taken(steps.drop_last()) + number_taken(steps.last())
    }
}

/// How many definitions stand in place in a step, at any depth.
pub open spec fn number_taken(step: Step) -> nat
    decreases step,
{
    match step {
        Step::Reference { .. } => 0,
        Step::Within { body, .. } => numbers_taken(body),
        Step::Inline { body, .. } => 1 + numbers_taken(body),
    }
}

/// Each definition in place takes a number of its own, as long as there are numbers left.
pub proof fn law_definitions_in_place_are_numbered(steps: Seq<Step>, st: CacheView)
    requires
        run(steps, st).1 is None,
        st.next_id + numbers_taken(steps) <= usize::MAX,
    ensures
        run(steps, st).0.next_id == st.next_id + numbers_taken(steps),
    decreases steps,
{
    reveal_with_fuel(run, 1);
    reveal_with_fuel(numbers_taken, 1);
    if steps.len() > 0 {
        law_definitions_in_place_are_numbered(steps.drop_last(), st);
        lemma_step_numbered(steps.last(), run(steps.drop_last(), st).0);
    }
}

proof fn lemma_step_numbered(step: Step, st: CacheView)
    requires
        run_step(step, st).1 is None,
        st.next_id + number_taken(step) <= usize::MAX,
    ensures
        run_step(step, st).0.next_id == st.next_id + number_taken(step),
    decreases step,
{
    reveal_with_fuel(run, 1);
    reveal_with_fuel(numbers_taken, 1);
    match step {
        Step::Reference { .. } => {},
        Step::Within { marker, body } => {
            law_definitions_in_place_are_numbered(body, st.pushed(marker_level(marker)));
        },
        Step::Inline { node, naming, body, .. } => {
            let name = inline_name(naming, st.next_id, st.stack);
            let named = CacheView { next_id: st.next_id.wrapping_add(1), ..st };
            law_definitions_in_place_are_numbered(body, named.opened(name, node));
        },
    }
}

/// A definition in place that is read without an error has an entry of its own, in the namespace and
/// the schema where it stands, under the name that it is called by there and under its kind. The
/// entry holds the definition, redefines nothing, and records what stands in it. The definition that
/// holds it depends on it weakly.
pub proof fn law_definitions_in_place_have_entries(
    node: NodeView,
    naming: Naming,
    key: DependencyKeyView,
    body: Seq<Step>,
    st: CacheView,
)
    requires
        st.in_entry(),
        step_sound(Step::Inline { node, naming, key, body }),
        run_step(Step::Inline { node, naming, key, body }, st).1 is None,
    ensures
        ({
            let end = run_step(Step::Inline { node, naming, key, body }, st).0;
            let ident = IdentView {
                ns: st.current_ns(),
                schema: st.current_schema(),
                name: inline_name(naming, st.next_id, st.stack),
                type_: kind_of(node),
            };
            &&& place_key(node) == Some(key)
            &&& end.idents.idents.contains(ident)
            &&& end.nodes.contains_key(ident)
            &&& end.nodes[ident].node == node
            &&& end.nodes[ident].redefine_base is None
            &&& recorded(st.schemas, st.current_ns(), node, end.nodes[ident].dependencies)
            &&& end.active().dependencies == st.active().dependencies.insert(
                key,
                DependencyView { strength: Strength::Weak, ident },
            )
        }),
{
    reveal_with_fuel(run, 1);
    let step = Step::Inline { node, naming, key, body };
    let end = run_step(step, st).0;
    let name = inline_name(naming, st.next_id, st.stack);
    let named = CacheView { next_id: st.next_id.wrapping_add(1), ..st };
    let inner = named.opened(name, node);
    lemma_positions(st.stack);
    lemma_pushed(st.stack, inner.stack.last());
    lemma_node_steps(node);
    lemma_defining(named, inner, node);
    lemma_inline_below(step, st);
    let done = run(body, inner).0;
    lemma_run_kept(body, inner);
    assert(end.nodes == done.closed().nodes);
    assert(inner.current_ns() == st.current_ns());
}

} // verus!
