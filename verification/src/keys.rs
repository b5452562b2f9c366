//! The keys under which a definition depends on what is defined in it.

use vstd::prelude::*;

use crate::nodes::DependencyView;
use crate::steps::{DependencyKeyView, Step, Strength};
use crate::walk::{
    active_at, defined_inline, inline_name, lemma_positions, lemma_popped_kept, lemma_pushed,
    lemma_run_add, lemma_run_kept, lemma_run_one, lemma_run_step_kept, lemma_shape_positions,
    marker_level, parsed_name, run, run_step, same_level, CacheView,
};

verus! {

/// The keys of what is defined in place in a definition with the given steps, in order. What is
/// defined deeper, in such a definition, has its key there.
pub open spec fn inline_keys(steps: Seq<Step>) -> Seq<DependencyKeyView>
    decreases steps,
{
    if steps.len() == 0 {
        Seq::empty()
    } else {
        inline_keys(steps.drop_last()) + step_keys(steps.last())
    }
}

/// The keys of what is defined in place in one step.
pub open spec fn step_keys(step: Step) -> Seq<DependencyKeyView>
    decreases step,
{
    match step {
        Step::Reference { .. } => Seq::empty(),
        Step::Within { body, .. } => inline_keys(body),
        Step::Inline { key, .. } => seq![key],
    }
}

/// Whether the keys of a definition differ, and the keys of each definition in it.
pub open spec fn keys_differ(steps: Seq<Step>) -> bool
    decreases steps, 1nat,
{
    inline_keys(steps).no_duplicates() && inner_keys_differ(steps)
}

/// Whether the keys of each definition in a definition differ.
pub open spec fn inner_keys_differ(steps: Seq<Step>) -> bool
    decreases steps, 0nat,
{
    steps.len() == 0 || (inner_keys_differ(steps.drop_last()) && step_keys_differ(steps.last()))
}

/// Whether the keys of each definition in one step differ, and are no names.
pub open spec fn step_keys_differ(step: Step) -> bool
    decreases step, 0nat,
{
    match step {
        Step::Reference { .. } => true,
        Step::Within { body, .. } => inner_keys_differ(body),
        Step::Inline { key, body, .. } => !(key is Named) && keys_differ(body),
    }
}

/// The keys of two lists of steps.
pub proof fn lemma_keys_add(a: Seq<Step>, b: Seq<Step>)
    ensures
        inline_keys(a + b) == inline_keys(a) + inline_keys(b),
        inner_keys_differ(a + b) == (inner_keys_differ(a) && inner_keys_differ(b)),
    decreases b.len(),
{
    if b.len() == 0 {
        assert(a + b =~= a);
        assert(inline_keys(a) + inline_keys(b) =~= inline_keys(a));
    } else {
        assert((a + b).drop_last() =~= a + b.drop_last());
        assert((a + b).last() == b.last());
        lemma_keys_add(a, b.drop_last());
        assert(inline_keys(a + b) =~= inline_keys(a) + inline_keys(b));
    }
}

/// No steps have no keys.
pub proof fn lemma_keys_none()
    ensures
        inline_keys(Seq::empty()) == Seq::<DependencyKeyView>::empty(),
        inner_keys_differ(Seq::empty()),
{
}

/// The keys of a single step.
pub proof fn lemma_keys_one(step: Step)
    ensures
        inline_keys(seq![step]) == step_keys(step),
        inner_keys_differ(seq![step]) == step_keys_differ(step),
{
    let steps = seq![step];
    assert(steps.drop_last() =~= Seq::<Step>::empty());
    assert(inline_keys(steps.drop_last()) =~= Seq::empty());
    assert(inner_keys_differ(steps.drop_last()));
    assert(steps.last() == step);
    assert(inline_keys(steps) =~= step_keys(step));
}

/// References define nothing.
pub proof fn lemma_keys_references(steps: Seq<Step>)
    requires
        forall|i: int| 0 <= i < steps.len() ==> (#[trigger] steps[i]) is Reference,
    ensures
        inline_keys(steps) == Seq::<DependencyKeyView>::empty(),
        inner_keys_differ(steps),
    decreases steps.len(),
{
    if steps.len() > 0 {
        lemma_keys_references(steps.drop_last());
        assert(steps.last() is Reference);
        assert(step_keys(steps.last()) =~= Seq::<DependencyKeyView>::empty());
        assert(step_keys_differ(steps.last()));
        assert(inline_keys(steps) =~= Seq::<DependencyKeyView>::empty());
    }
}

/// The innermost entry after one more dependency.
pub proof fn lemma_depending(st: CacheView, key: DependencyKeyView, d: DependencyView)
    requires
        st.in_entry(),
    ensures
        active_at(st.depending(key, d).stack) == active_at(st.stack),
        st.depending(key, d).active().dependencies == st.active().dependencies.insert(key, d),
        forall|j: int|
            0 <= j < st.stack.len() && j != active_at(st.stack) ==> st.depending(key, d).stack[j]
                == #[trigger] st.stack[j],
        st.depending(key, d).stack.len() == st.stack.len(),
{
    lemma_positions(st.stack);
    let t = st.depending(key, d);
    assert forall|i: int| 0 <= i < st.stack.len() implies same_level(st.stack[i], t.stack[i]) by {}
    lemma_shape_positions(st.stack, t.stack);
}

/// Whether the levels of a stack below the innermost entry are as they were.
pub open spec fn same_below(a: CacheView, b: CacheView) -> bool {
    forall|j: int| 0 <= j < active_at(a.stack) ==> #[trigger] b.stack[j] == a.stack[j]
}

/// Steps change no level below the innermost entry.
proof fn lemma_run_below(steps: Seq<Step>, st: CacheView)
    requires
        st.in_entry(),
        run(steps, st).1 is None,
    ensures
        same_below(st, run(steps, st).0),
    decreases steps, 0nat,
{
    reveal_with_fuel(run, 1);
    if steps.len() > 0 {
        let mid = run(steps.drop_last(), st).0;
        lemma_run_below(steps.drop_last(), st);
        lemma_run_kept(steps.drop_last(), st);
        lemma_shape_positions(st.stack, mid.stack);
        lemma_step_below(steps.last(), mid);
        let end = run(steps, st).0;
        assert forall|j: int| 0 <= j < active_at(st.stack) implies #[trigger] end.stack[j]
            == st.stack[j] by {
            assert(mid.stack[j] == st.stack[j]);
        }
    }
}

/// A step changes no level below the innermost entry.
proof fn lemma_step_below(step: Step, st: CacheView)
    requires
        st.in_entry(),
        run_step(step, st).1 is None,
    ensures
        same_below(st, run_step(step, st).0),
    decreases step, 1nat,
{
    reveal_with_fuel(run, 1);
    lemma_positions(st.stack);
    match step {
        Step::Reference { kind, name, strength } => {
            let (ns, text) = parsed_name(st.schemas, st.current_ns(), name)->Ok_0;
            lemma_depending(
                st,
                DependencyKeyView::Named(ns, kind, text),
                DependencyView { strength, ident: st.resolved(name, kind)->Ok_0 },
            );
        },
        Step::Within { marker, body } => {
            let inner = st.pushed(marker_level(marker));
            lemma_pushed(st.stack, marker_level(marker));
            lemma_run_below(body, inner);
            lemma_run_kept(body, inner);
            let done = run(body, inner).0;
            assert forall|j: int| 0 <= j < active_at(st.stack) implies #[trigger] run_step(
                step,
                st,
            ).0.stack[j] == st.stack[j] by {
                assert(done.stack[j] == inner.stack[j]);
            }
        },
        Step::Inline { node, naming, key, body } => {
            lemma_inline_below(step, st);
        },
    }
}

/// What a definition in place leaves of the stack, and the dependency that it becomes.
pub proof fn lemma_inline_below(step: Step, st: CacheView)
    requires
        st.in_entry(),
        step is Inline,
        run_step(step, st).1 is None,
    ensures
        same_below(st, run_step(step, st).0),
        run_step(step, st).0.active().dependencies == st.active().dependencies.insert(
            step->key,
            DependencyView {
                strength: Strength::Weak,
                ident: st.ident_here(
                    inline_name(step->naming, st.next_id, st.stack),
                    step->node,
                ),
            },
        ),
    decreases step, 0nat,
{
    reveal_with_fuel(run, 1);
    lemma_positions(st.stack);
    if let Step::Inline { node, naming, key, body } = step {
        let name = inline_name(naming, st.next_id, st.stack);
        let named = CacheView { next_id: st.next_id.wrapping_add(1), ..st };
        let inner = named.opened(name, node);
        lemma_pushed(st.stack, inner.stack.last());
        lemma_run_below(body, inner);
        lemma_run_kept(body, inner);
        let done = run(body, inner).0;
        let n = st.stack.len();
        assert(same_level(inner.stack[n as int], done.stack[n as int]));
        assert(done.stack.last() == done.stack[n as int]);
        assert(done.stack.last()->ident == st.ident_here(name, node));
        assert forall|j: int| 0 <= j < n implies #[trigger] done.closed().stack[j]
            == st.stack[j] by {
            assert(done.stack[j] == inner.stack[j]);
        }
        assert(done.closed().stack =~= st.stack);
        lemma_depending(
            done.closed(),
            key,
            DependencyView { strength: Strength::Weak, ident: done.stack.last()->ident },
        );
        let end = run_step(step, st).0;
        assert(end == defined_inline(done, key));
        assert forall|j: int| 0 <= j < active_at(st.stack) implies #[trigger] end.stack[j]
            == st.stack[j] by {
            assert(done.closed().stack[j] == st.stack[j]);
        }
    }
}

/// Steps leave a dependency on something that is defined in place, unless they define something
/// under the same key.
proof fn lemma_key_stays(steps: Seq<Step>, st: CacheView, key: DependencyKeyView)
    requires
        st.in_entry(),
        run(steps, st).1 is None,
        !(key is Named),
        !inline_keys(steps).contains(key),
        st.active().dependencies.contains_key(key),
    ensures
        run(steps, st).0.active().dependencies.contains_key(key),
        run(steps, st).0.active().dependencies[key] == st.active().dependencies[key],
    decreases steps,
{
    reveal_with_fuel(run, 1);
    if steps.len() > 0 {
        let front = steps.drop_last();
        let mid = run(front, st).0;
        let all = inline_keys(steps);
        assert(all == inline_keys(front) + step_keys(steps.last()));
        assert(!inline_keys(front).contains(key)) by {
            if inline_keys(front).contains(key) {
                let k = choose|k: int|
                    0 <= k < inline_keys(front).len() && inline_keys(front)[k] == key;
                assert(all[k] == key);
            }
        }
        assert(!step_keys(steps.last()).contains(key)) by {
            let more = step_keys(steps.last());
            if more.contains(key) {
                let k = choose|k: int| 0 <= k < more.len() && more[k] == key;
                assert(all[inline_keys(front).len() + k] == key);
            }
        }
        lemma_key_stays(front, st, key);
        lemma_run_kept(front, st);
        lemma_step_key_stays(steps.last(), mid, key);
    }
}

/// A step leaves a dependency on something that is defined in place, unless it defines something
/// under the same key.
proof fn lemma_step_key_stays(step: Step, st: CacheView, key: DependencyKeyView)
    requires
        st.in_entry(),
        run_step(step, st).1 is None,
        !(key is Named),
        !step_keys(step).contains(key),
        st.active().dependencies.contains_key(key),
    ensures
        run_step(step, st).0.active().dependencies.contains_key(key),
        run_step(step, st).0.active().dependencies[key] == st.active().dependencies[key],
    decreases step,
{
    reveal_with_fuel(run, 1);
    lemma_positions(st.stack);
    match step {
        Step::Reference { kind, name, strength } => {
            let (ns, text) = parsed_name(st.schemas, st.current_ns(), name)->Ok_0;
            lemma_depending(
                st,
                DependencyKeyView::Named(ns, kind, text),
                DependencyView { strength, ident: st.resolved(name, kind)->Ok_0 },
            );
        },
        Step::Within { marker, body } => {
            let inner = st.pushed(marker_level(marker));
            lemma_pushed(st.stack, marker_level(marker));
            lemma_key_stays(body, inner, key);
            lemma_within_active(step, st);
        },
        Step::Inline { key: other, .. } => {
            lemma_inline_below(step, st);
            assert(step_keys(step)[0] == other);
            assert(step_keys(step).contains(other));
        },
    }
}

/// The innermost entry is the same inside and outside of a group.
pub proof fn lemma_within_active(step: Step, st: CacheView)
    requires
        st.in_entry(),
        step is Within,
        run_step(step, st).1 is None,
    ensures
        ({
            let inner = st.pushed(marker_level(step->marker));
            &&& inner.in_entry()
            &&& inner.active() == st.active()
            &&& run(step->Within_body, inner).1 is None
            &&& run_step(step, st).0.active() == run(step->Within_body, inner).0.active()
        }),
{
    reveal_with_fuel(run, 1);
    lemma_positions(st.stack);
    if let Step::Within { marker, body } = step {
        let inner = st.pushed(marker_level(marker));
        lemma_pushed(st.stack, marker_level(marker));
        lemma_run_kept(body, inner);
        let done = run(body, inner).0;
        lemma_shape_positions(inner.stack, done.stack);
        lemma_popped_kept(st, inner, done);
        lemma_shape_positions(st.stack, done.stack.drop_last());
    }
}

/// What is defined in place in a definition has a key of its own: the dependency under that key
/// points to it, whatever else the definition holds.
pub proof fn law_inline_definitions_have_their_own_keys(
    before: Seq<Step>,
    step: Step,
    after: Seq<Step>,
    st: CacheView,
)
    requires
        st.in_entry(),
        step is Inline,
        keys_differ(before + seq![step] + after),
        run(before + seq![step] + after, st).1 is None,
    ensures
        ({
            let mid = run(before, st).0;
            let name = inline_name(step->naming, mid.next_id, mid.stack);
            let end = run(before + seq![step] + after, st).0;
            &&& end.active().dependencies.contains_key(step->key)
            &&& end.active().dependencies[step->key] == (DependencyView {
                strength: Strength::Weak,
                ident: mid.ident_here(name, step->node),
            })
        }),
{
    let key = step->key;
    lemma_run_add(before + seq![step], after, st);
    lemma_run_add(before, seq![step], st);
    let mid = run(before, st).0;
    lemma_run_one(step, mid);
    lemma_run_kept(before, st);
    lemma_inline_below(step, mid);
    lemma_run_step_kept(step, mid);
    lemma_keys_add(before + seq![step], after);
    lemma_keys_add(before, seq![step]);
    lemma_keys_one(step);
    let all = inline_keys(before + seq![step] + after);
    let m = inline_keys(before).len();
    assert(all[m as int] == key);
    if inline_keys(after).contains(key) {
        let k = choose|k: int| 0 <= k < inline_keys(after).len() && inline_keys(after)[k] == key;
        assert(all[m + 1 + k] == key);
    }
    lemma_key_stays(after, run_step(step, mid).0, key);
}

/// Each key of what is defined in place is the key of a dependency.
proof fn lemma_keys_recorded(steps: Seq<Step>, st: CacheView)
    requires
        st.in_entry(),
        run(steps, st).1 is None,
        inline_keys(steps).no_duplicates(),
        inner_keys_differ(steps),
    ensures
        forall|k: int|
            0 <= k < inline_keys(steps).len() ==> !((#[trigger] inline_keys(steps)[k]) is Named)
                && run(steps, st).0.active().dependencies.contains_key(inline_keys(steps)[k]),
    decreases steps, 0nat,
{
    reveal_with_fuel(run, 1);
    if steps.len() > 0 {
        let front = steps.drop_last();
        let last = steps.last();
        let mid = run(front, st).0;
        let end = run(steps, st).0;
        let all = inline_keys(steps);
        let one = inline_keys(front);
        let two = step_keys(last);
        assert(all == one + two);
        assert forall|i: int, j: int| 0 <= i < one.len() && 0 <= j < one.len() && i != j implies
            one[i] != one[j] by {
            assert(all[i] == one[i] && all[j] == one[j]);
        }
        assert forall|i: int, j: int| 0 <= i < two.len() && 0 <= j < two.len() && i != j implies
            two[i] != two[j] by {
            assert(all[one.len() + i] == two[i] && all[one.len() + j] == two[j]);
        }
        assert(inner_keys_differ(front) && step_keys_differ(last));
        lemma_keys_recorded(front, st);
        lemma_run_kept(front, st);
        lemma_step_recorded(last, mid);
        assert forall|k: int| 0 <= k < all.len() implies !((#[trigger] all[k]) is Named)
            && end.active().dependencies.contains_key(all[k]) by {
            if k < one.len() {
                assert(all[k] == one[k]);
                if two.contains(one[k]) {
                    let j = choose|j: int| 0 <= j < two.len() && two[j] == one[k];
                    assert(all[one.len() + j] == all[k]);
                }
                lemma_step_key_stays(last, mid, one[k]);
            } else {
                assert(all[k] == two[k - one.len()]);
            }
        }
    }
}

/// Each key of what is defined in place in a step is the key of a dependency.
proof fn lemma_step_recorded(step: Step, st: CacheView)
    requires
        st.in_entry(),
        run_step(step, st).1 is None,
        step_keys(step).no_duplicates(),
        step_keys_differ(step),
    ensures
        forall|k: int|
            0 <= k < step_keys(step).len() ==> !((#[trigger] step_keys(step)[k]) is Named)
                && run_step(step, st).0.active().dependencies.contains_key(step_keys(step)[k]),
    decreases step, 0nat,
{
    reveal_with_fuel(run, 1);
    match step {
        Step::Reference { .. } => {},
        Step::Within { marker, body } => {
            lemma_within_active(step, st);
            assert(step_keys(step) == inline_keys(body));
            assert(inner_keys_differ(body));
            lemma_keys_recorded(body, st.pushed(marker_level(marker)));
        },
        Step::Inline { key, .. } => {
            lemma_inline_below(step, st);
            assert(step_keys(step) == seq![key]);
        },
    }
}

/// Everything that is defined in place in a definition, also in its groups, is a dependency under
/// its own key.
pub proof fn law_inline_definitions_are_dependencies(steps: Seq<Step>, st: CacheView, k: int)
    requires
        st.in_entry(),
        keys_differ(steps),
        run(steps, st).1 is None,
        0 <= k < inline_keys(steps).len(),
    ensures
        run(steps, st).0.active().dependencies.contains_key(inline_keys(steps)[k]),
        forall|j: int|
            0 <= j < inline_keys(steps).len() && j != k ==> (#[trigger] inline_keys(steps)[j])
                != inline_keys(steps)[k],
{
    lemma_keys_recorded(steps, st);
}

} // verus!
