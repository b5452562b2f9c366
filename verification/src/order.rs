//! A total order on the keys of the ordered collections.
//!
//! Every key type is mapped to a sequence of integers, its code. Keys are ordered by the
//! lexicographic order of their codes.

use vstd::prelude::*;
use vstd::utf8::encode_utf8;

verus! {

/// The position of one key relative to another.
#[derive(Debug, Clone, Copy, PartialEq, Eq, Structural)]
pub enum Order {
    Before,
    Same,
    After,
}

/// Whether `a` comes strictly before `b` in the lexicographic order.
pub open spec fn lex_before(a: Seq<int>, b: Seq<int>) -> bool
    decreases a.len(),
{
    if b.len() == 0 {
        false
    } else if a.len() == 0 {
        true
    } else if a[0] != b[0] {
        a[0] < b[0]
    } else {
        lex_before(a.drop_first(), b.drop_first())
    }
}

/// The position of `a` relative to `b` in the lexicographic order.
pub open spec fn lex_order(a: Seq<int>, b: Seq<int>) -> Order {
    if a == b {
        Order::Same
    } else if lex_before(a, b) {
        Order::Before
    } else {
        Order::After
    }
}

/// Nothing comes before itself.
pub proof fn lemma_lex_irreflexive(a: Seq<int>)
    ensures
        !lex_before(a, a),
    decreases a.len(),
{
    if a.len() > 0 {
        lemma_lex_irreflexive(a.drop_first());
    }
}

/// What comes before something that comes before another comes before it.
pub proof fn lemma_lex_transitive(a: Seq<int>, b: Seq<int>, c: Seq<int>)
    requires
        lex_before(a, b),
        lex_before(b, c),
    ensures
        lex_before(a, c),
    decreases a.len(),
{
    if a.len() > 0 && a[0] == b[0] && b[0] == c[0] {
        lemma_lex_transitive(a.drop_first(), b.drop_first(), c.drop_first());
    }
}

/// Two different sequences come one before the other.
pub proof fn lemma_lex_total(a: Seq<int>, b: Seq<int>)
    ensures
        a == b || lex_before(a, b) || lex_before(b, a),
    decreases a.len(),
{
    if a.len() == 0 || b.len() == 0 {
        assert(a.len() == 0 && b.len() == 0 ==> a =~= b);
    } else if a[0] == b[0] {
        lemma_lex_total(a.drop_first(), b.drop_first());
        if a.drop_first() == b.drop_first() {
            assert(a =~= seq![a[0]] + a.drop_first());
            assert(b =~= seq![b[0]] + b.drop_first());
        }
    }
}

/// A code with one more integer in front.
pub open spec fn cons(x: int, s: Seq<int>) -> Seq<int> {
    seq![x] + s
}

/// The first numbers decide, and else the rest.
pub proof fn lemma_cons_order(x: int, s: Seq<int>, y: int, t: Seq<int>)
    ensures
        x < y ==> lex_order(cons(x, s), cons(y, t)) == Order::Before,
        x > y ==> lex_order(cons(x, s), cons(y, t)) == Order::After,
        x == y ==> lex_order(cons(x, s), cons(y, t)) == lex_order(s, t),
        cons(x, s) == cons(y, t) ==> x == y && s == t,
{
    let a = cons(x, s);
    let b = cons(y, t);
    assert(a[0] == x && b[0] == y);
    assert(a.drop_first() =~= s);
    assert(b.drop_first() =~= t);
    if a == b {
        assert(s =~= a.drop_first());
        assert(t =~= b.drop_first());
    }
}

/// Bytes as a code.
pub open spec fn byte_code(b: Seq<u8>) -> Seq<int> {
    Seq::new(b.len(), |i: int| b[i] as int)
}

/// Bytes are known by their code.
pub proof fn lemma_byte_code_injective(a: Seq<u8>, b: Seq<u8>)
    requires
        byte_code(a) == byte_code(b),
    ensures
        a == b,
{
    assert(byte_code(a).len() == a.len() && byte_code(b).len() == b.len());
    assert forall|i: int| 0 <= i < a.len() implies a[i] == b[i] by {
        assert(byte_code(a)[i] == a[i] as int);
        assert(byte_code(b)[i] == b[i] as int);
    }
    assert(a =~= b);
}

/// Text as a code: the code of its UTF-8 bytes.
pub open spec fn text_code(s: Seq<char>) -> Seq<int> {
    byte_code(encode_utf8(s))
}

/// Texts are known by their code.
pub proof fn lemma_text_code_injective(a: Seq<char>, b: Seq<char>)
    requires
        text_code(a) == text_code(b),
    ensures
        a == b,
{
    lemma_byte_code_injective(encode_utf8(a), encode_utf8(b));
    vstd::utf8::encode_utf8_decode_utf8(a);
    vstd::utf8::encode_utf8_decode_utf8(b);
}

/// Compares two numbers.
pub fn order_of_numbers(a: usize, b: usize) -> (o: Order)
    ensures
        a < b ==> o == Order::Before,
        a == b ==> o == Order::Same,
        a > b ==> o == Order::After,
{
    if a < b {
        Order::Before
    } else if a == b {
        Order::Same
    } else {
        Order::After
    }
}

/// Compares two byte strings lexicographically.
pub fn order_of_bytes(a: &[u8], b: &[u8]) -> (o: Order)
    ensures
        o == lex_order(byte_code(a@), byte_code(b@)),
{
    let ghost ca = byte_code(a@);
    let ghost cb = byte_code(b@);
    let mut i: usize = 0;
    assert(ca.skip(0) =~= ca);
    assert(cb.skip(0) =~= cb);
    while i < a.len() && i < b.len()
        invariant
            ca == byte_code(a@),
            cb == byte_code(b@),
            i <= a@.len(),
            i <= b@.len(),
            ca.take(i as int) == cb.take(i as int),
            lex_before(ca, cb) == lex_before(ca.skip(i as int), cb.skip(i as int)),
        decreases a@.len() - i,
    {
        let x = a[i];
        let y = b[i];
        let ghost sa = ca.skip(i as int);
        let ghost sb = cb.skip(i as int);
        assert(sa[0] == x as int && sb[0] == y as int);
        if x != y {
            assert(ca != cb) by {
                assert(ca[i as int] == x as int && cb[i as int] == y as int);
            }
            if x < y {
                return Order::Before;
            }
            return Order::After;
        }
        assert(sa.drop_first() =~= ca.skip(i + 1));
        assert(sb.drop_first() =~= cb.skip(i + 1));
        assert(ca.take(i + 1) =~= ca.take(i as int).push(x as int));
        assert(cb.take(i + 1) =~= cb.take(i as int).push(y as int));
        i = i + 1;
    }
    if a.len() == b.len() {
        assert(ca.take(i as int) =~= ca);
        assert(cb.take(i as int) =~= cb);
        Order::Same
    } else {
        assert(ca.len() != cb.len());
        if a.len() < b.len() {
            Order::Before
        } else {
            Order::After
        }
    }
}

/// A type whose values can be keys of an ordered collection.
pub trait Key: View + Sized {
    /// The code by which a key is ordered.
    spec fn code(v: Self::V) -> Seq<int>;

    /// Different keys have different codes.
    proof fn code_injective(a: Self::V, b: Self::V)
        requires
            Self::code(a) == Self::code(b),
        ensures
            a == b,
    ;

    /// Compares two keys.
    fn order_of(&self, other: &Self) -> (o: Order)
        ensures
            o == lex_order(Self::code(self@), Self::code(other@)),
    ;
}

/// Whether key `a` comes strictly before key `b`.
pub open spec fn before<K: Key>(a: K::V, b: K::V) -> bool {
    lex_before(K::code(a), K::code(b))
}

/// Whether the keys are in strictly ascending order.
pub open spec fn ascending<K: Key>(s: Seq<K::V>) -> bool {
    forall|i: int, j: int| #![trigger s[i], s[j]] 0 <= i < j < s.len() ==> before::<K>(s[i], s[j])
}

/// Whether `s` lists exactly the keys of `d`.
pub open spec fn lists<A>(s: Seq<A>, d: Set<A>) -> bool {
    forall|k: A| #![trigger d.contains(k)] #![trigger s.contains(k)] d.contains(k) <==> s.contains(k)
}

/// The keys of a set in ascending order.
pub open spec fn in_order<K: Key>(d: Set<K::V>) -> Seq<K::V> {
    choose|s: Seq<K::V>| ascending::<K>(s) && lists(s, d)
}

/// Two ascending sequences of the same keys are the same.
pub proof fn lemma_ascending_unique<K: Key>(s: Seq<K::V>, t: Seq<K::V>)
    requires
        ascending::<K>(s),
        ascending::<K>(t),
        forall|k: K::V| s.contains(k) <==> t.contains(k),
    ensures
        s == t,
    decreases s.len(),
{
    if s.len() == 0 {
        if t.len() > 0 {
            assert(t.contains(t[0]));
        }
        assert(s =~= t);
    } else {
        assert(s.contains(s[0]));
        let j = choose|j: int| 0 <= j < t.len() && t[j] == s[0];
        assert(t.contains(t[0]));
        let i = choose|i: int| 0 <= i < s.len() && s[i] == t[0];
        if j > 0 {
            assert(before::<K>(t[0], t[j]));
            if i > 0 {
                assert(before::<K>(s[0], s[i]));
                lemma_lex_transitive(K::code(s[0]), K::code(t[0]), K::code(s[0]));
            }
            lemma_lex_irreflexive(K::code(s[0]));
        }
        assert(s[0] == t[0]);
        let s1 = s.drop_first();
        let t1 = t.drop_first();
        assert forall|k: K::V| s1.contains(k) implies t1.contains(k) by {
            let a = choose|a: int| 0 <= a < s1.len() && s1[a] == k;
            assert(s[a + 1] == k);
            assert(before::<K>(s[0], s[a + 1]));
            lemma_lex_irreflexive(K::code(k));
            assert(s.contains(k));
            let b = choose|b: int| 0 <= b < t.len() && t[b] == k;
            assert(b != 0);
            assert(t1[b - 1] == k);
        }
        assert forall|k: K::V| t1.contains(k) implies s1.contains(k) by {
            let a = choose|a: int| 0 <= a < t1.len() && t1[a] == k;
            assert(t[a + 1] == k);
            assert(before::<K>(t[0], t[a + 1]));
            lemma_lex_irreflexive(K::code(k));
            assert(t.contains(k));
            let b = choose|b: int| 0 <= b < s.len() && s[b] == k;
            assert(b != 0);
            assert(s1[b - 1] == k);
        }
        lemma_ascending_unique::<K>(s1, t1);
        assert(s =~= seq![s[0]] + s1);
        assert(t =~= seq![t[0]] + t1);
    }
}

/// An ascending sequence of the keys of `d` is `in_order(d)`.
pub proof fn lemma_in_order<K: Key>(s: Seq<K::V>, d: Set<K::V>)
    requires
        ascending::<K>(s),
        lists(s, d),
    ensures
        in_order::<K>(d) == s,
{
    let t = in_order::<K>(d);
    assert(ascending::<K>(t) && lists(t, d));
    lemma_ascending_unique::<K>(s, t);
}

/// A new key has a place in an ascending sequence.
proof fn lemma_place<K: Key>(s: Seq<K::V>, x: K::V) -> (t: Seq<K::V>)
    requires
        ascending::<K>(s),
        !s.contains(x),
    ensures
        ascending::<K>(t),
        forall|k: K::V| #[trigger] t.contains(k) <==> s.contains(k) || k == x,
    decreases s.len(),
{
    if s.len() == 0 || before::<K>(s.last(), x) {
        let t = s.push(x);
        assert forall|i: int, j: int| #![trigger t[i], t[j]] 0 <= i < j < t.len() implies before::<
            K,
        >(t[i], t[j]) by {
            if j == s.len() && i < s.len() - 1 {
                assert(before::<K>(s[i], s[s.len() - 1]));
                lemma_lex_transitive(K::code(s[i]), K::code(s.last()), K::code(x));
            }
        }
        assert forall|k: K::V| #[trigger] t.contains(k) <==> s.contains(k) || k == x by {
            if s.contains(k) {
                let i = choose|i: int| 0 <= i < s.len() && s[i] == k;
                assert(t[i] == k);
            }
            if k == x {
                assert(t[s.len() as int] == k);
            }
        }
        t
    } else {
        let last = s.last();
        let front = s.drop_last();
        assert(s[s.len() - 1] == last);
        assert(s.contains(last));
        if K::code(last) == K::code(x) {
            K::code_injective(last, x);
        }
        lemma_lex_total(K::code(last), K::code(x));
        assert forall|k: K::V| front.contains(k) implies s.contains(k) by {
            let i = choose|i: int| 0 <= i < front.len() && front[i] == k;
            assert(s[i] == k);
        }
        let t0 = lemma_place::<K>(front, x);
        let t = t0.push(last);
        assert forall|i: int, j: int| #![trigger t[i], t[j]] 0 <= i < j < t.len() implies before::<
            K,
        >(t[i], t[j]) by {
            if j == t0.len() {
                assert(t0.contains(t0[i]));
                if t0[i] != x {
                    let p = choose|p: int| 0 <= p < front.len() && front[p] == t0[i];
                    assert(before::<K>(s[p], s[s.len() - 1]));
                }
            }
        }
        assert forall|k: K::V| #[trigger] t.contains(k) <==> s.contains(k) || k == x by {
            if s.contains(k) {
                let i = choose|i: int| 0 <= i < s.len() && s[i] == k;
                if i < s.len() - 1 {
                    assert(front[i] == k);
                    assert(front.contains(k));
                    assert(t0.contains(k));
                }
            }
            if t0.contains(k) {
                let i = choose|i: int| 0 <= i < t0.len() && t0[i] == k;
                assert(t[i] == k);
            }
            if k == last {
                assert(t[t0.len() as int] == k);
            }
            if t.contains(k) && k != last {
                let i = choose|i: int| 0 <= i < t.len() && t[i] == k;
                assert(t0[i] == k);
                assert(t0.contains(k));
            }
            if k == x {
                assert(t0.contains(k));
            }
        }
        t
    }
}

/// A sequence can hold the keys of any finite set in ascending order.
proof fn lemma_ordered<K: Key>(d: Set<K::V>) -> (s: Seq<K::V>)
    requires
        d.finite(),
    ensures
        ascending::<K>(s),
        lists(s, d),
    decreases d.len(),
{
    if d.len() == 0 {
        assert(d =~= Set::empty());
        Seq::empty()
    } else {
        let x = d.choose();
        let s = lemma_ordered::<K>(d.remove(x));
        assert(!d.remove(x).contains(x));
        let t = lemma_place::<K>(s, x);
        assert forall|k: K::V|
            #![trigger d.contains(k)]
            #![trigger t.contains(k)]
            d.contains(k) <==> t.contains(k) by {
            assert(d.remove(x).contains(k) <==> s.contains(k));
        }
        t
    }
}

/// The keys of a finite set can be listed in ascending order.
pub proof fn lemma_in_order_finite<K: Key>(d: Set<K::V>)
    requires
        d.finite(),
    ensures
        ascending::<K>(in_order::<K>(d)),
        lists(in_order::<K>(d), d),
{
    let s = lemma_ordered::<K>(d);
    lemma_in_order::<K>(s, d);
}

} // verus!
