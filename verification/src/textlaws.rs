//! What numbers, names and bytes look like as text, and how they are ordered.

use vstd::prelude::*;

use crate::models::{
    colon_at, local_part, prefix_part, Label, Location, MaybeNamespace, NamespaceId,
    NamespacePrefix, SchemaId, TempSchemaId,
};
use crate::order::{before, byte_code, cons, lex_before, text_code};
use crate::text::{digits, shown, text_of, without_suffix};

verus! {

/// The number that decimal digits stand for.
pub open spec fn number_of(text: Seq<u8>) -> int
    decreases text.len(),
{
    if text.len() == 0 {
        0
    } else {
        number_of(text.drop_last()) * 10 + (text.last() - 48)
    }
}

/// A number is written in decimal digits that stand for it, without zeros in front.
pub proof fn law_numbers_are_written_in_decimal(n: nat)
    ensures
        digits(n).len() >= 1,
        forall|i: int| 0 <= i < digits(n).len() ==> 48 <= #[trigger] digits(n)[i] <= 57,
        number_of(digits(n)) == n,
        digits(n).len() > 1 ==> digits(n)[0] != 48,
    decreases n,
{
    if n >= 10 {
        law_numbers_are_written_in_decimal(n / 10);
        assert(digits(n).drop_last() =~= digits(n / 10));
        if digits(n / 10)[0] == 48 {
            let front = digits(n / 10);
            assert(front.len() == 1);
            assert(front.drop_last() =~= Seq::empty());
            assert(number_of(front.drop_last()) == 0);
            assert(false);
        }
    } else {
        assert(digits(n).drop_last() =~= Seq::empty());
        assert(number_of(digits(n).drop_last()) == 0);
    }
}

/// A text that ends with a suffix is what stands in front of it; any other text stays as it is.
pub proof fn law_suffixes_are_taken_off(front: Seq<char>, suffix: Seq<char>, text: Seq<char>)
    ensures
        without_suffix(front + suffix, suffix) == front,
        (forall|f: Seq<char>| text != #[trigger] (f + suffix)) ==> without_suffix(text, suffix)
            == text,
{
    let whole = front + suffix;
    assert(whole.skip(whole.len() - suffix.len()) =~= suffix);
    assert(whole.take(whole.len() - suffix.len()) =~= front);
    if suffix.len() <= text.len() && text.skip(text.len() - suffix.len()) == suffix {
        assert(text =~= text.take(text.len() - suffix.len()) + suffix);
    }
}

/// A name is split at its first colon: what stands in front of it is the prefix, and everything
/// behind it is the local part. A name without a colon has no prefix.
pub proof fn law_names_are_split_at_the_first_colon(front: Seq<u8>, rest: Seq<u8>)
    requires
        !front.contains(58),
    ensures
        prefix_part(front.push(58) + rest) == Some(front),
        local_part(front.push(58) + rest) == rest,
        prefix_part(front) is None,
        local_part(front) == front,
{
    lemma_colon(front, seq![58u8] + rest);
    lemma_colon(front, Seq::empty());
    let whole = front.push(58) + rest;
    assert(whole =~= front + (seq![58u8] + rest));
    assert(whole.take(front.len() as int) =~= front);
    assert(whole.skip(front.len() as int + 1) =~= rest);
    assert(front + Seq::<u8>::empty() =~= front);
}

/// Where the first colon is.
proof fn lemma_colon(front: Seq<u8>, rest: Seq<u8>)
    requires
        !front.contains(58),
        rest.len() > 0 ==> rest[0] == 58,
    ensures
        colon_at(front + rest) == front.len(),
    decreases front.len(),
{
    let whole = front + rest;
    if front.len() == 0 {
        assert(whole =~= rest);
    } else {
        assert(front.contains(front[0]));
        assert(whole[0] == front[0]);
        assert(whole.drop_first() =~= front.drop_first() + rest);
        assert forall|i: int| 0 <= i < front.drop_first().len() implies
            #[trigger] front.drop_first()[i]
            != 58 by {
            assert(front.contains(front[i + 1]));
        }
        lemma_colon(front.drop_first(), rest);
    }
}

/// The value of a digit of a hexadecimal number, in upper case.
pub open spec fn hex_value(c: char) -> int {
    if '0' <= c <= '9' {
        c as int - '0' as int
    } else {
        c as int - 'A' as int + 10
    }
}

/// Bytes are shown one by one. A control character is shown as a backslash, an `x` and its two
/// digits in upper case hexadecimal; any other byte is shown as the character of that number.
pub proof fn law_bytes_are_shown_one_by_one(a: Seq<u8>, b: u8)
    ensures
        shown(Seq::empty()) == Seq::<char>::empty(),
        32 <= b < 127 || b > 127 ==> shown(a.push(b)) == shown(a).push(b as char),
        b < 32 || b == 127 ==> exists|x: char, y: char|
            #![trigger hex_value(x), hex_value(y)]
            {
                &&& '0' <= x <= '9' || 'A' <= x <= 'F'
                &&& '0' <= y <= '9' || 'A' <= y <= 'F'
                &&& hex_value(x) * 16 + hex_value(y) == b
                &&& shown(a.push(b)) == shown(a).push('\\').push('x').push(x).push(y)
            },
{
    let whole = a.push(b);
    assert(whole.drop_last() =~= a);
    if b < 32 || b == 127 {
        let x = crate::text::hex_digit(b as int / 16);
        let y = crate::text::hex_digit(b as int % 16);
        assert(hex_value(x) * 16 + hex_value(y) == b);
        assert(shown(whole) =~= shown(a).push('\\').push('x').push(x).push(y));
    } else {
        assert(shown(whole) =~= shown(a).push(b as char));
    }
}

/// Whether `a` comes before `b` byte by byte: it is shorter and `b` begins with it, or it has the
/// smaller byte where they first differ.
pub open spec fn bytes_before(a: Seq<u8>, b: Seq<u8>) -> bool {
    exists|k: int|
        {
            &&& 0 <= k <= a.len() && k < b.len()
            &&& #[trigger] a.take(k) == b.take(k)
            &&& k == a.len() || a[k] < b[k]
        }
}

/// The codes of bytes are ordered as the bytes are.
proof fn lemma_bytes_before(a: Seq<u8>, b: Seq<u8>)
    ensures
        lex_before(byte_code(a), byte_code(b)) <==> bytes_before(a, b),
    decreases a.len(),
{
    let x = byte_code(a);
    let y = byte_code(b);
    if b.len() == 0 {
    } else if a.len() == 0 {
        assert(a.take(0) =~= b.take(0));
    } else if a[0] != b[0] {
        if a[0] < b[0] {
            assert(a.take(0) =~= b.take(0));
        }
        if bytes_before(a, b) {
            let k = choose|k: int|
                {
                    &&& 0 <= k <= a.len() && k < b.len()
                    &&& #[trigger] a.take(k) == b.take(k)
                    &&& k == a.len() || a[k] < b[k]
                };
            if k > 0 {
                assert(a.take(k)[0] == b.take(k)[0]);
            }
        }
    } else {
        let a1 = a.drop_first();
        let b1 = b.drop_first();
        lemma_bytes_before(a1, b1);
        assert(x.drop_first() =~= byte_code(a1));
        assert(y.drop_first() =~= byte_code(b1));
        if bytes_before(a1, b1) {
            let k = choose|k: int|
                {
                    &&& 0 <= k <= a1.len() && k < b1.len()
                    &&& #[trigger] a1.take(k) == b1.take(k)
                    &&& k == a1.len() || a1[k] < b1[k]
                };
            assert(a.take(k + 1) =~= seq![a[0]] + a1.take(k));
            assert(b.take(k + 1) =~= seq![b[0]] + b1.take(k));
            assert(a.take(k + 1) == b.take(k + 1));
        }
        if bytes_before(a, b) {
            let k = choose|k: int|
                {
                    &&& 0 <= k <= a.len() && k < b.len()
                    &&& #[trigger] a.take(k) == b.take(k)
                    &&& k == a.len() || a[k] < b[k]
                };
            assert(k > 0);
            assert(a1.take(k - 1) =~= a.take(k).drop_first());
            assert(b1.take(k - 1) =~= b.take(k).drop_first());
        }
    }
}

/// Schemas and namespaces are ordered by their numbers, prefixes by their bytes, and locations by
/// the bytes of their text. The anonymous namespace comes before all others, which are ordered by
/// the bytes of their names.
pub proof fn law_keys_are_ordered(
    m: usize,
    n: usize,
    a: Seq<u8>,
    b: Seq<u8>,
    s: Seq<char>,
    t: Seq<char>,
)
    ensures
        before::<SchemaId>(SchemaId(m), SchemaId(n)) <==> m < n,
        before::<TempSchemaId>(TempSchemaId(m), TempSchemaId(n)) <==> m < n,
        before::<NamespaceId>(NamespaceId(m), NamespaceId(n)) <==> m < n,
        before::<NamespacePrefix>(a, b) <==> bytes_before(a, b),
        before::<MaybeNamespace>(None, Some(b)),
        !before::<MaybeNamespace>(Some(a), None),
        !before::<MaybeNamespace>(None, None),
        before::<MaybeNamespace>(Some(a), Some(b)) <==> bytes_before(a, b),
        before::<Location>(s, t) <==> bytes_before(
            vstd::utf8::encode_utf8(s),
            vstd::utf8::encode_utf8(t),
        ),
        before::<Label>(s, t) <==> bytes_before(
            vstd::utf8::encode_utf8(s),
            vstd::utf8::encode_utf8(t),
        ),
{
    lemma_bytes_before(a, b);
    lemma_bytes_before(vstd::utf8::encode_utf8(s), vstd::utf8::encode_utf8(t));
    assert(text_code(s) == byte_code(vstd::utf8::encode_utf8(s)));
    let none = Seq::<int>::empty();
    let x = cons(m as int, none);
    let y = cons(n as int, none);
    assert(x[0] == m && y[0] == n);
    assert(x.drop_first() =~= none && y.drop_first() =~= none);
    assert(!lex_before(none, none));
    let p = cons(0, byte_code(a));
    let q = cons(0, byte_code(b));
    assert(p[0] == 0 && q[0] == 0);
    assert(p.drop_first() =~= byte_code(a));
    assert(q.drop_first() =~= byte_code(b));
}

/// A text is read back from its bytes, and bytes that are a text are the bytes of that text.
pub proof fn law_texts_are_read_back(text: Seq<char>, bytes: Seq<u8>)
    ensures
        text_of(vstd::utf8::encode_utf8(text)) == Some(text),
        text_of(bytes) matches Some(t) ==> vstd::utf8::encode_utf8(t) == bytes,
{
    vstd::utf8::encode_utf8_valid_utf8(text);
    vstd::utf8::encode_utf8_decode_utf8(text);
    if vstd::utf8::valid_utf8(bytes) {
        vstd::utf8::decode_utf8_encode_utf8(bytes);
    }
}

} // verus!
