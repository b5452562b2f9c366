//! Text and byte string helpers.

use vstd::prelude::*;
use vstd::slice::slice_to_vec;
use vstd::string::{StrSliceExecFns, StringExecFns};
use vstd::utf8::{decode_utf8, encode_utf8, valid_utf8};

use crate::order::{byte_code, lemma_byte_code_injective, order_of_bytes, Order};

verus! {

/// `String::push` appends one character to the text.
pub assume_specification[ String::push ](s: &mut String, c: char)
    ensures
        final(s)@ == old(s)@.push(c),
;

/// `std::str::from_utf8` gives the text of valid UTF-8, and an error for any other bytes.
#[verifier::external_body]
fn str_from_utf8(bytes: &[u8]) -> (r: Option<&str>)
    ensures
        match r {
            Some(s) => valid_utf8(bytes@) && s@ == decode_utf8(bytes@),
            None => !valid_utf8(bytes@),
        },
{
    std::str::from_utf8(bytes).ok()
}

/// The text that the bytes encode, if they are valid UTF-8.
pub open spec fn text_of(bytes: Seq<u8>) -> Option<Seq<char>> {
    if valid_utf8(bytes) {
        Some(decode_utf8(bytes))
    } else {
        None
    }
}

/// The view of an optional text.
pub open spec fn opt_text(s: Option<String>) -> Option<Seq<char>> {
    match s {
        Some(s) => Some(s@),
        None => None,
    }
}

/// Decodes UTF-8 bytes.
pub fn decode(bytes: &[u8]) -> (r: Option<String>)
    ensures
        opt_text(r) == text_of(bytes@),
{
    match str_from_utf8(bytes) {
        Some(s) => Some(s.to_owned()),
        None => None,
    }
}

/// Encodes text as UTF-8 bytes.
pub fn encode(s: &str) -> (r: Vec<u8>)
    ensures
        r@ == encode_utf8(s@),
{
    slice_to_vec(s.as_bytes())
}

/// Whether two byte strings are the same.
pub fn same_bytes(a: &[u8], b: &[u8]) -> (r: bool)
    ensures
        r == (a@ == b@),
{
    let o = order_of_bytes(a, b);
    proof {
        if byte_code(a@) == byte_code(b@) {
            lemma_byte_code_injective(a@, b@);
        }
    }
    match o {
        Order::Same => true,
        _ => false,
    }
}

/// Clones an optional text.
pub fn clone_text(s: &Option<String>) -> (r: Option<String>)
    ensures
        opt_text(r) == opt_text(*s),
{
    match s {
        Some(t) => Some(t.clone()),
        None => None,
    }
}

/// Copies a byte string.
pub fn copy_bytes(b: &Vec<u8>) -> (r: Vec<u8>)
    ensures
        r@ == b@,
{
    slice_to_vec(b.as_slice())
}

/// Appends bytes to a byte string.
pub fn append_bytes(a: &mut Vec<u8>, b: &[u8])
    ensures
        final(a)@ == old(a)@ + b@,
{
    let ghost start = a@;
    let mut i: usize = 0;
    while i < b.len()
        invariant
            i <= b@.len(),
            a@ == start + b@.take(i as int),
        decreases b@.len() - i,
    {
        a.push(b[i]);
        assert(start + b@.take(i + 1) =~= (start + b@.take(i as int)).push(b@[i as int]));
        i = i + 1;
    }
    assert(b@.take(i as int) =~= b@);
}

/// The decimal digits of a number, in ASCII.
pub open spec fn digits(n: nat) -> Seq<u8>
    decreases n,
{
    if n < 10 {
        seq![(48 + n) as u8]
    } else {
        digits(n / 10).push((48 + n % 10) as u8)
    }
}

/// Writes a number in decimal.
pub fn decimal(n: usize) -> (r: Vec<u8>)
    ensures
        r@ == digits(n as nat),
    decreases n,
{
    if n < 10 {
        let mut r: Vec<u8> = Vec::new();
        r.push((48 + n) as u8);
        assert(r@ =~= digits(n as nat));
        r
    } else {
        let mut r = decimal(n / 10);
        r.push((48 + n % 10) as u8);
        r
    }
}

/// Every character of a decimal number is a digit.
pub proof fn lemma_digits_range(n: nat)
    ensures
        digits(n).len() > 0,
        forall|i: int| 0 <= i < digits(n).len() ==> 48 <= #[trigger] digits(n)[i] <= 57,
    decreases n,
{
    if n >= 10 {
        lemma_digits_range(n / 10);
    }
}

/// Different numbers are written differently.
pub proof fn lemma_digits_injective(a: nat, b: nat)
    requires
        digits(a) == digits(b),
    ensures
        a == b,
    decreases a,
{
    lemma_digits_range(a / 10);
    lemma_digits_range(b / 10);
    assert(digits(a).last() == digits(b).last());
    if a >= 10 && b >= 10 {
        assert(digits(a).drop_last() =~= digits(a / 10));
        assert(digits(b).drop_last() =~= digits(b / 10));
        lemma_digits_injective(a / 10, b / 10);
        assert(digits(a).last() == (48 + a % 10) as u8);
        assert(digits(b).last() == (48 + b % 10) as u8);
        assert(a % 10 == b % 10);
    } else if a >= 10 {
        assert(digits(a).len() == digits(a / 10).len() + 1);
        assert(digits(b).len() == 1);
    } else if b >= 10 {
        assert(digits(b).len() == digits(b / 10).len() + 1);
        assert(digits(a).len() == 1);
    } else {
        assert(digits(a)[0] == (48 + a) as u8);
        assert(digits(b)[0] == (48 + b) as u8);
    }
}

/// Whether a text ends with another one.
pub open spec fn ends_with(s: Seq<char>, t: Seq<char>) -> bool {
    t.len() <= s.len() && s.skip(s.len() - t.len()) == t
}

/// The text without the suffix, where it has that suffix.
pub open spec fn without_suffix(s: Seq<char>, t: Seq<char>) -> Seq<char> {
    if ends_with(s, t) {
        s.take(s.len() - t.len())
    } else {
        s
    }
}

/// Removes a suffix, where the text has it.
pub fn trim_suffix(s: &str, t: &str) -> (r: String)
    ensures
        r@ == without_suffix(s@, t@),
{
    let n = s.unicode_len();
    let m = t.unicode_len();
    if m > n {
        return s.to_owned();
    }
    let tail = s.substring_char(n - m, n);
    assert(tail@ =~= s@.skip(n - m));
    if same_text(tail, t) {
        let head = s.substring_char(0, n - m);
        assert(head@ =~= s@.take(n - m));
        head.to_owned()
    } else {
        s.to_owned()
    }
}

/// Whether two texts are the same.
pub fn same_text(a: &str, b: &str) -> (r: bool)
    ensures
        r == (a@ == b@),
{
    let r = same_bytes(a.as_bytes(), b.as_bytes());
    proof {
        vstd::utf8::encode_utf8_decode_utf8(a@);
        vstd::utf8::encode_utf8_decode_utf8(b@);
    }
    r
}

/// Joins two texts.
pub fn join(a: &str, b: &str) -> (r: String)
    ensures
        r@ == a@ + b@,
{
    let mut r = a.to_owned();
    r.append(b);
    r
}

/// Whether a byte is an ASCII control character.
pub open spec fn is_control(b: u8) -> bool {
    b < 32 || b == 127
}

/// The upper case hexadecimal digit of a number below sixteen.
pub open spec fn hex_digit(n: int) -> char {
    if n < 10 {
        (48 + n) as char
    } else {
        (55 + n) as char
    }
}

/// How one byte is displayed: control characters as an escape, any other byte as the character
/// with that number.
pub open spec fn shown_byte(b: u8) -> Seq<char> {
    if is_control(b) {
        seq!['\\', 'x', hex_digit(b as int / 16), hex_digit(b as int % 16)]
    } else {
        seq![b as char]
    }
}

/// How bytes are displayed. That bytes from 128 on are displayed one by one, and not as the text
/// that they may encode, is an assumption about how namespaces are shown.
pub open spec fn shown(b: Seq<u8>) -> Seq<char>
    decreases b.len(),
{
    if b.len() == 0 {
        Seq::empty()
    } else {
        shown(b.drop_last()) + shown_byte(b.last())
    }
}

/// The hexadecimal digit of a number below 16.
fn hex(n: u8) -> (c: char)
    requires
        n < 16,
    ensures
        c == hex_digit(n as int),
{
    if n < 10 {
        (48 + n) as char
    } else {
        (55 + n) as char
    }
}

/// Displays bytes.
pub fn show(b: &[u8]) -> (r: String)
    ensures
        r@ == shown(b@),
{
    let mut r = String::new();
    let mut i: usize = 0;
    assert(b@.take(0) =~= Seq::<u8>::empty());
    while i < b.len()
        invariant
            i <= b@.len(),
            r@ == shown(b@.take(i as int)),
        decreases b@.len() - i,
    {
        let x = b[i];
        let ghost start = r@;
        assert(b@.take(i + 1).drop_last() =~= b@.take(i as int));
        assert(b@.take(i + 1).last() == x);
        if x < 32 || x == 127 {
            r.push('\\');
            r.push('x');
            r.push(hex(x / 16));
            r.push(hex(x % 16));
        } else {
            r.push(x as char);
        }
        assert(r@ =~= start + shown_byte(x));
        i = i + 1;
    }
    assert(b@.take(i as int) =~= b@);
    r
}

/// Bytes in the printable ASCII range are displayed as they are.
pub proof fn lemma_shown_ascii(s: Seq<char>)
    requires
        forall|i: int| 0 <= i < s.len() ==> 32 <= (#[trigger] s[i]) as int && (s[i] as int) < 127,
    ensures
        shown(encode_utf8(s)) == s,
{
    vstd::utf8::is_ascii_chars_encode_utf8(s);
    let b = encode_utf8(s);
    assert(b.len() == s.len());
    assert forall|i: int| 0 <= i < s.len() implies #[trigger] b[i] as char == s[i] && !is_control(
        b[i],
    ) by {
        assert(b[i] == s[i] as u8);
    }
    lemma_shown_plain(b, s);
}

/// Printable text is shown as it is.
proof fn lemma_shown_plain(b: Seq<u8>, s: Seq<char>)
    requires
        b.len() == s.len(),
        forall|i: int| 0 <= i < s.len() ==> #[trigger] b[i] as char == s[i] && !is_control(b[i]),
    ensures
        shown(b) == s,
    decreases b.len(),
{
    if b.len() > 0 {
        lemma_shown_plain(b.drop_last(), s.drop_last());
        assert(b[b.len() - 1] as char == s[s.len() - 1]);
        assert(shown(b) =~= s);
    } else {
        assert(shown(b) =~= s);
    }
}

} // verus!
