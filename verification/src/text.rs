//! Octets and text: how the UTF-8 octets of strings behave where they are
//! joined and cut, and the string operations that the codec takes from the
//! standard library as they are documented there.

use vstd::prelude::*;
use vstd::string::*;
use vstd::utf8::*;

verus! {

/// The octet of the label separator, `.`.
pub const DOT: u8 = 0x2E;

/// The position of the first separator in `bytes`, or the length of `bytes`
/// if there is none.
pub fn first_dot(bytes: &[u8]) -> (at: usize)
    ensures
        at <= bytes@.len(),
        !bytes@.subrange(0, at as int).contains(DOT),
        at < bytes@.len() ==> bytes@[at as int] == DOT,
        at == bytes@.len() <==> !bytes@.contains(DOT),
{
    let mut i: usize = 0;
    while i < bytes.len() && bytes[i] != DOT
        invariant
            i <= bytes@.len(),
            forall|k: int| 0 <= k < i ==> bytes@[k] != DOT,
        decreases bytes@.len() - i,
    {
        i += 1;
    }
    proof {
        let head = bytes@.subrange(0, i as int);
        assert forall|k: int| 0 <= k < head.len() implies head[k] != DOT by {
            assert(head[k] == bytes@[k]);
        }
    }
    i
}

/// The UTF-8 octets of a concatenation are the concatenation of the octets.
pub proof fn lemma_encode_utf8_concat(a: Seq<char>, b: Seq<char>)
    ensures
        encode_utf8(a + b) == encode_utf8(a) + encode_utf8(b),
    decreases a.len(),
{
    if a.len() == 0 {
        assert(a + b =~= b);
        assert(encode_utf8(a) + encode_utf8(b) =~= encode_utf8(b));
    } else {
        assert((a + b).drop_first() =~= a.drop_first() + b);
        lemma_encode_utf8_concat(a.drop_first(), b);
        assert((a + b)[0] == a[0]);
        assert(encode_utf8(a + b) =~= encode_utf8(a) + encode_utf8(b));
    }
}

/// The text `"."` is the single octet [`DOT`].
pub proof fn lemma_dot_text()
    ensures
        "."@ == seq!['.'],
        encode_utf8("."@) == seq![DOT],
{
    reveal_strlit(".");
    let chars = "."@;
    assert(chars =~= seq!['.']);
    assert(is_ascii_chars(chars));
    is_ascii_chars_encode_utf8(chars);
    assert(encode_utf8(chars) =~= seq![DOT]);
}

/// Among the UTF-8 octets of a character, the separator's octet occurs only
/// as the separator itself.
proof fn lemma_dot_in_scalar(c: char)
    ensures
        encode_scalar(c as u32).contains(DOT) <==> c == '.',
{
    let scalar: u32 = c as u32;
    char_is_scalar(c);
    let octets = encode_scalar(scalar);
    assert(has_width_1_encoding(scalar) ==> (leading_byte_width_1(scalar) == DOT <==> scalar
        == 0x2E)) by (bit_vector);
    assert(leading_byte_width_2(scalar) >= 0x80 && leading_byte_width_3(scalar) >= 0x80
        && leading_byte_width_4(scalar) >= 0x80 && last_continuation_byte(scalar) >= 0x80
        && second_last_continuation_byte(scalar) >= 0x80 && third_last_continuation_byte(scalar)
        >= 0x80) by (bit_vector);
    if has_width_1_encoding(scalar) {
        assert(octets[0] == leading_byte_width_1(scalar));
        if c == '.' {
            assert(octets[0] == DOT);
        }
    }
    if octets.contains(DOT) {
        let i = choose|i: int| 0 <= i < octets.len() && octets[i] == DOT;
        assert(octets[i] == DOT);
        assert(has_width_1_encoding(scalar));
    }
}

/// A text holds the separator's octet where it holds the separator: no
/// other character has that octet among its own.
pub proof fn lemma_dot_in_text(chars: Seq<char>)
    ensures
        encode_utf8(chars).contains(DOT) <==> chars.contains('.'),
    decreases chars.len(),
{
    if chars.len() > 0 {
        let head = encode_scalar(chars[0] as u32);
        let tail = encode_utf8(chars.drop_first());
        lemma_dot_in_scalar(chars[0]);
        lemma_dot_in_text(chars.drop_first());
        if chars.contains('.') {
            let i = choose|i: int| 0 <= i < chars.len() && chars[i] == '.';
            if i == 0 {
                let j = choose|j: int| 0 <= j < head.len() && head[j] == DOT;
                assert((head + tail)[j] == DOT);
            } else {
                assert(chars.drop_first()[i - 1] == '.');
                let j = choose|j: int| 0 <= j < tail.len() && tail[j] == DOT;
                assert((head + tail)[head.len() + j] == DOT);
            }
        }
        if (head + tail).contains(DOT) {
            let j = choose|j: int| 0 <= j < (head + tail).len() && (head + tail)[j] == DOT;
            if j < head.len() {
                assert(head[j] == DOT);
                assert(chars[0] == '.');
            } else {
                assert(tail[j - head.len()] == DOT);
                let i = choose|i: int|
                    0 <= i < chars.drop_first().len() && chars.drop_first()[i] == '.';
                assert(chars[i + 1] == '.');
            }
        }
    }
}

/// An ASCII octet of UTF-8 text starts a character.
pub proof fn lemma_char_boundary_at_ascii(bytes: Seq<u8>, index: int)
    requires
        valid_utf8(bytes),
        0 <= index < bytes.len(),
        bytes[index] < 0x80,
    ensures
        is_char_boundary(bytes, index),
{
    is_char_boundary_iff_not_is_continuation_byte(bytes, index);
}

/// Behind a leading ASCII octet of UTF-8 text, a character starts or the text
/// ends.
pub proof fn lemma_char_boundary_behind_ascii(bytes: Seq<u8>)
    requires
        valid_utf8(bytes),
        bytes.len() >= 1,
        bytes[0] < 0x80,
    ensures
        is_char_boundary(bytes, 1),
{
    reveal_with_fuel(is_char_boundary, 2);
    assert(is_leading_byte_width_1(bytes[0]));
    assert(length_of_first_scalar(bytes) == 1);
    assert(valid_utf8(pop_first_scalar(bytes)));
}

/// The error of `core::str::from_utf8`, which this library only passes on.
#[verifier::external_type_specification]
#[verifier::external_body]
pub struct ExUtf8Error(core::str::Utf8Error);

/// `core::str::from_utf8` accepts exactly the octet sequences that are valid
/// UTF-8, and hands back the same octets as a string slice.
pub assume_specification[ core::str::from_utf8 ](v: &[u8]) -> (r: Result<
    &str,
    core::str::Utf8Error,
>)
    ensures
        r is Ok <==> valid_utf8(v@),
        r matches Ok(s) ==> s.spec_bytes() == v@,
;

/// The lower-cased form of a text, as `str::to_lowercase` computes it from
/// the Unicode property `Lowercase`.
pub uninterp spec fn lowercase(text: Seq<char>) -> Seq<char>;

/// `str::to_lowercase` returns the lower-cased form of its argument, which
/// depends on the argument's text alone.
pub assume_specification[ str::to_lowercase ](s: &str) -> (r: String)
    ensures
        r@ == lowercase(s@),
;

/// `String`'s `Hash::hash` feeds the string to the hasher. Nothing is stated
/// of the hasher's state.
pub assume_specification<H>[ <String as core::hash::Hash>::hash ](s: &String, state: &mut H) where
    H: core::hash::Hasher,
;

} // verus!
