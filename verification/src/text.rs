//! Text as sequences of characters, and its length in UTF-8 bytes.

use vstd::prelude::*;
use vstd::string::*;
use vstd::utf8::*;

verus! {

/// `core::str::Utf8Error` is carried, never looked into.
#[verifier::external_type_specification]
#[verifier::external_body]
pub struct ExUtf8Error(core::str::Utf8Error);

/// `core::str::from_utf8` gives the string with the bytes of `bytes` where they
/// are valid UTF-8, and an error otherwise.
pub assume_specification[ core::str::from_utf8 ](bytes: &[u8]) -> (r: Result<
    &str,
    core::str::Utf8Error,
>)
    ensures
        match r {
            Ok(text) => valid_utf8(bytes@) && text.spec_bytes() == bytes@,
            Err(_) => !valid_utf8(bytes@),
        },
;

/// `String::push` appends one character.
pub assume_specification[ String::push ](s: &mut String, c: char)
    ensures
        final(s)@ == old(s)@.push(c),
;

/// The mathematical view of a string.
pub type Text = Seq<char>;

/// The number of bytes that `text` occupies in UTF-8.
pub open spec fn byte_width(text: Text) -> nat {
    encode_utf8(text).len()
}

/// The concatenation of the first `count` parts, in order.
pub open spec fn joined(parts: Seq<&str>, count: nat) -> Text
    decreases count,
{
    if count == 0 {
        Seq::empty()
    } else if count == 1 {
        parts[0]@
    } else {
        joined(parts, (count - 1) as nat) + parts[count - 1]@
    }
}

/// The texts of a sequence of owned strings.
pub open spec fn owned_texts(parts: Seq<String>) -> Seq<Text> {
    Seq::new(parts.len(), |i: int| parts[i]@)
}

/// The text of an optional string; empty where there is none.
pub open spec fn optional_text(text: Option<Text>) -> Text {
    match text {
        Some(text) => text,
        None => Seq::empty(),
    }
}

/// The text of an optional literal; empty where there is none.
pub open spec fn literal_text(text: Option<&'static str>) -> Text {
    match text {
        Some(text) => text@,
        None => Seq::empty(),
    }
}

/// The text of an owned optional string.
pub open spec fn owned_text(text: Option<String>) -> Option<Text> {
    match text {
        Some(text) => Some(text@),
        None => None,
    }
}

/// The characters that a sequence of ASCII bytes encodes.
pub open spec fn ascii(bytes: Seq<u8>) -> Text {
    Seq::new(bytes.len(), |i: int| bytes[i] as char)
}

/// A result with its text taken by its view.
pub open spec fn text_result<E>(r: Result<String, E>) -> Result<Text, E> {
    match r {
        Ok(text) => Ok(text@),
        Err(error) => Err(error),
    }
}

/// A result with its optional text taken by its view.
pub open spec fn optional_result<E>(r: Result<Option<String>, E>) -> Result<Option<Text>, E> {
    match r {
        Ok(text) => Ok(owned_text(text)),
        Err(error) => Err(error),
    }
}

/// The encoding of a concatenation is the concatenation of the encodings.
pub proof fn lemma_encode_concat(left: Text, right: Text)
    ensures
        encode_utf8(left + right) == encode_utf8(left) + encode_utf8(right),
    decreases left.len(),
{
    if left.len() == 0 {
        assert(left + right =~= right);
        assert(encode_utf8(left) + encode_utf8(right) =~= encode_utf8(right));
    } else {
        assert((left + right).drop_first() =~= left.drop_first() + right);
        lemma_encode_concat(left.drop_first(), right);
        assert(encode_utf8(left + right) =~= encode_utf8(left) + encode_utf8(right));
    }
}

/// Where one text ends and another begins, there is a character boundary.
pub proof fn lemma_boundary_between(left: Text, right: Text)
    ensures
        is_char_boundary(encode_utf8(left + right), byte_width(left) as int),
    decreases left.len(),
{
    encode_utf8_valid_utf8(left + right);
    if left.len() > 0 {
        let rest = left.drop_first();
        assert((left + right).drop_first() =~= rest + right);
        let bytes = encode_utf8(left + right);
        encode_utf8_first_scalar(left + right);
        lemma_encode_concat(left, right);
        lemma_boundary_between(rest, right);
        assert(pop_first_scalar(bytes) =~= encode_utf8(rest + right));
        assert(byte_width(left) == length_of_first_scalar(bytes) + byte_width(rest));
    }
}

/// Byte lengths add up under concatenation.
pub broadcast proof fn lemma_byte_width_concat(left: Text, right: Text)
    ensures
        #[trigger] byte_width(left + right) == byte_width(left) + byte_width(right),
{
    lemma_encode_concat(left, right);
}

/// ASCII bytes encode the characters with the same codes.
pub proof fn lemma_ascii_encoding(bytes: Seq<u8>)
    requires
        forall|i: int| 0 <= i < bytes.len() ==> bytes[i] < 128,
    ensures
        encode_utf8(ascii(bytes)) == bytes,
{
    let chars = ascii(bytes);
    assert(is_ascii_chars(chars)) by {
        assert forall|i: int| 0 <= i < chars.len() implies (chars[i] as nat) < 128 by {
            assert(chars[i] == bytes[i] as char);
        }
    }
    is_ascii_chars_encode_utf8(chars);
    assert(encode_utf8(chars) =~= bytes) by {
        assert forall|i: int| 0 <= i < bytes.len() implies encode_utf8(chars)[i] == bytes[i] by {
            assert(chars[i] as u8 == bytes[i]);
        }
    }
}

/// Texts with the same encoding are the same.
pub proof fn lemma_encoding_unique(left: Text, right: Text)
    requires
        encode_utf8(left) == encode_utf8(right),
    ensures
        left == right,
{
    encode_utf8_decode_utf8(left);
    encode_utf8_decode_utf8(right);
}

/// The string that ASCII bytes encode.
pub fn ascii_str(bytes: &[u8]) -> (r: Option<&str>)
    requires
        forall|i: int| 0 <= i < bytes@.len() ==> bytes@[i] < 128,
    ensures
        r matches Some(text) && text@ == ascii(bytes@),
{
    proof {
        lemma_ascii_encoding(bytes@);
        encode_utf8_valid_utf8(ascii(bytes@));
    }
    match core::str::from_utf8(bytes) {
        Ok(text) => {
            proof {
                lemma_encoding_unique(text@, ascii(bytes@));
            }
            Some(text)
        },
        Err(_) => None,
    }
}

/// Only the empty text has no width.
pub proof fn lemma_byte_width_empty(t: Text)
    ensures
        byte_width(t) == 0 <==> t.len() == 0,
{
    if t.len() > 0 {
        lemma_encode_concat(seq![t[0]], t.drop_first());
        assert(seq![t[0]] + t.drop_first() =~= t);
        assert(encode_utf8(seq![t[0]]).len() > 0) by {
            assert(seq![t[0]].drop_first() =~= Seq::empty());
        }
    }
}

/// The byte length of a string slice.
pub fn byte_len(text: &str) -> (len: usize)
    ensures
        len == byte_width(text@),
{
    text.as_bytes().len()
}

/// Reports whether `text` is empty.
pub fn is_blank(text: &str) -> (yes: bool)
    ensures
        yes == (text@.len() == 0),
{
    proof {
        lemma_byte_width_empty(text@);
    }
    byte_len(text) == 0
}

/// The borrowed text of an optional string; empty where there is none.
pub fn or_empty(text: &Option<String>) -> (r: &str)
    ensures
        r@ == optional_text(owned_text(*text)),
{
    match text {
        Some(text) => text.as_str(),
        None => {
            proof {
                reveal_strlit("");
                assert(""@ =~= Seq::<char>::empty());
            }
            ""
        },
    }
}

/// An optional literal; empty where there is none.
pub fn literal_or_empty(text: Option<&'static str>) -> (r: &'static str)
    ensures
        r@ == literal_text(text),
{
    match text {
        Some(text) => text,
        None => {
            proof {
                reveal_strlit("");
                assert(""@ =~= Seq::<char>::empty());
            }
            ""
        },
    }
}

/// Reports whether the first character of `text` is `c`.
pub fn starts_with_char(text: &str, c: char) -> (yes: bool)
    ensures
        yes == (text@.len() > 0 && text@[0] == c),
{
    text.unicode_len() > 0 && text.get_char(0) == c
}

/// Reports whether `text` starts with `prefix`.
pub fn starts_with(text: &str, prefix: &str) -> (yes: bool)
    ensures
        yes == prefix@.is_prefix_of(text@),
{
    let count = prefix.unicode_len();
    if count > text.unicode_len() {
        return false;
    }
    let mut index: usize = 0;
    while index < count
        invariant
            index <= count,
            count == prefix@.len(),
            count <= text@.len(),
            forall|i: int| 0 <= i < index ==> text@[i] == prefix@[i],
        decreases count - index,
    {
        if text.get_char(index) != prefix.get_char(index) {
            assert(text@.subrange(0, count as int)[index as int] != prefix@[index as int]);
            return false;
        }
        index += 1;
    }
    assert(text@.subrange(0, count as int) =~= prefix@);
    true
}

/// Reports whether the last character of `text` is `c`.
pub fn ends_with_char(text: &str, c: char) -> (yes: bool)
    ensures
        yes == (text@.len() > 0 && text@.last() == c),
{
    let count = text.unicode_len();
    count > 0 && text.get_char(count - 1) == c
}

/// Reports whether two strings hold the same text.
pub fn same_text(left: &str, right: &str) -> (yes: bool)
    ensures
        yes == (left@ == right@),
{
    let left_bytes = left.as_bytes();
    let right_bytes = right.as_bytes();
    proof {
        encode_utf8_decode_utf8(left@);
        encode_utf8_decode_utf8(right@);
    }
    if left_bytes.len() != right_bytes.len() {
        return false;
    }
    let mut index: usize = 0;
    while index < left_bytes.len()
        invariant
            index <= left_bytes.len(),
            left_bytes.len() == right_bytes.len(),
            left_bytes@ == encode_utf8(left@),
            right_bytes@ == encode_utf8(right@),
            forall|i: int| 0 <= i < index ==> left_bytes@[i] == right_bytes@[i],
        decreases left_bytes.len() - index,
    {
        if left_bytes[index] != right_bytes[index] {
            return false;
        }
        index += 1;
    }
    assert(left_bytes@ =~= right_bytes@);
    true
}

/// Copies a string without its first character.
pub fn without_first<'a>(text: &'a str) -> (rest: &'a str)
    requires
        text@.len() > 0,
    ensures
        rest@ == text@.drop_first(),
{
    let count = text.unicode_len();
    text.substring_char(1, count)
}

} // verus!
