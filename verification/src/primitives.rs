//! Calls into std and into the `uuid` crate that Verus has no specification
//! for. Each item here is trusted: its contract is read off the called
//! function's documentation or source, not proved.
use vstd::prelude::*;

verus! {

/// `char::from_u32`: the character whose scalar value is `v`, or `None` when
/// `v` is a surrogate (`0xD800..=0xDFFF`) or above `0x10FFFF`, as std
/// documents.
#[verifier::external_body]
pub fn char_from_u32(v: u32) -> (r: Option<char>)
    ensures
        r is Some <==> (v < 0xD800 || (0xE000 <= v && v <= 0x10FFFF)),
        r matches Some(c) ==> c as int == v as int,
{
    char::from_u32(v)
}

/// Collects characters into a `String` (`FromIterator<char>` for `String`,
/// which std documents as concatenating the characters in order).
#[verifier::external_body]
pub fn string_from_chars(v: &[char]) -> (r: String)
    ensures
        r@ == v@,
{
    v.iter().collect()
}


pub open spec fn is_lower_hex_char(c: char) -> bool {
    ('0' <= c && c <= '9') || ('a' <= c && c <= 'f')
}

/// A version-4 UUID in hyphenated lowercase form: 36 characters, hyphens at
/// 8, 13, 18 and 23, lowercase hex digits elsewhere, the version digit `4`
/// at 14, and a variant digit from `8` to `b` at 19.
pub open spec fn is_hyphenated_v4_uuid(t: Seq<char>) -> bool {
    &&& t.len() == 36
    &&& forall|k: int|
        0 <= k < 36 ==> if k == 8 || k == 13 || k == 18 || k == 23 {
            #[trigger] t[k] == '-'
        } else {
            is_lower_hex_char(t[k])
        }
    &&& t[14] == '4'
    &&& (t[19] == '8' || t[19] == '9' || t[19] == 'a' || t[19] == 'b')
}

/// `uuid::Uuid::new_v4().hyphenated().to_string()`: a fresh random UUID.
/// The source (`new_v4` masking in the version and variant bits,
/// `Display` writing the hyphenated form in lowercase) shows the shape that
/// the contract states; which UUID comes out rests on chance and is not
/// stated, nor that two calls give different UUIDs.
#[verifier::external_body]
pub fn new_item_id() -> (r: String)
    ensures
        is_hyphenated_v4_uuid(r@),
{
    uuid::Uuid::new_v4().hyphenated().to_string()
}

} // verus!
