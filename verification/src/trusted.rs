//! The calls into std that are taken on trust: Verus believes the contract
//! of each and does not look at its body.

use crate::input_string::InputString;
use crate::text::white_space;
use vstd::prelude::*;
use vstd::utf8::{decode_utf8, valid_utf8};

verus! {

/// std's error for bytes that are not UTF-8.
#[verifier::external_type_specification]
#[verifier::external_body]
pub struct ExFromUtf8Error(std::string::FromUtf8Error);

/// `String::from_utf8` of std: where the bytes are valid UTF-8 they become
/// a `String` that holds the characters which they encode; where they are
/// not, the result is an error.
#[verifier::external_body]
pub(crate) fn string_from_utf8(bytes: Vec<u8>) -> (r: Result<String, std::string::FromUtf8Error>)
    ensures
        r is Ok <==> valid_utf8(bytes@),
        r is Ok ==> r->Ok_0@ == decode_utf8(bytes@),
{
    String::from_utf8(bytes)
}

/// `<[T; M]>::try_from` of std, on a vector: where the vector has `M`
/// elements the array holds them, in their order; where it has not, the
/// vector comes back as the error.
#[verifier::external_body]
pub(crate) fn array_from_vec<const M: usize>(fields: Vec<InputString>) -> (r: Result<
    [InputString; M],
    Vec<InputString>,
>)
    ensures
        r is Ok <==> fields@.len() == M,
        r is Ok ==> r->Ok_0@ == fields@,
        r is Err ==> r->Err_0@ == fields@,
{
    <[InputString; M]>::try_from(fields)
}

/// `char::is_whitespace` of std: whether the character has Unicode's
/// property White_Space, which is what `white_space` lists.
#[verifier::external_body]
pub(crate) fn is_white_space(c: char) -> (r: bool)
    ensures
        r == white_space(c),
{
    c.is_whitespace()
}

} // verus!
