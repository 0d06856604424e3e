//! Equality of texts: an `InputString` equals another, a `String` or a
//! `&str` exactly when their characters are the same.

use crate::input_string::InputString;
use vstd::prelude::*;
use vstd::std_specs::cmp::PartialEqSpecImpl;
use vstd::utf8::{encode_utf8, encode_utf8_decode_utf8};

verus! {

/// Whether two string slices hold the same characters. They do exactly
/// when their encodings are the same bytes.
pub fn same_text(a: &str, b: &str) -> (r: bool)
    ensures
        r == (a@ == b@),
{
    let x: &[u8] = a.as_bytes();
    let y: &[u8] = b.as_bytes();
    proof {
        encode_utf8_decode_utf8(a@);
        encode_utf8_decode_utf8(b@);
    }
    if x.len() != y.len() {
        return false;
    }
    let mut i: usize = 0;
    while i < x.len()
        invariant
            0 <= i <= x@.len(),
            x@.len() == y@.len(),
            x@ == encode_utf8(a@),
            y@ == encode_utf8(b@),
            forall|j: int| 0 <= j < i ==> x@[j] == y@[j],
        decreases x@.len() - i,
    {
        if x[i] != y[i] {
            return false;
        }
        i += 1;
    }
    assert(x@ =~= y@);
    true
}

impl PartialEq for InputString {
    fn eq(&self, other: &InputString) -> (r: bool) {
        same_text(self.as_str(), other.as_str())
    }
}

impl PartialEqSpecImpl for InputString {
    open spec fn obeys_eq_spec() -> bool {
        true
    }

    open spec fn eq_spec(&self, other: &InputString) -> bool {
        self@ == other@
    }
}

impl Eq for InputString {

}

impl<'a> PartialEq<&'a str> for InputString {
    fn eq(&self, other: &&'a str) -> (r: bool) {
        same_text(self.as_str(), *other)
    }
}

impl<'a> PartialEqSpecImpl<&'a str> for InputString {
    open spec fn obeys_eq_spec() -> bool {
        true
    }

    open spec fn eq_spec(&self, other: &&'a str) -> bool {
        self@ == other@
    }
}

impl<'a> PartialEq<InputString> for &'a str {
    fn eq(&self, other: &InputString) -> (r: bool) {
        same_text(*self, other.as_str())
    }
}

impl<'a> PartialEqSpecImpl<InputString> for &'a str {
    open spec fn obeys_eq_spec() -> bool {
        true
    }

    open spec fn eq_spec(&self, other: &InputString) -> bool {
        self@ == other@
    }
}

impl PartialEq<String> for InputString {
    fn eq(&self, other: &String) -> (r: bool) {
        same_text(self.as_str(), other.as_str())
    }
}

impl PartialEqSpecImpl<String> for InputString {
    open spec fn obeys_eq_spec() -> bool {
        true
    }

    open spec fn eq_spec(&self, other: &String) -> bool {
        self@ == other@
    }
}

impl PartialEq<InputString> for String {
    fn eq(&self, other: &InputString) -> (r: bool) {
        same_text(self.as_str(), other.as_str())
    }
}

impl PartialEqSpecImpl<InputString> for String {
    open spec fn obeys_eq_spec() -> bool {
        true
    }

    open spec fn eq_spec(&self, other: &InputString) -> bool {
        self@ == other@
    }
}

} // verus!
