//! Building a text from values: the text form of a value is appended, with
//! nothing put in between.

use crate::input_string::InputString;
use std::fmt::Display;
use std::ops::Add;
use vstd::prelude::*;
use vstd::std_specs::ops::AddSpecImpl;
use vstd::string::to_string_from_display_ensures;

verus! {

/// Whether `text` is the text form of `value`: what `to_string` gives for
/// it.
pub open spec fn text_form<D: Display>(value: &D, text: Seq<char>) -> bool {
    exists|s: String| #[trigger] to_string_from_display_ensures::<D>(value, s) && s@ == text
}

/// Whether `parts` holds a text form of each of `values`, in their order.
pub open spec fn text_forms<D: Display>(values: Seq<D>, parts: Seq<Seq<char>>) -> bool {
    parts.len() == values.len() && forall|i: int|
        0 <= i < values.len() ==> text_form(&values[i], #[trigger] parts[i])
}

/// The texts of `parts`, one after the other, with nothing in between.
pub open spec fn joined(parts: Seq<Seq<char>>) -> Seq<char>
    decreases parts.len(),
{
    if parts.len() == 0 {
        Seq::empty()
    } else {
        joined(parts.drop_last()) + parts.last()
    }
}

impl InputString {
    /// The text with `tail` after it.
    pub fn append(self, tail: &str) -> (r: InputString)
        ensures
            r@ == self@ + tail@,
    {
        let mut text: String = self.into_string();
        text.append(tail);
        InputString::from(text)
    }

    /// The text with the text form of `value` after it.
    pub fn append_value<D: Display>(self, value: D) -> (r: InputString)
        ensures
            exists|text: Seq<char>| #[trigger] text_form(&value, text) && r@ == self@ + text,
    {
        let tail: String = value.to_string();
        assert(text_form(&value, tail@));
        self.append(tail.as_str())
    }

    /// The text forms of `values`, one after the other.
    pub fn concat<D: Display>(values: &[D]) -> (r: InputString)
        ensures
            exists|parts: Seq<Seq<char>>| #[trigger] text_forms(values@, parts) && r@ == joined(parts),
    {
        let mut out = InputString::new();
        let ghost mut parts: Seq<Seq<char>> = Seq::empty();
        let mut i: usize = 0;
        while i < values.len()
            invariant
                0 <= i <= values@.len(),
                text_forms(values@.take(i as int), parts),
                out@ == joined(parts),
            decreases values@.len() - i,
        {
            let tail: String = values[i].to_string();
            out = out.append(tail.as_str());
            proof {
                assert(text_form(&values@[i as int], tail@));
                assert(parts.push(tail@).drop_last() =~= parts);
                parts = parts.push(tail@);
            }
            i += 1;
        }
        assert(values@.take(i as int) =~= values@);
        out
    }
}

impl<D: Display> Add<D> for InputString {
    type Output = InputString;

    /// The text with the text form of `rhs` after it.
    fn add(self, rhs: D) -> (r: InputString)
        ensures
            exists|text: Seq<char>| #[trigger] text_form(&rhs, text) && r@ == self@ + text,
    {
        self.append_value(rhs)
    }
}

impl<D: Display> AddSpecImpl<D> for InputString {
    open spec fn obeys_add_spec() -> bool {
        false
    }

    open spec fn add_req(self, rhs: D) -> bool {
        true
    }

    closed spec fn add_spec(self, rhs: D) -> InputString {
        arbitrary()
    }
}

impl<D: Display> std::ops::AddAssign<D> for InputString {
    /// Puts the text form of `rhs` after the text.
    fn add_assign(&mut self, rhs: D)
        ensures
            exists|text: Seq<char>| #[trigger] text_form(&rhs, text) && final(self)@ == old(self)@ + text,
    {
        let tail: String = rhs.to_string();
        assert(text_form(&rhs, tail@));
        self.push_text(tail.as_str());
    }
}

} // verus!
