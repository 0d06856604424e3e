//! Reading a typed value out of a text. A type that can be read says, as a
//! mathematical function, which value each text stands for; the integers
//! are read as decimal numbers.

use crate::equality::same_text;
use crate::input_string::InputString;
use crate::text::chars_of;
use vstd::prelude::*;

verus! {

/// A type whose values can be read from text.
pub trait FromText: Sized {
    /// The value that `text` stands for, where it stands for one.
    spec fn value_of(text: Seq<char>) -> Option<Self>;

    /// Reads a value from `text`.
    fn from_text(text: &str) -> (r: Option<Self>)
        ensures
            r == Self::value_of(text@),
    ;
}

/// Whether `c` is one of the ten decimal digits.
pub open spec fn is_digit(c: char) -> bool {
    '0' <= c <= '9'
}

/// Whether `s` holds decimal digits only.
pub open spec fn all_digits(s: Seq<char>) -> bool {
    forall|i: int| 0 <= i < s.len() ==> is_digit(#[trigger] s[i])
}

/// The number that the decimal digits of `s` write.
pub open spec fn digits_value(s: Seq<char>) -> nat
    decreases s.len(),
{
    if s.len() == 0 {
        0
    } else {
        (digits_value(s.drop_last()) * 10 + (s.last() as int - '0' as int)) as nat
    }
}

/// Whether `s` begins with the sign `sign`.
pub open spec fn has_sign(s: Seq<char>, sign: char) -> bool {
    s.len() > 0 && s[0] == sign
}

/// The integer that `s` writes in decimal: one sign at most, `+` or, where
/// `signed`, `-`; then one digit or more, and nothing else.
pub open spec fn decimal(s: Seq<char>, signed: bool) -> Option<int> {
    let negative = signed && has_sign(s, '-');
    let digits = if negative || has_sign(s, '+') {
        s.drop_first()
    } else {
        s
    };
    if digits.len() > 0 && all_digits(digits) {
        Some(
            if negative {
                -(digits_value(digits) as int)
            } else {
                digits_value(digits) as int
            },
        )
    } else {
        None
    }
}

/// The integer that `s` writes in decimal, where it lies between `min` and
/// `max`.
pub open spec fn decimal_within(s: Seq<char>, signed: bool, min: int, max: int) -> Option<int> {
    match decimal(s, signed) {
        Some(v) => if min <= v <= max {
            Some(v)
        } else {
            None
        },
        None => None,
    }
}

/// A number is no smaller than what its first digits write.
pub proof fn lemma_digits_value_grows(s: Seq<char>, k: int)
    requires
        0 <= k <= s.len(),
        all_digits(s),
    ensures
        digits_value(s.take(k)) <= digits_value(s),
    decreases s.len(),
{
    if k < s.len() {
        let shorter = s.drop_last();
        assert(shorter.take(k) =~= s.take(k));
        lemma_digits_value_grows(shorter, k);
        assert(is_digit(s[s.len() - 1]));
    } else {
        assert(s.take(k) =~= s);
    }
}

/// The number that the digits of `digits` write, where it is `limit` at
/// most.
fn read_digits(digits: &[char], limit: u64) -> (r: Option<u64>)
    ensures
        r == if digits@.len() > 0 && all_digits(digits@) && digits_value(digits@) <= limit {
            Some(digits_value(digits@) as u64)
        } else {
            None
        },
{
    let n: usize = digits.len();
    if n == 0 {
        return None;
    }
    let mut acc: u64 = 0;
    let mut i: usize = 0;
    while i < n
        invariant
            0 <= i <= n,
            n == digits@.len(),
            all_digits(digits@.take(i as int)),
            acc == digits_value(digits@.take(i as int)),
            acc <= limit,
        decreases n - i,
    {
        let c: char = digits[i];
        if c < '0' || c > '9' {
            assert(!is_digit(digits@[i as int]));
            return None;
        }
        let d: u64 = (c as u32 - '0' as u32) as u64;
        let ghost upto = digits@.take(i + 1);
        proof {
            assert(upto.drop_last() =~= digits@.take(i as int));
            assert(upto.last() == c);
            assert(digits_value(upto) == acc * 10 + d);
            assert forall|j: int| 0 <= j < upto.len() implies is_digit(#[trigger] upto[j]) by {
                if j < i {
                    assert(digits@.take(i as int)[j] == upto[j]);
                }
            }
        }
        if d > limit || acc > (limit - d) / 10 {
            proof {
                if all_digits(digits@) {
                    lemma_digits_value_grows(digits@, i + 1);
                }
            }
            return None;
        }
        acc = acc * 10 + d;
        i += 1;
    }
    assert(digits@.take(i as int) =~= digits@);
    Some(acc)
}

/// The integer that `text` writes in decimal, where it lies between `min`
/// and `max`.
fn read_integer(text: &str, signed: bool, min: i128, max: i128) -> (r: Option<i128>)
    requires
        -0xffff_ffff_ffff_ffff <= min <= 0 <= max <= 0xffff_ffff_ffff_ffff,
    ensures
        match r {
            Some(v) => decimal_within(text@, signed, min as int, max as int) == Some(v as int),
            None => decimal_within(text@, signed, min as int, max as int) is None,
        },
{
    let chars: Vec<char> = chars_of(text);
    let n: usize = chars.len();
    let negative: bool = signed && n > 0 && chars[0] == '-';
    let skip: usize = if negative || (n > 0 && chars[0] == '+') {
        1
    } else {
        0
    };
    let digits: &[char] = vstd::slice::slice_subrange(chars.as_slice(), skip, n);
    let limit: u64 = if negative {
        (-min) as u64
    } else {
        max as u64
    };
    proof {
        if skip == 1 {
            assert(digits@ =~= text@.drop_first());
        } else {
            assert(digits@ =~= text@);
        }
    }
    match read_digits(digits, limit) {
        Some(magnitude) => Some(
            if negative {
                -(magnitude as i128)
            } else {
                magnitude as i128
            },
        ),
        None => None,
    }
}

impl FromText for u8 {
    open spec fn value_of(text: Seq<char>) -> Option<u8> {
        match decimal_within(text, false, u8::MIN as int, u8::MAX as int) {
            Some(v) => Some(v as u8),
            None => None,
        }
    }

    fn from_text(text: &str) -> (r: Option<u8>) {
        match read_integer(text, false, u8::MIN as i128, u8::MAX as i128) {
            Some(v) => Some(v as u8),
            None => None,
        }
    }
}

impl FromText for u16 {
    open spec fn value_of(text: Seq<char>) -> Option<u16> {
        match decimal_within(text, false, u16::MIN as int, u16::MAX as int) {
            Some(v) => Some(v as u16),
            None => None,
        }
    }

    fn from_text(text: &str) -> (r: Option<u16>) {
        match read_integer(text, false, u16::MIN as i128, u16::MAX as i128) {
            Some(v) => Some(v as u16),
            None => None,
        }
    }
}

impl FromText for u32 {
    open spec fn value_of(text: Seq<char>) -> Option<u32> {
        match decimal_within(text, false, u32::MIN as int, u32::MAX as int) {
            Some(v) => Some(v as u32),
            None => None,
        }
    }

    fn from_text(text: &str) -> (r: Option<u32>) {
        match read_integer(text, false, u32::MIN as i128, u32::MAX as i128) {
            Some(v) => Some(v as u32),
            None => None,
        }
    }
}

impl FromText for u64 {
    open spec fn value_of(text: Seq<char>) -> Option<u64> {
        match decimal_within(text, false, u64::MIN as int, u64::MAX as int) {
            Some(v) => Some(v as u64),
            None => None,
        }
    }

    fn from_text(text: &str) -> (r: Option<u64>) {
        match read_integer(text, false, u64::MIN as i128, u64::MAX as i128) {
            Some(v) => Some(v as u64),
            None => None,
        }
    }
}

impl FromText for usize {
    open spec fn value_of(text: Seq<char>) -> Option<usize> {
        match decimal_within(text, false, usize::MIN as int, usize::MAX as int) {
            Some(v) => Some(v as usize),
            None => None,
        }
    }

    fn from_text(text: &str) -> (r: Option<usize>) {
        match read_integer(text, false, usize::MIN as i128, usize::MAX as i128) {
            Some(v) => Some(v as usize),
            None => None,
        }
    }
}

impl FromText for i8 {
    open spec fn value_of(text: Seq<char>) -> Option<i8> {
        match decimal_within(text, true, i8::MIN as int, i8::MAX as int) {
            Some(v) => Some(v as i8),
            None => None,
        }
    }

    fn from_text(text: &str) -> (r: Option<i8>) {
        match read_integer(text, true, i8::MIN as i128, i8::MAX as i128) {
            Some(v) => Some(v as i8),
            None => None,
        }
    }
}

impl FromText for i16 {
    open spec fn value_of(text: Seq<char>) -> Option<i16> {
        match decimal_within(text, true, i16::MIN as int, i16::MAX as int) {
            Some(v) => Some(v as i16),
            None => None,
        }
    }

    fn from_text(text: &str) -> (r: Option<i16>) {
        match read_integer(text, true, i16::MIN as i128, i16::MAX as i128) {
            Some(v) => Some(v as i16),
            None => None,
        }
    }
}

impl FromText for i32 {
    open spec fn value_of(text: Seq<char>) -> Option<i32> {
        match decimal_within(text, true, i32::MIN as int, i32::MAX as int) {
            Some(v) => Some(v as i32),
            None => None,
        }
    }

    fn from_text(text: &str) -> (r: Option<i32>) {
        match read_integer(text, true, i32::MIN as i128, i32::MAX as i128) {
            Some(v) => Some(v as i32),
            None => None,
        }
    }
}

impl FromText for i64 {
    open spec fn value_of(text: Seq<char>) -> Option<i64> {
        match decimal_within(text, true, i64::MIN as int, i64::MAX as int) {
            Some(v) => Some(v as i64),
            None => None,
        }
    }

    fn from_text(text: &str) -> (r: Option<i64>) {
        match read_integer(text, true, i64::MIN as i128, i64::MAX as i128) {
            Some(v) => Some(v as i64),
            None => None,
        }
    }
}

impl FromText for isize {
    open spec fn value_of(text: Seq<char>) -> Option<isize> {
        match decimal_within(text, true, isize::MIN as int, isize::MAX as int) {
            Some(v) => Some(v as isize),
            None => None,
        }
    }

    fn from_text(text: &str) -> (r: Option<isize>) {
        match read_integer(text, true, isize::MIN as i128, isize::MAX as i128) {
            Some(v) => Some(v as isize),
            None => None,
        }
    }
}

impl FromText for char {
    /// A text of one character stands for that character.
    open spec fn value_of(text: Seq<char>) -> Option<char> {
        if text.len() == 1 {
            Some(text[0])
        } else {
            None
        }
    }

    fn from_text(text: &str) -> (r: Option<char>) {
        let chars: Vec<char> = chars_of(text);
        if chars.len() == 1 {
            Some(chars[0])
        } else {
            None
        }
    }
}

impl FromText for bool {
    /// The texts `true` and `false` stand for the two truth values.
    open spec fn value_of(text: Seq<char>) -> Option<bool> {
        if text == "true"@ {
            Some(true)
        } else if text == "false"@ {
            Some(false)
        } else {
            None
        }
    }

    fn from_text(text: &str) -> (r: Option<bool>) {
        if same_text(text, "true") {
            Some(true)
        } else if same_text(text, "false") {
            Some(false)
        } else {
            None
        }
    }
}

impl InputString {
    /// Reads the whole text as a value of type `F`; `None` where it stands
    /// for none.
    pub fn try_parse<F: FromText>(&self) -> (r: Option<F>)
        ensures
            r == F::value_of(self@),
    {
        F::from_text(self.as_str())
    }

    /// Reads as a value of type `F` a text that stands for one.
    pub fn parse<F: FromText>(&self) -> (r: F)
        requires
            F::value_of(self@) is Some,
        ensures
            F::value_of(self@) == Some(r),
    {
        self.try_parse::<F>().unwrap()
    }
}

} // verus!
