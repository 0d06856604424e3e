use crate::text::{
    chars_of, destruct, destructure, find_in, split_once, split_pieces, trim_bounds, trimmed,
};
use crate::trusted::array_from_vec;
use vstd::prelude::*;
use vstd::std_specs::convert::FromSpecImpl;
use vstd::std_specs::iter::IteratorSpec;
use vstd::string::{StrSliceExecFns, StringExecFns};
use vstd::utf8::{
    decode_utf8_split, encode_utf8, encode_utf8_decode_utf8, encode_utf8_valid_utf8,
    is_char_boundary,
};

verus! {

/// An owned piece of text. Its view is the sequence of its characters.
#[derive(Debug)]
pub struct InputString {
    inner: String,
}

impl View for InputString {
    type V = Seq<char>;

    closed spec fn view(&self) -> Seq<char> {
        self.inner@
    }
}

impl From<String> for InputString {
    /// The text of `inner`, taken over as it is.
    fn from(inner: String) -> (r: Self)
        ensures
            r@ == inner@,
    {
        InputString { inner }
    }
}

impl FromSpecImpl<String> for InputString {
    open spec fn obeys_from_spec() -> bool {
        true
    }

    closed spec fn from_spec(inner: String) -> Self {
        InputString { inner }
    }
}

impl<'a> From<&'a str> for InputString {
    /// A copy of the text of `inner`.
    fn from(inner: &'a str) -> (r: Self)
        ensures
            r@ == inner@,
    {
        InputString { inner: inner.to_owned() }
    }
}

impl<'a> FromSpecImpl<&'a str> for InputString {
    open spec fn obeys_from_spec() -> bool {
        false
    }

    closed spec fn from_spec(inner: &'a str) -> Self {
        arbitrary()
    }
}

impl From<InputString> for String {
    /// The text of `text`, as a `String`.
    fn from(text: InputString) -> (r: String)
        ensures
            r@ == text@,
    {
        text.inner
    }
}

impl FromSpecImpl<InputString> for String {
    open spec fn obeys_from_spec() -> bool {
        true
    }

    closed spec fn from_spec(text: InputString) -> String {
        text.inner
    }
}

/// The texts of `fields`, in order.
pub open spec fn texts(fields: Seq<InputString>) -> Seq<Seq<char>> {
    fields.map_values(|field: InputString| field@)
}

/// The texts of `splitters`, in order.
pub open spec fn patterns(splitters: Seq<&str>) -> Seq<Seq<char>> {
    splitters.map_values(|splitter: &str| splitter@)
}

impl InputString {
    /// The empty text.
    pub fn new() -> (r: Self)
        ensures
            r@ == Seq::<char>::empty(),
    {
        InputString { inner: String::new() }
    }

    /// Puts `tail` after the text.
    pub fn push_text(&mut self, tail: &str)
        ensures
            final(self)@ == old(self)@ + tail@,
    {
        self.inner.append(tail);
    }

    /// The text as a `String`.
    pub fn into_string(self) -> (r: String)
        ensures
            r@ == self@,
    {
        self.inner
    }

    /// The text as a string slice.
    pub fn as_str(&self) -> (r: &str)
        ensures
            r@ == self@,
    {
        self.inner.as_str()
    }

    /// The length of the text in bytes, as UTF-8.
    pub fn len(&self) -> (r: usize)
        ensures
            r == encode_utf8(self@).len(),
    {
        self.inner.as_str().as_bytes().len()
    }

    /// Whether the text holds no character.
    pub fn is_empty(&self) -> (r: bool)
        ensures
            r == (self@.len() == 0),
    {
        self.inner.as_str().is_empty()
    }

    /// The bytes of the text, as UTF-8.
    pub fn bytes(&self) -> (r: &[u8])
        ensures
            r@ == encode_utf8(self@),
    {
        self.inner.as_str().as_bytes()
    }

    /// An iterator over the characters of the text, in order.
    pub fn chars(&self) -> (r: std::str::Chars<'_>)
        ensures
            r.remaining() == self@,
            r.decrease() is Some,
            r.initial_value_relation(&r),
    {
        self.inner.as_str().chars()
    }

    /// The text before and the text from byte `n` of its UTF-8 form on,
    /// where a character begins at that byte or the text ends there; `None`
    /// where `n` lies inside a character or beyond the end.
    pub fn try_split_at(&self, n: usize) -> (r: Option<(InputString, InputString)>)
        ensures
            r is Some <==> is_char_boundary(encode_utf8(self@), n as int),
            match r {
                Some((left, right)) => {
                    &&& left@ + right@ == self@
                    &&& encode_utf8(left@).len() == n
                },
                None => true,
            },
    {
        let text: &str = self.inner.as_str();
        if text.is_char_boundary(n) {
            let (left, right) = text.split_at(n);
            proof {
                let all = encode_utf8(self@);
                encode_utf8_valid_utf8(self@);
                decode_utf8_split(all, n as int);
                encode_utf8_decode_utf8(self@);
                encode_utf8_decode_utf8(left@);
                encode_utf8_decode_utf8(right@);
            }
            Some((InputString::from(left), InputString::from(right)))
        } else {
            None
        }
    }

    /// The text before and the text from byte `n` of its UTF-8 form on.
    pub fn split_at(&self, n: usize) -> (r: (InputString, InputString))
        requires
            is_char_boundary(encode_utf8(self@), n as int),
        ensures
            r.0@ + r.1@ == self@,
            encode_utf8(r.0@).len() == n,
    {
        self.try_split_at(n).unwrap()
    }

    /// The text without the white space at its start and at its end.
    pub fn trim(&self) -> (r: InputString)
        ensures
            r@ == trimmed(self@),
    {
        let text: &str = self.inner.as_str();
        let chars: Vec<char> = chars_of(text);
        let (start, end) = trim_bounds(chars.as_slice());
        InputString::from(text.substring_char(start, end))
    }

    /// The pieces into which the occurrences of `p` cut the text, in order.
    pub fn split(&self, p: &str) -> (r: Vec<InputString>)
        ensures
            texts(r@) == split_pieces(self@, p@),
    {
        let text: &str = self.inner.as_str();
        let hay: Vec<char> = chars_of(text);
        let pat: Vec<char> = chars_of(p);
        let total: usize = hay.len();
        let mut pieces: Vec<InputString> = Vec::new();
        if pat.len() == 0 {
            pieces.push(InputString::new());
            let mut k: usize = 0;
            while k < total
                invariant
                    0 <= k <= total,
                    total == self@.len(),
                    text@ == self@,
                    pieces@.len() == k + 1,
                    forall|j: int|
                        0 <= j <= k ==> (#[trigger] pieces@[j])@ == split_pieces(self@, p@)[j],
                    pat@.len() == 0,
                    pat@ == p@,
                decreases total - k,
            {
                let piece = InputString::from(text.substring_char(k, k + 1));
                assert(piece@ =~= seq![self@[k as int]]);
                pieces.push(piece);
                k += 1;
            }
            pieces.push(InputString::new());
            assert(texts(pieces@) =~= split_pieces(self@, p@));
            return pieces;
        }
        let mut pos: usize = 0;
        proof {
            assert(self@.subrange(0, self@.len() as int) =~= self@);
            assert(texts(pieces@) + split_pieces(self@, p@) =~= split_pieces(self@, p@));
        }
        loop
            invariant
                hay@ == self@,
                text@ == self@,
                pat@ == p@,
                pat@.len() > 0,
                total == hay@.len(),
                pos <= total,
                split_pieces(self@, p@) == texts(pieces@) + split_pieces(
                    self@.subrange(pos as int, self@.len() as int),
                    p@,
                ),
            decreases total - pos,
        {
            let ghost left = self@.subrange(pos as int, self@.len() as int);
            let ghost before = texts(pieces@);
            match find_in(hay.as_slice(), pat.as_slice(), pos) {
                None => {
                    let piece = InputString::from(text.substring_char(pos, total));
                    pieces.push(piece);
                    assert(texts(pieces@) =~= before + seq![left]);
                    return pieces;
                },
                Some(i) => {
                    let piece = InputString::from(text.substring_char(pos, i));
                    pieces.push(piece);
                    let ghost head = left.subrange(0, i - pos);
                    assert(piece@ =~= head);
                    assert(texts(pieces@) =~= before + seq![head]);
                    let ghost at = i - pos;
                    pos = i + pat.len();
                    let ghost tail = self@.subrange(pos as int, self@.len() as int);
                    assert(left.subrange(at + pat@.len(), left.len() as int) =~= tail);
                    assert(before + (seq![head] + split_pieces(tail, p@)) =~= (before + seq![
                        head,
                    ]) + split_pieces(tail, p@));
                },
            }
        }
    }

    /// Takes the text apart into `count` fields. Each field but the last
    /// ends where the splitter whose turn it is first occurs in what is
    /// left; the splitters take turns in the order given, and after the last
    /// the first is used again. The last field is all that is left. `None`
    /// where a splitter whose turn has come does not occur in what is left.
    pub fn try_destruct(&self, splitters: &[&str], count: usize) -> (r: Option<Vec<InputString>>)
        requires
            splitters@.len() >= 1,
            count >= 1,
        ensures
            match r {
                Some(fields) => fields@.len() == count && destruct(
                    self@,
                    patterns(splitters@),
                    count as nat,
                ) == Some(texts(fields@)),
                None => destruct(self@, patterns(splitters@), count as nat) is None,
            },
    {
        let text: &str = self.as_str();
        let hay: Vec<char> = chars_of(text);
        let n: usize = splitters.len();
        let ghost delims = patterns(splitters@);
        let mut fields: Vec<InputString> = Vec::new();
        let mut pos: usize = 0;
        let mut turn: usize = 0;
        let total: usize = hay.len();
        proof {
            assert(self@.subrange(0, self@.len() as int) =~= self@);
            assert forall|rest: Seq<Seq<char>>| texts(fields@) + rest == rest by {
                assert(texts(fields@) + rest =~= rest);
            }
        }
        loop
            invariant
                hay@ == self@,
                total == hay@.len(),
                text@ == self@,
                n == splitters@.len(),
                delims == patterns(splitters@),
                fields@.len() < count,
                pos <= hay@.len(),
                turn < n,
                destruct(self@, delims, count as nat) == match destructure(
                    self@.subrange(pos as int, self@.len() as int),
                    delims,
                    turn as int,
                    (count - fields@.len()) as nat,
                ) {
                    Some(rest) => Some(texts(fields@) + rest),
                    None => None,
                },
            decreases count - fields@.len(),
        {
            let ghost left = self@.subrange(pos as int, self@.len() as int);
            let ghost before = texts(fields@);
            if fields.len() == count - 1 {
                let last = InputString::from(text.substring_char(pos, total));
                fields.push(last);
                assert(texts(fields@) =~= before + seq![left]);
                return Some(fields);
            }
            let pat: Vec<char> = chars_of(splitters[turn]);
            assert(pat@ == delims[turn as int]);
            match find_in(hay.as_slice(), pat.as_slice(), pos) {
                None => {
                    return None;
                },
                Some(i) => {
                    let field = InputString::from(text.substring_char(pos, i));
                    fields.push(field);
                    let ghost (head, tail) = split_once(left, pat@).unwrap();
                    assert(field@ =~= head);
                    assert(texts(fields@) =~= before + seq![head]);
                    pos = i + pat.len();
                    assert(self@.subrange(pos as int, self@.len() as int) =~= tail);
                    turn = (turn + 1) % n;
                    assert forall|rest: Seq<Seq<char>>|
                        before + (seq![head] + rest) == (before + seq![head]) + rest by {
                        assert(before + (seq![head] + rest) =~= (before + seq![head]) + rest);
                    }
                },
            }
        }
    }

    /// Takes the text apart into `M` fields, as `try_destruct` does, and
    /// returns them as an array.
    pub fn try_destruct_n<const N: usize, const M: usize>(&self, splitters: [&str; N]) -> (r:
        Option<[InputString; M]>)
        requires
            N >= 1,
            M >= 1,
        ensures
            match r {
                Some(fields) => destruct(self@, patterns(splitters@), M as nat) == Some(
                    texts(fields@),
                ),
                None => destruct(self@, patterns(splitters@), M as nat) is None,
            },
    {
        match self.try_destruct(splitters.as_slice(), M) {
            Some(fields) => array_from_vec::<M>(fields).ok(),
            None => None,
        }
    }

    /// Takes apart into `M` fields a text in which every splitter is found
    /// when its turn comes.
    pub fn destruct_n<const N: usize, const M: usize>(&self, splitters: [&str; N]) -> (r: [InputString; M])
        requires
            N >= 1,
            M >= 1,
            destruct(self@, patterns(splitters@), M as nat) is Some,
        ensures
            destruct(self@, patterns(splitters@), M as nat) == Some(texts(r@)),
    {
        self.try_destruct_n(splitters).unwrap()
    }

    /// Takes the text apart into `N` fields at the occurrences of `p`: the
    /// last field is all that is left after `N - 1` of them. `None` where
    /// `p` is not found that often.
    pub fn try_split_n<const N: usize>(&self, p: &str) -> (r: Option<[InputString; N]>)
        requires
            N >= 1,
        ensures
            match r {
                Some(fields) => destruct(self@, seq![p@], N as nat) == Some(texts(fields@)),
                None => destruct(self@, seq![p@], N as nat) is None,
            },
    {
        let splitters: [&str; 1] = [p];
        assert(patterns(splitters@) =~= seq![p@]);
        self.try_destruct_n(splitters)
    }

    /// Takes apart into `N` fields a text in which `p` is found each of the
    /// `N - 1` times that it is looked for.
    pub fn split_n<const N: usize>(&self, p: &str) -> (r: [InputString; N])
        requires
            N >= 1,
            destruct(self@, seq![p@], N as nat) is Some,
        ensures
            destruct(self@, seq![p@], N as nat) == Some(texts(r@)),
    {
        self.try_split_n(p).unwrap()
    }
}

} // verus!
