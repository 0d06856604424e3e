//! The character-level model of the text operations: where a delimiter
//! first occurs, and what is left of a line once its line ending is gone.

use crate::trusted::is_white_space;
use vstd::prelude::*;
use vstd::string::StrSliceExecFns;

verus! {

/// `s` without its last character where that is `c`; else `s`.
pub open spec fn strip_last(s: Seq<char>, c: char) -> Seq<char> {
    if s.len() > 0 && s.last() == c {
        s.drop_last()
    } else {
        s
    }
}

/// What a line keeps of the text that was read for it: one trailing line
/// feed is taken off where there is one, then one trailing carriage return
/// where there is one.
pub open spec fn line_of(text: Seq<char>) -> Seq<char> {
    strip_last(strip_last(text, '\n'), '\r')
}

/// The characters of `s`, in order.
pub fn chars_of(s: &str) -> (r: Vec<char>)
    ensures
        r@ == s@,
{
    let mut out: Vec<char> = Vec::new();
    for c in it: s.chars()
        invariant
            out@ == it.seq().take(it.index@),
    {
        out.push(c);
    }
    out
}

/// The text without its line ending.
pub fn strip_line(text: &str) -> (r: &str)
    ensures
        r@ == line_of(text@),
{
    let chars = chars_of(text);
    let mut end: usize = chars.len();
    if end > 0 && chars[end - 1] == '\n' {
        end -= 1;
    }
    if end > 0 && chars[end - 1] == '\r' {
        end -= 1;
    }
    let r = text.substring_char(0, end);
    assert(r@ =~= line_of(text@));
    r
}

/// Whether `pat` stands in `s` at position `i`.
pub open spec fn matches_at(s: Seq<char>, pat: Seq<char>, i: int) -> bool {
    0 <= i && i + pat.len() <= s.len() && s.subrange(i, i + pat.len()) == pat
}

/// The first position at or after `from` at which `pat` stands in `s`.
pub open spec fn find_from(s: Seq<char>, pat: Seq<char>, from: int) -> Option<int>
    decreases s.len() - from + 1,
{
    if 0 <= from <= s.len() - pat.len() {
        if matches_at(s, pat, from) {
            Some(from)
        } else {
            find_from(s, pat, from + 1)
        }
    } else {
        None
    }
}

/// The first position at which `pat` stands in `s`. The empty pattern
/// stands at position 0 of every text.
pub open spec fn find(s: Seq<char>, pat: Seq<char>) -> Option<int> {
    find_from(s, pat, 0)
}

/// The text before and the text after the first occurrence of `pat` in `s`.
pub open spec fn split_once(s: Seq<char>, pat: Seq<char>) -> Option<(Seq<char>, Seq<char>)> {
    match find(s, pat) {
        Some(i) => Some((s.subrange(0, i), s.subrange(i + pat.len(), s.len() as int))),
        None => None,
    }
}

/// Taking `s` apart into `m` fields: each field but the last ends where the
/// delimiter whose turn it is first occurs, and the delimiters take turns in
/// the order of `delims`, starting at `index` and beginning again after the
/// last. The last field is all that is left. There is no result where a
/// delimiter whose turn has come does not occur in what is left.
pub open spec fn destructure(s: Seq<char>, delims: Seq<Seq<char>>, index: int, m: nat) -> Option<
    Seq<Seq<char>>,
>
    recommends
        m >= 1,
        0 <= index < delims.len(),
    decreases m,
{
    if m <= 1 {
        Some(seq![s])
    } else {
        match split_once(s, delims[index]) {
            None => None,
            Some((field, rest)) => match destructure(
                rest,
                delims,
                (index + 1) % (delims.len() as int),
                (m - 1) as nat,
            ) {
                None => None,
                Some(fields) => Some(seq![field] + fields),
            },
        }
    }
}

/// Taking `s` apart into `m` fields, the delimiters taking turns from the
/// first of `delims` on.
pub open spec fn destruct(s: Seq<char>, delims: Seq<Seq<char>>, m: nat) -> Option<Seq<Seq<char>>>
    recommends
        m >= 1,
        delims.len() >= 1,
{
    destructure(s, delims, 0, m)
}

/// `find_from` gives a position at which the pattern stands and before
/// which, from `from` on, it does not; it gives none only where the pattern
/// stands nowhere from `from` on.
pub proof fn lemma_find_from(s: Seq<char>, pat: Seq<char>, from: int)
    requires
        0 <= from,
    ensures
        match find_from(s, pat, from) {
            Some(i) => from <= i && matches_at(s, pat, i) && forall|j: int|
                from <= j < i ==> !matches_at(s, pat, j),
            None => forall|j: int| from <= j ==> !matches_at(s, pat, j),
        },
    decreases s.len() - from + 1,
{
    if from <= s.len() - pat.len() {
        if !matches_at(s, pat, from) {
            lemma_find_from(s, pat, from + 1);
        }
    }
}

/// A position at which the pattern stands, and before which it does not,
/// is the one that `find` gives.
pub proof fn lemma_find_is(s: Seq<char>, pat: Seq<char>, i: int)
    requires
        matches_at(s, pat, i),
        forall|j: int| 0 <= j < i ==> !matches_at(s, pat, j),
    ensures
        find(s, pat) == Some(i),
{
    lemma_find_from(s, pat, 0);
}

/// Where the pattern stands nowhere, `find` gives no position.
pub proof fn lemma_find_none(s: Seq<char>, pat: Seq<char>)
    requires
        forall|j: int| 0 <= j ==> !matches_at(s, pat, j),
    ensures
        find(s, pat) is None,
{
    lemma_find_from(s, pat, 0);
}

/// Whether `pat` stands in `hay` at position `at`.
fn matches_here(hay: &[char], pat: &[char], at: usize) -> (r: bool)
    requires
        at + pat@.len() <= hay@.len(),
    ensures
        r == matches_at(hay@, pat@, at as int),
{
    let n: usize = hay.len();
    let mut k: usize = 0;
    while k < pat.len()
        invariant
            0 <= k <= pat@.len(),
            at + pat@.len() <= hay@.len(),
            n == hay@.len(),
            forall|j: int| 0 <= j < k ==> hay@[at + j] == pat@[j],
        decreases pat@.len() - k,
    {
        if hay[at + k] != pat[k] {
            assert(hay@.subrange(at as int, at + pat@.len())[k as int] != pat@[k as int]);
            return false;
        }
        k += 1;
    }
    assert(hay@.subrange(at as int, at + pat@.len()) =~= pat@);
    true
}

/// The first position at which `pat` stands in what `hay` holds from
/// `from` on, counted from the start of `hay`.
pub fn find_in(hay: &[char], pat: &[char], from: usize) -> (r: Option<usize>)
    requires
        from <= hay@.len(),
    ensures
        match r {
            Some(i) => from <= i && i + pat@.len() <= hay@.len() && find(
                hay@.subrange(from as int, hay@.len() as int),
                pat@,
            ) == Some(i - from),
            None => find(hay@.subrange(from as int, hay@.len() as int), pat@) is None,
        },
{
    let ghost rest = hay@.subrange(from as int, hay@.len() as int);
    if pat.len() > hay.len() - from {
        proof {
            lemma_find_none(rest, pat@);
        }
        return None;
    }
    let last: usize = hay.len() - pat.len();
    let mut i: usize = from;
    loop
        invariant
            from <= i <= last,
            last == hay@.len() - pat@.len(),
            rest == hay@.subrange(from as int, hay@.len() as int),
            forall|j: int| 0 <= j < i - from ==> !matches_at(rest, pat@, j),
        decreases last - i,
    {
        if matches_here(hay, pat, i) {
            proof {
                assert(rest.subrange(i - from, i - from + pat@.len()) =~= hay@.subrange(
                    i as int,
                    i + pat@.len(),
                ));
                lemma_find_is(rest, pat@, i - from);
            }
            return Some(i);
        }
        proof {
            assert(rest.subrange(i - from, i - from + pat@.len()) =~= hay@.subrange(
                i as int,
                i + pat@.len(),
            ));
        }
        if i == last {
            proof {
                lemma_find_none(rest, pat@);
            }
            return None;
        }
        i += 1;
    }
}

/// The fields joined into one text, with a delimiter between each two
/// neighbours: the delimiters take turns in the order of `delims`, starting
/// at `index` and beginning again after the last.
pub open spec fn join_rotating(fields: Seq<Seq<char>>, delims: Seq<Seq<char>>, index: int) -> Seq<
    char,
>
    recommends
        0 <= index < delims.len(),
    decreases fields.len(),
{
    if fields.len() == 0 {
        Seq::empty()
    } else if fields.len() == 1 {
        fields[0]
    } else {
        fields[0] + delims[index] + join_rotating(
            fields.drop_first(),
            delims,
            (index + 1) % (delims.len() as int),
        )
    }
}

/// Whether `delim` occurs in `field` followed by `delim` no earlier than
/// where `field` ends.
pub open spec fn ends_at_delimiter(field: Seq<char>, delim: Seq<char>) -> bool {
    find(field + delim, delim) == Some(field.len() as int)
}

/// Whether each field but the last, followed by the delimiter whose turn it
/// is, holds that delimiter no earlier than at its end.
pub open spec fn well_separated(fields: Seq<Seq<char>>, delims: Seq<Seq<char>>, index: int) -> bool
    recommends
        0 <= index < delims.len(),
    decreases fields.len(),
{
    fields.len() <= 1 || (ends_at_delimiter(fields[0], delims[index]) && well_separated(
        fields.drop_first(),
        delims,
        (index + 1) % (delims.len() as int),
    ))
}

/// Taking a text apart gives as many fields as were asked for.
pub proof fn lemma_destructure_len(s: Seq<char>, delims: Seq<Seq<char>>, index: int, m: nat)
    requires
        m >= 1,
    ensures
        destructure(s, delims, index, m) is Some ==> destructure(s, delims, index, m).unwrap().len()
            == m,
    decreases m,
{
    if m > 1 {
        match split_once(s, delims[index]) {
            None => {},
            Some((field, rest)) => {
                lemma_destructure_len(
                    rest,
                    delims,
                    (index + 1) % (delims.len() as int),
                    (m - 1) as nat,
                );
            },
        }
    }
}

/// In a field followed by its delimiter and by anything else, the
/// delimiter first occurs where it does in the field followed by the
/// delimiter alone, as far as that is before the field's end.
proof fn lemma_match_within(field: Seq<char>, delim: Seq<char>, rest: Seq<char>, j: int)
    requires
        0 <= j < field.len(),
    ensures
        matches_at(field + delim + rest, delim, j) == matches_at(field + delim, delim, j),
{
    let whole = field + delim + rest;
    let short = field + delim;
    assert(whole.subrange(j, j + delim.len()) =~= short.subrange(j, j + delim.len()));
}

/// Joining and taking apart again, one field on: the delimiter is found at
/// the end of the first field exactly where that field is well separated.
proof fn lemma_find_in_joined(field: Seq<char>, delim: Seq<char>, rest: Seq<char>)
    ensures
        ends_at_delimiter(field, delim) <==> find(field + delim + rest, delim) == Some(
            field.len() as int,
        ),
        find(field + delim + rest, delim) is Some,
        find(field + delim + rest, delim).unwrap() <= field.len(),
{
    let whole = field + delim + rest;
    let short = field + delim;
    let at = field.len() as int;
    assert(whole.subrange(at, at + delim.len()) =~= delim);
    assert(short.subrange(at, at + delim.len()) =~= delim);
    assert(matches_at(whole, delim, at));
    assert(matches_at(short, delim, at));
    lemma_find_from(whole, delim, 0);
    lemma_find_from(short, delim, 0);
    let first_whole = find(whole, delim).unwrap();
    let first_short = find(short, delim).unwrap();
    if first_whole < at {
        lemma_match_within(field, delim, rest, first_whole);
    }
    if first_short < at {
        lemma_match_within(field, delim, rest, first_short);
    }
}

/// Fields that are joined with delimiters taking turns, and taken apart
/// with the same delimiters into as many fields, come out as they went in,
/// provided that they are well separated.
pub proof fn lemma_destructure_join(fields: Seq<Seq<char>>, delims: Seq<Seq<char>>, index: int)
    requires
        fields.len() >= 1,
        0 <= index < delims.len(),
        well_separated(fields, delims, index),
    ensures
        destructure(join_rotating(fields, delims, index), delims, index, fields.len()) == Some(
            fields,
        ),
    decreases fields.len(),
{
    if fields.len() == 1 {
        assert(seq![fields[0]] =~= fields);
    } else {
        let next = (index + 1) % (delims.len() as int);
        let later = fields.drop_first();
        let rest = join_rotating(later, delims, next);
        let whole = join_rotating(fields, delims, index);
        let delim = delims[index];
        lemma_find_in_joined(fields[0], delim, rest);
        lemma_destructure_join(later, delims, next);
        assert(whole.subrange(0, fields[0].len() as int) =~= fields[0]);
        assert(whole.subrange((fields[0].len() + delim.len()) as int, whole.len() as int) =~= rest);
        assert(seq![fields[0]] + later =~= fields);
    }
}

/// The fields come out as they went in only where they are well separated.
pub proof fn lemma_destructure_join_only_if(
    fields: Seq<Seq<char>>,
    delims: Seq<Seq<char>>,
    index: int,
)
    requires
        fields.len() >= 1,
        0 <= index < delims.len(),
        destructure(join_rotating(fields, delims, index), delims, index, fields.len()) == Some(
            fields,
        ),
    ensures
        well_separated(fields, delims, index),
    decreases fields.len(),
{
    if fields.len() > 1 {
        let next = (index + 1) % (delims.len() as int);
        let later = fields.drop_first();
        let rest = join_rotating(later, delims, next);
        let whole = join_rotating(fields, delims, index);
        let delim = delims[index];
        assert(whole == fields[0] + delim + rest);
        lemma_find_in_joined(fields[0], delim, rest);
        lemma_find_from(whole, delim, 0);
        let at = find(whole, delim).unwrap();
        let (field, left) = split_once(whole, delim).unwrap();
        let others = destructure(left, delims, next, (fields.len() - 1) as nat).unwrap();
        assert((seq![field] + others)[0] == fields[0]);
        assert(field.len() == at);
        assert(left =~= rest);
        assert(others =~= later) by {
            assert((seq![field] + others).drop_first() =~= others);
        }
        lemma_destructure_join_only_if(later, delims, next);
    }
}

/// The law for `destruct`: well-separated fields, joined with the
/// delimiters taking turns from the first on, are taken apart into
/// themselves.
pub proof fn lemma_destruct_join(fields: Seq<Seq<char>>, delims: Seq<Seq<char>>)
    requires
        fields.len() >= 1,
        delims.len() >= 1,
        well_separated(fields, delims, 0),
    ensures
        destruct(join_rotating(fields, delims, 0), delims, fields.len()) == Some(fields),
{
    lemma_destructure_join(fields, delims, 0);
}

/// The pieces into which the occurrences of `pat` cut `s`: what stands
/// before the first occurrence, then the pieces of what follows it. Two
/// occurrences side by side have an empty piece between them, and one at the
/// start or the end of `s` has an empty piece before or after it. The empty
/// pattern cuts before and after every character.
pub open spec fn split_pieces(s: Seq<char>, pat: Seq<char>) -> Seq<Seq<char>>
    decreases s.len(),
    via split_pieces_decreases
{
    if pat.len() == 0 {
        Seq::new(
            s.len() + 2,
            |k: int|
                if 1 <= k <= s.len() {
                    seq![s[k - 1]]
                } else {
                    Seq::empty()
                },
        )
    } else {
        match find(s, pat) {
            None => seq![s],
            Some(i) => seq![s.subrange(0, i)] + split_pieces(
                s.subrange(i + pat.len(), s.len() as int),
                pat,
            ),
        }
    }
}

#[via_fn]
proof fn split_pieces_decreases(s: Seq<char>, pat: Seq<char>) {
    lemma_find_from(s, pat, 0);
}

/// Whether `c` is white space: the characters with Unicode's property
/// White_Space. They are the tab, the line feed, the vertical tab, the form
/// feed, the carriage return and the space; the next-line character and the
/// no-break space; the ogham space mark; the spaces of fixed width from the
/// en quad to the hair space; the line and the paragraph separator; the
/// narrow no-break space, the medium mathematical space and the ideographic
/// space.
pub open spec fn white_space(c: char) -> bool {
    ||| '\u{9}' <= c <= '\u{d}'
    ||| c == '\u{20}'
    ||| c == '\u{85}'
    ||| c == '\u{a0}'
    ||| c == '\u{1680}'
    ||| '\u{2000}' <= c <= '\u{200a}'
    ||| '\u{2028}' <= c <= '\u{2029}'
    ||| c == '\u{202f}'
    ||| c == '\u{205f}'
    ||| c == '\u{3000}'
}

/// `s` without the white space at its start.
pub open spec fn trim_start(s: Seq<char>) -> Seq<char>
    decreases s.len(),
{
    if s.len() > 0 && white_space(s[0]) {
        trim_start(s.drop_first())
    } else {
        s
    }
}

/// `s` without the white space at its end.
pub open spec fn trim_end(s: Seq<char>) -> Seq<char>
    decreases s.len(),
{
    if s.len() > 0 && white_space(s.last()) {
        trim_end(s.drop_last())
    } else {
        s
    }
}

/// `s` without the white space at its start and at its end.
pub open spec fn trimmed(s: Seq<char>) -> Seq<char> {
    trim_end(trim_start(s))
}

/// The positions between which `trimmed` keeps the characters.
pub fn trim_bounds(chars: &[char]) -> (r: (usize, usize))
    ensures
        r.0 <= r.1 <= chars@.len(),
        trimmed(chars@) == chars@.subrange(r.0 as int, r.1 as int),
{
    let n: usize = chars.len();
    let mut start: usize = 0;
    proof {
        assert(chars@.subrange(0, n as int) =~= chars@);
    }
    while start < n && is_white_space(chars[start])
        invariant
            0 <= start <= n,
            n == chars@.len(),
            trim_start(chars@) == trim_start(chars@.subrange(start as int, n as int)),
        decreases n - start,
    {
        proof {
            assert(chars@.subrange(start as int, n as int).drop_first() =~= chars@.subrange(
                start + 1,
                n as int,
            ));
        }
        start += 1;
    }
    let ghost kept = chars@.subrange(start as int, n as int);
    assert(trim_start(chars@) == kept);
    let mut end: usize = n;
    while end > start && is_white_space(chars[end - 1])
        invariant
            start <= end <= n,
            n == chars@.len(),
            kept == chars@.subrange(start as int, n as int),
            trim_end(kept) == trim_end(chars@.subrange(start as int, end as int)),
        decreases end - start,
    {
        proof {
            assert(chars@.subrange(start as int, end as int).drop_last() =~= chars@.subrange(
                start as int,
                end - 1,
            ));
        }
        end -= 1;
    }
    (start, end)
}

} // verus!
