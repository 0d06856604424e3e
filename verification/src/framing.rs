//! The model of delimiter framing: where the first delimiter of a sequence
//! lies, what precedes and follows it, and the records that repeated framing
//! yields. It is used for bytes, on which the reader works, and for
//! characters, of which the text that it returns is made.

use vstd::prelude::*;

verus! {

/// The position of the first `p` in `s`, or `s.len()` where `s` holds none.
pub open spec fn first_index<T>(s: Seq<T>, p: T) -> int
    decreases s.len(),
{
    if s.len() == 0 {
        0
    } else if s[0] == p {
        0
    } else {
        1 + first_index(s.drop_first(), p)
    }
}

/// Whether `p` occurs in `s`.
pub open spec fn has_delimiter<T>(s: Seq<T>, p: T) -> bool {
    first_index(s, p) < s.len()
}

/// What `s` holds before its first `p`; all of `s` where it holds none.
pub open spec fn head<T>(s: Seq<T>, p: T) -> Seq<T> {
    s.subrange(0, first_index(s, p))
}

/// What `s` holds after its first `p`; nothing where it holds none.
pub open spec fn tail<T>(s: Seq<T>, p: T) -> Seq<T> {
    if has_delimiter(s, p) {
        s.subrange(first_index(s, p) + 1, s.len() as int)
    } else {
        Seq::empty()
    }
}

/// The records that `s` frames into: each is closed by a `p`, except that a
/// last one without a closing `p` is a record too, provided it is not empty.
pub open spec fn records<T>(s: Seq<T>, p: T) -> Seq<Seq<T>>
    decreases s.len(),
    via records_decreases::<T>
{
    if s.len() == 0 {
        Seq::empty()
    } else {
        seq![head(s, p)] + records(tail(s, p), p)
    }
}

#[via_fn]
proof fn records_decreases<T>(s: Seq<T>, p: T) {
    lemma_first_index(s, p);
}

/// The records joined again, with one `p` between each two neighbours.
pub open spec fn join<T>(parts: Seq<Seq<T>>, p: T) -> Seq<T>
    decreases parts.len(),
{
    if parts.len() == 0 {
        Seq::empty()
    } else if parts.len() == 1 {
        parts[0]
    } else {
        parts[0] + seq![p] + join(parts.drop_first(), p)
    }
}

/// `first_index` is in range, no earlier element is `p`, and the element there is
/// `p` unless the position is the length.
pub proof fn lemma_first_index<T>(s: Seq<T>, p: T)
    ensures
        0 <= first_index(s, p) <= s.len(),
        forall|j: int| 0 <= j < first_index(s, p) ==> s[j] != p,
        first_index(s, p) < s.len() ==> s[first_index(s, p)] == p,
    decreases s.len(),
{
    if s.len() != 0 && s[0] != p {
        let rest = s.drop_first();
        lemma_first_index(rest, p);
        assert forall|j: int| 0 <= j < first_index(s, p) implies s[j] != p by {
            if j > 0 {
                assert(rest[j - 1] == s[j]);
            }
        }
    }
}

/// A position that meets the three conditions of `lemma_first_index` is the
/// first index.
pub proof fn lemma_first_index_is<T>(s: Seq<T>, p: T, i: int)
    requires
        0 <= i <= s.len(),
        forall|j: int| 0 <= j < i ==> s[j] != p,
        i < s.len() ==> s[i] == p,
    ensures
        first_index(s, p) == i,
{
    lemma_first_index(s, p);
    let f = first_index(s, p);
    if f < i {
        assert(s[f] != p);
    } else if i < f {
        assert(s[i] == p);
    }
}

/// Framing a concatenation whose left part holds no delimiter: the
/// delimiter is looked for in the right part.
pub proof fn lemma_first_index_concat<T>(a: Seq<T>, b: Seq<T>, p: T)
    requires
        !has_delimiter(a, p),
    ensures
        first_index(a + b, p) == a.len() + first_index(b, p),
        has_delimiter(a + b, p) == has_delimiter(b, p),
        head(a + b, p) == a + head(b, p),
        tail(a + b, p) == tail(b, p),
{
    lemma_first_index(a, p);
    lemma_first_index(b, p);
    let i = a.len() + first_index(b, p);
    let ab = a + b;
    assert forall|j: int| 0 <= j < i implies ab[j] != p by {
        if j >= a.len() {
            assert(ab[j] == b[j - a.len()]);
        }
    }
    if i < ab.len() {
        assert(ab[i] == b[first_index(b, p)]);
    }
    lemma_first_index_is(ab, p, i);
    assert(head(ab, p) =~= a + head(b, p));
    assert(tail(ab, p) =~= tail(b, p));
}

/// Framing a concatenation whose left part holds a delimiter: the right
/// part is only carried along.
pub proof fn lemma_first_index_left<T>(a: Seq<T>, b: Seq<T>, p: T)
    requires
        has_delimiter(a, p),
    ensures
        first_index(a + b, p) == first_index(a, p),
        has_delimiter(a + b, p),
        head(a + b, p) == head(a, p),
        tail(a + b, p) == tail(a, p) + b,
{
    lemma_first_index(a, p);
    let i = first_index(a, p);
    let ab = a + b;
    assert forall|j: int| 0 <= j < i implies ab[j] != p by {
        assert(ab[j] == a[j]);
    }
    assert(ab[i] == a[i]);
    lemma_first_index_is(ab, p, i);
    assert(head(ab, p) =~= head(a, p));
    assert(tail(ab, p) =~= tail(a, p) + b);
}

/// Every sequence that is not empty frames into at least one record.
pub proof fn lemma_records_nonempty<T>(s: Seq<T>, p: T)
    requires
        s.len() > 0,
    ensures
        records(s, p).len() > 0,
        records(s, p)[0] == head(s, p),
{
}

/// Joining the records of a sequence with the delimiter gives the
/// sequence back, but for one delimiter at its very end.
pub proof fn lemma_join_records<T>(s: Seq<T>, p: T)
    ensures
        join(records(s, p), p) == if s.len() > 0 && s.last() == p {
            s.drop_last()
        } else {
            s
        },
    decreases s.len(),
{
    lemma_first_index(s, p);
    if s.len() > 0 {
        let h = head(s, p);
        let t = tail(s, p);
        let later = records(t, p);
        assert(records(s, p) == seq![h] + later);
        if !has_delimiter(s, p) {
            assert(later =~= Seq::<Seq<T>>::empty());
            assert(records(s, p) =~= seq![h]);
            assert(h =~= s);
        } else if t.len() == 0 {
            assert(later =~= Seq::<Seq<T>>::empty());
            assert(records(s, p) =~= seq![h]);
            assert(h =~= s.drop_last());
        } else {
            lemma_join_records(t, p);
            lemma_records_nonempty(t, p);
            assert(records(s, p).drop_first() =~= later);
            assert(t.last() == s.last());
            if t.last() == p {
                assert(h + seq![p] + t.drop_last() =~= s.drop_last());
            } else {
                assert(h + seq![p] + t =~= s);
            }
        }
    }
}

} // verus!
