//! What a read gives depends on the bytes that the source hands out, not on
//! how it cuts them into physical reads.

use crate::framing::{
    has_delimiter, head, lemma_first_index, lemma_first_index_concat, lemma_first_index_left,
    records, tail,
};
use crate::reader::{
    after_line, decoded, lemma_read_lowers_weight, next_line, pull_spec, read_spec,
    remaining_lines, weight, Event, Outcome, ReadError, Source, LINE_FEED,
};
use vstd::prelude::*;

verus! {

/// Whether no read of `script` says that the source is exhausted: each
/// gives at least one byte, was interrupted, or failed.
pub open spec fn steady(script: Seq<Event>) -> bool {
    forall|i: int|
        0 <= i < script.len() ==> match #[trigger] script[i] {
            Event::Bytes(chunk) => chunk.len() > 0,
            _ => true,
        }
}

/// Whether the reads of `script` do nothing but hand out bytes: each gives
/// at least one byte, or was interrupted.
pub open spec fn delivers(script: Seq<Event>) -> bool {
    forall|i: int|
        0 <= i < script.len() ==> match #[trigger] script[i] {
            Event::Bytes(chunk) => chunk.len() > 0,
            Event::Interrupted => true,
            Event::Failed => false,
        }
}

/// The bytes that one read hands out.
pub open spec fn given(event: Event) -> Seq<u8> {
    match event {
        Event::Bytes(chunk) => chunk,
        _ => Seq::empty(),
    }
}

/// The bytes that the reads of `script` hand out, all together.
pub open spec fn delivered(script: Seq<Event>) -> Seq<u8>
    decreases script.len(),
{
    if script.len() == 0 {
        Seq::empty()
    } else {
        given(script[0]) + delivered(script.drop_first())
    }
}

/// The bytes that a reader has yet to return: those it holds back, then
/// those that its source has yet to hand out.
pub open spec fn pending(source: Source) -> Seq<u8> {
    source.carry + delivered(source.script)
}

/// What a read up to `p` gives of the bytes yet to return: the text before
/// the first `p`, or all of it where there is no `p`; the end of the stream
/// where no byte is left.
pub open spec fn framed(bytes: Seq<u8>, p: u8) -> Outcome {
    if bytes.len() == 0 {
        Outcome::EndOfStream
    } else {
        decoded(head(bytes, p))
    }
}

/// The results of the first `n` reads up to `p`, in order.
pub open spec fn results(source: Source, p: u8, n: nat) -> Seq<Outcome>
    decreases n,
{
    if n == 0 {
        Seq::empty()
    } else {
        seq![read_spec(source, p).0] + results(read_spec(source, p).1, p, (n - 1) as nat)
    }
}

/// Whether `outcome` is the error of a source that failed.
pub open spec fn is_failure(outcome: Outcome) -> bool {
    outcome == Outcome::Error(ReadError::Io)
}

/// The tail of a script in which no read says that the source is exhausted
/// has no such read either, and hands out bytes only if the script did.
proof fn lemma_rest_of_script(script: Seq<Event>)
    requires
        script.len() > 0,
    ensures
        steady(script) ==> steady(script.drop_first()),
        delivers(script) ==> delivers(script.drop_first()),
{
    let rest = script.drop_first();
    if steady(script) {
        assert forall|i: int| 0 <= i < rest.len() implies match #[trigger] rest[i] {
            Event::Bytes(chunk) => chunk.len() > 0,
            _ => true,
        } by {
            assert(rest[i] == script[i + 1]);
        }
    }
    if delivers(script) {
        assert forall|i: int| 0 <= i < rest.len() implies match #[trigger] rest[i] {
            Event::Bytes(chunk) => chunk.len() > 0,
            Event::Interrupted => true,
            Event::Failed => false,
        } by {
            assert(rest[i] == script[i + 1]);
        }
    }
}

/// The reads after a `begin` that found no delimiter lose no byte. Where
/// the source fails before a delimiter comes, all the bytes held back and
/// handed out are yet to return after the read; else the read frames them.
pub proof fn lemma_pull_keeps_bytes(carry: Seq<u8>, script: Seq<Event>, p: u8)
    requires
        steady(script),
        !has_delimiter(carry, p),
    ensures
        steady(pull_spec(carry, script, p).1.script),
        is_failure(pull_spec(carry, script, p).0) ==> pending(pull_spec(carry, script, p).1)
            == carry + delivered(script),
        !is_failure(pull_spec(carry, script, p).0) ==> pull_spec(carry, script, p).0 == framed(
            carry + delivered(script),
            p,
        ) && pending(pull_spec(carry, script, p).1) == tail(carry + delivered(script), p),
        delivers(script) ==> !is_failure(pull_spec(carry, script, p).0) && delivers(
            pull_spec(carry, script, p).1.script,
        ),
    decreases script.len(),
{
    lemma_first_index(carry, p);
    let all = carry + delivered(script);
    if script.len() == 0 {
        assert(all =~= carry);
        assert(head(carry, p) =~= carry);
        assert(pending(pull_spec(carry, script, p).1) =~= tail(carry, p));
    } else {
        let rest = script.drop_first();
        lemma_rest_of_script(script);
        match script[0] {
            Event::Interrupted => {
                lemma_pull_keeps_bytes(carry, rest, p);
                assert(delivered(script) =~= delivered(rest));
            },
            Event::Failed => {
                assert(delivered(script) =~= delivered(rest));
            },
            Event::Bytes(chunk) => {
                assert(all =~= carry + (chunk + delivered(rest)));
                if has_delimiter(chunk, p) {
                    lemma_first_index_left(chunk, delivered(rest), p);
                    lemma_first_index_concat(carry, chunk + delivered(rest), p);
                    lemma_first_index_concat(carry, chunk, p);
                    assert(head(all, p) == carry + head(chunk, p));
                } else {
                    lemma_first_index_concat(carry, chunk, p);
                    lemma_pull_keeps_bytes(carry + chunk, rest, p);
                    assert(all =~= (carry + chunk) + delivered(rest));
                }
            },
        }
    }
}

/// A read loses no byte. Where the source fails before a delimiter comes,
/// the bytes yet to return are the same after the read as before it; else
/// the read frames them: its result is that of framing them, and what
/// follows the delimiter is yet to return after it.
pub proof fn lemma_read_keeps_bytes(source: Source, p: u8)
    requires
        steady(source.script),
    ensures
        steady(read_spec(source, p).1.script),
        is_failure(read_spec(source, p).0) ==> pending(read_spec(source, p).1) == pending(source),
        !is_failure(read_spec(source, p).0) ==> read_spec(source, p).0 == framed(
            pending(source),
            p,
        ) && pending(read_spec(source, p).1) == tail(pending(source), p),
        delivers(source.script) ==> !is_failure(read_spec(source, p).0) && delivers(
            read_spec(source, p).1.script,
        ),
{
    if has_delimiter(source.carry, p) {
        lemma_first_index_left(source.carry, delivered(source.script), p);
        lemma_first_index(source.carry, p);
    } else {
        lemma_pull_keeps_bytes(source.carry, source.script, p);
    }
}

/// The bytes that were held back and the bytes that were read before the
/// source failed are held back after the read that ended with the failure.
pub proof fn lemma_failed_read_holds_back(
    carry: Seq<u8>,
    chunk: Seq<u8>,
    rest: Seq<Event>,
    p: u8,
)
    requires
        !has_delimiter(carry, p),
        !has_delimiter(chunk, p),
        chunk.len() > 0,
    ensures
        read_spec(Source { carry, script: seq![Event::Bytes(chunk), Event::Failed] + rest }, p)
            == (Outcome::Error(ReadError::Io), Source { carry: carry + chunk, script: rest }),
{
    let script = seq![Event::Bytes(chunk), Event::Failed] + rest;
    let later = script.drop_first();
    assert(later.drop_first() =~= rest);
    assert(pull_spec(carry + chunk, later, p) == (
        Outcome::Error(ReadError::Io),
        Source { carry: carry + chunk, script: rest },
    ));
}

/// A read from a source that does not fail frames the bytes yet to return:
/// its result is that of framing them, and what follows the delimiter is
/// yet to return after it.
pub proof fn lemma_read_frames(source: Source, p: u8)
    requires
        delivers(source.script),
    ensures
        read_spec(source, p).0 == framed(pending(source), p),
        pending(read_spec(source, p).1) == tail(pending(source), p),
        delivers(read_spec(source, p).1.script),
{
    lemma_read_keeps_bytes(source, p);
}

/// Two sources that hand out the same bytes give the same results, read
/// after read, however each of them cuts the bytes into physical reads.
pub proof fn lemma_chunking_invariance(a: Source, b: Source, p: u8, n: nat)
    requires
        delivers(a.script),
        delivers(b.script),
        pending(a) == pending(b),
    ensures
        results(a, p, n) == results(b, p, n),
    decreases n,
{
    if n > 0 {
        lemma_read_frames(a, p);
        lemma_read_frames(b, p);
        lemma_chunking_invariance(read_spec(a, p).1, read_spec(b, p).1, p, (n - 1) as nat);
    }
}

/// `results` has one result for each read.
pub proof fn lemma_results_len(source: Source, p: u8, n: nat)
    ensures
        results(source, p, n).len() == n,
    decreases n,
{
    if n > 0 {
        lemma_results_len(read_spec(source, p).1, p, (n - 1) as nat);
    }
}

/// Read after read gives the records of the bytes yet to return, each as
/// text, and after the last of them the end of the stream, again and again.
pub proof fn lemma_results_are_records(source: Source, p: u8, n: nat, i: int)
    requires
        delivers(source.script),
        0 <= i < n,
    ensures
        results(source, p, n)[i] == if i < records(pending(source), p).len() {
            decoded(records(pending(source), p)[i])
        } else {
            Outcome::EndOfStream
        },
    decreases n,
{
    lemma_read_frames(source, p);
    lemma_first_index(pending(source), p);
    let next = read_spec(source, p).1;
    let bytes = pending(source);
    let later = results(next, p, (n - 1) as nat);
    lemma_results_len(next, p, (n - 1) as nat);
    assert(results(source, p, n) == seq![read_spec(source, p).0] + later);
    if i > 0 {
        lemma_results_are_records(next, p, (n - 1) as nat, i - 1);
        assert(results(source, p, n)[i] == later[i - 1]);
        if bytes.len() == 0 {
            assert(pending(next).len() == 0);
        } else {
            assert(records(bytes, p) == seq![head(bytes, p)] + records(tail(bytes, p), p));
            if i - 1 < records(tail(bytes, p), p).len() {
                assert(records(bytes, p)[i] == records(tail(bytes, p), p)[i - 1]);
            }
        }
    } else {
        if bytes.len() > 0 {
            assert(records(bytes, p) == seq![head(bytes, p)] + records(tail(bytes, p), p));
            assert(records(bytes, p)[0] == head(bytes, p));
        }
    }
}

/// Two sources that hand out the same bytes give the same lines, however
/// each of them cuts the bytes into physical reads.
pub proof fn lemma_lines_chunking_invariance(a: Source, b: Source)
    requires
        delivers(a.script),
        delivers(b.script),
        pending(a) == pending(b),
    ensures
        remaining_lines(a) == remaining_lines(b),
    decreases weight(a),
{
    lemma_read_frames(a, LINE_FEED);
    lemma_read_frames(b, LINE_FEED);
    lemma_read_lowers_weight(a, LINE_FEED);
    if next_line(a) is Some {
        lemma_lines_chunking_invariance(after_line(a), after_line(b));
    }
}

} // verus!
