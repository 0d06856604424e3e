//! Reading up to a delimiter from a byte source that hands its bytes out in
//! chunks. `Scanner` keeps the bytes that were read but not yet returned and
//! decides, read by read, what happens next; `BadInput` runs it over a source
//! held in memory.

use crate::framing::{
    first_index, has_delimiter, head, lemma_first_index, lemma_first_index_is, tail,
};
use crate::input_string::{texts, InputString};
use crate::text::{line_of, strip_line};
use crate::trusted::string_from_utf8;
use vstd::prelude::*;
use vstd::utf8::{decode_utf8, valid_utf8};

verus! {

/// What one physical read of the source came back with.
#[derive(Debug, PartialEq, Eq)]
pub enum ReadEvent {
    /// The bytes that the read produced. None at all means that the source
    /// is exhausted.
    Bytes(Vec<u8>),
    /// The read was interrupted before it produced anything; it is to be
    /// tried again.
    Interrupted,
    /// The read failed for good.
    Failed,
}

/// A `ReadEvent` as a mathematical value.
pub enum Event {
    /// The bytes that the read produced; none at all at the end of the
    /// source.
    Bytes(Seq<u8>),
    /// The read was interrupted.
    Interrupted,
    /// The read failed for good.
    Failed,
}

impl View for ReadEvent {
    type V = Event;

    open spec fn view(&self) -> Event {
        match self {
            ReadEvent::Bytes(chunk) => Event::Bytes(chunk@),
            ReadEvent::Interrupted => Event::Interrupted,
            ReadEvent::Failed => Event::Failed,
        }
    }
}

/// Why a read up to a delimiter gave no text.
#[derive(Debug, Clone, Copy, PartialEq, Eq, Structural)]
pub enum ReadError {
    /// The bytes before the delimiter are not valid UTF-8.
    InvalidEncoding,
    /// The source failed. What was read before the failure is kept for the
    /// reads that follow.
    Io,
}

/// How a read up to a delimiter ended.
#[derive(Debug, PartialEq, Eq)]
pub enum ReadResult {
    /// The text before the delimiter, or before the end of the source.
    Found(String),
    /// The source is exhausted and nothing was left to return.
    EndOfStream,
    /// The read gave no text, for this reason.
    Error(ReadError),
}

/// A `ReadResult` as a mathematical value.
pub enum Outcome {
    /// The characters of the text that was found.
    Found(Seq<char>),
    /// The source is exhausted and nothing was left to return.
    EndOfStream,
    /// The read gave no text, for this reason.
    Error(ReadError),
}

impl View for ReadResult {
    type V = Outcome;

    open spec fn view(&self) -> Outcome {
        match self {
            ReadResult::Found(text) => Outcome::Found(text@),
            ReadResult::EndOfStream => Outcome::EndOfStream,
            ReadResult::Error(e) => Outcome::Error(*e),
        }
    }
}

/// What the scanner asks for after a step.
#[derive(Debug, PartialEq, Eq)]
pub enum Step {
    /// The read is over, with this result.
    Done(ReadResult),
    /// No delimiter yet: the source is to be read once more, and what it
    /// gives handed to `Scanner::accept`.
    NeedRead,
}

impl View for Step {
    type V = Option<Outcome>;

    open spec fn view(&self) -> Option<Outcome> {
        match self {
            Step::Done(result) => Some(result@),
            Step::NeedRead => None,
        }
    }
}

/// The assembled bytes as text: they are checked once, as a whole.
pub open spec fn decoded(bytes: Seq<u8>) -> Outcome {
    if valid_utf8(bytes) {
        Outcome::Found(decode_utf8(bytes))
    } else {
        Outcome::Error(ReadError::InvalidEncoding)
    }
}

/// What an exhausted source leaves to return: the bytes held back, once, if
/// there are any.
pub open spec fn flushed(carry: Seq<u8>) -> Outcome {
    if carry.len() > 0 {
        decoded(carry)
    } else {
        Outcome::EndOfStream
    }
}

/// The first step of a read: the delimiter is looked for in the bytes held
/// back. The result is the step and the bytes held back after it.
pub open spec fn begin_spec(carry: Seq<u8>, p: u8) -> (Option<Outcome>, Seq<u8>) {
    if has_delimiter(carry, p) {
        (Some(decoded(head(carry, p))), tail(carry, p))
    } else {
        (None, carry)
    }
}

/// A later step of a read: what one physical read gave is taken in. The
/// result is the step and the bytes held back after it. A read that failed
/// ends the read with an error and takes nothing away: the bytes held back
/// stay for the reads that follow.
pub open spec fn accept_spec(carry: Seq<u8>, event: Event, p: u8) -> (Option<Outcome>, Seq<u8>) {
    match event {
        Event::Interrupted => (None, carry),
        Event::Failed => (Some(Outcome::Error(ReadError::Io)), carry),
        Event::Bytes(chunk) => if chunk.len() == 0 {
            (Some(flushed(carry)), Seq::empty())
        } else if has_delimiter(chunk, p) {
            (Some(decoded(carry + head(chunk, p))), tail(chunk, p))
        } else {
            (None, carry + chunk)
        },
    }
}

/// The position of the first `p` in `s`, or its length.
fn find_byte(s: &[u8], p: u8) -> (i: usize)
    ensures
        i == first_index(s@, p),
{
    let mut i: usize = 0;
    while i < s.len() && s[i] != p
        invariant
            0 <= i <= s.len(),
            forall|j: int| 0 <= j < i ==> s@[j] != p,
        decreases s.len() - i,
    {
        i += 1;
    }
    proof {
        lemma_first_index_is(s@, p, i as int);
    }
    i
}

/// The assembled bytes as a result: text, or the encoding error.
fn deliver(bytes: Vec<u8>) -> (r: ReadResult)
    ensures
        r@ == decoded(bytes@),
{
    match string_from_utf8(bytes) {
        Ok(text) => ReadResult::Found(text),
        Err(_) => ReadResult::Error(ReadError::InvalidEncoding),
    }
}

/// The line that a read up to a line feed gave, if it gave text.
pub fn into_line(result: ReadResult) -> (r: Option<InputString>)
    ensures
        match r {
            Some(line) => line_in(result@) == Some(line@),
            None => line_in(result@) is None,
        },
{
    match result {
        ReadResult::Found(text) => Some(InputString::from(strip_line(text.as_str()))),
        _ => None,
    }
}

/// The bytes that were read from the source and not yet returned.
#[derive(Debug)]
pub struct Scanner {
    carry: Vec<u8>,
}

impl View for Scanner {
    type V = Seq<u8>;

    closed spec fn view(&self) -> Seq<u8> {
        self.carry@
    }
}

impl Scanner {
    /// A scanner that holds nothing back.
    pub fn new() -> (r: Self)
        ensures
            r@ == Seq::<u8>::empty(),
    {
        Scanner { carry: Vec::new() }
    }

    /// Starts a read up to `p`: where the bytes held back contain `p`, the
    /// read is over at once and no byte is asked of the source.
    pub fn begin(&mut self, p: u8) -> (step: Step)
        ensures
            (step@, final(self)@) == begin_spec(old(self)@, p),
    {
        let i: usize = find_byte(self.carry.as_slice(), p);
        proof {
            lemma_first_index(self.carry@, p);
        }
        if i < self.carry.len() {
            let rest = self.carry.split_off(i + 1);
            self.carry.truncate(i);
            let mut line = rest;
            std::mem::swap(&mut line, &mut self.carry);
            assert(line@ =~= head(old(self)@, p));
            Step::Done(deliver(line))
        } else {
            Step::NeedRead
        }
    }

    /// Takes in what one physical read gave, during a read up to `p` that
    /// `begin` could not finish. A read that failed ends the read up to `p`
    /// with an error; the bytes held back stay where they are.
    pub fn accept(&mut self, p: u8, event: &ReadEvent) -> (step: Step)
        ensures
            (step@, final(self)@) == accept_spec(old(self)@, event@, p),
    {
        match event {
            ReadEvent::Interrupted => Step::NeedRead,
            ReadEvent::Failed => Step::Done(ReadResult::Error(ReadError::Io)),
            ReadEvent::Bytes(chunk) => {
                let n: usize = chunk.len();
                if n == 0 {
                    let mut line: Vec<u8> = Vec::new();
                    std::mem::swap(&mut line, &mut self.carry);
                    if line.len() > 0 {
                        Step::Done(deliver(line))
                    } else {
                        Step::Done(ReadResult::EndOfStream)
                    }
                } else {
                    let i: usize = find_byte(chunk.as_slice(), p);
                    proof {
                        lemma_first_index(chunk@, p);
                    }
                    if i < n {
                        let mut line: Vec<u8> = Vec::new();
                        std::mem::swap(&mut line, &mut self.carry);
                        line.extend_from_slice(vstd::slice::slice_subrange(chunk.as_slice(), 0, i));
                        self.carry.extend_from_slice(
                            vstd::slice::slice_subrange(chunk.as_slice(), i + 1, n),
                        );
                        assert(line@ =~= old(self)@ + head(chunk@, p));
                        assert(self.carry@ =~= tail(chunk@, p));
                        Step::Done(deliver(line))
                    } else {
                        self.carry.extend_from_slice(chunk.as_slice());
                        assert(self.carry@ =~= old(self)@ + chunk@);
                        Step::NeedRead
                    }
                }
            },
        }
    }
}

/// A reader's state as a mathematical value.
pub struct Source {
    /// The bytes that were read and not yet returned.
    pub carry: Seq<u8>,
    /// What the physical reads still to come will give, in order. After the
    /// last of them the source is exhausted.
    pub script: Seq<Event>,
}

/// The reads that follow a `begin` which found no delimiter: one physical
/// read after the other is taken in until one of them ends the read. The
/// result is how the read ended and the state it left.
pub open spec fn pull_spec(carry: Seq<u8>, script: Seq<Event>, p: u8) -> (Outcome, Source)
    decreases script.len(),
{
    if script.len() == 0 {
        (flushed(carry), Source { carry: Seq::empty(), script })
    } else {
        let (step, carry_after) = accept_spec(carry, script[0], p);
        match step {
            Some(outcome) => (outcome, Source { carry: carry_after, script: script.drop_first() }),
            None => pull_spec(carry_after, script.drop_first(), p),
        }
    }
}

/// A whole read up to `p`: how it ends and the state it leaves.
pub open spec fn read_spec(source: Source, p: u8) -> (Outcome, Source) {
    let (step, carry_after) = begin_spec(source.carry, p);
    match step {
        Some(outcome) => (outcome, Source { carry: carry_after, script: source.script }),
        None => pull_spec(carry_after, source.script, p),
    }
}

/// The byte that ends a line.
pub const LINE_FEED: u8 = 10;

/// The line that a read up to a line feed gave, if it gave text: the text
/// without its line ending. A read that met the end of the stream, a source
/// that failed and text that is not valid UTF-8 all give no line.
pub open spec fn line_in(outcome: Outcome) -> Option<Seq<char>> {
    match outcome {
        Outcome::Found(text) => Some(line_of(text)),
        _ => None,
    }
}

/// The line that the next read gives, if it gives one.
pub open spec fn next_line(source: Source) -> Option<Seq<char>> {
    line_in(read_spec(source, LINE_FEED).0)
}

/// The state that reading one line leaves.
pub open spec fn after_line(source: Source) -> Source {
    read_spec(source, LINE_FEED).1
}

/// The number of bytes that the reads of `script` give, all together.
pub open spec fn script_bytes(script: Seq<Event>) -> nat
    decreases script.len(),
{
    if script.len() == 0 {
        0
    } else {
        script_bytes(script.drop_first()) + match script[0] {
            Event::Bytes(chunk) => chunk.len(),
            _ => 0,
        }
    }
}

/// A bound on the reads that a state still has in it: every read that
/// gives text lowers it.
pub open spec fn weight(source: Source) -> nat {
    source.carry.len() + script_bytes(source.script) + source.script.len()
}

/// The lines that are read until a read gives none, in order.
pub open spec fn remaining_lines(source: Source) -> Seq<Seq<char>>
    decreases weight(source),
    via remaining_lines_decreases
{
    match next_line(source) {
        Some(line) => seq![line] + remaining_lines(after_line(source)),
        None => Seq::empty(),
    }
}

#[via_fn]
proof fn remaining_lines_decreases(source: Source) {
    lemma_read_lowers_weight(source, LINE_FEED);
}

/// The state that is left when the lines have been read until a read gave
/// none.
pub open spec fn after_lines(source: Source) -> Source
    decreases weight(source),
    via after_lines_decreases
{
    match next_line(source) {
        Some(line) => after_lines(after_line(source)),
        None => after_line(source),
    }
}

#[via_fn]
proof fn after_lines_decreases(source: Source) {
    lemma_read_lowers_weight(source, LINE_FEED);
}

/// What the reads after `begin` leave weighs no more than the bytes held
/// back and the script did together, and less where a physical read was
/// used up or text was returned.
pub proof fn lemma_pull_lowers_weight(carry: Seq<u8>, script: Seq<Event>, p: u8)
    ensures
        weight(pull_spec(carry, script, p).1) <= weight(Source { carry, script }),
        script.len() > 0 || pull_spec(carry, script, p).0 is Found ==> weight(
            pull_spec(carry, script, p).1,
        ) < weight(Source { carry, script }),
    decreases script.len(),
{
    if script.len() > 0 {
        let (step, carry_after) = accept_spec(carry, script[0], p);
        match script[0] {
            Event::Bytes(chunk) => {
                lemma_first_index(chunk, p);
            },
            _ => {},
        }
        if step is None {
            lemma_pull_lowers_weight(carry_after, script.drop_first(), p);
        }
    } else {
        assert(script_bytes(script) == 0);
    }
}

/// A read that gives text leaves a state that weighs less.
pub proof fn lemma_read_lowers_weight(source: Source, p: u8)
    ensures
        read_spec(source, p).0 is Found ==> weight(read_spec(source, p).1) < weight(source),
        weight(read_spec(source, p).1) <= weight(source),
{
    lemma_first_index(source.carry, p);
    if !has_delimiter(source.carry, p) {
        lemma_pull_lowers_weight(source.carry, source.script, p);
    }
}

/// A reader over a source held in memory: the source is the list of what
/// its physical reads will give, in order.
#[derive(Debug)]
pub struct BadInput {
    events: Vec<ReadEvent>,
    next: usize,
    scanner: Scanner,
}

impl View for BadInput {
    type V = Source;

    closed spec fn view(&self) -> Source {
        Source {
            carry: self.scanner@,
            script: Seq::new(
                if self.next <= self.events.len() {
                    (self.events.len() - self.next) as nat
                } else {
                    0
                },
                |i: int| self.events[self.next + i]@,
            ),
        }
    }
}

impl BadInput {
    /// A reader over the source whose physical reads give `events`, one
    /// after the other, and which is exhausted after the last.
    pub fn new(events: Vec<ReadEvent>) -> (r: Self)
        ensures
            r@.carry == Seq::<u8>::empty(),
            r@.script == events@.map_values(|e: ReadEvent| e@),
    {
        let r = BadInput { events, next: 0, scanner: Scanner::new() };
        assert(r@.script =~= events@.map_values(|e: ReadEvent| e@));
        r
    }

    /// A reader over a source that gives `bytes` in one physical read.
    pub fn from_bytes(bytes: Vec<u8>) -> (r: Self)
        ensures
            r@.carry == Seq::<u8>::empty(),
            r@.script == seq![Event::Bytes(bytes@)],
    {
        let mut events: Vec<ReadEvent> = Vec::new();
        events.push(ReadEvent::Bytes(bytes));
        let r = BadInput { events, next: 0, scanner: Scanner::new() };
        assert(r@.script =~= seq![Event::Bytes(bytes@)]);
        r
    }

    /// Reads up to the next `p`, or to the end of the source.
    pub fn read_until(&mut self, p: u8) -> (r: ReadResult)
        ensures
            (r@, final(self)@) == read_spec(old(self)@, p),
    {
        let mut step = self.scanner.begin(p);
        loop
            invariant
                self.events == old(self).events,
                match step@ {
                    Some(outcome) => (outcome, self@) == read_spec(old(self)@, p),
                    None => pull_spec(self@.carry, self@.script, p) == read_spec(old(self)@, p),
                },
            decreases self@.script.len() + (if step@ is None { 1nat } else { 0nat }),
        {
            match step {
                Step::Done(result) => {
                    return result;
                },
                Step::NeedRead => {},
            }
            let ghost before = self@;
            if self.next < self.events.len() {
                step = self.scanner.accept(p, &self.events[self.next]);
                self.next += 1;
                assert(self@.script =~= before.script.drop_first());
            } else {
                step = self.scanner.accept(p, &ReadEvent::Bytes(Vec::new()));
                assert(self@.script =~= before.script);
            }
        }
    }

    /// Reads the next line, if the source has one: `None` at the end of the
    /// source, and also where the source failed or the line is not valid
    /// UTF-8. After a failure the bytes that were read are still there, and
    /// the next read goes on from them.
    pub fn try_line(&mut self) -> (r: Option<InputString>)
        ensures
            final(self)@ == after_line(old(self)@),
            match r {
                Some(line) => next_line(old(self)@) == Some(line@),
                None => next_line(old(self)@) is None,
            },
    {
        into_line(self.read_until(LINE_FEED))
    }

    /// Reads the next line of a source that has one.
    pub fn line(&mut self) -> (r: InputString)
        requires
            next_line(old(self)@) is Some,
        ensures
            final(self)@ == after_line(old(self)@),
            next_line(old(self)@) == Some(r@),
    {
        self.try_line().unwrap()
    }

    /// The lines of the reader, to be pulled one at a time.
    pub fn lines<'a>(&'a mut self) -> (r: Lines<'a>)
        ensures
            r.source() == old(self)@,
            *final(self) == *final(r.input),
    {
        Lines { input: self }
    }

    /// Reads lines until a read gives none, and returns them in order.
    pub fn drain_lines(&mut self) -> (r: Vec<InputString>)
        ensures
            final(self)@ == after_lines(old(self)@),
            texts(r@) == remaining_lines(old(self)@),
    {
        let mut out: Vec<InputString> = Vec::new();
        loop
            invariant
                texts(out@) + remaining_lines(self@)
                    == remaining_lines(old(self)@),
                after_lines(self@) == after_lines(old(self)@),
            decreases weight(self@),
        {
            let ghost before = self@;
            let ghost lines_before = texts(out@);
            proof {
                lemma_read_lowers_weight(before, LINE_FEED);
            }
            match self.try_line() {
                Some(line) => {
                    out.push(line);
                    assert(texts(out@) =~= lines_before.push(line@));
                    assert(lines_before.push(line@) + remaining_lines(self@) =~= lines_before
                        + remaining_lines(before));
                },
                None => {
                    assert(remaining_lines(before) =~= Seq::<Seq<char>>::empty());
                    assert(lines_before + remaining_lines(before) =~= lines_before);
                    return out;
                },
            }
        }
    }
}

/// The lines of a reader, pulled one at a time. The reader is borrowed for
/// as long as this value lives, and each line that is pulled leaves the
/// reader; the lines that are not pulled stay in it.
pub struct Lines<'a> {
    pub input: &'a mut BadInput,
}

impl<'a> Lines<'a> {
    /// The state of the reader that the lines are pulled from.
    pub open spec fn source(&self) -> Source {
        self.input@
    }

    /// Pulls the next line, if the source has one.
    pub fn next(&mut self) -> (r: Option<InputString>)
        ensures
            final(self).source() == after_line(old(self).source()),
            *final(final(self).input) == *final(old(self).input),
            match r {
                Some(line) => next_line(old(self).source()) == Some(line@),
                None => next_line(old(self).source()) is None,
            },
    {
        self.input.try_line()
    }

    /// Pulls lines until a read gives none, and returns them in order.
    pub fn collect(self) -> (r: Vec<InputString>)
        ensures
            texts(r@) == remaining_lines(self.source()),
            (*final(self.input))@ == after_lines(self.source()),
    {
        self.input.drain_lines()
    }
}

} // verus!
