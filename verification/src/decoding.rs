//! Framing and decoding agree: framing valid UTF-8 at a delimiter that is
//! one byte long and decoding the parts gives what decoding the whole and
//! framing the text at that character gives. So the lines of a source are
//! the lines of its text.

use crate::chunking::{delivers, lemma_read_frames, pending};
use crate::framing::{
    first_index, has_delimiter, head, join, lemma_first_index, lemma_first_index_is,
    lemma_join_records, records, tail,
};
use crate::reader::{
    after_line, lemma_read_lowers_weight, remaining_lines, weight, Source, LINE_FEED,
};
use crate::text::strip_last;
use vstd::prelude::*;
use vstd::utf8::{
    char_u32_cast, decode_first_scalar, decode_utf8, decode_utf8_first_scalar, encode_scalar,
    length_of_first_scalar, pop_first_scalar, take_first_scalar, valid_utf8,
};

verus! {

/// Whether the byte `p` is the whole encoding of the character `c`.
pub open spec fn encodes(p: u8, c: char) -> bool {
    p < 0x80 && c as u32 == p as u32
}

/// The first character of valid UTF-8 is the delimiter exactly where the
/// first byte is, and no byte of a scalar that is not the delimiter is the
/// delimiter's byte.
proof fn lemma_first_scalar(bytes: Seq<u8>, p: u8, c: char)
    requires
        valid_utf8(bytes),
        bytes.len() > 0,
        encodes(p, c),
    ensures
        1 <= length_of_first_scalar(bytes) <= bytes.len(),
        (decode_first_scalar(bytes) as char == c) == (bytes[0] == p),
        bytes[0] == p ==> length_of_first_scalar(bytes) == 1,
        forall|j: int| 1 <= j < length_of_first_scalar(bytes) ==> bytes[j] != p,
{
    let b = bytes[0];
    assert(b <= 0x7f ==> b & 0x7f == b) by (bit_vector);
    let u = decode_first_scalar(bytes);
    if b == p {
        char_u32_cast(c, u);
    } else if u as char == c {
        let v = p as u32;
        assert(v <= 0x7f ==> (v & 0x7f) as u8 == v) by (bit_vector);
        decode_utf8_first_scalar(bytes);
        assert(take_first_scalar(bytes)[0] == b);
        assert(encode_scalar(c as u32) =~= seq![p]);
    }
}

/// Framing valid UTF-8 at a one-byte delimiter gives valid UTF-8 on both
/// sides, and the parts decode to the parts of the decoded text.
pub proof fn lemma_decode_frames(bytes: Seq<u8>, p: u8, c: char)
    requires
        valid_utf8(bytes),
        encodes(p, c),
    ensures
        has_delimiter(decode_utf8(bytes), c) == has_delimiter(bytes, p),
        valid_utf8(head(bytes, p)),
        valid_utf8(tail(bytes, p)),
        decode_utf8(head(bytes, p)) == head(decode_utf8(bytes), c),
        decode_utf8(tail(bytes, p)) == tail(decode_utf8(bytes), c),
        bytes.len() > 0 ==> decode_utf8(bytes).len() > 0,
    decreases bytes.len(),
{
    let text = decode_utf8(bytes);
    if bytes.len() == 0 {
        assert(head(bytes, p) =~= bytes);
        assert(head(text, c) =~= text);
    } else {
        let width = length_of_first_scalar(bytes);
        let rest = pop_first_scalar(bytes);
        let first = decode_first_scalar(bytes) as char;
        let later = decode_utf8(rest);
        lemma_first_scalar(bytes, p, c);
        assert(text == seq![first] + later);
        assert(text.drop_first() =~= later);
        lemma_first_index(rest, p);
        lemma_first_index(later, c);
        if bytes[0] == p {
            lemma_first_index_is(bytes, p, 0);
            assert(head(bytes, p) =~= Seq::<u8>::empty());
            assert(head(text, c) =~= Seq::<char>::empty());
            assert(tail(bytes, p) =~= rest);
            assert(tail(text, c) =~= later);
        } else {
            lemma_decode_frames(rest, p, c);
            let at = width + first_index(rest, p);
            assert forall|j: int| 0 <= j < at implies bytes[j] != p by {
                if j >= width {
                    assert(bytes[j] == rest[j - width]);
                }
            }
            if at < bytes.len() {
                assert(bytes[at] == rest[first_index(rest, p)]);
            }
            lemma_first_index_is(bytes, p, at);
            assert(first_index(text, c) == 1 + first_index(later, c));
            let front = head(bytes, p);
            assert(front.len() >= width);
            assert(length_of_first_scalar(front) == width);
            assert(pop_first_scalar(front) =~= head(rest, p));
            assert(decode_first_scalar(front) == decode_first_scalar(bytes));
            assert(valid_utf8(front));
            assert(decode_utf8(front) == seq![first] + decode_utf8(head(rest, p)));
            assert(decode_utf8(front) =~= head(text, c));
            assert(tail(bytes, p) =~= tail(rest, p));
            assert(tail(text, c) =~= tail(later, c));
        }
    }
}

/// The records of a text without the carriage return that ends them.
pub open spec fn lines_of(text: Seq<char>) -> Seq<Seq<char>> {
    records(text, '\n').map_values(|record: Seq<char>| strip_last(record, '\r'))
}

/// The lines that are read from a source which hands out valid UTF-8 are
/// the lines of its text: the records that the line feeds frame, each
/// without one carriage return at its end.
pub proof fn lemma_lines_of_source(source: Source)
    requires
        delivers(source.script),
        valid_utf8(pending(source)),
    ensures
        remaining_lines(source) == lines_of(decode_utf8(pending(source))),
    decreases weight(source),
{
    let bytes = pending(source);
    let text = decode_utf8(bytes);
    lemma_read_frames(source, LINE_FEED);
    lemma_read_lowers_weight(source, LINE_FEED);
    lemma_decode_frames(bytes, LINE_FEED, '\n');
    lemma_first_index(text, '\n');
    if bytes.len() == 0 {
        assert(lines_of(text) =~= Seq::<Seq<char>>::empty());
    } else {
        let record = head(text, '\n');
        assert(strip_last(record, '\n') == record);
        lemma_lines_of_source(after_line(source));
        let later = records(tail(text, '\n'), '\n');
        assert(records(text, '\n') == seq![record] + later);
        assert(lines_of(text) =~= seq![strip_last(record, '\r')] + lines_of(tail(text, '\n')));
    }
}

/// Reading a source line by line loses nothing but line endings: each line
/// is a record of the source's text, without one carriage return at its end
/// where it had one, and the records joined with line feeds are the text,
/// without one line feed at its end where it had one.
pub proof fn lemma_lines_round_trip(source: Source)
    requires
        delivers(source.script),
        valid_utf8(pending(source)),
    ensures
        remaining_lines(source).len() == records(decode_utf8(pending(source)), '\n').len(),
        forall|i: int|
            0 <= i < remaining_lines(source).len() ==> #[trigger] remaining_lines(source)[i]
                == strip_last(records(decode_utf8(pending(source)), '\n')[i], '\r'),
        join(records(decode_utf8(pending(source)), '\n'), '\n') == strip_last(
            decode_utf8(pending(source)),
            '\n',
        ),
{
    lemma_lines_of_source(source);
    lemma_join_records(decode_utf8(pending(source)), '\n');
}

} // verus!
