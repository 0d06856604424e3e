use bad_input::{BadInput, InputString, ReadError, ReadEvent, ReadResult, Scanner, Step};

fn whole(text: &str) -> BadInput {
    BadInput::new(vec![ReadEvent::Bytes(text.as_bytes().to_vec())])
}

fn byte_by_byte(text: &str) -> BadInput {
    let mut events = Vec::new();
    for b in text.as_bytes() {
        events.push(ReadEvent::Bytes(vec![*b]));
    }
    BadInput::new(events)
}

fn all_lines(input: &mut BadInput) -> Vec<String> {
    let mut out = Vec::new();
    while let Some(line) = input.try_line() {
        out.push(line.into_string());
    }
    out
}

#[test]
fn two_lines_without_a_final_line_feed() {
    let mut input = whole("Hello, world!\nGood bye!");
    assert_eq!(input.line(), "Hello, world!");
    assert_eq!(input.line(), "Good bye!");
}

#[test]
fn an_unterminated_last_line_is_delivered_once() {
    let mut input = whole("a\nb\nc");
    assert_eq!(input.try_line(), Some(InputString::from("a")));
    assert_eq!(input.try_line(), Some(InputString::from("b")));
    assert_eq!(input.try_line(), Some(InputString::from("c")));
    assert_eq!(input.try_line(), None);
    assert_eq!(input.try_line(), None);
}

#[test]
fn two_lines_then_none() {
    let mut input = whole("Two\nlines");
    assert_eq!(input.try_line(), Some("Two".into()));
    assert_eq!(input.try_line(), Some("lines".into()));
    assert_eq!(input.try_line(), None);
}

#[test]
fn line_reads_what_is_going_on() {
    let mut input = whole("What is\ngoing on!?");
    assert_eq!(input.line(), "What is");
    assert_eq!(input.line(), "going on!?");
}

#[test]
fn a_final_line_feed_adds_no_empty_line() {
    let mut input = whole("a\nb\n");
    assert_eq!(all_lines(&mut input), vec!["a", "b"]);
}

#[test]
fn empty_lines_are_lines() {
    let mut input = whole("\n\nx\n\n");
    assert_eq!(all_lines(&mut input), vec!["", "", "x", ""]);
}

#[test]
fn an_empty_source_has_no_line() {
    let mut input = BadInput::new(Vec::new());
    assert_eq!(input.try_line(), None);
    assert_eq!(input.read_until(b'\n'), ReadResult::EndOfStream);
    let mut input = whole("");
    assert_eq!(input.try_line(), None);
}

#[test]
fn an_exhausted_source_stays_at_the_end_of_the_stream() {
    let mut input = whole("x");
    assert_eq!(input.read_until(b'\n'), ReadResult::Found("x".to_string()));
    assert_eq!(input.read_until(b'\n'), ReadResult::EndOfStream);
    assert_eq!(input.read_until(b'\n'), ReadResult::EndOfStream);
    assert_eq!(input.read_until(b'x'), ReadResult::EndOfStream);
}

#[test]
fn chunking_does_not_change_the_lines() {
    let text = "Very,8;fancy\n\nstring,11\r\nlast";
    let expected = vec!["Very,8;fancy", "", "string,11", "last"];
    assert_eq!(all_lines(&mut whole(text)), expected);
    assert_eq!(all_lines(&mut byte_by_byte(text)), expected);
    let mut uneven = BadInput::new(vec![
        ReadEvent::Bytes(b"Very,8;fan".to_vec()),
        ReadEvent::Interrupted,
        ReadEvent::Bytes(b"cy\n\nstring,".to_vec()),
        ReadEvent::Bytes(b"11\r".to_vec()),
        ReadEvent::Interrupted,
        ReadEvent::Interrupted,
        ReadEvent::Bytes(b"\nlast".to_vec()),
    ]);
    assert_eq!(all_lines(&mut uneven), expected);
}

#[test]
fn chunking_does_not_change_the_results_of_read_until() {
    let text = "a;bc;;d";
    let mut one = whole(text);
    let mut two = byte_by_byte(text);
    for expected in ["a", "bc", "", "d"] {
        assert_eq!(one.read_until(b';'), ReadResult::Found(expected.to_string()));
        assert_eq!(two.read_until(b';'), ReadResult::Found(expected.to_string()));
    }
    assert_eq!(one.read_until(b';'), ReadResult::EndOfStream);
    assert_eq!(two.read_until(b';'), ReadResult::EndOfStream);
}

#[test]
fn several_delimiters_in_one_read_are_kept_for_later() {
    let mut input = whole("1\n2\n3\n");
    assert_eq!(input.line(), "1");
    assert_eq!(input.line(), "2");
    assert_eq!(input.line(), "3");
    assert_eq!(input.try_line(), None);
}

#[test]
fn the_delimiter_may_change_between_reads() {
    let mut input = whole("a,b\nc,d");
    assert_eq!(input.read_until(b','), ReadResult::Found("a".to_string()));
    assert_eq!(input.read_until(b'\n'), ReadResult::Found("b".to_string()));
    assert_eq!(input.read_until(b'\n'), ReadResult::Found("c,d".to_string()));
    assert_eq!(input.read_until(b','), ReadResult::EndOfStream);
}

#[test]
fn a_carriage_return_before_the_line_feed_is_stripped() {
    let mut input = whole("one\r\ntwo\r\nthree\r");
    assert_eq!(input.line(), "one");
    assert_eq!(input.line(), "two");
    assert_eq!(input.line(), "three");
    assert_eq!(input.try_line(), None);
}

#[test]
fn only_one_carriage_return_is_stripped() {
    let mut input = whole("one\r\r\n\r\n");
    assert_eq!(input.line(), "one\r");
    assert_eq!(input.line(), "");
    assert_eq!(input.try_line(), None);
}

#[test]
fn read_until_keeps_the_carriage_return() {
    let mut input = whole("one\r\ntwo");
    assert_eq!(input.read_until(b'\n'), ReadResult::Found("one\r".to_string()));
}

#[test]
fn an_interrupted_read_is_tried_again() {
    let mut input = BadInput::new(vec![
        ReadEvent::Interrupted,
        ReadEvent::Bytes(b"ab".to_vec()),
        ReadEvent::Interrupted,
        ReadEvent::Interrupted,
        ReadEvent::Bytes(b"c\nd".to_vec()),
        ReadEvent::Interrupted,
    ]);
    assert_eq!(input.line(), "abc");
    assert_eq!(input.line(), "d");
    assert_eq!(input.try_line(), None);
}

#[test]
fn a_failed_read_is_an_error_and_gives_no_line() {
    let mut input = BadInput::new(vec![
        ReadEvent::Bytes(b"ab".to_vec()),
        ReadEvent::Failed,
        ReadEvent::Bytes(b"cd\n".to_vec()),
    ]);
    assert_eq!(input.read_until(b'\n'), ReadResult::Error(ReadError::Io));
    assert_eq!(input.read_until(b'\n'), ReadResult::Found("abcd".to_string()));

    let mut input = BadInput::new(vec![ReadEvent::Bytes(b"ab".to_vec()), ReadEvent::Failed]);
    assert_eq!(input.try_line(), None);
    assert_eq!(input.try_line(), Some(InputString::from("ab")));
    assert_eq!(input.try_line(), None);
}

#[test]
fn a_failed_read_loses_no_byte_that_was_read_before_it() {
    let mut input = BadInput::new(vec![
        ReadEvent::Bytes(b"one\ntw".to_vec()),
        ReadEvent::Bytes(b"o".to_vec()),
        ReadEvent::Failed,
        ReadEvent::Failed,
        ReadEvent::Bytes(b"!\nthree".to_vec()),
    ]);
    assert_eq!(input.read_until(b'\n'), ReadResult::Found("one".to_string()));
    assert_eq!(input.read_until(b'\n'), ReadResult::Error(ReadError::Io));
    assert_eq!(input.read_until(b'\n'), ReadResult::Error(ReadError::Io));
    assert_eq!(input.read_until(b'\n'), ReadResult::Found("two!".to_string()));
    assert_eq!(input.read_until(b'\n'), ReadResult::Found("three".to_string()));
    assert_eq!(input.read_until(b'\n'), ReadResult::EndOfStream);
}

#[test]
fn bytes_that_are_not_utf8_are_an_error() {
    let mut input = BadInput::new(vec![ReadEvent::Bytes(vec![b'a', 0xff, b'\n', b'b'])]);
    assert_eq!(input.read_until(b'\n'), ReadResult::Error(ReadError::InvalidEncoding));
    assert_eq!(input.read_until(b'\n'), ReadResult::Found("b".to_string()));

    let mut input = BadInput::new(vec![ReadEvent::Bytes(vec![0xc3, b'\n', b'b'])]);
    assert_eq!(input.try_line(), None);
    assert_eq!(input.try_line(), Some("b".into()));
}

#[test]
fn a_character_cut_by_the_source_is_put_together_again() {
    let bytes = "gr\u{fc}n\nbl\u{e5}".as_bytes();
    let mut events = Vec::new();
    for b in bytes {
        events.push(ReadEvent::Bytes(vec![*b]));
    }
    let mut input = BadInput::new(events);
    assert_eq!(input.line(), "gr\u{fc}n");
    assert_eq!(input.line(), "bl\u{e5}");
}

#[test]
fn lines_are_pulled_until_none_is_left() {
    let mut input = whole("Here are multiple\nlines.");
    let mut lines = input.lines();
    let mut seen = Vec::new();
    while let Some(line) = lines.next() {
        seen.push(line);
    }
    assert_eq!(seen, vec!["Here are multiple", "lines."]);
    assert_eq!(input.try_line(), None);
}

#[test]
fn lines_that_are_not_pulled_stay_in_the_reader() {
    let mut input = whole("Here are multiple\nlines.");
    let mut lines = input.lines();
    assert_eq!(lines.next(), Some(InputString::from("Here are multiple")));
    assert_eq!(input.line(), "lines.");
}

#[test]
fn lines_that_are_never_pulled_read_nothing() {
    let mut input = whole("a\nb");
    let _ = input.lines();
    assert_eq!(input.line(), "a");
    assert_eq!(input.line(), "b");
}

#[test]
fn collect_reads_all_that_is_left() {
    let mut input = whole("Here are multiple\nlines.");
    let lines = input.lines().collect();
    assert_eq!(lines.len(), 2);
    assert_eq!(lines[0], "Here are multiple");
    assert_eq!(lines[1], "lines.");
    assert_eq!(input.try_line(), None);
}

#[test]
fn drain_lines_leaves_out_what_was_read_before() {
    let mut input = byte_by_byte("first\nsecond\nthird\n");
    assert_eq!(input.line(), "first");
    assert_eq!(input.drain_lines(), vec!["second", "third"]);
    assert_eq!(input.drain_lines(), Vec::<InputString>::new());
}

#[test]
fn drain_lines_stops_at_the_first_read_without_a_line() {
    let mut input = BadInput::new(vec![
        ReadEvent::Bytes(b"a\nb".to_vec()),
        ReadEvent::Failed,
        ReadEvent::Bytes(b"c\n".to_vec()),
    ]);
    assert_eq!(input.drain_lines(), vec!["a"]);
    assert_eq!(input.lines().collect(), vec!["bc"]);
}

#[test]
fn joining_the_lines_gives_the_input_back() {
    for text in ["a\nb\nc", "a\nb\nc\n", "\n", "", "x", "\n\n", "one\n\ntwo\n"] {
        let lines = all_lines(&mut byte_by_byte(text));
        let joined = lines.join("\n");
        let expected = text.strip_suffix('\n').unwrap_or(text);
        assert_eq!(joined, expected);
    }
}

#[test]
fn scanner_finds_the_delimiter_in_what_it_holds_back() {
    let mut scanner = Scanner::new();
    assert_eq!(scanner.begin(b'\n'), Step::NeedRead);
    let step = scanner.accept(b'\n', &ReadEvent::Bytes(b"ab\ncd\nef".to_vec()));
    assert_eq!(step, Step::Done(ReadResult::Found("ab".to_string())));
    assert_eq!(scanner.begin(b'\n'), Step::Done(ReadResult::Found("cd".to_string())));
    assert_eq!(scanner.begin(b'\n'), Step::NeedRead);
    let step = scanner.accept(b'\n', &ReadEvent::Bytes(Vec::new()));
    assert_eq!(step, Step::Done(ReadResult::Found("ef".to_string())));
    let step = scanner.accept(b'\n', &ReadEvent::Bytes(Vec::new()));
    assert_eq!(step, Step::Done(ReadResult::EndOfStream));
}

#[test]
fn scanner_gathers_reads_until_the_delimiter_comes() {
    let mut scanner = Scanner::new();
    assert_eq!(scanner.begin(b';'), Step::NeedRead);
    assert_eq!(scanner.accept(b';', &ReadEvent::Bytes(b"ab".to_vec())), Step::NeedRead);
    assert_eq!(scanner.accept(b';', &ReadEvent::Interrupted), Step::NeedRead);
    assert_eq!(scanner.accept(b';', &ReadEvent::Bytes(b"cd".to_vec())), Step::NeedRead);
    assert_eq!(
        scanner.accept(b';', &ReadEvent::Bytes(b"e;f".to_vec())),
        Step::Done(ReadResult::Found("abcde".to_string()))
    );
    assert_eq!(scanner.begin(b';'), Step::NeedRead);
    assert_eq!(
        scanner.accept(b';', &ReadEvent::Bytes(Vec::new())),
        Step::Done(ReadResult::Found("f".to_string()))
    );
}

#[test]
fn scanner_keeps_what_it_holds_when_the_source_fails() {
    let mut scanner = Scanner::new();
    assert_eq!(scanner.accept(b'\n', &ReadEvent::Bytes(b"ab".to_vec())), Step::NeedRead);
    assert_eq!(
        scanner.accept(b'\n', &ReadEvent::Failed),
        Step::Done(ReadResult::Error(ReadError::Io))
    );
    assert_eq!(scanner.begin(b'\n'), Step::NeedRead);
    assert_eq!(
        scanner.accept(b'\n', &ReadEvent::Bytes(Vec::new())),
        Step::Done(ReadResult::Found("ab".to_string()))
    );
    assert_eq!(
        scanner.accept(b'\n', &ReadEvent::Bytes(Vec::new())),
        Step::Done(ReadResult::EndOfStream)
    );
}

#[test]
fn scanner_finds_a_delimiter_that_was_held_back_when_the_source_failed() {
    let mut scanner = Scanner::new();
    assert_eq!(scanner.accept(b';', &ReadEvent::Bytes(b"a\nb".to_vec())), Step::NeedRead);
    assert_eq!(
        scanner.accept(b';', &ReadEvent::Failed),
        Step::Done(ReadResult::Error(ReadError::Io))
    );
    assert_eq!(scanner.begin(b'\n'), Step::Done(ReadResult::Found("a".to_string())));
    assert_eq!(scanner.begin(b'\n'), Step::NeedRead);
    assert_eq!(
        scanner.accept(b'\n', &ReadEvent::Bytes(b"c\n".to_vec())),
        Step::Done(ReadResult::Found("bc".to_string()))
    );
}

#[test]
fn scanner_reports_bytes_that_are_not_utf8() {
    let mut scanner = Scanner::new();
    assert_eq!(
        scanner.accept(b'\n', &ReadEvent::Bytes(vec![0x80, b'\n', b'o', b'k', b'\n'])),
        Step::Done(ReadResult::Error(ReadError::InvalidEncoding))
    );
    assert_eq!(scanner.begin(b'\n'), Step::Done(ReadResult::Found("ok".to_string())));
}
