use bad_input::{BadInput, InputString, ReadEvent};

fn text(s: &str) -> InputString {
    InputString::from(s)
}

fn strings(fields: &[InputString]) -> Vec<&str> {
    fields.iter().map(|f| f.as_str()).collect()
}

#[test]
fn six_fields_with_two_splitters() {
    let mut input = BadInput::new(vec![ReadEvent::Bytes(b"Very,8;fancy,82;string,11\n".to_vec())]);
    let line = input.line();
    let fields: [InputString; 6] = line.destruct_n([",", ";"]);
    assert_eq!(fields, ["Very", "8", "fancy", "82", "string", "11"]);
}

#[test]
fn five_fields_and_the_last_takes_the_rest() {
    let mut input = BadInput::new(vec![ReadEvent::Bytes(b"Very,8;fancy,82;string,11\n".to_vec())]);
    let line = input.line();
    let fields: [InputString; 5] = line.destruct_n([",", ";"]);
    assert_eq!(fields, ["Very", "8", "fancy", "82", "string,11"]);
}

#[test]
fn fields_are_words_and_numbers() {
    let mut input = BadInput::new(vec![ReadEvent::Bytes(b"Very,8;fancy,82;string,11".to_vec())]);
    let [w1, n1, w2, n2, w3, n3] = input.line().destruct_n([",", ";"]);
    assert_eq!(w1.append(" ").append_value(w2.as_str().to_string()).append(" ").append(w3.as_str()), "Very fancy string");
    assert_eq!(n1.parse::<u64>() + n2.parse::<u64>() + n3.parse::<u64>(), 101);
}

#[test]
fn destruct_n_begins_again_with_the_first_splitter() {
    let input: InputString = "a,b;c,d;e,f".into();
    let [a, b, c, d, rest] = input.destruct_n([",", ";"]);
    assert_eq!([a, b, c, d, rest], ["a", "b", "c", "d", "e,f"]);
}

#[test]
fn one_field_is_the_whole_text() {
    let input = text("a,b;c");
    let [all]: [InputString; 1] = input.destruct_n([",", ";"]);
    assert_eq!(all, "a,b;c");
    let [all]: [InputString; 1] = text("").destruct_n(["x"]);
    assert_eq!(all, "");
}

#[test]
fn try_destruct_n_is_none_where_a_splitter_is_missing() {
    let input = text("a,b;c");
    let four: Option<[InputString; 4]> = input.try_destruct_n([",", ";"]);
    assert_eq!(four, None);
    let three: Option<[InputString; 3]> = input.try_destruct_n([",", ";"]);
    assert_eq!(three.unwrap(), ["a", "b", "c"]);
    let wrong_order: Option<[InputString; 3]> = input.try_destruct_n([";", ","]);
    assert_eq!(wrong_order, None);
}

#[test]
fn splitters_of_several_characters() {
    let input = text("key := value -> next := last");
    let fields: [InputString; 4] = input.destruct_n([" := ", " -> "]);
    assert_eq!(fields, ["key", "value", "next", "last"]);
}

#[test]
fn the_first_occurrence_of_a_splitter_counts() {
    let input = text("aaa");
    let fields: [InputString; 2] = input.destruct_n(["aa"]);
    assert_eq!(fields, ["", "a"]);
    let fields: [InputString; 3] = text("a--b---c").destruct_n(["--"]);
    assert_eq!(fields, ["a", "b", "-c"]);
}

#[test]
fn an_empty_splitter_is_found_at_once() {
    let input = text("abc");
    let fields: [InputString; 3] = input.destruct_n([""]);
    assert_eq!(fields, ["", "", "abc"]);
}

#[test]
fn try_destruct_takes_the_count_as_a_value() {
    let input = text("1 2 3 4 5");
    let fields = input.try_destruct(&[" "], 3).unwrap();
    assert_eq!(strings(&fields), vec!["1", "2", "3 4 5"]);
    assert_eq!(input.try_destruct(&[" "], 6), None);
    let fields = input.try_destruct(&[" "], 5).unwrap();
    assert_eq!(strings(&fields), vec!["1", "2", "3", "4", "5"]);
}

#[test]
fn split_n_keeps_the_rest_in_the_last_field() {
    let input = InputString::from("ra la lu li");
    let [fst, snd, rest] = input.split_n(" ");
    assert_eq!(fst, "ra");
    assert_eq!(snd, "la");
    assert_eq!(rest, "lu li");
}

#[test]
fn try_split_n_is_none_where_the_delimiter_is_too_rare() {
    let input = text("ra la");
    let three: Option<[InputString; 3]> = input.try_split_n(" ");
    assert_eq!(three, None);
    let two: Option<[InputString; 2]> = input.try_split_n(" ");
    assert_eq!(two.unwrap(), ["ra", "la"]);
}

#[test]
fn fields_that_were_joined_come_out_again() {
    let fields = ["alpha", "", "b c", "42", "tail, with; splitters"];
    let splitters = [", ", "; "];
    let mut joined = String::new();
    for (i, field) in fields.iter().enumerate() {
        if i > 0 {
            joined.push_str(splitters[(i - 1) % splitters.len()]);
        }
        joined.push_str(field);
    }
    let out: [InputString; 5] = text(&joined).destruct_n(splitters);
    assert_eq!(out, fields);
}

#[test]
fn fields_with_characters_outside_ascii() {
    let input = text("\u{e4}\u{2192}\u{1f600}\u{2192}z");
    let fields: [InputString; 3] = input.destruct_n(["\u{2192}"]);
    assert_eq!(fields, ["\u{e4}", "\u{1f600}", "z"]);
}

#[test]
fn split_cuts_at_every_occurrence() {
    assert_eq!(strings(&text("a,b,c").split(",")), vec!["a", "b", "c"]);
    assert_eq!(strings(&text("abc").split(",")), vec!["abc"]);
    assert_eq!(strings(&text("").split(",")), vec![""]);
}

#[test]
fn split_gives_empty_pieces() {
    assert_eq!(strings(&text("a,,b").split(",")), vec!["a", "", "b"]);
    assert_eq!(strings(&text(",a,").split(",")), vec!["", "a", ""]);
    assert_eq!(strings(&text(",").split(",")), vec!["", ""]);
    assert_eq!(strings(&text("a--b----c").split("--")), vec!["a", "b", "", "c"]);
}

#[test]
fn split_agrees_with_the_standard_library() {
    for (s, p) in [
        ("Mary had a little lamb", " "),
        ("lion::tiger::leopard", "::"),
        ("aaaa", "aa"),
        ("aaa", "aa"),
        ("rust", ""),
        ("", ""),
        ("\u{e4}x\u{e4}", "x"),
        ("x\u{e4}y", ""),
    ] {
        let expected: Vec<&str> = s.split(p).collect();
        assert_eq!(strings(&text(s).split(p)), expected);
    }
}

#[test]
fn try_destruct_agrees_with_split_once() {
    for (s, p) in [("a=b=c", "="), ("abc", "="), ("", ""), ("abc", ""), ("=", "="), ("a==b", "==")] {
        let ours = text(s).try_destruct(&[p], 2);
        match s.split_once(p) {
            Some((l, r)) => assert_eq!(strings(&ours.unwrap()), vec![l, r]),
            None => assert_eq!(ours, None),
        }
    }
}

#[test]
fn trim_takes_white_space_off_both_ends() {
    assert_eq!(text("  a b \t\n").trim(), "a b");
    assert_eq!(text("a").trim(), "a");
    assert_eq!(text("").trim(), "");
    assert_eq!(text(" \r\n ").trim(), "");
    assert_eq!(text("\u{a0}x\u{2003}").trim(), "x");
    let kept = text(" keep ");
    let _ = kept.trim();
    assert_eq!(kept, " keep ");
}

#[test]
fn white_space_is_these_twenty_five_characters_and_no_other() {
    let listed = |c: char| {
        matches!(
            c,
            '\u{9}'..='\u{d}'
                | '\u{20}'
                | '\u{85}'
                | '\u{a0}'
                | '\u{1680}'
                | '\u{2000}'..='\u{200a}'
                | '\u{2028}'..='\u{2029}'
                | '\u{202f}'
                | '\u{205f}'
                | '\u{3000}'
        )
    };
    let mut count = 0;
    let mut buf = [0u8; 4];
    for c in '\u{0}'..=char::MAX {
        let one = InputString::from(&*c.encode_utf8(&mut buf));
        assert_eq!(one.trim().is_empty(), listed(c), "U+{:04X}", c as u32);
        if listed(c) {
            count += 1;
        }
    }
    assert_eq!(count, 25);
    assert_eq!(text("\u{200b}x\u{180e}").trim(), "\u{200b}x\u{180e}");
    assert_eq!(text("\u{2028}\u{3000}x\u{205f}\u{85}").trim(), "x");
}

#[test]
fn trim_agrees_with_the_standard_library() {
    for s in ["", " ", "x", " x", "x ", "\u{3000}x y\u{85}", "_ x _", "\u{200b}x"] {
        assert_eq!(text(s).trim(), s.trim());
    }
}

#[test]
fn split_at_a_byte_position() {
    let (l, r) = text("hello").split_at(2);
    assert_eq!(l, "he");
    assert_eq!(r, "llo");
    let (l, r) = text("hello").split_at(0);
    assert_eq!(l, "");
    assert_eq!(r, "hello");
    let (l, r) = text("hello").split_at(5);
    assert_eq!(l, "hello");
    assert_eq!(r, "");
    let (l, r) = text("\u{e4}b").split_at(2);
    assert_eq!(l, "\u{e4}");
    assert_eq!(r, "b");
}

#[test]
fn try_split_at_is_none_inside_a_character_and_past_the_end() {
    assert_eq!(text("\u{e4}b").try_split_at(1), None);
    assert_eq!(text("ab").try_split_at(3), None);
    let (l, r) = text("ab").try_split_at(1).unwrap();
    assert_eq!(l, "a");
    assert_eq!(r, "b");
}

#[test]
fn len_counts_bytes() {
    assert_eq!(text("").len(), 0);
    assert_eq!(text("abc").len(), 3);
    assert_eq!(text("\u{e4}\u{1f600}").len(), 6);
    assert_eq!(InputString::new().len(), 0);
}

#[test]
fn is_empty_only_for_the_empty_text() {
    assert!(InputString::new().is_empty());
    assert!(text("").is_empty());
    assert!(!text(" ").is_empty());
}

#[test]
fn bytes_and_chars_and_as_str() {
    let s = text("a\u{e4}");
    assert_eq!(s.bytes(), &[b'a', 0xc3, 0xa4]);
    assert_eq!(s.chars().collect::<Vec<char>>(), vec!['a', '\u{e4}']);
    assert_eq!(s.chars().rev().collect::<String>(), "\u{e4}a");
    assert_eq!(s.as_str(), "a\u{e4}");
    assert_eq!(s.into_string(), "a\u{e4}".to_string());
    let owned: String = text("into").into();
    assert_eq!(owned, "into");
}

#[test]
fn push_text_and_add_assign_lengthen_the_text() {
    let mut s = text("a");
    s.push_text("b");
    assert_eq!(s, "ab");
    s += 12;
    s += "c";
    s += 'd';
    assert_eq!(s, "ab12cd");
    assert_eq!(s.len(), 6);
}

#[test]
fn from_bytes_is_a_source_of_one_read() {
    let mut input = BadInput::from_bytes(b"x\ny".to_vec());
    assert_eq!(input.lines().collect(), vec!["x", "y"]);
    let mut input = BadInput::from_bytes(Vec::new());
    assert_eq!(input.try_line(), None);
}

#[test]
fn equality_is_by_content_in_both_directions() {
    let a = text("same");
    let b = InputString::from("same".to_string());
    assert!(a == b);
    assert!(a == "same");
    assert!("same" == a);
    assert!(a == "same".to_string());
    assert!("same".to_string() == a);
    assert!(a != text("Same"));
    assert!(a != "same ");
    assert!("sam" != a);
    assert!(a != "other".to_string());
    assert!(text("") == "");
    assert!(text("\u{e4}") != "a");
}

#[test]
fn values_are_appended_in_their_text_form() {
    let s = text("n = ") + 42;
    assert_eq!(s, "n = 42");
    let s = s + ", c = " + 'x' + ", b = " + true;
    assert_eq!(s, "n = 42, c = x, b = true");
    assert_eq!(text("a").append("b"), "ab");
    assert_eq!(text("a").append_value(1u8), "a1");
}

#[test]
fn concat_puts_nothing_in_between() {
    assert_eq!(InputString::concat(&[1, 2, 3]), "123");
    assert_eq!(InputString::concat(&["a", "", "bc"]), "abc");
    assert_eq!(InputString::concat::<u8>(&[]), "");
    assert_eq!(InputString::concat(&[text("x").into_string(), "y".to_string()]), "xy");
}

#[test]
fn integers_are_read_in_decimal() {
    assert_eq!(text("0").parse::<u8>(), 0);
    assert_eq!(text("255").parse::<u8>(), 255);
    assert_eq!(text("+7").parse::<u8>(), 7);
    assert_eq!(text("007").parse::<u16>(), 7);
    assert_eq!(text("65535").parse::<u16>(), 65535);
    assert_eq!(text("4294967295").parse::<u32>(), u32::MAX);
    assert_eq!(text("18446744073709551615").parse::<u64>(), u64::MAX);
    assert_eq!(text("101").parse::<usize>(), 101);
    assert_eq!(text("-128").parse::<i8>(), -128);
    assert_eq!(text("127").parse::<i8>(), 127);
    assert_eq!(text("-0").parse::<i16>(), 0);
    assert_eq!(text("-2147483648").parse::<i32>(), i32::MIN);
    assert_eq!(text("+2147483647").parse::<i32>(), i32::MAX);
    assert_eq!(text("-9223372036854775808").parse::<i64>(), i64::MIN);
    assert_eq!(text("9223372036854775807").parse::<i64>(), i64::MAX);
    assert_eq!(text("-12").parse::<isize>(), -12);
}

#[test]
fn try_parse_is_none_for_what_is_no_number() {
    assert_eq!(text("").try_parse::<u8>(), None);
    assert_eq!(text("+").try_parse::<u8>(), None);
    assert_eq!(text("-").try_parse::<i8>(), None);
    assert_eq!(text("-1").try_parse::<u8>(), None);
    assert_eq!(text("-0").try_parse::<u8>(), None);
    assert_eq!(text("256").try_parse::<u8>(), None);
    assert_eq!(text("128").try_parse::<i8>(), None);
    assert_eq!(text("-129").try_parse::<i8>(), None);
    assert_eq!(text(" 1").try_parse::<u32>(), None);
    assert_eq!(text("1 ").try_parse::<u32>(), None);
    assert_eq!(text("1_000").try_parse::<u32>(), None);
    assert_eq!(text("12a").try_parse::<u32>(), None);
    assert_eq!(text("++1").try_parse::<i32>(), None);
    assert_eq!(text("+-1").try_parse::<i32>(), None);
    assert_eq!(text("0x10").try_parse::<i32>(), None);
    assert_eq!(text("\u{661}").try_parse::<u8>(), None);
    assert_eq!(text("18446744073709551616").try_parse::<u64>(), None);
    assert_eq!(text("99999999999999999999999999999999999999999").try_parse::<u64>(), None);
    assert_eq!(text("9223372036854775808").try_parse::<i64>(), None);
    assert_eq!(text("-9223372036854775809").try_parse::<i64>(), None);
    assert_eq!(text("42").try_parse::<u8>(), Some(42));
}

#[test]
fn reading_integers_agrees_with_the_standard_library() {
    for s in [
        "", "0", "-0", "+0", "00", "1", "-1", "+1", "255", "256", "-128", "-129", "127", "128",
        "65535", "65536", "-32768", "-32769", "4294967295", "4294967296", "-2147483648",
        "-2147483649", "18446744073709551615", "18446744073709551616", "-9223372036854775808",
        "-9223372036854775809", "9223372036854775807", "9223372036854775808", "+", "-", "1+", "a",
        "1.0", "1e3", " 1", "١", "000000000000000000000000000000000000012",
    ] {
        assert_eq!(text(s).try_parse::<u8>(), s.parse::<u8>().ok());
        assert_eq!(text(s).try_parse::<u16>(), s.parse::<u16>().ok());
        assert_eq!(text(s).try_parse::<u32>(), s.parse::<u32>().ok());
        assert_eq!(text(s).try_parse::<u64>(), s.parse::<u64>().ok());
        assert_eq!(text(s).try_parse::<usize>(), s.parse::<usize>().ok());
        assert_eq!(text(s).try_parse::<i8>(), s.parse::<i8>().ok());
        assert_eq!(text(s).try_parse::<i16>(), s.parse::<i16>().ok());
        assert_eq!(text(s).try_parse::<i32>(), s.parse::<i32>().ok());
        assert_eq!(text(s).try_parse::<i64>(), s.parse::<i64>().ok());
        assert_eq!(text(s).try_parse::<isize>(), s.parse::<isize>().ok());
    }
}

#[test]
fn characters_and_truth_values_are_read() {
    assert_eq!(text("x").parse::<char>(), 'x');
    assert_eq!(text("\u{1f600}").parse::<char>(), '\u{1f600}');
    assert_eq!(text("").try_parse::<char>(), None);
    assert_eq!(text("xy").try_parse::<char>(), None);
    assert_eq!(text("true").parse::<bool>(), true);
    assert_eq!(text("false").parse::<bool>(), false);
    assert_eq!(text("True").try_parse::<bool>(), None);
    assert_eq!(text("1").try_parse::<bool>(), None);
    assert_eq!(text(" true").try_parse::<bool>(), None);
    for s in ["", "a", "ab", "true", "false", "t", "\u{e4}"] {
        assert_eq!(text(s).try_parse::<char>(), s.parse::<char>().ok());
        assert_eq!(text(s).try_parse::<bool>(), s.parse::<bool>().ok());
    }
}

#[test]
fn a_try_form_is_none_exactly_where_the_first_form_has_nothing_to_give() {
    let line = text("1,2");
    assert_eq!(line.try_split_n::<3>(","), None);
    assert!(line.try_split_n::<2>(",").is_some());
    assert_eq!(line.try_parse::<u8>(), None);
    assert_eq!(line.try_split_at(9), None);
    let mut input = BadInput::new(Vec::new());
    assert_eq!(input.try_line(), None);
}
