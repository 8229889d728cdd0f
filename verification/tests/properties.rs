use redis::number::{parse_decimal, parse_length};
use redis::resp::{classify_tag, Data, Error, ParseError, SyntaxError, Tag};
use redis::text::{copy_text, skip_bytes};
use redis::whitespace::whitespace_width;
use redis::{
    get_rterminator_index, get_terminator_index, get_whitespace_index, parse, parse_array,
    parse_bulk_string, parse_error, parse_integer, parse_string,
};

fn syntax(message: &str) -> ParseError {
    ParseError::SyntaxError(SyntaxError { message: message.to_string() })
}

fn string(text: &str) -> Data {
    Data::String(text.to_string())
}

#[test]
fn empty_buffer_is_reported() {
    assert_eq!(parse(""), Err(ParseError::EmptyBuffer));
    assert_eq!(parse_string(""), Err(ParseError::EmptyBuffer));
    assert_eq!(parse_integer(""), Err(ParseError::EmptyBuffer));
    assert_eq!(parse_error(""), Err(ParseError::EmptyBuffer));
    assert_eq!(parse_bulk_string(""), Err(ParseError::EmptyBuffer));
    assert_eq!(parse_array(""), Err(ParseError::EmptyBuffer));
}

#[test]
fn unknown_first_byte_is_an_invalid_prefix() {
    assert_eq!(parse("hello\r\n"), Err(ParseError::InvalidPrefix));
    assert_eq!(parse("\r\n"), Err(ParseError::InvalidPrefix));
    assert_eq!(parse(" +ok\r\n"), Err(ParseError::InvalidPrefix));
    assert_eq!(parse("é\r\n"), Err(ParseError::InvalidPrefix));
    assert_eq!(parse("x"), Err(ParseError::InvalidPrefix));
}

#[test]
fn reserved_tags_are_an_invalid_prefix() {
    for buffer in ["_\r\n", "#t\r\n", ",1.5\r\n", "(12\r\n", "!3\r\nerr\r\n", "=3\r\ntxt\r\n", "%0\r\n", "~0\r\n", ">0\r\n"] {
        assert_eq!(parse(buffer), Err(ParseError::InvalidPrefix));
    }
}

#[test]
fn tags_are_classified() {
    assert_eq!(classify_tag(b'+'), Tag::String);
    assert_eq!(classify_tag(b'-'), Tag::Error);
    assert_eq!(classify_tag(b':'), Tag::Integer);
    assert_eq!(classify_tag(b'$'), Tag::BulkString);
    assert_eq!(classify_tag(b'*'), Tag::Array);
    for byte in [b'_', b'#', b',', b'(', b'!', b'=', b'%', b'~', b'>'] {
        assert_eq!(classify_tag(byte), Tag::Reserved);
    }
    for byte in [b'a', b'0', b' ', b'\r', 0u8, 200u8] {
        assert_eq!(classify_tag(byte), Tag::Unknown);
    }
}

#[test]
fn a_routine_refuses_another_tag() {
    assert_eq!(parse_string(":1\r\n"), Err(ParseError::InvalidPrefix));
    assert_eq!(parse_integer("+1\r\n"), Err(ParseError::InvalidPrefix));
    assert_eq!(parse_error("+a b\r\n"), Err(ParseError::InvalidPrefix));
    assert_eq!(parse_bulk_string("*0\r\n"), Err(ParseError::InvalidPrefix));
    assert_eq!(parse_array("$0\r\n\r\n"), Err(ParseError::InvalidPrefix));
}

#[test]
fn missing_terminator_is_a_syntax_error() {
    assert_eq!(parse(":10"), Err(syntax("Could not find terminator")));
    assert_eq!(parse("+hello"), Err(syntax("Could not find terminator")));
    assert_eq!(parse("+hello\r"), Err(syntax("Could not find terminator")));
    assert_eq!(parse("+hello\n"), Err(syntax("Could not find terminator")));
    assert_eq!(parse("-Error message"), Err(syntax("Could not find terminator")));
    assert_eq!(parse("$5"), Err(syntax("Could not find terminator")));
    assert_eq!(parse("*2"), Err(syntax("Could not find terminator")));
}

#[test]
fn strings_take_up_their_bytes() {
    assert_eq!(parse("+\r\n"), Ok((string(""), 3)));
    assert_eq!(parse("+OK\r\n"), Ok((string("OK"), 5)));
    assert_eq!(parse("+héllo\r\n"), Ok((string("héllo"), 9)));
    assert_eq!(parse("+a\rb\nc\r\n"), Ok((string("a\rb\nc"), 8)));
    assert_eq!(parse("+first\r\nsecond\r\n"), Ok((string("first"), 8)));
    assert_eq!(parse_string("+hello world\r\n"), Ok((string("hello world"), 14)));
}

#[test]
fn integers_are_read_exactly() {
    assert_eq!(parse(":0\r\n"), Ok((Data::Integer(0), 4)));
    assert_eq!(parse(":-0\r\n"), Ok((Data::Integer(0), 5)));
    assert_eq!(parse(":+5\r\n"), Ok((Data::Integer(5), 5)));
    assert_eq!(parse(":007\r\n"), Ok((Data::Integer(7), 6)));
    assert_eq!(parse(":1234567890\r\n"), Ok((Data::Integer(1234567890), 13)));
    assert_eq!(parse(":-2147483648\r\n"), Ok((Data::Integer(-2147483648), 14)));
    assert_eq!(parse_integer(":-2\r\n"), Ok((Data::Integer(-2), 5)));
}

#[test]
fn integers_reach_both_ends_of_the_range() {
    let most = format!(":{}\r\n", isize::MAX);
    let least = format!(":{}\r\n", isize::MIN);
    assert_eq!(parse(&most), Ok((Data::Integer(isize::MAX), most.len())));
    assert_eq!(parse(&least), Ok((Data::Integer(isize::MIN), least.len())));
}

#[test]
fn malformed_integers_are_syntax_errors() {
    for buffer in [":\r\n", ":-\r\n", ":+\r\n", ":12a\r\n", ":a12\r\n", ": 1\r\n", ":1 \r\n", ":--1\r\n", ":1.5\r\n", ":+-1\r\n"] {
        assert_eq!(parse(buffer), Err(syntax("Invalid integer")));
    }
}

#[test]
fn integers_out_of_range_are_syntax_errors() {
    assert_eq!(parse(":99999999999999999999999999\r\n"), Err(syntax("Invalid integer")));
    assert_eq!(parse(":-99999999999999999999999999\r\n"), Err(syntax("Invalid integer")));
    let above = format!(":{}\r\n", isize::MAX as i128 + 1);
    let below = format!(":{}\r\n", isize::MIN as i128 - 1);
    assert_eq!(parse(&above), Err(syntax("Invalid integer")));
    assert_eq!(parse(&below), Err(syntax("Invalid integer")));
}

#[test]
fn errors_split_at_the_first_whitespace() {
    let error = |kind: &str, message: &str| Data::Error(Error { kind: kind.to_string(), message: message.to_string() });
    assert_eq!(parse("-ERR unknown command 'foo'\r\n"), Ok((error("ERR", "unknown command 'foo'"), 28)));
    assert_eq!(parse("-WRONGTYPE \r\n"), Ok((error("WRONGTYPE", ""), 13)));
    assert_eq!(parse("- message\r\n"), Ok((error("", "message"), 11)));
    assert_eq!(parse("-a\tb c\r\n"), Ok((error("a", "b c"), 8)));
    assert_eq!(parse("-a\rb\r\n"), Ok((error("a", "b"), 6)));
    assert_eq!(parse_error("-Error message\r\n"), Ok((error("Error", "message"), 16)));
}

#[test]
fn errors_without_whitespace_are_syntax_errors() {
    assert_eq!(parse("-Error\r\n"), Err(syntax("No whitespace found")));
    assert_eq!(parse("-\r\n"), Err(syntax("No whitespace found")));
    assert_eq!(parse("-Error\r\nnext message\r\n"), Err(syntax("No whitespace found")));
}

#[test]
fn bulk_strings_go_by_their_declared_length() {
    let bulk = |text: &str| Data::BulkString(text.to_string());
    assert_eq!(parse("$7\r\nhel\r\nlo\r\n"), Ok((bulk("hel\r\nlo"), 13)));
    assert_eq!(parse("$2\r\n\r\n\r\n"), Ok((bulk("\r\n"), 8)));
    assert_eq!(parse("$2\r\né\r\n"), Ok((bulk("é"), 8)));
    assert_eq!(parse("$+5\r\nhello\r\n"), Ok((bulk("hello"), 12)));
    assert_eq!(parse("$5\r\nhello\r\n+next\r\n"), Ok((bulk("hello"), 11)));
    assert_eq!(parse_bulk_string("$0\r\n\r\n"), Ok((bulk(""), 6)));
}

#[test]
fn bulk_strings_need_their_closing_terminator() {
    for buffer in [
        "$5\r\nhello",
        "$5\r\nhello\r",
        "$5\r\nhel",
        "$5\r\n",
        "$3\r\nhello\r\n",
        "$10\r\nhello\r\n",
        "$1\r\né\r\n",
        "$6\r\nhello\r\n",
        "$99999999999999999999999999\r\nhello\r\n",
        "$18446744073709551615\r\nhello\r\n",
        "$18446744073709551616\r\nhello\r\n",
    ] {
        assert_eq!(parse(buffer), Err(syntax("Could not find closing terminator")));
    }
}

#[test]
fn bulk_strings_need_a_length() {
    for buffer in ["$\r\nhello\r\n", "$-1\r\n", "$x\r\nhello\r\n", "$5 \r\nhello\r\n", "$-\r\n", "$9999999999999999999999x\r\n"] {
        assert_eq!(parse(buffer), Err(syntax("Invalid length")));
    }
}

#[test]
fn arrays_need_a_count() {
    for buffer in ["*\r\n", "*-1\r\n", "*x\r\n:1\r\n", "*1.0\r\n:1\r\n", "*99999999999999999999999999\r\n"] {
        assert_eq!(parse(buffer), Err(syntax("Invalid length")));
    }
}

#[test]
fn empty_array_ignores_what_follows() {
    for buffer in ["*0\r\n", "*0\r\n:1\r\n", "*0\r\ngarbage", "*00\r\n\r\n", "*+0\r\n*", "*-0\r\n"] {
        let header = buffer.find("\r\n").unwrap() + 2;
        assert_eq!(parse(buffer), Ok((Data::Array(vec![]), header)));
    }
}

#[test]
fn arrays_report_every_failure() {
    assert_eq!(parse("*2\r\n:1\r\n?\r\n"), Err(ParseError::Aggregate(vec![ParseError::InvalidPrefix])));
    assert_eq!(
        parse("*3\r\n:1\r\n:x\r\n:3\r\n"),
        Err(ParseError::Aggregate(vec![syntax("Invalid integer"), syntax("Invalid integer")]))
    );
    assert_eq!(
        parse("*3\r\n-oops\r\n"),
        Err(ParseError::Aggregate(vec![
            syntax("No whitespace found"),
            syntax("No whitespace found"),
            syntax("No whitespace found"),
        ]))
    );
    assert_eq!(
        parse("*2\r\n+ok\r\n+cut"),
        Err(ParseError::Aggregate(vec![syntax("Could not find terminator")]))
    );
}

#[test]
fn arrays_report_missing_elements() {
    let missing = || syntax("Missing array element");
    assert_eq!(parse("*1\r\n"), Err(ParseError::Aggregate(vec![missing()])));
    assert_eq!(parse("*3\r\n:1\r\n"), Err(ParseError::Aggregate(vec![missing(), missing()])));
    assert_eq!(parse("*2\r\n*0\r\n"), Err(ParseError::Aggregate(vec![missing()])));
}

#[test]
fn nested_failures_are_flattened() {
    assert_eq!(
        parse("*2\r\n+ok\r\n*3\r\n:1\r\n?"),
        Err(ParseError::Aggregate(vec![ParseError::InvalidPrefix, ParseError::InvalidPrefix]))
    );
    assert_eq!(
        parse("*2\r\n*2\r\n:1\r\n"),
        Err(ParseError::Aggregate(vec![
            syntax("Missing array element"),
            syntax("Missing array element"),
        ]))
    );
    assert_eq!(
        parse("*1\r\n*1\r\n*1\r\n:x\r\n"),
        Err(ParseError::Aggregate(vec![syntax("Invalid integer")]))
    );
}

#[test]
fn a_failed_header_inside_an_array_is_one_entry() {
    assert_eq!(
        parse("*2\r\n:1\r\n*x\r\n"),
        Err(ParseError::Aggregate(vec![syntax("Invalid length")]))
    );
}

#[test]
fn nested_arrays_keep_their_depth_and_counts() {
    let buffer = "*2\r\n*1\r\n*1\r\n:7\r\n*0\r\n";
    let innermost = Data::Array(vec![(Data::Integer(7), 4)]);
    let middle = Data::Array(vec![(innermost, 8)]);
    let expected = Data::Array(vec![(middle, 12), (Data::Array(vec![]), 4)]);
    assert_eq!(parse(buffer), Ok((expected, 20)));
    assert_eq!(parse(&buffer[4..]).map(|r| r.1), Ok(12));
    assert_eq!(parse(&buffer[8..]).map(|r| r.1), Ok(8));
    assert_eq!(parse(&buffer[12..]), Ok((Data::Integer(7), 4)));
    assert_eq!(parse(&buffer[16..]), Ok((Data::Array(vec![]), 4)));
}

#[test]
fn arrays_hold_every_type() {
    let expected = Data::Array(vec![
        (string("a"), 4),
        (Data::Error(Error { kind: "E".to_string(), message: "m".to_string() }), 6),
        (Data::Integer(-12), 6),
        (Data::BulkString("x\r\ny".to_string()), 10),
        (Data::Array(vec![]), 4),
    ]);
    assert_eq!(parse("*5\r\n+a\r\n-E m\r\n:-12\r\n$4\r\nx\r\ny\r\n*0\r\n"), Ok((expected, 34)));
    assert_eq!(parse_array("*1\r\n+zap\r\n"), Ok((Data::Array(vec![(string("zap"), 6)]), 10)));
}

#[test]
fn messages_follow_one_another() {
    let buffer = "+one\r\n:2\r\n$5\r\nthree\r\n*1\r\n-four 4\r\n+rest";
    let mut cursor = 0;
    let mut seen = vec![];
    for _ in 0..4 {
        let (data, consumed) = parse(&buffer[cursor..]).unwrap();
        seen.push(data);
        cursor += consumed;
    }
    assert_eq!(cursor, 34);
    assert_eq!(seen[0], string("one"));
    assert_eq!(seen[1], Data::Integer(2));
    assert_eq!(seen[2], Data::BulkString("three".to_string()));
    assert_eq!(
        seen[3],
        Data::Array(vec![(Data::Error(Error { kind: "four".to_string(), message: "4".to_string() }), 9)])
    );
    assert_eq!(parse(&buffer[cursor..]), Err(syntax("Could not find terminator")));
}

#[test]
fn what_follows_a_message_changes_nothing() {
    for message in ["+hello\r\n", ":-17\r\n", "-E m\r\n", "$3\r\na\r\n\r\n", "*2\r\n:1\r\n*1\r\n+x\r\n"] {
        let alone = parse(message);
        assert_eq!(alone.as_ref().map(|r| r.1), Ok(message.len()));
        for tail in ["+more\r\n", "\r\n", "garbage", "é"] {
            assert_eq!(parse(&format!("{message}{tail}")), alone);
        }
    }
}

#[test]
fn first_terminator_is_found() {
    assert_eq!(get_terminator_index("+hello world\r\n"), Ok(12));
    assert_eq!(get_terminator_index("\r\n"), Ok(0));
    assert_eq!(get_terminator_index("a\r\nb\r\n"), Ok(1));
    assert_eq!(get_terminator_index("a\r\r\n"), Ok(2));
    assert_eq!(get_terminator_index("é\r\n"), Ok(2));
    for buffer in ["", "\r", "\n", "abc", "a\rb\nc", "\n\r"] {
        assert_eq!(get_terminator_index(buffer), Err(syntax("Could not find terminator")));
    }
}

#[test]
fn last_terminator_is_found() {
    assert_eq!(get_rterminator_index("$5\r\nhello\r\n"), Ok(9));
    assert_eq!(get_rterminator_index("\r\n"), Ok(0));
    assert_eq!(get_rterminator_index("a\r\nb\r\nc"), Ok(4));
    assert_eq!(get_rterminator_index("\r\n\r\n"), Ok(2));
    for buffer in ["", "\r", "abc", "\n\r"] {
        assert_eq!(get_rterminator_index(buffer), Err(syntax("Could not find closing terminator")));
    }
}

#[test]
fn first_whitespace_is_found() {
    assert_eq!(get_whitespace_index("-Error message\r\n"), Ok(6));
    assert_eq!(get_whitespace_index(" a"), Ok(0));
    assert_eq!(get_whitespace_index("ab\tc d"), Ok(2));
    assert_eq!(get_whitespace_index("abc\r\n"), Ok(3));
    assert_eq!(get_whitespace_index("a\nb"), Ok(1));
    assert_eq!(get_whitespace_index("a\x0bb"), Ok(1));
    assert_eq!(get_whitespace_index("a\x0cb"), Ok(1));
    assert_eq!(get_whitespace_index("é b"), Ok(2));
    assert_eq!(get_whitespace_index("\u{a0}"), Ok(0));
    assert_eq!(get_whitespace_index("\u{85}x"), Ok(0));
    assert_eq!(get_whitespace_index("a\u{3000}b c"), Ok(1));
    assert_eq!(get_whitespace_index("é\u{2003}x y"), Ok(2));
    assert_eq!(get_whitespace_index("ab\u{1680}"), Ok(2));
    assert_eq!(get_whitespace_index("\u{10000}\u{205f}"), Ok(4));
    assert_eq!(get_whitespace_index("x\u{200b}\u{180e}\u{feff}\u{2028}"), Ok(10));
    for buffer in ["", "abc", "a\x08b", "a\x0eb", "\u{200b}", "\u{180e}", "\u{84}\u{86}", "é\u{2060}"] {
        assert_eq!(get_whitespace_index(buffer), Err(syntax("No whitespace found")));
    }
}

#[test]
fn whitespace_is_what_the_standard_library_says() {
    let mut found = 0;
    for c in '\0'..=char::MAX {
        let alone = c.to_string();
        let behind = format!("é{c}");
        if c.is_whitespace() {
            found += 1;
            assert_eq!(get_whitespace_index(&alone), Ok(0));
            assert_eq!(get_whitespace_index(&behind), Ok(2));
            assert_eq!(whitespace_width(alone.as_bytes(), 0), c.len_utf8());
        } else {
            assert_eq!(get_whitespace_index(&alone), Err(syntax("No whitespace found")));
            assert_eq!(get_whitespace_index(&behind), Err(syntax("No whitespace found")));
            assert_eq!(whitespace_width(alone.as_bytes(), 0), 0);
        }
    }
    assert_eq!(found, 25);
}

#[test]
fn first_whitespace_agrees_with_a_search_by_characters() {
    for buffer in ["-Error message\r\n", "a\u{a0}b c", "\u{3000}", "é\u{2009}\u{2009}", "no-space", "tab\there", ""] {
        let expected = buffer.find(|c: char| c.is_whitespace());
        assert_eq!(get_whitespace_index(buffer).ok(), expected);
    }
}

#[test]
fn errors_split_at_any_whitespace_character() {
    let error = |kind: &str, message: &str| Data::Error(Error { kind: kind.to_string(), message: message.to_string() });
    assert_eq!(parse("-a\u{a0}b c\r\n"), Ok((error("a", "b c"), 9)));
    assert_eq!(parse("-ERR\u{3000}full width\r\n"), Ok((error("ERR", "full width"), 19)));
    assert_eq!(parse("-é\u{2028}\u{2028}x\r\n"), Ok((error("é", "\u{2028}x"), 12)));
    assert_eq!(parse("-\u{85}\r\n"), Ok((error("", ""), 5)));
    assert_eq!(parse("-a\u{200b}b\r\n"), Err(syntax("No whitespace found")));
}

#[test]
fn decimal_fields_are_read() {
    assert_eq!(parse_decimal(b"x123y", 1, 4), Some(123));
    assert_eq!(parse_decimal(b"-45", 0, 3), Some(-45));
    assert_eq!(parse_decimal(b"+45", 0, 3), Some(45));
    assert_eq!(parse_decimal(b"0000", 0, 4), Some(0));
    assert_eq!(parse_decimal(b"123", 1, 2), Some(2));
    assert_eq!(parse_decimal(b"123", 1, 1), None);
    assert_eq!(parse_decimal(b"-", 0, 1), None);
    assert_eq!(parse_decimal(b"1-2", 0, 3), None);
    assert_eq!(parse_decimal(b"12 ", 0, 3), None);
}

#[test]
fn length_fields_are_read() {
    assert_eq!(parse_length(b"$12\r", 1, 3), Some(12));
    assert_eq!(parse_length(b"0", 0, 1), Some(0));
    assert_eq!(parse_length(b"-0", 0, 2), Some(0));
    assert_eq!(parse_length(b"+007", 0, 4), Some(7));
    assert_eq!(parse_length(usize::MAX.to_string().as_bytes(), 0, usize::MAX.to_string().len()), Some(usize::MAX));
    assert_eq!(parse_length(b"99999999999999999999999999", 0, 26), Some(usize::MAX));
    assert_eq!(parse_length(b"-1", 0, 2), None);
    assert_eq!(parse_length(b"-99999999999999999999999999", 0, 27), None);
    assert_eq!(parse_length(b"99999999999999999999999999x", 0, 27), None);
    assert_eq!(parse_length(b"", 0, 0), None);
    assert_eq!(parse_length(b"+", 0, 1), None);
    assert_eq!(parse_length(b"1 ", 0, 2), None);
}

#[test]
fn any_payload_comes_back_from_its_bulk_string() {
    for payload in ["", "hello", "a\r\nb", "\r\n", "\r\n\r\n", "é\u{3000}ü", "$5\r\nhello\r\n", "0123456789012345678901234567890123456789"] {
        for rest in ["", "\r\n", "+next\r\n", "junk"] {
            let buffer = format!("${}\r\n{payload}\r\n{rest}", payload.len());
            let consumed = 1 + payload.len().to_string().len() + 2 + payload.len() + 2;
            assert_eq!(parse(&buffer), Ok((Data::BulkString(payload.to_string()), consumed)));
        }
    }
}

#[test]
fn text_is_cut_at_byte_offsets() {
    assert_eq!(copy_text("+héllo\r\n", 1, 7), "héllo");
    assert_eq!(copy_text("abc", 1, 1), "");
    assert_eq!(copy_text("abc", 0, 3), "abc");
    assert_eq!(skip_bytes("+ok\r\nrest", 5), "rest");
    assert_eq!(skip_bytes("abc", 3), "");
    assert_eq!(skip_bytes("abc", 0), "abc");
}
