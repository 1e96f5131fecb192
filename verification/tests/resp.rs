use redis_lite::resp::parse;
use redis_lite::resp::MyError;
use redis_lite::resp::Parser;
use redis_lite::value::Value;

#[test]
fn test_null() {
    let line = "$-1\r\n";
    let value = parse(&line.to_string());
    assert_eq!(value, Ok(Value::Null));
}

#[test]
fn test_ping_command() {
    let line = "*1\r\n$4\r\nping\r\n";
    let value = parse(&line.to_string());
    assert_eq!(value, Ok(Value::Array(vec![Value::String("ping".to_string())])));
}

#[test]
fn test_echo_command() {
    let line = "*2\r\n$4\r\necho\r\n$11\r\nhello world\r\n";
    let value = parse(&line.to_string());
    assert_eq!(
        value,
        Ok(Value::Array(vec![
            Value::String("echo".to_string()),
            Value::String("hello world".to_string()),
        ]))
    );
}

#[test]
fn test_get_command() {
    let line = "*2\r\n$3\r\nget\r\n$3\r\nkey\r\n";
    let value = parse(&line.to_string());
    assert_eq!(
        value,
        Ok(Value::Array(vec![
            Value::String("get".to_string()),
            Value::String("key".to_string()),
        ]))
    );
}

#[test]
fn test_text_ok() {
    let line = "+OK\r\n";
    let value = parse(&line.to_string());
    assert_eq!(value, Ok(Value::String("OK".to_string())));
}

#[test]
fn test_error_message() {
    let line = "-Error message\r\n";
    let value = parse(&line.to_string());
    assert_eq!(value, Ok(Value::Error("Error message".to_string())));
}

#[test]
fn test_empty_text() {
    let line = "$0\r\n\r\n";
    let value = parse(&line.to_string());
    assert_eq!(value, Ok(Value::String("".to_string())));
}

#[test]
fn test_text_hello_world() {
    let line = "+hello world\r\n";
    let value = parse(&line.to_string());
    assert_eq!(value, Ok(Value::String("hello world".to_string())));
}

#[test]
fn test_number() {
    let line = ":123\r\n";
    let value = parse(&line.to_string());
    assert_eq!(value, Ok(Value::Number(123)));
}

#[test]
fn test_nested_array() {
    let line = "*2\r\n*3\r\n:1\r\n:2\r\n:3\r\n*2\r\n+Foo\r\n-Bar\r\n";
    let value = parse(&line.to_string());
    assert_eq!(
        value,
        Ok(Value::Array(vec![
            Value::Array(vec![Value::Number(1), Value::Number(2), Value::Number(3)]),
            Value::Array(vec![
                Value::String("Foo".to_string()),
                Value::Error("Bar".to_string()),
            ])
        ]))
    );
}

#[test]
fn test_large_text() {
    let line = "$11\r\nhello\nworld";
    let value = parse(&line.to_string());
    assert_eq!(value, Err(MyError::IncompleteFrame));
    let line = "$11\r\nhello\nworld\r\n";
    let value = parse(&line.to_string());
    assert_eq!(value, Ok(Value::String("hello\nworld".to_string())));
}

#[test]
fn null_array_is_null() {
    assert_eq!(parse(&"*-1\r\n".to_string()), Ok(Value::Null));
}

#[test]
fn empty_array_is_not_null() {
    assert_eq!(parse(&"*0\r\n".to_string()), Ok(Value::Array(vec![])));
}

#[test]
fn bulk_string_keeps_line_breaks() {
    let value = parse(&"$12\r\nhello\r\nworld\r\n".to_string());
    assert_eq!(value, Ok(Value::String("hello\r\nworld".to_string())));
}

#[test]
fn bulk_string_keeps_nul_and_wide_characters() {
    let value = parse(&"$8\r\na\0b\u{e9}\u{4e16}\r\n".to_string());
    assert_eq!(value, Ok(Value::String("a\0b\u{e9}\u{4e16}".to_string())));
}

#[test]
fn simple_string_with_wide_characters() {
    let value = parse(&"+h\u{e9}llo\r\n".to_string());
    assert_eq!(value, Ok(Value::String("h\u{e9}llo".to_string())));
}

#[test]
fn negative_number() {
    assert_eq!(parse(&":-42\r\n".to_string()), Ok(Value::Number(-42)));
    assert_eq!(
        parse(&":-9223372036854775808\r\n".to_string()),
        Ok(Value::Number(i64::MIN))
    );
    assert_eq!(
        parse(&":9223372036854775807\r\n".to_string()),
        Ok(Value::Number(i64::MAX))
    );
}

#[test]
fn number_that_is_no_integer_is_malformed() {
    assert_eq!(parse(&":1.5\r\n".to_string()), Err(MyError::MalformedFrame));
    assert_eq!(parse(&":\r\n".to_string()), Err(MyError::MalformedFrame));
    assert_eq!(parse(&":+5\r\n".to_string()), Err(MyError::MalformedFrame));
    assert_eq!(parse(&":12a\r\n".to_string()), Err(MyError::MalformedFrame));
    assert_eq!(parse(&": 12\r\n".to_string()), Err(MyError::MalformedFrame));
    assert_eq!(
        parse(&":9223372036854775808\r\n".to_string()),
        Err(MyError::MalformedFrame)
    );
}

#[test]
fn length_that_is_no_integer_is_malformed() {
    assert_eq!(parse(&"$abc\r\nhello\r\n".to_string()), Err(MyError::MalformedFrame));
    assert_eq!(parse(&"$\r\nhello\r\n".to_string()), Err(MyError::MalformedFrame));
    assert_eq!(parse(&"*x\r\n".to_string()), Err(MyError::MalformedFrame));
    assert_eq!(parse(&"*\r\n".to_string()), Err(MyError::MalformedFrame));
}

#[test]
fn length_below_minus_one_is_malformed() {
    assert_eq!(parse(&"$-2\r\n".to_string()), Err(MyError::MalformedFrame));
    assert_eq!(parse(&"*-2\r\n".to_string()), Err(MyError::MalformedFrame));
}

#[test]
fn unknown_tag_is_malformed() {
    assert_eq!(parse(&"?what\r\n".to_string()), Err(MyError::MalformedFrame));
    assert_eq!(parse(&"ping\r\n".to_string()), Err(MyError::MalformedFrame));
}

#[test]
fn empty_line_is_malformed() {
    assert_eq!(parse(&"\r\n".to_string()), Err(MyError::MalformedFrame));
}

#[test]
fn wrong_byte_behind_bulk_payload_is_malformed() {
    assert_eq!(parse(&"$5\r\nhelloX\r\n".to_string()), Err(MyError::MalformedFrame));
}

#[test]
fn empty_stream_is_connection_closed() {
    assert_eq!(parse(&"".to_string()), Err(MyError::ConnectionClosed));
}

#[test]
fn stream_that_ends_inside_a_frame_is_incomplete() {
    assert_eq!(parse(&"+OK".to_string()), Err(MyError::IncompleteFrame));
    assert_eq!(parse(&"$5\r\nhel".to_string()), Err(MyError::IncompleteFrame));
    assert_eq!(parse(&"*2\r\n:1\r\n".to_string()), Err(MyError::IncompleteFrame));
    assert_eq!(parse(&"*1\r\n".to_string()), Err(MyError::IncompleteFrame));
}

#[test]
fn degenerate_line_terminators() {
    assert_eq!(parse(&"+OK\n".to_string()), Ok(Value::String("OK".to_string())));
    assert_eq!(parse(&"+OK\r".to_string()), Ok(Value::String("OK".to_string())));
    assert_eq!(
        parse(&"$2\nhi\n".to_string()),
        Ok(Value::String("hi".to_string()))
    );
    assert_eq!(
        parse(&"*2\n:1\r:2\n".to_string()),
        Ok(Value::Array(vec![Value::Number(1), Value::Number(2)]))
    );
}

#[test]
fn only_the_first_value_is_read() {
    assert_eq!(parse(&":1\r\n:2\r\n".to_string()), Ok(Value::Number(1)));
}

#[test]
fn line_that_is_not_utf8_is_malformed() {
    let mut parser = Parser::new(vec![b'+', 0xff, b'\r', b'\n']);
    assert_eq!(parser.parse(), Err(MyError::MalformedFrame));
}

#[test]
fn bulk_payload_that_is_not_utf8_is_malformed() {
    let mut parser = Parser::new(vec![b'$', b'2', b'\r', b'\n', 0xc3, 0x28, b'\r', b'\n']);
    assert_eq!(parser.parse(), Err(MyError::MalformedFrame));
}

#[test]
fn parser_asks_for_more_bytes_while_the_stream_is_open() {
    let mut parser = Parser::new(b"*2\r\n$4\r\nec".to_vec());
    assert_eq!(parser.parse(), Ok(None));
    parser.feed(b"ho\r\n$2\r\nhi");
    assert_eq!(parser.parse(), Ok(None));
    parser.feed(b"\r");
    assert_eq!(parser.parse(), Ok(None));
    parser.feed(b"\n");
    assert_eq!(
        parser.parse(),
        Ok(Some(Value::Array(vec![
            Value::String("echo".to_string()),
            Value::String("hi".to_string()),
        ])))
    );
    assert_eq!(parser.parse(), Ok(None));
    parser.close();
    assert_eq!(parser.parse(), Err(MyError::ConnectionClosed));
}

#[test]
fn parser_reads_requests_in_order() {
    let mut parser = Parser::new(b"+one\r\n:2\r\n$5\r\nthree\r\n".to_vec());
    assert_eq!(parser.parse(), Ok(Some(Value::String("one".to_string()))));
    assert_eq!(parser.parse(), Ok(Some(Value::Number(2))));
    assert_eq!(parser.parse(), Ok(Some(Value::String("three".to_string()))));
    assert_eq!(parser.parse(), Ok(None));
}

#[test]
fn parser_keeps_the_bytes_after_an_error() {
    let mut parser = Parser::new(b"?\r\n+OK\r\n".to_vec());
    assert_eq!(parser.parse(), Err(MyError::MalformedFrame));
    assert_eq!(parser.read_line(), Ok(Some("?".to_string())));
    assert_eq!(parser.parse(), Ok(Some(Value::String("OK".to_string()))));
}

#[test]
fn one_byte_at_a_time_gives_what_all_at_once_gives() {
    let inputs: Vec<&[u8]> = vec![
        b"*2\r\n*3\r\n:1\r\n:2\r\n:3\r\n*2\r\n+Foo\r\n-Bar\r\n",
        b"$12\r\nhello\r\nworld\r\n",
        b"$11\r\nhello\nworld",
        b"+OK\r",
        b"$abc\r\nhello\r\n",
        b"*2\r\n:1\r\n",
        b"",
        b"$-1\r\n+next\r\n",
    ];
    for input in inputs {
        let mut whole = Parser::new(input.to_vec());
        whole.close();
        let expected = whole.parse();
        assert_ne!(expected, Ok(None));

        let mut parser = Parser::new(Vec::new());
        let mut found = parser.parse();
        let mut i = 0;
        while found == Ok(None) && i < input.len() {
            parser.feed(&input[i..i + 1]);
            found = parser.parse();
            i += 1;
        }
        if found == Ok(None) {
            parser.close();
            found = parser.parse();
        }
        assert_eq!(found, expected);
    }
}

#[test]
fn read_line_takes_the_terminator_with_the_line() {
    let mut parser = Parser::new(b"first\r\nsecond\nthird\rfourth".to_vec());
    assert_eq!(parser.read_line(), Ok(Some("first".to_string())));
    assert_eq!(parser.read_line(), Ok(Some("second".to_string())));
    assert_eq!(parser.read_line(), Ok(Some("third".to_string())));
    assert_eq!(parser.read_line(), Ok(None));
    parser.close();
    assert_eq!(parser.read_line(), Err(MyError::IncompleteFrame));
}

#[test]
fn read_line_waits_for_the_line_feed_behind_a_carriage_return() {
    let mut parser = Parser::new(b"line\r".to_vec());
    assert_eq!(parser.read_line(), Ok(None));
    parser.feed(b"\nnext\r");
    assert_eq!(parser.read_line(), Ok(Some("line".to_string())));
    assert_eq!(parser.read_line(), Ok(None));
    parser.close();
    assert_eq!(parser.read_line(), Ok(Some("next".to_string())));
    assert_eq!(parser.read_line(), Err(MyError::IncompleteFrame));
}

#[test]
fn read_line_refuses_bytes_that_are_not_utf8() {
    let mut parser = Parser::new(vec![0xff, 0xfe, b'\n', b'o', b'k', b'\n']);
    assert_eq!(parser.read_line(), Err(MyError::MalformedFrame));
}

#[test]
fn read_exact_takes_any_bytes() {
    let mut parser = Parser::new(vec![0xff, b'\r', b'\n', 0x00, b'\r', b'\n', b'x']);
    assert_eq!(parser.read_exact(4), Ok(Some(vec![0xff, b'\r', b'\n', 0x00])));
    assert_eq!(parser.read_exact(0), Err(MyError::MalformedFrame));
    assert_eq!(parser.read_exact(1), Ok(None));
    parser.close();
    assert_eq!(parser.read_exact(1), Err(MyError::IncompleteFrame));
    assert_eq!(parser.read_exact(2), Err(MyError::IncompleteFrame));
    assert_eq!(parser.read_exact(0), Err(MyError::MalformedFrame));
    assert_eq!(parser.read_line(), Err(MyError::IncompleteFrame));
}

#[test]
fn read_exact_at_the_end_of_the_stream() {
    let mut parser = Parser::new(b"ab\r".to_vec());
    assert_eq!(parser.read_exact(2), Ok(None));
    parser.close();
    assert_eq!(parser.read_exact(2), Ok(Some(b"ab".to_vec())));
    assert_eq!(parser.read_exact(0), Err(MyError::IncompleteFrame));
}

#[test]
fn bulk_string_without_terminator_is_incomplete() {
    assert_eq!(parse(&"$5\r\nhello".to_string()), Err(MyError::IncompleteFrame));
    assert_eq!(parse(&"$0\r\n".to_string()), Err(MyError::IncompleteFrame));
    assert_eq!(
        parse(&"*1\r\n$5\r\nhello".to_string()),
        Err(MyError::IncompleteFrame)
    );
    let mut parser = Parser::new(b"$5\r\nhello".to_vec());
    assert_eq!(parser.parse(), Ok(None));
    parser.feed(b"\n");
    assert_eq!(parser.parse(), Ok(Some(Value::String("hello".to_string()))));
}

#[test]
fn read_exact_wants_a_terminator_behind_the_block() {
    let mut parser = Parser::new(b"abcdef\r\n".to_vec());
    assert_eq!(parser.read_exact(3), Err(MyError::MalformedFrame));
    assert_eq!(parser.read_exact(6), Ok(Some(b"abcdef".to_vec())));
    assert_eq!(parser.read_exact(2), Ok(None));
}
