use memcached::{
    command_parse, get_command_parser, parse_next, set_command_parser, Command, ParseCommandError,
    ParseGetCommandError, ParseSetCommandError,
};

#[test]
fn it_parses_one_key() {
    let ex = "get key\r\n";
    assert_eq!(
        get_command_parser(ex),
        Ok(("", Command::Get(vec!["key".to_string()])))
    );
}

#[test]
fn it_parses_two_keys() {
    let ex = "get key1 key2\r\n";
    assert_eq!(
        get_command_parser(ex),
        Ok((
            "",
            Command::Get(vec!["key1".to_string(), "key2".to_string()])
        ))
    );
}

#[test]
fn it_parses_simple_set() {
    let ex = "set xyzkey 0 0 6\r\nabcdef\r\n";
    assert_eq!(
        set_command_parser(ex),
        Ok(("", Command::Store("xyzkey".to_string(), "abcdef".to_string())))
    );
}

#[test]
fn it_fails_to_parse_when_size_is_smaller() {
    let ex = "set xyzkey 0 0 4\r\nabcdef\r\n";
    assert_eq!(
        set_command_parser(ex),
        Err(ParseSetCommandError::Terminator("ef\r\n".to_string()))
    );
}

#[test]
fn it_fails_to_parse_when_size_is_bigger() {
    let ex = "set xyzkey 0 0 10\r\nabcdef\r\n";
    let parser = set_command_parser(ex);
    assert_eq!(
        parser,
        Err(ParseSetCommandError::ShortPayload("abcdef\r\n".to_string()))
    );
}

#[test]
fn it_tests_the_parser() {
    let ex = "set xyzkey 0 0 6\r\nabcdef\r\n";
    let parser = command_parse(ex);
    assert_eq!(
        parser,
        Ok(Command::Store("xyzkey".to_string(), "abcdef".to_string())),
    );
}

#[test]
fn get_keeps_order_and_duplicates() {
    assert_eq!(
        command_parse("get c a c\r\n"),
        Ok(Command::Get(vec!["c".to_string(), "a".to_string(), "c".to_string()]))
    );
}

#[test]
fn get_returns_what_follows_the_line() {
    assert_eq!(
        get_command_parser("get a\r\nget b\r\n"),
        Ok(("get b\r\n", Command::Get(vec!["a".to_string()])))
    );
}

#[test]
fn get_rejects_empty_key() {
    assert_eq!(
        get_command_parser("get a  b\r\n"),
        Err(ParseGetCommandError::BadKey("a  b\r\n".to_string()))
    );
    assert_eq!(
        get_command_parser("get \r\n"),
        Err(ParseGetCommandError::BadKey("\r\n".to_string()))
    );
}

#[test]
fn get_rejects_control_character() {
    assert_eq!(
        get_command_parser("get a\tb\r\n"),
        Err(ParseGetCommandError::BadKey("a\tb\r\n".to_string()))
    );
}

#[test]
fn get_rejects_missing_terminator() {
    assert_eq!(
        get_command_parser("get a"),
        Err(ParseGetCommandError::Unterminated("a".to_string()))
    );
    assert_eq!(
        get_command_parser("get a\rx"),
        Err(ParseGetCommandError::LineEnding("\rx".to_string()))
    );
    assert_eq!(
        get_command_parser("got a\r\n"),
        Err(ParseGetCommandError::Prefix("got a\r\n".to_string()))
    );
}

#[test]
fn set_payload_may_hold_crlf() {
    assert_eq!(
        set_command_parser("set k 1 2 4\r\na\r\nb\r\nrest"),
        Ok(("rest", Command::Store("k".to_string(), "a\r\nb".to_string())))
    );
}

#[test]
fn set_accepts_empty_payload() {
    assert_eq!(
        set_command_parser("set k 0 0 0\r\n\r\n"),
        Ok(("", Command::Store("k".to_string(), "".to_string())))
    );
}

#[test]
fn set_rejects_bad_fields() {
    assert_eq!(
        set_command_parser("set k x 0 1\r\na\r\n"),
        Err(ParseSetCommandError::BadNumber("x 0 1\r\na\r\n".to_string()))
    );
    assert_eq!(
        set_command_parser("set k 0 0 \r\na\r\n"),
        Err(ParseSetCommandError::BadNumber("\r\na\r\n".to_string()))
    );
    assert_eq!(
        set_command_parser("set  0 0 1\r\na\r\n"),
        Err(ParseSetCommandError::BadKey(" 0 0 1\r\na\r\n".to_string()))
    );
    assert_eq!(
        set_command_parser("set k 0 0 1x\r\na\r\n"),
        Err(ParseSetCommandError::HeaderEnd("x\r\na\r\n".to_string()))
    );
    assert_eq!(
        set_command_parser("get k\r\n"),
        Err(ParseSetCommandError::Prefix("get k\r\n".to_string()))
    );
}

#[test]
fn set_rejects_oversized_length() {
    assert_eq!(
        set_command_parser("set k 0 0 99999999999999999999999\r\na\r\n"),
        Err(ParseSetCommandError::TooLarge("99999999999999999999999\r\na\r\n".to_string()))
    );
}

#[test]
fn unknown_command_is_unrecognized() {
    assert_eq!(
        command_parse("foo\r\n"),
        Err(ParseCommandError::Unrecognized("foo\r\n".to_string()))
    );
    assert_eq!(
        command_parse(""),
        Err(ParseCommandError::Unrecognized("".to_string()))
    );
}

#[test]
fn command_parse_reports_the_failing_kind() {
    assert_eq!(
        command_parse("get \r\n"),
        Err(ParseCommandError::ParseGetCommandError(ParseGetCommandError::BadKey("\r\n".to_string())))
    );
    assert_eq!(
        command_parse("set k 0 0 2\r\nabc\r\n"),
        Err(ParseCommandError::ParseSetCommandError(ParseSetCommandError::Terminator(
            "c\r\n".to_string()
        )))
    );
}

#[test]
fn set_length_counts_bytes() {
    assert_eq!(
        set_command_parser("set k 0 0 4\r\néé\r\n\r\n"),
        Ok(("\r\n", Command::Store("k".to_string(), "éé".to_string())))
    );
    assert_eq!(
        set_command_parser("set k 0 0 2\r\néx\r\n"),
        Err(ParseSetCommandError::Terminator("x\r\n".to_string()))
    );
    assert_eq!(
        set_command_parser("set k 0 0 1\r\né\r\n"),
        Err(ParseSetCommandError::Split("é\r\n".to_string()))
    );
}

#[test]
fn set_short_payload_waits_for_more() {
    assert_eq!(
        set_command_parser("set k 0 0 5\r\nab\r\n"),
        Err(ParseSetCommandError::ShortPayload("ab\r\n".to_string()))
    );
}

#[test]
fn parse_next_returns_the_rest() {
    assert_eq!(
        parse_next("set a 0 0 1\r\n1\r\nget a\r\n"),
        Ok(("get a\r\n", Command::Store("a".to_string(), "1".to_string())))
    );
}
