use clankircd::{Message, ParseError};

#[test]
fn parse_command_and_params() {
    let parsed = Message::parse("privmsg #chan :hello world\r\n").expect("valid message");
    assert_eq!(parsed.command, "PRIVMSG");
    assert_eq!(parsed.params, vec!["#chan", "hello world"]);
}

#[test]
fn parse_prefix() {
    let parsed = Message::parse(":nick!u@h NOTICE #chan :hi there").expect("valid");
    assert_eq!(parsed.prefix.as_deref(), Some("nick!u@h"));
    assert_eq!(parsed.command, "NOTICE");
}

#[test]
fn serializes_with_crlf() {
    let msg = Message {
        prefix: None,
        command: "PING".to_string(),
        params: vec!["123".to_string()],
    };
    assert_eq!(msg.serialize(), "PING 123\r\n");
}

#[test]
fn serializes_trailing_param() {
    let msg = Message {
        prefix: Some("server.test".to_string()),
        command: "001".to_string(),
        params: vec!["nick".to_string(), "Welcome to clankircd".to_string()],
    };
    assert_eq!(
        msg.serialize(),
        ":server.test 001 nick :Welcome to clankircd\r\n"
    );
}

#[test]
fn blank_lines_are_refused() {
    assert!(matches!(Message::parse(""), Err(ParseError::EmptyLine)));
    assert!(matches!(Message::parse("\r\n"), Err(ParseError::EmptyLine)));
    assert!(matches!(Message::parse("  \t \r\n"), Err(ParseError::EmptyLine)));
    assert!(matches!(Message::parse("\u{3000}"), Err(ParseError::EmptyLine)));
}

#[test]
fn prefix_without_command_is_refused() {
    assert!(matches!(Message::parse(":only-prefix"), Err(ParseError::EmptyLine)));
    assert!(matches!(Message::parse(":only-prefix\r\n"), Err(ParseError::EmptyLine)));
}

#[test]
fn parse_command_alone_is_upper_cased() {
    let parsed = Message::parse("ping").expect("valid");
    assert_eq!(parsed.prefix, None);
    assert_eq!(parsed.command, "PING");
    assert!(parsed.params.is_empty());
}

#[test]
fn parse_skips_extra_whitespace_between_params() {
    let parsed = Message::parse(":p   user  a   b  :c d  \n").expect("valid");
    assert_eq!(parsed.prefix.as_deref(), Some("p"));
    assert_eq!(parsed.command, "USER");
    assert_eq!(parsed.params, vec!["a", "b", "c d  "]);
}

#[test]
fn parse_empty_trailing_param() {
    let parsed = Message::parse("TOPIC #x :").expect("valid");
    assert_eq!(parsed.params, vec!["#x", ""]);
}

#[test]
fn parse_leading_space_gives_empty_command() {
    let parsed = Message::parse(" x").expect("valid");
    assert_eq!(parsed.command, "");
    assert_eq!(parsed.params, vec!["x"]);
}

#[test]
fn parse_only_ascii_is_upper_cased() {
    let parsed = Message::parse("ça va").expect("valid");
    assert_eq!(parsed.command, "çA");
    assert_eq!(parsed.params, vec!["va"]);
}

#[test]
fn serializes_colon_and_empty_last_params() {
    let msg = Message {
        prefix: None,
        command: "X".to_string(),
        params: vec![":a".to_string(), "".to_string()],
    };
    assert_eq!(msg.serialize(), "X :a :\r\n");
    let msg = Message {
        prefix: None,
        command: "X".to_string(),
        params: vec![":a".to_string()],
    };
    assert_eq!(msg.serialize(), "X ::a\r\n");
}

#[test]
fn serialize_then_parse_gives_the_message_back() {
    let msg = Message {
        prefix: Some("nick!user@localhost".to_string()),
        command: "PRIVMSG".to_string(),
        params: vec!["#chan".to_string(), "hello there".to_string()],
    };
    let parsed = Message::parse(&msg.serialize()).expect("valid");
    assert_eq!(parsed, msg);
    let msg = Message {
        prefix: None,
        command: "PONG".to_string(),
        params: vec!["123".to_string(), "".to_string()],
    };
    let parsed = Message::parse(&msg.serialize()).expect("valid");
    assert_eq!(parsed, msg);
}

#[test]
fn line_ending_changes_nothing() {
    for line in ["privmsg #c :hi", ":p NOTICE x", "PING", "a b c\r"] {
        let with_ending = format!("{line}\r\n");
        let a = Message::parse(line).expect("valid");
        let b = Message::parse(&with_ending).expect("valid");
        assert_eq!(a, b);
    }
}
