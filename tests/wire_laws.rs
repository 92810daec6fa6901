use irc_parse::message::{Message, Parameterized, Prefixed};
use irc_parse::parser::{Parser, Pull};
use irc_parse::read_parser::{Parsable, ParseError, ParsedMessage};

fn parse(bytes: &[u8]) -> Result<Option<(ParsedMessage, usize)>, ParseError> {
    <ParsedMessage as Parsable>::parse(bytes)
}

#[test]
fn serialized_fields_come_back() {
    let wire = ":alice!al@example.org PRIVMSG #chan other :hi there: you\r\n";
    let (msg, used) = parse(wire.as_bytes()).unwrap().unwrap();
    assert_eq!(used, wire.len());
    assert_eq!(msg.to_string(), wire.trim_end_matches("\r\n"));
    assert_eq!(msg.nick(), Some("alice".to_string()));
    assert_eq!(msg.user(), Some("al".to_string()));
    assert_eq!(msg.host(), Some("example.org".to_string()));
    assert_eq!(msg.prefix(), Some("alice!al@example.org".to_string()));
    assert_eq!(msg.command(), "PRIVMSG");
    assert_eq!(msg.params(), vec!["#chan", "other", "hi there: you"]);
}

#[test]
fn every_strict_prefix_is_incomplete() {
    let wire = ":n!u@h CMD a b :t t\r\n".as_bytes();
    for k in 0..wire.len() {
        assert!(matches!(parse(&wire[..k]), Ok(None)), "prefix of length {}", k);
    }
    assert!(matches!(parse(wire), Ok(Some(_))));
}

#[test]
fn bad_line_end_after_any_content() {
    for input in ["\rX", "CMD\rX", "CMD a b\r ", ":n CMD :x y\rz", ":n!u@h CMD m\r\r"] {
        assert!(
            matches!(parse(input.as_bytes()), Err(ParseError::Invalid)),
            "input {:?}",
            input
        );
    }
}

#[test]
fn cr_inside_a_prefix_belongs_to_the_nick() {
    let (msg, _) = parse(":a\rb c\r\n".as_bytes()).unwrap().unwrap();
    assert_eq!(msg.nick(), Some("a\rb".to_string()));
    assert_eq!(msg.command(), "c");
}

#[test]
fn two_messages_back_to_back() {
    let first = ":irc.example.com 001 test :Message1\r\n";
    let second = "PING :server\r\n";
    let both = format!("{}{}", first, second);

    let (m1, used1) = parse(both.as_bytes()).unwrap().unwrap();
    assert_eq!(used1, first.len());
    let (m2, used2) = parse(&both.as_bytes()[used1..]).unwrap().unwrap();
    assert_eq!(used2, second.len());
    assert_eq!(m1.params(), vec!["test", "Message1"]);
    assert_eq!(m2.command(), "PING");

    let mut parser = Parser::new();
    parser.push_buf(both.as_bytes());
    parser.close();
    let mut seen = Vec::new();
    loop {
        match parser.next_message() {
            Pull::Message(m) => seen.push(m.command()),
            Pull::Ended => break,
            _ => panic!("unexpected pull"),
        }
    }
    assert_eq!(seen, vec!["001", "PING"]);
}
