use irc_parse::message::{Message, Parameterized, Prefixed};
use irc_parse::parser::{Parser, Pull};
use irc_parse::read_parser::{Parsable, ParseError, ParsedMessage};

fn parse_one(input: &str) -> (ParsedMessage, usize) {
    <ParsedMessage as Parsable>::parse(input.as_bytes())
        .unwrap()
        .unwrap()
}

#[test]
fn welcome_reply_with_server_prefix() {
    let (msg, used) =
        parse_one(":irc.example.com 001 test :Welcome to the Internet Relay Network\r\n");
    assert_eq!(used, 66);
    assert_eq!(msg.command(), "001");
    assert_eq!(msg.prefix(), Some("irc.example.com".to_string()));
    assert_eq!(msg.nick(), Some("irc.example.com".to_string()));
    assert_eq!(msg.user(), None);
    assert_eq!(msg.host(), None);
    assert_eq!(
        msg.params(),
        vec!["test", "Welcome to the Internet Relay Network"]
    );
}

#[test]
fn full_prefix_without_parameters() {
    let (msg, used) = parse_one(":nick!user@host 000\r\n");
    assert_eq!(used, 21);
    assert_eq!(msg.nick(), Some("nick".to_string()));
    assert_eq!(msg.user(), Some("user".to_string()));
    assert_eq!(msg.host(), Some("host".to_string()));
    assert_eq!(msg.prefix(), Some("nick!user@host".to_string()));
    assert_eq!(msg.command(), "000");
    assert!(msg.params().is_empty());
}

#[test]
fn middle_parameter() {
    let (msg, _) = parse_one("000 param\r\n");
    assert_eq!(msg.prefix(), None);
    assert_eq!(msg.nick(), None);
    assert_eq!(msg.params(), vec!["param"]);
}

#[test]
fn trailing_parameter_decodes_like_a_middle_one() {
    let (middle, _) = parse_one("000 param\r\n");
    let (trailing, _) = parse_one("000 :param\r\n");
    assert_eq!(trailing.params(), vec!["param"]);
    assert_eq!(middle.params(), trailing.params());
    assert!(middle != trailing);
}

#[test]
fn cr_without_lf_waits_then_completes() {
    let first = <ParsedMessage as Parsable>::parse("PING\r".as_bytes());
    assert!(matches!(first, Ok(None)));

    let (msg, used) = parse_one("PING\r\n");
    assert_eq!(used, 6);
    assert_eq!(msg.command(), "PING");
    assert!(msg.params().is_empty());

    let mut parser = Parser::new();
    parser.push_buf("PING\r".as_bytes());
    assert!(matches!(parser.next_message(), Pull::NeedMore));
    parser.push_buf("\n".as_bytes());
    match parser.next_message() {
        Pull::Message(m) => {
            assert_eq!(m.command(), "PING");
            assert!(m.params().is_empty());
        }
        _ => panic!("expected a message"),
    }
}

#[test]
fn cr_followed_by_other_byte_is_malformed() {
    let r = <ParsedMessage as Parsable>::parse("PING\rPONG".as_bytes());
    assert!(matches!(r, Err(ParseError::Invalid)));
}
