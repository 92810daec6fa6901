use irc_parse::message::{Message, Parameterized, Prefixed};
use irc_parse::parser::{Parser, Pull};
use irc_parse::read_parser::{
    command, host, nick, param_middle, param_trailing, params, start, user, Parsable, ParseError,
    ParsedMessage, State,
};
use irc_parse::spans::SpanList;

fn parse(bytes: &[u8]) -> Result<Option<(ParsedMessage, usize)>, ParseError> {
    <ParsedMessage as Parsable>::parse(bytes)
}

#[test]
fn empty_buffer_is_incomplete() {
    assert!(matches!(parse(b""), Ok(None)));
}

#[test]
fn spaces_make_no_empty_parameters() {
    let (msg, _) = parse(b"CMD a   b \r\n").unwrap().unwrap();
    assert_eq!(msg.params(), vec!["a", "b"]);
    let (msg, _) = parse(b"CMD \r\n").unwrap().unwrap();
    assert!(msg.params().is_empty());
}

#[test]
fn explicit_empty_trailing_parameter() {
    let (msg, _) = parse(b"CMD a :\r\n").unwrap().unwrap();
    assert_eq!(msg.params(), vec!["a", ""]);
}

#[test]
fn prefix_with_host_only_and_user_only() {
    let (msg, _) = parse(b":nick@host CMD\r\n").unwrap().unwrap();
    assert_eq!(msg.nick(), Some("nick".to_string()));
    assert_eq!(msg.user(), None);
    assert_eq!(msg.host(), Some("host".to_string()));
    assert_eq!(msg.prefix(), Some("nick@host".to_string()));

    let (msg, _) = parse(b":nick!user CMD\r\n").unwrap().unwrap();
    assert_eq!(msg.user(), Some("user".to_string()));
    assert_eq!(msg.host(), None);
    assert_eq!(msg.prefix(), Some("nick!user".to_string()));
}

#[test]
fn longest_line_parses_and_longer_waits() {
    let mut longest = b"CMD :".to_vec();
    longest.resize(65535, b'x');
    longest.extend_from_slice(b"\r\n");
    let (msg, used) = parse(&longest).unwrap().unwrap();
    assert_eq!(used, 65537);
    assert_eq!(msg.params()[0].len(), 65530);

    let mut too_long = b"CMD :".to_vec();
    too_long.resize(65536, b'x');
    too_long.extend_from_slice(b"\r\n");
    assert!(matches!(parse(&too_long), Ok(None)));
}

#[test]
fn ill_formed_utf8_is_replaced() {
    let (msg, _) = parse(b"CMD \xff\xfe :caf\xc3\xa9\r\n").unwrap().unwrap();
    assert_eq!(msg.params(), vec!["\u{FFFD}\u{FFFD}", "caf\u{e9}"]);
}

#[test]
fn equality_is_equality_of_lines() {
    let (a, _) = parse(b"PING x\r\n").unwrap().unwrap();
    let (b, _) = parse(b"PING x\r\nPONG\r\n").unwrap().unwrap();
    let (c, _) = parse(b"PING  x\r\n").unwrap().unwrap();
    assert!(a == b);
    assert!(a != c);
    assert_eq!(a.params(), c.params());
}

#[test]
fn failure_is_terminal_for_the_reader() {
    let mut parser = Parser::new();
    parser.push_buf(b"A\rB\r\n");
    assert!(matches!(parser.next_message(), Pull::Failed(ParseError::Invalid)));
    parser.push_buf(b"PING\r\n");
    assert!(matches!(parser.next_message(), Pull::Failed(ParseError::Invalid)));
}

#[test]
fn leftover_bytes_are_dropped_when_the_source_closes() {
    let mut parser = Parser::new();
    parser.push("PING\r\nPAR".to_string());
    assert!(matches!(parser.next_message(), Pull::Message(_)));
    assert!(matches!(parser.next_message(), Pull::NeedMore));
    parser.close();
    assert!(matches!(parser.next_message(), Pull::Ended));
    assert!(matches!(parser.next_message(), Pull::Ended));
}

#[test]
fn step_functions_report_offsets() {
    let mut offset = 0;
    assert_eq!(start(b":n", &mut offset), State::Nick);
    assert_eq!(offset, 1);
    let mut offset = 0;
    assert_eq!(start(b"CMD", &mut offset), State::Command);
    assert_eq!(offset, 0);
    assert_eq!(start(b"", &mut offset), State::EOF);

    let mut offset = 1;
    let mut found = None;
    assert_eq!(nick(b"ni!u", &mut offset, &mut found), State::User);
    assert_eq!(found, Some((1, 3)));
    assert_eq!(offset, 4);
    assert_eq!(user(b"u@h ", &mut offset, &mut found), State::Host);
    assert_eq!(found, Some((4, 5)));
    assert_eq!(offset, 6);
    assert_eq!(host(b"h CMD", &mut offset, &mut found), State::Command);
    assert_eq!(found, Some((6, 7)));
    assert_eq!(offset, 8);
    let mut offset = 8;
    assert_eq!(host(b"hh", &mut offset, &mut found), State::EOF);
    assert_eq!(offset, 8);

    let mut cmd = (0, 0);
    let mut offset = 8;
    assert_eq!(command(b"CMD x", &mut offset, &mut cmd), State::Params);
    assert_eq!(cmd, (8, 11));
    assert_eq!(offset, 12);
    let mut offset = 0;
    assert_eq!(command(b"PING\r\n", &mut offset, &mut cmd), State::End);
    assert_eq!(cmd, (0, 4));
    assert_eq!(offset, 4);

    let mut offset = 3;
    assert_eq!(params(b" x", &mut offset), State::Params);
    assert_eq!(offset, 4);
    assert_eq!(params(b":x", &mut offset), State::ParamTrailing);
    assert_eq!(offset, 5);
    assert_eq!(params(b"\r\n", &mut offset), State::End);
    assert_eq!(params(b"x", &mut offset), State::ParamMiddle);
    assert_eq!(params(b"", &mut offset), State::EOF);

    let mut spans = SpanList::new();
    let mut offset = 4;
    assert_eq!(param_middle(b"ab cd", &mut offset, &mut spans), State::Params);
    assert_eq!(offset, 7);
    assert_eq!(param_middle(b"cd\r\n", &mut offset, &mut spans), State::End);
    assert_eq!(offset, 9);
    let mut offset = 20;
    assert_eq!(param_trailing(b"a b\r\n", &mut offset, &mut spans), State::End);
    assert_eq!(offset, 23);
    assert_eq!(spans.as_slice(), &[(4, 6), (7, 9), (20, 23)]);
    assert_eq!(param_trailing(b"no end", &mut offset, &mut spans), State::EOF);
    assert_eq!(spans.as_slice().len(), 3);
}

#[test]
fn multibyte_fields_decode_exactly() {
    let (msg, _) = parse(":zoë!ü@höst PRIVMSG #café :grüße, ☃\r\n".as_bytes())
        .unwrap()
        .unwrap();
    assert_eq!(msg.nick(), Some("zoë".to_string()));
    assert_eq!(msg.user(), Some("ü".to_string()));
    assert_eq!(msg.host(), Some("höst".to_string()));
    assert_eq!(msg.params(), vec!["#café", "grüße, ☃"]);
}

fn summary<T: irc_parse::message::IRCMessage>(m: &T) -> String {
    format!("{}:{}:{}", m.nick().unwrap_or_default(), m.command(), m.params().len())
}

#[test]
fn all_capabilities_through_one_bound() {
    let (msg, _) = parse(b":n PING a b\r\n").unwrap().unwrap();
    assert_eq!(summary(&msg), "n:PING:2");
}
