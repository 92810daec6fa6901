use irc_parse::message::{Message, Parameterized, Prefixed};
use irc_parse::read_parser::{Parsable, ParseError, ParsedMessage};

#[test]
fn read_parser_test_parse() {
    let msg = ":irc.example.com 001 test :Welcome to the Internet Relay Network\r\n".as_bytes();
    let msg = <ParsedMessage as Parsable>::parse(msg);
    let msg = msg.unwrap().unwrap().0;

    assert_eq!(msg.command(), "001");
    assert_eq!(
        msg.params(),
        vec!["test", "Welcome to the Internet Relay Network"]
    );
}

#[test]
fn test_parse_two() {
    let buf = "PING\r\n".as_bytes().repeat(2);
    let msg = <ParsedMessage as Parsable>::parse(&buf);
    let (msg, pos) = msg.unwrap().unwrap();
    assert_ne!(pos, 0);

    let msg2 = <ParsedMessage as Parsable>::parse(&buf[pos..]);
    let msg2 = msg2.unwrap().unwrap().0;

    assert_eq!(msg.command(), msg2.command());
}

#[test]
fn test_parse_newline_incomplete() {
    let buf = "PING\r".as_bytes();
    let msg = <ParsedMessage as Parsable>::parse(buf);
    assert!(matches!(msg, Ok(None)));
}

#[test]
fn test_parse_newline_invalid() {
    let buf = "PING\rPONG".as_bytes();
    let msg = <ParsedMessage as Parsable>::parse(buf);
    assert!(matches!(msg, Err(ParseError::Invalid)));
}

#[test]
fn test_param_middle() {
    let msg = "000 param\r\n".as_bytes();
    let msg = <ParsedMessage as Parsable>::parse(msg);
    let msg = msg.unwrap().unwrap().0;

    assert_eq!(msg.params(), vec!["param"]);
}

#[test]
fn test_param_trailing() {
    let msg = "000 :param\r\n".as_bytes();
    let msg = <ParsedMessage as Parsable>::parse(msg);
    let msg = msg.unwrap().unwrap().0;

    assert_eq!(msg.params(), vec!["param"]);
}

#[test]
fn test_full_prefix() {
    let msg = ":nick!user@host 000\r\n".as_bytes();
    let msg = <ParsedMessage as Parsable>::parse(msg);
    let msg = msg.unwrap().unwrap().0;

    assert_eq!(msg.nick(), Some("nick".to_string()));
    assert_eq!(msg.user(), Some("user".to_string()));
    assert_eq!(msg.host(), Some("host".to_string()));
}

#[test]
fn read_parser_test_parse_with_prefix() {
    let msg =
        ":<nick>!<user>@<user>.tmi.twitch.tv PRIVMSG #<channel> :This is a sample message\r\n"
            .as_bytes();
    let msg = <ParsedMessage as Parsable>::parse(msg);
    let msg = msg.unwrap().unwrap().0;

    assert_eq!(msg.command(), "PRIVMSG");
    assert_eq!(msg.nick(), Some("<nick>".to_string()));
    assert_eq!(msg.user(), Some("<user>".to_string()));
    assert_eq!(msg.host(), Some("<user>.tmi.twitch.tv".to_string()));
    assert_eq!(msg.params(), vec!["#<channel>", "This is a sample message"]);
}

#[test]
fn read_parser_test_parse_incomplete() {
    let msgs = vec![
        ":",
        ":nick",
        ":nick!",
        ":nick!user",
        ":nick!user@",
        ":nick!user@host",
        ":nick!user@host ",
        ":nick!user@host 001",
        ":nick!user@host 001 ",
        ":nick!user@host 001 param",
        ":nick!user@host 001 :",
        ":nick!user@host 001 :trailing",
    ];

    for msg in msgs {
        let msg = <ParsedMessage as Parsable>::parse(msg.as_bytes());
        assert!(msg.unwrap().is_none());
    }
}
