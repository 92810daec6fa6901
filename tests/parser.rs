use irc_parse::message::{Message, Parameterized, Prefixed};
use irc_parse::parser::{Parser, Pull};
use irc_parse::read_parser::ParsedMessage;

fn pull(parser: &mut Parser) -> Option<ParsedMessage> {
    match parser.next_message() {
        Pull::Message(m) => Some(m),
        _ => None,
    }
}

#[test]
fn parser_test_parse() {
    let msg =
        ":irc.example.com 001 test :Welcome to the Internet Relay Network\r\n".to_string();
    let mut parser = Parser::new();
    parser.push(msg);
    let msg = pull(&mut parser).unwrap();

    assert_eq!(msg.command(), "001");
    assert_eq!(msg.prefix(), Some("irc.example.com".to_string()));
    assert_eq!(
        msg.params(),
        vec!["test", "Welcome to the Internet Relay Network"]
    );
}

#[test]
fn parser_test_parse_with_prefix() {
    let msg =
        ":<nick>!<user>@<user>.tmi.twitch.tv PRIVMSG #<channel> :This is a sample message\r\n"
            .to_string();
    let mut parser = Parser::new();
    parser.push(msg);
    let msg = pull(&mut parser).unwrap();

    assert_eq!(msg.command(), "PRIVMSG");
    assert_eq!(
        msg.prefix(),
        Some("<nick>!<user>@<user>.tmi.twitch.tv".to_string())
    );
    assert_eq!(msg.nick(), Some("<nick>".to_string()));
    assert_eq!(msg.user(), Some("<user>".to_string()));
    assert_eq!(msg.host(), Some("<user>.tmi.twitch.tv".to_string()));
    assert_eq!(msg.params(), vec!["#<channel>", "This is a sample message"]);
}

#[test]
fn test_parse_two_messages() {
    let msg1 = ":irc.example.com 001 test :Message1\r\n".to_string();
    let msg2 = ":irc.example.com 001 test :Message2\r\n".to_string();
    let mut parser = Parser::new();
    parser.push(msg1);
    parser.push(msg2);
    let msg1 = pull(&mut parser).unwrap();
    let msg2 = pull(&mut parser).unwrap();

    assert_eq!(msg1.command(), "001");
    assert_eq!(msg1.params(), vec!["test", "Message1"]);
    assert_eq!(msg2.command(), "001");
    assert_eq!(msg2.params(), vec!["test", "Message2"]);
}

#[test]
fn parser_test_parse_incomplete() {
    let msg = ":irc.example.com 001 ".to_string();
    let mut parser = Parser::new();
    parser.push(msg);
    assert!(pull(&mut parser).is_none());

    parser.push("\r\n".to_string());
    let msg = pull(&mut parser);
    assert!(msg.is_some());
    let msg = msg.unwrap();
    assert_eq!(msg.command(), "001");
}
