//! The scanner: one step per production of the grammar, and the parse of a
//! whole message built from them.
use crate::grammar::{
    find_from, head, host_part, lemma_find_first, lemma_find_from, lemma_find_in_tail,
    lemma_find_none, line, params_from, prefix_spans, scan, span, trailing_from, window, Outcome,
    Spans, Stop, AT, BANG, COLON, CR, LF, SCAN_LIMIT, SPACE,
};
use crate::spans::{span_list, spans_new, spans_push, SpanList};
use vstd::prelude::*;
use vstd::slice::slice_to_vec;

mod message;

pub use message::{field, opt_field, opt_span_fits, span_fits, spans_fit, MessageView, ParsedMessage};

verus! {

/// Where the scan of a line goes next.
#[derive(Debug, PartialEq, Eq, Structural)]
pub enum State {
    Nick,
    User,
    Host,
    Command,
    /// Between parameters.
    Params,
    ParamMiddle,
    ParamTrailing,
    /// At the CR that ends the line.
    End,
    /// The bytes ran out first: more are needed.
    EOF,
}

/// The first byte decides whether the line opens with a prefix.
pub fn start(buf: &[u8], offset: &mut usize) -> (r: State)
    requires
        *old(offset) < usize::MAX,
    ensures
        *old(offset) <= *final(offset) <= *old(offset) + buf@.len(),
        buf@.len() == 0 ==> r == State::EOF && *final(offset) == *old(offset),
        buf@.len() > 0 && buf@[0] == COLON ==> r == State::Nick && *final(offset) == *old(offset)
            + 1,
        buf@.len() > 0 && buf@[0] != COLON ==> r == State::Command && *final(offset) == *old(
            offset,
        ),
{
    if buf.len() == 0 {
        State::EOF
    } else if buf[0] == COLON {
        *offset += 1;
        State::Nick
    } else {
        State::Command
    }
}

/// The nick of a prefix, up to the first `' '`, `'!'` or `'@'`.
pub fn nick(buf: &[u8], offset: &mut usize, found: &mut Option<(u16, u16)>) -> (r: State)
    requires
        *old(offset) + buf@.len() <= SCAN_LIMIT,
    ensures
        *old(offset) <= *final(offset) <= *old(offset) + buf@.len(),
        match find_from(buf@, 0, Stop::Nick) {
            Some(i) => {
                &&& *final(offset) == *old(offset) + i + 1
                &&& *final(found) == Some(span(*old(offset) as int, *old(offset) + i))
                &&& r == if buf@[i] == BANG {
                    State::User
                } else if buf@[i] == AT {
                    State::Host
                } else {
                    State::Command
                }
            },
            None => r == State::EOF && *final(offset) == *old(offset) && *final(found) == *old(found),
        },
{
    match memchr::memchr3(SPACE, BANG, AT, buf) {
        Some(i) => {
            proof {
                lemma_find_first(buf@, 0, Stop::Nick, i as int);
            }
            let end = *offset + i;
            *found = Some((*offset as u16, end as u16));
            *offset = end + 1;
            if buf[i] == BANG {
                State::User
            } else if buf[i] == AT {
                State::Host
            } else {
                State::Command
            }
        },
        None => {
            proof {
                lemma_find_none(buf@, 0, Stop::Nick);
            }
            State::EOF
        },
    }
}

/// The user of a prefix, up to the first `' '` or `'@'`.
pub fn user(buf: &[u8], offset: &mut usize, found: &mut Option<(u16, u16)>) -> (r: State)
    requires
        *old(offset) + buf@.len() <= SCAN_LIMIT,
    ensures
        *old(offset) <= *final(offset) <= *old(offset) + buf@.len(),
        match find_from(buf@, 0, Stop::User) {
            Some(i) => {
                &&& *final(offset) == *old(offset) + i + 1
                &&& *final(found) == Some(span(*old(offset) as int, *old(offset) + i))
                &&& r == if buf@[i] == AT {
                    State::Host
                } else {
                    State::Command
                }
            },
            None => r == State::EOF && *final(offset) == *old(offset) && *final(found) == *old(found),
        },
{
    match memchr::memchr2(SPACE, AT, buf) {
        Some(i) => {
            proof {
                lemma_find_first(buf@, 0, Stop::User, i as int);
            }
            let end = *offset + i;
            *found = Some((*offset as u16, end as u16));
            *offset = end + 1;
            if buf[i] == AT {
                State::Host
            } else {
                State::Command
            }
        },
        None => {
            proof {
                lemma_find_none(buf@, 0, Stop::User);
            }
            State::EOF
        },
    }
}

/// The host of a prefix, up to the space that closes the prefix.
pub fn host(buf: &[u8], offset: &mut usize, found: &mut Option<(u16, u16)>) -> (r: State)
    requires
        *old(offset) + buf@.len() <= SCAN_LIMIT,
    ensures
        *old(offset) <= *final(offset) <= *old(offset) + buf@.len(),
        match find_from(buf@, 0, Stop::Host) {
            Some(i) => {
                &&& *final(offset) == *old(offset) + i + 1
                &&& *final(found) == Some(span(*old(offset) as int, *old(offset) + i))
                &&& r == State::Command
            },
            None => r == State::EOF && *final(offset) == *old(offset) && *final(found) == *old(found),
        },
{
    match memchr::memchr(SPACE, buf) {
        Some(i) => {
            proof {
                lemma_find_first(buf@, 0, Stop::Host, i as int);
            }
            let end = *offset + i;
            *found = Some((*offset as u16, end as u16));
            *offset = end + 1;
            State::Command
        },
        None => {
            proof {
                lemma_find_none(buf@, 0, Stop::Host);
            }
            State::EOF
        },
    }
}

/// The command, up to the first `' '` or CR.
pub fn command(buf: &[u8], offset: &mut usize, found: &mut (u16, u16)) -> (r: State)
    requires
        *old(offset) + buf@.len() <= SCAN_LIMIT,
    ensures
        *old(offset) <= *final(offset) <= *old(offset) + buf@.len(),
        match find_from(buf@, 0, Stop::Field) {
            Some(i) => {
                &&& *final(found) == span(*old(offset) as int, *old(offset) + i)
                &&& if buf@[i] == CR {
                    r == State::End && *final(offset) == *old(offset) + i
                } else {
                    r == State::Params && *final(offset) == *old(offset) + i + 1
                }
            },
            None => r == State::EOF && *final(offset) == *old(offset) && *final(found) == *old(found),
        },
{
    match memchr::memchr2(SPACE, CR, buf) {
        Some(i) => {
            proof {
                lemma_find_first(buf@, 0, Stop::Field, i as int);
            }
            let end = *offset + i;
            *found = (*offset as u16, end as u16);
            if buf[i] == CR {
                *offset = end;
                State::End
            } else {
                *offset = end + 1;
                State::Params
            }
        },
        None => {
            proof {
                lemma_find_none(buf@, 0, Stop::Field);
            }
            State::EOF
        },
    }
}

/// Between parameters: spaces are skipped, `':'` opens the trailing
/// parameter, CR ends the line, any other byte opens a middle one.
pub fn params(buf: &[u8], offset: &mut usize) -> (r: State)
    requires
        *old(offset) < usize::MAX,
    ensures
        *old(offset) <= *final(offset) <= *old(offset) + buf@.len(),
        buf@.len() == 0 ==> r == State::EOF && *final(offset) == *old(offset),
        buf@.len() > 0 && buf@[0] == SPACE ==> r == State::Params && *final(offset) == *old(offset)
            + 1,
        buf@.len() > 0 && buf@[0] == COLON ==> r == State::ParamTrailing && *final(offset) == *old(
            offset,
        ) + 1,
        buf@.len() > 0 && buf@[0] == CR ==> r == State::End && *final(offset) == *old(offset),
        buf@.len() > 0 && buf@[0] != SPACE && buf@[0] != COLON && buf@[0] != CR ==> r
            == State::ParamMiddle && *final(offset) == *old(offset),
{
    if buf.len() == 0 {
        State::EOF
    } else if buf[0] == SPACE {
        *offset += 1;
        State::Params
    } else if buf[0] == COLON {
        *offset += 1;
        State::ParamTrailing
    } else if buf[0] == CR {
        State::End
    } else {
        State::ParamMiddle
    }
}

/// A middle parameter, up to the first `' '` or CR.
pub fn param_middle(buf: &[u8], offset: &mut usize, found: &mut SpanList) -> (r: State)
    requires
        *old(offset) + buf@.len() <= SCAN_LIMIT,
        span_list(*old(found)).len() < SCAN_LIMIT,
    ensures
        *old(offset) <= *final(offset) <= *old(offset) + buf@.len(),
        match find_from(buf@, 0, Stop::Field) {
            Some(i) => {
                &&& span_list(*final(found)) == span_list(*old(found)).push(
                    span(*old(offset) as int, *old(offset) + i),
                )
                &&& if buf@[i] == CR {
                    r == State::End && *final(offset) == *old(offset) + i
                } else {
                    r == State::Params && *final(offset) == *old(offset) + i + 1
                }
            },
            None => r == State::EOF && *final(offset) == *old(offset) && span_list(*final(found))
                == span_list(*old(found)),
        },
{
    match memchr::memchr2(SPACE, CR, buf) {
        Some(i) => {
            proof {
                lemma_find_first(buf@, 0, Stop::Field, i as int);
            }
            let end = *offset + i;
            spans_push(found, (*offset as u16, end as u16));
            if buf[i] == CR {
                *offset = end;
                State::End
            } else {
                *offset = end + 1;
                State::Params
            }
        },
        None => {
            proof {
                lemma_find_none(buf@, 0, Stop::Field);
            }
            State::EOF
        },
    }
}

/// The trailing parameter, up to the CR; it may hold spaces and be empty.
pub fn param_trailing(buf: &[u8], offset: &mut usize, found: &mut SpanList) -> (r: State)
    requires
        *old(offset) + buf@.len() <= SCAN_LIMIT,
        span_list(*old(found)).len() < SCAN_LIMIT,
    ensures
        *old(offset) <= *final(offset) <= *old(offset) + buf@.len(),
        match find_from(buf@, 0, Stop::Line) {
            Some(i) => {
                &&& span_list(*final(found)) == span_list(*old(found)).push(
                    span(*old(offset) as int, *old(offset) + i),
                )
                &&& r == State::End
                &&& *final(offset) == *old(offset) + i
            },
            None => r == State::EOF && *final(offset) == *old(offset) && span_list(*final(found))
                == span_list(*old(found)),
        },
{
    match memchr::memchr(CR, buf) {
        Some(i) => {
            proof {
                lemma_find_first(buf@, 0, Stop::Line, i as int);
            }
            let end = *offset + i;
            spans_push(found, (*offset as u16, end as u16));
            *offset = end;
            State::End
        },
        None => {
            proof {
                lemma_find_none(buf@, 0, Stop::Line);
            }
            State::EOF
        },
    }
}

/// The one error of framing: a CR followed by a byte other than LF.
#[derive(Debug, Clone, Copy, PartialEq, Eq, Structural)]
pub enum ParseError {
    Invalid,
}

/// A type that can be read off the front of a buffer.
pub trait Parsable: Sized {
    type Error;

    /// `r` is what parsing `buf` gives.
    spec fn parses_to(buf: Seq<u8>, r: Result<Option<(Self, usize)>, Self::Error>) -> bool;

    /// `Ok(None)` while the buffer holds no whole value yet; otherwise the
    /// value and how many bytes it took.
    fn parse(buf: &[u8]) -> (r: Result<Option<(Self, usize)>, Self::Error>)
        ensures
            Self::parses_to(buf@, r),
    ;
}

/// `r` is what the front of `buf` holds: nothing yet, a framing error, or a
/// message with the number of bytes it took, CRLF included.
pub open spec fn parse_outcome(
    buf: Seq<u8>,
    r: Result<Option<(ParsedMessage, usize)>, ParseError>,
) -> bool {
    match scan(buf) {
        Outcome::Incomplete => r matches Ok(None),
        Outcome::Malformed => r matches Err(ParseError::Invalid),
        Outcome::Complete(sp, c) => match r {
            Ok(Some((m, n))) => m@ == (MessageView { raw: buf.subrange(0, c), spans: sp }) && n == c
                + 2,
            _ => false,
        },
    }
}

/// Where the parameters end, when the scan is in `state` at `pos` and has
/// found the parameters `acc`.
pub open spec fn resume(w: Seq<u8>, state: State, pos: int, acc: Seq<(u16, u16)>) -> Option<
    (Seq<(u16, u16)>, int),
> {
    match state {
        State::Params => params_from(w, pos, acc),
        State::ParamMiddle => params_from(w, pos, acc),
        State::ParamTrailing => trailing_from(w, pos, acc),
        State::End => Some((acc, pos)),
        _ => None,
    }
}

/// Every span of `ps` is ordered and ends by `pos`.
pub open spec fn spans_end_by(ps: Seq<(u16, u16)>, pos: int) -> bool {
    forall|k: int| 0 <= k < ps.len() ==> #[trigger] ps[k].0 <= ps[k].1 <= pos
}

pub open spec fn opt_end_by(s: Option<(u16, u16)>, pos: int) -> bool {
    s matches Some(t) ==> t.0 <= t.1 <= pos
}

/// The spans of a line's prefix.
#[derive(Clone, Copy)]
struct PrefixSpans {
    prefix: Option<(u16, u16)>,
    nick: Option<(u16, u16)>,
    user: Option<(u16, u16)>,
    host: Option<(u16, u16)>,
}

impl PrefixSpans {
    spec fn spans(self) -> Spans {
        Spans {
            prefix: self.prefix,
            nick: self.nick,
            user: self.user,
            host: self.host,
            command: (0, 0),
            params: Seq::empty(),
        }
    }

    spec fn end_by(self, pos: int) -> bool {
        &&& opt_end_by(self.prefix, pos)
        &&& opt_end_by(self.nick, pos)
        &&& opt_end_by(self.user, pos)
        &&& opt_end_by(self.host, pos)
    }
}

/// Scans the prefix, if the line has one: `Command` and where the command
/// starts, or `EOF` while the prefix is not closed.
fn scan_prefix(w: &[u8]) -> (r: (State, usize, PrefixSpans))
    requires
        w@.len() <= SCAN_LIMIT,
    ensures
        r.0 == State::Command ==> head(w@) == Some((r.2.spans(), r.1 as int)) && r.1 <= w@.len()
            && r.2.end_by(r.1 as int),
        r.0 == State::EOF ==> head(w@) is None,
        r.0 == State::Command || r.0 == State::EOF,
{
    let ghost ws = w@;
    let mut pos: usize = 0;
    let mut spans = PrefixSpans { prefix: None, nick: None, user: None, host: None };
    let mut state = start(w, &mut pos);
    if state == State::Nick {
        proof {
            lemma_find_in_tail(ws, 1, Stop::Nick);
            lemma_find_from(ws, 1, Stop::Nick);
        }
        state = nick(&w[pos..w.len()], &mut pos, &mut spans.nick);
        let ghost i = pos - 1;
        if state == State::User {
            let ghost p = pos;
            proof {
                lemma_find_in_tail(ws, p as int, Stop::User);
                lemma_find_from(ws, p as int, Stop::User);
            }
            state = user(&w[pos..w.len()], &mut pos, &mut spans.user);
            let ghost j = pos - 1;
            if state == State::Host {
                let ghost p2 = pos;
                proof {
                    lemma_find_in_tail(ws, p2 as int, Stop::Host);
                    lemma_find_from(ws, p2 as int, Stop::Host);
                }
                state = host(&w[pos..w.len()], &mut pos, &mut spans.host);
                assert(head(ws) == host_part(ws, p2 as int, span(1, i as int), spans.user));
            } else {
                assert(state == State::Command ==> head(ws) == Some(
                    (prefix_spans(j as int, span(1, i as int), spans.user, None), pos as int),
                ));
            }
        } else if state == State::Host {
            let ghost p2 = pos;
            proof {
                lemma_find_in_tail(ws, p2 as int, Stop::Host);
                lemma_find_from(ws, p2 as int, Stop::Host);
            }
            state = host(&w[pos..w.len()], &mut pos, &mut spans.host);
            assert(head(ws) == host_part(ws, p2 as int, span(1, i as int), None));
        } else {
            assert(state == State::Command ==> head(ws) == Some(
                (prefix_spans(i as int, span(1, i as int), None, None), pos as int),
            ));
        }
        if state == State::Command {
            spans.prefix = Some((1, (pos - 1) as u16));
        }
    }
    (state, pos, spans)
}

/// Scans the parameters from `pos` to the CR: `End` and the CR's position,
/// or `EOF` while no CR ends them.
fn scan_params(w: &[u8], pos: usize, found: &mut SpanList) -> (r: (State, usize))
    requires
        1 <= pos <= w@.len() <= SCAN_LIMIT,
        span_list(*old(found)).len() + 1 <= pos,
    ensures
        r.0 == State::End ==> params_from(w@, pos as int, span_list(*old(found))) == Some(
            (span_list(*final(found)), r.1 as int),
        ),
        r.0 == State::EOF ==> params_from(w@, pos as int, span_list(*old(found))) is None,
        r.0 == State::End || r.0 == State::EOF,
        pos <= r.1 <= w@.len(),
        spans_end_by(span_list(*old(found)), pos as int) ==> spans_end_by(
            span_list(*final(found)),
            r.1 as int,
        ),
{
    let ghost ws = w@;
    let ghost start = pos;
    let ghost target = params_from(ws, pos as int, span_list(*found));
    let ghost ends = spans_end_by(span_list(*found), pos as int);
    let mut pos = pos;
    let mut state = State::Params;
    while state == State::Params || state == State::ParamMiddle || state == State::ParamTrailing
        invariant
            w@ == ws,
            ws.len() <= SCAN_LIMIT,
            start <= pos <= ws.len(),
            state == State::Params || state == State::ParamMiddle || state == State::ParamTrailing
                || state == State::End || state == State::EOF,
            state == State::ParamMiddle ==> pos < ws.len() && ws[pos as int] != SPACE && ws[pos as int]
                != COLON && ws[pos as int] != CR,
            state != State::End && state != State::EOF ==> span_list(*found).len() + 1 <= pos,
            target == resume(ws, state, pos as int, span_list(*found)),
            ends ==> spans_end_by(span_list(*found), pos as int),
        decreases (ws.len() - pos) * 3 + if state == State::Params {
            2int
        } else if state == State::End || state == State::EOF {
            0int
        } else {
            1int
        },
    {
        let ghost p = pos;
        if state == State::Params {
            state = params(&w[pos..w.len()], &mut pos);
        } else if state == State::ParamMiddle {
            proof {
                lemma_find_in_tail(ws, p as int, Stop::Field);
                lemma_find_from(ws, p as int, Stop::Field);
            }
            state = param_middle(&w[pos..w.len()], &mut pos, found);
        } else {
            proof {
                lemma_find_in_tail(ws, p as int, Stop::Line);
                lemma_find_from(ws, p as int, Stop::Line);
            }
            state = param_trailing(&w[pos..w.len()], &mut pos, found);
        }
    }
    (state, pos)
}

impl Parsable for ParsedMessage {
    type Error = ParseError;

    open spec fn parses_to(buf: Seq<u8>, r: Result<Option<(Self, usize)>, ParseError>) -> bool {
        parse_outcome(buf, r)
    }

    /// Scans only the first `SCAN_LIMIT` bytes: a line longer than `MAX_LINE`
    /// bytes is never matched and stays incomplete.
    fn parse(buf: &[u8]) -> (r: Result<Option<(Self, usize)>, ParseError>) {
        let w: &[u8] = if buf.len() > SCAN_LIMIT {
            &buf[0..SCAN_LIMIT]
        } else {
            buf
        };
        let ghost ws = w@;
        assert(ws == window(buf@));
        let (state, cs, pre) = scan_prefix(w);
        if state != State::Command {
            return Ok(None);
        }
        let mut pos = cs;
        let mut command_span: (u16, u16) = (0, 0);
        proof {
            lemma_find_in_tail(ws, cs as int, Stop::Field);
            lemma_find_from(ws, cs as int, Stop::Field);
        }
        let mut state = command(&w[pos..w.len()], &mut pos, &mut command_span);
        let mut params_found = spans_new();
        assert(command_span.0 <= command_span.1 <= pos);
        if state == State::Params {
            proof {
                assert(spans_end_by(span_list(params_found), pos as int));
            }
            let (s, p) = scan_params(w, pos, &mut params_found);
            state = s;
            pos = p;
        }
        if state != State::End {
            return Ok(None);
        }
        assert(line(ws) == Some((Spans { command: command_span, params: span_list(params_found), ..pre.spans() }, pos as int)));
        if pos + 1 >= buf.len() {
            return Ok(None);
        }
        if buf[pos + 1] != LF {
            return Err(ParseError::Invalid);
        }
        let raw = slice_to_vec(&buf[0..pos]);
        assert(raw@.len() == pos);
        assert(span_fits(command_span, pos as int));
        assert(spans_end_by(span_list(params_found), pos as int));
        assert forall|k: int| 0 <= k < span_list(params_found).len() implies span_fits(
            #[trigger] span_list(params_found)[k],
            pos as int,
        ) by {}
        assert(pre.end_by(pos as int));
        assert(opt_span_fits(pre.prefix, pos as int));
        assert(opt_span_fits(pre.nick, pos as int));
        assert(opt_span_fits(pre.user, pos as int));
        assert(opt_span_fits(pre.host, pos as int));
        let m = ParsedMessage::from_parts(
            raw,
            pre.prefix,
            pre.nick,
            pre.user,
            pre.host,
            command_span,
            params_found,
        );
        Ok(Some((m, pos + 2)))
    }
}

} // verus!
