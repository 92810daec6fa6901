//! The message grammar as mathematics: where each field of a line begins and
//! ends, and what the scan of a buffer yields.
use vstd::prelude::*;

verus! {

pub const SPACE: u8 = 0x20;

pub const COLON: u8 = 0x3a;

pub const BANG: u8 = 0x21;

pub const AT: u8 = 0x40;

pub const CR: u8 = 0x0d;

pub const LF: u8 = 0x0a;

/// The longest message the byte offsets can describe, CRLF excluded.
pub const MAX_LINE: usize = 65535;

/// How many bytes at the front of a buffer the scanner looks at: a line of
/// `MAX_LINE` bytes and its CR.
pub const SCAN_LIMIT: usize = 65536;

/// The bytes that end each field of the grammar.
pub enum Stop {
    /// `' '`, `'!'` or `'@'`: the end of a nick.
    Nick,
    /// `' '` or `'@'`: the end of a user.
    User,
    /// `' '`: the end of a host.
    Host,
    /// `' '` or CR: the end of a command or a middle parameter.
    Field,
    /// CR: the end of a trailing parameter.
    Line,
}

pub open spec fn stops(k: Stop, b: u8) -> bool {
    match k {
        Stop::Nick => b == SPACE || b == BANG || b == AT,
        Stop::User => b == SPACE || b == AT,
        Stop::Host => b == SPACE,
        Stop::Field => b == SPACE || b == CR,
        Stop::Line => b == CR,
    }
}

/// The first position at or after `from` whose byte ends a field of kind `k`.
pub open spec fn find_from(s: Seq<u8>, from: int, k: Stop) -> Option<int>
    decreases s.len() - from,
{
    if from < 0 || from >= s.len() {
        None
    } else if stops(k, s[from]) {
        Some(from)
    } else {
        find_from(s, from + 1, k)
    }
}

/// `i` is the first position at or after `from` that ends a field of kind `k`.
pub open spec fn first_stop(s: Seq<u8>, from: int, k: Stop, i: int) -> bool {
    &&& from <= i < s.len()
    &&& stops(k, s[i])
    &&& forall|j: int| from <= j < i ==> !stops(k, #[trigger] s[j])
}

/// No byte at or after `from` ends a field of kind `k`.
pub open spec fn no_stop(s: Seq<u8>, from: int, k: Stop) -> bool {
    forall|j: int| from <= j < s.len() ==> !stops(k, #[trigger] s[j])
}

pub proof fn lemma_find_from(s: Seq<u8>, from: int, k: Stop)
    requires
        0 <= from,
    ensures
        match find_from(s, from, k) {
            Some(i) => first_stop(s, from, k, i),
            None => no_stop(s, from, k),
        },
    decreases s.len() - from,
{
    if from < s.len() && !stops(k, s[from]) {
        lemma_find_from(s, from + 1, k);
        if let Some(i) = find_from(s, from + 1, k) {
            assert forall|j: int| from <= j < i implies !stops(k, #[trigger] s[j]) by {
                if j > from {
                    assert(from + 1 <= j < i);
                }
            }
        } else {
            assert forall|j: int| from <= j < s.len() implies !stops(k, #[trigger] s[j]) by {
                if j > from {
                    assert(from + 1 <= j);
                }
            }
        }
    }
}

/// A first stop is what `find_from` finds.
pub proof fn lemma_find_first(s: Seq<u8>, from: int, k: Stop, i: int)
    requires
        0 <= from,
        first_stop(s, from, k, i),
    ensures
        find_from(s, from, k) == Some(i),
{
    lemma_find_from(s, from, k);
    match find_from(s, from, k) {
        Some(i2) => {
            if i2 < i {
                assert(!stops(k, s[i2]));
            } else if i < i2 {
                assert(!stops(k, s[i]));
            }
        },
        None => {
            assert(!stops(k, s[i]));
        },
    }
}

/// Without a stop, `find_from` finds nothing.
pub proof fn lemma_find_none(s: Seq<u8>, from: int, k: Stop)
    requires
        0 <= from,
        no_stop(s, from, k),
    ensures
        find_from(s, from, k) is None,
{
    lemma_find_from(s, from, k);
    if let Some(i) = find_from(s, from, k) {
        assert(!stops(k, s[i]));
    }
}

/// Searching the tail of `s` that starts at `p` finds the same stop, `p` places
/// earlier.
pub proof fn lemma_find_in_tail(s: Seq<u8>, p: int, k: Stop)
    requires
        0 <= p <= s.len(),
    ensures
        find_from(s.subrange(p, s.len() as int), 0, k) == match find_from(s, p, k) {
            Some(i) => Some(i - p),
            None => None::<int>,
        },
{
    let t = s.subrange(p, s.len() as int);
    lemma_find_from(s, p, k);
    match find_from(s, p, k) {
        Some(i) => {
            assert forall|j: int| 0 <= j < i - p implies !stops(k, #[trigger] t[j]) by {
                assert(t[j] == s[j + p]);
            }
            lemma_find_first(t, 0, k, i - p);
        },
        None => {
            assert forall|j: int| 0 <= j < t.len() implies !stops(k, #[trigger] t[j]) by {
                assert(t[j] == s[j + p]);
            }
            lemma_find_none(t, 0, k);
        },
    }
}

/// Where each field of one message lies in its line, as byte offsets.
pub struct Spans {
    pub prefix: Option<(u16, u16)>,
    pub nick: Option<(u16, u16)>,
    pub user: Option<(u16, u16)>,
    pub host: Option<(u16, u16)>,
    pub command: (u16, u16),
    pub params: Seq<(u16, u16)>,
}

pub open spec fn span(b: int, e: int) -> (u16, u16) {
    (b as u16, e as u16)
}

/// The spans of a line's prefix, with no command or parameter yet.
pub open spec fn prefix_spans(
    close: int,
    nick: (u16, u16),
    user: Option<(u16, u16)>,
    host: Option<(u16, u16)>,
) -> Spans {
    Spans {
        prefix: Some(span(1, close)),
        nick: Some(nick),
        user,
        host,
        command: (0, 0),
        params: Seq::empty(),
    }
}

pub open spec fn no_prefix() -> Spans {
    Spans { prefix: None, nick: None, user: None, host: None, command: (0, 0), params: Seq::empty() }
}

/// The host of a prefix, from `from` to the space that closes the prefix.
pub open spec fn host_part(
    w: Seq<u8>,
    from: int,
    nick: (u16, u16),
    user: Option<(u16, u16)>,
) -> Option<(Spans, int)> {
    match find_from(w, from, Stop::Host) {
        None => None,
        Some(k) => Some((prefix_spans(k, nick, user, Some(span(from, k))), k + 1)),
    }
}

/// The prefix of a line, and where its command starts; `None` while the
/// prefix is not closed yet.
pub open spec fn head(w: Seq<u8>) -> Option<(Spans, int)> {
    if w.len() == 0 {
        None
    } else if w[0] != COLON {
        Some((no_prefix(), 0))
    } else {
        match find_from(w, 1, Stop::Nick) {
            None => None,
            Some(i) => {
                if w[i] == SPACE {
                    Some((prefix_spans(i, span(1, i), None, None), i + 1))
                } else if w[i] == BANG {
                    match find_from(w, i + 1, Stop::User) {
                        None => None,
                        Some(j) => {
                            if w[j] == SPACE {
                                Some((prefix_spans(j, span(1, i), Some(span(i + 1, j)), None), j + 1))
                            } else {
                                host_part(w, j + 1, span(1, i), Some(span(i + 1, j)))
                            }
                        },
                    }
                } else {
                    host_part(w, i + 1, span(1, i), None)
                }
            },
        }
    }
}

/// A trailing parameter from `pos` to the CR: the parameters and the CR's position.
pub open spec fn trailing_from(w: Seq<u8>, pos: int, acc: Seq<(u16, u16)>) -> Option<
    (Seq<(u16, u16)>, int),
> {
    match find_from(w, pos, Stop::Line) {
        None => None,
        Some(c) => Some((acc.push(span(pos, c)), c)),
    }
}

/// The parameters from `pos` to the CR, after those in `acc`, and the CR's
/// position; `None` while no CR ends them. Spaces between parameters, and
/// before the CR, make no empty parameter.
pub open spec fn params_from(w: Seq<u8>, pos: int, acc: Seq<(u16, u16)>) -> Option<
    (Seq<(u16, u16)>, int),
>
    decreases w.len() - pos,
    via params_from_decreases
{
    if pos < 0 || pos >= w.len() {
        None
    } else if w[pos] == SPACE {
        params_from(w, pos + 1, acc)
    } else if w[pos] == COLON {
        trailing_from(w, pos + 1, acc)
    } else if w[pos] == CR {
        Some((acc, pos))
    } else {
        match find_from(w, pos, Stop::Field) {
            None => None,
            Some(e) => {
                if w[e] == CR {
                    Some((acc.push(span(pos, e)), e))
                } else {
                    params_from(w, e + 1, acc.push(span(pos, e)))
                }
            },
        }
    }
}

#[via_fn]
proof fn params_from_decreases(w: Seq<u8>, pos: int, acc: Seq<(u16, u16)>) {
    if 0 <= pos < w.len() && w[pos] != SPACE && w[pos] != COLON && w[pos] != CR {
        lemma_find_from(w, pos, Stop::Field);
    }
}

/// The command from `cs`, then the parameters: all spans of the line and the
/// position of its CR.
pub open spec fn body(w: Seq<u8>, pre: Spans, cs: int) -> Option<(Spans, int)> {
    match find_from(w, cs, Stop::Field) {
        None => None,
        Some(e) => {
            if w[e] == CR {
                Some((Spans { command: span(cs, e), ..pre }, e))
            } else {
                match params_from(w, e + 1, Seq::empty()) {
                    None => None,
                    Some((ps, c)) => Some((Spans { command: span(cs, e), params: ps, ..pre }, c)),
                }
            }
        },
    }
}

/// The spans of the line at the front of `w` and the position of its CR, or
/// `None` while no CR closes it.
pub open spec fn line(w: Seq<u8>) -> Option<(Spans, int)> {
    match head(w) {
        None => None,
        Some((pre, cs)) => body(w, pre, cs),
    }
}

/// The part of a buffer that the scanner looks at.
pub open spec fn window(buf: Seq<u8>) -> Seq<u8> {
    if buf.len() > SCAN_LIMIT {
        buf.subrange(0, SCAN_LIMIT as int)
    } else {
        buf
    }
}

/// What the front of a buffer holds.
pub enum Outcome {
    /// Not yet a whole message: more bytes are needed.
    Incomplete,
    /// A CR followed by a byte other than LF.
    Malformed,
    /// A whole message: its spans, and the position of the CR that ends it.
    Complete(Spans, int),
}

pub open spec fn scan(buf: Seq<u8>) -> Outcome {
    match line(window(buf)) {
        None => Outcome::Incomplete,
        Some((sp, c)) => {
            if c + 1 >= buf.len() {
                Outcome::Incomplete
            } else if buf[c + 1] == LF {
                Outcome::Complete(sp, c)
            } else {
                Outcome::Malformed
            }
        },
    }
}

} // verus!
