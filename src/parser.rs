//! The incremental reader: bytes go in as they arrive, whole messages come out.
use crate::grammar::{scan, Outcome};
use crate::read_parser::{MessageView, ParseError, Parsable, ParsedMessage};
use vstd::prelude::*;
use vstd::slice::slice_to_vec;
use vstd::utf8::encode_utf8;

verus! {

/// What one pull from the reader gives.
pub enum Pull {
    /// The next message; its bytes and CRLF have left the buffer.
    Message(ParsedMessage),
    /// No whole message is buffered yet: push more bytes, or close.
    NeedMore,
    /// The source is closed and no whole message is left.
    Ended,
    /// The framing is broken at the front of the buffer; the reader stays here.
    Failed(ParseError),
}

/// A pull as mathematics.
pub enum Event {
    Message(MessageView),
    NeedMore,
    Ended,
    Failed(ParseError),
}

pub open spec fn event_of(p: Pull) -> Event {
    match p {
        Pull::Message(m) => Event::Message(m@),
        Pull::NeedMore => Event::NeedMore,
        Pull::Ended => Event::Ended,
        Pull::Failed(e) => Event::Failed(e),
    }
}

/// The reader as mathematics: the bytes received and not yet consumed, and
/// whether the source has closed.
pub struct ReaderView {
    pub pending: Seq<u8>,
    pub closed: bool,
}

/// One pull: what it gives, and the reader after it.
pub open spec fn step(v: ReaderView) -> (Event, ReaderView) {
    match scan(v.pending) {
        Outcome::Complete(sp, c) => (
            Event::Message(MessageView { raw: v.pending.subrange(0, c), spans: sp }),
            ReaderView { pending: v.pending.subrange(c + 2, v.pending.len() as int), ..v },
        ),
        Outcome::Malformed => (Event::Failed(ParseError::Invalid), v),
        Outcome::Incomplete => if v.closed {
            (Event::Ended, ReaderView { pending: Seq::empty(), ..v })
        } else {
            (Event::NeedMore, v)
        },
    }
}

/// Holds the bytes received and not yet resolved into a message.
pub struct Parser {
    buffer: Vec<u8>,
    closed: bool,
}

impl View for Parser {
    type V = ReaderView;

    closed spec fn view(&self) -> ReaderView {
        ReaderView { pending: self.buffer@, closed: self.closed }
    }
}

impl Parser {
    pub fn new() -> (r: Self)
        ensures
            r@.pending == Seq::<u8>::empty(),
            !r@.closed,
    {
        Parser { buffer: Vec::new(), closed: false }
    }

    /// Appends the bytes of `buf_in`.
    pub fn push(&mut self, buf_in: String)
        ensures
            final(self)@.pending == old(self)@.pending + encode_utf8(buf_in@),
            final(self)@.closed == old(self)@.closed,
    {
        let mut bytes = slice_to_vec(buf_in.as_str().as_bytes());
        self.buffer.append(&mut bytes);
    }

    /// Appends `buf_in`.
    pub fn push_buf(&mut self, buf_in: &[u8])
        ensures
            final(self)@.pending == old(self)@.pending + buf_in@,
            final(self)@.closed == old(self)@.closed,
    {
        let mut bytes = slice_to_vec(buf_in);
        self.buffer.append(&mut bytes);
    }

    /// Records that the source has no more bytes.
    pub fn close(&mut self)
        ensures
            final(self)@.pending == old(self)@.pending,
            final(self)@.closed,
    {
        self.closed = true;
    }

    /// Takes the next message off the front of the buffer, if a whole one is there.
    pub fn next_message(&mut self) -> (r: Pull)
        ensures
            (event_of(r), final(self)@) == step(old(self)@),
    {
        match <ParsedMessage as Parsable>::parse(self.buffer.as_slice()) {
            Ok(Some((m, n))) => {
                let rest = self.buffer.split_off(n);
                self.buffer = rest;
                Pull::Message(m)
            },
            Ok(None) => {
                if self.closed {
                    self.buffer = Vec::new();
                    Pull::Ended
                } else {
                    Pull::NeedMore
                }
            },
            Err(e) => Pull::Failed(e),
        }
    }
}

} // verus!
