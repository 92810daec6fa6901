use crate::grammar::Spans;
use crate::message::traits::{is_opt_text_of, Message, Parameterized, Prefixed};
use crate::spans::{span_list, spans_slice, SpanList};
use crate::text::{decode_lossy, is_text_of};
use vstd::prelude::*;

verus! {

/// One decoded message: its line, CRLF excluded, and where each field lies in it.
pub struct ParsedMessage {
    raw: Vec<u8>,
    command: (u16, u16),
    params: SpanList,
    prefix: Option<(u16, u16)>,
    nick: Option<(u16, u16)>,
    user: Option<(u16, u16)>,
    host: Option<(u16, u16)>,
}

/// A message as mathematics: its line and the spans of its fields.
pub struct MessageView {
    pub raw: Seq<u8>,
    pub spans: Spans,
}

/// The span lies in a line of `n` bytes.
pub open spec fn span_fits(s: (u16, u16), n: int) -> bool {
    s.0 <= s.1 <= n
}

pub open spec fn opt_span_fits(s: Option<(u16, u16)>, n: int) -> bool {
    s matches Some(t) ==> span_fits(t, n)
}

/// Every span of `v` lies in its line.
pub open spec fn spans_fit(v: MessageView) -> bool {
    let n = v.raw.len() as int;
    &&& span_fits(v.spans.command, n)
    &&& opt_span_fits(v.spans.prefix, n)
    &&& opt_span_fits(v.spans.nick, n)
    &&& opt_span_fits(v.spans.user, n)
    &&& opt_span_fits(v.spans.host, n)
    &&& forall|i: int| 0 <= i < v.spans.params.len() ==> span_fits(#[trigger] v.spans.params[i], n)
}

/// The bytes of `raw` that a span covers.
pub open spec fn field(raw: Seq<u8>, s: (u16, u16)) -> Seq<u8> {
    raw.subrange(s.0 as int, s.1 as int)
}

pub open spec fn opt_field(raw: Seq<u8>, s: Option<(u16, u16)>) -> Option<Seq<u8>> {
    match s {
        Some(t) => Some(field(raw, t)),
        None => None,
    }
}

impl MessageView {
    pub open spec fn command_bytes(self) -> Seq<u8> {
        field(self.raw, self.spans.command)
    }

    pub open spec fn prefix_bytes(self) -> Option<Seq<u8>> {
        opt_field(self.raw, self.spans.prefix)
    }

    pub open spec fn nick_bytes(self) -> Option<Seq<u8>> {
        opt_field(self.raw, self.spans.nick)
    }

    pub open spec fn user_bytes(self) -> Option<Seq<u8>> {
        opt_field(self.raw, self.spans.user)
    }

    pub open spec fn host_bytes(self) -> Option<Seq<u8>> {
        opt_field(self.raw, self.spans.host)
    }

    pub open spec fn param_bytes(self) -> Seq<Seq<u8>> {
        self.spans.params.map_values(|s: (u16, u16)| field(self.raw, s))
    }
}

impl View for ParsedMessage {
    type V = MessageView;

    closed spec fn view(&self) -> MessageView {
        MessageView {
            raw: self.raw@,
            spans: Spans {
                prefix: self.prefix,
                nick: self.nick,
                user: self.user,
                host: self.host,
                command: self.command,
                params: span_list(self.params),
            },
        }
    }
}

impl ParsedMessage {
    #[verifier::type_invariant]
    closed spec fn inv(self) -> bool {
        spans_fit(self@)
    }

    /// A message from its line and the spans of its fields.
    pub(crate) fn from_parts(
        raw: Vec<u8>,
        prefix: Option<(u16, u16)>,
        nick: Option<(u16, u16)>,
        user: Option<(u16, u16)>,
        host: Option<(u16, u16)>,
        command: (u16, u16),
        params: SpanList,
    ) -> (r: Self)
        requires
            spans_fit(
                MessageView {
                    raw: raw@,
                    spans: Spans { prefix, nick, user, host, command, params: span_list(params) },
                },
            ),
        ensures
            r@ == (MessageView {
                raw: raw@,
                spans: Spans { prefix, nick, user, host, command, params: span_list(params) },
            }),
    {
        ParsedMessage { raw, command, params, prefix, nick, user, host }
    }

    /// The text of the bytes that `s` covers.
    fn text(&self, s: (u16, u16)) -> (r: String)
        requires
            span_fits(s, self@.raw.len() as int),
        ensures
            is_text_of(r@, field(self@.raw, s)),
    {
        let bytes = self.raw.as_slice();
        decode_lossy(&bytes[s.0 as usize..s.1 as usize])
    }

    fn opt_text(&self, s: Option<(u16, u16)>) -> (r: Option<String>)
        requires
            opt_span_fits(s, self@.raw.len() as int),
        ensures
            is_opt_text_of(r, opt_field(self@.raw, s)),
    {
        match s {
            Some(t) => Some(self.text(t)),
            None => None,
        }
    }

    /// The whole line, CRLF excluded, as text.
    pub fn to_string(&self) -> (r: String)
        ensures
            is_text_of(r@, self@.raw),
    {
        decode_lossy(self.raw.as_slice())
    }
}

impl Message for ParsedMessage {
    open spec fn command_bytes(&self) -> Seq<u8> {
        self@.command_bytes()
    }

    fn command(&self) -> (r: String) {
        proof {
            use_type_invariant(self);
        }
        self.text(self.command)
    }
}

impl Prefixed for ParsedMessage {
    open spec fn prefix_bytes(&self) -> Option<Seq<u8>> {
        self@.prefix_bytes()
    }

    open spec fn nick_bytes(&self) -> Option<Seq<u8>> {
        self@.nick_bytes()
    }

    open spec fn user_bytes(&self) -> Option<Seq<u8>> {
        self@.user_bytes()
    }

    open spec fn host_bytes(&self) -> Option<Seq<u8>> {
        self@.host_bytes()
    }

    fn prefix(&self) -> (r: Option<String>) {
        proof {
            use_type_invariant(self);
        }
        self.opt_text(self.prefix)
    }

    fn nick(&self) -> (r: Option<String>) {
        proof {
            use_type_invariant(self);
        }
        self.opt_text(self.nick)
    }

    fn user(&self) -> (r: Option<String>) {
        proof {
            use_type_invariant(self);
        }
        self.opt_text(self.user)
    }

    fn host(&self) -> (r: Option<String>) {
        proof {
            use_type_invariant(self);
        }
        self.opt_text(self.host)
    }
}

impl Parameterized for ParsedMessage {
    open spec fn param_bytes(&self) -> Seq<Seq<u8>> {
        self@.param_bytes()
    }

    fn params(&self) -> (r: Vec<String>) {
        proof {
            use_type_invariant(self);
        }
        let spans = spans_slice(&self.params);
        let mut out: Vec<String> = Vec::new();
        let mut i: usize = 0;
        while i < spans.len()
            invariant
                i <= spans@.len(),
                spans@ == self@.spans.params,
                spans_fit(self@),
                out@.len() == i,
                forall|j: int| 0 <= j < i ==> is_text_of(#[trigger] out@[j]@, self@.param_bytes()[j]),
            decreases spans@.len() - i,
        {
            let t = self.text(spans[i]);
            out.push(t);
            i += 1;
        }
        out
    }
}

/// Two messages are equal when their lines are.
impl PartialEq for ParsedMessage {
    fn eq(&self, other: &ParsedMessage) -> (r: bool) {
        let r = self.raw == other.raw;
        proof {
            if r {
                assert(self.raw@ =~= other.raw@);
            }
        }
        r
    }
}

impl vstd::std_specs::cmp::PartialEqSpecImpl for ParsedMessage {
    open spec fn obeys_eq_spec() -> bool {
        true
    }

    open spec fn eq_spec(&self, other: &ParsedMessage) -> bool {
        self@.raw == other@.raw
    }
}

} // verus!
