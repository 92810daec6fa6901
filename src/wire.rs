//! Messages as values, their wire form, and what the scanner makes of it.
use crate::grammar::{
    body, find_from, head, host_part, lemma_find_first, line, no_prefix, params_from,
    prefix_spans, span, stops, trailing_from, Spans, Stop, AT, BANG, COLON, CR, LF, MAX_LINE,
    SPACE,
};
use crate::grammar::{lemma_find_from, scan, window, Outcome, SCAN_LIMIT};
use crate::parser::{step, Event, ReaderView};
use crate::read_parser::{field, parse_outcome, MessageView, ParseError, ParsedMessage};
use vstd::prelude::*;

verus! {

/// Where a message comes from: a nick, and optionally a user and a host.
pub struct Origin {
    pub nick: Seq<u8>,
    pub user: Option<Seq<u8>>,
    pub host: Option<Seq<u8>>,
}

/// A message as values: its origin, command, middle parameters and trailing
/// parameter.
pub struct Line {
    pub origin: Option<Origin>,
    pub command: Seq<u8>,
    pub middles: Seq<Seq<u8>>,
    pub trailing: Option<Seq<u8>>,
}

/// No byte of `s` ends a field of kind `k`, and none is a CR.
pub open spec fn plain(s: Seq<u8>, k: Stop) -> bool {
    forall|i: int| 0 <= i < s.len() ==> !stops(k, #[trigger] s[i]) && s[i] != CR
}

/// A middle parameter: not empty, no space or CR, and not opened by `':'`.
pub open spec fn valid_middle(m: Seq<u8>) -> bool {
    m.len() > 0 && plain(m, Stop::Field) && m[0] != COLON
}

pub open spec fn valid_origin(o: Origin) -> bool {
    &&& plain(o.nick, Stop::Nick)
    &&& o.user matches Some(u) ==> plain(u, Stop::User)
    &&& o.host matches Some(h) ==> plain(h, Stop::Host)
}

/// The fields of `l` are what the grammar allows and its line fits the
/// byte offsets.
pub open spec fn valid_line(l: Line) -> bool {
    &&& l.origin matches Some(o) ==> valid_origin(o)
    &&& l.command.len() > 0
    &&& plain(l.command, Stop::Field)
    &&& l.origin is None ==> l.command[0] != COLON
    &&& forall|i: int| 0 <= i < l.middles.len() ==> valid_middle(#[trigger] l.middles[i])
    &&& l.trailing matches Some(t) ==> plain(t, Stop::Line)
    &&& line_bytes(l).len() <= MAX_LINE
}

pub open spec fn opt_part(d: u8, s: Option<Seq<u8>>) -> Seq<u8> {
    match s {
        Some(x) => seq![d] + x,
        None => Seq::empty(),
    }
}

/// `nick!user@host`, each of the last two only where present.
pub open spec fn origin_bytes(o: Origin) -> Seq<u8> {
    o.nick + opt_part(BANG, o.user) + opt_part(AT, o.host)
}

pub open spec fn prefix_bytes(l: Line) -> Seq<u8> {
    match l.origin {
        Some(o) => seq![COLON] + origin_bytes(o) + seq![SPACE],
        None => Seq::empty(),
    }
}

pub open spec fn middles_bytes(ms: Seq<Seq<u8>>) -> Seq<u8>
    decreases ms.len(),
{
    if ms.len() == 0 {
        Seq::empty()
    } else {
        seq![SPACE] + ms[0] + middles_bytes(ms.drop_first())
    }
}

pub open spec fn trailing_bytes(t: Option<Seq<u8>>) -> Seq<u8> {
    match t {
        Some(x) => seq![SPACE, COLON] + x,
        None => Seq::empty(),
    }
}

/// The line of `l`, CRLF excluded.
pub open spec fn line_bytes(l: Line) -> Seq<u8> {
    prefix_bytes(l) + l.command + middles_bytes(l.middles) + trailing_bytes(l.trailing)
}

/// `l` as it goes on the wire.
pub open spec fn wire(l: Line) -> Seq<u8> {
    line_bytes(l) + seq![CR, LF]
}

/// The parameters of `l` in wire order, the trailing one last.
pub open spec fn params_of(l: Line) -> Seq<Seq<u8>> {
    match l.trailing {
        Some(t) => l.middles.push(t),
        None => l.middles,
    }
}

/// The spans of the prefix of `l`.
pub open spec fn head_spans(l: Line) -> Spans {
    match l.origin {
        None => no_prefix(),
        Some(o) => {
            let n_end: int = 1 + o.nick.len() as int;
            let u_end: int = match o.user {
                Some(u) => n_end + 1 + u.len(),
                None => n_end,
            };
            let close: int = match o.host {
                Some(h) => u_end + 1 + h.len(),
                None => u_end,
            };
            prefix_spans(
                close,
                span(1, n_end),
                match o.user {
                    Some(u) => Some(span(n_end + 1, u_end)),
                    None => None,
                },
                match o.host {
                    Some(h) => Some(span(u_end + 1, close)),
                    None => None,
                },
            )
        },
    }
}

/// The spans of the middle parameters `ms`, the first of which follows the
/// space at `q`.
pub open spec fn mid_spans(ms: Seq<Seq<u8>>, q: int) -> Seq<(u16, u16)>
    decreases ms.len(),
{
    if ms.len() == 0 {
        Seq::empty()
    } else {
        seq![span(q + 1, q + 1 + ms[0].len())] + mid_spans(ms.drop_first(), q + 1 + ms[0].len())
    }
}

/// The span of a trailing parameter whose space is at `q`.
pub open spec fn trail_spans(t: Option<Seq<u8>>, q: int) -> Seq<(u16, u16)> {
    match t {
        Some(x) => seq![span(q + 2, q + 2 + x.len())],
        None => Seq::empty(),
    }
}

/// Where the scanner finds each field of `l` in its line.
pub open spec fn spans_of(l: Line) -> Spans {
    let p = prefix_bytes(l).len() as int;
    let c = p + l.command.len();
    Spans {
        command: span(p, c),
        params: mid_spans(l.middles, c) + trail_spans(
            l.trailing,
            c + middles_bytes(l.middles).len(),
        ),
        ..head_spans(l)
    }
}

/// The fields that `v` exposes are those of `l`.
pub open spec fn decodes_to(v: MessageView, l: Line) -> bool {
    &&& v.command_bytes() == l.command
    &&& v.param_bytes() == params_of(l)
    &&& v.prefix_bytes() == match l.origin {
        Some(o) => Some(origin_bytes(o)),
        None => None,
    }
    &&& v.nick_bytes() == match l.origin {
        Some(o) => Some(o.nick),
        None => None,
    }
    &&& v.user_bytes() == match l.origin {
        Some(o) => o.user,
        None => None,
    }
    &&& v.host_bytes() == match l.origin {
        Some(o) => o.host,
        None => None,
    }
}

/// A field `s` at `a`, followed by a byte that ends it, is what the search
/// from `a` finds.
proof fn lemma_find_piece(w: Seq<u8>, a: int, s: Seq<u8>, k: Stop)
    requires
        0 <= a,
        a + s.len() < w.len(),
        w.subrange(a, a + s.len()) == s,
        plain(s, k),
        stops(k, w[a + s.len()]),
    ensures
        find_from(w, a, k) == Some(a + s.len()),
{
    assert forall|j: int| a <= j < a + s.len() implies !stops(k, #[trigger] w[j]) by {
        assert(w[j] == w.subrange(a, a + s.len())[j - a]);
    }
    lemma_find_first(w, a, k, a + s.len());
}

/// The parameters that follow the space at `q`: the middles `ms`, then the
/// trailing `t`, then the CR at `n`.
proof fn lemma_params_wire(
    w: Seq<u8>,
    ms: Seq<Seq<u8>>,
    t: Option<Seq<u8>>,
    q: int,
    n: int,
    acc: Seq<(u16, u16)>,
)
    requires
        0 <= q < n < w.len(),
        w.subrange(q, n + 1) == middles_bytes(ms) + trailing_bytes(t) + seq![CR],
        ms.len() > 0 || t is Some,
        forall|i: int| 0 <= i < ms.len() ==> valid_middle(#[trigger] ms[i]),
        t matches Some(x) ==> plain(x, Stop::Line),
    ensures
        params_from(w, q + 1, acc) == Some(
            (acc + mid_spans(ms, q) + trail_spans(t, q + middles_bytes(ms).len()), n),
        ),
    decreases ms.len(),
{
    let rest = middles_bytes(ms) + trailing_bytes(t) + seq![CR];
    assert forall|j: int| 0 <= j <= n - q implies w[q + j] == #[trigger] rest[j] by {
        assert(w.subrange(q, n + 1)[j] == w[q + j]);
    }
    if ms.len() > 0 {
        let m = ms[0];
        let ms2 = ms.drop_first();
        let rest2 = middles_bytes(ms2) + trailing_bytes(t) + seq![CR];
        assert(rest =~= seq![SPACE] + m + rest2);
        assert(valid_middle(m));
        assert(w[q + 1] == rest[1]);
        assert(rest[1] == m[0]);
        let e = q + 1 + m.len();
        assert(w.subrange(q + 1, e) =~= m) by {
            assert forall|j: int| 0 <= j < m.len() implies w.subrange(q + 1, e)[j] == m[j] by {
                assert(w[q + 1 + j] == rest[1 + j]);
            }
        }
        assert(w[e] == rest2[0]) by {
            assert(w[q + (1 + m.len())] == rest[1 + m.len() as int]);
        }
        assert forall|i: int| 0 <= i < ms2.len() implies valid_middle(#[trigger] ms2[i]) by {
            assert(ms2[i] == ms[i + 1]);
        }
        if ms2.len() == 0 && t is None {
            assert(rest2 =~= seq![CR]);
            assert(rest.len() == n + 1 - q);
            lemma_find_piece(w, q + 1, m, Stop::Field);
            assert(mid_spans(ms, q) =~= seq![span(q + 1, e)]);
            assert(acc + mid_spans(ms, q) + trail_spans(t, q + middles_bytes(ms).len()) =~= acc.push(
                span(q + 1, e),
            ));
        } else {
            if ms2.len() > 0 {
                assert(middles_bytes(ms2) =~= seq![SPACE] + ms2[0] + middles_bytes(ms2.drop_first()));
            }
            assert(rest2[0] == SPACE);
            lemma_find_piece(w, q + 1, m, Stop::Field);
            assert(w.subrange(e, n + 1) =~= rest2) by {
                assert forall|j: int| 0 <= j < rest2.len() implies w.subrange(e, n + 1)[j]
                    == rest2[j] by {
                    assert(w[q + (1 + m.len() + j)] == rest[1 + m.len() as int + j]);
                }
            }
            lemma_params_wire(w, ms2, t, e, n, acc.push(span(q + 1, e)));
            assert(middles_bytes(ms).len() == 1 + m.len() + middles_bytes(ms2).len());
            assert(acc.push(span(q + 1, e)) + mid_spans(ms2, e) =~= acc + mid_spans(ms, q));
        }
    } else {
        let x = t->0;
        assert(middles_bytes(ms) =~= Seq::<u8>::empty());
        assert(rest =~= seq![SPACE, COLON] + x + seq![CR]);
        assert(w[q + 1] == rest[1]);
        assert(w[q + 1] == COLON);
        let e = q + 2 + x.len();
        assert(w.subrange(q + 2, e) =~= x) by {
            assert forall|j: int| 0 <= j < x.len() implies w.subrange(q + 2, e)[j] == x[j] by {
                assert(w[q + (2 + j)] == rest[2 + j]);
            }
        }
        assert(w[e] == CR) by {
            assert(w[q + (2 + x.len())] == rest[2 + x.len() as int]);
        }
        assert(rest.len() == n + 1 - q);
        lemma_find_piece(w, q + 2, x, Stop::Line);
        assert(trailing_from(w, q + 2, acc) == Some((acc.push(span(q + 2, e)), e)));
        assert(acc + mid_spans(ms, q) + trail_spans(t, q + middles_bytes(ms).len()) =~= acc.push(
            span(q + 2, e),
        ));
    }
}

/// `w` holds `s` at `a`, given that it starts with `big`, which holds `s` at `a`.
proof fn lemma_piece_of(w: Seq<u8>, big: Seq<u8>, a: int, s: Seq<u8>)
    requires
        big.len() <= w.len(),
        w.subrange(0, big.len() as int) == big,
        0 <= a,
        a + s.len() <= big.len(),
        big.subrange(a, a + s.len()) == s,
    ensures
        w.subrange(a, a + s.len()) == s,
{
    assert forall|j: int| 0 <= j < s.len() implies w.subrange(a, a + s.len())[j] == s[j] by {
        assert(w[a + j] == w.subrange(0, big.len() as int)[a + j]);
        assert(big[a + j] == big.subrange(a, a + s.len())[j]);
    }
    assert(w.subrange(a, a + s.len()) =~= s);
}

/// `w` starts with `big`, so it holds `big`'s byte at `x`.
proof fn lemma_at(w: Seq<u8>, big: Seq<u8>, x: int)
    requires
        big.len() <= w.len(),
        w.subrange(0, big.len() as int) == big,
        0 <= x < big.len(),
    ensures
        w[x] == big[x],
{
    assert(w.subrange(0, big.len() as int)[x] == w[x]);
}

/// The scanner finds the prefix of `l` where `prefix_bytes` put it.
proof fn lemma_head_wire(w: Seq<u8>, l: Line)
    requires
        valid_line(l),
        line_bytes(l).len() < w.len(),
        w.subrange(0, line_bytes(l).len() + 1 as int) == line_bytes(l) + seq![CR],
    ensures
        head(w) == Some((head_spans(l), prefix_bytes(l).len() as int)),
{
    let big = line_bytes(l) + seq![CR];
    let pre = prefix_bytes(l);
    let tail = l.command + middles_bytes(l.middles) + trailing_bytes(l.trailing) + seq![CR];
    assert(big =~= pre + tail);
    lemma_at(w, big, 0);
    match l.origin {
        None => {
            assert(pre =~= Seq::<u8>::empty());
            assert(big[0] == l.command[0]);
        },
        Some(o) => {
            assert(big[0] == COLON);
            lemma_head_origin(w, big, o, tail);
        },
    }
}

#[verifier::spinoff_prover]
proof fn lemma_head_origin(w: Seq<u8>, big: Seq<u8>, o: Origin, tail: Seq<u8>)
    requires
        valid_origin(o),
        big.len() <= w.len(),
        w.subrange(0, big.len() as int) == big,
        big == seq![COLON] + origin_bytes(o) + seq![SPACE] + tail,
        big.len() <= MAX_LINE + 1,
        tail.len() > 0,
    ensures
        head(w) == Some(
            (
                head_spans(
                    Line {
                        origin: Some(o),
                        command: Seq::empty(),
                        middles: Seq::empty(),
                        trailing: None,
                    },
                ),
                2 + origin_bytes(o).len() as int,
            ),
        ),
{
    let nb = o.nick;
    let ub = opt_part(BANG, o.user);
    let hb = opt_part(AT, o.host);
    let n_end: int = 1 + nb.len() as int;
    let after_nick = ub + hb + seq![SPACE] + tail;
    assert(big =~= seq![COLON] + nb + after_nick);
    lemma_at(w, big, 0);
    assert(big.subrange(1, n_end) =~= nb);
    lemma_piece_of(w, big, 1, nb);
    lemma_at(w, big, n_end);
    assert(big[n_end] == after_nick[0]);
    match o.user {
        Some(u) => {
            assert(after_nick[0] == BANG);
            lemma_find_piece(w, 1, nb, Stop::Nick);
            let u_end: int = n_end + 1 + u.len();
            let after_user = hb + seq![SPACE] + tail;
            assert(big =~= seq![COLON] + nb + seq![BANG] + u + after_user);
            assert(big.subrange(n_end + 1, u_end) =~= u);
            lemma_piece_of(w, big, n_end + 1, u);
            lemma_at(w, big, u_end);
            assert(big[u_end] == after_user[0]);
            match o.host {
                Some(h) => {
                    assert(after_user[0] == AT);
                    lemma_find_piece(w, n_end + 1, u, Stop::User);
                    let close: int = u_end + 1 + h.len();
                    assert(big =~= seq![COLON] + nb + seq![BANG] + u + seq![AT] + h + seq![SPACE]
                        + tail);
                    assert(big.subrange(u_end + 1, close) =~= h);
                    lemma_piece_of(w, big, u_end + 1, h);
                    lemma_at(w, big, close);
                    lemma_find_piece(w, u_end + 1, h, Stop::Host);
                    assert(head(w) == host_part(
                        w,
                        u_end + 1,
                        span(1, n_end),
                        Some(span(n_end + 1, u_end)),
                    ));
                },
                None => {
                    assert(after_user[0] == SPACE);
                    lemma_find_piece(w, n_end + 1, u, Stop::User);
                },
            }
        },
        None => {
            match o.host {
                Some(h) => {
                    assert(after_nick[0] == AT);
                    lemma_find_piece(w, 1, nb, Stop::Nick);
                    let close: int = n_end + 1 + h.len();
                    assert(big =~= seq![COLON] + nb + seq![AT] + h + seq![SPACE] + tail);
                    assert(big.subrange(n_end + 1, close) =~= h);
                    lemma_piece_of(w, big, n_end + 1, h);
                    lemma_at(w, big, close);
                    lemma_find_piece(w, n_end + 1, h, Stop::Host);
                    assert(head(w) == host_part(w, n_end + 1, span(1, n_end), None));
                },
                None => {
                    assert(after_nick[0] == SPACE);
                    lemma_find_piece(w, 1, nb, Stop::Nick);
                },
            }
        },
    }
}

/// The scanner finds every field of `l` in a buffer that starts with its
/// line and a CR, whatever follows.
pub proof fn lemma_line_wire(w: Seq<u8>, l: Line)
    requires
        valid_line(l),
        line_bytes(l).len() < w.len(),
        w.subrange(0, line_bytes(l).len() + 1 as int) == line_bytes(l) + seq![CR],
    ensures
        line(w) == Some((spans_of(l), line_bytes(l).len() as int)),
{
    lemma_head_wire(w, l);
    let big = line_bytes(l) + seq![CR];
    let n = line_bytes(l).len() as int;
    let p = prefix_bytes(l).len() as int;
    let c = p + l.command.len();
    let mb = middles_bytes(l.middles);
    let tb = trailing_bytes(l.trailing);
    let after = mb + tb + seq![CR];
    assert(big =~= prefix_bytes(l) + l.command + after);
    assert(big.subrange(p, c) =~= l.command);
    lemma_piece_of(w, big, p, l.command);
    lemma_at(w, big, c);
    assert(big[c] == after[0]);
    if l.middles.len() > 0 {
        assert(mb =~= seq![SPACE] + l.middles[0] + middles_bytes(l.middles.drop_first()));
    }
    if l.middles.len() == 0 {
        assert(mb =~= Seq::<u8>::empty());
    }
    let pre = head_spans(l);
    if l.middles.len() == 0 && l.trailing is None {
        assert(after =~= seq![CR]);
        lemma_find_piece(w, p, l.command, Stop::Field);
        assert(body(w, pre, p) == Some((Spans { command: span(p, c), ..pre }, c)));
        assert(spans_of(l).params =~= Seq::<(u16, u16)>::empty());
    } else {
        assert(after[0] == SPACE);
        lemma_find_piece(w, p, l.command, Stop::Field);
        assert(big.subrange(c, n + 1) =~= after);
        lemma_piece_of(w, big, c, after);
        lemma_params_wire(w, l.middles, l.trailing, c, n, Seq::empty());
        assert(Seq::<(u16, u16)>::empty() + mid_spans(l.middles, c) + trail_spans(
            l.trailing,
            c + mb.len(),
        ) =~= spans_of(l).params);
    }
}

/// The spans of the middles `ms` pick out exactly the middles.
proof fn lemma_mid_fields(raw: Seq<u8>, ms: Seq<Seq<u8>>, q: int)
    requires
        0 <= q,
        q + middles_bytes(ms).len() <= raw.len() <= MAX_LINE,
        raw.subrange(q, q + middles_bytes(ms).len()) == middles_bytes(ms),
    ensures
        mid_spans(ms, q).len() == ms.len(),
        forall|i: int| 0 <= i < ms.len() ==> field(raw, #[trigger] mid_spans(ms, q)[i]) == ms[i],
    decreases ms.len(),
{
    if ms.len() > 0 {
        let m = ms[0];
        let ms2 = ms.drop_first();
        let q2 = q + 1 + m.len();
        let mb = middles_bytes(ms);
        assert(mb =~= seq![SPACE] + m + middles_bytes(ms2));
        assert(raw.subrange(q + 1, q2) =~= m) by {
            assert forall|j: int| 0 <= j < m.len() implies raw.subrange(q + 1, q2)[j] == m[j] by {
                assert(raw.subrange(q, q + mb.len())[1 + j] == raw[q + 1 + j]);
            }
        }
        assert(raw.subrange(q2, q2 + middles_bytes(ms2).len()) =~= middles_bytes(ms2)) by {
            assert forall|j: int| 0 <= j < middles_bytes(ms2).len() implies raw.subrange(
                q2,
                q2 + middles_bytes(ms2).len(),
            )[j] == middles_bytes(ms2)[j] by {
                assert(raw.subrange(q, q + mb.len())[1 + m.len() + j] == raw[q2 + j]);
            }
        }
        lemma_mid_fields(raw, ms2, q2);
        assert forall|i: int| 0 <= i < ms.len() implies field(raw, #[trigger] mid_spans(ms, q)[i])
            == ms[i] by {
            if i > 0 {
                assert(mid_spans(ms, q)[i] == mid_spans(ms2, q2)[i - 1]);
                assert(ms[i] == ms2[i - 1]);
            }
        }
    }
}

/// The spans that the scanner finds in the line of `l` pick out exactly the
/// fields of `l`.
pub proof fn lemma_decode(l: Line)
    requires
        valid_line(l),
    ensures
        decodes_to(MessageView { raw: line_bytes(l), spans: spans_of(l) }, l),
{
    let raw = line_bytes(l);
    let v = MessageView { raw, spans: spans_of(l) };
    let pb = prefix_bytes(l);
    let p = pb.len() as int;
    let c = p + l.command.len();
    let mb = middles_bytes(l.middles);
    let tb = trailing_bytes(l.trailing);
    assert(raw =~= pb + l.command + mb + tb);
    assert(v.command_bytes() =~= l.command);
    match l.origin {
        Some(o) => {
            let nb = o.nick;
            let ub = opt_part(BANG, o.user);
            let hb = opt_part(AT, o.host);
            let n_end: int = 1 + nb.len() as int;
            let close: int = 1 + origin_bytes(o).len() as int;
            assert(pb =~= seq![COLON] + origin_bytes(o) + seq![SPACE]);
            assert(raw.subrange(1, close) =~= origin_bytes(o));
            assert(raw.subrange(1, n_end) =~= nb);
            match o.user {
                Some(u) => {
                    let u_end: int = n_end + 1 + u.len();
                    assert(raw.subrange(n_end + 1, u_end) =~= u);
                    match o.host {
                        Some(h) => {
                            assert(raw.subrange(u_end + 1, close) =~= h);
                        },
                        None => {},
                    }
                },
                None => {
                    match o.host {
                        Some(h) => {
                            assert(raw.subrange(n_end + 1, close) =~= h);
                        },
                        None => {},
                    }
                },
            }
        },
        None => {},
    }
    assert(raw.subrange(c, c + mb.len()) =~= mb);
    lemma_mid_fields(raw, l.middles, c);
    let ps = v.spans.params;
    assert(ps == mid_spans(l.middles, c) + trail_spans(l.trailing, c + mb.len()));
    assert forall|i: int| 0 <= i < l.middles.len() implies #[trigger] v.param_bytes()[i]
        == l.middles[i] by {
        assert(ps[i] == mid_spans(l.middles, c)[i]);
    }
    match l.trailing {
        Some(x) => {
            let t0 = c + mb.len() + 2;
            assert(raw.subrange(t0, t0 + x.len()) =~= x);
            assert(ps[l.middles.len() as int] == span(t0, t0 + x.len()));
            assert(v.param_bytes() =~= params_of(l));
        },
        None => {
            assert(v.param_bytes() =~= params_of(l));
        },
    }
}

/// A buffer that starts with the line of `l` and its CRLF holds `l` as its
/// first message.
pub proof fn lemma_scan_wire(l: Line, rest: Seq<u8>)
    requires
        valid_line(l),
    ensures
        scan(wire(l) + rest) == Outcome::Complete(spans_of(l), line_bytes(l).len() as int),
{
    let b = wire(l) + rest;
    let n = line_bytes(l).len() as int;
    let w = window(b);
    assert(b.subrange(0, n + 1) =~= line_bytes(l) + seq![CR]);
    assert(w.subrange(0, n + 1) =~= b.subrange(0, n + 1));
    lemma_line_wire(w, l);
    assert(b[n + 1] == LF);
}

/// A valid message put on the wire, CRLF included, parses back to its own
/// command, origin and parameters, and the parse takes all of its bytes.
pub proof fn round_trip(l: Line)
    requires
        valid_line(l),
    ensures
        forall|r: Result<Option<(ParsedMessage, usize)>, ParseError>|
            #[trigger] parse_outcome(wire(l), r) ==> match r {
                Ok(Some((m, n))) => n == wire(l).len() && m@.raw == line_bytes(l) && decodes_to(
                    m@,
                    l,
                ),
                _ => false,
            },
{
    lemma_scan_wire(l, Seq::empty());
    assert(wire(l) + Seq::<u8>::empty() =~= wire(l));
    assert(wire(l).subrange(0, line_bytes(l).len() as int) =~= line_bytes(l));
    lemma_decode(l);
}

/// Where the parameters from `pos` end, they end at a CR.
proof fn lemma_params_end(w: Seq<u8>, pos: int, acc: Seq<(u16, u16)>)
    ensures
        params_from(w, pos, acc) matches Some((ps, c)) ==> 0 <= c < w.len() && w[c] == CR,
    decreases w.len() - pos,
{
    if 0 <= pos < w.len() {
        if w[pos] == SPACE {
            lemma_params_end(w, pos + 1, acc);
        } else if w[pos] == COLON {
            lemma_find_from(w, pos + 1, Stop::Line);
        } else if w[pos] != CR {
            lemma_find_from(w, pos, Stop::Field);
            if let Some(e) = find_from(w, pos, Stop::Field) {
                if w[e] != CR {
                    lemma_params_end(w, e + 1, acc.push(span(pos, e)));
                }
            }
        }
    }
}

/// Where a line ends, it ends at a CR.
pub proof fn lemma_line_end(w: Seq<u8>)
    ensures
        line(w) matches Some((sp, c)) ==> 0 <= c < w.len() && w[c] == CR,
{
    if let Some((pre, cs)) = head(w) {
        if 0 <= cs {
            lemma_find_from(w, cs, Stop::Field);
            if let Some(e) = find_from(w, cs, Stop::Field) {
                if w[e] != CR {
                    lemma_params_end(w, e + 1, Seq::empty());
                }
            }
        }
    }
}

pub open spec fn no_cr(s: Seq<u8>) -> bool {
    forall|i: int| 0 <= i < s.len() ==> #[trigger] s[i] != CR
}

proof fn lemma_no_cr_concat(a: Seq<u8>, b: Seq<u8>)
    requires
        no_cr(a),
        no_cr(b),
    ensures
        no_cr(a + b),
{
    assert forall|i: int| 0 <= i < (a + b).len() implies #[trigger] (a + b)[i] != CR by {
        if i >= a.len() {
            assert((a + b)[i] == b[i - a.len()]);
        }
    }
}

proof fn lemma_middles_no_cr(ms: Seq<Seq<u8>>)
    requires
        forall|i: int| 0 <= i < ms.len() ==> valid_middle(#[trigger] ms[i]),
    ensures
        no_cr(middles_bytes(ms)),
    decreases ms.len(),
{
    if ms.len() > 0 {
        let ms2 = ms.drop_first();
        assert forall|i: int| 0 <= i < ms2.len() implies valid_middle(#[trigger] ms2[i]) by {
            assert(ms2[i] == ms[i + 1]);
        }
        lemma_middles_no_cr(ms2);
        assert(valid_middle(ms[0]));
        assert(no_cr(seq![SPACE]));
        lemma_no_cr_concat(seq![SPACE], ms[0]);
        lemma_no_cr_concat(seq![SPACE] + ms[0], middles_bytes(ms2));
    }
}

/// The line of a valid message holds no CR.
proof fn lemma_line_no_cr(l: Line)
    requires
        valid_line(l),
    ensures
        no_cr(line_bytes(l)),
{
    assert(no_cr(seq![SPACE]));
    assert(no_cr(seq![COLON]));
    assert(no_cr(seq![BANG]));
    assert(no_cr(seq![AT]));
    assert(no_cr(Seq::<u8>::empty()));
    if let Some(o) = l.origin {
        if let Some(u) = o.user {
            lemma_no_cr_concat(seq![BANG], u);
        }
        if let Some(h) = o.host {
            lemma_no_cr_concat(seq![AT], h);
        }
        lemma_no_cr_concat(o.nick, opt_part(BANG, o.user));
        lemma_no_cr_concat(o.nick + opt_part(BANG, o.user), opt_part(AT, o.host));
        lemma_no_cr_concat(seq![COLON], origin_bytes(o));
        lemma_no_cr_concat(seq![COLON] + origin_bytes(o), seq![SPACE]);
    }
    lemma_middles_no_cr(l.middles);
    if let Some(t) = l.trailing {
        assert(no_cr(seq![SPACE, COLON]));
        lemma_no_cr_concat(seq![SPACE, COLON], t);
    }
    lemma_no_cr_concat(prefix_bytes(l), l.command);
    lemma_no_cr_concat(prefix_bytes(l) + l.command, middles_bytes(l.middles));
    lemma_no_cr_concat(
        prefix_bytes(l) + l.command + middles_bytes(l.middles),
        trailing_bytes(l.trailing),
    );
}

/// Every strict prefix of a valid message on the wire is incomplete: its
/// parse asks for more bytes, and neither fails nor matches.
pub proof fn truncated_is_incomplete(l: Line, k: int)
    requires
        valid_line(l),
        0 <= k < wire(l).len(),
    ensures
        scan(wire(l).subrange(0, k)) == Outcome::Incomplete,
        forall|r: Result<Option<(ParsedMessage, usize)>, ParseError>|
            #[trigger] parse_outcome(wire(l).subrange(0, k), r) ==> r matches Ok(None),
{
    let p = wire(l).subrange(0, k);
    let n = line_bytes(l).len() as int;
    assert(window(p) == p);
    if k <= n {
        lemma_line_no_cr(l);
        lemma_line_end(p);
        if let Some((sp, c)) = line(p) {
            assert(p[c] == line_bytes(l)[c]);
        }
    } else {
        assert(p.subrange(0, n + 1) =~= line_bytes(l) + seq![CR]);
        lemma_line_wire(p, l);
    }
}

/// From `pos` on, the parameters end at the first CR, `i`.
proof fn lemma_params_first_cr(w: Seq<u8>, pos: int, acc: Seq<(u16, u16)>, i: int)
    requires
        0 <= pos <= i < w.len(),
        w[i] == CR,
        forall|j: int| pos <= j < i ==> #[trigger] w[j] != CR,
    ensures
        params_from(w, pos, acc) matches Some((ps, c)) && c == i,
    decreases i - pos,
{
    if w[pos] == SPACE {
        lemma_params_first_cr(w, pos + 1, acc, i);
    } else if w[pos] == COLON {
        lemma_find_first(w, pos + 1, Stop::Line, i);
    } else if w[pos] != CR {
        lemma_find_from(w, pos, Stop::Field);
        let e = find_from(w, pos, Stop::Field)->0;
        if w[e] != CR {
            lemma_params_first_cr(w, e + 1, acc.push(span(pos, e)), i);
        }
    }
}

/// A closed prefix ends by the first space after its colon.
proof fn lemma_head_closes(w: Seq<u8>, s: int)
    requires
        w.len() > 0,
        w[0] == COLON,
        1 <= s < w.len(),
        w[s] == SPACE,
    ensures
        head(w) matches Some((pre, cs)) && 0 <= cs <= s + 1,
{
    lemma_find_from(w, 1, Stop::Nick);
    let x = find_from(w, 1, Stop::Nick)->0;
    if w[x] == BANG {
        lemma_find_from(w, x + 1, Stop::User);
        let y = find_from(w, x + 1, Stop::User)->0;
        if w[y] != SPACE {
            lemma_find_from(w, y + 1, Stop::Host);
        }
    } else if w[x] != SPACE {
        lemma_find_from(w, x + 1, Stop::Host);
    }
}

/// When the first CR of a buffer lies within the line limit and after the
/// prefix, and the byte after it is not LF, the parse reports broken framing,
/// whatever else precedes the CR.
pub proof fn bad_line_end_is_malformed(b: Seq<u8>, i: int)
    requires
        0 <= i < SCAN_LIMIT,
        i + 1 < b.len(),
        b[i] == CR,
        b[i + 1] != LF,
        forall|j: int| 0 <= j < i ==> #[trigger] b[j] != CR,
        b[0] == COLON ==> exists|s: int| 0 <= s < i && #[trigger] b[s] == SPACE,
    ensures
        scan(b) == Outcome::Malformed,
        forall|r: Result<Option<(ParsedMessage, usize)>, ParseError>|
            #[trigger] parse_outcome(b, r) ==> r matches Err(ParseError::Invalid),
{
    let w = window(b);
    assert(i < w.len());
    assert forall|j: int| 0 <= j < i implies #[trigger] w[j] != CR by {
        assert(w[j] == b[j]);
    }
    assert(w[i] == b[i]);
    assert(w[0] == b[0]);
    if b[0] == COLON {
        let s = choose|s: int| 0 <= s < i && #[trigger] b[s] == SPACE;
        assert(w[s] == b[s]);
        lemma_head_closes(w, s);
    }
    let (pre, cs) = head(w)->0;
    assert(0 <= cs <= i);
    lemma_find_from(w, cs, Stop::Field);
    let e = find_from(w, cs, Stop::Field)->0;
    assert(e <= i) by {
        if e > i {
            assert(stops(Stop::Field, w[i]));
        }
    }
    if w[e] != CR {
        lemma_params_first_cr(w, e + 1, Seq::empty(), i);
    } else {
        assert(e == i);
    }
}

/// A pull from a reader whose buffer starts with a valid message on the wire
/// gives that message and leaves exactly what followed it.
#[verifier::spinoff_prover]
pub proof fn lemma_step_wire(l: Line, rest: Seq<u8>, closed: bool)
    requires
        valid_line(l),
    ensures
        step(ReaderView { pending: wire(l) + rest, closed }) == (
            Event::Message(MessageView { raw: line_bytes(l), spans: spans_of(l) }),
            ReaderView { pending: rest, closed },
        ),
{
    let b = wire(l) + rest;
    let n = line_bytes(l).len() as int;
    lemma_scan_wire(l, rest);
    assert(b.subrange(0, n) =~= line_bytes(l));
    assert(b.subrange(n + 2, b.len() as int) =~= rest);
    let v = ReaderView { pending: b, closed };
    assert(step(v) == (
        Event::Message(MessageView { raw: b.subrange(0, n), spans: spans_of(l) }),
        ReaderView { pending: b.subrange(n + 2, b.len() as int), closed },
    ));
}

/// Two valid messages sent back to back come out of the reader as two
/// messages in order: the first pull takes exactly the first message's bytes
/// and leaves the second whole at the front, the second takes the rest, and
/// nothing more comes out.
pub proof fn back_to_back(l1: Line, l2: Line, closed: bool)
    requires
        valid_line(l1),
        valid_line(l2),
    ensures
        ({
            let v0 = ReaderView { pending: wire(l1) + wire(l2), closed };
            let m1 = MessageView { raw: line_bytes(l1), spans: spans_of(l1) };
            let m2 = MessageView { raw: line_bytes(l2), spans: spans_of(l2) };
            &&& step(v0) == (Event::Message(m1), ReaderView { pending: wire(l2), closed })
            &&& step(step(v0).1) == (
                Event::Message(m2),
                ReaderView { pending: Seq::empty(), closed },
            )
            &&& step(step(step(v0).1).1).0 == if closed {
                Event::Ended
            } else {
                Event::NeedMore
            }
            &&& decodes_to(m1, l1)
            &&& decodes_to(m2, l2)
        }),
{
    lemma_step_wire(l1, wire(l2), closed);
    lemma_step_wire(l2, Seq::empty(), closed);
    assert(wire(l2) + Seq::<u8>::empty() =~= wire(l2));
    assert(head(Seq::<u8>::empty()) is None);
    assert(window(Seq::<u8>::empty()) == Seq::<u8>::empty());
    lemma_decode(l1);
    lemma_decode(l2);
}

} // verus!
