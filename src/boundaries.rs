//! The scanner cuts a line only next to ASCII delimiters, so it never cuts
//! through a character: where a line is well-formed UTF-8, so is each field.
use crate::grammar::{
    find_from, head, lemma_find_from, line, params_from, span, window, Spans, Stop, BANG, COLON,
    CR, SCAN_LIMIT, SPACE,
};
use crate::read_parser::{parse_outcome, MessageView, ParseError, ParsedMessage};
use crate::wire::lemma_line_end;
use vstd::prelude::*;
use vstd::utf8::{
    is_char_boundary_iff_not_is_continuation_byte, length_of_first_scalar, pop_first_scalar,
    valid_utf8, valid_utf8_split,
};

verus! {

pub open spec fn is_ascii_byte(b: u8) -> bool {
    b < 0x80
}

/// The bytes from `b` to `e` of well-formed UTF-8 are well-formed UTF-8 when
/// an ASCII byte, or the edge of the sequence, stands on each side.
pub proof fn lemma_ascii_cut(raw: Seq<u8>, b: int, e: int)
    requires
        valid_utf8(raw),
        0 <= b <= e <= raw.len(),
        b == 0 || is_ascii_byte(raw[b - 1]),
        e == raw.len() || is_ascii_byte(raw[e]),
    ensures
        valid_utf8(raw.subrange(b, e)),
{
    let t = raw.subrange(b, raw.len() as int);
    if b == 0 {
        assert(t =~= raw);
    } else {
        is_char_boundary_iff_not_is_continuation_byte(raw, b - 1);
        valid_utf8_split(raw, b - 1);
        let s = raw.subrange(b - 1, raw.len() as int);
        assert(s[0] == raw[b - 1]);
        assert(length_of_first_scalar(s) == 1);
        assert(pop_first_scalar(s) =~= t);
    }
    if e == raw.len() {
        assert(t.subrange(0, e - b) =~= raw.subrange(b, e));
        assert(t.subrange(0, t.len() as int) =~= t);
    } else {
        assert(t[e - b] == raw[e]);
        is_char_boundary_iff_not_is_continuation_byte(t, e - b);
        valid_utf8_split(t, e - b);
        assert(t.subrange(0, e - b) =~= raw.subrange(b, e));
    }
}

/// The span `s` of a line whose CR is at `c` has an ASCII byte, or the start
/// of the line, before it, and an ASCII byte at its end.
pub open spec fn cut_ok(w: Seq<u8>, s: (u16, u16), c: int) -> bool {
    let b = s.0 as int;
    let e = s.1 as int;
    &&& 0 <= b <= e <= c < w.len()
    &&& b == 0 || is_ascii_byte(w[b - 1])
    &&& is_ascii_byte(w[e])
}

pub open spec fn opt_cut_ok(w: Seq<u8>, s: Option<(u16, u16)>, c: int) -> bool {
    s matches Some(t) ==> cut_ok(w, t, c)
}

pub open spec fn all_cuts_ok(w: Seq<u8>, sp: Spans, c: int) -> bool {
    &&& cut_ok(w, sp.command, c)
    &&& opt_cut_ok(w, sp.prefix, c)
    &&& opt_cut_ok(w, sp.nick, c)
    &&& opt_cut_ok(w, sp.user, c)
    &&& opt_cut_ok(w, sp.host, c)
    &&& forall|k: int| 0 <= k < sp.params.len() ==> cut_ok(w, #[trigger] sp.params[k], c)
}

/// The parameters found from `pos`, after a space, are cut next to ASCII bytes.
proof fn lemma_params_cuts(w: Seq<u8>, pos: int, acc: Seq<(u16, u16)>)
    requires
        w.len() <= SCAN_LIMIT,
        1 <= pos <= w.len(),
        w[pos - 1] == SPACE,
        forall|k: int| 0 <= k < acc.len() ==> cut_ok(w, #[trigger] acc[k], pos - 1),
    ensures
        params_from(w, pos, acc) matches Some((ps, c)) ==> pos - 1 <= c && forall|k: int|
            0 <= k < ps.len() ==> cut_ok(w, #[trigger] ps[k], c),
    decreases w.len() - pos,
{
    if pos < w.len() {
        if w[pos] == SPACE {
            lemma_params_cuts(w, pos + 1, acc);
        } else if w[pos] == COLON {
            lemma_find_from(w, pos + 1, Stop::Line);
            if let Some(c) = find_from(w, pos + 1, Stop::Line) {
                let ps = acc.push(span(pos + 1, c));
                assert forall|k: int| 0 <= k < ps.len() implies cut_ok(w, #[trigger] ps[k], c) by {
                    if k < acc.len() {
                        assert(ps[k] == acc[k]);
                    }
                }
            }
        } else if w[pos] != CR {
            lemma_find_from(w, pos, Stop::Field);
            if let Some(e) = find_from(w, pos, Stop::Field) {
                let acc2 = acc.push(span(pos, e));
                assert forall|k: int| 0 <= k < acc2.len() implies cut_ok(w, #[trigger] acc2[k], e) by {
                    if k < acc.len() {
                        assert(acc2[k] == acc[k]);
                    }
                }
                if w[e] != CR {
                    lemma_params_cuts(w, e + 1, acc2);
                }
            }
        }
    }
}

/// The prefix spans are cut next to ASCII bytes, and the command starts at
/// the line's start or after a space.
proof fn lemma_head_cuts(w: Seq<u8>)
    requires
        w.len() <= SCAN_LIMIT,
    ensures
        head(w) matches Some((pre, cs)) ==> {
            &&& 0 <= cs <= w.len()
            &&& cs == 0 || w[cs - 1] == SPACE
            &&& opt_cut_ok(w, pre.prefix, cs - 1)
            &&& opt_cut_ok(w, pre.nick, cs - 1)
            &&& opt_cut_ok(w, pre.user, cs - 1)
            &&& opt_cut_ok(w, pre.host, cs - 1)
            &&& pre.params.len() == 0
        },
{
    if w.len() > 0 && w[0] == COLON {
        lemma_find_from(w, 1, Stop::Nick);
        if let Some(i) = find_from(w, 1, Stop::Nick) {
            if w[i] == BANG {
                lemma_find_from(w, i + 1, Stop::User);
                if let Some(j) = find_from(w, i + 1, Stop::User) {
                    if w[j] != SPACE {
                        lemma_find_from(w, j + 1, Stop::Host);
                    }
                }
            } else if w[i] != SPACE {
                lemma_find_from(w, i + 1, Stop::Host);
            }
        }
    }
}

/// Every span of a line is cut next to ASCII bytes.
pub proof fn lemma_line_cuts(w: Seq<u8>)
    requires
        w.len() <= SCAN_LIMIT,
    ensures
        line(w) matches Some((sp, c)) ==> all_cuts_ok(w, sp, c),
{
    lemma_head_cuts(w);
    lemma_line_end(w);
    if let Some((pre, cs)) = head(w) {
        lemma_find_from(w, cs, Stop::Field);
        if let Some(e) = find_from(w, cs, Stop::Field) {
            if w[e] != CR {
                lemma_params_cuts(w, e + 1, Seq::empty());
            }
        }
    }
}

/// Every field that `v` exposes is well-formed UTF-8.
pub open spec fn fields_utf8(v: MessageView) -> bool {
    &&& valid_utf8(v.command_bytes())
    &&& v.prefix_bytes() matches Some(x) ==> valid_utf8(x)
    &&& v.nick_bytes() matches Some(x) ==> valid_utf8(x)
    &&& v.user_bytes() matches Some(x) ==> valid_utf8(x)
    &&& v.host_bytes() matches Some(x) ==> valid_utf8(x)
    &&& forall|i: int| 0 <= i < v.param_bytes().len() ==> valid_utf8(#[trigger] v.param_bytes()[i])
}

/// A span cut next to ASCII bytes of a well-formed line covers well-formed UTF-8.
proof fn lemma_cut_field(w: Seq<u8>, raw: Seq<u8>, s: (u16, u16), c: int)
    requires
        cut_ok(w, s, c),
        raw == w.subrange(0, c),
        valid_utf8(raw),
    ensures
        valid_utf8(raw.subrange(s.0 as int, s.1 as int)),
{
    let b = s.0 as int;
    let e = s.1 as int;
    if b > 0 {
        assert(raw[b - 1] == w[b - 1]);
    }
    if e < c {
        assert(raw[e] == w[e]);
    }
    lemma_ascii_cut(raw, b, e);
}

/// Wherever the line of a parsed message is well-formed UTF-8, so is every
/// field that the message exposes: the scanner cuts only next to the ASCII
/// delimiters, never inside a character, so each field decodes exactly.
pub proof fn fields_are_utf8(buf: Seq<u8>, r: Result<Option<(ParsedMessage, usize)>, ParseError>)
    requires
        parse_outcome(buf, r),
        r matches Ok(Some((m, n))) && valid_utf8(m@.raw),
    ensures
        r matches Ok(Some((m, n))) && fields_utf8(m@),
{
    let m = r->Ok_0->Some_0.0;
    let w = window(buf);
    let (sp, c) = line(w)->Some_0;
    lemma_line_cuts(w);
    lemma_line_end(w);
    let raw = m@.raw;
    assert(raw =~= w.subrange(0, c));
    lemma_cut_field(w, raw, sp.command, c);
    if let Some(s) = sp.prefix {
        lemma_cut_field(w, raw, s, c);
    }
    if let Some(s) = sp.nick {
        lemma_cut_field(w, raw, s, c);
    }
    if let Some(s) = sp.user {
        lemma_cut_field(w, raw, s, c);
    }
    if let Some(s) = sp.host {
        lemma_cut_field(w, raw, s, c);
    }
    assert forall|i: int| 0 <= i < m@.param_bytes().len() implies valid_utf8(
        #[trigger] m@.param_bytes()[i],
    ) by {
        lemma_cut_field(w, raw, sp.params[i], c);
    }
}

} // verus!
