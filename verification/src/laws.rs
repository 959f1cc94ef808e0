//! Round-trip laws: parsing the exact rendered text of a well-formed
//! value built from primitives without special string characters yields
//! that value back. The scanner side relates the rendered bytes to the
//! value's token form; the parser side relates that token form back to
//! the value; the round-trip theorem joins the two.

use vstd::prelude::*;
use crate::json::SpecValue;
use crate::lexer::{
    all_ascii, chars_of, col_after, is_letter_byte, is_num_byte, is_single_byte,
    lemma_find_str_end_plain, lemma_letter_run_stops, lemma_num_run_stops,
    lemma_pos_after_bounds, line_after, single_token, spec_tokens, SpecToken, SpecTokenPos,
};
use crate::numtext::{is_number, lemma_digit_run_end};
use crate::parser::{lemma_decode_plain, sp_document, sp_elems, sp_key, sp_members, sp_value};
use crate::render::{render_elems, render_members, render_of};

verus! {

/// The raw text of a string literal token carrying `s`: the quotes are
/// put back around the characters.
pub open spec fn string_token_text(s: Seq<char>) -> Seq<char> {
    seq!['"'] + s + seq!['"']
}

/// The token form of a value: the tokens the parser consumes to build
/// exactly that value.
pub open spec fn value_tokens(v: SpecValue) -> Seq<SpecToken>
    decreases v, 1int,
{
    match v {
        SpecValue::Bool(b) => seq![
            if b {
                SpecToken::True
            } else {
                SpecToken::False
            },
        ],
        SpecValue::Num(s) => seq![SpecToken::NumLit(s)],
        SpecValue::Str(s) => seq![SpecToken::StrLit(string_token_text(s))],
        SpecValue::Arr(a) => {
            if a.len() == 0 {
                seq![SpecToken::OpenBracket, SpecToken::CloseBracket]
            } else {
                seq![SpecToken::OpenBracket] + elems_tokens(a, 0)
            }
        },
        SpecValue::Obj(es) => {
            if es.len() == 0 {
                seq![SpecToken::OpenBrace, SpecToken::CloseBrace]
            } else {
                seq![SpecToken::OpenBrace] + members_tokens(es, 0)
            }
        },
        SpecValue::Null => seq![SpecToken::Null],
    }
}

/// The token form of the array elements from position `idx` on, commas
/// between them and the closing bracket after the last.
pub open spec fn elems_tokens(a: Seq<SpecValue>, idx: int) -> Seq<SpecToken>
    decreases a, 2int, a.len() - idx when 0 <= idx < a.len()
{
    if idx == a.len() - 1 {
        value_tokens(a[idx]) + seq![SpecToken::CloseBracket]
    } else {
        value_tokens(a[idx]) + seq![SpecToken::Comma] + elems_tokens(a, idx + 1)
    }
}

/// The token form of the object members from position `idx` on: quoted
/// key, colon, value, commas between members and the closing brace after
/// the last.
pub open spec fn members_tokens(es: Seq<(Seq<char>, SpecValue)>, idx: int) -> Seq<SpecToken>
    decreases es, 2int, es.len() - idx when 0 <= idx < es.len()
{
    let head = seq![SpecToken::StrLit(string_token_text(es[idx].0)), SpecToken::Colon]
        + value_tokens(es[idx].1);
    if idx == es.len() - 1 {
        head + seq![SpecToken::CloseBrace]
    } else {
        head + seq![SpecToken::Comma] + members_tokens(es, idx + 1)
    }
}

/// No string in the value, key or text, carries a backslash, so escape
/// decoding leaves every string as it stands.
pub open spec fn no_escapes(v: SpecValue) -> bool
    decreases v,
{
    match v {
        SpecValue::Str(s) => forall|j: int| 0 <= j < s.len() ==> (#[trigger] s[j]) != '\\',
        SpecValue::Arr(a) => forall|i: int| 0 <= i < a.len() ==> no_escapes(#[trigger] a[i]),
        SpecValue::Obj(es) => forall|i: int|
            0 <= i < es.len() ==> no_escapes(#[trigger] es[i].1) && (forall|j: int|
                0 <= j < es[i].0.len() ==> (#[trigger] es[i].0[j]) != '\\'),
        _ => true,
    }
}

/// The kinds of a positioned token sequence.
pub open spec fn toks_of(ts: Seq<SpecTokenPos>) -> Seq<SpecToken> {
    ts.map_values(|tp: SpecTokenPos| tp.tok)
}

/// Plain text: ASCII characters with no quote and no backslash, which
/// render and scan back without change.
pub open spec fn plain_text(s: Seq<char>) -> bool {
    forall|j: int|
        0 <= j < s.len() ==> ((#[trigger] s[j] as u32) < 128 && s[j] != '"' && s[j] != '\\')
}

/// Every string and key in the value is plain text.
pub open spec fn render_ok(v: SpecValue) -> bool
    decreases v,
{
    match v {
        SpecValue::Str(s) => plain_text(s),
        SpecValue::Arr(a) => forall|i: int| 0 <= i < a.len() ==> render_ok(#[trigger] a[i]),
        SpecValue::Obj(es) => forall|i: int|
            0 <= i < es.len() ==> plain_text(#[trigger] es[i].0) && render_ok(es[i].1),
        _ => true,
    }
}

/// Scanning from `pos` yields the token kinds `ts` and continues at `end`
/// with some valid line and column.
pub open spec fn scan_to(
    bs: Seq<u8>,
    pos: int,
    line: int,
    col: int,
    end: int,
    ts: Seq<SpecToken>,
) -> bool {
    exists|l2: int, c2: int, ps: Seq<SpecTokenPos>|
        {
            &&& 1 <= l2
            &&& 1 <= c2
            &&& #[trigger] toks_of(ps) == ts
            &&& spec_tokens(bs, pos, line, col) == (match #[trigger] spec_tokens(
                bs,
                end,
                l2,
                c2,
            ) {
                Some(rest) => Some(ps + rest),
                None => None::<Seq<SpecTokenPos>>,
            })
        }
}

/// A single-byte token scans to itself.
proof fn lemma_scan_single(bs: Seq<u8>, pos: int, line: int, col: int)
    requires
        0 <= pos < bs.len(),
        is_single_byte(bs[pos]),
        1 <= line,
        1 <= col,
    ensures
        scan_to(bs, pos, line, col, pos + 1, seq![single_token(bs[pos])]),
{
    let tp = SpecTokenPos { tok: single_token(bs[pos]), line, col };
    assert(toks_of(seq![tp]) =~= seq![single_token(bs[pos])]);
    assert(spec_tokens(bs, pos, line, col) == (match spec_tokens(bs, pos + 1, line, col + 1) {
        Some(rest) => Some(seq![tp] + rest),
        None => None::<Seq<SpecTokenPos>>,
    }));
}

/// A space or a line feed scans to no token.
proof fn lemma_scan_ws(bs: Seq<u8>, pos: int, line: int, col: int)
    requires
        0 <= pos < bs.len(),
        bs[pos] == 32 || bs[pos] == 10,
        1 <= line,
        1 <= col,
    ensures
        scan_to(bs, pos, line, col, pos + 1, Seq::<SpecToken>::empty()),
{
    assert(toks_of(Seq::<SpecTokenPos>::empty()) =~= Seq::<SpecToken>::empty());
    if bs[pos] == 32 {
        assert(spec_tokens(bs, pos, line, col) == spec_tokens(bs, pos + 1, line, col + 1));
        assert forall|rest: Seq<SpecTokenPos>| true implies Seq::<SpecTokenPos>::empty() + rest
            =~= rest by {}
        match spec_tokens(bs, pos + 1, line, col + 1) {
            Some(rest) => {
                assert(Seq::<SpecTokenPos>::empty() + rest =~= rest);
            },
            None => {},
        }
        assert(spec_tokens(bs, pos, line, col) == (match spec_tokens(bs, pos + 1, line, col + 1) {
            Some(rest) => Some(Seq::<SpecTokenPos>::empty() + rest),
            None => None::<Seq<SpecTokenPos>>,
        }));
    } else {
        assert(spec_tokens(bs, pos, line, col) == spec_tokens(bs, pos + 1, line + 1, 1));
        match spec_tokens(bs, pos + 1, line + 1, 1) {
            Some(rest) => {
                assert(Seq::<SpecTokenPos>::empty() + rest =~= rest);
            },
            None => {},
        }
        assert(spec_tokens(bs, pos, line, col) == (match spec_tokens(bs, pos + 1, line + 1, 1) {
            Some(rest) => Some(Seq::<SpecTokenPos>::empty() + rest),
            None => None::<Seq<SpecTokenPos>>,
        }));
    }
}

/// Two scans in a row scan to the two token lists, one after the other.
proof fn lemma_scan_join(
    bs: Seq<u8>,
    pos: int,
    line: int,
    col: int,
    mid: int,
    ts1: Seq<SpecToken>,
    end: int,
    ts2: Seq<SpecToken>,
)
    requires
        scan_to(bs, pos, line, col, mid, ts1),
        forall|l: int, c: int| 1 <= l && 1 <= c ==> #[trigger] scan_to(bs, mid, l, c, end, ts2),
    ensures
        scan_to(bs, pos, line, col, end, ts1 + ts2),
{
    let (l2, c2, ps1): (int, int, Seq<SpecTokenPos>) = choose|l2: int, c2: int, ps1: Seq<
        SpecTokenPos,
    >|
        {
            &&& 1 <= l2
            &&& 1 <= c2
            &&& #[trigger] toks_of(ps1) == ts1
            &&& spec_tokens(bs, pos, line, col) == (match #[trigger] spec_tokens(
                bs,
                mid,
                l2,
                c2,
            ) {
                Some(rest) => Some(ps1 + rest),
                None => None::<Seq<SpecTokenPos>>,
            })
        };
    assert(scan_to(bs, mid, l2, c2, end, ts2));
    let (l3, c3, ps2): (int, int, Seq<SpecTokenPos>) = choose|l3: int, c3: int, ps2: Seq<
        SpecTokenPos,
    >|
        {
            &&& 1 <= l3
            &&& 1 <= c3
            &&& #[trigger] toks_of(ps2) == ts2
            &&& spec_tokens(bs, mid, l2, c2) == (match #[trigger] spec_tokens(bs, end, l3, c3) {
                Some(rest) => Some(ps2 + rest),
                None => None::<Seq<SpecTokenPos>>,
            })
        };
    assert(toks_of(ps1 + ps2) =~= ts1 + ts2);
    match spec_tokens(bs, end, l3, c3) {
        Some(rest) => {
            assert(ps1 + (ps2 + rest) =~= (ps1 + ps2) + rest);
            assert(spec_tokens(bs, pos, line, col) == Some((ps1 + ps2) + rest));
        },
        None => {},
    }
    assert(spec_tokens(bs, pos, line, col) == (match spec_tokens(bs, end, l3, c3) {
        Some(rest) => Some((ps1 + ps2) + rest),
        None => None::<Seq<SpecTokenPos>>,
    }));
}

/// A run of spaces scans to no token.
proof fn lemma_scan_spaces(bs: Seq<u8>, pos: int, line: int, col: int, end: int)
    requires
        0 <= pos <= end <= bs.len(),
        forall|j: int| pos <= j < end ==> (#[trigger] bs[j]) == 32,
        1 <= line,
        1 <= col,
    ensures
        scan_to(bs, pos, line, col, end, Seq::<SpecToken>::empty()),
    decreases end - pos,
{
    if pos == end {
        assert(toks_of(Seq::<SpecTokenPos>::empty()) =~= Seq::<SpecToken>::empty());
        match spec_tokens(bs, end, line, col) {
            Some(rest) => {
                assert(Seq::<SpecTokenPos>::empty() + rest =~= rest);
            },
            None => {},
        }
        assert(spec_tokens(bs, pos, line, col) == (match spec_tokens(bs, end, line, col) {
            Some(rest) => Some(Seq::<SpecTokenPos>::empty() + rest),
            None => None::<Seq<SpecTokenPos>>,
        }));
    } else {
        lemma_scan_ws(bs, pos, line, col);
        assert forall|l: int, c: int| 1 <= l && 1 <= c implies #[trigger] scan_to(
            bs,
            pos + 1,
            l,
            c,
            end,
            Seq::<SpecToken>::empty(),
        ) by {
            lemma_scan_spaces(bs, pos + 1, l, c, end);
        }
        lemma_scan_join(
            bs,
            pos,
            line,
            col,
            pos + 1,
            Seq::<SpecToken>::empty(),
            end,
            Seq::<SpecToken>::empty(),
        );
        assert(Seq::<SpecToken>::empty() + Seq::<SpecToken>::empty()
            =~= Seq::<SpecToken>::empty());
    }
}

/// The bytes of `s` stand in `bs` starting at `pos`.
pub open spec fn bytes_at(bs: Seq<u8>, pos: int, s: Seq<char>) -> bool {
    &&& 0 <= pos
    &&& pos + s.len() <= bs.len()
    &&& forall|k: int| 0 <= k < s.len() ==> (#[trigger] bs[pos + k]) == ascii_bytes(s)[k]
}

/// Splitting a run of bytes at a text boundary.
proof fn lemma_bytes_at_split(bs: Seq<u8>, pos: int, x: Seq<char>, y: Seq<char>)
    requires
        bytes_at(bs, pos, x + y),
    ensures
        bytes_at(bs, pos, x),
        bytes_at(bs, pos + x.len(), y),
{
    assert forall|k: int| 0 <= k < x.len() implies (#[trigger] bs[pos + k]) == ascii_bytes(
        x,
    )[k] by {
        assert(bs[pos + k] == ascii_bytes(x + y)[k]);
        assert((x + y)[k] == x[k]);
    }
    assert forall|k: int| 0 <= k < y.len() implies (#[trigger] bs[pos + x.len() + k])
        == ascii_bytes(y)[k] by {
        assert(bs[pos + (x.len() + k)] == ascii_bytes(x + y)[x.len() + k]);
        assert((x + y)[x.len() + k] == y[k]);
    }
}

/// The first byte of a text standing in the buffer.
proof fn lemma_bytes_at_first(bs: Seq<u8>, pos: int, s: Seq<char>)
    requires
        bytes_at(bs, pos, s),
        s.len() > 0,
    ensures
        bs[pos] == (s[0] as u32) as u8,
        pos < bs.len(),
{
    assert(bs[pos + 0] == ascii_bytes(s)[0]);
}

/// A number text in the middle of a buffer scans to its numeric token,
/// provided the byte after it is a comma, a line feed, or the end.
proof fn lemma_scan_num(bs: Seq<u8>, pos: int, line: int, col: int, s: Seq<char>)
    requires
        is_number(s),
        0 <= pos,
        pos + s.len() <= bs.len(),
        forall|k: int| 0 <= k < s.len() ==> (#[trigger] bs[pos + k]) == ascii_bytes(s)[k],
        pos + s.len() == bs.len() || bs[pos + s.len()] == 44 || bs[pos + s.len()] == 10,
        1 <= line,
        1 <= col,
    ensures
        scan_to(bs, pos, line, col, pos + s.len(), seq![SpecToken::NumLit(s)]),
{
    lemma_number_chars(s);
    lemma_ascii_chars(s);
    let e = pos + s.len();
    assert forall|j: int| pos <= j < e implies is_num_byte(#[trigger] bs[j]) by {
        assert(bs[pos + (j - pos)] == ascii_bytes(s)[j - pos]);
        assert(ascii_bytes(s)[j - pos] == (s[j - pos] as u32) as u8);
    }
    lemma_num_run_stops(bs, pos, e);
    assert(bs[pos + 0] == ascii_bytes(s)[0]);
    assert(bs[pos] == (s[0] as u32) as u8);
    assert forall|k: int| 0 <= k < s.len() implies bs.subrange(pos, e)[k] == (
    #[trigger] ascii_bytes(s)[k]) by {
        assert(bs.subrange(pos, e)[k] == bs[pos + k]);
    }
    assert(bs.subrange(pos, e) =~= ascii_bytes(s));
    let tp = SpecTokenPos { tok: SpecToken::NumLit(s), line, col };
    assert(toks_of(seq![tp]) =~= seq![SpecToken::NumLit(s)]);
    assert(spec_tokens(bs, pos, line, col) == (match spec_tokens(bs, e, line, col + (e - pos)) {
        Some(rest) => Some(seq![tp] + rest),
        None => None::<Seq<SpecTokenPos>>,
    }));
}

/// A keyword in the middle of a buffer scans to its token, provided the
/// byte after it is a comma, a line feed, or the end.
proof fn lemma_scan_keyword(bs: Seq<u8>, pos: int, line: int, col: int, v: SpecValue)
    requires
        v is Bool || v is Null,
        0 <= pos,
        ({
            let s = render_of(v, Seq::empty());
            &&& pos + s.len() <= bs.len()
            &&& (forall|k: int| 0 <= k < s.len() ==> (#[trigger] bs[pos + k]) == ascii_bytes(s)[k])
            &&& (pos + s.len() == bs.len() || bs[pos + s.len()] == 44 || bs[pos + s.len()] == 10)
        }),
        1 <= line,
        1 <= col,
    ensures
        scan_to(
            bs,
            pos,
            line,
            col,
            pos + render_of(v, Seq::empty()).len(),
            value_tokens(v),
        ),
{
    reveal_strlit("true");
    reveal_strlit("false");
    reveal_strlit("null");
    let s = render_of(v, Seq::empty());
    lemma_ascii_chars(s);
    let e = pos + s.len();
    assert forall|j: int| pos <= j < e implies is_letter_byte(#[trigger] bs[j]) by {
        assert(bs[pos + (j - pos)] == ascii_bytes(s)[j - pos]);
        assert(ascii_bytes(s)[j - pos] == (s[j - pos] as u32) as u8);
    }
    lemma_letter_run_stops(bs, pos, e);
    assert(bs[pos + 0] == ascii_bytes(s)[0]);
    assert(bs[pos] == (s[0] as u32) as u8);
    assert forall|k: int| 0 <= k < s.len() implies bs.subrange(pos, e)[k] == ((
    #[trigger] s[k] as u32) as u8) by {
        assert(bs.subrange(pos, e)[k] == bs[pos + k]);
        assert(bs[pos + k] == ascii_bytes(s)[k]);
    }
    let tok: SpecToken = match v {
        SpecValue::Bool(b) => {
            if b {
                assert(s.len() == 4 && s[0] == 't' && s[1] == 'r' && s[2] == 'u' && s[3] == 'e');
                assert(bs.subrange(pos, e)[0] == 116 && bs.subrange(pos, e)[1] == 114
                    && bs.subrange(pos, e)[2] == 117 && bs.subrange(pos, e)[3] == 101);
                assert(bs.subrange(pos, e) =~= seq![116u8, 114u8, 117u8, 101u8]);
                SpecToken::True
            } else {
                assert(s.len() == 5 && s[0] == 'f' && s[1] == 'a' && s[2] == 'l' && s[3] == 's'
                    && s[4] == 'e');
                assert(bs.subrange(pos, e)[0] == 102 && bs.subrange(pos, e)[1] == 97
                    && bs.subrange(pos, e)[2] == 108 && bs.subrange(pos, e)[3] == 115
                    && bs.subrange(pos, e)[4] == 101);
                assert(bs.subrange(pos, e) =~= seq![102u8, 97u8, 108u8, 115u8, 101u8]);
                assert(!(bs.subrange(pos, e) =~= seq![116u8, 114u8, 117u8, 101u8]));
                SpecToken::False
            }
        },
        _ => {
            assert(s.len() == 4 && s[0] == 'n' && s[1] == 'u' && s[2] == 'l' && s[3] == 'l');
            assert(bs.subrange(pos, e)[0] == 110 && bs.subrange(pos, e)[1] == 117
                && bs.subrange(pos, e)[2] == 108 && bs.subrange(pos, e)[3] == 108);
            assert(bs.subrange(pos, e) =~= seq![110u8, 117u8, 108u8, 108u8]);
            SpecToken::Null
        },
    };
    let tp = SpecTokenPos { tok, line, col };
    assert(toks_of(seq![tp]) =~= value_tokens(v));
    assert(spec_tokens(bs, pos, line, col) == (match spec_tokens(bs, e, line, col + (e - pos)) {
        Some(rest) => Some(seq![tp] + rest),
        None => None::<Seq<SpecTokenPos>>,
    }));
}

/// A quoted plain string in the middle of a buffer scans to its string
/// literal token, whatever follows it.
proof fn lemma_scan_str(bs: Seq<u8>, pos: int, line: int, col: int, s: Seq<char>)
    requires
        plain_text(s),
        0 <= pos,
        pos + s.len() + 2 <= bs.len(),
        forall|k: int|
            0 <= k < s.len() + 2 ==> (#[trigger] bs[pos + k]) == ascii_bytes(
                string_token_text(s),
            )[k],
        1 <= line,
        1 <= col,
    ensures
        scan_to(
            bs,
            pos,
            line,
            col,
            pos + s.len() + 2,
            seq![SpecToken::StrLit(string_token_text(s))],
        ),
{
    let r = string_token_text(s);
    assert forall|j: int| 0 <= j < r.len() implies (#[trigger] r[j] as u32) < 128 by {
        if 1 <= j < r.len() - 1 {
            assert(r[j] == s[j - 1]);
        }
    }
    lemma_ascii_chars(r);
    let e = pos + s.len() + 1;
    assert(bs[pos + 0] == ascii_bytes(r)[0]);
    assert(bs[pos] == 34);
    assert forall|j: int| pos + 1 <= j < e implies (#[trigger] bs[j]) != 34 && bs[j] != 92 by {
        assert(bs[pos + (j - pos)] == ascii_bytes(r)[j - pos]);
        assert(ascii_bytes(r)[j - pos] == (r[j - pos] as u32) as u8);
        assert(r[j - pos] == s[j - pos - 1]);
    }
    assert(bs[pos + (s.len() + 1) as int] == ascii_bytes(r)[(s.len() + 1) as int]);
    assert(bs[e] == 34);
    lemma_find_str_end_plain(bs, pos + 1, e);
    assert forall|k: int| 0 <= k < r.len() implies bs.subrange(pos, e + 1)[k] == (
    #[trigger] ascii_bytes(r)[k]) by {
        assert(bs.subrange(pos, e + 1)[k] == bs[pos + k]);
    }
    assert(bs.subrange(pos, e + 1) =~= ascii_bytes(r));
    assert(all_ascii(bs.subrange(pos, e + 1)));
    let tp = SpecTokenPos { tok: SpecToken::StrLit(r), line, col };
    assert(toks_of(seq![tp]) =~= seq![SpecToken::StrLit(r)]);
    lemma_pos_after_bounds(bs, pos, e + 1, line, col);
    assert(spec_tokens(bs, pos, line, col) == (match spec_tokens(
        bs,
        e + 1,
        line_after(bs, pos, e + 1, line),
        col_after(bs, pos, e + 1, col),
    ) {
        Some(rest) => Some(seq![tp] + rest),
        None => None::<Seq<SpecTokenPos>>,
    }));
}

/// The witnesses behind a `scan_to` fact.
proof fn scan_choose(
    bs: Seq<u8>,
    pos: int,
    line: int,
    col: int,
    end: int,
    ts: Seq<SpecToken>,
) -> (r: (int, int, Seq<SpecTokenPos>))
    requires
        scan_to(bs, pos, line, col, end, ts),
    ensures
        1 <= r.0,
        1 <= r.1,
        toks_of(r.2) == ts,
        spec_tokens(bs, pos, line, col) == (match spec_tokens(bs, end, r.0, r.1) {
            Some(rest) => Some(r.2 + rest),
            None => None::<Seq<SpecTokenPos>>,
        }),
{
    let (l2, c2, ps): (int, int, Seq<SpecTokenPos>) = choose|l2: int, c2: int, ps: Seq<
        SpecTokenPos,
    >|
        {
            &&& 1 <= l2
            &&& 1 <= c2
            &&& #[trigger] toks_of(ps) == ts
            &&& spec_tokens(bs, pos, line, col) == (match #[trigger] spec_tokens(
                bs,
                end,
                l2,
                c2,
            ) {
                Some(rest) => Some(ps + rest),
                None => None::<Seq<SpecTokenPos>>,
            })
        };
    (l2, c2, ps)
}

/// Extending a telescoped scan by one more leg.
proof fn lemma_scan_extend(
    bs: Seq<u8>,
    p0: int,
    line: int,
    col: int,
    pi: int,
    li: int,
    ci: int,
    q_acc: Seq<SpecTokenPos>,
    pj: int,
    lj: int,
    cj: int,
    q: Seq<SpecTokenPos>,
)
    requires
        spec_tokens(bs, p0, line, col) == (match spec_tokens(bs, pi, li, ci) {
            Some(rest) => Some(q_acc + rest),
            None => None::<Seq<SpecTokenPos>>,
        }),
        spec_tokens(bs, pi, li, ci) == (match spec_tokens(bs, pj, lj, cj) {
            Some(rest) => Some(q + rest),
            None => None::<Seq<SpecTokenPos>>,
        }),
    ensures
        spec_tokens(bs, p0, line, col) == (match spec_tokens(bs, pj, lj, cj) {
            Some(rest) => Some((q_acc + q) + rest),
            None => None::<Seq<SpecTokenPos>>,
        }),
{
    match spec_tokens(bs, pj, lj, cj) {
        Some(rest) => {
            assert(q_acc + (q + rest) =~= (q_acc + q) + rest);
        },
        None => {},
    }
}

proof fn lemma_toks_of_concat(x: Seq<SpecTokenPos>, y: Seq<SpecTokenPos>)
    ensures
        toks_of(x + y) == toks_of(x) + toks_of(y),
{
    assert(toks_of(x + y) =~= toks_of(x) + toks_of(y));
}

/// The rendered text of a value, in the middle of a buffer and followed
/// by a comma, a line feed, or the end of the buffer, scans to the
/// value's token form.
#[verifier::rlimit(100)]
#[verifier::spinoff_prover]
proof fn lemma_scan_value(
    bs: Seq<u8>,
    pos: int,
    line: int,
    col: int,
    v: SpecValue,
    ind: Seq<char>,
)
    requires
        crate::json::spec_wf(v),
        render_ok(v),
        forall|j: int| 0 <= j < ind.len() ==> (#[trigger] ind[j]) == ' ',
        1 <= line,
        1 <= col,
        bytes_at(bs, pos, render_of(v, ind)),
        ({
            let end = pos + render_of(v, ind).len();
            end == bs.len() || bs[end] == 44 || bs[end] == 10
        }),
    ensures
        scan_to(bs, pos, line, col, pos + render_of(v, ind).len(), value_tokens(v)),
    decreases v, 1int,
{
    let rt = render_of(v, ind);
    match v {
        SpecValue::Bool(b) => {
            lemma_scan_keyword(bs, pos, line, col, v);
        },
        SpecValue::Null => {
            lemma_scan_keyword(bs, pos, line, col, v);
        },
        SpecValue::Num(s) => {
            lemma_scan_num(bs, pos, line, col, s);
        },
        SpecValue::Str(s) => {
            lemma_scan_str(bs, pos, line, col, s);
        },
        SpecValue::Arr(a) => {
            reveal_strlit("[\n");
            reveal_strlit("    ");
            let child = ind + "    "@;
            assert("[\n"@.len() == 2 && "[\n"@[0] == '[' && "[\n"@[1] == '\n');
            assert forall|j: int| 0 <= j < child.len() implies (#[trigger] child[j]) == ' ' by {
                if j < ind.len() {
                } else {
                    assert(child[j] == "    "@[j - ind.len()]);
                }
            }
            let tail = render_elems(a, 0, child) + ind + seq![']'];
            assert(rt =~= "[\n"@ + tail);
            lemma_bytes_at_split(bs, pos, "[\n"@, tail);
            assert(bs[pos + 0] == ascii_bytes("[\n"@)[0]);
            assert(bs[pos + 1] == ascii_bytes("[\n"@)[1]);
            assert(bs[pos] == 91 && bs[pos + 1] == 10);
            lemma_scan_single(bs, pos, line, col);
            let (l1, c1, q1) = scan_choose(
                bs,
                pos,
                line,
                col,
                pos + 1,
                seq![SpecToken::OpenBracket],
            );
            lemma_scan_ws(bs, pos + 1, l1, c1);
            let (l2, c2, q2) = scan_choose(
                bs,
                pos + 1,
                l1,
                c1,
                pos + 2,
                Seq::<SpecToken>::empty(),
            );
            lemma_scan_extend(bs, pos, line, col, pos + 1, l1, c1, q1, pos + 2, l2, c2, q2);
            if a.len() == 0 {
                // spaces of the indent, then the closing bracket
                assert(tail =~= ind + seq![']']);
                lemma_bytes_at_split(bs, pos + 2, ind, seq![']']);
                assert forall|j: int| pos + 2 <= j < pos + 2 + ind.len() implies (
                #[trigger] bs[j]) == 32 by {
                    assert(bs[(pos + 2) + (j - pos - 2)] == ascii_bytes(ind)[j - pos - 2]);
                }
                lemma_scan_spaces(bs, pos + 2, l2, c2, pos + 2 + ind.len());
                let (l3, c3, q3) = scan_choose(
                    bs,
                    pos + 2,
                    l2,
                    c2,
                    pos + 2 + ind.len(),
                    Seq::<SpecToken>::empty(),
                );
                lemma_scan_extend(
                    bs,
                    pos,
                    line,
                    col,
                    pos + 2,
                    l2,
                    c2,
                    q1 + q2,
                    pos + 2 + ind.len(),
                    l3,
                    c3,
                    q3,
                );
                let pb = pos + 2 + ind.len();
                assert(bs[pb + 0] == ascii_bytes(seq![']'])[0]);
                assert(bs[pb] == 93);
                lemma_scan_single(bs, pb, l3, c3);
                let (l4, c4, q4) = scan_choose(
                    bs,
                    pb,
                    l3,
                    c3,
                    pb + 1,
                    seq![SpecToken::CloseBracket],
                );
                lemma_scan_extend(
                    bs,
                    pos,
                    line,
                    col,
                    pb,
                    l3,
                    c3,
                    (q1 + q2) + q3,
                    pb + 1,
                    l4,
                    c4,
                    q4,
                );
                let total = ((q1 + q2) + q3) + q4;
                assert(toks_of(total) =~= value_tokens(v)) by {
                    lemma_toks_of_concat((q1 + q2) + q3, q4);
                    lemma_toks_of_concat(q1 + q2, q3);
                    lemma_toks_of_concat(q1, q2);
                }
                assert(pb + 1 == pos + rt.len());
                assert(scan_to(bs, pos, line, col, pos + rt.len(), value_tokens(v)));
            } else {
                lemma_scan_elems(bs, pos + 2, l2, c2, a, 0, ind, child);
                let seg_len = render_elems(a, 0, child).len() + ind.len() + 1;
                let (l3, c3, q3) = scan_choose(
                    bs,
                    pos + 2,
                    l2,
                    c2,
                    pos + 2 + seg_len,
                    elems_tokens(a, 0),
                );
                lemma_scan_extend(
                    bs,
                    pos,
                    line,
                    col,
                    pos + 2,
                    l2,
                    c2,
                    q1 + q2,
                    pos + 2 + seg_len,
                    l3,
                    c3,
                    q3,
                );
                let total = (q1 + q2) + q3;
                assert(toks_of(total) =~= seq![SpecToken::OpenBracket] + elems_tokens(a, 0)) by {
                    lemma_toks_of_concat(q1 + q2, q3);
                    lemma_toks_of_concat(q1, q2);
                    assert(toks_of(q1) + toks_of(q2) =~= seq![SpecToken::OpenBracket]);
                }
                assert(pos + 2 + seg_len == pos + rt.len());
                assert(scan_to(bs, pos, line, col, pos + rt.len(), value_tokens(v)));
            }
        },
        SpecValue::Obj(es) => {
            reveal_strlit("{\n");
            reveal_strlit("    ");
            let child = ind + "    "@;
            assert("{\n"@.len() == 2 && "{\n"@[0] == '{' && "{\n"@[1] == '\n');
            assert forall|j: int| 0 <= j < child.len() implies (#[trigger] child[j]) == ' ' by {
                if j < ind.len() {
                } else {
                    assert(child[j] == "    "@[j - ind.len()]);
                }
            }
            let tail = render_members(es, 0, child) + ind + seq!['}'];
            assert(rt =~= "{\n"@ + tail);
            lemma_bytes_at_split(bs, pos, "{\n"@, tail);
            assert(bs[pos + 0] == ascii_bytes("{\n"@)[0]);
            assert(bs[pos + 1] == ascii_bytes("{\n"@)[1]);
            assert(bs[pos] == 123 && bs[pos + 1] == 10);
            lemma_scan_single(bs, pos, line, col);
            let (l1, c1, q1) = scan_choose(
                bs,
                pos,
                line,
                col,
                pos + 1,
                seq![SpecToken::OpenBrace],
            );
            lemma_scan_ws(bs, pos + 1, l1, c1);
            let (l2, c2, q2) = scan_choose(
                bs,
                pos + 1,
                l1,
                c1,
                pos + 2,
                Seq::<SpecToken>::empty(),
            );
            lemma_scan_extend(bs, pos, line, col, pos + 1, l1, c1, q1, pos + 2, l2, c2, q2);
            if es.len() == 0 {
                assert(tail =~= ind + seq!['}']);
                lemma_bytes_at_split(bs, pos + 2, ind, seq!['}']);
                assert forall|j: int| pos + 2 <= j < pos + 2 + ind.len() implies (
                #[trigger] bs[j]) == 32 by {
                    assert(bs[(pos + 2) + (j - pos - 2)] == ascii_bytes(ind)[j - pos - 2]);
                }
                lemma_scan_spaces(bs, pos + 2, l2, c2, pos + 2 + ind.len());
                let (l3, c3, q3) = scan_choose(
                    bs,
                    pos + 2,
                    l2,
                    c2,
                    pos + 2 + ind.len(),
                    Seq::<SpecToken>::empty(),
                );
                lemma_scan_extend(
                    bs,
                    pos,
                    line,
                    col,
                    pos + 2,
                    l2,
                    c2,
                    q1 + q2,
                    pos + 2 + ind.len(),
                    l3,
                    c3,
                    q3,
                );
                let pb = pos + 2 + ind.len();
                assert(bs[pb + 0] == ascii_bytes(seq!['}'])[0]);
                assert(bs[pb] == 125);
                lemma_scan_single(bs, pb, l3, c3);
                let (l4, c4, q4) = scan_choose(
                    bs,
                    pb,
                    l3,
                    c3,
                    pb + 1,
                    seq![SpecToken::CloseBrace],
                );
                lemma_scan_extend(
                    bs,
                    pos,
                    line,
                    col,
                    pb,
                    l3,
                    c3,
                    (q1 + q2) + q3,
                    pb + 1,
                    l4,
                    c4,
                    q4,
                );
                let total = ((q1 + q2) + q3) + q4;
                assert(toks_of(total) =~= value_tokens(v)) by {
                    lemma_toks_of_concat((q1 + q2) + q3, q4);
                    lemma_toks_of_concat(q1 + q2, q3);
                    lemma_toks_of_concat(q1, q2);
                }
                assert(pb + 1 == pos + rt.len());
                assert(scan_to(bs, pos, line, col, pos + rt.len(), value_tokens(v)));
            } else {
                lemma_scan_members(bs, pos + 2, l2, c2, es, 0, ind, child);
                let seg_len = render_members(es, 0, child).len() + ind.len() + 1;
                let (l3, c3, q3) = scan_choose(
                    bs,
                    pos + 2,
                    l2,
                    c2,
                    pos + 2 + seg_len,
                    members_tokens(es, 0),
                );
                lemma_scan_extend(
                    bs,
                    pos,
                    line,
                    col,
                    pos + 2,
                    l2,
                    c2,
                    q1 + q2,
                    pos + 2 + seg_len,
                    l3,
                    c3,
                    q3,
                );
                let total = (q1 + q2) + q3;
                assert(toks_of(total) =~= seq![SpecToken::OpenBrace] + members_tokens(es, 0)) by {
                    lemma_toks_of_concat(q1 + q2, q3);
                    lemma_toks_of_concat(q1, q2);
                    assert(toks_of(q1) + toks_of(q2) =~= seq![SpecToken::OpenBrace]);
                }
                assert(pos + 2 + seg_len == pos + rt.len());
                assert(scan_to(bs, pos, line, col, pos + rt.len(), value_tokens(v)));
            }
        },
    }
}

/// The rendered element lines of a non-empty array, followed by the
/// closing bracket line, scan to the elements' token form.
#[verifier::rlimit(100)]
#[verifier::spinoff_prover]
proof fn lemma_scan_elems(
    bs: Seq<u8>,
    pos: int,
    line: int,
    col: int,
    a: Seq<SpecValue>,
    idx: int,
    parent: Seq<char>,
    child: Seq<char>,
)
    requires
        0 <= idx < a.len(),
        forall|k: int|
            0 <= k < a.len() ==> crate::json::spec_wf(#[trigger] a[k]) && render_ok(a[k]),
        forall|j: int| 0 <= j < parent.len() ==> (#[trigger] parent[j]) == ' ',
        forall|j: int| 0 <= j < child.len() ==> (#[trigger] child[j]) == ' ',
        1 <= line,
        1 <= col,
        bytes_at(bs, pos, render_elems(a, idx, child) + parent + seq![']']),
    ensures
        scan_to(
            bs,
            pos,
            line,
            col,
            pos + render_elems(a, idx, child).len() + parent.len() + 1,
            elems_tokens(a, idx),
        ),
    decreases a, 2int, a.len() - idx,
{
    let seg = render_elems(a, idx, child) + parent + seq![']'];
    let rv = render_of(a[idx], child);
    let comma: Seq<char> = if idx < a.len() - 1 {
        seq![',']
    } else {
        Seq::<char>::empty()
    };
    let rest_text = render_elems(a, idx + 1, child);
    assert(render_elems(a, idx, child) == child + rv + comma + seq!['\n'] + rest_text);
    let tail1 = rv + comma + seq!['\n'] + rest_text + parent + seq![']'];
    assert(seg =~= child + tail1);
    lemma_bytes_at_split(bs, pos, child, tail1);
    let p1 = pos + child.len();
    let tail2 = comma + seq!['\n'] + rest_text + parent + seq![']'];
    assert(tail1 =~= rv + tail2);
    lemma_bytes_at_split(bs, p1, rv, tail2);
    let p2 = p1 + rv.len();
    // the indent scans to nothing
    assert forall|j: int| pos <= j < p1 implies (#[trigger] bs[j]) == 32 by {
        assert(bs[pos + (j - pos)] == ascii_bytes(child)[j - pos]);
    }
    lemma_scan_spaces(bs, pos, line, col, p1);
    let (l1, c1, q1) = scan_choose(bs, pos, line, col, p1, Seq::<SpecToken>::empty());
    // the element scans to its token form; a comma or line feed follows
    assert(tail2.len() > 0);
    lemma_bytes_at_first(bs, p2, tail2);
    if idx < a.len() - 1 {
        assert(tail2[0] == ',');
        assert(bs[p2] == 44);
    } else {
        assert(tail2[0] == '\n');
        assert(bs[p2] == 10);
    }
    lemma_scan_value(bs, p1, l1, c1, a[idx], child);
    let (l2, c2, q2) = scan_choose(bs, p1, l1, c1, p2, value_tokens(a[idx]));
    lemma_scan_extend(bs, pos, line, col, p1, l1, c1, q1, p2, l2, c2, q2);
    if idx < a.len() - 1 {
        // comma token, line feed, then the rest of the elements
        lemma_bytes_at_split(bs, p2, comma, seq!['\n'] + rest_text + parent + seq![']']);
        lemma_scan_single(bs, p2, l2, c2);
        let (l3, c3, q3) = scan_choose(bs, p2, l2, c2, p2 + 1, seq![SpecToken::Comma]);
        lemma_scan_extend(bs, pos, line, col, p2, l2, c2, q1 + q2, p2 + 1, l3, c3, q3);
        let p3 = p2 + 1;
        lemma_bytes_at_split(bs, p3, seq!['\n'], rest_text + parent + seq![']']);
        assert(bs[p3 + 0] == ascii_bytes(seq!['\n'])[0]);
        assert(bs[p3] == 10);
        lemma_scan_ws(bs, p3, l3, c3);
        let (l4, c4, q4) = scan_choose(bs, p3, l3, c3, p3 + 1, Seq::<SpecToken>::empty());
        lemma_scan_extend(bs, pos, line, col, p3, l3, c3, (q1 + q2) + q3, p3 + 1, l4, c4, q4);
        let p4 = p3 + 1;
        assert(bytes_at(bs, p4, rest_text + parent + seq![']']));
        lemma_scan_elems(bs, p4, l4, c4, a, idx + 1, parent, child);
        let end = p4 + rest_text.len() + parent.len() + 1;
        let (l5, c5, q5) = scan_choose(bs, p4, l4, c4, end, elems_tokens(a, idx + 1));
        lemma_scan_extend(
            bs,
            pos,
            line,
            col,
            p4,
            l4,
            c4,
            ((q1 + q2) + q3) + q4,
            end,
            l5,
            c5,
            q5,
        );
        let total = (((q1 + q2) + q3) + q4) + q5;
        assert(toks_of(total) =~= elems_tokens(a, idx)) by {
            lemma_toks_of_concat(((q1 + q2) + q3) + q4, q5);
            lemma_toks_of_concat((q1 + q2) + q3, q4);
            lemma_toks_of_concat(q1 + q2, q3);
            lemma_toks_of_concat(q1, q2);
        }
        assert(end == pos + render_elems(a, idx, child).len() + parent.len() + 1);
        assert(scan_to(bs, pos, line, col, end, elems_tokens(a, idx)));
    } else {
        // line feed, closing indent, then the bracket
        assert(comma =~= Seq::<char>::empty());
        assert(tail2 =~= seq!['\n'] + rest_text + parent + seq![']']);
        assert(rest_text =~= Seq::<char>::empty());
        assert(tail2 =~= seq!['\n'] + (parent + seq![']']));
        lemma_bytes_at_split(bs, p2, seq!['\n'], parent + seq![']']);
        lemma_scan_ws(bs, p2, l2, c2);
        let (l3, c3, q3) = scan_choose(bs, p2, l2, c2, p2 + 1, Seq::<SpecToken>::empty());
        lemma_scan_extend(bs, pos, line, col, p2, l2, c2, q1 + q2, p2 + 1, l3, c3, q3);
        let p3 = p2 + 1;
        lemma_bytes_at_split(bs, p3, parent, seq![']']);
        assert forall|j: int| p3 <= j < p3 + parent.len() implies (#[trigger] bs[j]) == 32 by {
            assert(bs[p3 + (j - p3)] == ascii_bytes(parent)[j - p3]);
        }
        lemma_scan_spaces(bs, p3, l3, c3, p3 + parent.len());
        let (l4, c4, q4) = scan_choose(
            bs,
            p3,
            l3,
            c3,
            p3 + parent.len(),
            Seq::<SpecToken>::empty(),
        );
        lemma_scan_extend(
            bs,
            pos,
            line,
            col,
            p3,
            l3,
            c3,
            (q1 + q2) + q3,
            p3 + parent.len(),
            l4,
            c4,
            q4,
        );
        let p4 = p3 + parent.len();
        assert(bs[p4 + 0] == ascii_bytes(seq![']'])[0]);
        assert(bs[p4] == 93);
        lemma_scan_single(bs, p4, l4, c4);
        let (l5, c5, q5) = scan_choose(bs, p4, l4, c4, p4 + 1, seq![SpecToken::CloseBracket]);
        lemma_scan_extend(
            bs,
            pos,
            line,
            col,
            p4,
            l4,
            c4,
            ((q1 + q2) + q3) + q4,
            p4 + 1,
            l5,
            c5,
            q5,
        );
        let total = (((q1 + q2) + q3) + q4) + q5;
        assert(toks_of(total) =~= elems_tokens(a, idx)) by {
            lemma_toks_of_concat(((q1 + q2) + q3) + q4, q5);
            lemma_toks_of_concat((q1 + q2) + q3, q4);
            lemma_toks_of_concat(q1 + q2, q3);
            lemma_toks_of_concat(q1, q2);
        }
        assert(p4 + 1 == pos + render_elems(a, idx, child).len() + parent.len() + 1);
        assert(scan_to(
            bs,
            pos,
            line,
            col,
            pos + render_elems(a, idx, child).len() + parent.len() + 1,
            elems_tokens(a, idx),
        ));
    }
}

/// The rendered member lines of a non-empty object, followed by the
/// closing brace line, scan to the members' token form.
#[verifier::rlimit(100)]
#[verifier::spinoff_prover]
proof fn lemma_scan_members(
    bs: Seq<u8>,
    pos: int,
    line: int,
    col: int,
    es: Seq<(Seq<char>, SpecValue)>,
    idx: int,
    parent: Seq<char>,
    child: Seq<char>,
)
    requires
        0 <= idx < es.len(),
        forall|k: int|
            0 <= k < es.len() ==> crate::json::spec_wf(#[trigger] es[k].1) && render_ok(es[k].1)
                && plain_text(es[k].0),
        forall|j: int| 0 <= j < parent.len() ==> (#[trigger] parent[j]) == ' ',
        forall|j: int| 0 <= j < child.len() ==> (#[trigger] child[j]) == ' ',
        1 <= line,
        1 <= col,
        bytes_at(bs, pos, render_members(es, idx, child) + parent + seq!['}']),
    ensures
        scan_to(
            bs,
            pos,
            line,
            col,
            pos + render_members(es, idx, child).len() + parent.len() + 1,
            members_tokens(es, idx),
        ),
    decreases es, 2int, es.len() - idx,
{
    reveal_strlit("\": ");
    let seg = render_members(es, idx, child) + parent + seq!['}'];
    let key = es[idx].0;
    let rv = render_of(es[idx].1, child);
    let comma: Seq<char> = if idx < es.len() - 1 {
        seq![',']
    } else {
        Seq::<char>::empty()
    };
    let rest_text = render_members(es, idx + 1, child);
    assert(render_members(es, idx, child) == child + seq!['"'] + key + "\": "@ + rv + comma
        + seq!['\n'] + rest_text);
    assert("\": "@.len() == 3 && "\": "@[0] == '"' && "\": "@[1] == ':' && "\": "@[2] == ' ');
    let ktext = string_token_text(key);
    let tail1 = ktext + seq![':'] + seq![' '] + rv + comma + seq!['\n'] + rest_text + parent
        + seq!['}'];
    assert(seg =~= child + tail1);
    lemma_bytes_at_split(bs, pos, child, tail1);
    let p1 = pos + child.len();
    let tail2 = seq![':'] + seq![' '] + rv + comma + seq!['\n'] + rest_text + parent + seq!['}'];
    assert(tail1 =~= ktext + tail2);
    lemma_bytes_at_split(bs, p1, ktext, tail2);
    let p2 = p1 + ktext.len();
    let tail3 = seq![' '] + rv + comma + seq!['\n'] + rest_text + parent + seq!['}'];
    assert(tail2 =~= seq![':'] + tail3);
    lemma_bytes_at_split(bs, p2, seq![':'], tail3);
    let p3 = p2 + 1;
    let tail4 = rv + comma + seq!['\n'] + rest_text + parent + seq!['}'];
    assert(tail3 =~= seq![' '] + tail4);
    lemma_bytes_at_split(bs, p3, seq![' '], tail4);
    let p4 = p3 + 1;
    let tail5 = comma + seq!['\n'] + rest_text + parent + seq!['}'];
    assert(tail4 =~= rv + tail5);
    lemma_bytes_at_split(bs, p4, rv, tail5);
    let p5 = p4 + rv.len();
    // indent
    assert forall|j: int| pos <= j < p1 implies (#[trigger] bs[j]) == 32 by {
        assert(bs[pos + (j - pos)] == ascii_bytes(child)[j - pos]);
    }
    lemma_scan_spaces(bs, pos, line, col, p1);
    let (l1, c1, q1) = scan_choose(bs, pos, line, col, p1, Seq::<SpecToken>::empty());
    // quoted key
    lemma_scan_str(bs, p1, l1, c1, key);
    let (l2, c2, q2) = scan_choose(bs, p1, l1, c1, p2, seq![SpecToken::StrLit(ktext)]);
    lemma_scan_extend(bs, pos, line, col, p1, l1, c1, q1, p2, l2, c2, q2);
    // colon
    assert(bs[p2 + 0] == ascii_bytes(seq![':'])[0]);
    assert(bs[p2] == 58);
    lemma_scan_single(bs, p2, l2, c2);
    let (l3, c3, q3) = scan_choose(bs, p2, l2, c2, p3, seq![SpecToken::Colon]);
    lemma_scan_extend(bs, pos, line, col, p2, l2, c2, q1 + q2, p3, l3, c3, q3);
    // the space after the colon
    assert(bs[p3 + 0] == ascii_bytes(seq![' '])[0]);
    assert(bs[p3] == 32);
    lemma_scan_ws(bs, p3, l3, c3);
    let (l4, c4, q4) = scan_choose(bs, p3, l3, c3, p4, Seq::<SpecToken>::empty());
    lemma_scan_extend(bs, pos, line, col, p3, l3, c3, (q1 + q2) + q3, p4, l4, c4, q4);
    // the member's value; a comma or line feed follows
    assert(tail5.len() > 0);
    lemma_bytes_at_first(bs, p5, tail5);
    if idx < es.len() - 1 {
        assert(tail5[0] == ',');
        assert(bs[p5] == 44);
    } else {
        assert(tail5[0] == '\n');
        assert(bs[p5] == 10);
    }
    lemma_scan_value(bs, p4, l4, c4, es[idx].1, child);
    let (l5, c5, q5) = scan_choose(bs, p4, l4, c4, p5, value_tokens(es[idx].1));
    lemma_scan_extend(bs, pos, line, col, p4, l4, c4, ((q1 + q2) + q3) + q4, p5, l5, c5, q5);
    let acc5 = (((q1 + q2) + q3) + q4) + q5;
    if idx < es.len() - 1 {
        lemma_bytes_at_split(bs, p5, comma, seq!['\n'] + rest_text + parent + seq!['}']);
        lemma_scan_single(bs, p5, l5, c5);
        let (l6, c6, q6) = scan_choose(bs, p5, l5, c5, p5 + 1, seq![SpecToken::Comma]);
        lemma_scan_extend(bs, pos, line, col, p5, l5, c5, acc5, p5 + 1, l6, c6, q6);
        let p6 = p5 + 1;
        lemma_bytes_at_split(bs, p6, seq!['\n'], rest_text + parent + seq!['}']);
        assert(bs[p6 + 0] == ascii_bytes(seq!['\n'])[0]);
        assert(bs[p6] == 10);
        lemma_scan_ws(bs, p6, l6, c6);
        let (l7, c7, q7) = scan_choose(bs, p6, l6, c6, p6 + 1, Seq::<SpecToken>::empty());
        lemma_scan_extend(bs, pos, line, col, p6, l6, c6, acc5 + q6, p6 + 1, l7, c7, q7);
        let p7 = p6 + 1;
        assert(bytes_at(bs, p7, rest_text + parent + seq!['}']));
        lemma_scan_members(bs, p7, l7, c7, es, idx + 1, parent, child);
        let end = p7 + rest_text.len() + parent.len() + 1;
        let (l8, c8, q8) = scan_choose(bs, p7, l7, c7, end, members_tokens(es, idx + 1));
        lemma_scan_extend(bs, pos, line, col, p7, l7, c7, (acc5 + q6) + q7, end, l8, c8, q8);
        let total = ((acc5 + q6) + q7) + q8;
        assert(toks_of(total) =~= members_tokens(es, idx)) by {
            lemma_toks_of_concat((acc5 + q6) + q7, q8);
            lemma_toks_of_concat(acc5 + q6, q7);
            lemma_toks_of_concat(acc5, q6);
            lemma_toks_of_concat(((q1 + q2) + q3) + q4, q5);
            lemma_toks_of_concat((q1 + q2) + q3, q4);
            lemma_toks_of_concat(q1 + q2, q3);
            lemma_toks_of_concat(q1, q2);
        }
        assert(end == pos + render_members(es, idx, child).len() + parent.len() + 1);
        assert(scan_to(bs, pos, line, col, end, members_tokens(es, idx)));
    } else {
        assert(comma =~= Seq::<char>::empty());
        assert(rest_text =~= Seq::<char>::empty());
        assert(tail5 =~= seq!['\n'] + (parent + seq!['}']));
        lemma_bytes_at_split(bs, p5, seq!['\n'], parent + seq!['}']);
        lemma_scan_ws(bs, p5, l5, c5);
        let (l6, c6, q6) = scan_choose(bs, p5, l5, c5, p5 + 1, Seq::<SpecToken>::empty());
        lemma_scan_extend(bs, pos, line, col, p5, l5, c5, acc5, p5 + 1, l6, c6, q6);
        let p6 = p5 + 1;
        lemma_bytes_at_split(bs, p6, parent, seq!['}']);
        assert forall|j: int| p6 <= j < p6 + parent.len() implies (#[trigger] bs[j]) == 32 by {
            assert(bs[p6 + (j - p6)] == ascii_bytes(parent)[j - p6]);
        }
        lemma_scan_spaces(bs, p6, l6, c6, p6 + parent.len());
        let (l7, c7, q7) = scan_choose(
            bs,
            p6,
            l6,
            c6,
            p6 + parent.len(),
            Seq::<SpecToken>::empty(),
        );
        lemma_scan_extend(
            bs,
            pos,
            line,
            col,
            p6,
            l6,
            c6,
            acc5 + q6,
            p6 + parent.len(),
            l7,
            c7,
            q7,
        );
        let p7 = p6 + parent.len();
        assert(bs[p7 + 0] == ascii_bytes(seq!['}'])[0]);
        assert(bs[p7] == 125);
        lemma_scan_single(bs, p7, l7, c7);
        let (l8, c8, q8) = scan_choose(bs, p7, l7, c7, p7 + 1, seq![SpecToken::CloseBrace]);
        lemma_scan_extend(bs, pos, line, col, p7, l7, c7, (acc5 + q6) + q7, p7 + 1, l8, c8, q8);
        let total = ((acc5 + q6) + q7) + q8;
        assert(toks_of(total) =~= members_tokens(es, idx)) by {
            lemma_toks_of_concat((acc5 + q6) + q7, q8);
            lemma_toks_of_concat(acc5 + q6, q7);
            lemma_toks_of_concat(acc5, q6);
            lemma_toks_of_concat(((q1 + q2) + q3) + q4, q5);
            lemma_toks_of_concat((q1 + q2) + q3, q4);
            lemma_toks_of_concat(q1 + q2, q3);
            lemma_toks_of_concat(q1, q2);
        }
        assert(p7 + 1 == pos + render_members(es, idx, child).len() + parent.len() + 1);
        assert(scan_to(
            bs,
            pos,
            line,
            col,
            pos + render_members(es, idx, child).len() + parent.len() + 1,
            members_tokens(es, idx),
        ));
    }
}

/// Values fit for rendering have no escapes to decode.
proof fn lemma_render_ok_no_escapes(v: SpecValue)
    requires
        render_ok(v),
    ensures
        no_escapes(v),
    decreases v,
{
    match v {
        SpecValue::Arr(a) => {
            assert forall|i: int| 0 <= i < a.len() implies no_escapes(#[trigger] a[i]) by {
                lemma_render_ok_no_escapes(a[i]);
            }
        },
        SpecValue::Obj(es) => {
            assert(forall|i: int|
                0 <= i < es.len() ==> plain_text(#[trigger] es[i].0) && render_ok(es[i].1));
            assert forall|i: int| 0 <= i < es.len() implies no_escapes(#[trigger] es[i].1) by {
                assert(plain_text(es[i].0));
                assert(render_ok(es[i].1));
                lemma_render_ok_no_escapes(es[i].1);
            }
            assert forall|i: int, j: int|
                0 <= i < es.len() && 0 <= j < es[i].0.len() implies (#[trigger] es[i].0[j])
                != '\\' by {
                assert(plain_text(es[i].0));
            }
        },
        _ => {},
    }
}

/// Round trip: parsing the exact rendered text of a well-formed value
/// whose strings are plain ASCII text, without quotes or backslashes,
/// yields that value back.
pub proof fn lemma_render_round_trip(v: SpecValue)
    requires
        crate::json::spec_wf(v),
        render_ok(v),
    ensures
        sp_document(ascii_bytes(render_of(v, Seq::empty()))) == Some(v),
{
    let rt = render_of(v, Seq::empty());
    let bs = ascii_bytes(rt);
    assert forall|k: int| 0 <= k < rt.len() implies (#[trigger] bs[0 + k]) == ascii_bytes(
        rt,
    )[k] by {}
    assert(bytes_at(bs, 0, rt));
    lemma_scan_value(bs, 0, 1, 1, v, Seq::empty());
    let (l2, c2, ps) = scan_choose(bs, 0, 1, 1, bs.len() as int, value_tokens(v));
    assert(spec_tokens(bs, bs.len() as int, l2, c2) == Some(Seq::<SpecTokenPos>::empty()));
    assert(ps + Seq::<SpecTokenPos>::empty() =~= ps);
    assert(spec_tokens(bs, 0, 1, 1) == Some(ps));
    lemma_render_ok_no_escapes(v);
    assert(ps.len() == value_tokens(v).len());
    assert forall|k: int| 0 <= k < value_tokens(v).len() implies (#[trigger] ps[0 + k]).tok
        == value_tokens(v)[k] by {
        assert(toks_of(ps)[k] == ps[k].tok);
    }
    lemma_parse_inverts_tokens(ps, 0, v);
    assert(sp_value(ps, 0) == Some((v, 0 + value_tokens(v).len() as int)));
}

proof fn lemma_value_tokens_len(v: SpecValue)
    ensures
        value_tokens(v).len() >= 1,
{
    match v {
        SpecValue::Arr(a) => {},
        SpecValue::Obj(es) => {},
        _ => {},
    }
}

proof fn lemma_value_first_token(v: SpecValue)
    ensures
        ({
            let vt = value_tokens(v);
            &&& !(vt[0] is CloseBracket)
            &&& !(vt[0] is CloseBrace)
            &&& !(vt[0] is Comma)
            &&& !(vt[0] is Colon)
        }),
{
    match v {
        SpecValue::Arr(a) => {
            if a.len() > 0 {
                assert(value_tokens(v)[0] == SpecToken::OpenBracket);
            }
        },
        SpecValue::Obj(es) => {
            if es.len() > 0 {
                assert(value_tokens(v)[0] == SpecToken::OpenBrace);
            }
        },
        _ => {},
    }
}

/// The parser inverts the token form: fed the token form of a well-formed
/// value whose strings carry no escapes, it yields exactly that value and
/// stops just past those tokens, whatever follows them.
pub proof fn lemma_parse_inverts_tokens(t: Seq<SpecTokenPos>, i: int, v: SpecValue)
    requires
        crate::json::spec_wf(v),
        no_escapes(v),
        0 <= i,
        i + value_tokens(v).len() <= t.len(),
        forall|k: int|
            0 <= k < value_tokens(v).len() ==> (#[trigger] t[i + k]).tok == value_tokens(v)[k],
    ensures
        sp_value(t, i) == Some((v, i + value_tokens(v).len())),
    decreases v, 1int,
{
    let vt = value_tokens(v);
    lemma_value_tokens_len(v);
    assert(t[i + 0].tok == vt[0]);
    assert(t[i].tok == vt[0]);
    match v {
        SpecValue::Bool(b) => {},
        SpecValue::Num(s) => {},
        SpecValue::Str(s) => {
            let r = string_token_text(s);
            assert(r.subrange(1, r.len() - 1) =~= s);
            lemma_decode_plain(s);
        },
        SpecValue::Null => {},
        SpecValue::Arr(a) => {
            if a.len() == 0 {
                assert(t[i + 1].tok == vt[1]);
                assert(vt[1] == SpecToken::CloseBracket);
                assert(a =~= Seq::<SpecValue>::empty());
            } else {
                let et = elems_tokens(a, 0);
                assert(vt == seq![SpecToken::OpenBracket] + et);
                assert forall|k: int| 0 <= k < et.len() implies (#[trigger] t[i + 1 + k]).tok
                    == et[k] by {
                    assert(vt[1 + k] == et[k]);
                    assert(t[i + (1 + k)].tok == vt[1 + k]);
                }
                lemma_value_tokens_len(a[0]);
                lemma_value_first_token(a[0]);
                assert(et[0] == value_tokens(a[0])[0]);
                assert(t[i + 1].tok == et[0]);
                lemma_parse_elems_tokens(t, i + 1, a, 0);
                assert(a.subrange(0, a.len() as int) =~= a);
            }
        },
        SpecValue::Obj(es) => {
            if es.len() == 0 {
                assert(t[i + 1].tok == vt[1]);
                assert(vt[1] == SpecToken::CloseBrace);
                assert(es =~= Seq::<(Seq<char>, SpecValue)>::empty());
            } else {
                let mt = members_tokens(es, 0);
                assert(vt == seq![SpecToken::OpenBrace] + mt);
                assert forall|k: int| 0 <= k < mt.len() implies (#[trigger] t[i + 1 + k]).tok
                    == mt[k] by {
                    assert(vt[1 + k] == mt[k]);
                    assert(t[i + (1 + k)].tok == vt[1 + k]);
                }
                assert(mt[0] == SpecToken::StrLit(string_token_text(es[0].0)));
                assert(t[i + 1].tok == mt[0]);
                assert forall|k: int, j: int|
                    0 <= k < es.len() && 0 <= j < es[k].0.len() implies (#[trigger] es[k].0[j])
                    != '\\' by {
                    assert(no_escapes(es[k].1));
                }
                lemma_parse_members_tokens(t, i + 1, es, 0);
                assert(es.subrange(0, es.len() as int) =~= es);
            }
        },
    }
}

#[verifier::rlimit(100)]
#[verifier::spinoff_prover]
proof fn lemma_parse_elems_tokens(t: Seq<SpecTokenPos>, i: int, a: Seq<SpecValue>, idx: int)
    requires
        0 <= idx < a.len(),
        forall|k: int|
            0 <= k < a.len() ==> crate::json::spec_wf(#[trigger] a[k]) && no_escapes(a[k]),
        0 <= i,
        i + elems_tokens(a, idx).len() <= t.len(),
        forall|k: int|
            0 <= k < elems_tokens(a, idx).len() ==> (#[trigger] t[i + k]).tok == elems_tokens(
                a,
                idx,
            )[k],
    ensures
        sp_elems(t, i) == Some(
            (a.subrange(idx, a.len() as int), i + elems_tokens(a, idx).len()),
        ),
    decreases a, 2int, a.len() - idx,
{
    let et = elems_tokens(a, idx);
    let velem = a[idx];
    let vt = value_tokens(velem);
    lemma_value_tokens_len(velem);
    assert forall|k: int| 0 <= k < vt.len() implies (#[trigger] t[i + k]).tok == vt[k] by {
        assert(et[k] == vt[k]);
    }
    lemma_parse_inverts_tokens(t, i, velem);
    let j = i + vt.len();
    if idx == a.len() - 1 {
        assert(et == vt + seq![SpecToken::CloseBracket]);
        assert(t[i + vt.len() as int].tok == et[vt.len() as int]);
        assert(t[j].tok == SpecToken::CloseBracket);
        assert(a.subrange(idx, a.len() as int) =~= seq![velem]);
    } else {
        let rest = elems_tokens(a, idx + 1);
        assert(et == vt + seq![SpecToken::Comma] + rest);
        assert(t[i + vt.len() as int].tok == et[vt.len() as int]);
        assert(t[j].tok == SpecToken::Comma);
        assert forall|k: int| 0 <= k < rest.len() implies (#[trigger] t[j + 1 + k]).tok
            == rest[k] by {
            assert(et[vt.len() + 1 + k] == rest[k]);
            assert(t[i + (vt.len() + 1 + k)].tok == et[vt.len() + 1 + k]);
        }
        lemma_parse_elems_tokens(t, j + 1, a, idx + 1);
        assert(seq![velem] + a.subrange(idx + 1, a.len() as int) =~= a.subrange(
            idx,
            a.len() as int,
        ));
    }
}

proof fn lemma_parse_members_tokens(
    t: Seq<SpecTokenPos>,
    i: int,
    es: Seq<(Seq<char>, SpecValue)>,
    idx: int,
)
    requires
        0 <= idx < es.len(),
        forall|k: int|
            0 <= k < es.len() ==> crate::json::spec_wf(#[trigger] es[k].1) && no_escapes(es[k].1),
        forall|k: int, j: int|
            0 <= k < es.len() && 0 <= j < es[k].0.len() ==> (#[trigger] es[k].0[j]) != '\\',
        0 <= i,
        i + members_tokens(es, idx).len() <= t.len(),
        forall|k: int|
            0 <= k < members_tokens(es, idx).len() ==> (#[trigger] t[i + k]).tok == members_tokens(
                es,
                idx,
            )[k],
    ensures
        sp_members(t, i) == Some(
            (es.subrange(idx, es.len() as int), i + members_tokens(es, idx).len()),
        ),
    decreases es, 2int, es.len() - idx,
{
    let mt = members_tokens(es, idx);
    let key = es[idx].0;
    let velem = es[idx].1;
    let vt = value_tokens(velem);
    lemma_value_tokens_len(velem);
    assert(t[i + 0].tok == mt[0]);
    assert(t[i].tok == SpecToken::StrLit(string_token_text(key)));
    assert(t[i + 1].tok == mt[1]);
    assert(t[i + 1].tok == SpecToken::Colon);
    let r = string_token_text(key);
    assert(r.subrange(1, r.len() - 1) =~= key);
    assert forall|j: int| 0 <= j < key.len() implies (#[trigger] key[j]) != '\\' by {
        assert(es[idx].0[j] != '\\');
    }
    lemma_decode_plain(key);
    assert(sp_key(t[i].tok) == Some(key));
    assert forall|k: int| 0 <= k < vt.len() implies (#[trigger] t[i + 2 + k]).tok == vt[k] by {
        assert(mt[2 + k] == vt[k]);
        assert(t[i + (2 + k)].tok == mt[2 + k]);
    }
    lemma_parse_inverts_tokens(t, i + 2, velem);
    let j = i + 2 + vt.len();
    if idx == es.len() - 1 {
        assert(mt == seq![SpecToken::StrLit(r), SpecToken::Colon] + vt + seq![
            SpecToken::CloseBrace,
        ]);
        assert(t[i + (2 + vt.len() as int)].tok == mt[2 + vt.len() as int]);
        assert(t[j].tok == SpecToken::CloseBrace);
        assert(es.subrange(idx, es.len() as int) =~= seq![(key, velem)]);
    } else {
        let rest = members_tokens(es, idx + 1);
        assert(mt == seq![SpecToken::StrLit(r), SpecToken::Colon] + vt + seq![SpecToken::Comma]
            + rest);
        assert(t[i + (2 + vt.len() as int)].tok == mt[2 + vt.len() as int]);
        assert(t[j].tok == SpecToken::Comma);
        assert forall|k: int| 0 <= k < rest.len() implies (#[trigger] t[j + 1 + k]).tok
            == rest[k] by {
            assert(mt[2 + vt.len() + 1 + k] == rest[k]);
            assert(t[i + (2 + vt.len() + 1 + k)].tok == mt[2 + vt.len() + 1 + k]);
        }
        lemma_parse_members_tokens(t, j + 1, es, idx + 1);
        assert(seq![(key, velem)] + es.subrange(idx + 1, es.len() as int) =~= es.subrange(
            idx,
            es.len() as int,
        ));
    }
}

/// The bytes carried by ASCII text.
pub open spec fn ascii_bytes(s: Seq<char>) -> Seq<u8> {
    s.map_values(|c: char| (c as u32) as u8)
}

/// Characters with the same code point are the same character.
proof fn lemma_char_code_eq(c1: char, c2: char)
    requires
        c1 as u32 == c2 as u32,
    ensures
        c1 == c2,
{
}

proof fn lemma_ascii_chars(s: Seq<char>)
    requires
        forall|j: int| 0 <= j < s.len() ==> (#[trigger] s[j] as u32) < 128,
    ensures
        chars_of(ascii_bytes(s)) == s,
        all_ascii(ascii_bytes(s)),
{
    assert forall|j: int| 0 <= j < ascii_bytes(s).len() implies (#[trigger] ascii_bytes(s)[j])
        < 128 by {
        assert(ascii_bytes(s)[j] == (s[j] as u32) as u8);
    }
    assert forall|j: int| 0 <= j < s.len() implies chars_of(ascii_bytes(s))[j] == s[j] by {
        let u = s[j] as u32;
        let b: u8 = ascii_bytes(s)[j];
        assert(b as u32 == u);
        assert(chars_of(ascii_bytes(s))[j] as u32 == b as u32);
        assert(chars_of(ascii_bytes(s))[j] as u32 == s[j] as u32);
        lemma_char_code_eq(chars_of(ascii_bytes(s))[j], s[j]);
    }
    assert(chars_of(ascii_bytes(s)) =~= s);
}

/// Every character of a well-formed number text is one of the numeric
/// literal characters, and the first is a sign, a digit, or a point.
proof fn lemma_number_chars(s: Seq<char>)
    requires
        is_number(s),
    ensures
        s.len() > 0,
        forall|j: int|
            0 <= j < s.len() ==> ((#[trigger] s[j] as u32) < 128 && is_num_byte((s[j] as u32) as u8)),
        !is_letter_byte((s[0] as u32) as u8),
        s[0] as u32 != 34,
        !(s[0] as u32 == 32 || s[0] as u32 == 10),
{
    let has_sign = s.len() > 0 && (s[0] == '+' || s[0] == '-');
    let i0: int = if has_sign {
        1
    } else {
        0
    };
    let i1 = crate::numtext::digit_run_end(s, i0);
    lemma_digit_run_end(s, i0);
    let has_dot = i1 < s.len() && s[i1] == '.';
    let f0: int = if has_dot {
        i1 + 1
    } else {
        i1
    };
    let f1 = crate::numtext::digit_run_end(s, f0);
    lemma_digit_run_end(s, f0);
    let has_exp = f1 < s.len() && (s[f1] == 'e' || s[f1] == 'E');
    let has_exp_sign = has_exp && f1 + 1 < s.len() && (s[f1 + 1] == '+' || s[f1 + 1] == '-');
    let e0: int = if has_exp {
        if has_exp_sign {
            f1 + 2
        } else {
            f1 + 1
        }
    } else {
        f1
    };
    let e1 = crate::numtext::digit_run_end(s, e0);
    lemma_digit_run_end(s, e0);
    assert forall|j: int| 0 <= j < s.len() implies ((#[trigger] s[j] as u32) < 128 && is_num_byte(
        (s[j] as u32) as u8,
    )) by {
        if j < i0 {
            assert(s[j] == '+' || s[j] == '-');
        } else if j < i1 {
            assert(crate::numtext::is_digit_char(s[j]));
        } else if has_dot && j == i1 {
            assert(s[j] == '.');
        } else if j < f1 {
            assert(crate::numtext::is_digit_char(s[j]));
        } else if has_exp && j == f1 {
            assert(s[j] == 'e' || s[j] == 'E');
        } else if has_exp_sign && j == f1 + 1 {
            assert(s[j] == '+' || s[j] == '-');
        } else {
            assert(e0 <= j < e1);
            assert(crate::numtext::is_digit_char(s[j]));
        }
    }
    if has_sign {
        assert(s[0] == '+' || s[0] == '-');
    } else if i1 > i0 {
        assert(crate::numtext::is_digit_char(s[0]));
    } else {
        assert(has_dot && i1 == 0);
        assert(s[0] == '.');
    }
}

} // verus!
