//! The parser: a positioned token sequence in, one value out, by recursive
//! descent with a single forward-moving cursor.
//!
//! After parsing a value the cursor rests on the token immediately
//! following that value's last consumed token. String literal tokens are
//! stripped of their surrounding quotes and escape-decoded here; numeric
//! literal tokens are validated against the number grammar; duplicate keys
//! within one object are rejected rather than overwritten.

use vstd::prelude::*;
use crate::errors::JSONError;
use crate::json::{
    lemma_obj_view_unique, lemma_view_of_entries_push, lemma_view_of_seq_push, obj_keys_unique,
    value_inv, view_of, view_of_entries, view_of_seq, JSONValue, JsonObject, SpecValue,
};
use crate::lexer::{token_views, SpecToken, SpecTokenPos, Token, TokenPos};
use crate::numtext::{check_number, dec_u64, is_number};
use crate::strutil::{char_from_u32, char_of, push_char};
use vstd::string::StringSliceAdditionalSpecFns;

verus! {

/// The value of a hexadecimal digit, or -1.
pub open spec fn hex_val(c: char) -> int {
    let u = c as u32;
    if 48 <= u && u <= 57 {
        u - 48
    } else if 97 <= u && u <= 102 {
        u - 87
    } else if 65 <= u && u <= 70 {
        u - 55
    } else {
        -1
    }
}

/// Whether a 16-bit code unit names a Unicode scalar value.
pub open spec fn is_scalar16(n: int) -> bool {
    !(0xD800 <= n < 0xE000)
}

/// Escape-decode the characters of a string literal body from position
/// `i`, or None when an escape sequence is malformed.
pub open spec fn sp_decode_from(s: Seq<char>, i: int) -> Option<Seq<char>>
    decreases s.len() - i when 0 <= i <= s.len()
{
    if i >= s.len() {
        Some(Seq::empty())
    } else if s[i] != '\\' {
        match sp_decode_from(s, i + 1) {
            Some(r) => Some(seq![s[i]] + r),
            None => None,
        }
    } else if i + 1 >= s.len() {
        None
    } else {
        let e = s[i + 1];
        if e == '"' || e == '\\' || e == '/' {
            match sp_decode_from(s, i + 2) {
                Some(r) => Some(seq![e] + r),
                None => None,
            }
        } else if e == 'b' {
            match sp_decode_from(s, i + 2) {
                Some(r) => Some(seq!['\u{0008}'] + r),
                None => None,
            }
        } else if e == 'f' {
            match sp_decode_from(s, i + 2) {
                Some(r) => Some(seq!['\u{000c}'] + r),
                None => None,
            }
        } else if e == 'n' {
            match sp_decode_from(s, i + 2) {
                Some(r) => Some(seq!['\u{000a}'] + r),
                None => None,
            }
        } else if e == 'r' {
            match sp_decode_from(s, i + 2) {
                Some(r) => Some(seq!['\u{000d}'] + r),
                None => None,
            }
        } else if e == 't' {
            match sp_decode_from(s, i + 2) {
                Some(r) => Some(seq!['\u{0009}'] + r),
                None => None,
            }
        } else if e == 'u' {
            if i + 6 > s.len() {
                None
            } else {
                let h0 = hex_val(s[i + 2]);
                let h1 = hex_val(s[i + 3]);
                let h2 = hex_val(s[i + 4]);
                let h3 = hex_val(s[i + 5]);
                if h0 < 0 || h1 < 0 || h2 < 0 || h3 < 0 {
                    None
                } else {
                    let n = h0 * 4096 + h1 * 256 + h2 * 16 + h3;
                    if !is_scalar16(n) {
                        None
                    } else {
                        match sp_decode_from(s, i + 6) {
                            Some(r) => Some(seq![char_of(n as u32)] + r),
                            None => None,
                        }
                    }
                }
            }
        } else {
            None
        }
    }
}

/// Escape-decode a whole string literal body.
pub open spec fn sp_decode(s: Seq<char>) -> Option<Seq<char>> {
    sp_decode_from(s, 0)
}

proof fn lemma_decode_plain_from(s: Seq<char>, i: int)
    requires
        0 <= i <= s.len(),
        forall|j: int| 0 <= j < s.len() ==> (#[trigger] s[j]) != '\\',
    ensures
        sp_decode_from(s, i) == Some(s.subrange(i, s.len() as int)),
    decreases s.len() - i,
{
    if i >= s.len() {
        assert(s.subrange(i, s.len() as int) =~= Seq::<char>::empty());
    } else {
        lemma_decode_plain_from(s, i + 1);
        assert(seq![s[i]] + s.subrange(i + 1, s.len() as int) =~= s.subrange(i, s.len() as int));
    }
}

/// Escape decoding leaves a text without backslashes unchanged.
pub proof fn lemma_decode_plain(s: Seq<char>)
    requires
        forall|j: int| 0 <= j < s.len() ==> (#[trigger] s[j]) != '\\',
    ensures
        sp_decode(s) == Some(s),
{
    lemma_decode_plain_from(s, 0);
    assert(s.subrange(0, s.len() as int) =~= s);
}

/// The decoded key carried by a string literal token, or None when the
/// token is not a well-formed string literal.
pub open spec fn sp_key(tok: SpecToken) -> Option<Seq<char>> {
    match tok {
        SpecToken::StrLit(raw) => {
            if raw.len() < 2 {
                None
            } else {
                sp_decode(raw.subrange(1, raw.len() - 1))
            }
        },
        _ => None,
    }
}

/// Parse one value at cursor `i`: the value and the cursor position just
/// after it, or None when the tokens are rejected.
pub open spec fn sp_value(t: Seq<SpecTokenPos>, i: int) -> Option<(SpecValue, int)>
    decreases t.len() - i, 1int when 0 <= i <= t.len()
{
    if i >= t.len() {
        None
    } else {
        match t[i].tok {
            SpecToken::OpenBrace => {
                if i + 1 < t.len() && t[i + 1].tok is CloseBrace {
                    Some((SpecValue::Obj(Seq::empty()), i + 2))
                } else {
                    match sp_members(t, i + 1) {
                        Some((es, j)) => {
                            if obj_keys_unique(es) {
                                Some((SpecValue::Obj(es), j))
                            } else {
                                None
                            }
                        },
                        None => None,
                    }
                }
            },
            SpecToken::OpenBracket => {
                if i + 1 < t.len() && t[i + 1].tok is CloseBracket {
                    Some((SpecValue::Arr(Seq::empty()), i + 2))
                } else {
                    match sp_elems(t, i + 1) {
                        Some((vs, j)) => Some((SpecValue::Arr(vs), j)),
                        None => None,
                    }
                }
            },
            SpecToken::StrLit(raw) => {
                match sp_key(t[i].tok) {
                    Some(s) => Some((SpecValue::Str(s), i + 1)),
                    None => None,
                }
            },
            SpecToken::NumLit(raw) => {
                if is_number(raw) {
                    Some((SpecValue::Num(raw), i + 1))
                } else {
                    None
                }
            },
            SpecToken::True => Some((SpecValue::Bool(true), i + 1)),
            SpecToken::False => Some((SpecValue::Bool(false), i + 1)),
            SpecToken::Null => Some((SpecValue::Null, i + 1)),
            _ => None,
        }
    }
}

/// Parse the elements of a non-empty array from cursor `i` up to and past
/// its closing bracket.
pub open spec fn sp_elems(t: Seq<SpecTokenPos>, i: int) -> Option<(Seq<SpecValue>, int)>
    decreases t.len() - i, 2int when 0 <= i <= t.len()
{
    match sp_value(t, i) {
        None => None,
        Some((v, j)) => {
            if j <= i || j > t.len() {
                None
            } else if j >= t.len() {
                None
            } else if t[j].tok is CloseBracket {
                Some((seq![v], j + 1))
            } else if t[j].tok is Comma {
                match sp_elems(t, j + 1) {
                    Some((vs, k)) => Some((seq![v] + vs, k)),
                    None => None,
                }
            } else {
                None
            }
        },
    }
}

/// Parse the members of a non-empty object from cursor `i` up to and past
/// its closing brace. Key uniqueness is checked by the caller.
pub open spec fn sp_members(t: Seq<SpecTokenPos>, i: int) -> Option<
    (Seq<(Seq<char>, SpecValue)>, int),
>
    decreases t.len() - i, 2int when 0 <= i <= t.len()
{
    if i >= t.len() {
        None
    } else {
        match sp_key(t[i].tok) {
            None => None,
            Some(key) => {
                if i + 1 >= t.len() || !(t[i + 1].tok is Colon) {
                    None
                } else {
                    match sp_value(t, i + 2) {
                        None => None,
                        Some((v, j)) => {
                            if j <= i + 2 || j > t.len() {
                                None
                            } else if j >= t.len() {
                                None
                            } else if t[j].tok is CloseBrace {
                                Some((seq![(key, v)], j + 1))
                            } else if t[j].tok is Comma {
                                match sp_members(t, j + 1) {
                                    Some((es, k)) => Some((seq![(key, v)] + es, k)),
                                    None => None,
                                }
                            } else {
                                None
                            }
                        },
                    }
                }
            },
        }
    }
}

/// One decoding step: when the decoded text at `i` is one character
/// followed by the decoded text at `i2`, the accumulated prefix grows by
/// that character.
proof fn lemma_decode_step(s: Seq<char>, i: int, i2: int, c: char, prefix: Seq<char>)
    requires
        sp_decode_from(s, i) == (match sp_decode_from(s, i2) {
            Some(r) => Some(seq![c] + r),
            None => None::<Seq<char>>,
        }),
        sp_decode_from(s, 0) == (match sp_decode_from(s, i) {
            Some(r) => Some(prefix + r),
            None => None::<Seq<char>>,
        }),
    ensures
        sp_decode_from(s, 0) == (match sp_decode_from(s, i2) {
            Some(r) => Some(prefix.push(c) + r),
            None => None::<Seq<char>>,
        }),
{
    match sp_decode_from(s, i2) {
        Some(r) => {
            assert(prefix + (seq![c] + r) =~= prefix.push(c) + r);
        },
        None => {},
    }
}

/// The value of a hexadecimal digit character, or -1.
fn hex_digit(c: char) -> (r: i32)
    ensures
        r as int == hex_val(c),
{
    let u = c as u32;
    if 48 <= u && u <= 57 {
        (u - 48) as i32
    } else if 97 <= u && u <= 102 {
        (u - 87) as i32
    } else if 65 <= u && u <= 70 {
        (u - 55) as i32
    } else {
        -1
    }
}

/// Escape-decode the body of a string literal token, quotes included.
///
/// Fails with a `ValueError` on a malformed escape sequence, a malformed
/// or non-scalar `\u` code, or a lone trailing backslash.
fn decode_string(raw: &String) -> (r: Result<String, JSONError>)
    requires
        raw@.len() >= 2,
    ensures
        match r {
            Ok(out) => sp_decode(raw@.subrange(1, raw@.len() - 1)) == Some(out@),
            Err(e) => sp_decode(raw@.subrange(1, raw@.len() - 1)) is None && e is ValueError,
        },
{
    let rn = raw.as_str().unicode_len();
    let content = raw.as_str().substring_char(1, rn - 1);
    let n = content.unicode_len();
    let ghost s = content@;
    let mut out = String::new();
    let mut i: usize = 0;
    loop
        invariant
            s == content@,
            s == raw@.subrange(1, raw@.len() - 1),
            i <= n,
            n == s.len(),
            sp_decode_from(s, 0) == (match sp_decode_from(s, i as int) {
                Some(r) => Some(out@ + r),
                None => None::<Seq<char>>,
            }),
        decreases n - i,
    {
        let ghost prefix = out@;
        if i >= n {
            proof {
                assert(out@ + Seq::<char>::empty() =~= out@);
            }
            return Ok(out);
        }
        let c = content.get_char(i);
        if c != '\\' {
            proof {
                lemma_decode_step(s, i as int, i + 1, c, prefix);
            }
            push_char(&mut out, c);
            i = i + 1;
        } else {
            if i + 1 >= n {
                return Err(
                    JSONError::ValueError(
                        String::from_str("invalid escape at the end of a string"),
                    ),
                );
            }
            let e = content.get_char(i + 1);
            let u = e as u32;
            if u == 34 || u == 92 || u == 47 {
                proof {
                    lemma_decode_step(s, i as int, i + 2, e, prefix);
                }
                push_char(&mut out, e);
                i = i + 2;
            } else if u == 98 {
                proof {
                    lemma_decode_step(s, i as int, i + 2, '\u{0008}', prefix);
                }
                push_char(&mut out, '\u{0008}');
                i = i + 2;
            } else if u == 102 {
                proof {
                    lemma_decode_step(s, i as int, i + 2, '\u{000c}', prefix);
                }
                push_char(&mut out, '\u{000c}');
                i = i + 2;
            } else if u == 110 {
                proof {
                    lemma_decode_step(s, i as int, i + 2, '\u{000a}', prefix);
                }
                push_char(&mut out, '\u{000a}');
                i = i + 2;
            } else if u == 114 {
                proof {
                    lemma_decode_step(s, i as int, i + 2, '\u{000d}', prefix);
                }
                push_char(&mut out, '\u{000d}');
                i = i + 2;
            } else if u == 116 {
                proof {
                    lemma_decode_step(s, i as int, i + 2, '\u{0009}', prefix);
                }
                push_char(&mut out, '\u{0009}');
                i = i + 2;
            } else if u == 117 {
                if n - i < 6 {
                    return Err(
                        JSONError::ValueError(String::from_str("invalid hexadecimal code")),
                    );
                }
                let h0 = hex_digit(content.get_char(i + 2));
                let h1 = hex_digit(content.get_char(i + 3));
                let h2 = hex_digit(content.get_char(i + 4));
                let h3 = hex_digit(content.get_char(i + 5));
                if h0 < 0 || h1 < 0 || h2 < 0 || h3 < 0 {
                    return Err(
                        JSONError::ValueError(String::from_str("invalid hexadecimal code")),
                    );
                }
                let code: u32 = (h0 * 4096 + h1 * 256 + h2 * 16 + h3) as u32;
                if 0xD800 <= code && code < 0xE000 {
                    return Err(
                        JSONError::ValueError(String::from_str("invalid utf16 hexadecimal code")),
                    );
                }
                match char_from_u32(code) {
                    Some(ch) => {
                        proof {
                            lemma_decode_step(s, i as int, i + 6, ch, prefix);
                        }
                        push_char(&mut out, ch);
                        i = i + 6;
                    },
                    None => {
                        proof {
                            assert(false);
                        }
                        return Err(JSONError::ValueError(String::new()));
                    },
                }
            } else {
                let mut m = String::from_str("invalid escape char: ");
                push_char(&mut m, e);
                return Err(JSONError::ValueError(m));
            }
        }
    }
}

/// A parsed value ends no earlier than one past where it began, and within
/// the token sequence.
pub proof fn lemma_sp_value_advances(t: Seq<SpecTokenPos>, i: int)
    requires
        0 <= i <= t.len(),
    ensures
        match sp_value(t, i) {
            Some((v, j)) => i < j <= t.len(),
            None => true,
        },
    decreases t.len() - i, 1int,
{
    if i < t.len() {
        match t[i].tok {
            SpecToken::OpenBrace => {
                if !(i + 1 < t.len() && t[i + 1].tok is CloseBrace) {
                    lemma_sp_members_advances(t, i + 1);
                }
            },
            SpecToken::OpenBracket => {
                if !(i + 1 < t.len() && t[i + 1].tok is CloseBracket) {
                    lemma_sp_elems_advances(t, i + 1);
                }
            },
            _ => {},
        }
    }
}

pub proof fn lemma_sp_elems_advances(t: Seq<SpecTokenPos>, i: int)
    requires
        0 <= i <= t.len(),
    ensures
        match sp_elems(t, i) {
            Some((vs, k)) => i < k <= t.len() && vs.len() >= 1,
            None => true,
        },
    decreases t.len() - i, 2int,
{
    lemma_sp_value_advances(t, i);
    match sp_value(t, i) {
        Some((v, j)) => {
            if i < j && j < t.len() && t[j].tok is Comma {
                lemma_sp_elems_advances(t, j + 1);
            }
        },
        None => {},
    }
}

pub proof fn lemma_sp_members_advances(t: Seq<SpecTokenPos>, i: int)
    requires
        0 <= i <= t.len(),
    ensures
        match sp_members(t, i) {
            Some((es, k)) => i < k <= t.len() && es.len() >= 1,
            None => true,
        },
    decreases t.len() - i, 2int,
{
    if i < t.len() && sp_key(t[i].tok) is Some && i + 1 < t.len() && t[i + 1].tok is Colon {
        lemma_sp_value_advances(t, i + 2);
        match sp_value(t, i + 2) {
            Some((v, j)) => {
                if i + 2 < j && j < t.len() && t[j].tok is Comma {
                    lemma_sp_members_advances(t, j + 1);
                }
            },
            None => {},
        }
    }
}

/// Every value the parser accepts is well formed: its object keys are
/// unique and its number texts follow the number grammar, recursively.
pub proof fn lemma_sp_value_wf(t: Seq<SpecTokenPos>, i: int)
    requires
        0 <= i <= t.len(),
    ensures
        match sp_value(t, i) {
            Some(p) => crate::json::spec_wf(p.0),
            None => true,
        },
    decreases t.len() - i, 1int,
{
    if i < t.len() {
        match t[i].tok {
            SpecToken::OpenBrace => {
                if !(i + 1 < t.len() && t[i + 1].tok is CloseBrace) {
                    lemma_sp_members_wf(t, i + 1);
                }
            },
            SpecToken::OpenBracket => {
                if !(i + 1 < t.len() && t[i + 1].tok is CloseBracket) {
                    lemma_sp_elems_wf(t, i + 1);
                }
            },
            _ => {},
        }
    }
}

proof fn lemma_sp_elems_wf(t: Seq<SpecTokenPos>, i: int)
    requires
        0 <= i <= t.len(),
    ensures
        match sp_elems(t, i) {
            Some(p) => forall|q: int| 0 <= q < p.0.len() ==> crate::json::spec_wf(#[trigger] p.0[q]),
            None => true,
        },
    decreases t.len() - i, 2int,
{
    lemma_sp_value_wf(t, i);
    match sp_value(t, i) {
        Some((v, j)) => {
            if i < j && j < t.len() && t[j].tok is Comma {
                lemma_sp_elems_wf(t, j + 1);
                match sp_elems(t, j + 1) {
                    Some((vs, k)) => {
                        assert forall|q: int| 0 <= q < (seq![v] + vs).len() implies
                            crate::json::spec_wf(#[trigger] (seq![v] + vs)[q]) by {
                            if q > 0 {
                                assert((seq![v] + vs)[q] == vs[q - 1]);
                            }
                        }
                    },
                    None => {},
                }
            }
        },
        None => {},
    }
}

proof fn lemma_sp_members_wf(t: Seq<SpecTokenPos>, i: int)
    requires
        0 <= i <= t.len(),
    ensures
        match sp_members(t, i) {
            Some(p) => forall|q: int|
                0 <= q < p.0.len() ==> crate::json::spec_wf(#[trigger] p.0[q].1),
            None => true,
        },
    decreases t.len() - i, 2int,
{
    if i < t.len() && sp_key(t[i].tok) is Some && i + 1 < t.len() && t[i + 1].tok is Colon {
        lemma_sp_value_wf(t, i + 2);
        match sp_value(t, i + 2) {
            Some((v, j)) => {
                let key = sp_key(t[i].tok).unwrap();
                if i + 2 < j && j < t.len() && t[j].tok is Comma {
                    lemma_sp_members_wf(t, j + 1);
                    match sp_members(t, j + 1) {
                        Some((es, k)) => {
                            assert forall|q: int| 0 <= q < (seq![(key, v)] + es).len() implies
                                crate::json::spec_wf(#[trigger] (seq![(key, v)] + es)[q].1) by {
                                if q > 0 {
                                    assert((seq![(key, v)] + es)[q] == es[q - 1]);
                                }
                            }
                        },
                        None => {},
                    }
                }
            },
            None => {},
        }
    }
}

/// A syntax error whose message names a position.
fn err_at(prefix: &str, line: usize, col: usize) -> (r: JSONError)
    ensures
        r is SyntaxError,
{
    let mut m = String::from_str(prefix);
    m.append(" at line ");
    let dl = dec_u64(line as u64);
    m.append(dl.as_str());
    m.append(", column ");
    let dc = dec_u64(col as u64);
    m.append(dc.as_str());
    JSONError::SyntaxError(m)
}

/// The parser state: the scanned tokens and a forward-moving cursor.
pub struct Parser {
    tokens: Vec<TokenPos>,
    pos: usize,
}

impl Parser {
    /// The token views.
    pub closed spec fn toks(&self) -> Seq<SpecTokenPos> {
        token_views(self.tokens@)
    }

    /// The cursor.
    pub closed spec fn spec_pos(&self) -> int {
        self.pos as int
    }

    /// A parser over `tokens`, with the cursor at the start.
    pub fn new(tokens: Vec<TokenPos>) -> (r: Parser)
        ensures
            r.toks() == token_views(tokens@),
            r.spec_pos() == 0,
    {
        Parser { tokens, pos: 0 }
    }

    /// Parse one value at the cursor and leave the cursor just past it.
    ///
    /// Succeeds exactly when the tokens at the cursor form a value:
    /// the result is that value, trailing tokens are left unread. Fails
    /// with a `SyntaxError` on an unexpected or missing token, a malformed
    /// numeric literal, or a duplicate object key, and with a `ValueError`
    /// on a malformed escape sequence.
    pub fn parse(&mut self) -> (r: Result<JSONValue, JSONError>)
        requires
            old(self).spec_pos() <= old(self).toks().len(),
            old(self).toks().len() < usize::MAX,
        ensures
            final(self).toks() == old(self).toks(),
            match r {
                Ok(v) => {
                    &&& sp_value(old(self).toks(), old(self).spec_pos()) matches Some(p) && v@
                        == p.0 && final(self).spec_pos() == p.1
                    &&& value_inv(v)
                },
                Err(e) => sp_value(old(self).toks(), old(self).spec_pos()) is None && (
                e is SyntaxError || e is ValueError),
            },
        decreases old(self).toks().len() - old(self).spec_pos(),
    {
        let ghost t = old(self).toks();
        let n = self.tokens.len();
        proof {
            assert(t.len() == self.tokens@.len());
        }
        if self.pos >= n {
            return Err(JSONError::SyntaxError(String::from_str("unexpected end of input")));
        }
        let i0 = self.pos;
        let line = self.tokens[i0].1;
        let col = self.tokens[i0].2;
        proof {
            assert(t[i0 as int] == self.tokens@[i0 as int]@);
        }
        match &self.tokens[i0].0 {
            Token::OpenBrace => {
                self.pos = i0 + 1;
                if self.pos < n && matches!(&self.tokens[self.pos].0, Token::CloseBrace) {
                    proof {
                        assert(t[i0 + 1] == self.tokens@[i0 + 1]@);
                        assert(view_of_entries(Seq::<(String, JSONValue)>::empty())
                            =~= Seq::<(Seq<char>, SpecValue)>::empty());
                    }
                    self.pos = i0 + 2;
                    return Ok(JSONValue::Object(JsonObject::new()));
                }
                proof {
                    if i0 + 1 < t.len() {
                        assert(t[i0 + 1] == self.tokens@[i0 + 1]@);
                    }
                }
                let mut obj = JsonObject::new();
                proof {
                    assert(obj@ + Seq::<(Seq<char>, SpecValue)>::empty()
                        =~= Seq::<(Seq<char>, SpecValue)>::empty());
                    assert forall|es: Seq<(Seq<char>, SpecValue)>| true implies (obj@ + es
                        =~= es) by {}
                }
                loop
                    invariant
                        t == old(self).toks(),
                        i0 as int == old(self).spec_pos(),
                        token_views(self.tokens@) == t,
                        t.len() == self.tokens@.len(),
                        n == self.tokens@.len(),
                        n < usize::MAX,
                        i0 < self.pos <= n,
                        obj.map_inv(),
                        forall|q: int|
                            0 <= q < obj.spec_entries().len() ==> value_inv(
                                #[trigger] obj.spec_entries()[q].1,
                            ),
                        sp_value(t, i0 as int) == (match sp_members(t, self.pos as int) {
                            None => None::<(SpecValue, int)>,
                            Some((es, j)) => {
                                if obj_keys_unique(obj@ + es) {
                                    Some((SpecValue::Obj(obj@ + es), j))
                                } else {
                                    None::<(SpecValue, int)>
                                }
                            },
                        }),
                    decreases n - self.pos,
                {
                    let ghost m0 = self.pos as int;
                    if self.pos >= n {
                        return Err(
                            JSONError::SyntaxError(String::from_str("unexpected end of input")),
                        );
                    }
                    let kline = self.tokens[self.pos].1;
                    let kcol = self.tokens[self.pos].2;
                    proof {
                        assert(t[m0] == self.tokens@[m0]@);
                    }
                    let key: String = match &self.tokens[self.pos].0 {
                        Token::StringLiteral(raw) => {
                            if raw.as_str().unicode_len() < 2 {
                                return Err(err_at("malformed string literal token", kline, kcol));
                            }
                            match decode_string(raw) {
                                Ok(k) => k,
                                Err(e) => {
                                    return Err(e);
                                },
                            }
                        },
                        _ => {
                            return Err(err_at("expected string literal", kline, kcol));
                        },
                    };
                    proof {
                        assert(sp_key(t[m0].tok) == Some(key@));
                    }
                    self.pos = self.pos + 1;
                    if self.pos >= n || !matches!(&self.tokens[self.pos].0, Token::Colon) {
                        proof {
                            if m0 + 1 < t.len() {
                                assert(t[m0 + 1] == self.tokens@[m0 + 1]@);
                            }
                        }
                        return Err(err_at("expected Colon", kline, kcol));
                    }
                    proof {
                        assert(t[m0 + 1] == self.tokens@[m0 + 1]@);
                    }
                    self.pos = self.pos + 1;
                    let v = match self.parse() {
                        Ok(v) => v,
                        Err(e) => {
                            return Err(e);
                        },
                    };
                    proof {
                        lemma_sp_value_advances(t, m0 + 2);
                    }
                    if self.pos >= n {
                        return Err(
                            JSONError::SyntaxError(String::from_str("unexpected end of input")),
                        );
                    }
                    let tline = self.tokens[self.pos].1;
                    let tcol = self.tokens[self.pos].2;
                    proof {
                        assert(t[self.pos as int] == self.tokens@[self.pos as int]@);
                    }
                    let is_close = matches!(&self.tokens[self.pos].0, Token::CloseBrace);
                    let is_comma = matches!(&self.tokens[self.pos].0, Token::Comma);
                    if !is_close && !is_comma {
                        return Err(err_at("expected Comma or CloseBrace", tline, tcol));
                    }
                    let ghost old_obj = obj;
                    let ghost keyv = key@;
                    let ghost vv = v@;
                    let ghost j = self.pos as int;
                    let ok = obj.insert(key, v);
                    if !ok {
                        proof {
                            let q = choose|q: int|
                                0 <= q < old_obj.spec_entries().len() && (
                                #[trigger] old_obj.spec_entries()[q].0@) == keyv;
                            crate::json::lemma_view_of_entries(old_obj.spec_entries());
                            assert(old_obj@[q].0 == keyv);
                            match sp_members(t, j + 1) {
                                Some((es2, k2)) => {
                                    let full = seq![(keyv, vv)] + es2;
                                    assert((old_obj@ + full)[q].0 == keyv);
                                    assert((old_obj@ + full)[old_obj@.len() as int].0 == keyv);
                                    assert(!obj_keys_unique(old_obj@ + full));
                                },
                                None => {},
                            }
                            if is_close {
                                let full = seq![(keyv, vv)];
                                assert((old_obj@ + full)[q].0 == keyv);
                                assert((old_obj@ + full)[old_obj@.len() as int].0 == keyv);
                                assert(!obj_keys_unique(old_obj@ + full));
                            }
                        }
                        return Err(err_at("duplicate key in object", tline, tcol));
                    }
                    proof {
                        lemma_view_of_entries_push(old_obj.spec_entries(), (key, v));
                        assert(obj@ == old_obj@.push((keyv, vv)));
                        assert forall|q: int|
                            0 <= q < obj.spec_entries().len() implies value_inv(
                            #[trigger] obj.spec_entries()[q].1,
                        ) by {
                            if q < obj.spec_entries().len() - 1 {
                                assert(obj.spec_entries()[q] == old_obj.spec_entries()[q]);
                            } else {
                                assert(obj.spec_entries()[q].1 == v);
                            }
                        }
                    }
                    if is_close {
                        self.pos = self.pos + 1;
                        proof {
                            assert(sp_members(t, m0) == Some((seq![(keyv, vv)], j + 1)));
                            assert(old_obj@ + seq![(keyv, vv)] =~= obj@);
                            lemma_obj_view_unique(obj);
                        }
                        return Ok(JSONValue::Object(obj));
                    } else {
                        self.pos = self.pos + 1;
                        proof {
                            match sp_members(t, j + 1) {
                                Some((es2, k2)) => {
                                    assert(sp_members(t, m0) == Some(
                                        (seq![(keyv, vv)] + es2, k2),
                                    ));
                                    assert(old_obj@ + (seq![(keyv, vv)] + es2) =~= obj@ + es2);
                                },
                                None => {
                                    assert(sp_members(t, m0) is None);
                                },
                            }
                        }
                    }
                }
            },
            Token::OpenBracket => {
                self.pos = i0 + 1;
                if self.pos < n && matches!(&self.tokens[self.pos].0, Token::CloseBracket) {
                    proof {
                        assert(t[i0 + 1] == self.tokens@[i0 + 1]@);
                        assert(view_of_seq(Seq::<JSONValue>::empty())
                            =~= Seq::<SpecValue>::empty());
                    }
                    self.pos = i0 + 2;
                    return Ok(JSONValue::Array(Vec::new()));
                }
                proof {
                    if i0 + 1 < t.len() {
                        assert(t[i0 + 1] == self.tokens@[i0 + 1]@);
                    }
                }
                let mut arr: Vec<JSONValue> = Vec::new();
                loop
                    invariant
                        t == old(self).toks(),
                        i0 as int == old(self).spec_pos(),
                        token_views(self.tokens@) == t,
                        t.len() == self.tokens@.len(),
                        n == self.tokens@.len(),
                        n < usize::MAX,
                        i0 < self.pos <= n,
                        forall|q: int| 0 <= q < arr@.len() ==> value_inv(#[trigger] arr@[q]),
                        sp_value(t, i0 as int) == (match sp_elems(t, self.pos as int) {
                            None => None::<(SpecValue, int)>,
                            Some((vs, j)) => Some((SpecValue::Arr(view_of_seq(arr@) + vs), j)),
                        }),
                    decreases n - self.pos,
                {
                    let ghost m0 = self.pos as int;
                    let ghost old_arr = arr@;
                    let v = match self.parse() {
                        Ok(v) => v,
                        Err(e) => {
                            return Err(e);
                        },
                    };
                    proof {
                        lemma_sp_value_advances(t, m0);
                    }
                    if self.pos >= n {
                        return Err(
                            JSONError::SyntaxError(String::from_str("unexpected end of input")),
                        );
                    }
                    let tline = self.tokens[self.pos].1;
                    let tcol = self.tokens[self.pos].2;
                    proof {
                        assert(t[self.pos as int] == self.tokens@[self.pos as int]@);
                    }
                    let is_close = matches!(&self.tokens[self.pos].0, Token::CloseBracket);
                    let is_comma = matches!(&self.tokens[self.pos].0, Token::Comma);
                    if !is_close && !is_comma {
                        return Err(err_at("expected Comma or CloseBracket", tline, tcol));
                    }
                    let ghost vv = v@;
                    let ghost j = self.pos as int;
                    arr.push(v);
                    proof {
                        lemma_view_of_seq_push(old_arr, v);
                        assert forall|q: int| 0 <= q < arr@.len() implies value_inv(
                            #[trigger] arr@[q],
                        ) by {
                            if q < arr@.len() - 1 {
                                assert(arr@[q] == old_arr[q]);
                            } else {
                                assert(arr@[q] == v);
                            }
                        }
                    }
                    if is_close {
                        self.pos = self.pos + 1;
                        proof {
                            assert(sp_elems(t, m0) == Some((seq![vv], j + 1)));
                            assert(view_of_seq(old_arr) + seq![vv] =~= view_of_seq(arr@));
                        }
                        return Ok(JSONValue::Array(arr));
                    } else {
                        self.pos = self.pos + 1;
                        proof {
                            match sp_elems(t, j + 1) {
                                Some((vs2, k2)) => {
                                    assert(sp_elems(t, m0) == Some((seq![vv] + vs2, k2)));
                                    assert(view_of_seq(old_arr) + (seq![vv] + vs2)
                                        =~= view_of_seq(arr@) + vs2);
                                },
                                None => {
                                    assert(sp_elems(t, m0) is None);
                                },
                            }
                        }
                    }
                }
            },
            Token::StringLiteral(raw) => {
                if raw.as_str().unicode_len() < 2 {
                    return Err(err_at("malformed string literal token", line, col));
                }
                match decode_string(raw) {
                    Ok(s) => {
                        self.pos = i0 + 1;
                        Ok(JSONValue::String(s))
                    },
                    Err(e) => Err(e),
                }
            },
            Token::NumericLiteral(raw) => {
                if check_number(raw.as_str()) {
                    let s = String::from_str(raw.as_str());
                    self.pos = i0 + 1;
                    Ok(JSONValue::Number(s))
                } else {
                    Err(err_at("malformed numeric literal", line, col))
                }
            },
            Token::True => {
                self.pos = i0 + 1;
                Ok(JSONValue::Bool(true))
            },
            Token::False => {
                self.pos = i0 + 1;
                Ok(JSONValue::Bool(false))
            },
            Token::Null => {
                self.pos = i0 + 1;
                Ok(JSONValue::Null)
            },
            Token::Unknown(text) => {
                let mut m = String::from_str("unexpected token `");
                m.append(text.as_str());
                m.append("`");
                let e = err_at_owned(m, line, col);
                Err(e)
            },
            Token::CloseBrace => Err(err_at("unexpected token `CloseBrace`", line, col)),
            Token::CloseBracket => Err(err_at("unexpected token `CloseBracket`", line, col)),
            Token::Colon => Err(err_at("unexpected token `Colon`", line, col)),
            Token::Comma => Err(err_at("unexpected token `Comma`", line, col)),
        }
    }
}

/// A whole document: the value carried by the bytes, or None when the
/// scanner or the parser rejects them.
pub open spec fn sp_document(bs: Seq<u8>) -> Option<SpecValue> {
    match crate::lexer::spec_tokens(bs, 0, 1, 1) {
        None => None,
        Some(ts) => match sp_value(ts, 0) {
            Some((v, j)) => Some(v),
            None => None,
        },
    }
}

impl JSONValue {
    /// Parse a whole byte buffer into a value: scan, then parse one value
    /// starting at the first token; tokens past that value are ignored.
    ///
    /// Fails exactly when the scanner or the parser rejects the bytes.
    pub fn from_bytes(bytes: Vec<u8>) -> (r: Result<JSONValue, JSONError>)
        requires
            bytes@.len() < usize::MAX,
        ensures
            match r {
                Ok(v) => sp_document(bytes@) == Some(v@) && value_inv(v),
                Err(e) => sp_document(bytes@) is None && (e is SyntaxError || e is ValueError),
            },
    {
        let ghost bs = bytes@;
        let mut lx = crate::lexer::Lexer::new(bytes);
        match lx.tokenify() {
            Err(e) => Err(e),
            Ok(ts) => {
                proof {
                    assert(token_views(ts@).len() == ts@.len());
                }
                let mut p = Parser::new(ts);
                p.parse()
            },
        }
    }

    /// Parse a string of text into a value.
    pub fn from_text(text: &str) -> (r: Result<JSONValue, JSONError>)
        requires
            text.spec_bytes().len() < usize::MAX,
        ensures
            match r {
                Ok(v) => sp_document(text.spec_bytes()) == Some(v@) && value_inv(v),
                Err(e) => sp_document(text.spec_bytes()) is None && (e is SyntaxError
                    || e is ValueError),
            },
    {
        JSONValue::from_bytes(text.as_bytes_vec())
    }
}

/// A syntax error from an already-built message, with a position appended.
fn err_at_owned(prefix: String, line: usize, col: usize) -> (r: JSONError)
    ensures
        r is SyntaxError,
{
    let mut m = prefix;
    m.append(" at line ");
    let dl = dec_u64(line as u64);
    m.append(dl.as_str());
    m.append(", column ");
    let dc = dec_u64(col as u64);
    m.append(dc.as_str());
    JSONError::SyntaxError(m)
}

} // verus!
