//! The scanner: a byte buffer in, an ordered sequence of positioned tokens
//! out.
//!
//! Tokens record the 1-based line and column at which they begin; a line
//! feed ends a line and resets the column. String literals keep their raw
//! text, quotes included, and escape decoding is left to the parser; the
//! terminator search is escape-aware, so a quote preceded by a backslash
//! does not end the literal. Raw string literal text must be ASCII (escape
//! sequences may still name any Unicode scalar value); any other byte
//! outside the recognized categories is rejected with a `SyntaxError`.

use vstd::prelude::*;
use crate::errors::JSONError;
use crate::strutil::push_char;
use crate::numtext::dec_u64;

verus! {

/// A lexical token kind with its raw text, as the specification sees it.
pub enum SpecToken {
    OpenBrace,
    CloseBrace,
    OpenBracket,
    CloseBracket,
    Colon,
    Comma,
    StrLit(Seq<char>),
    NumLit(Seq<char>),
    True,
    False,
    Null,
    Unknown(Seq<char>),
}

/// A positioned token, as the specification sees it.
pub struct SpecTokenPos {
    pub tok: SpecToken,
    pub line: int,
    pub col: int,
}

/// A lexical token with its raw text.
#[derive(Clone, Debug, PartialEq)]
pub enum Token {
    OpenBrace,
    CloseBrace,
    OpenBracket,
    CloseBracket,
    Colon,
    Comma,
    /// A string literal, surrounding quotes included.
    StringLiteral(String),
    /// The raw text of a numeric literal, not yet validated.
    NumericLiteral(String),
    True,
    False,
    Null,
    /// A run of letters that is not a keyword; rejected later with context.
    Unknown(String),
}

impl View for Token {
    type V = SpecToken;

    open spec fn view(&self) -> SpecToken {
        match self {
            Token::OpenBrace => SpecToken::OpenBrace,
            Token::CloseBrace => SpecToken::CloseBrace,
            Token::OpenBracket => SpecToken::OpenBracket,
            Token::CloseBracket => SpecToken::CloseBracket,
            Token::Colon => SpecToken::Colon,
            Token::Comma => SpecToken::Comma,
            Token::StringLiteral(s) => SpecToken::StrLit(s@),
            Token::NumericLiteral(s) => SpecToken::NumLit(s@),
            Token::True => SpecToken::True,
            Token::False => SpecToken::False,
            Token::Null => SpecToken::Null,
            Token::Unknown(s) => SpecToken::Unknown(s@),
        }
    }
}

/// A token with the 1-based line and column at which it begins.
#[derive(Clone, Debug, PartialEq)]
pub struct TokenPos(pub Token, pub usize, pub usize);

impl View for TokenPos {
    type V = SpecTokenPos;

    open spec fn view(&self) -> SpecTokenPos {
        SpecTokenPos { tok: self.0@, line: self.1 as int, col: self.2 as int }
    }
}

/// The views of a token vector.
pub open spec fn token_views(s: Seq<TokenPos>) -> Seq<SpecTokenPos> {
    s.map_values(|t: TokenPos| t@)
}

pub open spec fn is_letter_byte(b: u8) -> bool {
    (65 <= b && b <= 90) || (97 <= b && b <= 122)
}

pub open spec fn is_num_byte(b: u8) -> bool {
    (48 <= b && b <= 57) || b == 46 || b == 101 || b == 69 || b == 43 || b == 45
}

pub open spec fn is_num_start_byte(b: u8) -> bool {
    (48 <= b && b <= 57) || b == 45 || b == 43 || b == 46
}

pub open spec fn is_single_byte(b: u8) -> bool {
    b == 123 || b == 125 || b == 91 || b == 93 || b == 58 || b == 44
}

pub open spec fn single_token(b: u8) -> SpecToken {
    if b == 123 {
        SpecToken::OpenBrace
    } else if b == 125 {
        SpecToken::CloseBrace
    } else if b == 91 {
        SpecToken::OpenBracket
    } else if b == 93 {
        SpecToken::CloseBracket
    } else if b == 58 {
        SpecToken::Colon
    } else {
        SpecToken::Comma
    }
}

/// The characters carried by a run of ASCII bytes.
pub open spec fn chars_of(bs: Seq<u8>) -> Seq<char> {
    bs.map_values(|b: u8| b as char)
}

pub open spec fn all_ascii(bs: Seq<u8>) -> bool {
    forall|i: int| 0 <= i < bs.len() ==> (#[trigger] bs[i]) < 128
}

/// The position of the closing quote of a string literal whose body starts
/// at `i`: the next quote, skipping over backslash-escaped characters.
pub open spec fn find_str_end(bs: Seq<u8>, i: int) -> Option<int>
    decreases bs.len() - i when 0 <= i <= bs.len()
{
    if i >= bs.len() {
        None
    } else if bs[i] == 34 {
        Some(i)
    } else if bs[i] == 92 {
        if i + 2 <= bs.len() {
            find_str_end(bs, i + 2)
        } else {
            None
        }
    } else {
        find_str_end(bs, i + 1)
    }
}

pub proof fn lemma_find_str_end(bs: Seq<u8>, i: int)
    requires
        0 <= i <= bs.len(),
    ensures
        match find_str_end(bs, i) {
            Some(e) => i <= e < bs.len() && bs[e] == 34,
            None => true,
        },
    decreases bs.len() - i,
{
    if i < bs.len() && bs[i] != 34 {
        if bs[i] == 92 {
            if i + 2 <= bs.len() {
                lemma_find_str_end(bs, i + 2);
            }
        } else {
            lemma_find_str_end(bs, i + 1);
        }
    }
}

/// The end of the maximal run of ASCII letters starting at `i`.
pub open spec fn letter_run_end(bs: Seq<u8>, i: int) -> int
    decreases bs.len() - i when 0 <= i <= bs.len()
{
    if i >= bs.len() {
        i
    } else if is_letter_byte(bs[i]) {
        letter_run_end(bs, i + 1)
    } else {
        i
    }
}

pub proof fn lemma_letter_run_end(bs: Seq<u8>, i: int)
    requires
        0 <= i <= bs.len(),
    ensures
        i <= letter_run_end(bs, i) <= bs.len(),
        forall|j: int| i <= j < letter_run_end(bs, i) ==> is_letter_byte(#[trigger] bs[j]),
    decreases bs.len() - i,
{
    if i < bs.len() && is_letter_byte(bs[i]) {
        lemma_letter_run_end(bs, i + 1);
    }
}

/// The end of the maximal run of numeric-literal bytes starting at `i`.
pub open spec fn num_run_end(bs: Seq<u8>, i: int) -> int
    decreases bs.len() - i when 0 <= i <= bs.len()
{
    if i >= bs.len() {
        i
    } else if is_num_byte(bs[i]) {
        num_run_end(bs, i + 1)
    } else {
        i
    }
}

pub proof fn lemma_num_run_end(bs: Seq<u8>, i: int)
    requires
        0 <= i <= bs.len(),
    ensures
        i <= num_run_end(bs, i) <= bs.len(),
        forall|j: int| i <= j < num_run_end(bs, i) ==> is_num_byte(#[trigger] bs[j]),
    decreases bs.len() - i,
{
    if i < bs.len() && is_num_byte(bs[i]) {
        lemma_num_run_end(bs, i + 1);
    }
}

/// A run of letters up to a non-letter or the end stops exactly there.
pub proof fn lemma_letter_run_stops(bs: Seq<u8>, i: int, e: int)
    requires
        0 <= i <= e <= bs.len(),
        forall|j: int| i <= j < e ==> is_letter_byte(#[trigger] bs[j]),
        e == bs.len() || !is_letter_byte(bs[e]),
    ensures
        letter_run_end(bs, i) == e,
    decreases e - i,
{
    if i < e {
        lemma_letter_run_stops(bs, i + 1, e);
    }
}

/// A run of numeric-literal bytes up to a byte outside the set or the end
/// stops exactly there.
pub proof fn lemma_num_run_stops(bs: Seq<u8>, i: int, e: int)
    requires
        0 <= i <= e <= bs.len(),
        forall|j: int| i <= j < e ==> is_num_byte(#[trigger] bs[j]),
        e == bs.len() || !is_num_byte(bs[e]),
    ensures
        num_run_end(bs, i) == e,
    decreases e - i,
{
    if i < e {
        lemma_num_run_stops(bs, i + 1, e);
    }
}

/// When no byte before position `e` is a quote or a backslash and the
/// byte there is a quote, the terminator search finds exactly `e`.
pub proof fn lemma_find_str_end_plain(bs: Seq<u8>, i: int, e: int)
    requires
        0 <= i <= e < bs.len(),
        forall|j: int| i <= j < e ==> (#[trigger] bs[j]) != 34 && bs[j] != 92,
        bs[e] == 34,
    ensures
        find_str_end(bs, i) == Some(e),
    decreases e - i,
{
    if i < e {
        lemma_find_str_end_plain(bs, i + 1, e);
    }
}

/// The number of line feeds in `bs[from..to)`.
pub open spec fn count_lf(bs: Seq<u8>, from: int, to: int) -> int
    decreases to - from when from <= to
{
    if from >= to {
        0
    } else {
        count_lf(bs, from, to - 1) + if bs[to - 1] == 10 {
            1int
        } else {
            0int
        }
    }
}

/// The index of the last line feed in `bs[from..to)`, or `from - 1` when
/// there is none.
pub open spec fn last_lf(bs: Seq<u8>, from: int, to: int) -> int
    decreases to - from when from <= to
{
    if from >= to {
        from - 1
    } else if bs[to - 1] == 10 {
        to - 1
    } else {
        last_lf(bs, from, to - 1)
    }
}

/// The line counter after advancing from `from` to `to`.
pub open spec fn line_after(bs: Seq<u8>, from: int, to: int, line: int) -> int {
    line + count_lf(bs, from, to)
}

/// The column counter after advancing from `from` to `to`: the offset from
/// the last line feed when one was passed, the old column plus the length
/// otherwise.
pub open spec fn col_after(bs: Seq<u8>, from: int, to: int, col: int) -> int {
    if count_lf(bs, from, to) > 0 {
        to - last_lf(bs, from, to)
    } else {
        col + (to - from)
    }
}

pub proof fn lemma_pos_after_bounds(bs: Seq<u8>, from: int, to: int, line: int, col: int)
    requires
        0 <= from <= to <= bs.len(),
        line >= 1,
        col >= 1,
    ensures
        0 <= count_lf(bs, from, to) <= to - from,
        1 <= line_after(bs, from, to, line) <= line + (to - from),
        1 <= col_after(bs, from, to, col) <= col + (to - from),
        count_lf(bs, from, to) > 0 ==> from <= last_lf(bs, from, to) < to,
    decreases to - from,
{
    if from < to {
        lemma_pos_after_bounds(bs, from, to - 1, line, col);
    }
}

/// Advancing over one more byte steps the line and column by that byte.
proof fn lemma_pos_after_step(bs: Seq<u8>, from: int, to: int, line: int, col: int)
    requires
        0 <= from <= to < bs.len(),
        line >= 1,
        col >= 1,
    ensures
        line_after(bs, from, to + 1, line) == line_after(bs, from, to, line) + (if bs[to] == 10 {
            1int
        } else {
            0int
        }),
        col_after(bs, from, to + 1, col) == (if bs[to] == 10 {
            1int
        } else {
            col_after(bs, from, to, col) + 1
        }),
{
    lemma_pos_after_bounds(bs, from, to, line, col);
    assert(count_lf(bs, from, to + 1) == count_lf(bs, from, to) + (if bs[to] == 10 {
        1int
    } else {
        0int
    }));
    if bs[to] == 10 {
        assert(count_lf(bs, from, to + 1) > 0);
        assert(last_lf(bs, from, to + 1) == to);
        assert(col_after(bs, from, to + 1, col) == to + 1 - to);
    } else {
        assert(last_lf(bs, from, to + 1) == last_lf(bs, from, to));
        if count_lf(bs, from, to) > 0 {
            assert(col_after(bs, from, to, col) == to - last_lf(bs, from, to));
            assert(col_after(bs, from, to + 1, col) == to + 1 - last_lf(bs, from, to));
        } else {
            assert(col_after(bs, from, to, col) == col + (to - from));
            assert(col_after(bs, from, to + 1, col) == col + (to + 1 - from));
        }
    }
}

/// The tokens of `bs[pos..]` scanned at line `line`, column `col`, or None
/// when the input is rejected.
pub open spec fn spec_tokens(bs: Seq<u8>, pos: int, line: int, col: int) -> Option<
    Seq<SpecTokenPos>,
>
    decreases bs.len() - pos when 0 <= pos <= bs.len() via spec_tokens_decreases
{
    if pos >= bs.len() {
        Some(Seq::empty())
    } else {
        let b = bs[pos];
        if is_single_byte(b) {
            match spec_tokens(bs, pos + 1, line, col + 1) {
                Some(ts) => Some(
                    seq![SpecTokenPos { tok: single_token(b), line, col }] + ts,
                ),
                None => None,
            }
        } else if b == 32 {
            spec_tokens(bs, pos + 1, line, col + 1)
        } else if b == 10 {
            spec_tokens(bs, pos + 1, line + 1, 1)
        } else if b == 34 {
            match find_str_end(bs, pos + 1) {
                None => None,
                Some(e) => {
                    let seg = bs.subrange(pos, e + 1);
                    if !all_ascii(seg) {
                        None
                    } else {
                        match spec_tokens(
                            bs,
                            e + 1,
                            line_after(bs, pos, e + 1, line),
                            col_after(bs, pos, e + 1, col),
                        ) {
                            Some(ts) => Some(
                                seq![
                                    SpecTokenPos { tok: SpecToken::StrLit(chars_of(seg)), line, col },
                                ] + ts,
                            ),
                            None => None,
                        }
                    }
                },
            }
        } else if is_letter_byte(b) {
            let e = letter_run_end(bs, pos);
            let seg = bs.subrange(pos, e);
            let tok = if b == 116 && seg =~= seq![116u8, 114u8, 117u8, 101u8] {
                SpecToken::True
            } else if b == 102 && seg =~= seq![102u8, 97u8, 108u8, 115u8, 101u8] {
                SpecToken::False
            } else if b == 110 && seg =~= seq![110u8, 117u8, 108u8, 108u8] {
                SpecToken::Null
            } else {
                SpecToken::Unknown(chars_of(seg))
            };
            match spec_tokens(bs, e, line, col + (e - pos)) {
                Some(ts) => Some(seq![SpecTokenPos { tok, line, col }] + ts),
                None => None,
            }
        } else if is_num_start_byte(b) {
            let e = num_run_end(bs, pos);
            let seg = bs.subrange(pos, e);
            match spec_tokens(bs, e, line, col + (e - pos)) {
                Some(ts) => Some(
                    seq![SpecTokenPos { tok: SpecToken::NumLit(chars_of(seg)), line, col }] + ts,
                ),
                None => None,
            }
        } else {
            None
        }
    }
}

#[via_fn]
proof fn spec_tokens_decreases(bs: Seq<u8>, pos: int, line: int, col: int) {
    if 0 <= pos < bs.len() {
        lemma_find_str_end(bs, pos + 1);
        if pos + 1 <= bs.len() {
            lemma_letter_run_end(bs, pos + 1);
            lemma_num_run_end(bs, pos + 1);
        }
    }
}

proof fn lemma_token_views_push(s: Seq<TokenPos>, t: TokenPos)
    ensures
        token_views(s.push(t)) == token_views(s).push(t@),
{
    assert(token_views(s.push(t)) =~= token_views(s).push(t@));
}

/// One scanner step: when the tokens at `pos` are one token followed by
/// the tokens at `pos2`, the accumulated prefix grows by that token.
proof fn lemma_tokens_step(
    bs: Seq<u8>,
    pos: int,
    line: int,
    col: int,
    pos2: int,
    line2: int,
    col2: int,
    tp: SpecTokenPos,
    prefix: Seq<SpecTokenPos>,
)
    requires
        spec_tokens(bs, pos, line, col) == (match spec_tokens(bs, pos2, line2, col2) {
            Some(ts) => Some(seq![tp] + ts),
            None => None::<Seq<SpecTokenPos>>,
        }),
        spec_tokens(bs, 0, 1, 1) == (match spec_tokens(bs, pos, line, col) {
            Some(ts) => Some(prefix + ts),
            None => None::<Seq<SpecTokenPos>>,
        }),
    ensures
        spec_tokens(bs, 0, 1, 1) == (match spec_tokens(bs, pos2, line2, col2) {
            Some(ts) => Some(prefix.push(tp) + ts),
            None => None::<Seq<SpecTokenPos>>,
        }),
{
    match spec_tokens(bs, pos2, line2, col2) {
        Some(ts) => {
            assert(prefix + (seq![tp] + ts) =~= prefix.push(tp) + ts);
        },
        None => {},
    }
}

/// The characters of an ASCII byte range, as a string; None when a byte
/// outside ASCII is found.
fn ascii_string(buf: &Vec<u8>, from: usize, to: usize) -> (r: Option<String>)
    requires
        from <= to <= buf@.len(),
    ensures
        r is Some <==> all_ascii(buf@.subrange(from as int, to as int)),
        r is Some ==> r.unwrap()@ == chars_of(buf@.subrange(from as int, to as int)),
{
    let mut s = String::new();
    let mut i = from;
    while i < to
        invariant
            from <= i <= to <= buf@.len(),
            all_ascii(buf@.subrange(from as int, i as int)),
            s@ == chars_of(buf@.subrange(from as int, i as int)),
        decreases to - i,
    {
        let b = buf[i];
        if b >= 128 {
            proof {
                assert(buf@.subrange(from as int, to as int)[i - from] == b);
            }
            return None;
        }
        push_char(&mut s, b as char);
        proof {
            let sub1 = buf@.subrange(from as int, i + 1);
            let sub0 = buf@.subrange(from as int, i as int);
            assert forall|t: int| 0 <= t < sub1.len() implies (#[trigger] sub1[t]) < 128 by {
                if t < sub1.len() - 1 {
                    assert(sub1[t] == sub0[t]);
                } else {
                    assert(sub1[t] == b);
                }
            }
            assert(chars_of(sub1) =~= chars_of(sub0).push(b as char));
        }
        i = i + 1;
    }
    proof {
        assert(buf@.subrange(from as int, to as int) == buf@.subrange(from as int, i as int));
    }
    Some(s)
}

/// Find the closing quote of a string literal whose body starts at
/// `start`, skipping over backslash-escaped characters.
fn seek_string_end(buf: &Vec<u8>, start: usize) -> (r: Option<usize>)
    requires
        start <= buf@.len(),
        buf@.len() < usize::MAX,
    ensures
        match r {
            Some(e) => find_str_end(buf@, start as int) == Some(e as int) && start <= e
                < buf@.len(),
            None => find_str_end(buf@, start as int) is None,
        },
{
    let n = buf.len();
    let mut i = start;
    loop
        invariant
            start <= i <= n,
            n == buf@.len(),
            n < usize::MAX,
            find_str_end(buf@, start as int) == find_str_end(buf@, i as int),
        decreases n - i,
    {
        if i >= n {
            return None;
        }
        let b = buf[i];
        if b == 34 {
            return Some(i);
        }
        if b == 92 {
            if i + 2 <= n {
                i = i + 2;
            } else {
                return None;
            }
        } else {
            i = i + 1;
        }
    }
}

/// The end of the maximal letter run starting at `start`.
fn seek_letters(buf: &Vec<u8>, start: usize) -> (r: usize)
    requires
        start <= buf@.len(),
    ensures
        r == letter_run_end(buf@, start as int),
        start <= r <= buf@.len(),
{
    let n = buf.len();
    let mut i = start;
    loop
        invariant
            start <= i <= n,
            n == buf@.len(),
            letter_run_end(buf@, start as int) == letter_run_end(buf@, i as int),
        ensures
            i == letter_run_end(buf@, start as int),
        decreases n - i,
    {
        if i == n {
            break;
        }
        let b = buf[i];
        if !((65 <= b && b <= 90) || (97 <= b && b <= 122)) {
            break;
        }
        i = i + 1;
    }
    i
}

/// The end of the maximal numeric-literal run starting at `start`.
fn seek_numeric(buf: &Vec<u8>, start: usize) -> (r: usize)
    requires
        start <= buf@.len(),
    ensures
        r == num_run_end(buf@, start as int),
        start <= r <= buf@.len(),
{
    let n = buf.len();
    let mut i = start;
    loop
        invariant
            start <= i <= n,
            n == buf@.len(),
            num_run_end(buf@, start as int) == num_run_end(buf@, i as int),
        ensures
            i == num_run_end(buf@, start as int),
        decreases n - i,
    {
        if i == n {
            break;
        }
        let b = buf[i];
        if !((48 <= b && b <= 57) || b == 46 || b == 101 || b == 69 || b == 43 || b == 45) {
            break;
        }
        i = i + 1;
    }
    i
}

/// The scanner state: the byte buffer, the scan position, and the 1-based
/// line and column of that position.
pub struct Lexer {
    buffer: Vec<u8>,
    pos: usize,
    line: usize,
    column: usize,
}

impl Lexer {
    /// The bytes being scanned.
    pub closed spec fn spec_buffer(&self) -> Seq<u8> {
        self.buffer@
    }

    /// A scanner over `buffer`, positioned at its start.
    pub fn new(buffer: Vec<u8>) -> (l: Lexer)
        ensures
            l.spec_buffer() == buffer@,
    {
        Lexer { buffer, pos: 0, line: 1, column: 1 }
    }

    /// Advance the scan position by `len` bytes, adjusting line and column
    /// for every line feed passed over.
    fn advance(&mut self, len: usize)
        requires
            old(self).pos + len <= old(self).buffer@.len(),
            1 <= old(self).line,
            1 <= old(self).column,
            old(self).line + len <= usize::MAX,
            old(self).column + len <= usize::MAX,
        ensures
            final(self).buffer@ == old(self).buffer@,
            final(self).pos == old(self).pos + len,
            final(self).line as int == line_after(
                old(self).buffer@,
                old(self).pos as int,
                old(self).pos + len,
                old(self).line as int,
            ),
            final(self).column as int == col_after(
                old(self).buffer@,
                old(self).pos as int,
                old(self).pos + len,
                old(self).column as int,
            ),
            1 <= final(self).line <= old(self).line + len,
            1 <= final(self).column <= old(self).column + len,
    {
        let ghost bs = self.buffer@;
        let ghost p0 = self.pos as int;
        let ghost l0 = self.line as int;
        let ghost c0 = self.column as int;
        proof {
            assert(self.buffer.len() == self.buffer@.len());
        }
        let target = self.pos + len;
        while self.pos < target
            invariant
                bs == old(self).buffer@,
                p0 == old(self).pos as int,
                l0 == old(self).line as int,
                c0 == old(self).column as int,
                p0 <= self.pos as int <= target as int,
                target <= bs.len(),
                self.buffer@ == bs,
                target == p0 + len,
                self.line as int == line_after(bs, p0, self.pos as int, l0),
                self.column as int == col_after(bs, p0, self.pos as int, c0),
                1 <= l0,
                1 <= c0,
                l0 + len <= usize::MAX,
                c0 + len <= usize::MAX,
                self.line as int <= l0 + (self.pos as int - p0),
                self.column as int <= c0 + (self.pos as int - p0),
                1 <= self.line,
                1 <= self.column,
            decreases target - self.pos,
        {
            let b = self.buffer[self.pos];
            proof {
                lemma_pos_after_step(bs, p0, self.pos as int, l0, c0);
            }
            if b == 10 {
                self.line = self.line + 1;
                self.column = 1;
            } else {
                self.column = self.column + 1;
            }
            self.pos = self.pos + 1;
        }
    }

    /// Scan the whole buffer into positioned tokens, or fail with a
    /// `SyntaxError` on the first byte or unterminated literal the grammar
    /// rejects.
    pub fn tokenify(&mut self) -> (r: Result<Vec<TokenPos>, JSONError>)
        requires
            old(self).spec_buffer().len() < usize::MAX,
        ensures
            final(self).spec_buffer() == old(self).spec_buffer(),
            match r {
                Ok(ts) => spec_tokens(old(self).spec_buffer(), 0, 1, 1) == Some(token_views(ts@))
                    && ts@.len() <= old(self).spec_buffer().len(),
                Err(e) => spec_tokens(old(self).spec_buffer(), 0, 1, 1) is None
                    && e is SyntaxError,
            },
    {
        self.pos = 0;
        self.line = 1;
        self.column = 1;
        let mut tokens: Vec<TokenPos> = Vec::new();
        let ghost bs = self.buffer@;
        loop
            invariant
                bs == old(self).spec_buffer(),
                self.buffer@ == bs,
                bs.len() < usize::MAX,
                self.pos <= bs.len(),
                1 <= self.line,
                self.line <= 1 + self.pos,
                1 <= self.column,
                self.column <= 1 + self.pos,
                tokens@.len() <= self.pos,
                spec_tokens(bs, 0, 1, 1) == (match spec_tokens(
                    bs,
                    self.pos as int,
                    self.line as int,
                    self.column as int,
                ) {
                    Some(ts) => Some(token_views(tokens@) + ts),
                    None => None::<Seq<SpecTokenPos>>,
                }),
            decreases bs.len() - self.pos,
        {
            let ghost pos0 = self.pos as int;
            let ghost line0 = self.line as int;
            let ghost col0 = self.column as int;
            let ghost prefix = token_views(tokens@);
            if self.pos == self.buffer.len() {
                proof {
                    assert(prefix + Seq::<SpecTokenPos>::empty() =~= prefix);
                }
                return Ok(tokens);
            }
            let b = self.buffer[self.pos];
            if b == 123 || b == 125 || b == 91 || b == 93 || b == 58 || b == 44 {
                let tok = if b == 123 {
                    Token::OpenBrace
                } else if b == 125 {
                    Token::CloseBrace
                } else if b == 91 {
                    Token::OpenBracket
                } else if b == 93 {
                    Token::CloseBracket
                } else if b == 58 {
                    Token::Colon
                } else {
                    Token::Comma
                };
                let tp = TokenPos(tok, self.line, self.column);
                proof {
                    lemma_token_views_push(tokens@, tp);
                    lemma_tokens_step(
                        bs,
                        pos0,
                        line0,
                        col0,
                        pos0 + 1,
                        line0,
                        col0 + 1,
                        tp@,
                        prefix,
                    );
                }
                proof {
                    lemma_advance_one(bs, pos0, line0, col0);
                }
                tokens.push(tp);
                self.advance(1);
            } else if b == 32 || b == 10 {
                proof {
                    lemma_advance_one(bs, pos0, line0, col0);
                }
                self.advance(1);
            } else if b == 34 {
                match seek_string_end(&self.buffer, self.pos + 1) {
                    None => {
                        return Err(
                            JSONError::SyntaxError(String::from_str("terminator not found")),
                        );
                    },
                    Some(e) => {
                        match ascii_string(&self.buffer, self.pos, e + 1) {
                            None => {
                                let mut m = String::from_str(
                                    "string literal holds a byte outside ASCII at line ",
                                );
                                let dl = dec_u64(self.line as u64);
                                m.append(dl.as_str());
                                m.append(", column ");
                                let dc = dec_u64(self.column as u64);
                                m.append(dc.as_str());
                                return Err(JSONError::SyntaxError(m));
                            },
                            Some(s) => {
                                let tp = TokenPos(
                                    Token::StringLiteral(s),
                                    self.line,
                                    self.column,
                                );
                                proof {
                                    lemma_pos_after_bounds(bs, pos0, e + 1, line0, col0);
                                    lemma_token_views_push(tokens@, tp);
                                    lemma_tokens_step(
                                        bs,
                                        pos0,
                                        line0,
                                        col0,
                                        e + 1,
                                        line_after(bs, pos0, e + 1, line0),
                                        col_after(bs, pos0, e + 1, col0),
                                        tp@,
                                        prefix,
                                    );
                                }
                                tokens.push(tp);
                                let len = e + 1 - self.pos;
                                self.advance(len);
                            },
                        }
                    },
                }
            } else if (65 <= b && b <= 90) || (97 <= b && b <= 122) {
                let e = seek_letters(&self.buffer, self.pos);
                proof {
                    lemma_letter_run_end(bs, pos0);
                    assert(e > self.pos) by {
                        assert(letter_run_end(bs, pos0) == letter_run_end(bs, pos0 + 1));
                        lemma_letter_run_end(bs, pos0 + 1);
                    }
                    assert forall|t: int|
                        0 <= t < bs.subrange(pos0, e as int).len() implies (#[trigger] bs.subrange(
                        pos0,
                        e as int,
                    )[t]) < 128 by {
                        assert(bs.subrange(pos0, e as int)[t] == bs[pos0 + t]);
                        assert(is_letter_byte(bs[pos0 + t]));
                    }
                }
                let is_true = b == 116 && e - self.pos == 4 && self.buffer[self.pos + 1] == 114
                    && self.buffer[self.pos + 2] == 117 && self.buffer[self.pos + 3] == 101;
                let is_false = b == 102 && e - self.pos == 5 && self.buffer[self.pos + 1] == 97
                    && self.buffer[self.pos + 2] == 108 && self.buffer[self.pos + 3] == 115
                    && self.buffer[self.pos + 4] == 101;
                let is_null = b == 110 && e - self.pos == 4 && self.buffer[self.pos + 1] == 117
                    && self.buffer[self.pos + 2] == 108 && self.buffer[self.pos + 3] == 108;
                let tok: Token = if is_true {
                    proof {
                        assert(bs.subrange(pos0, e as int) =~= seq![116u8, 114u8, 117u8, 101u8]);
                    }
                    Token::True
                } else if is_false {
                    proof {
                        assert(bs.subrange(pos0, e as int) =~= seq![
                            102u8,
                            97u8,
                            108u8,
                            115u8,
                            101u8,
                        ]);
                    }
                    Token::False
                } else if is_null {
                    proof {
                        assert(bs.subrange(pos0, e as int) =~= seq![110u8, 117u8, 108u8, 108u8]);
                    }
                    Token::Null
                } else {
                    proof {
                        if b == 116 && bs.subrange(pos0, e as int) =~= seq![
                            116u8,
                            114u8,
                            117u8,
                            101u8,
                        ] {
                            assert(e - self.pos == 4 && bs[pos0 + 1] == 114 && bs[pos0 + 2] == 117
                                && bs[pos0 + 3] == 101);
                        }
                        if b == 102 && bs.subrange(pos0, e as int) =~= seq![
                            102u8,
                            97u8,
                            108u8,
                            115u8,
                            101u8,
                        ] {
                            assert(e - self.pos == 5 && bs[pos0 + 1] == 97 && bs[pos0 + 2] == 108
                                && bs[pos0 + 3] == 115 && bs[pos0 + 4] == 101);
                        }
                        if b == 110 && bs.subrange(pos0, e as int) =~= seq![
                            110u8,
                            117u8,
                            108u8,
                            108u8,
                        ] {
                            assert(e - self.pos == 4 && bs[pos0 + 1] == 117 && bs[pos0 + 2] == 108
                                && bs[pos0 + 3] == 108);
                        }
                    }
                    match ascii_string(&self.buffer, self.pos, e) {
                        Some(s) => Token::Unknown(s),
                        None => {
                            proof {
                                assert(false);
                            }
                            Token::Unknown(String::new())
                        },
                    }
                };
                let tp = TokenPos(tok, self.line, self.column);
                proof {
                    assert(count_lf(bs, pos0, e as int) == 0) by {
                        lemma_count_lf_none(bs, pos0, e as int);
                    }
                    lemma_token_views_push(tokens@, tp);
                    lemma_tokens_step(
                        bs,
                        pos0,
                        line0,
                        col0,
                        e as int,
                        line0,
                        col0 + (e - pos0),
                        tp@,
                        prefix,
                    );
                }
                tokens.push(tp);
                let len = e - self.pos;
                self.advance(len);
            } else if (48 <= b && b <= 57) || b == 45 || b == 43 || b == 46 {
                let e = seek_numeric(&self.buffer, self.pos);
                proof {
                    lemma_num_run_end(bs, pos0);
                    assert(e > self.pos) by {
                        assert(num_run_end(bs, pos0) == num_run_end(bs, pos0 + 1));
                        lemma_num_run_end(bs, pos0 + 1);
                    }
                    assert forall|t: int|
                        0 <= t < bs.subrange(pos0, e as int).len() implies (#[trigger] bs.subrange(
                        pos0,
                        e as int,
                    )[t]) < 128 by {
                        assert(bs.subrange(pos0, e as int)[t] == bs[pos0 + t]);
                        assert(is_num_byte(bs[pos0 + t]));
                    }
                }
                let tok: Token = match ascii_string(&self.buffer, self.pos, e) {
                    Some(s) => Token::NumericLiteral(s),
                    None => {
                        proof {
                            assert(false);
                        }
                        Token::NumericLiteral(String::new())
                    },
                };
                let tp = TokenPos(tok, self.line, self.column);
                proof {
                    assert(count_lf(bs, pos0, e as int) == 0) by {
                        lemma_count_lf_none(bs, pos0, e as int);
                    }
                    lemma_token_views_push(tokens@, tp);
                    lemma_tokens_step(
                        bs,
                        pos0,
                        line0,
                        col0,
                        e as int,
                        line0,
                        col0 + (e - pos0),
                        tp@,
                        prefix,
                    );
                }
                tokens.push(tp);
                let len = e - self.pos;
                self.advance(len);
            } else {
                let mut m = String::from_str("invalid character '");
                push_char(&mut m, b as char);
                m.append("' at line ");
                let dl = dec_u64(self.line as u64);
                m.append(dl.as_str());
                m.append(", column ");
                let dc = dec_u64(self.column as u64);
                m.append(dc.as_str());
                return Err(JSONError::SyntaxError(m));
            }
        }
    }
}

/// Advancing over a single byte.
proof fn lemma_advance_one(bs: Seq<u8>, pos: int, line: int, col: int)
    requires
        0 <= pos < bs.len(),
        line >= 1,
        col >= 1,
    ensures
        bs[pos] != 10 ==> line_after(bs, pos, pos + 1, line) == line && col_after(
            bs,
            pos,
            pos + 1,
            col,
        ) == col + 1,
        bs[pos] == 10 ==> line_after(bs, pos, pos + 1, line) == line + 1 && col_after(
            bs,
            pos,
            pos + 1,
            col,
        ) == 1,
{
    assert(count_lf(bs, pos, pos) == 0);
    assert(count_lf(bs, pos, pos + 1) == if bs[pos] == 10 {
        1int
    } else {
        0int
    });
    if bs[pos] == 10 {
        assert(last_lf(bs, pos, pos + 1) == pos);
    }
}

/// A range without line feeds leaves the line count unchanged.
proof fn lemma_count_lf_none(bs: Seq<u8>, from: int, to: int)
    requires
        0 <= from <= to <= bs.len(),
        forall|j: int| from <= j < to ==> (#[trigger] bs[j]) != 10,
    ensures
        count_lf(bs, from, to) == 0,
    decreases to - from,
{
    if from < to {
        lemma_count_lf_none(bs, from, to - 1);
    }
}

} // verus!
