//! The lexer of build descriptions: from the bytes of a source to tokens.
use vstd::prelude::*;

use crate::error::{parse_error, ErrorView, KageError, Result};
use crate::strutil::{push_char, push_str};
use vstd::string::StringSliceAdditionalSpecFns;

verus! {

#[derive(Debug, Clone, Copy, PartialEq, Eq, Structural)]
pub enum TokenKind {
    Word,
    Str,
    LBrace,
    RBrace,
    LBracket,
    RBracket,
    Equals,
    Semi,
    Colon,
    Gt,
    Pipe,
    Comma,
    Eof,
}

/// A token and where it starts (line and column count from 1).
#[derive(Debug)]
pub struct Token {
    pub kind: TokenKind,
    pub text: String,
    pub line: u32,
    pub col: u32,
}

pub struct TokenView {
    pub kind: TokenKind,
    pub text: Seq<char>,
    pub line: int,
    pub col: int,
}

impl View for Token {
    type V = TokenView;

    open spec fn view(&self) -> TokenView {
        TokenView { kind: self.kind, text: self.text@, line: self.line as int, col: self.col as int }
    }
}

pub open spec fn token_views(s: Seq<Token>) -> Seq<TokenView> {
    s.map_values(|t: Token| t@)
}

/// A position in the source: byte offset, line and column.
pub struct LexPos {
    pub pos: int,
    pub line: int,
    pub col: int,
}

pub open spec fn start_pos() -> LexPos {
    LexPos { pos: 0, line: 1, col: 1 }
}

/// The position after the byte at `s.pos`.
pub open spec fn advance(b: Seq<u8>, s: LexPos) -> LexPos {
    if b[s.pos] == 10u8 {
        LexPos { pos: s.pos + 1, line: s.line + 1, col: 1 }
    } else {
        LexPos { pos: s.pos + 1, line: s.line, col: s.col + 1 }
    }
}

/// Positions are within the source, and line and column are no larger than
/// one more than the offset.
pub open spec fn pos_ok(b: Seq<u8>, s: LexPos) -> bool {
    0 <= s.pos <= b.len() && 1 <= s.line <= s.pos + 1 && 1 <= s.col <= s.pos + 1
}

/// Skips the rest of a comment, up to and including the end of the line.
pub open spec fn skip_comment(b: Seq<u8>, s: LexPos) -> LexPos
    decreases b.len() - s.pos,
{
    if s.pos < 0 || s.pos >= b.len() {
        s
    } else if b[s.pos] == 10u8 {
        advance(b, s)
    } else {
        skip_comment(b, advance(b, s))
    }
}

pub open spec fn is_space(c: u8) -> bool {
    c == 32u8 || c == 9u8 || c == 13u8 || c == 10u8
}

/// `//` at `p`.
pub open spec fn slash_comment_at(b: Seq<u8>, p: int) -> bool {
    0 <= p && p + 1 < b.len() && b[p] == 47u8 && b[p + 1] == 47u8
}

/// Skips white space and comments.
pub open spec fn skip_trivia(b: Seq<u8>, s: LexPos) -> LexPos
    decreases b.len() - s.pos,
{
    if s.pos < 0 || s.pos >= b.len() {
        s
    } else if is_space(b[s.pos]) {
        skip_trivia(b, advance(b, s))
    } else if b[s.pos] == 35u8 || slash_comment_at(b, s.pos) {
        proof {
            lemma_skip_comment(b, s);
        }
        skip_trivia(b, skip_comment(b, s))
    } else {
        s
    }
}

pub proof fn lemma_advance(b: Seq<u8>, s: LexPos)
    requires
        pos_ok(b, s),
        s.pos < b.len(),
    ensures
        pos_ok(b, advance(b, s)),
        advance(b, s).pos == s.pos + 1,
{
}

pub proof fn lemma_skip_comment(b: Seq<u8>, s: LexPos)
    requires
        0 <= s.pos < b.len(),
    ensures
        s.pos < skip_comment(b, s).pos <= b.len(),
        pos_ok(b, s) ==> pos_ok(b, skip_comment(b, s)),
    decreases b.len() - s.pos,
{
    let s1 = advance(b, s);
    if pos_ok(b, s) {
        lemma_advance(b, s);
    }
    if b[s.pos] != 10u8 && s1.pos < b.len() {
        lemma_skip_comment(b, s1);
    }
}

pub proof fn lemma_skip_trivia_idem(b: Seq<u8>, s: LexPos)
    ensures
        skip_trivia(b, skip_trivia(b, s)) == skip_trivia(b, s),
    decreases b.len() - s.pos,
{
    if 0 <= s.pos < b.len() {
        if is_space(b[s.pos]) {
            lemma_skip_trivia_idem(b, advance(b, s));
        } else if b[s.pos] == 35u8 || slash_comment_at(b, s.pos) {
            lemma_skip_comment(b, s);
            lemma_skip_trivia_idem(b, skip_comment(b, s));
        }
    }
}

pub proof fn lemma_skip_trivia(b: Seq<u8>, s: LexPos)
    requires
        pos_ok(b, s),
    ensures
        pos_ok(b, skip_trivia(b, s)),
        s.pos <= skip_trivia(b, s).pos,
    decreases b.len() - s.pos,
{
    if s.pos < b.len() {
        if is_space(b[s.pos]) {
            lemma_skip_trivia(b, advance(b, s));
        } else if b[s.pos] == 35u8 || slash_comment_at(b, s.pos) {
            lemma_skip_comment(b, s);
            lemma_skip_trivia(b, skip_comment(b, s));
        }
    }
}

/// Bytes that may start a word.
pub open spec fn word_start(c: u8) -> bool {
    (97u8 <= c && c <= 122u8) || (65u8 <= c && c <= 90u8) || (48u8 <= c && c <= 57u8) || c == 95u8
        || c == 46u8 || c == 47u8 || c == 45u8 || c == 43u8 || c == 64u8 || c == 126u8 || c
        == 37u8 || c == 36u8
}

/// Bytes that may continue a word.
pub open spec fn word_byte(c: u8) -> bool {
    word_start(c) || c == 40u8 || c == 41u8
}

/// The end of a word whose bytes are read from `p`; a word that starts with
/// `-` may also hold `=`.
pub open spec fn word_end(b: Seq<u8>, p: int, flag_like: bool) -> int
    decreases b.len() - p,
{
    if p < 0 || p >= b.len() {
        p
    } else if word_byte(b[p]) || (b[p] == 61u8 && flag_like) {
        word_end(b, p + 1, flag_like)
    } else {
        p
    }
}

pub proof fn lemma_word_end(b: Seq<u8>, p: int, flag_like: bool)
    requires
        0 <= p <= b.len(),
    ensures
        p <= word_end(b, p, flag_like) <= b.len(),
        forall|k: int|
            p <= k < word_end(b, p, flag_like) ==> word_byte(#[trigger] b[k]) || (b[k] == 61u8
                && flag_like),
    decreases b.len() - p,
{
    if p < b.len() && (word_byte(b[p]) || (b[p] == 61u8 && flag_like)) {
        lemma_word_end(b, p + 1, flag_like);
    }
}

/// The characters of bytes read one by one.
pub open spec fn byte_chars(b: Seq<u8>) -> Seq<char> {
    b.map_values(|x: u8| x as char)
}

/// Reads the body of a quoted string from `s` (just after the opening quote
/// at `line`, `col`), appending to `acc`.
pub open spec fn lex_string(
    b: Seq<u8>,
    f: Seq<char>,
    s: LexPos,
    line: int,
    col: int,
    acc: Seq<char>,
) -> core::result::Result<(Seq<char>, LexPos), ErrorView>
    decreases b.len() - s.pos,
{
    if s.pos < 0 || s.pos >= b.len() {
        Err(parse_error(f, line as u32, col as u32, "unterminated string"@))
    } else {
        let c = b[s.pos];
        let s1 = advance(b, s);
        if c == 34u8 {
            Ok((acc, s1))
        } else if c == 92u8 {
            if s1.pos >= b.len() {
                Err(parse_error(f, line as u32, col as u32, "unterminated string"@))
            } else {
                let e = b[s1.pos];
                let s2 = advance(b, s1);
                let acc2 = if e == 110u8 {
                    acc.push('\n')
                } else if e == 116u8 {
                    acc.push('\t')
                } else if e == 114u8 {
                    acc.push('\r')
                } else if e == 34u8 {
                    acc.push('"')
                } else if e == 92u8 {
                    acc.push('\\')
                } else if e == 36u8 {
                    acc + seq!['$', '$']
                } else {
                    acc.push('\\').push(e as char)
                };
                lex_string(b, f, s2, line, col, acc2)
            }
        } else {
            lex_string(b, f, s1, line, col, acc.push(c as char))
        }
    }
}

pub proof fn lemma_lex_string(
    b: Seq<u8>,
    f: Seq<char>,
    s: LexPos,
    line: int,
    col: int,
    acc: Seq<char>,
)
    requires
        pos_ok(b, s),
    ensures
        lex_string(b, f, s, line, col, acc) matches Ok((t, s2)) ==> pos_ok(b, s2) && s.pos < s2.pos,
    decreases b.len() - s.pos,
{
    if s.pos < b.len() {
        let c = b[s.pos];
        let s1 = advance(b, s);
        lemma_advance(b, s);
        if c == 92u8 {
            if s1.pos < b.len() {
                let e = b[s1.pos];
                let s2 = advance(b, s1);
                lemma_advance(b, s1);
                let acc2 = if e == 110u8 {
                    acc.push('\n')
                } else if e == 116u8 {
                    acc.push('\t')
                } else if e == 114u8 {
                    acc.push('\r')
                } else if e == 34u8 {
                    acc.push('"')
                } else if e == 92u8 {
                    acc.push('\\')
                } else if e == 36u8 {
                    acc + seq!['$', '$']
                } else {
                    acc.push('\\').push(e as char)
                };
                lemma_lex_string(b, f, s2, line, col, acc2);
            }
        } else if c != 34u8 {
            lemma_lex_string(b, f, s1, line, col, acc.push(c as char));
        }
    }
}

pub open spec fn punct_kind(c: u8) -> Option<TokenKind> {
    if c == 123u8 {
        Some(TokenKind::LBrace)
    } else if c == 125u8 {
        Some(TokenKind::RBrace)
    } else if c == 91u8 {
        Some(TokenKind::LBracket)
    } else if c == 93u8 {
        Some(TokenKind::RBracket)
    } else if c == 61u8 {
        Some(TokenKind::Equals)
    } else if c == 59u8 {
        Some(TokenKind::Semi)
    } else if c == 58u8 {
        Some(TokenKind::Colon)
    } else if c == 62u8 {
        Some(TokenKind::Gt)
    } else if c == 124u8 {
        Some(TokenKind::Pipe)
    } else if c == 44u8 {
        Some(TokenKind::Comma)
    } else {
        None
    }
}

/// The message for a byte that starts no token.
pub open spec fn unexpected_msg(c: u8) -> Seq<char> {
    "unexpected character '"@ + seq![c as char] + "'"@
}

/// The next token from `s`, and the position after it.
pub open spec fn next_token_spec(b: Seq<u8>, f: Seq<char>, s: LexPos) -> core::result::Result<
    (TokenView, LexPos),
    ErrorView,
> {
    let t = skip_trivia(b, s);
    if t.pos < 0 || t.pos >= b.len() {
        Ok((TokenView { kind: TokenKind::Eof, text: seq![], line: t.line, col: t.col }, t))
    } else {
        let c = b[t.pos];
        if punct_kind(c) is Some {
            Ok(
                (
                    TokenView { kind: punct_kind(c)->0, text: seq![], line: t.line, col: t.col },
                    advance(b, t),
                ),
            )
        } else if c == 34u8 {
            match lex_string(b, f, advance(b, t), t.line, t.col, seq![]) {
                Err(e) => Err(e),
                Ok((text, s2)) => Ok(
                    (TokenView { kind: TokenKind::Str, text, line: t.line, col: t.col }, s2),
                ),
            }
        } else if !word_start(c) {
            Err(parse_error(f, t.line as u32, t.col as u32, unexpected_msg(c)))
        } else {
            let e = word_end(b, t.pos + 1, c == 45u8);
            Ok(
                (
                    TokenView {
                        kind: TokenKind::Word,
                        text: byte_chars(b.subrange(t.pos, e)),
                        line: t.line,
                        col: t.col,
                    },
                    LexPos { pos: e, line: t.line, col: t.col + (e - t.pos) },
                ),
            )
        }
    }
}

pub proof fn lemma_next_token(b: Seq<u8>, f: Seq<char>, s: LexPos)
    requires
        pos_ok(b, s),
    ensures
        next_token_spec(b, f, s) matches Ok((tok, s2)) ==> pos_ok(b, s2) && s.pos <= s2.pos && (
        tok.kind != TokenKind::Eof ==> s.pos < s2.pos) && 1 <= tok.line <= s2.pos + 1 && 1
            <= tok.col <= s2.pos + 1,
{
    let t = skip_trivia(b, s);
    lemma_skip_trivia(b, s);
    if 0 <= t.pos < b.len() {
        let c = b[t.pos];
        lemma_advance(b, t);
        if c == 34u8 {
            lemma_lex_string(b, f, advance(b, t), t.line, t.col, seq![]);
        } else {
            lemma_word_end(b, t.pos + 1, c == 45u8);
        }
    }
}

/// All tokens from `s` up to and including the end-of-input token.
pub open spec fn lex_from(b: Seq<u8>, f: Seq<char>, s: LexPos) -> core::result::Result<
    Seq<TokenView>,
    ErrorView,
>
    decreases b.len() - s.pos,
{
    if !pos_ok(b, s) {
        Ok(seq![])
    } else {
        match next_token_spec(b, f, s) {
            Err(e) => Err(e),
            Ok((tok, s2)) => {
                proof {
                    lemma_next_token(b, f, s);
                }
                if tok.kind == TokenKind::Eof || s2.pos <= s.pos {
                    Ok(seq![tok])
                } else {
                    match lex_from(b, f, s2) {
                        Err(e) => Err(e),
                        Ok(rest) => Ok(seq![tok] + rest),
                    }
                }
            },
        }
    }
}

/// The tokens of a whole source.
pub open spec fn lex(b: Seq<u8>, f: Seq<char>) -> core::result::Result<Seq<TokenView>, ErrorView> {
    lex_from(b, f, start_pos())
}

pub proof fn lemma_lex_from_ends(b: Seq<u8>, f: Seq<char>, s: LexPos)
    ensures
        lex_from(b, f, s) matches Ok(ts) ==> (pos_ok(b, s) ==> ts.len() > 0 && ts.last().kind
            == TokenKind::Eof),
    decreases b.len() - s.pos,
{
    if pos_ok(b, s) {
        lemma_next_token(b, f, s);
        match next_token_spec(b, f, s) {
            Err(_) => {},
            Ok((tok, s2)) => {
                if tok.kind != TokenKind::Eof && s2.pos > s.pos {
                    lemma_lex_from_ends(b, f, s2);
                    match lex_from(b, f, s2) {
                        Ok(rest) => {
                            assert((seq![tok] + rest).last() == rest.last());
                        },
                        Err(_) => {},
                    }
                } else if tok.kind != TokenKind::Eof {
                    assert(false);
                }
            },
        }
    }
}

/// The tokens of a source end with the end-of-input token.
pub proof fn lemma_lex_ends(b: Seq<u8>, f: Seq<char>)
    ensures
        lex(b, f) matches Ok(ts) ==> ts.len() > 0 && ts.last().kind == TokenKind::Eof,
{
    lemma_lex_from_ends(b, f, start_pos());
}

/// The lexer's state.
pub struct Lexer {
    bytes: Vec<u8>,
    pos: usize,
    line: u32,
    col: u32,
    file: String,
}

impl Lexer {
    pub closed spec fn source(&self) -> Seq<u8> {
        self.bytes@
    }

    pub closed spec fn file_name(&self) -> Seq<char> {
        self.file@
    }

    pub closed spec fn at(&self) -> LexPos {
        LexPos { pos: self.pos as int, line: self.line as int, col: self.col as int }
    }

    pub closed spec fn wf(&self) -> bool {
        &&& self.bytes@.len() < u32::MAX
        &&& pos_ok(self.bytes@, self.at())
    }

    pub fn new(src: &str, file: &str) -> (r: Self)
        requires
            src.spec_bytes().len() < u32::MAX,
        ensures
            r.wf(),
            r.source() == src.spec_bytes(),
            r.file_name() == file@,
            r.at() == start_pos(),
    {
        let b = src.as_bytes();
        let mut bytes: Vec<u8> = Vec::new();
        let mut i: usize = 0;
        while i < b.len()
            invariant
                i <= b@.len(),
                bytes@ == b@.take(i as int),
            decreases b@.len() - i,
        {
            bytes.push(b[i]);
            i = i + 1;
        }
        assert(b@.take(b@.len() as int) == b@);
        Lexer { bytes, pos: 0, line: 1, col: 1, file: file.to_owned() }
    }

    fn err(&self, line: u32, col: u32, msg: String) -> (r: KageError)
        ensures
            r@ == parse_error(self.file_name(), line, col, msg@),
    {
        KageError::parse(self.file.as_str(), line, col, msg)
    }

    fn peek(&self) -> (r: Option<u8>)
        requires
            self.wf(),
        ensures
            self.at().pos < self.source().len() ==> r == Some(self.source()[self.at().pos]),
            self.at().pos >= self.source().len() ==> r is None,
    {
        if self.pos < self.bytes.len() {
            Some(self.bytes[self.pos])
        } else {
            None
        }
    }

    fn bump(&mut self) -> (r: Option<u8>)
        requires
            old(self).wf(),
        ensures
            final(self).wf(),
            final(self).source() == old(self).source(),
            final(self).file_name() == old(self).file_name(),
            old(self).at().pos < old(self).source().len() ==> r == Some(
                old(self).source()[old(self).at().pos],
            ) && final(self).at() == advance(old(self).source(), old(self).at()),
            old(self).at().pos >= old(self).source().len() ==> r is None && final(self).at()
                == old(self).at(),
    {
        if self.pos >= self.bytes.len() {
            return None;
        }
        let b = self.bytes[self.pos];
        proof {
            lemma_advance(self.bytes@, self.at());
        }
        self.pos = self.pos + 1;
        if b == 10u8 {
            self.line = self.line + 1;
            self.col = 1;
        } else {
            self.col = self.col + 1;
        }
        Some(b)
    }

    fn skip_comment(&mut self)
        requires
            old(self).wf(),
        ensures
            final(self).wf(),
            final(self).source() == old(self).source(),
            final(self).file_name() == old(self).file_name(),
            final(self).at() == skip_comment(old(self).source(), old(self).at()),
    {
        loop
            invariant_except_break
                skip_comment(self.source(), self.at()) == skip_comment(
                    old(self).source(),
                    old(self).at(),
                ),
            invariant
                self.wf(),
                self.source() == old(self).source(),
                self.file_name() == old(self).file_name(),
            ensures
                self.wf(),
                self.source() == old(self).source(),
                self.file_name() == old(self).file_name(),
                self.at() == skip_comment(old(self).source(), old(self).at()),
            decreases self.source().len() - self.at().pos,
        {
            let ghost prev = self.at();
            match self.bump() {
                None => {
                    break;
                },
                Some(b) => {
                    if b == 10u8 {
                        assert(skip_comment(self.source(), prev) == self.at());
                        break;
                    }
                },
            }
        }
    }

    fn skip_ws_and_comments(&mut self)
        requires
            old(self).wf(),
        ensures
            final(self).wf(),
            final(self).source() == old(self).source(),
            final(self).file_name() == old(self).file_name(),
            final(self).at() == skip_trivia(old(self).source(), old(self).at()),
    {
        loop
            invariant
                self.wf(),
                self.source() == old(self).source(),
                self.file_name() == old(self).file_name(),
                skip_trivia(self.source(), self.at()) == skip_trivia(
                    old(self).source(),
                    old(self).at(),
                ),
            ensures
                self.wf(),
                self.source() == old(self).source(),
                self.file_name() == old(self).file_name(),
                self.at() == skip_trivia(old(self).source(), old(self).at()),
            decreases self.source().len() - self.at().pos,
        {
            match self.peek() {
                Some(b) => {
                    if b == 32u8 || b == 9u8 || b == 13u8 || b == 10u8 {
                        self.bump();
                    } else if b == 35u8 || (b == 47u8 && self.pos + 1 < self.bytes.len()
                        && self.bytes[self.pos + 1] == 47u8) {
                        proof {
                            lemma_skip_comment(self.source(), self.at());
                        }
                        self.skip_comment();
                    } else {
                        break;
                    }
                },
                None => {
                    break;
                },
            }
        }
    }

    fn read_string(&mut self, line: u32, col: u32) -> (r: Result<Token>)
        requires
            old(self).wf(),
        ensures
            final(self).wf(),
            final(self).source() == old(self).source(),
            final(self).file_name() == old(self).file_name(),
            r matches Ok(tok) ==> lex_string(
                old(self).source(),
                old(self).file_name(),
                old(self).at(),
                line as int,
                col as int,
                seq![],
            ) == Ok::<(Seq<char>, LexPos), ErrorView>((tok@.text, final(self).at()))
                && tok.kind == TokenKind::Str && tok.line == line && tok.col == col,
            r matches Err(e) ==> lex_string(
                old(self).source(),
                old(self).file_name(),
                old(self).at(),
                line as int,
                col as int,
                seq![],
            ) == Err::<(Seq<char>, LexPos), ErrorView>(e@),
    {
        let mut text = String::new();
        loop
            invariant
                self.wf(),
                self.source() == old(self).source(),
                self.file_name() == old(self).file_name(),
                lex_string(self.source(), self.file_name(), self.at(), line as int, col as int, text@)
                    == lex_string(
                    old(self).source(),
                    old(self).file_name(),
                    old(self).at(),
                    line as int,
                    col as int,
                    seq![],
                ),
            decreases self.source().len() - self.at().pos,
        {
            let ghost t0 = text@;
            match self.bump() {
                None => {
                    return Err(self.err(line, col, "unterminated string".to_owned()));
                },
                Some(34u8) => {
                    return Ok(Token { kind: TokenKind::Str, text, line, col });
                },
                Some(92u8) => {
                    let ghost s1 = self.at();
                    match self.bump() {
                        None => {
                            return Err(self.err(line, col, "unterminated string".to_owned()));
                        },
                        Some(e) => {
                            if e == 110u8 {
                                push_char(&mut text, '\n');
                            } else if e == 116u8 {
                                push_char(&mut text, '\t');
                            } else if e == 114u8 {
                                push_char(&mut text, '\r');
                            } else if e == 34u8 {
                                push_char(&mut text, '"');
                            } else if e == 92u8 {
                                push_char(&mut text, '\\');
                            } else if e == 36u8 {
                                push_char(&mut text, '$');
                                push_char(&mut text, '$');
                                assert(text@ == t0 + seq!['$', '$']);
                            } else {
                                push_char(&mut text, '\\');
                                push_char(&mut text, e as char);
                            }
                        },
                    }
                },
                Some(c) => {
                    push_char(&mut text, c as char);
                },
            }
        }
    }

    fn read_word(&mut self, line: u32, col: u32) -> (r: Result<Token>)
        requires
            old(self).wf(),
            old(self).at().pos < old(self).source().len(),
            line as int == old(self).at().line,
            col as int == old(self).at().col,
            punct_kind(old(self).source()[old(self).at().pos]) is None,
            old(self).source()[old(self).at().pos] != 34u8,
            skip_trivia(old(self).source(), old(self).at()) == old(self).at(),
        ensures
            final(self).wf(),
            final(self).source() == old(self).source(),
            final(self).file_name() == old(self).file_name(),
            ({
                let b = old(self).source();
                let t = old(self).at();
                let c = b[t.pos];
                let spec_r = next_token_spec(b, old(self).file_name(), t);
                &&& r matches Ok(tok) ==> spec_r == Ok::<(TokenView, LexPos), ErrorView>(
                    (tok@, final(self).at()),
                )
                &&& r matches Err(e) ==> spec_r == Err::<(TokenView, LexPos), ErrorView>(e@)
            }),
    {
        let ghost b = self.source();
        let ghost t = self.at();
        let start = self.pos;
        let first = self.bytes[self.pos];
        if !is_word_start(first) {
            let mut msg = String::new();
            push_str(&mut msg, "unexpected character '");
            let ghost m0 = msg@;
            push_char(&mut msg, first as char);
            assert(msg@ == m0 + seq![first as char]);
            push_str(&mut msg, "'");
            return Err(self.err(line, col, msg));
        }
        let flag_like = first == 45u8;
        self.bump();
        proof {
            lemma_word_end(b, t.pos + 1, flag_like);
        }
        loop
            invariant
                self.wf(),
                self.source() == b,
                self.file_name() == old(self).file_name(),
                t.pos + 1 <= self.at().pos <= word_end(b, t.pos + 1, flag_like),
                word_end(b, self.at().pos, flag_like) == word_end(b, t.pos + 1, flag_like),
                self.at().line == t.line,
                self.at().col == t.col + (self.at().pos - t.pos),
                forall|k: int| t.pos <= k < self.at().pos ==> b[k] != 10u8,
            ensures
                self.wf(),
                self.source() == b,
                self.file_name() == old(self).file_name(),
                self.at().pos == word_end(b, t.pos + 1, flag_like),
                self.at().line == t.line,
                self.at().col == t.col + (self.at().pos - t.pos),
            decreases self.source().len() - self.at().pos,
        {
            match self.peek() {
                Some(c) => {
                    if is_basic_word(c) || (c == 61u8 && flag_like) {
                        proof {
                            lemma_word_end(b, self.at().pos + 1, flag_like);
                        }
                        self.bump();
                    } else {
                        break;
                    }
                },
                None => {
                    break;
                },
            }
        }
        let mut text = String::new();
        let mut k = start;
        while k < self.pos
            invariant
                start == t.pos,
                start <= k <= self.at().pos <= b.len(),
                self.bytes@ == b,
                text@ == byte_chars(b.subrange(start as int, k as int)),
            decreases self.at().pos - k,
        {
            push_char(&mut text, self.bytes[k] as char);
            k = k + 1;
            assert(byte_chars(b.subrange(start as int, k as int)) =~= byte_chars(
                b.subrange(start as int, k - 1),
            ).push(b[k - 1] as char));
        }
        Ok(Token { kind: TokenKind::Word, text, line, col })
    }

    pub fn next_token(&mut self) -> (r: Result<Token>)
        requires
            old(self).wf(),
        ensures
            final(self).wf(),
            final(self).source() == old(self).source(),
            final(self).file_name() == old(self).file_name(),
            ({
                let spec_r = next_token_spec(old(self).source(), old(self).file_name(), old(self).at());
                &&& r matches Ok(tok) ==> spec_r == Ok::<(TokenView, LexPos), ErrorView>(
                    (tok@, final(self).at()),
                )
                &&& r matches Err(e) ==> spec_r == Err::<(TokenView, LexPos), ErrorView>(e@)
            }),
    {
        self.skip_ws_and_comments();
        proof {
            lemma_skip_trivia_idem(old(self).source(), old(self).at());
        }
        let line = self.line;
        let col = self.col;
        let b = match self.peek() {
            None => {
                return Ok(Token { kind: TokenKind::Eof, text: String::new(), line, col });
            },
            Some(b) => b,
        };
        let kind = if b == 123u8 {
            TokenKind::LBrace
        } else if b == 125u8 {
            TokenKind::RBrace
        } else if b == 91u8 {
            TokenKind::LBracket
        } else if b == 93u8 {
            TokenKind::RBracket
        } else if b == 61u8 {
            TokenKind::Equals
        } else if b == 59u8 {
            TokenKind::Semi
        } else if b == 58u8 {
            TokenKind::Colon
        } else if b == 62u8 {
            TokenKind::Gt
        } else if b == 124u8 {
            TokenKind::Pipe
        } else if b == 44u8 {
            TokenKind::Comma
        } else if b == 34u8 {
            self.bump();
            return self.read_string(line, col);
        } else {
            return self.read_word(line, col);
        };
        self.bump();
        Ok(Token { kind, text: String::new(), line, col })
    }
}

fn is_word_start(c: u8) -> (r: bool)
    ensures
        r == word_start(c),
{
    (97u8 <= c && c <= 122u8) || (65u8 <= c && c <= 90u8) || (48u8 <= c && c <= 57u8) || c == 95u8
        || c == 46u8 || c == 47u8 || c == 45u8 || c == 43u8 || c == 64u8 || c == 126u8 || c
        == 37u8 || c == 36u8
}

fn is_basic_word(c: u8) -> (r: bool)
    ensures
        r == word_byte(c),
{
    is_word_start(c) || c == 40u8 || c == 41u8
}

/// Splits a source into tokens; the last token is the end of input.
pub fn tokenize(src: &str, file: &str) -> (r: Result<Vec<Token>>)
    requires
        src.spec_bytes().len() < u32::MAX,
    ensures
        r matches Ok(toks) ==> lex(src.spec_bytes(), file@) == Ok::<Seq<TokenView>, ErrorView>(
            token_views(toks@),
        ),
        r matches Err(e) ==> lex(src.spec_bytes(), file@) == Err::<Seq<TokenView>, ErrorView>(e@),
{
    let mut lexer = Lexer::new(src, file);
    let mut tokens: Vec<Token> = Vec::new();
    loop
        invariant
            lexer.wf(),
            lexer.source() == src.spec_bytes(),
            lexer.file_name() == file@,
            lex(src.spec_bytes(), file@) == match lex_from(lexer.source(), file@, lexer.at()) {
                Err(e) => Err(e),
                Ok(rest) => Ok(token_views(tokens@) + rest),
            },
        decreases lexer.source().len() - lexer.at().pos,
    {
        let ghost s = lexer.at();
        proof {
            lemma_next_token(lexer.source(), file@, s);
        }
        let t = match lexer.next_token() {
            Ok(t) => t,
            Err(e) => {
                return Err(e);
            },
        };
        let eof = t.kind == TokenKind::Eof;
        let ghost tv = t@;
        let ghost before = tokens@;
        tokens.push(t);
        assert(token_views(tokens@) == token_views(before).push(tv));
        assert(token_views(tokens@) == token_views(before) + seq![tv]);
        if eof {
            assert(lex_from(lexer.source(), file@, s) == Ok::<Seq<TokenView>, ErrorView>(seq![tv]));
            return Ok(tokens);
        }
        proof {
            let s2 = lexer.at();
            let b = lexer.source();
            assert(lex_from(b, file@, s) == match lex_from(b, file@, s2) {
                Err(e) => Err(e),
                Ok(rest) => Ok(seq![tv] + rest),
            });
            match lex_from(b, file@, s2) {
                Ok(rest) => {
                    assert(token_views(before) + (seq![tv] + rest) == token_views(tokens@) + rest);
                },
                Err(_) => {},
            }
        }
    }
}

} // verus!
