//! The scanning engine: the lexical grammar as spec functions, and a
//! cursor-driven scanner proved to follow it.
use crate::diagnostic::{Lax, Report, Reporter};
use crate::token::{keyword_kind, keyword_or_identifier, Token, TokenType};
use vstd::prelude::*;

verus! {

pub open spec fn is_digit(b: u8) -> bool {
    '0' as u8 <= b && b <= '9' as u8
}

pub open spec fn is_alpha(b: u8) -> bool {
    ('a' as u8 <= b && b <= 'z' as u8) || ('A' as u8 <= b && b <= 'Z' as u8) || b == '_' as u8
}

pub open spec fn is_alpha_numeric(b: u8) -> bool {
    is_alpha(b) || is_digit(b)
}

/// The byte at offset `i`, or the sentinel 0 past the end.
pub open spec fn byte_at(src: Seq<u8>, i: nat) -> u8 {
    if i < src.len() {
        src[i as int]
    } else {
        0
    }
}

/// The first offset at or after `i` whose byte does not satisfy `p`, or the
/// end of `src`.
pub open spec fn skip_while(src: Seq<u8>, i: nat, p: spec_fn(u8) -> bool) -> nat
    decreases src.len() - i,
{
    if i < src.len() && p(src[i as int]) {
        skip_while(src, i + 1, p)
    } else {
        i
    }
}

/// End of the run of digits that starts at `i`.
pub open spec fn digits_end(src: Seq<u8>, i: nat) -> nat {
    skip_while(src, i, |b: u8| is_digit(b))
}

/// End of the run of letters, digits and underscores that starts at `i`.
pub open spec fn word_end(src: Seq<u8>, i: nat) -> nat {
    skip_while(src, i, |b: u8| is_alpha_numeric(b))
}

/// Offset of the first newline at or after `i`, or the end of `src`.
pub open spec fn line_end(src: Seq<u8>, i: nat) -> nat {
    skip_while(src, i, |b: u8| b != '\n' as u8)
}

/// Offset of the first double quote at or after `i`, or the end of `src`.
pub open spec fn quote_end(src: Seq<u8>, i: nat) -> nat {
    skip_while(src, i, |b: u8| b != '"' as u8)
}

/// End of a numeric literal whose first digit stands just before `i`: the
/// digits, then a `.` and more digits only if a digit follows the `.`.
pub open spec fn number_end(src: Seq<u8>, i: nat) -> nat {
    let e = digits_end(src, i);
    if byte_at(src, e) == '.' as u8 && is_digit(byte_at(src, e + 1)) {
        digits_end(src, e + 1)
    } else {
        e
    }
}

/// The number of newline bytes in `src[i..j]`.
pub open spec fn newlines(src: Seq<u8>, i: nat, j: nat) -> nat
    decreases j - i,
{
    if j <= i {
        0
    } else {
        newlines(src, i, (j - 1) as nat) + if src[j - 1] == '\n' as u8 {
            1nat
        } else {
            0nat
        }
    }
}

/// The category of a byte that is a token by itself.
pub open spec fn punctuation_kind(c: u8) -> Option<TokenType> {
    if c == '(' as u8 {
        Some(TokenType::LeftParen)
    } else if c == ')' as u8 {
        Some(TokenType::RightParen)
    } else if c == '{' as u8 {
        Some(TokenType::LeftBrace)
    } else if c == '}' as u8 {
        Some(TokenType::RightBrace)
    } else if c == ',' as u8 {
        Some(TokenType::Comma)
    } else if c == '.' as u8 {
        Some(TokenType::Dot)
    } else if c == '-' as u8 {
        Some(TokenType::Minus)
    } else if c == '+' as u8 {
        Some(TokenType::Plus)
    } else if c == ';' as u8 {
        Some(TokenType::Semicolon)
    } else if c == '*' as u8 {
        Some(TokenType::Star)
    } else {
        None
    }
}

/// For a byte that may be followed by `=`, its category alone and its
/// category with the `=`.
pub open spec fn operator_kinds(c: u8) -> Option<(TokenType, TokenType)> {
    if c == '!' as u8 {
        Some((TokenType::Bang, TokenType::BangEqual))
    } else if c == '=' as u8 {
        Some((TokenType::Equal, TokenType::EqualEqual))
    } else if c == '<' as u8 {
        Some((TokenType::Less, TokenType::LessEqual))
    } else if c == '>' as u8 {
        Some((TokenType::Greater, TokenType::GreaterEqual))
    } else {
        None
    }
}

/// The outcome of one token attempt: the token it emits, if any, where the
/// cursor and the line counter stand after it, the diagnostic it reported,
/// if any, as a line and a message, and whether scanning stops there.
pub struct Step {
    pub token: Option<Token>,
    pub end: nat,
    pub line: nat,
    pub diagnostic: Option<(nat, Seq<char>)>,
    pub stop: bool,
}

/// A step that emits a token of category `kind` over `start..end`.
pub open spec fn emit(kind: TokenType, start: nat, end: nat, line: nat) -> Step {
    Step {
        token: Some(Token { token_type: kind, start: start as usize, end: end as usize, line: line as usize }),
        end,
        line,
        diagnostic: None,
        stop: false,
    }
}

/// A step that consumes bytes up to `end` and emits nothing.
pub open spec fn skip(end: nat, line: nat) -> Step {
    Step { token: None, end, line, diagnostic: None, stop: false }
}

/// One token attempt at offset `pos`, with the line counter at `line`.
pub open spec fn step(src: Seq<u8>, pos: nat, line: nat) -> Step {
    let c = src[pos as int];
    let next = pos + 1;
    if let Some(kind) = punctuation_kind(c) {
        emit(kind, pos, next, line)
    } else if let Some((one, two)) = operator_kinds(c) {
        if byte_at(src, next) == '=' as u8 {
            emit(two, pos, next + 1, line)
        } else {
            emit(one, pos, next, line)
        }
    } else if c == '/' as u8 {
        if byte_at(src, next) == '/' as u8 {
            skip(line_end(src, next + 1), line)
        } else {
            emit(TokenType::Slash, pos, next, line)
        }
    } else if c == ' ' as u8 || c == '\r' as u8 || c == '\t' as u8 {
        skip(next, line)
    } else if c == '\n' as u8 {
        skip(next, line + 1)
    } else if c == '"' as u8 {
        let close = quote_end(src, next);
        let line_after = line + newlines(src, next, close);
        if close >= src.len() {
            Step {
                token: None,
                end: close,
                line: line_after,
                diagnostic: Some((line_after, "unterminated string"@)),
                stop: true,
            }
        } else {
            Step {
                token: Some(Token { token_type: TokenType::String, start: pos as usize, end: (close + 1) as usize, line: line as usize }),
                end: close + 1,
                line: line_after,
                diagnostic: None,
                stop: false,
            }
        }
    } else if is_digit(c) {
        emit(TokenType::Number, pos, number_end(src, next), line)
    } else if is_alpha(c) {
        let e = word_end(src, next);
        emit(keyword_kind(src.subrange(pos as int, e as int)), pos, e, line)
    } else {
        Step { token: None, end: next, line, diagnostic: Some((line, "unexpected character"@)), stop: false }
    }
}


/// What scanning from offset `pos` with the line counter at `line` yields
/// before the end-of-input marker: the tokens, the final line counter, and
/// the diagnostics reported, in order, each as a line and a message.
pub struct Scan {
    pub tokens: Seq<Token>,
    pub line: nat,
    pub diagnostics: Seq<(nat, Seq<char>)>,
}

impl Scan {
    /// Whether any error was reported.
    pub open spec fn error(self) -> bool {
        self.diagnostics.len() > 0
    }
}

pub open spec fn diagnostic_seq(d: Option<(nat, Seq<char>)>) -> Seq<(nat, Seq<char>)> {
    match d {
        Some(d) => seq![d],
        None => Seq::empty(),
    }
}

/// Diagnostics as a reporter receives them from a session on `chunk`.
pub open spec fn as_reports(chunk: Seq<char>, ds: Seq<(nat, Seq<char>)>) -> Seq<Report> {
    ds.map_values(|d: (nat, Seq<char>)| (chunk, d.0 as usize, Seq::<char>::empty(), d.1))
}

pub open spec fn token_seq(t: Option<Token>) -> Seq<Token> {
    match t {
        Some(t) => seq![t],
        None => Seq::empty(),
    }
}

/// Scanning `src` from offset `pos`, one token attempt after another, until
/// the end of the buffer or an attempt that stops scanning.
pub open spec fn scan_from(src: Seq<u8>, pos: nat, line: nat) -> Scan
    decreases src.len() - pos,
    via scan_from_decreases
{
    if pos >= src.len() {
        Scan { tokens: Seq::empty(), line, diagnostics: Seq::empty() }
    } else {
        let s = step(src, pos, line);
        if s.stop {
            Scan { tokens: Seq::empty(), line: s.line, diagnostics: diagnostic_seq(s.diagnostic) }
        } else {
            let rest = scan_from(src, s.end, s.line);
            Scan {
                tokens: token_seq(s.token) + rest.tokens,
                line: rest.line,
                diagnostics: diagnostic_seq(s.diagnostic) + rest.diagnostics,
            }
        }
    }
}

#[via_fn]
proof fn scan_from_decreases(src: Seq<u8>, pos: nat, line: nat) {
    if pos < src.len() {
        lemma_step_advances(src, pos, line);
    }
}

/// The end-of-input marker: an empty span at the end of a buffer of `len`
/// bytes.
pub open spec fn eof_token(len: nat, line: nat) -> Token {
    Token { token_type: TokenType::Eof, start: len as usize, end: len as usize, line: line as usize }
}

/// The full token sequence for scanning `src` from `pos` with the line
/// counter at `line`: the tokens, then the end-of-input marker.
pub open spec fn tokens_from(src: Seq<u8>, pos: nat, line: nat) -> Seq<Token> {
    let s = scan_from(src, pos, line);
    s.tokens.push(eof_token(src.len(), s.line))
}

/// The token sequence of a whole buffer, starting at line 0.
pub open spec fn tokens_of(src: Seq<u8>) -> Seq<Token> {
    tokens_from(src, 0, 0)
}

/// The diagnostics that scanning the whole buffer reports, each as a line
/// and a message.
pub open spec fn diagnostics_of(src: Seq<u8>) -> Seq<(nat, Seq<char>)> {
    scan_from(src, 0, 0).diagnostics
}

/// Whether scanning the whole buffer reports any lexical error.
pub open spec fn has_lexical_error(src: Seq<u8>) -> bool {
    scan_from(src, 0, 0).error()
}


/// The category of `c` if it is one byte of punctuation.
fn punctuation(c: u8) -> (r: Option<TokenType>)
    ensures
        r == punctuation_kind(c),
{
    if c == '(' as u8 {
        Some(TokenType::LeftParen)
    } else if c == ')' as u8 {
        Some(TokenType::RightParen)
    } else if c == '{' as u8 {
        Some(TokenType::LeftBrace)
    } else if c == '}' as u8 {
        Some(TokenType::RightBrace)
    } else if c == ',' as u8 {
        Some(TokenType::Comma)
    } else if c == '.' as u8 {
        Some(TokenType::Dot)
    } else if c == '-' as u8 {
        Some(TokenType::Minus)
    } else if c == '+' as u8 {
        Some(TokenType::Plus)
    } else if c == ';' as u8 {
        Some(TokenType::Semicolon)
    } else if c == '*' as u8 {
        Some(TokenType::Star)
    } else {
        None
    }
}

/// The one- and two-character categories of `c` if it may take a `=`.
fn operators(c: u8) -> (r: Option<(TokenType, TokenType)>)
    ensures
        r == operator_kinds(c),
{
    if c == '!' as u8 {
        Some((TokenType::Bang, TokenType::BangEqual))
    } else if c == '=' as u8 {
        Some((TokenType::Equal, TokenType::EqualEqual))
    } else if c == '<' as u8 {
        Some((TokenType::Less, TokenType::LessEqual))
    } else if c == '>' as u8 {
        Some((TokenType::Greater, TokenType::GreaterEqual))
    } else {
        None
    }
}

fn digit(c: u8) -> (r: bool)
    ensures
        r == is_digit(c),
{
    '0' as u8 <= c && c <= '9' as u8
}

fn alpha(c: u8) -> (r: bool)
    ensures
        r == is_alpha(c),
{
    ('a' as u8 <= c && c <= 'z' as u8) || ('A' as u8 <= c && c <= 'Z' as u8) || c == '_' as u8
}

/// A scanning session over a borrowed buffer. It reports lexical errors to
/// the diagnostic session it owns.
pub struct Scanner<'a, R: Reporter> {
    lax: Lax<R>,
    source: &'a [u8],
    start: usize,
    start_line: usize,
    current: usize,
    line: usize,
}

impl<'a, R: Reporter> Scanner<'a, R> {
    /// The buffer being scanned.
    pub closed spec fn source_bytes(&self) -> Seq<u8> {
        self.source@
    }

    /// The offset of the next byte to read.
    pub closed spec fn position(&self) -> nat {
        self.current as nat
    }

    /// The line counter.
    pub closed spec fn line_number(&self) -> nat {
        self.line as nat
    }

    /// The diagnostic session.
    pub closed spec fn session(&self) -> Lax<R> {
        self.lax
    }

    pub closed spec fn wf(&self) -> bool {
        &&& self.start <= self.current <= self.source.len()
        &&& self.line <= self.current
    }

    pub fn new(lax: Lax<R>, source: &'a [u8]) -> (r: Scanner<'a, R>)
        ensures
            r.wf(),
            r.source_bytes() == source@,
            r.position() == 0,
            r.line_number() == 0,
            r.session() == lax,
    {
        Scanner { lax, source, start: 0, start_line: 0, current: 0, line: 0 }
    }

    /// The diagnostic session.
    pub fn lax(&self) -> (r: &Lax<R>)
        ensures
            *r == self.session(),
    {
        &self.lax
    }

    /// Ends the scanning session and hands back its diagnostic session.
    pub fn into_lax(self) -> (r: Lax<R>)
        ensures
            r == self.session(),
    {
        self.lax
    }

    fn is_at_end(&self) -> (r: bool)
        requires
            self.wf(),
        ensures
            r == (self.current >= self.source@.len()),
    {
        self.current >= self.source.len()
    }

    fn peek(&self) -> (r: u8)
        requires
            self.wf(),
        ensures
            r == byte_at(self.source@, self.current as nat),
    {
        if self.is_at_end() {
            0
        } else {
            self.source[self.current]
        }
    }

    fn peek_next(&self) -> (r: u8)
        requires
            self.wf(),
        ensures
            r == byte_at(self.source@, (self.current + 1) as nat),
    {
        if self.is_at_end() || self.current + 1 >= self.source.len() {
            0
        } else {
            self.source[self.current + 1]
        }
    }

    fn advance(&mut self) -> (r: u8)
        requires
            old(self).wf(),
            old(self).current < old(self).source@.len(),
        ensures
            r == old(self).source@[old(self).current as int],
            *final(self) == (Scanner { current: (old(self).current + 1) as usize, ..*old(self) }),
    {
        let position = self.current;
        self.current += 1;
        self.source[position]
    }

    /// Consumes the next byte if it is `expected`.
    fn check_next(&mut self, expected: u8) -> (r: bool)
        requires
            old(self).wf(),
        ensures
            r == (old(self).current < old(self).source@.len() && old(self).source@[old(self).current as int] == expected),
            *final(self) == (Scanner { current: (if r { old(self).current + 1 } else { old(self).current as int }) as usize, ..*old(self) }),
    {
        if self.is_at_end() || self.peek() != expected {
            false
        } else {
            self.current += 1;
            true
        }
    }

    /// Consumes a run of digits.
    fn consume_digits(&mut self)
        requires
            old(self).wf(),
        ensures
            final(self).wf(),
            *final(self) == (Scanner { current: digits_end(old(self).source@, old(self).current as nat) as usize, ..*old(self) }),
    {
        while digit(self.peek())
            invariant
                self.wf(),
                *self == (Scanner { current: self.current, ..*old(self) }),
                digits_end(self.source@, self.current as nat) == digits_end(old(self).source@, old(self).current as nat),
            decreases self.source@.len() - self.current,
        {
            self.advance();
        }
    }

    /// Consumes a run of letters, digits and underscores.
    fn consume_word(&mut self)
        requires
            old(self).wf(),
        ensures
            final(self).wf(),
            *final(self) == (Scanner { current: word_end(old(self).source@, old(self).current as nat) as usize, ..*old(self) }),
    {
        while alpha(self.peek()) || digit(self.peek())
            invariant
                self.wf(),
                *self == (Scanner { current: self.current, ..*old(self) }),
                word_end(self.source@, self.current as nat) == word_end(old(self).source@, old(self).current as nat),
            decreases self.source@.len() - self.current,
        {
            self.advance();
        }
    }

    /// Consumes the rest of a line comment, up to the next newline.
    fn consume_comment(&mut self)
        requires
            old(self).wf(),
        ensures
            final(self).wf(),
            *final(self) == (Scanner { current: line_end(old(self).source@, old(self).current as nat) as usize, ..*old(self) }),
    {
        while self.peek() != '\n' as u8 && !self.is_at_end()
            invariant
                self.wf(),
                *self == (Scanner { current: self.current, ..*old(self) }),
                line_end(self.source@, self.current as nat) == line_end(old(self).source@, old(self).current as nat),
            decreases self.source@.len() - self.current,
        {
            self.advance();
        }
    }

    /// Consumes the body of a string literal, up to its closing quote or the
    /// end of input, counting the newlines in it.
    fn consume_string_body(&mut self)
        requires
            old(self).wf(),
        ensures
            final(self).wf(),
            *final(self) == (Scanner {
                current: quote_end(old(self).source@, old(self).current as nat) as usize,
                line: final(self).line,
                ..*old(self)
            }),
            final(self).line == old(self).line + newlines(
                old(self).source@,
                old(self).current as nat,
                quote_end(old(self).source@, old(self).current as nat),
            ),
    {
        while self.peek() != '"' as u8 && !self.is_at_end()
            invariant
                self.wf(),
                *self == (Scanner { current: self.current, line: self.line, ..*old(self) }),
                old(self).current <= self.current,
                self.line == old(self).line + newlines(self.source@, old(self).current as nat, self.current as nat),
                quote_end(self.source@, self.current as nat) == quote_end(old(self).source@, old(self).current as nat),
            decreases self.source@.len() - self.current,
        {
            if self.advance() == '\n' as u8 {
                self.line += 1;
            }
        }
    }

    /// One token attempt: reads the token that starts at the cursor, if
    /// any, or reports the lexical error found there. Returns whether
    /// scanning must stop.
    fn scan_token(&mut self, tokens: &mut Vec<Token>) -> (stop: bool)
        requires
            old(self).wf(),
            old(self).current < old(self).source@.len(),
        ensures
            final(self).wf(),
            final(self).current > old(self).current,
            final(self).source == old(self).source,
            final(self).lax.chunk() == old(self).lax.chunk(),
            ({
                let s = step(old(self).source@, old(self).current as nat, old(self).line as nat);
                &&& stop == s.stop
                &&& final(self).current == s.end
                &&& final(self).line == s.line
                &&& final(tokens)@ == old(tokens)@ + token_seq(s.token)
                &&& final(self).lax.errored() == (old(self).lax.errored() || s.diagnostic is Some)
                &&& final(self).lax.sink().reports() == match s.diagnostic {
                    Some(d) => old(self).lax.sink().reports().push(
                        (old(self).lax.chunk(), d.0 as usize, Seq::empty(), d.1),
                    ),
                    None => old(self).lax.sink().reports(),
                }
            }),
    {
        let ghost src = self.source@;
        proof {
            lemma_step_advances(src, self.current as nat, self.line as nat);
        }
        self.start = self.current;
        self.start_line = self.line;
        let c = self.advance();
        if let Some(kind) = punctuation(c) {
            self.add_token(tokens, kind);
        } else if let Some((one, two)) = operators(c) {
            if self.check_next('=' as u8) {
                self.add_token(tokens, two);
            } else {
                self.add_token(tokens, one);
            }
        } else if c == '/' as u8 {
            if self.check_next('/' as u8) {
                self.consume_comment();
            } else {
                self.add_token(tokens, TokenType::Slash);
            }
        } else if c == ' ' as u8 || c == '\r' as u8 || c == '\t' as u8 {
        } else if c == '\n' as u8 {
            self.line += 1;
        } else if c == '"' as u8 {
            self.consume_string_body();
            if self.is_at_end() {
                self.lax.error(self.line, "unterminated string");
                return true;
            }
            self.advance();
            self.add_token(tokens, TokenType::String);
        } else if digit(c) {
            self.consume_digits();
            if self.peek() == '.' as u8 && digit(self.peek_next()) {
                self.advance();
                self.consume_digits();
            }
            self.add_token(tokens, TokenType::Number);
        } else if alpha(c) {
            self.consume_word();
            let kind = keyword_or_identifier(self.source, self.start, self.current);
            self.add_token(tokens, kind);
        } else {
            self.lax.error(self.line, "unexpected character");
        }
        false
    }

    /// Scans from the cursor to the end of the buffer, or to an
    /// unterminated string, and returns the tokens read followed by the
    /// end-of-input marker. Lexical errors go to the diagnostic session.
    pub fn scan_tokens(&mut self) -> (r: Vec<Token>)
        requires
            old(self).wf(),
        ensures
            final(self).wf(),
            final(self).source_bytes() == old(self).source_bytes(),
            final(self).position() == old(self).source_bytes().len(),
            r@ == tokens_from(old(self).source_bytes(), old(self).position(), old(self).line_number()),
            final(self).session().errored() == (old(self).session().errored() || scan_from(
                old(self).source_bytes(),
                old(self).position(),
                old(self).line_number(),
            ).error()),
            final(self).session().sink().reports() == old(self).session().sink().reports() + as_reports(
                old(self).session().chunk(),
                scan_from(old(self).source_bytes(), old(self).position(), old(self).line_number()).diagnostics,
            ),
            final(self).session().chunk() == old(self).session().chunk(),
    {
        let ghost src = self.source@;
        let ghost p0 = self.current as nat;
        let ghost l0 = self.line as nat;
        let ghost chunk = self.lax.chunk();
        let mut tokens: Vec<Token> = Vec::new();
        let mut stopped = false;
        while !stopped && !self.is_at_end()
            invariant
                self.wf(),
                self.source@ == src,
                stopped ==> self.current == src.len(),
                tokens@ + scan_from(src, self.current as nat, self.line as nat).tokens == scan_from(src, p0, l0).tokens,
                scan_from(src, self.current as nat, self.line as nat).line == scan_from(src, p0, l0).line,
                (self.lax.errored() || scan_from(src, self.current as nat, self.line as nat).error()) == (old(self).lax.errored()
                    || scan_from(src, p0, l0).error()),
                self.lax.sink().reports() + as_reports(chunk, scan_from(src, self.current as nat, self.line as nat).diagnostics)
                    == old(self).lax.sink().reports() + as_reports(chunk, scan_from(src, p0, l0).diagnostics),
                self.lax.chunk() == old(self).lax.chunk(),
                chunk == old(self).lax.chunk(),
            decreases src.len() - self.current,
        {
            let ghost r0 = self.lax.sink().reports();
            let ghost c0 = self.current as nat;
            let ghost n0 = self.line as nat;
            stopped = self.scan_token(&mut tokens);
            proof {
                let d = step(src, c0, n0).diagnostic;
                let rest = scan_from(src, self.current as nat, self.line as nat).diagnostics;
                assert(scan_from(src, c0, n0).diagnostics =~= diagnostic_seq(d) + rest);
                assert(as_reports(chunk, diagnostic_seq(d) + rest) =~= as_reports(chunk, diagnostic_seq(d)) + as_reports(chunk, rest));
                match d {
                    Some(x) => {
                        assert(as_reports(chunk, diagnostic_seq(d)) =~= seq![(chunk, x.0 as usize, Seq::<char>::empty(), x.1)]);
                    },
                    None => {
                        assert(as_reports(chunk, diagnostic_seq(d)) =~= Seq::<Report>::empty());
                    },
                }
                assert(self.lax.sink().reports() =~= r0 + as_reports(chunk, diagnostic_seq(d)));
                assert(self.lax.sink().reports() + as_reports(chunk, rest) =~= r0 + as_reports(chunk, scan_from(src, c0, n0).diagnostics));
            }
        }
        tokens.push(Token { token_type: TokenType::Eof, start: self.current, end: self.current, line: self.line });
        tokens
    }

    /// Appends a token of category `kind` over the current span, on the line
    /// where that span began.
    fn add_token(&self, tokens: &mut Vec<Token>, kind: TokenType)
        ensures
            final(tokens)@ == old(tokens)@.push(
                Token { token_type: kind, start: self.start, end: self.current, line: self.start_line },
            ),
    {
        tokens.push(Token { token_type: kind, start: self.start, end: self.current, line: self.start_line });
    }
}

pub proof fn lemma_skip_while_bounds(src: Seq<u8>, i: nat, p: spec_fn(u8) -> bool)
    requires
        i <= src.len(),
    ensures
        i <= skip_while(src, i, p) <= src.len(),
        skip_while(src, i, p) < src.len() ==> !p(src[skip_while(src, i, p) as int]),
    decreases src.len() - i,
{
    if i < src.len() && p(src[i as int]) {
        lemma_skip_while_bounds(src, i + 1, p);
    }
}

/// Every token attempt moves the cursor forward, and not past the end.
pub proof fn lemma_step_advances(src: Seq<u8>, pos: nat, line: nat)
    requires
        pos < src.len(),
    ensures
        pos < step(src, pos, line).end <= src.len(),
{
    let next = pos + 1;
    lemma_skip_while_bounds(src, next, |b: u8| is_digit(b));
    lemma_skip_while_bounds(src, next, |b: u8| is_alpha_numeric(b));
    lemma_skip_while_bounds(src, next, |b: u8| b != '"' as u8);
    if next < src.len() {
        lemma_skip_while_bounds(src, next + 1, |b: u8| b != '\n' as u8);
    }
    let e = digits_end(src, next);
    if e + 1 < src.len() {
        lemma_skip_while_bounds(src, e + 1, |b: u8| is_digit(b));
    }
}


pub open spec fn is_blank(b: u8) -> bool {
    b == ' ' as u8 || b == '\t' as u8 || b == '\r' as u8 || b == '\n' as u8
}

proof fn lemma_blank_scan_from(src: Seq<u8>, pos: nat, line: nat)
    requires
        forall|i: int| 0 <= i < src.len() ==> is_blank(#[trigger] src[i]),
    ensures
        scan_from(src, pos, line).tokens.len() == 0,
        !scan_from(src, pos, line).error(),
    decreases src.len() - pos,
{
    if pos < src.len() {
        let s = step(src, pos, line);
        lemma_blank_scan_from(src, pos + 1, s.line);
    }
}

/// A buffer of nothing but spaces, tabs, carriage returns and newlines scans
/// to exactly one token, the end-of-input marker, with no error.
pub proof fn lemma_blank_input(src: Seq<u8>)
    requires
        forall|i: int| 0 <= i < src.len() ==> is_blank(#[trigger] src[i]),
    ensures
        tokens_of(src).len() == 1,
        tokens_of(src)[0].token_type == TokenType::Eof,
        !has_lexical_error(src),
{
    lemma_blank_scan_from(src, 0, 0);
}

/// Scanning is deterministic: byte-identical buffers give identical token
/// sequences and the same diagnostics.
pub proof fn lemma_scan_deterministic(a: Seq<u8>, b: Seq<u8>)
    requires
        a == b,
    ensures
        tokens_of(a) == tokens_of(b),
        has_lexical_error(a) == has_lexical_error(b),
        diagnostics_of(a) == diagnostics_of(b),
{
}

proof fn lemma_scan_from_spans(src: Seq<u8>, pos: nat, line: nat)
    requires
        pos <= src.len() <= usize::MAX,
    ensures
        ({
            let t = scan_from(src, pos, line).tokens;
            &&& forall|k: int|
                0 <= k < t.len() ==> {
                    &&& t[k].token_type != TokenType::Eof
                    &&& pos <= t[k].start < t[k].end <= src.len()
                }
            &&& forall|j: int, k: int| 0 <= j < k < t.len() ==> t[j].end <= t[k].start
        }),
    decreases src.len() - pos,
{
    if pos < src.len() {
        let s = step(src, pos, line);
        lemma_step_advances(src, pos, line);
        if !s.stop {
            lemma_scan_from_spans(src, s.end, s.line);
            let rest = scan_from(src, s.end, s.line).tokens;
            let t = scan_from(src, pos, line).tokens;
            if let Some(head) = s.token {
                assert(head.start == pos && head.end == s.end && head.token_type != TokenType::Eof);
                assert(t =~= seq![head] + rest);
                assert forall|k: int| 0 <= k < t.len() implies {
                    &&& t[k].token_type != TokenType::Eof
                    &&& pos <= t[k].start < t[k].end <= src.len()
                } by {
                    if k > 0 {
                        assert(t[k] == rest[k - 1]);
                    }
                }
                assert forall|j: int, k: int| 0 <= j < k < t.len() implies t[j].end <= t[k].start by {
                    assert(t[k] == rest[k - 1]);
                    if j > 0 {
                        assert(t[j] == rest[j - 1]);
                    }
                }
            } else {
                assert(t =~= rest);
            }
        }
    }
}

pub open spec fn is_one_char_operator(k: TokenType) -> bool {
    k == TokenType::Bang || k == TokenType::Equal || k == TokenType::Less || k == TokenType::Greater
}

pub open spec fn is_two_char_operator(k: TokenType) -> bool {
    k == TokenType::BangEqual || k == TokenType::EqualEqual || k == TokenType::LessEqual || k
        == TokenType::GreaterEqual
}

/// Token `t` of `src` obeys the one-byte lookahead for `=`: a one-character
/// operator spans its operator byte alone and no `=` follows it; a
/// two-character operator spans its operator byte and the `=` after it.
pub open spec fn lookahead_respected(src: Seq<u8>, t: Token) -> bool {
    let followed = t.start + 1 < src.len() && src[t.start + 1] == '=' as u8;
    &&& is_one_char_operator(t.token_type) ==> {
        &&& t.end == t.start + 1
        &&& !followed
        &&& operator_kinds(src[t.start as int]) is Some
        &&& (operator_kinds(src[t.start as int])->0).0 == t.token_type
    }
    &&& is_two_char_operator(t.token_type) ==> {
        &&& t.end == t.start + 2
        &&& followed
        &&& operator_kinds(src[t.start as int]) is Some
        &&& (operator_kinds(src[t.start as int])->0).1 == t.token_type
    }
}

proof fn lemma_step_lookahead(src: Seq<u8>, pos: nat, line: nat)
    requires
        pos < src.len() <= usize::MAX,
    ensures
        step(src, pos, line).token matches Some(t) ==> lookahead_respected(src, t),
{
    lemma_step_advances(src, pos, line);
}

proof fn lemma_scan_from_lookahead(src: Seq<u8>, pos: nat, line: nat)
    requires
        pos <= src.len() <= usize::MAX,
    ensures
        forall|k: int|
            0 <= k < scan_from(src, pos, line).tokens.len() ==> lookahead_respected(
                src,
                #[trigger] scan_from(src, pos, line).tokens[k],
            ),
    decreases src.len() - pos,
{
    if pos < src.len() {
        let s = step(src, pos, line);
        lemma_step_advances(src, pos, line);
        lemma_step_lookahead(src, pos, line);
        if !s.stop {
            lemma_scan_from_lookahead(src, s.end, s.line);
            let rest = scan_from(src, s.end, s.line).tokens;
            let t = scan_from(src, pos, line).tokens;
            assert(t =~= token_seq(s.token) + rest);
            assert forall|k: int| 0 <= k < t.len() implies lookahead_respected(src, #[trigger] t[k]) by {
                if s.token is Some && k == 0 {
                } else {
                    let r = if s.token is Some { k - 1 } else { k };
                    assert(t[k] == rest[r]);
                }
            }
        }
    }
}

/// Every token of a scan obeys the one-byte lookahead for `=`: `!`, `=`, `<`
/// and `>` are read as `!=`, `==`, `<=` and `>=` exactly when a `=` follows
/// them at once, and as themselves otherwise.
pub proof fn lemma_operator_lookahead(src: Seq<u8>)
    requires
        src.len() <= usize::MAX,
    ensures
        forall|k: int| 0 <= k < tokens_of(src).len() ==> lookahead_respected(src, #[trigger] tokens_of(src)[k]),
{
    lemma_scan_from_lookahead(src, 0, 0);
    let s = scan_from(src, 0, 0).tokens;
    let t = tokens_of(src);
    assert forall|k: int| 0 <= k < t.len() implies lookahead_respected(src, #[trigger] t[k]) by {
        if k < s.len() {
            assert(t[k] == s[k]);
        }
    }
}

proof fn lemma_newlines_split(src: Seq<u8>, i: nat, j: nat, k: nat)
    requires
        i <= j <= k <= src.len(),
    ensures
        newlines(src, i, k) == newlines(src, i, j) + newlines(src, j, k),
    decreases k - j,
{
    if k > j {
        lemma_newlines_split(src, i, j, (k - 1) as nat);
    }
}

proof fn lemma_newlines_bound(src: Seq<u8>, i: nat, j: nat)
    requires
        i <= j <= src.len(),
    ensures
        newlines(src, i, j) <= j - i,
    decreases j - i,
{
    if j > i {
        lemma_newlines_bound(src, i, (j - 1) as nat);
    }
}

/// No newline in `src[i..j]` when none of its bytes is one.
proof fn lemma_no_newlines(src: Seq<u8>, i: nat, j: nat)
    requires
        i <= j <= src.len(),
        forall|k: int| i <= k < j ==> src[k] != '\n' as u8,
    ensures
        newlines(src, i, j) == 0,
    decreases j - i,
{
    if j > i {
        lemma_no_newlines(src, i, (j - 1) as nat);
    }
}

/// Every byte of a run that `skip_while` crosses satisfies the predicate.
proof fn lemma_skip_while_run(src: Seq<u8>, i: nat, p: spec_fn(u8) -> bool)
    requires
        i <= src.len(),
    ensures
        forall|k: int| i <= k < skip_while(src, i, p) ==> p(#[trigger] src[k]),
    decreases src.len() - i,
{
    if i < src.len() && p(src[i as int]) {
        lemma_skip_while_run(src, i + 1, p);
    }
}

/// A token attempt moves the line counter by the number of newlines it
/// crosses.
proof fn lemma_step_line(src: Seq<u8>, pos: nat, line: nat)
    requires
        pos < src.len(),
    ensures
        step(src, pos, line).line == line + newlines(src, pos, step(src, pos, line).end),
{
    let s = step(src, pos, line);
    let c = src[pos as int];
    let next = pos + 1;
    lemma_step_advances(src, pos, line);
    if c == '\n' as u8 {
        assert(newlines(src, pos, pos) == 0);
        assert(newlines(src, pos, next) == 1);
    } else if c == '"' as u8 {
        let close = quote_end(src, next);
        lemma_skip_while_bounds(src, next, |b: u8| b != '"' as u8);
        lemma_no_newlines(src, pos, next);
        lemma_newlines_split(src, pos, next, close);
        if close < src.len() {
            lemma_no_newlines(src, close, close + 1);
            lemma_newlines_split(src, pos, close, close + 1);
        }
    } else if c == '/' as u8 && byte_at(src, next) == '/' as u8 {
        let e = line_end(src, next + 1);
        lemma_skip_while_bounds(src, next + 1, |b: u8| b != '\n' as u8);
        lemma_skip_while_run(src, next + 1, |b: u8| b != '\n' as u8);
        lemma_no_newlines(src, pos, e);
    } else if is_digit(c) && punctuation_kind(c) is None && operator_kinds(c) is None {
        let d = digits_end(src, next);
        lemma_skip_while_bounds(src, next, |b: u8| is_digit(b));
        lemma_skip_while_run(src, next, |b: u8| is_digit(b));
        if byte_at(src, d) == '.' as u8 && is_digit(byte_at(src, d + 1)) {
            lemma_skip_while_bounds(src, d + 1, |b: u8| is_digit(b));
            lemma_skip_while_run(src, d + 1, |b: u8| is_digit(b));
        }
        lemma_no_newlines(src, pos, s.end);
    } else if is_alpha(c) {
        lemma_skip_while_bounds(src, next, |b: u8| is_alpha_numeric(b));
        lemma_skip_while_run(src, next, |b: u8| is_alpha_numeric(b));
        lemma_no_newlines(src, pos, s.end);
    } else {
        lemma_no_newlines(src, pos, s.end);
    }
}

proof fn lemma_scan_from_lines(src: Seq<u8>, pos: nat, line: nat)
    requires
        pos <= src.len() <= usize::MAX,
        line <= pos,
    ensures
        scan_from(src, pos, line).line == line + newlines(src, pos, src.len()),
        forall|k: int|
            0 <= k < scan_from(src, pos, line).tokens.len() ==> #[trigger] scan_from(src, pos, line).tokens[k].line
                == line + newlines(src, pos, scan_from(src, pos, line).tokens[k].start as nat),
    decreases src.len() - pos,
{
    if pos < src.len() {
        let s = step(src, pos, line);
        lemma_step_advances(src, pos, line);
        lemma_step_line(src, pos, line);
        lemma_newlines_bound(src, pos, s.end);
        lemma_newlines_split(src, pos, s.end, src.len());
        if !s.stop {
            lemma_scan_from_lines(src, s.end, s.line);
            lemma_scan_from_spans(src, s.end, s.line);
            let rest = scan_from(src, s.end, s.line).tokens;
            let t = scan_from(src, pos, line).tokens;
            assert(t =~= token_seq(s.token) + rest);
            assert forall|k: int| 0 <= k < t.len() implies #[trigger] t[k].line == line + newlines(
                src,
                pos,
                t[k].start as nat,
            ) by {
                if s.token is Some && k == 0 {
                    assert(newlines(src, pos, pos) == 0);
                } else {
                    let r = if s.token is Some { k - 1 } else { k };
                    assert(t[k] == rest[r]);
                    lemma_newlines_split(src, pos, s.end, rest[r].start as nat);
                }
            }
        }
    } else {
        assert(newlines(src, pos, src.len()) == 0);
    }
}

/// Lines are counted by newlines: a token stands on the line given by the
/// number of newline bytes before its start, and the end-of-input marker on
/// the line given by the number of newline bytes in the whole buffer.
pub proof fn lemma_token_lines(src: Seq<u8>)
    requires
        src.len() <= usize::MAX,
    ensures
        forall|k: int|
            0 <= k < tokens_of(src).len() ==> #[trigger] tokens_of(src)[k].line == newlines(
                src,
                0,
                tokens_of(src)[k].start as nat,
            ),
{
    lemma_scan_from_lines(src, 0, 0);
    lemma_newlines_bound(src, 0, src.len());
    let s = scan_from(src, 0, 0).tokens;
    let t = tokens_of(src);
    assert forall|k: int| 0 <= k < t.len() implies #[trigger] t[k].line == newlines(src, 0, t[k].start as nat) by {
        if k < s.len() {
            assert(t[k] == s[k]);
        }
    }
}

/// The token sequence of any buffer ends with exactly one end-of-input
/// marker, whose span is empty and stands at the end of the buffer. Every
/// other token has a non-empty span inside the buffer, and the spans run
/// left to right without overlapping.
pub proof fn lemma_tokens_well_formed(src: Seq<u8>)
    requires
        src.len() <= usize::MAX,
    ensures
        ({
            let t = tokens_of(src);
            &&& t.len() >= 1
            &&& t.last().token_type == TokenType::Eof
            &&& t.last().start == src.len() && t.last().end == src.len()
            &&& forall|k: int|
                0 <= k < t.len() - 1 ==> {
                    &&& t[k].token_type != TokenType::Eof
                    &&& t[k].start < t[k].end <= src.len()
                }
            &&& forall|j: int, k: int| 0 <= j < k < t.len() - 1 ==> t[j].end <= t[k].start
        }),
{
    lemma_scan_from_spans(src, 0, 0);
    let s = scan_from(src, 0, 0).tokens;
    let t = tokens_of(src);
    assert forall|k: int| 0 <= k < t.len() - 1 implies t[k] == s[k] by {}
}

} // verus!
