//! The token model: lexical categories, tokens, and the keyword table.
use vstd::prelude::*;

verus! {

/// The lexical category of a token.
#[derive(Clone, Copy, Debug, PartialEq, Eq, Structural)]
pub enum TokenType {
    // Single-character tokens.
    LeftParen,
    RightParen,
    LeftBrace,
    RightBrace,
    Comma,
    Dot,
    Minus,
    Plus,
    Semicolon,
    Slash,
    Star,
    // One or two character tokens.
    Bang,
    BangEqual,
    Equal,
    EqualEqual,
    Greater,
    GreaterEqual,
    Less,
    LessEqual,
    // Literals. A string's content is its span without the quotes; a
    // number's text is its span.
    Identifier,
    String,
    Number,
    // Keywords.
    And,
    Class,
    Else,
    False,
    Fun,
    For,
    If,
    Nil,
    Or,
    Print,
    Return,
    Super,
    This,
    True,
    Var,
    While,
    // End of input.
    Eof,
}

/// A token: its category, the span `start..end` of the source buffer it was
/// read from, and the 0-based line on which it began.
#[derive(Clone, Copy, Debug, PartialEq, Eq, Structural)]
pub struct Token {
    pub token_type: TokenType,
    pub start: usize,
    pub end: usize,
    pub line: usize,
}

/// The bytes of an ASCII spelling.
pub open spec fn ascii(s: Seq<char>) -> Seq<u8> {
    s.map_values(|c: char| c as u8)
}

/// The keyword that `w` spells exactly, or `Identifier` if it spells none.
pub open spec fn keyword_kind(w: Seq<u8>) -> TokenType {
    if w == ascii(seq!['a', 'n', 'd']) {
        TokenType::And
    } else if w == ascii(seq!['c', 'l', 'a', 's', 's']) {
        TokenType::Class
    } else if w == ascii(seq!['e', 'l', 's', 'e']) {
        TokenType::Else
    } else if w == ascii(seq!['f', 'a', 'l', 's', 'e']) {
        TokenType::False
    } else if w == ascii(seq!['f', 'o', 'r']) {
        TokenType::For
    } else if w == ascii(seq!['f', 'u', 'n']) {
        TokenType::Fun
    } else if w == ascii(seq!['i', 'f']) {
        TokenType::If
    } else if w == ascii(seq!['n', 'i', 'l']) {
        TokenType::Nil
    } else if w == ascii(seq!['o', 'r']) {
        TokenType::Or
    } else if w == ascii(seq!['p', 'r', 'i', 'n', 't']) {
        TokenType::Print
    } else if w == ascii(seq!['r', 'e', 't', 'u', 'r', 'n']) {
        TokenType::Return
    } else if w == ascii(seq!['s', 'u', 'p', 'e', 'r']) {
        TokenType::Super
    } else if w == ascii(seq!['t', 'h', 'i', 's']) {
        TokenType::This
    } else if w == ascii(seq!['t', 'r', 'u', 'e']) {
        TokenType::True
    } else if w == ascii(seq!['v', 'a', 'r']) {
        TokenType::Var
    } else if w == ascii(seq!['w', 'h', 'i', 'l', 'e']) {
        TokenType::While
    } else {
        TokenType::Identifier
    }
}

/// A copy of `src[start..end]`.
fn copy_range(src: &[u8], start: usize, end: usize) -> (r: Vec<u8>)
    requires
        start <= end <= src@.len(),
    ensures
        r@ == src@.subrange(start as int, end as int),
{
    let mut r: Vec<u8> = Vec::new();
    let mut i: usize = start;
    while i < end
        invariant
            start <= i <= end <= src@.len(),
            r@ == src@.subrange(start as int, i as int),
        decreases end - i,
    {
        r.push(src[i]);
        i += 1;
        assert(r@ =~= src@.subrange(start as int, i as int));
    }
    r
}

impl Token {
    /// The bytes of this token's span in `source`, the buffer it was read
    /// from.
    pub fn lexeme(&self, source: &[u8]) -> (r: Vec<u8>)
        requires
            self.start <= self.end <= source@.len(),
        ensures
            r@ == source@.subrange(self.start as int, self.end as int),
    {
        copy_range(source, self.start, self.end)
    }

    /// The content of a string literal, the bytes strictly between its
    /// quotes; `None` for a token of any other category.
    pub fn string_content(&self, source: &[u8]) -> (r: Option<Vec<u8>>)
        requires
            self.start <= self.end <= source@.len(),
        ensures
            r is Some <==> (self.token_type == TokenType::String && self.end - self.start >= 2),
            r matches Some(v) ==> v@ == source@.subrange(self.start + 1, self.end - 1),
    {
        if self.token_type == TokenType::String && self.end - self.start >= 2 {
            Some(copy_range(source, self.start + 1, self.end - 1))
        } else {
            None
        }
    }
}

/// Whether `src[start..end]` spells `word` exactly.
fn spells(src: &[u8], start: usize, end: usize, word: &[char]) -> (r: bool)
    requires
        start <= end <= src@.len(),
        forall|j: int| 0 <= j < word@.len() ==> word@[j] <= '~',
    ensures
        r == (src@.subrange(start as int, end as int) == ascii(word@)),
{
    if end - start != word.len() {
        assert(ascii(word@).len() == word@.len());
        return false;
    }
    let mut i: usize = 0;
    while i < word.len()
        invariant
            start <= end <= src@.len(),
            end - start == word@.len(),
            i <= word@.len(),
            forall|j: int| 0 <= j < word@.len() ==> word@[j] <= '~',
            forall|j: int| 0 <= j < i ==> src@[start + j] == word@[j] as u8,
        decreases word@.len() - i,
    {
        if src[start + i] != word[i] as u8 {
            assert(src@.subrange(start as int, end as int)[i as int] != ascii(word@)[i as int]);
            return false;
        }
        i += 1;
    }
    assert(src@.subrange(start as int, end as int) =~= ascii(word@));
    true
}

/// Classifies the identifier-shaped span `src[start..end]`: the keyword it
/// spells, or `Identifier`.
pub fn keyword_or_identifier(src: &[u8], start: usize, end: usize) -> (r: TokenType)
    requires
        start <= end <= src@.len(),
    ensures
        r == keyword_kind(src@.subrange(start as int, end as int)),
{
    if spells(src, start, end, &['a', 'n', 'd']) {
        TokenType::And
    } else if spells(src, start, end, &['c', 'l', 'a', 's', 's']) {
        TokenType::Class
    } else if spells(src, start, end, &['e', 'l', 's', 'e']) {
        TokenType::Else
    } else if spells(src, start, end, &['f', 'a', 'l', 's', 'e']) {
        TokenType::False
    } else if spells(src, start, end, &['f', 'o', 'r']) {
        TokenType::For
    } else if spells(src, start, end, &['f', 'u', 'n']) {
        TokenType::Fun
    } else if spells(src, start, end, &['i', 'f']) {
        TokenType::If
    } else if spells(src, start, end, &['n', 'i', 'l']) {
        TokenType::Nil
    } else if spells(src, start, end, &['o', 'r']) {
        TokenType::Or
    } else if spells(src, start, end, &['p', 'r', 'i', 'n', 't']) {
        TokenType::Print
    } else if spells(src, start, end, &['r', 'e', 't', 'u', 'r', 'n']) {
        TokenType::Return
    } else if spells(src, start, end, &['s', 'u', 'p', 'e', 'r']) {
        TokenType::Super
    } else if spells(src, start, end, &['t', 'h', 'i', 's']) {
        TokenType::This
    } else if spells(src, start, end, &['t', 'r', 'u', 'e']) {
        TokenType::True
    } else if spells(src, start, end, &['v', 'a', 'r']) {
        TokenType::Var
    } else if spells(src, start, end, &['w', 'h', 'i', 'l', 'e']) {
        TokenType::While
    } else {
        TokenType::Identifier
    }
}

} // verus!
