//! The Markdown token.

use vstd::prelude::*;
use vstd::string::*;

use crate::token_type::TokenType;

verus! {

/// Token for supported Markdown block elements.
///
/// * Positions in the source text: `source_byte_start`, `source_byte_end`.
/// * Logical positions: the same, with escape markers left out.
#[derive(Debug, Clone, Hash, PartialEq, Eq)]
pub struct Token {
    token_type: TokenType,
    lexeme: String,
    source_byte_start: usize,
    source_byte_end: usize,
    logical_byte_start: usize,
    logical_byte_end: usize,
    line: usize,
}

/// The abstract value of a [`Token`].
pub struct TokenView {
    pub token_type: TokenType,
    pub lexeme: Seq<char>,
    pub source_byte_start: int,
    pub source_byte_end: int,
    pub logical_byte_start: int,
    pub logical_byte_end: int,
    pub line: int,
}

impl View for Token {
    type V = TokenView;

    closed spec fn view(&self) -> TokenView {
        TokenView {
            token_type: self.token_type,
            lexeme: self.lexeme@,
            source_byte_start: self.source_byte_start as int,
            source_byte_end: self.source_byte_end as int,
            logical_byte_start: self.logical_byte_start as int,
            logical_byte_end: self.logical_byte_end as int,
            line: self.line as int,
        }
    }
}

/// A token value whose positions all fit in `usize`.
pub open spec fn token_view_fits(t: TokenView) -> bool {
    &&& 0 <= t.source_byte_start <= usize::MAX
    &&& 0 <= t.source_byte_end <= usize::MAX
    &&& 0 <= t.logical_byte_start <= usize::MAX
    &&& 0 <= t.logical_byte_end <= usize::MAX
    &&& 0 <= t.line <= usize::MAX
}

impl Token {
    pub proof fn lemma_fits(&self)
        ensures
            token_view_fits(self@),
    {
    }

    pub fn new(
        token_type: TokenType,
        lexeme: String,
        source_byte_start: usize,
        source_byte_end: usize,
        logical_byte_start: usize,
        logical_byte_end: usize,
        line: usize,
    ) -> (r: Self)
        ensures
            r@ == (TokenView {
                token_type,
                lexeme: lexeme@,
                source_byte_start: source_byte_start as int,
                source_byte_end: source_byte_end as int,
                logical_byte_start: logical_byte_start as int,
                logical_byte_end: logical_byte_end as int,
                line: line as int,
            }),
    {
        Token {
            token_type,
            lexeme,
            source_byte_start,
            source_byte_end,
            logical_byte_start,
            logical_byte_end,
            line,
        }
    }

    pub fn token_type(&self) -> (r: TokenType)
        ensures
            r == self@.token_type,
    {
        self.token_type
    }

    pub fn lexeme(&self) -> (r: &str)
        ensures
            r@ == self@.lexeme,
    {
        self.lexeme.as_str()
    }

    pub fn source_byte_start(&self) -> (r: usize)
        ensures
            r as int == self@.source_byte_start,
    {
        self.source_byte_start
    }

    pub fn source_byte_end(&self) -> (r: usize)
        ensures
            r as int == self@.source_byte_end,
    {
        self.source_byte_end
    }

    pub fn logical_byte_start(&self) -> (r: usize)
        ensures
            r as int == self@.logical_byte_start,
    {
        self.logical_byte_start
    }

    pub fn logical_byte_end(&self) -> (r: usize)
        ensures
            r as int == self@.logical_byte_end,
    {
        self.logical_byte_end
    }

    pub fn line(&self) -> (r: usize)
        ensures
            r as int == self@.line,
    {
        self.line
    }

    /// Appends `s` to the lexeme; positions are unchanged.
    pub fn push_to_lexeme(&mut self, s: &str)
        ensures
            final(self)@ == (TokenView { lexeme: old(self)@.lexeme + s@, ..old(self)@ }),
    {
        self.lexeme.append(s);
    }

    /// Moves both end positions forward.
    pub fn inc_byte_ends(&mut self, source_count: usize, logical_count: usize)
        requires
            old(self)@.source_byte_end + source_count <= usize::MAX,
            old(self)@.logical_byte_end + logical_count <= usize::MAX,
        ensures
            final(self)@ == (TokenView {
                source_byte_end: old(self)@.source_byte_end + source_count,
                logical_byte_end: old(self)@.logical_byte_end + logical_count,
                ..old(self)@
            }),
    {
        self.source_byte_end = self.source_byte_end + source_count;
        self.logical_byte_end = self.logical_byte_end + logical_count;
    }
}

} // verus!
