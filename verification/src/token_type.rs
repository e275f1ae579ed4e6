use vstd::prelude::*;

verus! {

/// Token type for supported Markdown block elements.
#[derive(Debug, Clone, Copy, Hash, PartialEq, Eq, Structural)]
pub enum TokenType {
    /// Not defined yet.
    Unset,
    /// `#`, header marker.
    Hash,
    /// A space or a tab.
    Whitespace,
    /// A character that follows the escape marker; only the block and inline
    /// marker characters are escapable.
    EscapedChar,
    /// `*`, emphasis marker.
    Star,
    /// `_`.
    Underscore,
    /// `-`.
    Dash,
    /// `!`, image block marker.
    Bang,
    /// `[`.
    LBracket,
    /// `]`.
    RBracket,
    /// `(`.
    LParen,
    /// `)`.
    RParen,
    /// Any other text.
    Text,
    /// A line break: `\n`, `\r` or `\r\n`.
    Newline,
    /// End-of-input marker.
    Eof,
}

impl TokenType {
    /// The token type's display name: the variant's name, and `None` for
    /// `Unset`.
    pub fn name(&self) -> (r: &'static str)
        ensures
            r@ == self.spec_name(),
    {
        match self {
            TokenType::Unset => "None",
            TokenType::Hash => "Hash",
            TokenType::Whitespace => "Whitespace",
            TokenType::EscapedChar => "EscapedChar",
            TokenType::Star => "Star",
            TokenType::Underscore => "Underscore",
            TokenType::Dash => "Dash",
            TokenType::Bang => "Bang",
            TokenType::LBracket => "LBracket",
            TokenType::RBracket => "RBracket",
            TokenType::LParen => "LParen",
            TokenType::RParen => "RParen",
            TokenType::Text => "Text",
            TokenType::Newline => "Newline",
            TokenType::Eof => "Eof",
        }
    }

    /// The display name as a `String`.
    pub fn to_string(&self) -> (r: String)
        ensures
            r@ == self.spec_name(),
    {
        String::from_str(self.name())
    }

    pub open spec fn spec_name(&self) -> Seq<char> {
        match self {
            TokenType::Unset => "None"@,
            TokenType::Hash => "Hash"@,
            TokenType::Whitespace => "Whitespace"@,
            TokenType::EscapedChar => "EscapedChar"@,
            TokenType::Star => "Star"@,
            TokenType::Underscore => "Underscore"@,
            TokenType::Dash => "Dash"@,
            TokenType::Bang => "Bang"@,
            TokenType::LBracket => "LBracket"@,
            TokenType::RBracket => "RBracket"@,
            TokenType::LParen => "LParen"@,
            TokenType::RParen => "RParen"@,
            TokenType::Text => "Text"@,
            TokenType::Newline => "Newline"@,
            TokenType::Eof => "Eof"@,
        }
    }
}

impl Default for TokenType {
    fn default() -> (r: Self)
        ensures
            r == TokenType::Unset,
    {
        TokenType::Unset
    }
}

} // verus!
