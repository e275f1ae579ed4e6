//! The Markdown scanner: turns source text into [`Token`]s.
//!
//! Every source character is consumed once, left to right. Escape markers
//! (`\` before a marker character) are consumed but left out of the token
//! text and of the logical byte positions. Adjacent text is merged into a
//! single `Text` token.

use vstd::prelude::*;
use vstd::string::*;

use crate::chars::{
    char_len_utf8, char_width, chars_of, lemma_char_width_bounds, lemma_utf8_len_concat,
    lemma_utf8_len_nonneg, lemma_utf8_len_prefix, lemma_utf8_len_push, lemma_utf8_len_single,
    push_char, utf8_len,
};
use crate::parser::base::{lexemes_between, positions_ok};
use crate::token::{Token, TokenView};
use crate::token_type::TokenType;

verus! {

broadcast use vstd::seq::group_seq_axioms;

/// The scanner's position: next character index, end byte positions
/// (source and logical) and the current line.
pub struct ScanCursor {
    pub pos: int,
    pub sbe: int,
    pub lbe: int,
    pub line: int,
}

pub open spec fn initial_cursor() -> ScanCursor {
    ScanCursor { pos: 0, sbe: 0, lbe: 0, line: 1 }
}

/// Characters that an escape marker turns into an `EscapedChar`.
pub open spec fn spec_is_escapable(c: char) -> bool {
    c == '#' || c == '*' || c == '_' || c == '!' || c == '[' || c == ']' || c == '('
        || c == ')' || c == '\r' || c == '\n' || c == '\\'
}

/// Characters that end a run of text.
pub open spec fn ends_text(c: char) -> bool {
    spec_is_escapable(c) || c == ' ' || c == '\t'
}

/// The token type of a character that forms a token on its own.
pub open spec fn single_char_type(c: char) -> Option<TokenType> {
    if c == '#' {
        Some(TokenType::Hash)
    } else if c == '*' {
        Some(TokenType::Star)
    } else if c == '_' {
        Some(TokenType::Underscore)
    } else if c == '-' {
        Some(TokenType::Dash)
    } else if c == '!' {
        Some(TokenType::Bang)
    } else if c == '[' {
        Some(TokenType::LBracket)
    } else if c == ']' {
        Some(TokenType::RBracket)
    } else if c == '(' {
        Some(TokenType::LParen)
    } else if c == ')' {
        Some(TokenType::RParen)
    } else if c == ' ' || c == '\t' {
        Some(TokenType::Whitespace)
    } else {
        None
    }
}

/// Index of the first character at or after `i` that ends a run of text.
pub open spec fn text_end(src: Seq<char>, i: int) -> int
    decreases src.len() - i,
{
    if i < 0 || i >= src.len() || ends_text(src[i]) {
        i
    } else {
        text_end(src, i + 1)
    }
}

pub open spec fn views(s: Seq<Token>) -> Seq<TokenView> {
    s.map_values(|t: Token| t@)
}

pub open spec fn new_token(
    ty: TokenType,
    lex: Seq<char>,
    sbs: int,
    sbe: int,
    lbs: int,
    lbe: int,
    line: int,
) -> TokenView {
    TokenView {
        token_type: ty,
        lexeme: lex,
        source_byte_start: sbs,
        source_byte_end: sbe,
        logical_byte_start: lbs,
        logical_byte_end: lbe,
        line,
    }
}

/// Whether a `Text` lexeme joins the last token instead of starting a new one.
pub open spec fn merges(toks: Seq<TokenView>, ty: TokenType) -> bool {
    ty == TokenType::Text && toks.len() > 0 && toks.last().token_type == TokenType::Text
}

/// Adds a token: text that follows a `Text` token is appended to it, and
/// both its end positions move by the lexeme's byte length.
pub open spec fn add_token(
    toks: Seq<TokenView>,
    ty: TokenType,
    lex: Seq<char>,
    sbs: int,
    sbe: int,
    lbs: int,
    lbe: int,
    line: int,
) -> Seq<TokenView> {
    if merges(toks, ty) {
        let last = toks.last();
        toks.update(
            toks.len() - 1,
            TokenView {
                lexeme: last.lexeme + lex,
                source_byte_end: last.source_byte_end + utf8_len(lex),
                logical_byte_end: last.logical_byte_end + utf8_len(lex),
                ..last
            },
        )
    } else {
        toks.push(new_token(ty, lex, sbs, sbe, lbs, lbe, line))
    }
}

/// One scanning step from cursor `c` (which must be before the end).
pub open spec fn scan_step(src: Seq<char>, c: ScanCursor, toks: Seq<TokenView>) -> (
    ScanCursor,
    Seq<TokenView>,
) {
    let ch = src[c.pos];
    let w = char_width(ch);
    if single_char_type(ch) is Some {
        (
            ScanCursor { pos: c.pos + 1, sbe: c.sbe + w, lbe: c.lbe + w, line: c.line },
            add_token(
                toks,
                single_char_type(ch)->0,
                seq![ch],
                c.sbe,
                c.sbe + w,
                c.lbe,
                c.lbe + w,
                c.line,
            ),
        )
    } else if ch == '\n' {
        (
            ScanCursor { pos: c.pos + 1, sbe: c.sbe + 1, lbe: c.lbe + 1, line: c.line + 1 },
            add_token(
                toks,
                TokenType::Newline,
                seq!['\n'],
                c.sbe,
                c.sbe + 1,
                c.lbe,
                c.lbe + 1,
                c.line + 1,
            ),
        )
    } else if ch == '\r' {
        if c.pos + 1 < src.len() && src[c.pos + 1] == '\n' {
            (
                ScanCursor { pos: c.pos + 2, sbe: c.sbe + 2, lbe: c.lbe + 2, line: c.line + 1 },
                add_token(
                    toks,
                    TokenType::Newline,
                    seq!['\r', '\n'],
                    c.sbe,
                    c.sbe + 2,
                    c.lbe,
                    c.lbe + 2,
                    c.line,
                ),
            )
        } else {
            (
                ScanCursor { pos: c.pos + 1, sbe: c.sbe + 1, lbe: c.lbe + 1, line: c.line + 1 },
                add_token(
                    toks,
                    TokenType::Newline,
                    seq!['\r'],
                    c.sbe,
                    c.sbe + 1,
                    c.lbe,
                    c.lbe + 1,
                    c.line,
                ),
            )
        }
    } else if ch == '\\' {
        if c.pos + 1 >= src.len() {
            // A trailing escape marker is dropped.
            (ScanCursor { pos: c.pos + 1, ..c }, toks)
        } else {
            let e = src[c.pos + 1];
            let we = char_width(e);
            if spec_is_escapable(e) {
                (
                    ScanCursor {
                        pos: c.pos + 2,
                        sbe: c.sbe + 1 + we,
                        lbe: c.lbe + we,
                        line: c.line,
                    },
                    add_token(
                        toks,
                        TokenType::EscapedChar,
                        seq![e],
                        c.sbe + 1,
                        c.sbe + 1 + we,
                        c.lbe,
                        c.lbe + we,
                        c.line,
                    ),
                )
            } else {
                (
                    ScanCursor {
                        pos: c.pos + 2,
                        sbe: c.sbe + 1 + we,
                        lbe: c.lbe + 1 + we,
                        line: c.line,
                    },
                    add_token(
                        toks,
                        TokenType::Text,
                        seq!['\\', e],
                        c.sbe,
                        c.sbe + 1 + we,
                        c.lbe,
                        c.lbe + 1 + we,
                        c.line,
                    ),
                )
            }
        }
    } else {
        let e = text_end(src, c.pos);
        let lex = src.subrange(c.pos, e);
        let n = utf8_len(lex);
        (
            ScanCursor { pos: e, sbe: c.sbe + n, lbe: c.lbe + n, line: c.line },
            add_token(toks, TokenType::Text, lex, c.sbe, c.sbe + n, c.lbe, c.lbe + n, c.line),
        )
    }
}

/// An escape marker `\` before one of `#`, `*`, `_`, `!`, `[`, `]`, `(`,
/// `)`, a line break (`\n` or `\r`) or `\` scans to one `EscapedChar`
/// token whose lexeme is that character alone: the marker reaches no
/// lexeme, and the two characters are consumed. Before any other character
/// the marker is kept: it and the character end a `Text` lexeme.
pub proof fn lemma_escape_marker(src: Seq<char>, c: ScanCursor, toks: Seq<TokenView>)
    requires
        0 <= c.pos,
        c.pos + 1 < src.len(),
        src[c.pos] == '\\',
    ensures
        ({
            let e = src[c.pos + 1];
            let (c2, t2) = scan_step(src, c, toks);
            &&& c2.pos == c.pos + 2
            &&& (e == '#' || e == '*' || e == '_' || e == '!' || e == '[' || e == ']' || e == '(' || e == ')'
                || e == '\n' || e == '\r' || e == '\\') ==> {
                &&& t2.len() == toks.len() + 1
                &&& t2.drop_last() == toks
                &&& t2.last().token_type == TokenType::EscapedChar
                &&& t2.last().lexeme == seq![e]
            }
            &&& !(e == '#' || e == '*' || e == '_' || e == '!' || e == '[' || e == ']' || e == '(' || e == ')'
                || e == '\n' || e == '\r' || e == '\\') ==> {
                &&& t2.len() > 0
                &&& t2.last().token_type == TokenType::Text
                &&& t2.last().lexeme.len() >= 2
                &&& t2.last().lexeme.subrange(t2.last().lexeme.len() - 2, t2.last().lexeme.len() as int)
                    == seq!['\\', e]
            }
        }),
{
    let e = src[c.pos + 1];
    let (c2, t2) = scan_step(src, c, toks);
    if !spec_is_escapable(e) {
        let lex = seq!['\\', e];
        if merges(toks, TokenType::Text) {
            let l = toks.last().lexeme + lex;
            assert(l.subrange(l.len() - 2, l.len() as int) =~= lex);
        } else {
            assert(lex.subrange(0, 2) =~= lex);
        }
    } else {
        assert(t2.drop_last() =~= toks);
    }
}

/// Each of `#`, `*`, `_`, `-`, `!`, `[`, `]`, `(`, `)`, space and tab
/// scans to a token of its own (of type `Hash`, `Star`, `Underscore`,
/// `Dash`, `Bang`, `LBracket`, `RBracket`, `LParen` and `RParen`, and
/// `Whitespace` for space and tab) whose lexeme is that character; a line
/// break (`\n`, `\r` or `\r\n`) scans to one `Newline` token and starts the
/// next line. Any other character but `\` starts or extends a `Text` token,
/// which takes the characters up to the next of `#`, `*`, `_`, `!`, `[`,
/// `]`, `(`, `)`, a line break, `\`, space or tab.
pub proof fn lemma_single_char_tokens(src: Seq<char>, c: ScanCursor, toks: Seq<TokenView>)
    requires
        0 <= c.pos < src.len(),
    ensures
        ({
            let ch = src[c.pos];
            let (c2, t2) = scan_step(src, c, toks);
            let single = ch == '#' || ch == '*' || ch == '_' || ch == '-' || ch == '!' || ch == '['
                || ch == ']' || ch == '(' || ch == ')' || ch == ' ' || ch == '\t';
            &&& single ==> {
                &&& c2.pos == c.pos + 1
                &&& c2.line == c.line
                &&& t2.len() == toks.len() + 1
                &&& t2.drop_last() == toks
                &&& t2.last().lexeme == seq![ch]
                &&& t2.last().line == c.line
            }
            &&& ch == '#' ==> t2.last().token_type == TokenType::Hash
            &&& ch == '*' ==> t2.last().token_type == TokenType::Star
            &&& ch == '_' ==> t2.last().token_type == TokenType::Underscore
            &&& ch == '-' ==> t2.last().token_type == TokenType::Dash
            &&& ch == '!' ==> t2.last().token_type == TokenType::Bang
            &&& ch == '[' ==> t2.last().token_type == TokenType::LBracket
            &&& ch == ']' ==> t2.last().token_type == TokenType::RBracket
            &&& ch == '(' ==> t2.last().token_type == TokenType::LParen
            &&& ch == ')' ==> t2.last().token_type == TokenType::RParen
            &&& (ch == ' ' || ch == '\t') ==> t2.last().token_type == TokenType::Whitespace
            &&& (ch == '\n' || ch == '\r') ==> {
                &&& t2.len() == toks.len() + 1
                &&& t2.drop_last() == toks
                &&& t2.last().token_type == TokenType::Newline
                &&& c2.line == c.line + 1
                &&& ch == '\n' ==> t2.last().lexeme == seq!['\n'] && c2.pos == c.pos + 1
                &&& (ch == '\r' && c.pos + 1 < src.len() && src[c.pos + 1] == '\n') ==> t2.last().lexeme
                    == seq!['\r', '\n'] && c2.pos == c.pos + 2
                &&& (ch == '\r' && !(c.pos + 1 < src.len() && src[c.pos + 1] == '\n')) ==> t2.last().lexeme
                    == seq!['\r'] && c2.pos == c.pos + 1
            }
            &&& !(single || ch == '\n' || ch == '\r' || ch == '\\') ==> {
                &&& c2.pos > c.pos
                &&& t2.len() > 0
                &&& t2.last().token_type == TokenType::Text
                &&& c2.line == c.line
                &&& c2.pos <= src.len()
                &&& t2.last().lexeme.len() >= c2.pos - c.pos
                &&& t2.last().lexeme.subrange(t2.last().lexeme.len() - (c2.pos - c.pos), t2.last().lexeme.len() as int)
                    == src.subrange(c.pos, c2.pos)
                &&& forall|k: int| c.pos <= k < c2.pos ==> {
                    let d = #[trigger] src[k];
                    !(d == '#' || d == '*' || d == '_' || d == '!' || d == '[' || d == ']' || d == '(' || d == ')'
                        || d == '\n' || d == '\r' || d == '\\' || d == ' ' || d == '\t')
                }
                &&& c2.pos < src.len() ==> {
                    let d = src[c2.pos];
                    d == '#' || d == '*' || d == '_' || d == '!' || d == '[' || d == ']' || d == '(' || d == ')'
                        || d == '\n' || d == '\r' || d == '\\' || d == ' ' || d == '\t'
                }
            }
        }),
{
    let (c2, t2) = scan_step(src, c, toks);
    let ch = src[c.pos];
    if single_char_type(ch) is Some || ch == '\n' || ch == '\r' {
        assert(t2.drop_last() =~= toks);
    } else if ch != '\\' {
        lemma_text_end(src, c.pos);
        let e = text_end(src, c.pos);
        let lex = src.subrange(c.pos, e);
        if merges(toks, TokenType::Text) {
            let l = toks.last().lexeme + lex;
            assert(l.subrange(l.len() - (e - c.pos), l.len() as int) =~= lex);
        } else {
            assert(lex.subrange(0, e - c.pos) =~= lex);
        }
    }
}

/// Scans the rest of `src` from cursor `c`, adding to `toks`.
pub open spec fn scan_from(src: Seq<char>, c: ScanCursor, toks: Seq<TokenView>) -> (
    ScanCursor,
    Seq<TokenView>,
)
    decreases src.len() - c.pos,
{
    if c.pos < 0 || c.pos >= src.len() {
        (c, toks)
    } else {
        let (c2, t2) = scan_step(src, c, toks);
        if c.pos < c2.pos <= src.len() {
            scan_from(src, c2, t2)
        } else {
            (c, toks)
        }
    }
}

pub open spec fn eof_token(c: ScanCursor) -> TokenView {
    new_token(TokenType::Eof, Seq::empty(), c.sbe, c.sbe, c.lbe, c.lbe, c.line)
}

/// The tokens of a whole source text, ending with `Eof`.
pub open spec fn scanned_tokens(src: Seq<char>) -> Seq<TokenView> {
    let (c, toks) = scan_from(src, initial_cursor(), Seq::empty());
    toks.push(eof_token(c))
}

/// What the scanner keeps true between steps.
pub open spec fn cursor_inv(src: Seq<char>, c: ScanCursor, toks: Seq<TokenView>) -> bool {
    &&& 0 <= c.pos <= src.len()
    &&& 0 <= c.lbe <= c.sbe <= utf8_len(src.take(c.pos))
    &&& 1 <= c.line <= c.pos + 1
    &&& (toks.len() > 0 && toks.last().token_type == TokenType::Text) ==> (
    toks.last().source_byte_end == c.sbe && toks.last().logical_byte_end == c.lbe)
}

pub proof fn lemma_text_end(src: Seq<char>, i: int)
    requires
        0 <= i <= src.len(),
    ensures
        i <= text_end(src, i) <= src.len(),
        forall|k: int| i <= k < text_end(src, i) ==> !ends_text(#[trigger] src[k]),
        text_end(src, i) < src.len() ==> ends_text(src[text_end(src, i)]),
    decreases src.len() - i,
{
    if i < src.len() && !ends_text(src[i]) {
        lemma_text_end(src, i + 1);
    }
}

pub proof fn lemma_take_push(src: Seq<char>, p: int)
    requires
        0 <= p < src.len(),
    ensures
        utf8_len(src.take(p + 1)) == utf8_len(src.take(p)) + char_width(src[p]),
{
    assert(src.take(p + 1) =~= src.take(p).push(src[p]));
    lemma_utf8_len_push(src.take(p), src[p]);
}

pub proof fn lemma_take_add(src: Seq<char>, p: int, q: int)
    requires
        0 <= p <= q <= src.len(),
    ensures
        utf8_len(src.take(q)) == utf8_len(src.take(p)) + utf8_len(src.subrange(p, q)),
{
    assert(src.take(q) =~= src.take(p) + src.subrange(p, q));
    lemma_utf8_len_concat(src.take(p), src.subrange(p, q));
}

/// A scanning step keeps the cursor invariant and moves forward.
pub proof fn lemma_step_inv(src: Seq<char>, c: ScanCursor, toks: Seq<TokenView>)
    requires
        cursor_inv(src, c, toks),
        c.pos < src.len(),
    ensures
        ({
            let (c2, t2) = scan_step(src, c, toks);
            &&& cursor_inv(src, c2, t2)
            &&& c.pos < c2.pos <= src.len()
        }),
{
    let ch = src[c.pos];
    lemma_char_width_bounds(ch);
    lemma_take_push(src, c.pos);
    if single_char_type(ch) is Some {
    } else if ch == '\n' {
    } else if ch == '\r' {
        if c.pos + 1 < src.len() && src[c.pos + 1] == '\n' {
            lemma_take_push(src, c.pos + 1);
        }
    } else if ch == '\\' {
        if c.pos + 1 < src.len() {
            lemma_take_push(src, c.pos + 1);
            lemma_char_width_bounds(src[c.pos + 1]);
            let e = src[c.pos + 1];
            if !spec_is_escapable(e) {
                let lex = seq!['\\', e];
                assert(lex.drop_last() =~= seq!['\\']);
                lemma_utf8_len_single('\\');
                lemma_utf8_len_push(seq!['\\'], e);
                assert(seq!['\\'].push(e) =~= lex);
            }
        }
    } else {
        lemma_text_end(src, c.pos);
        lemma_take_add(src, c.pos, text_end(src, c.pos));
        let e = text_end(src, c.pos);
        assert(!ends_text(src[c.pos]));
        lemma_utf8_len_nonneg(src.subrange(c.pos, e));
    }
}

/// Scanning from a cursor that satisfies the invariant ends at the end of the
/// source, with the invariant still true.
pub proof fn lemma_scan_from_inv(src: Seq<char>, c: ScanCursor, toks: Seq<TokenView>)
    requires
        cursor_inv(src, c, toks),
    ensures
        ({
            let (c2, t2) = scan_from(src, c, toks);
            &&& cursor_inv(src, c2, t2)
            &&& c2.pos == src.len()
        }),
    decreases src.len() - c.pos,
{
    if c.pos < src.len() {
        lemma_step_inv(src, c, toks);
        let (c2, t2) = scan_step(src, c, toks);
        lemma_scan_from_inv(src, c2, t2);
    }
}

// ---------------------------------------------------------------------
// What scanning guarantees of its tokens.

/// The source text as the tokens spell it: each escape marker that stands
/// before an escapable character is left out, and so is a final lone
/// marker; every other character stays, in order.
pub open spec fn strip_escapes(src: Seq<char>, i: int) -> Seq<char>
    decreases src.len() - i,
{
    if i < 0 || i >= src.len() {
        Seq::empty()
    } else if src[i] == '\\' {
        if i + 1 >= src.len() {
            Seq::empty()
        } else if spec_is_escapable(src[i + 1]) {
            seq![src[i + 1]] + strip_escapes(src, i + 2)
        } else {
            seq![src[i], src[i + 1]] + strip_escapes(src, i + 2)
        }
    } else {
        seq![src[i]] + strip_escapes(src, i + 1)
    }
}

/// The lexemes of all tokens, joined.
pub open spec fn all_lexemes(t: Seq<TokenView>) -> Seq<char> {
    lexemes_between(t, 0, t.len() as int)
}

/// No token is `Eof`.
pub open spec fn no_eof(t: Seq<TokenView>) -> bool {
    forall|i: int| 0 <= i < t.len() ==> #[trigger] t[i].token_type != TokenType::Eof
}

/// Tokens `i` and `i + 1` are both `Text`.
pub open spec fn text_pair(t: Seq<TokenView>, i: int) -> bool {
    t[i].token_type == TokenType::Text && t[i + 1].token_type == TokenType::Text
}

/// No two `Text` tokens stand next to each other.
pub open spec fn no_adjacent_text(t: Seq<TokenView>) -> bool {
    forall|i: int| 0 <= i < t.len() - 1 ==> !#[trigger] text_pair(t, i)
}

/// Well positioned, and every token ends by logical byte `b`.
pub open spec fn positioned_before(t: Seq<TokenView>, b: int) -> bool {
    &&& positions_ok(t)
    &&& forall|i: int| 0 <= i < t.len() ==> #[trigger] t[i].logical_byte_end <= b
}

proof fn lemma_lexemes_prefix(t1: Seq<TokenView>, t2: Seq<TokenView>, m: int)
    requires
        0 <= m <= t1.len(),
        m <= t2.len(),
        forall|k: int| 0 <= k < m ==> t1[k] == t2[k],
    ensures
        lexemes_between(t1, 0, m) == lexemes_between(t2, 0, m),
    decreases m,
{
    if m > 0 {
        lemma_lexemes_prefix(t1, t2, m - 1);
    }
}

/// Adding a token keeps the scanner's guarantees, and adds its lexeme to
/// the joined text.
proof fn lemma_add_token(
    toks: Seq<TokenView>,
    ty: TokenType,
    lex: Seq<char>,
    sbs: int,
    sbe: int,
    lbs: int,
    lbe: int,
    line: int,
    b: int,
    b2: int,
)
    requires
        ty != TokenType::Eof,
        no_eof(toks),
        no_adjacent_text(toks),
        positioned_before(toks, b),
        0 <= b,
        merges(toks, ty) ==> toks.last().logical_byte_end == b && b + utf8_len(lex) == b2 && utf8_len(lex) >= 0,
        !merges(toks, ty) ==> b <= lbs <= lbe <= b2,
        !merges(toks, ty) && ty == TokenType::Star ==> lbe - lbs >= 1,
    ensures
        ({
            let t2 = add_token(toks, ty, lex, sbs, sbe, lbs, lbe, line);
            &&& no_eof(t2)
            &&& no_adjacent_text(t2)
            &&& positioned_before(t2, b2)
            &&& all_lexemes(t2) == all_lexemes(toks) + lex
        }),
{
    let t2 = add_token(toks, ty, lex, sbs, sbe, lbs, lbe, line);
    let n = toks.len();
    if merges(toks, ty) {
        let last = toks.last();
        assert(t2[n - 1].token_type == TokenType::Text);
        assert forall|i: int| 0 <= i < t2.len() implies #[trigger] t2[i].token_type != TokenType::Eof by {
            if i < n - 1 {
                assert(t2[i] == toks[i]);
            }
        }
        assert forall|i: int| 0 <= i < t2.len() - 1 implies !#[trigger] text_pair(t2, i) by {
            assert(t2[i] == toks[i]);
            assert(t2[i + 1].token_type == toks[i + 1].token_type);
            assert(!text_pair(toks, i));
        }
        assert forall|i: int| 0 <= i < t2.len() implies 0 <= #[trigger] t2[i].logical_byte_start <= t2[i].logical_byte_end by {
            if i < n - 1 {
                assert(t2[i] == toks[i]);
            } else {
                assert(toks[n - 1].logical_byte_start <= toks[n - 1].logical_byte_end);
            }
        }
        assert forall|i: int, j: int| 0 <= i < j < t2.len() implies #[trigger] t2[i].logical_byte_end <= #[trigger] t2[j].logical_byte_start by {
            assert(t2[i] == toks[i]);
            assert(t2[j].logical_byte_start == toks[j].logical_byte_start);
        }
        assert forall|i: int| 0 <= i < t2.len() && t2[i].token_type == TokenType::Star implies #[trigger] t2[i].logical_byte_end
            - t2[i].logical_byte_start >= 1 by {
            assert(t2[i] == toks[i]);
        }
        assert forall|i: int| 0 <= i < t2.len() implies #[trigger] t2[i].logical_byte_end <= b2 by {
            if i < n - 1 {
                assert(t2[i] == toks[i]);
            }
        }
        lemma_lexemes_prefix(toks, t2, n - 1);
        assert(all_lexemes(toks) == lexemes_between(toks, 0, n - 1) + last.lexeme);
        assert(all_lexemes(t2) == lexemes_between(t2, 0, n - 1) + (last.lexeme + lex));
    } else {
        assert forall|i: int| 0 <= i < t2.len() implies #[trigger] t2[i].token_type != TokenType::Eof by {
            if i < n {
                assert(t2[i] == toks[i]);
            }
        }
        assert forall|i: int| 0 <= i < t2.len() - 1 implies !#[trigger] text_pair(t2, i) by {
            assert(t2[i] == toks[i]);
            if i + 1 < n {
                assert(t2[i + 1] == toks[i + 1]);
                assert(!text_pair(toks, i));
            }
        }
        assert forall|i: int| 0 <= i < t2.len() implies 0 <= #[trigger] t2[i].logical_byte_start <= t2[i].logical_byte_end by {
            if i < n {
                assert(t2[i] == toks[i]);
            }
        }
        assert forall|i: int, j: int| 0 <= i < j < t2.len() implies #[trigger] t2[i].logical_byte_end <= #[trigger] t2[j].logical_byte_start by {
            assert(t2[i] == toks[i]);
            if j < n {
                assert(t2[j] == toks[j]);
            }
        }
        assert forall|i: int| 0 <= i < t2.len() && t2[i].token_type == TokenType::Star implies #[trigger] t2[i].logical_byte_end
            - t2[i].logical_byte_start >= 1 by {
            if i < n {
                assert(t2[i] == toks[i]);
            }
        }
        assert forall|i: int| 0 <= i < t2.len() implies #[trigger] t2[i].logical_byte_end <= b2 by {
            if i < n {
                assert(t2[i] == toks[i]);
            }
        }
        lemma_lexemes_prefix(toks, t2, n as int);
    }
}

/// A run of text holds no escape marker, so it stays as it is.
proof fn lemma_strip_text(src: Seq<char>, i: int, e: int)
    requires
        0 <= i <= e <= src.len(),
        forall|k: int| i <= k < e ==> !ends_text(#[trigger] src[k]),
    ensures
        strip_escapes(src, i) == src.subrange(i, e) + strip_escapes(src, e),
    decreases e - i,
{
    if i < e {
        lemma_strip_text(src, i + 1, e);
        assert(!ends_text(src[i]));
        assert(src.subrange(i, e) =~= seq![src[i]] + src.subrange(i + 1, e));
    } else {
        assert(src.subrange(i, e) =~= Seq::<char>::empty());
    }
}

/// What the scanner keeps true of its tokens between steps.
pub open spec fn tokens_inv(src: Seq<char>, c: ScanCursor, toks: Seq<TokenView>) -> bool {
    &&& no_eof(toks)
    &&& no_adjacent_text(toks)
    &&& positioned_before(toks, c.lbe)
    &&& all_lexemes(toks) + strip_escapes(src, c.pos) == strip_escapes(src, 0)
}

proof fn lemma_step_tokens(src: Seq<char>, c: ScanCursor, toks: Seq<TokenView>)
    requires
        cursor_inv(src, c, toks),
        tokens_inv(src, c, toks),
        c.pos < src.len(),
    ensures
        ({
            let (c2, t2) = scan_step(src, c, toks);
            tokens_inv(src, c2, t2)
        }),
{
    let ch = src[c.pos];
    let w = char_width(ch);
    lemma_char_width_bounds(ch);
    let (c2, t2) = scan_step(src, c, toks);
    if single_char_type(ch) is Some {
        lemma_add_token(toks, single_char_type(ch)->0, seq![ch], c.sbe, c.sbe + w, c.lbe, c.lbe + w, c.line, c.lbe, c2.lbe);
        assert(strip_escapes(src, c.pos) == seq![ch] + strip_escapes(src, c.pos + 1));
    } else if ch == '\n' {
        lemma_add_token(toks, TokenType::Newline, seq!['\n'], c.sbe, c.sbe + 1, c.lbe, c.lbe + 1, c.line + 1, c.lbe, c2.lbe);
        assert(strip_escapes(src, c.pos) == seq![ch] + strip_escapes(src, c.pos + 1));
    } else if ch == '\r' {
        if c.pos + 1 < src.len() && src[c.pos + 1] == '\n' {
            lemma_add_token(toks, TokenType::Newline, seq!['\r', '\n'], c.sbe, c.sbe + 2, c.lbe, c.lbe + 2, c.line, c.lbe, c2.lbe);
            assert(strip_escapes(src, c.pos + 1) == seq!['\n'] + strip_escapes(src, c.pos + 2));
            assert(seq!['\r'] + (seq!['\n'] + strip_escapes(src, c.pos + 2)) =~= seq!['\r', '\n'] + strip_escapes(src, c.pos + 2));
        } else {
            lemma_add_token(toks, TokenType::Newline, seq!['\r'], c.sbe, c.sbe + 1, c.lbe, c.lbe + 1, c.line, c.lbe, c2.lbe);
        }
    } else if ch == '\\' {
        if c.pos + 1 < src.len() {
            let e = src[c.pos + 1];
            let we = char_width(e);
            lemma_char_width_bounds(e);
            if spec_is_escapable(e) {
                lemma_add_token(toks, TokenType::EscapedChar, seq![e], c.sbe + 1, c.sbe + 1 + we, c.lbe, c.lbe + we, c.line, c.lbe, c2.lbe);
            } else {
                let lex = seq!['\\', e];
                assert(lex.drop_last() =~= seq!['\\']);
                lemma_utf8_len_single('\\');
                lemma_utf8_len_push(seq!['\\'], e);
                assert(seq!['\\'].push(e) =~= lex);
                lemma_add_token(toks, TokenType::Text, lex, c.sbe, c.sbe + 1 + we, c.lbe, c.lbe + 1 + we, c.line, c.lbe, c2.lbe);
                assert(seq![src[c.pos], src[c.pos + 1]] == lex);
            }
        }
    } else {
        lemma_text_end(src, c.pos);
        let e = text_end(src, c.pos);
        let lex = src.subrange(c.pos, e);
        lemma_utf8_len_nonneg(lex);
        lemma_add_token(toks, TokenType::Text, lex, c.sbe, c.sbe + utf8_len(lex), c.lbe, c.lbe + utf8_len(lex), c.line, c.lbe, c2.lbe);
        lemma_strip_text(src, c.pos, e);
    }
    assert(all_lexemes(t2) + strip_escapes(src, c2.pos) =~= all_lexemes(toks) + strip_escapes(src, c.pos));
}

proof fn lemma_scan_from_tokens(src: Seq<char>, c: ScanCursor, toks: Seq<TokenView>)
    requires
        cursor_inv(src, c, toks),
        tokens_inv(src, c, toks),
    ensures
        ({
            let (c2, t2) = scan_from(src, c, toks);
            &&& tokens_inv(src, c2, t2)
            &&& cursor_inv(src, c2, t2)
            &&& c2.pos == src.len()
        }),
    decreases src.len() - c.pos,
{
    if c.pos < src.len() {
        lemma_step_inv(src, c, toks);
        lemma_step_tokens(src, c, toks);
        let (c2, t2) = scan_step(src, c, toks);
        lemma_scan_from_tokens(src, c2, t2);
    } else {
        lemma_scan_from_inv(src, c, toks);
    }
}

/// The scanner's tokens of a whole source text: the last is `Eof` and no
/// other is; no two `Text` tokens stand next to each other (adjacent text
/// is merged); their logical positions never go backwards and every `*`
/// takes at least a byte (what the parser needs); and their lexemes,
/// joined, give back the source without its escape markers.
pub proof fn lemma_scanned_tokens(src: Seq<char>)
    ensures
        ({
            let t = scanned_tokens(src);
            &&& t.len() >= 1
            &&& t.last().token_type == TokenType::Eof
            &&& forall|i: int| 0 <= i < t.len() - 1 ==> #[trigger] t[i].token_type != TokenType::Eof
            &&& no_adjacent_text(t)
            &&& positions_ok(t)
            &&& all_lexemes(t) == strip_escapes(src, 0)
        }),
{
    let c0 = initial_cursor();
    let e = Seq::<TokenView>::empty();
    lemma_utf8_len_nonneg(src.take(0));
    assert(all_lexemes(e) =~= Seq::<char>::empty());
    assert(all_lexemes(e) + strip_escapes(src, 0) =~= strip_escapes(src, 0));
    lemma_scan_from_tokens(src, c0, e);
    let (c, toks) = scan_from(src, c0, e);
    let t = toks.push(eof_token(c));
    let n = toks.len();
    assert forall|i: int| 0 <= i < t.len() - 1 implies #[trigger] t[i].token_type != TokenType::Eof by {
        assert(t[i] == toks[i]);
    }
    assert forall|i: int| 0 <= i < t.len() - 1 implies !#[trigger] text_pair(t, i) by {
        assert(t[i] == toks[i]);
        if i + 1 < n {
            assert(t[i + 1] == toks[i + 1]);
            assert(!text_pair(toks, i));
        }
    }
    assert forall|i: int| 0 <= i < t.len() implies 0 <= #[trigger] t[i].logical_byte_start <= t[i].logical_byte_end by {
        if i < n {
            assert(t[i] == toks[i]);
        }
    }
    assert forall|i: int, j: int| 0 <= i < j < t.len() implies #[trigger] t[i].logical_byte_end <= #[trigger] t[j].logical_byte_start by {
        assert(t[i] == toks[i]);
        if j < n {
            assert(t[j] == toks[j]);
        }
    }
    assert forall|i: int| 0 <= i < t.len() && t[i].token_type == TokenType::Star implies #[trigger] t[i].logical_byte_end
        - t[i].logical_byte_start >= 1 by {
        assert(t[i] == toks[i]);
    }
    lemma_lexemes_prefix(toks, t, n as int);
    assert(strip_escapes(src, c.pos) =~= Seq::<char>::empty());
    assert(all_lexemes(t) =~= all_lexemes(toks));
}

/// The source text that token `t` was scanned from: an escaped character
/// gets its escape marker back.
pub open spec fn source_text(t: TokenView) -> Seq<char> {
    if t.token_type == TokenType::EscapedChar {
        seq!['\\'] + t.lexeme
    } else {
        t.lexeme
    }
}

/// The source texts of tokens `0..n`, joined.
pub open spec fn rebuilt(t: Seq<TokenView>, n: int) -> Seq<char>
    decreases n,
{
    if n <= 0 {
        Seq::empty()
    } else {
        rebuilt(t, n - 1) + source_text(t[n - 1])
    }
}

/// Token `i` starts where token `i - 1` ends (the first at 0): on the
/// logical positions, and on the source positions but for the escape
/// marker before an escaped character; and both its ranges take as many
/// bytes as its lexeme.
pub open spec fn tiles_at(t: Seq<TokenView>, i: int) -> bool {
    let lp = if i == 0 {
        0
    } else {
        t[i - 1].logical_byte_end
    };
    let sp = if i == 0 {
        0
    } else {
        t[i - 1].source_byte_end
    };
    &&& t[i].logical_byte_start == lp
    &&& t[i].source_byte_start == sp + if t[i].token_type == TokenType::EscapedChar {
        1int
    } else {
        0int
    }
    &&& t[i].logical_byte_end - t[i].logical_byte_start == utf8_len(t[i].lexeme)
    &&& t[i].source_byte_end - t[i].source_byte_start == utf8_len(t[i].lexeme)
}

/// Every token tiles, and the last ends at `lend` (logical) and `send`
/// (source), or both are 0 when there is none.
pub open spec fn tiled(t: Seq<TokenView>, lend: int, send: int) -> bool {
    &&& forall|i: int| 0 <= i < t.len() ==> #[trigger] tiles_at(t, i)
    &&& lend == if t.len() == 0 {
        0
    } else {
        t.last().logical_byte_end
    }
    &&& send == if t.len() == 0 {
        0
    } else {
        t.last().source_byte_end
    }
}

/// The tokens so far rebuild the source scanned so far (but a final lone
/// escape marker) and tile it.
/// The number of escape markers (`\\` characters) right before position `p`.
pub open spec fn trailing_backslashes(s: Seq<char>, p: int) -> int
    decreases p,
{
    if 0 < p <= s.len() && s[p - 1] == '\\' {
        trailing_backslashes(s, p - 1) + 1
    } else {
        0
    }
}

pub open spec fn rebuild_inv(src: Seq<char>, c: ScanCursor, toks: Seq<TokenView>) -> bool {
    &&& tiled(toks, c.lbe, c.sbe)
    &&& ((rebuilt(toks, toks.len() as int) == src.take(c.pos) && trailing_backslashes(src, c.pos) % 2 == 0)
        || (c.pos == src.len() && trailing_backslashes(src, c.pos) % 2 == 1 && rebuilt(
        toks,
        toks.len() as int,
    ) == src.take(c.pos - 1)))
}

proof fn lemma_rebuilt_prefix(t1: Seq<TokenView>, t2: Seq<TokenView>, m: int)
    requires
        0 <= m <= t1.len(),
        m <= t2.len(),
        forall|k: int| 0 <= k < m ==> t1[k] == t2[k],
    ensures
        rebuilt(t1, m) == rebuilt(t2, m),
    decreases m,
{
    if m > 0 {
        lemma_rebuilt_prefix(t1, t2, m - 1);
    }
}

proof fn lemma_add_token_tiled(
    toks: Seq<TokenView>,
    ty: TokenType,
    lex: Seq<char>,
    sbs: int,
    sbe: int,
    lbs: int,
    lbe: int,
    line: int,
    lend: int,
    send: int,
)
    requires
        tiled(toks, lend, send),
        !merges(toks, ty) ==> {
            &&& lbs == lend
            &&& sbs == send + if ty == TokenType::EscapedChar {
                1int
            } else {
                0int
            }
            &&& lbe - lbs == utf8_len(lex)
            &&& sbe - sbs == utf8_len(lex)
        },
    ensures
        ({
            let t2 = add_token(toks, ty, lex, sbs, sbe, lbs, lbe, line);
            let esc = if ty == TokenType::EscapedChar {
                1int
            } else {
                0int
            };
            &&& tiled(t2, lend + utf8_len(lex), send + esc + utf8_len(lex))
            &&& rebuilt(t2, t2.len() as int) == rebuilt(toks, toks.len() as int) + if ty
                == TokenType::EscapedChar {
                seq!['\\'] + lex
            } else {
                lex
            }
        }),
{
    let t2 = add_token(toks, ty, lex, sbs, sbe, lbs, lbe, line);
    let n = toks.len() as int;
    if merges(toks, ty) {
        let last = toks.last();
        lemma_utf8_len_concat(last.lexeme, lex);
        assert(tiles_at(toks, n - 1));
        assert forall|i: int| 0 <= i < t2.len() implies #[trigger] tiles_at(t2, i) by {
            assert(tiles_at(toks, i));
            if i < n - 1 {
                assert(t2[i] == toks[i]);
            }
            if i > 0 {
                assert(t2[i - 1] == toks[i - 1]);
            }
        }
        lemma_rebuilt_prefix(toks, t2, n - 1);
        assert(rebuilt(t2, n) == rebuilt(t2, n - 1) + (last.lexeme + lex));
        assert(rebuilt(toks, n) == rebuilt(toks, n - 1) + last.lexeme);
        assert(rebuilt(t2, n) =~= rebuilt(toks, n) + lex);
    } else {
        assert forall|i: int| 0 <= i < t2.len() implies #[trigger] tiles_at(t2, i) by {
            if i < n {
                assert(tiles_at(toks, i));
                assert(t2[i] == toks[i]);
                if i > 0 {
                    assert(t2[i - 1] == toks[i - 1]);
                }
            } else if i > 0 {
                assert(t2[i - 1] == toks[i - 1]);
            }
        }
        lemma_rebuilt_prefix(toks, t2, n);
    }
}

proof fn lemma_step_rebuild(src: Seq<char>, c: ScanCursor, toks: Seq<TokenView>)
    requires
        cursor_inv(src, c, toks),
        rebuild_inv(src, c, toks),
        c.pos < src.len(),
    ensures
        ({
            let (c2, t2) = scan_step(src, c, toks);
            rebuild_inv(src, c2, t2)
        }),
{
    let ch = src[c.pos];
    let w = char_width(ch);
    lemma_char_width_bounds(ch);
    lemma_utf8_len_single(ch);
    let (c2, t2) = scan_step(src, c, toks);
    let p = c.pos;
    assert(rebuilt(toks, toks.len() as int) == src.take(p));
    assert(src.take(p + 1) =~= src.take(p) + seq![ch]);
    assert(ch != '\\' ==> trailing_backslashes(src, p + 1) == 0);
    assert(ch == '\\' ==> trailing_backslashes(src, p + 1) == trailing_backslashes(src, p) + 1);
    if single_char_type(ch) is Some {
        lemma_add_token_tiled(toks, single_char_type(ch)->0, seq![ch], c.sbe, c.sbe + w, c.lbe, c.lbe + w, c.line, c.lbe, c.sbe);
    } else if ch == '\n' {
        lemma_add_token_tiled(toks, TokenType::Newline, seq!['\n'], c.sbe, c.sbe + 1, c.lbe, c.lbe + 1, c.line + 1, c.lbe, c.sbe);
    } else if ch == '\r' {
        if c.pos + 1 < src.len() && src[c.pos + 1] == '\n' {
            lemma_utf8_len_push(seq!['\r'], '\n');
            assert(seq!['\r'].push('\n') =~= seq!['\r', '\n']);
            assert(seq!['\r'].drop_last() =~= Seq::<char>::empty());
            lemma_add_token_tiled(toks, TokenType::Newline, seq!['\r', '\n'], c.sbe, c.sbe + 2, c.lbe, c.lbe + 2, c.line, c.lbe, c.sbe);
            assert(src.take(p + 2) =~= src.take(p) + seq!['\r', '\n']);
            assert(trailing_backslashes(src, p + 2) == 0);
        } else {
            lemma_add_token_tiled(toks, TokenType::Newline, seq!['\r'], c.sbe, c.sbe + 1, c.lbe, c.lbe + 1, c.line, c.lbe, c.sbe);
        }
    } else if ch == '\\' {
        if c.pos + 1 < src.len() {
            let e = src[c.pos + 1];
            let we = char_width(e);
            lemma_char_width_bounds(e);
            lemma_utf8_len_single(e);
            assert(src.take(p + 2) =~= src.take(p) + seq!['\\', e]);
            assert(e != '\\' ==> trailing_backslashes(src, p + 2) == 0);
            assert(e == '\\' ==> trailing_backslashes(src, p + 2) == trailing_backslashes(src, p) + 2);
            if spec_is_escapable(e) {
                lemma_add_token_tiled(toks, TokenType::EscapedChar, seq![e], c.sbe + 1, c.sbe + 1 + we, c.lbe, c.lbe + we, c.line, c.lbe, c.sbe);
                assert(seq!['\\'] + seq![e] =~= seq!['\\', e]);
            } else {
                let lex = seq!['\\', e];
                assert(lex.drop_last() =~= seq!['\\']);
                lemma_utf8_len_single('\\');
                lemma_utf8_len_push(seq!['\\'], e);
                assert(seq!['\\'].push(e) =~= lex);
                lemma_add_token_tiled(toks, TokenType::Text, lex, c.sbe, c.sbe + 1 + we, c.lbe, c.lbe + 1 + we, c.line, c.lbe, c.sbe);
            }
        } else {
            assert(src.last() == '\\');
        }
    } else {
        lemma_text_end(src, c.pos);
        let e = text_end(src, c.pos);
        let lex = src.subrange(c.pos, e);
        lemma_add_token_tiled(toks, TokenType::Text, lex, c.sbe, c.sbe + utf8_len(lex), c.lbe, c.lbe + utf8_len(lex), c.line, c.lbe, c.sbe);
        assert(src.take(e) =~= src.take(p) + lex);
        assert(!ends_text(src[e - 1]));
        assert(trailing_backslashes(src, e) == 0);
    }
}

proof fn lemma_scan_from_rebuild(src: Seq<char>, c: ScanCursor, toks: Seq<TokenView>)
    requires
        cursor_inv(src, c, toks),
        rebuild_inv(src, c, toks),
    ensures
        ({
            let (c2, t2) = scan_from(src, c, toks);
            &&& rebuild_inv(src, c2, t2)
            &&& c2.pos == src.len()
        }),
    decreases src.len() - c.pos,
{
    if c.pos < src.len() {
        lemma_step_inv(src, c, toks);
        lemma_step_rebuild(src, c, toks);
        let (c2, t2) = scan_step(src, c, toks);
        lemma_scan_from_rebuild(src, c2, t2);
    } else {
        lemma_scan_from_inv(src, c, toks);
    }
}

/// The scanner's tokens of a whole source text tile it: the first starts
/// at 0, each starts where the one before ends (on the source positions,
/// one byte later for an escaped character, whose escape marker no token
/// holds), and each spans its lexeme's bytes. Putting the escape marker
/// back before each escaped character and joining the lexemes gives the
/// source back exactly when it ends in an even number of escape markers
/// (none counts); after an odd number the last one, which escapes nothing,
/// is dropped.
pub proof fn lemma_scanned_rebuild(src: Seq<char>)
    ensures
        ({
            let t = scanned_tokens(src);
            &&& forall|i: int| 0 <= i < t.len() ==> #[trigger] tiles_at(t, i)
            &&& trailing_backslashes(src, src.len() as int) % 2 == 0 ==> rebuilt(t, t.len() as int) == src
            &&& trailing_backslashes(src, src.len() as int) % 2 == 1 ==> rebuilt(t, t.len() as int)
                == src.drop_last()
        }),
{
    let c0 = initial_cursor();
    let e = Seq::<TokenView>::empty();
    lemma_utf8_len_nonneg(src.take(0));
    assert(src.take(0) =~= Seq::<char>::empty());
    lemma_scan_from_rebuild(src, c0, e);
    let (c, toks) = scan_from(src, c0, e);
    lemma_scan_from_inv(src, c0, e);
    let t = toks.push(eof_token(c));
    let n = toks.len() as int;
    assert forall|i: int| 0 <= i < t.len() implies #[trigger] tiles_at(t, i) by {
        if i < n {
            assert(tiles_at(toks, i));
            assert(t[i] == toks[i]);
            if i > 0 {
                assert(t[i - 1] == toks[i - 1]);
            }
        } else {
            assert(utf8_len(Seq::<char>::empty()) == 0);
            if i > 0 {
                assert(t[i - 1] == toks[i - 1]);
            }
        }
    }
    lemma_rebuilt_prefix(toks, t, n);
    assert(source_text(t[n]) =~= Seq::<char>::empty());
    assert(rebuilt(t, n + 1) =~= rebuilt(toks, n));
    assert(src.take(src.len() as int) =~= src);
    assert(src.take(src.len() - 1) =~= src.drop_last());
}

pub type ScanResult<T> = Result<T, String>;

/// Scans Markdown source text into tokens.
pub struct Scanner<'a> {
    source: &'a str,
    chars: Vec<char>,
    pos: usize,
    source_byte_start: usize,
    source_byte_end: usize,
    logical_byte_start: usize,
    logical_byte_end: usize,
    line: usize,
}

impl<'a> Scanner<'a> {
    /// The characters of the source text.
    pub closed spec fn src(&self) -> Seq<char> {
        self.chars@
    }

    /// Where scanning stands.
    pub closed spec fn cursor(&self) -> ScanCursor {
        ScanCursor {
            pos: self.pos as int,
            sbe: self.source_byte_end as int,
            lbe: self.logical_byte_end as int,
            line: self.line as int,
        }
    }

    /// The state every scanning step starts from.
    spec fn step_ready(&self, toks: Seq<TokenView>) -> bool {
        &&& utf8_len(self.chars@) < usize::MAX
        &&& cursor_inv(self.chars@, self.cursor(), toks)
        &&& self.source_byte_start == self.source_byte_end
        &&& self.logical_byte_start == self.logical_byte_end
        &&& self.pos < self.chars@.len()
        &&& self.chars@.len() <= utf8_len(self.chars@)
    }

    pub fn new(source: &'a str) -> (r: Self)
        ensures
            r.src() == source@,
            r.cursor() == initial_cursor(),
    {
        Scanner {
            source: source,
            chars: chars_of(source),
            pos: 0,
            source_byte_start: 0,
            source_byte_end: 0,
            logical_byte_start: 0,
            logical_byte_end: 0,
            line: 1,
        }
    }

    fn set_byte_starts(&mut self, source_count: usize, logical_count: usize)
        ensures
            final(self).source_byte_start == source_count,
            final(self).logical_byte_start == logical_count,
            final(self).cursor() == old(self).cursor(),
            final(self).chars == old(self).chars,
            final(self).source == old(self).source,
    {
        self.source_byte_start = source_count;
        self.logical_byte_start = logical_count;
    }

    fn inc_byte_ends(&mut self, c: char, include_logical: bool)
        requires
            old(self).source_byte_end + char_width(c) <= usize::MAX,
            old(self).logical_byte_end + char_width(c) <= usize::MAX,
        ensures
            final(self).source_byte_end == old(self).source_byte_end + char_width(c),
            final(self).logical_byte_end == if include_logical {
                old(self).logical_byte_end + char_width(c)
            } else {
                old(self).logical_byte_end as int
            },
            final(self).pos == old(self).pos,
            final(self).line == old(self).line,
            final(self).source_byte_start == old(self).source_byte_start,
            final(self).logical_byte_start == old(self).logical_byte_start,
            final(self).chars == old(self).chars,
            final(self).source == old(self).source,
    {
        let w = char_len_utf8(c);
        self.source_byte_end = self.source_byte_end + w;
        if include_logical {
            self.logical_byte_end = self.logical_byte_end + w;
        }
    }

    fn inc_line(&mut self)
        requires
            old(self).line < usize::MAX,
        ensures
            final(self).line == old(self).line + 1,
            final(self).pos == old(self).pos,
            final(self).source_byte_end == old(self).source_byte_end,
            final(self).logical_byte_end == old(self).logical_byte_end,
            final(self).source_byte_start == old(self).source_byte_start,
            final(self).logical_byte_start == old(self).logical_byte_start,
            final(self).chars == old(self).chars,
            final(self).source == old(self).source,
    {
        self.line = self.line + 1;
    }

    /// Adds a token with the given lexeme at the current start and end
    /// positions (merging text into a preceding `Text` token).
    fn add_token_with_lexeme(&self, token_vector: &mut Vec<Token>, lexeme: String, lexeme_bytes: usize, token_type: TokenType)
        requires
            lexeme_bytes == utf8_len(lexeme@),
            merges(views(old(token_vector)@), token_type) ==> {
                &&& views(old(token_vector)@).last().source_byte_end + lexeme_bytes <= usize::MAX
                &&& views(old(token_vector)@).last().logical_byte_end + lexeme_bytes <= usize::MAX
            },
        ensures
            views(final(token_vector)@) == add_token(
                views(old(token_vector)@),
                token_type,
                lexeme@,
                self.source_byte_start as int,
                self.source_byte_end as int,
                self.logical_byte_start as int,
                self.logical_byte_end as int,
                self.line as int,
            ),
    {
        let ghost old_views = views(token_vector@);
        if token_type == TokenType::Text && token_vector.len() > 0 {
            let mut last = token_vector.pop().unwrap();
            if last.token_type() == TokenType::Text {
                last.push_to_lexeme(lexeme.as_str());
                last.inc_byte_ends(lexeme_bytes, lexeme_bytes);
                token_vector.push(last);
                assert(views(token_vector@) =~= add_token(
                    old_views,
                    token_type,
                    lexeme@,
                    self.source_byte_start as int,
                    self.source_byte_end as int,
                    self.logical_byte_start as int,
                    self.logical_byte_end as int,
                    self.line as int,
                ));
                return;
            }
            token_vector.push(last);
            assert(views(token_vector@) =~= old_views);
        }
        let t = Token::new(
            token_type,
            lexeme,
            self.source_byte_start,
            self.source_byte_end,
            self.logical_byte_start,
            self.logical_byte_end,
            self.line,
        );
        token_vector.push(t);
        assert(views(token_vector@) =~= old_views.push(t@));
    }

    /// The characters from index `from` up to the current position, with
    /// their byte count.
    fn lexeme_from(&self, from: usize) -> (r: (String, usize))
        requires
            from <= self.pos <= self.chars@.len(),
            utf8_len(self.chars@) <= usize::MAX,
        ensures
            r.0@ == self.chars@.subrange(from as int, self.pos as int),
            r.1 as int == utf8_len(self.chars@.subrange(from as int, self.pos as int)),
    {
        let mut s = String::new();
        let mut n: usize = 0;
        let mut i = from;
        proof {
            lemma_take_add(self.chars@, from as int, self.pos as int);
            lemma_utf8_len_prefix(self.chars@, self.pos as int);
            lemma_utf8_len_nonneg(self.chars@.take(from as int));
        }
        while i < self.pos
            invariant
                from <= i <= self.pos <= self.chars@.len(),
                s@ == self.chars@.subrange(from as int, i as int),
                n as int == utf8_len(self.chars@.subrange(from as int, i as int)),
                utf8_len(self.chars@.subrange(from as int, self.pos as int)) <= usize::MAX,
            decreases self.pos - i,
        {
            let c = self.chars[i];
            proof {
                let sub = self.chars@.subrange(from as int, i as int);
                assert(self.chars@.subrange(from as int, i + 1) =~= sub.push(c));
                lemma_utf8_len_push(sub, c);
                lemma_take_add(self.chars@.subrange(from as int, self.pos as int), i - from, i + 1 - from);
                assert(self.chars@.subrange(from as int, self.pos as int).take(i + 1 - from) =~= self.chars@.subrange(from as int, i + 1));
                lemma_utf8_len_prefix(self.chars@.subrange(from as int, self.pos as int), i + 1 - from);
            }
            push_char(&mut s, c);
            n = n + char_len_utf8(c);
            i = i + 1;
        }
        (s, n)
    }

    fn is_escapable(&self, c: char) -> (r: bool)
        ensures
            r == spec_is_escapable(c),
    {
        c == '#' || c == '*' || c == '_' || c == '!' || c == '[' || c == ']' || c == '('
            || c == ')' || c == '\r' || c == '\n' || c == '\\'
    }

    /// Adds a token whose lexeme is the characters from index `from` up to the
    /// current position.
    fn add_token(&self, token_vector: &mut Vec<Token>, token_type: TokenType, from: usize)
        requires
            from <= self.pos <= self.chars@.len(),
            utf8_len(self.chars@) <= usize::MAX,
            merges(views(old(token_vector)@), token_type) ==> {
                &&& views(old(token_vector)@).last().source_byte_end + utf8_len(
                    self.chars@.subrange(from as int, self.pos as int),
                ) <= usize::MAX
                &&& views(old(token_vector)@).last().logical_byte_end + utf8_len(
                    self.chars@.subrange(from as int, self.pos as int),
                ) <= usize::MAX
            },
        ensures
            views(final(token_vector)@) == add_token(
                views(old(token_vector)@),
                token_type,
                self.chars@.subrange(from as int, self.pos as int),
                self.source_byte_start as int,
                self.source_byte_end as int,
                self.logical_byte_start as int,
                self.logical_byte_end as int,
                self.line as int,
            ),
    {
        let (lex, n) = self.lexeme_from(from);
        self.add_token_with_lexeme(token_vector, lex, n, token_type);
    }

    /// Collects literal text up to the next marker, space or tab.
    fn text(&mut self, token_vector: &mut Vec<Token>) -> (r: ScanResult<()>)
        requires
            old(self).step_ready(views(old(token_vector)@)),
            !ends_text(old(self).chars@[old(self).pos as int]),
            single_char_type(old(self).chars@[old(self).pos as int]) is None,
        ensures
            r is Ok,
            final(self).chars == old(self).chars,
            (final(self).cursor(), views(final(token_vector)@)) == scan_step(
                old(self).chars@,
                old(self).cursor(),
                views(old(token_vector)@),
            ),
    {
        let ghost src = self.chars@;
        let ghost start = self.pos as int;
        let ghost sbe0 = self.source_byte_end as int;
        let ghost lbe0 = self.logical_byte_end as int;
        let from = self.pos;
        proof {
            lemma_text_end(src, start);
            lemma_take_add(src, start, text_end(src, start));
            lemma_utf8_len_prefix(src, text_end(src, start));
            lemma_utf8_len_nonneg(src.take(start));
        }
        while self.pos < self.chars.len() && !ends_text_exec(self.chars[self.pos])
            invariant
                self.chars == old(self).chars,
                self.chars@ == src,
                src.len() <= utf8_len(src) < usize::MAX,
                start <= self.pos <= text_end(src, start) <= src.len(),
                text_end(src, self.pos as int) == text_end(src, start),
                self.source_byte_end == sbe0 + utf8_len(src.subrange(start, self.pos as int)),
                self.logical_byte_end == lbe0 + utf8_len(src.subrange(start, self.pos as int)),
                self.source_byte_start == old(self).source_byte_start,
                self.logical_byte_start == old(self).logical_byte_start,
                self.line == old(self).line,
                from == start,
                sbe0 + utf8_len(src.subrange(start, text_end(src, start))) <= usize::MAX,
                lbe0 <= sbe0,
            decreases src.len() - self.pos,
        {
            let c = self.chars[self.pos];
            proof {
                let p = self.pos as int;
                lemma_text_end(src, p + 1);
                assert(src.subrange(start, p + 1) =~= src.subrange(start, p).push(c));
                lemma_utf8_len_push(src.subrange(start, p), c);
                lemma_take_add(src.subrange(start, text_end(src, start)), p - start, p + 1 - start);
                assert(src.subrange(start, text_end(src, start)).take(p + 1 - start) =~= src.subrange(start, p + 1));
                lemma_utf8_len_prefix(src.subrange(start, text_end(src, start)), p + 1 - start);
            }
            self.inc_byte_ends(c, true);
            self.pos = self.pos + 1;
        }
        self.add_token(token_vector, TokenType::Text, from);
        Ok(())
    }

    /// Consumes `\r`, and a `\n` right after it, as one newline.
    fn consume_newline(&mut self, token_vector: &mut Vec<Token>) -> (r: ScanResult<()>)
        requires
            old(self).step_ready(views(old(token_vector)@)),
            old(self).chars@[old(self).pos as int] == '\r',
        ensures
            r is Ok,
            final(self).chars == old(self).chars,
            (final(self).cursor(), views(final(token_vector)@)) == scan_step(
                old(self).chars@,
                old(self).cursor(),
                views(old(token_vector)@),
            ),
    {
        let ghost src = self.chars@;
        let from = self.pos;
        proof {
            lemma_take_push(src, self.pos as int);
            lemma_utf8_len_prefix(src, self.pos + 1);
            if self.pos + 1 < src.len() {
                lemma_take_push(src, self.pos + 1);
                lemma_utf8_len_prefix(src, self.pos + 2);
            }
        }
        self.inc_byte_ends('\r', true);
        self.pos = self.pos + 1;
        if self.pos < self.chars.len() && self.chars[self.pos] == '\n' {
            self.inc_byte_ends('\n', true);
            self.pos = self.pos + 1;
            assert(src.subrange(from as int, self.pos as int) =~= seq!['\r', '\n']);
        } else {
            assert(src.subrange(from as int, self.pos as int) =~= seq!['\r']);
        }
        self.add_token(token_vector, TokenType::Newline, from);
        self.inc_line();
        Ok(())
    }

    /// Handles the escape marker `\` and the character after it.
    fn escape(&mut self, token_vector: &mut Vec<Token>) -> (r: ScanResult<()>)
        requires
            old(self).step_ready(views(old(token_vector)@)),
            old(self).chars@[old(self).pos as int] == '\\',
        ensures
            r is Ok,
            final(self).chars == old(self).chars,
            (final(self).cursor(), views(final(token_vector)@)) == scan_step(
                old(self).chars@,
                old(self).cursor(),
                views(old(token_vector)@),
            ),
    {
        let ghost src = self.chars@;
        proof {
            lemma_take_push(src, self.pos as int);
            lemma_utf8_len_prefix(src, self.pos + 1);
            if self.pos + 1 < src.len() {
                lemma_take_push(src, self.pos + 1);
                lemma_utf8_len_prefix(src, self.pos + 2);
                lemma_char_width_bounds(src[self.pos + 1]);
            }
        }
        self.pos = self.pos + 1;
        if self.pos < self.chars.len() {
            let ch = self.chars[self.pos];
            self.pos = self.pos + 1;
            if self.is_escapable(ch) {
                self.inc_byte_ends('\\', false);
                self.set_byte_starts(self.source_byte_end, self.logical_byte_end);
                self.inc_byte_ends(ch, true);
                let from = self.pos - 1;
                assert(src.subrange(from as int, self.pos as int) =~= seq![ch]);
                self.add_token(token_vector, TokenType::EscapedChar, from);
            } else {
                let ghost last_ok = views(token_vector@);
                self.set_byte_starts(self.source_byte_end, self.logical_byte_end);
                self.inc_byte_ends('\\', true);
                self.inc_byte_ends(ch, true);
                let mut lex = String::new();
                push_char(&mut lex, '\\');
                push_char(&mut lex, ch);
                let n = 1 + char_len_utf8(ch);
                proof {
                    assert(seq!['\\', ch].drop_last() =~= seq!['\\']);
                    lemma_utf8_len_single('\\');
                    lemma_utf8_len_push(seq!['\\'], ch);
                    assert(seq!['\\'].push(ch) =~= seq!['\\', ch]);
                    assert(lex@ =~= seq!['\\', ch]);
                }
                self.add_token_with_lexeme(token_vector, lex, n, TokenType::Text);
            }
        }
        Ok(())
    }

    /// Adds a one-character token for the current character and moves past it.
    fn manage_adding_token(&mut self, token_vector: &mut Vec<Token>, token_char: char, token_type: TokenType)
        requires
            old(self).chars@.len() <= utf8_len(old(self).chars@) < usize::MAX,
            cursor_inv(old(self).chars@, old(self).cursor(), views(old(token_vector)@))
                || token_char == '\n',
            old(self).pos < old(self).chars@.len(),
            old(self).chars@[old(self).pos as int] == token_char,
            old(self).source_byte_start == old(self).source_byte_end,
            old(self).logical_byte_start == old(self).logical_byte_end,
            old(self).logical_byte_end <= old(self).source_byte_end <= utf8_len(old(self).chars@.take(old(self).pos as int)),
            token_type != TokenType::Text,
        ensures
            final(self).chars == old(self).chars,
            final(self).cursor() == (ScanCursor {
                pos: old(self).pos + 1,
                sbe: old(self).source_byte_end + char_width(token_char),
                lbe: old(self).logical_byte_end + char_width(token_char),
                line: old(self).line as int,
            }),
            views(final(token_vector)@) == views(old(token_vector)@).push(new_token(
                token_type,
                seq![token_char],
                old(self).source_byte_end as int,
                old(self).source_byte_end + char_width(token_char),
                old(self).logical_byte_end as int,
                old(self).logical_byte_end + char_width(token_char),
                old(self).line as int,
            )),
    {
        let ghost src = self.chars@;
        proof {
            lemma_take_push(src, self.pos as int);
            lemma_utf8_len_prefix(src, self.pos + 1);
        }
        let from = self.pos;
        self.inc_byte_ends(token_char, true);
        self.pos = self.pos + 1;
        assert(src.subrange(from as int, self.pos as int) =~= seq![token_char]);
        self.add_token(token_vector, token_type, from);
    }

    /// Scans one token (or one escape) at the current position.
    fn scan_token(&mut self, token_vector: &mut Vec<Token>) -> (r: ScanResult<()>)
        requires
            old(self).step_ready(views(old(token_vector)@)),
        ensures
            r is Ok,
            final(self).chars == old(self).chars,
            (final(self).cursor(), views(final(token_vector)@)) == scan_step(
                old(self).chars@,
                old(self).cursor(),
                views(old(token_vector)@),
            ),
    {
        let c: char = self.chars[self.pos];
        proof {
            lemma_take_push(self.chars@, self.pos as int);
            lemma_utf8_len_prefix(self.chars@, self.pos + 1);
        }
        match c {
            '#' => self.manage_adding_token(token_vector, c, TokenType::Hash),
            '*' => self.manage_adding_token(token_vector, c, TokenType::Star),
            '_' => self.manage_adding_token(token_vector, c, TokenType::Underscore),
            '-' => self.manage_adding_token(token_vector, c, TokenType::Dash),
            '!' => self.manage_adding_token(token_vector, c, TokenType::Bang),
            '[' => self.manage_adding_token(token_vector, c, TokenType::LBracket),
            ']' => self.manage_adding_token(token_vector, c, TokenType::RBracket),
            '(' => self.manage_adding_token(token_vector, c, TokenType::LParen),
            ')' => self.manage_adding_token(token_vector, c, TokenType::RParen),
            '\r' => self.consume_newline(token_vector)?,
            '\n' => {
                self.inc_line();
                self.manage_adding_token(token_vector, c, TokenType::Newline);
            },
            '\\' => self.escape(token_vector)?,
            ' ' | '\t' => self.manage_adding_token(token_vector, c, TokenType::Whitespace),
            _ => self.text(token_vector)?,
        }
        Ok(())
    }

    /// Scans the rest of the source text into tokens, ending with an `Eof`
    /// token. Fails with "Source text is empty." when nothing is left to scan.
    pub fn scan_tokens(&mut self) -> (r: ScanResult<Vec<Token>>)
        requires
            utf8_len(old(self).src()) < usize::MAX,
            cursor_inv(old(self).src(), old(self).cursor(), Seq::empty()),
        ensures
            final(self).src() == old(self).src(),
            old(self).cursor().pos >= old(self).src().len() ==> {
                &&& r matches Err(e) && e@ == "Source text is empty."@
                &&& final(self).cursor() == old(self).cursor()
            },
            old(self).cursor().pos < old(self).src().len() ==> {
                let (c, toks) = scan_from(old(self).src(), old(self).cursor(), Seq::empty());
                &&& r matches Ok(v) && views(v@) == toks.push(eof_token(c))
                &&& final(self).cursor() == c
            },
            cursor_inv(final(self).src(), final(self).cursor(), Seq::empty()),
    {
        if self.pos >= self.chars.len() {
            return Err(String::from_str("Source text is empty."));
        }
        let mut token_vector = Vec::<Token>::new();
        let ghost src = self.chars@;
        let ghost result = scan_from(src, self.cursor(), Seq::empty());
        proof {
            lemma_utf8_len_nonneg(src);
        }
        assert(views(token_vector@) =~= Seq::<TokenView>::empty());
        while self.pos < self.chars.len()
            invariant
                self.chars@ == src,
                src.len() <= utf8_len(src) < usize::MAX,
                cursor_inv(src, self.cursor(), views(token_vector@)),
                scan_from(src, self.cursor(), views(token_vector@)) == result,
            decreases src.len() - self.pos,
        {
            let ghost c0 = self.cursor();
            let ghost t0 = views(token_vector@);
            self.set_byte_starts(self.source_byte_end, self.logical_byte_end);
            let _ = self.scan_token(&mut token_vector);
            proof {
                lemma_step_inv(src, c0, t0);
            }
        }
        proof {
            lemma_scan_from_inv(src, self.cursor(), views(token_vector@));
        }
        let eof = Token::new(
            TokenType::Eof,
            String::new(),
            self.source_byte_end,
            self.source_byte_end,
            self.logical_byte_end,
            self.logical_byte_end,
            self.line,
        );
        let ghost before = views(token_vector@);
        token_vector.push(eof);
        assert(views(token_vector@) =~= before.push(eof_token(self.cursor())));
        assert(cursor_inv(src, self.cursor(), Seq::empty()));
        Ok(token_vector)
    }
}

fn ends_text_exec(c: char) -> (r: bool)
    ensures
        r == ends_text(c),
{
    c == '#' || c == '*' || c == '_' || c == '!' || c == '[' || c == ']' || c == '(' || c == ')'
        || c == '\r' || c == '\n' || c == '\\' || c == ' ' || c == '\t'
}

} // verus!
