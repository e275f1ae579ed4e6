//! Image blocks: `![caption](image path)`.

use vstd::prelude::*;

use std::collections::HashSet;

use crate::ast::{AstBlock, BlockView, InlineContent, InlineView};
use crate::chars::{str_byte_len, lemma_utf8_len_nonneg};
use crate::parser::base::{
    BaseParser, ParseResult, StepView, is_type, lexemes_between, line_message, line_message_string,
    result_view,
};
use crate::parser::delimiter::{inline_fits, inline_result};
use crate::token::TokenView;
use crate::token_type::TokenType;

verus! {

broadcast use vstd::seq::group_seq_axioms;

/// The position of the `]` that closes the caption, scanning from `k` with
/// `depth` brackets open; the end if there is none.
pub open spec fn bracket_end(t: Seq<TokenView>, k: int, depth: int) -> int
    decreases t.len() - k,
{
    if k < 0 || k >= t.len() {
        k
    } else if t[k].token_type == TokenType::LBracket {
        bracket_end(t, k + 1, depth + 1)
    } else if t[k].token_type == TokenType::RBracket {
        if depth > 0 {
            bracket_end(t, k + 1, depth - 1)
        } else {
            k
        }
    } else {
        bracket_end(t, k + 1, depth)
    }
}

/// Where the image path ends, scanning from `k` with `depth` parentheses
/// open: at the `)` that closes it, at a newline or `Eof`, or at the end.
pub open spec fn path_end(t: Seq<TokenView>, k: int, depth: int) -> int
    decreases t.len() - k,
{
    if k < 0 || k >= t.len() {
        k
    } else if t[k].token_type == TokenType::LParen {
        path_end(t, k + 1, depth + 1)
    } else if t[k].token_type == TokenType::RParen {
        if depth > 0 {
            path_end(t, k + 1, depth - 1)
        } else {
            k
        }
    } else if t[k].token_type == TokenType::Newline || t[k].token_type == TokenType::Eof {
        k
    } else {
        path_end(t, k + 1, depth)
    }
}

/// All tokens `a..b` are whitespace.
pub open spec fn blank_between(t: Seq<TokenView>, a: int, b: int) -> bool {
    forall|k: int| a <= k < b ==> #[trigger] t[k].token_type == TokenType::Whitespace
}

/// What parsing an image block at `i` does.
pub open spec fn image_outcome(t: Seq<TokenView>, i: int) -> StepView {
    if !is_type(t, i, TokenType::Bang) {
        StepView { cur: i, result: Err(""@) }
    } else {
        let line = t[i].line;
        let a = i + 2;
        let b = bracket_end(t, a, 0);
        let p = b + 2;
        let pe = path_end(t, p, 0);
        let path = lexemes_between(t, p, pe);
        if !is_type(t, i + 1, TokenType::LBracket) {
            StepView { cur: i + 1, result: Err(line_message(line, "expected '['"@)) }
        } else if b >= t.len() {
            StepView { cur: b, result: Err(line_message(line, "expected ']' after '['"@)) }
        } else if !is_type(t, b + 1, TokenType::LParen) {
            StepView { cur: b + 1, result: Err(line_message(line, "expected '('"@)) }
        } else if path.len() == 0 {
            StepView { cur: pe, result: Err(line_message(line, "missing image path"@)) }
        } else if !is_type(t, pe, TokenType::RParen) {
            StepView { cur: pe, result: Err(line_message(line, "expected ')' after '('"@)) }
        } else if blank_between(t, a, b) {
            StepView {
                cur: pe + 1,
                result: Ok(
                    BlockView::Image {
                        path,
                        alt: InlineView { text: Seq::empty(), spans: Seq::empty() },
                    },
                ),
            }
        } else {
            match inline_result(t.subrange(a, b), Set::empty()) {
                Ok(v) => StepView { cur: pe + 1, result: Ok(BlockView::Image { path, alt: v }) },
                Err(m) => StepView { cur: pe + 1, result: Err(m) },
            }
        }
    }
}

/// Parsing an image block at `i` stays within the parser's limits: a
/// caption that gets parsed has emphasis within the inline parser's limits
/// ([`inline_fits`]).
pub open spec fn image_fits(t: Seq<TokenView>, i: int) -> bool {
    let a = i + 2;
    let b = bracket_end(t, a, 0);
    let p = b + 2;
    let pe = path_end(t, p, 0);
    (is_type(t, i, TokenType::Bang) && is_type(t, i + 1, TokenType::LBracket) && b < t.len()
        && is_type(t, b + 1, TokenType::LParen) && lexemes_between(t, p, pe).len() > 0 && is_type(
        t,
        pe,
        TokenType::RParen,
    ) && !blank_between(t, a, b)) ==> inline_fits(t.subrange(a, b), Set::empty())
}

proof fn lemma_bracket_end(t: Seq<TokenView>, k: int, depth: int)
    requires
        0 <= k <= t.len(),
        depth >= 0,
    ensures
        k <= bracket_end(t, k, depth) <= t.len(),
        bracket_end(t, k, depth) < t.len() ==> t[bracket_end(t, k, depth)].token_type == TokenType::RBracket,
    decreases t.len() - k,
{
    if k < t.len() {
        let ty = t[k].token_type;
        if ty == TokenType::LBracket {
            lemma_bracket_end(t, k + 1, depth + 1);
        } else if ty == TokenType::RBracket {
            if depth > 0 {
                lemma_bracket_end(t, k + 1, depth - 1);
            }
        } else {
            lemma_bracket_end(t, k + 1, depth);
        }
    }
}

proof fn lemma_path_end(t: Seq<TokenView>, k: int, depth: int)
    requires
        0 <= k <= t.len(),
        depth >= 0,
    ensures
        k <= path_end(t, k, depth) <= t.len(),
    decreases t.len() - k,
{
    if k < t.len() {
        let ty = t[k].token_type;
        if ty == TokenType::LParen {
            lemma_path_end(t, k + 1, depth + 1);
        } else if ty == TokenType::RParen {
            if depth > 0 {
                lemma_path_end(t, k + 1, depth - 1);
            }
        } else if ty != TokenType::Newline && ty != TokenType::Eof {
            lemma_path_end(t, k + 1, depth);
        }
    }
}

/// The number of `open` tokens minus the number of `close` tokens in `a..k`.
pub open spec fn nesting(t: Seq<TokenView>, a: int, k: int, open: TokenType, close: TokenType) -> int
    decreases k - a,
{
    if k <= a {
        0
    } else {
        nesting(t, a, k - 1, open, close) + if t[k - 1].token_type == open {
            1int
        } else if t[k - 1].token_type == close {
            -1int
        } else {
            0int
        }
    }
}

/// Token `m` closes what opened at `a`: a `close` token with nothing left
/// open.
pub open spec fn closes_at(t: Seq<TokenView>, a: int, m: int, open: TokenType, close: TokenType) -> bool {
    t[m].token_type == close && nesting(t, a, m, open, close) == 0
}

/// At token `m` the scan from `a` is still inside: never more closed than
/// opened, and `m` closes nothing.
pub open spec fn still_open(t: Seq<TokenView>, a: int, m: int, open: TokenType, close: TokenType) -> bool {
    nesting(t, a, m, open, close) >= 0 && !closes_at(t, a, m, open, close)
}

/// Still inside the path at `m`, which is on the line.
pub open spec fn in_path(t: Seq<TokenView>, a: int, m: int) -> bool {
    &&& still_open(t, a, m, TokenType::LParen, TokenType::RParen)
    &&& t[m].token_type != TokenType::Newline
    &&& t[m].token_type != TokenType::Eof
}

proof fn lemma_bracket_end_balanced(t: Seq<TokenView>, a: int, k: int, depth: int)
    requires
        0 <= a <= k <= t.len(),
        depth == nesting(t, a, k, TokenType::LBracket, TokenType::RBracket),
        depth >= 0,
        forall|m: int| a <= m < k ==> #[trigger] still_open(t, a, m, TokenType::LBracket, TokenType::RBracket),
    ensures
        ({
            let b = bracket_end(t, k, depth);
            &&& k <= b <= t.len()
            &&& forall|m: int| a <= m < b ==> #[trigger] still_open(t, a, m, TokenType::LBracket, TokenType::RBracket)
            &&& b < t.len() ==> closes_at(t, a, b, TokenType::LBracket, TokenType::RBracket)
        }),
    decreases t.len() - k,
{
    if k < t.len() {
        let ty = t[k].token_type;
        assert(nesting(t, a, k + 1, TokenType::LBracket, TokenType::RBracket) == depth + if ty
            == TokenType::LBracket {
            1int
        } else if ty == TokenType::RBracket {
            -1int
        } else {
            0int
        });
        if ty != TokenType::RBracket || depth > 0 {
            assert(still_open(t, a, k, TokenType::LBracket, TokenType::RBracket));
            assert forall|m: int| a <= m < k + 1 implies #[trigger] still_open(t, a, m, TokenType::LBracket, TokenType::RBracket) by {
                if m < k {
                    assert(still_open(t, a, m, TokenType::LBracket, TokenType::RBracket));
                }
            }
        }
        if ty == TokenType::LBracket {
            lemma_bracket_end_balanced(t, a, k + 1, depth + 1);
        } else if ty == TokenType::RBracket {
            if depth > 0 {
                lemma_bracket_end_balanced(t, a, k + 1, depth - 1);
            }
        } else {
            lemma_bracket_end_balanced(t, a, k + 1, depth);
        }
    }
}

proof fn lemma_path_end_balanced(t: Seq<TokenView>, a: int, k: int, depth: int)
    requires
        0 <= a <= k <= t.len(),
        depth == nesting(t, a, k, TokenType::LParen, TokenType::RParen),
        depth >= 0,
        forall|m: int| a <= m < k ==> #[trigger] in_path(t, a, m),
    ensures
        ({
            let pe = path_end(t, k, depth);
            &&& k <= pe <= t.len()
            &&& forall|m: int| a <= m < pe ==> #[trigger] in_path(t, a, m)
            &&& pe < t.len() ==> closes_at(t, a, pe, TokenType::LParen, TokenType::RParen)
                || t[pe].token_type == TokenType::Newline || t[pe].token_type == TokenType::Eof
        }),
    decreases t.len() - k,
{
    if k < t.len() {
        let ty = t[k].token_type;
        assert(nesting(t, a, k + 1, TokenType::LParen, TokenType::RParen) == depth + if ty
            == TokenType::LParen {
            1int
        } else if ty == TokenType::RParen {
            -1int
        } else {
            0int
        });
        if (ty != TokenType::RParen || depth > 0) && ty != TokenType::Newline && ty != TokenType::Eof {
            assert(in_path(t, a, k));
            assert forall|m: int| a <= m < k + 1 implies #[trigger] in_path(t, a, m) by {
                if m < k {
                    assert(in_path(t, a, m));
                }
            }
        }
        if ty == TokenType::LParen {
            lemma_path_end_balanced(t, a, k + 1, depth + 1);
        } else if ty == TokenType::RParen {
            if depth > 0 {
                lemma_path_end_balanced(t, a, k + 1, depth - 1);
            }
        } else if ty != TokenType::Newline && ty != TokenType::Eof {
            lemma_path_end_balanced(t, a, k + 1, depth);
        }
    }
}

/// What an image block parsed at `i` is made of: `!` and `[`; a caption
/// up to the first `]` that closes it, brackets balanced in between; `(`
/// right after it; a path, not empty, on one line, up to the first `)`
/// that closes it, parentheses balanced in between; and the cursor just
/// after that `)`.
pub proof fn lemma_image_shape(t: Seq<TokenView>, i: int)
    requires
        0 <= i <= t.len(),
        image_outcome(t, i).result is Ok,
    ensures
        ({
            let a = i + 2;
            let b = bracket_end(t, a, 0);
            let p = b + 2;
            let pe = path_end(t, p, 0);
            &&& is_type(t, i, TokenType::Bang) && is_type(t, i + 1, TokenType::LBracket)
            &&& a <= b < t.len() && closes_at(t, a, b, TokenType::LBracket, TokenType::RBracket)
            &&& forall|m: int| a <= m < b ==> #[trigger] still_open(t, a, m, TokenType::LBracket, TokenType::RBracket)
            &&& is_type(t, b + 1, TokenType::LParen)
            &&& p <= pe < t.len() && closes_at(t, p, pe, TokenType::LParen, TokenType::RParen)
            &&& forall|m: int| p <= m < pe ==> #[trigger] in_path(t, p, m)
            &&& lexemes_between(t, p, pe).len() > 0
            &&& image_outcome(t, i).cur == pe + 1
        }),
{
    let a = i + 2;
    assert(a <= t.len());
    lemma_bracket_end_balanced(t, a, a, 0);
    let b = bracket_end(t, a, 0);
    let p = b + 2;
    assert(p <= t.len());
    lemma_path_end_balanced(t, p, p, 0);
}

/// Parses `![caption](path)` at the start of a line. The caption may hold
/// nested brackets and span lines; the path may hold nested parentheses
/// and ends at the line's end. A caption of only whitespace gives empty
/// alternative text. Fails with `Line {n}: expected '['`, `expected ']'
/// after '['`, `expected '('`, `missing image path` or `expected ')' after
/// '('`.
pub fn image_block(base: &mut BaseParser) -> (r: ParseResult<AstBlock>)
    requires
        old(base).cur() <= old(base).toks().len(),
        image_fits(old(base).toks(), old(base).cur()),
    ensures
        final(base).same_but_cur(old(base)),
        final(base).cur() <= old(base).toks().len(),
        final(base).cur() == image_outcome(old(base).toks(), old(base).cur()).cur,
        result_view(r) == image_outcome(old(base).toks(), old(base).cur()).result,
{
    match image_block_checked(base) {
        Some(r) => r,
        None => {
            proof {
                assert(false);
            }
            Err(String::new())
        },
    }
}

/// Like [`image_block`], but first tests the parser's limits: `None`
/// exactly when an image block at the cursor would leave them
/// ([`image_fits`]).
pub fn image_block_checked(base: &mut BaseParser) -> (r: Option<ParseResult<AstBlock>>)
    requires
        old(base).cur() <= old(base).toks().len(),
    ensures
        final(base).same_but_cur(old(base)),
        final(base).cur() <= old(base).toks().len(),
        r is None <==> !image_fits(old(base).toks(), old(base).cur()),
        r matches Some(x) ==> final(base).cur() == image_outcome(old(base).toks(), old(base).cur()).cur
            && result_view(x) == image_outcome(old(base).toks(), old(base).cur()).result,
{
    let ghost t = base.toks();
    let ghost i = base.cur();
    proof {
        base.lemma_toks();
        reveal_strlit("");
    }
    let bang_token = match base.consume(TokenType::Bang, "") {
        Ok(tok) => tok,
        Err(e) => {
            return Some(Err(e));
        },
    };
    let line_number = bang_token.line();
    proof {
        assert(bang_token@ == t[i]);
    }
    let expected_lbracket = line_message_string(line_number, "expected '['");
    match base.consume(TokenType::LBracket, expected_lbracket.as_str()) {
        Ok(_) => {},
        Err(e) => {
            return Some(Err(e));
        },
    }
    let alt_start = base.current();
    let mut depth: usize = 0;
    proof {
        lemma_bracket_end(t, alt_start as int, 0);
    }
    loop
        invariant_except_break
            base.same_but_cur(old(base)),
            t == base.toks(),
            alt_start as int <= base.cur() <= bracket_end(t, alt_start as int, 0) <= t.len(),
            bracket_end(t, base.cur(), depth as int) == bracket_end(t, alt_start as int, 0),
            depth <= base.cur(),
        ensures
            base.same_but_cur(old(base)),
            base.cur() == bracket_end(t, alt_start as int, 0),
        decreases t.len() - base.cur(),
    {
        let ghost k = base.cur();
        match base.peek() {
            None => {
                proof {
                    base.lemma_toks();
                }
                break;
            },
            Some(tok) => {
                proof {
                    base.lemma_toks();
                    assert(tok@ == t[k]);
                }
                let ty = tok.token_type();
                if ty == TokenType::LBracket {
                    depth = depth + 1;
                } else if ty == TokenType::RBracket {
                    if depth > 0 {
                        depth = depth - 1;
                    } else {
                        break;
                    }
                }
                proof {
                    lemma_bracket_end(t, k + 1, depth as int);
                }
                base.advance();
            },
        }
    }
    if base.is_at_end() {
        return Some(Err(line_message_string(line_number, "expected ']' after '['")));
    }
    let alt_end = base.current();
    let expected_rbracket = line_message_string(line_number, "expected ']' after '['");
    match base.consume(TokenType::RBracket, expected_rbracket.as_str()) {
        Ok(_) => {},
        Err(e) => {
            return Some(Err(e));
        },
    }
    let expected_lparen = line_message_string(line_number, "expected '('");
    match base.consume(TokenType::LParen, expected_lparen.as_str()) {
        Ok(_) => {},
        Err(e) => {
            return Some(Err(e));
        },
    }
    let path_start = base.current();
    let mut paren_depth: usize = 0;
    let mut path = String::new();
    proof {
        lemma_path_end(t, path_start as int, 0);
    }
    loop
        invariant_except_break
            base.same_but_cur(old(base)),
            t == base.toks(),
            path_start as int <= base.cur() <= path_end(t, path_start as int, 0) <= t.len(),
            path_end(t, base.cur(), paren_depth as int) == path_end(t, path_start as int, 0),
            paren_depth <= base.cur(),
            path@ == lexemes_between(t, path_start as int, base.cur()),
        ensures
            base.same_but_cur(old(base)),
            base.cur() == path_end(t, path_start as int, 0),
            path@ == lexemes_between(t, path_start as int, base.cur()),
        decreases t.len() - base.cur(),
    {
        let ghost k = base.cur();
        match base.peek() {
            None => {
                proof {
                    base.lemma_toks();
                }
                break;
            },
            Some(tok) => {
                proof {
                    base.lemma_toks();
                    assert(tok@ == t[k]);
                }
                let ty = tok.token_type();
                if ty == TokenType::LParen {
                    paren_depth = paren_depth + 1;
                } else if ty == TokenType::RParen {
                    if paren_depth > 0 {
                        paren_depth = paren_depth - 1;
                    } else {
                        break;
                    }
                } else if ty == TokenType::Newline || ty == TokenType::Eof {
                    break;
                }
                path.append(tok.lexeme());
                proof {
                    lemma_path_end(t, k + 1, paren_depth as int);
                    assert(lexemes_between(t, path_start as int, k + 1) == lexemes_between(
                        t,
                        path_start as int,
                        k,
                    ) + t[k].lexeme);
                }
                base.advance();
            },
        }
    }
    proof {
        lemma_utf8_len_nonneg(path@);
    }
    if str_byte_len(path.as_str()) == 0 {
        return Some(Err(line_message_string(line_number, "missing image path")));
    }
    let expected_rparen = line_message_string(line_number, "expected ')' after '('");
    match base.consume(TokenType::RParen, expected_rparen.as_str()) {
        Ok(_) => {},
        Err(e) => {
            return Some(Err(e));
        },
    }
    let mut non_blank_caption = false;
    let mut k = alt_start;
    while k < alt_end
        invariant_except_break
            alt_start <= k <= alt_end,
            alt_end < t.len(),
            t == base.toks(),
            !non_blank_caption,
            blank_between(t, alt_start as int, k as int),
        ensures
            non_blank_caption <==> !blank_between(t, alt_start as int, alt_end as int),
        decreases alt_end - k,
    {
        proof {
            base.lemma_toks();
        }
        let tok = &base.tokens()[k];
        proof {
            assert(tok@ == t[k as int]);
        }
        if tok.token_type() != TokenType::Whitespace {
            non_blank_caption = true;
            break;
        }
        k = k + 1;
    }
    if non_blank_caption {
        proof {
        }
        let ignored: HashSet<usize> = HashSet::new();
        match base.parse_inline_text_checked(alt_start, alt_end, &ignored) {
            None => None,
            Some(Ok(alt)) => Some(Ok(AstBlock::image(path, alt))),
            Some(Err(e)) => Some(Err(e)),
        }
    } else {
        Some(Ok(AstBlock::image(path, InlineContent::new_empty())))
    }
}

/// Parsing an image block never moves the cursor back, nor past the tokens.
pub proof fn lemma_image_outcome_bounds(t: Seq<TokenView>, i: int)
    requires
        0 <= i <= t.len(),
    ensures
        i <= image_outcome(t, i).cur <= t.len(),
{
    if is_type(t, i, TokenType::Bang) && is_type(t, i + 1, TokenType::LBracket) {
        lemma_bracket_end(t, i + 2, 0);
        let b = bracket_end(t, i + 2, 0);
        if b < t.len() && is_type(t, b + 1, TokenType::LParen) {
            lemma_path_end(t, b + 2, 0);
        }
    }
}

} // verus!
