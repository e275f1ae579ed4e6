//! Indented code blocks.

use vstd::prelude::*;

use crate::ast::{AstBlock, BlockView};
use crate::parser::base::{BaseParser, ParseResult, is_type, lexemes_between, result_view};
use crate::token::TokenView;
use crate::token_type::TokenType;

verus! {

broadcast use vstd::seq::group_seq_axioms;

/// The first position at or after `i` holding a newline or `Eof`, or the end.
pub open spec fn line_end(t: Seq<TokenView>, i: int) -> int
    decreases t.len() - i,
{
    if i < 0 || i >= t.len() || t[i].token_type == TokenType::Newline || t[i].token_type
        == TokenType::Eof {
        i
    } else {
        line_end(t, i + 1)
    }
}

/// The code of the rest of the line, with its newline if it has one.
pub open spec fn code_content(t: Seq<TokenView>, i: int) -> Seq<char> {
    let e = line_end(t, i);
    lexemes_between(t, i, e) + if is_type(t, e, TokenType::Newline) {
        t[e].lexeme
    } else {
        Seq::empty()
    }
}

/// The line from `i` ends at the first newline or `Eof` at or after `i`,
/// or at the end of the tokens.
pub proof fn lemma_line_end(t: Seq<TokenView>, i: int)
    requires
        0 <= i <= t.len(),
    ensures
        i <= line_end(t, i) <= t.len(),
        forall|k: int| i <= k < line_end(t, i) ==> #[trigger] t[k].token_type != TokenType::Newline
            && t[k].token_type != TokenType::Eof,
        line_end(t, i) < t.len() ==> t[line_end(t, i)].token_type == TokenType::Newline || t[line_end(
            t,
            i,
        )].token_type == TokenType::Eof,
    decreases t.len() - i,
{
    if i < t.len() && t[i].token_type != TokenType::Newline && t[i].token_type != TokenType::Eof {
        lemma_line_end(t, i + 1);
    }
}

/// Parses an indented code block: the rest of the line, up to and including
/// its newline. The cursor stops on the newline (or `Eof`).
pub fn code_block(base: &mut BaseParser) -> (r: ParseResult<AstBlock>)
    requires
        old(base).cur() <= old(base).toks().len(),
    ensures
        final(base).same_but_cur(old(base)),
        final(base).cur() <= old(base).toks().len(),
        final(base).cur() == line_end(old(base).toks(), old(base).cur()),
        result_view(r) == Ok::<BlockView, Seq<char>>(
            BlockView::Code { language: None, content: code_content(old(base).toks(), old(base).cur()) },
        ),
{
    let ghost t = base.toks();
    let ghost start = base.cur();
    let mut content = String::new();
    proof {
        base.lemma_toks();
        lemma_line_end(t, start);
    }
    loop
        invariant_except_break
            base.same_but_cur(old(base)),
            t == base.toks(),
            start == old(base).cur(),
            start <= base.cur() <= line_end(t, start),
            line_end(t, start) <= t.len(),
            line_end(t, base.cur()) == line_end(t, start),
            content@ == lexemes_between(t, start, base.cur()),
        ensures
            base.same_but_cur(old(base)),
            base.cur() == line_end(t, start),
            content@ == code_content(t, start),
        decreases t.len() - base.cur(),
    {
        let ghost i = base.cur();
        match base.peek() {
            None => {
                proof {
                    base.lemma_toks();
                }
                break;
            },
            Some(token) => {
                proof {
                    base.lemma_toks();
                    assert(token@ == t[i]);
                }
                let token_type = token.token_type();
                if token_type == TokenType::Newline {
                    content.append(token.lexeme());
                    break;
                } else if token_type == TokenType::Eof {
                    break;
                }
                content.append(token.lexeme());
                proof {
                    assert(line_end(t, i) == line_end(t, i + 1));
                    lemma_line_end(t, i + 1);
                    assert(lexemes_between(t, start, i + 1) == lexemes_between(t, start, i) + t[i].lexeme);
                }
                base.advance();
            },
        }
    }
    proof {
        reveal_strlit("");
    }
    Ok(AstBlock::code("", content))
}

} // verus!
