//! Paragraph text: collects the tokens of a paragraph and parses their
//! emphasis.

use vstd::prelude::*;

use std::collections::HashSet;

use crate::ast::{AstBlock, BlockView};
use crate::parser::base::{
    BaseParser, ParseResult, StepView, blank_line_at, is_type, result_view,
    skip_whitespace, start_of_line_at, lemma_skip_whitespace,
};
use crate::parser::delimiter::{inline_fits, inline_result};
use crate::token::TokenView;
use crate::token_type::TokenType;

verus! {

broadcast use {vstd::seq::group_seq_axioms, vstd::std_specs::hash::group_hash_axioms};

/// The indexes `a..b`.
pub open spec fn index_range(a: int, b: int) -> Set<usize> {
    Set::new(|k: usize| a <= k < b)
}

/// Whitespace at `i` that opens a line (right after a newline).
pub open spec fn leading_space_at(t: Seq<TokenView>, i: int) -> bool {
    &&& is_type(t, i, TokenType::Whitespace)
    &&& i > 0
    &&& t[i - 1].token_type == TokenType::Newline
}

/// Where the paragraph that started at `b` and continues at `i` ends, and
/// the indexes of the leading spaces met on its lines, counted from `b`,
/// added to `ws`. A run of leading spaces is stepped over; the paragraph
/// ends at `Eof`, at a blank line, or at a `#` or `!` that starts a line
/// (after fewer than four spaces).
pub open spec fn text_scan(t: Seq<TokenView>, b: int, i: int, ws: Set<usize>) -> (int, Set<usize>)
    decreases t.len() - i,
{
    if i < 0 || i >= t.len() {
        (i, ws)
    } else {
        let lead = leading_space_at(t, i);
        let j = if lead {
            skip_whitespace(t, i)
        } else {
            i
        };
        let ws2 = if lead {
            ws.union(index_range(i - b, j - b))
        } else {
            ws
        };
        if j < i || j >= t.len() {
            (j, ws2)
        } else {
            let ty = t[j].token_type;
            let sol = j - i < 4 && start_of_line_at(t, j);
            if ty == TokenType::Eof || blank_line_at(t, j) || (sol && (ty == TokenType::Hash || ty
                == TokenType::Bang)) {
                (j, ws2)
            } else {
                text_scan(t, b, j + 1, ws2)
            }
        }
    }
}

/// The number of whitespace tokens right before `k`.
pub open spec fn indent_before(t: Seq<TokenView>, k: int) -> int
    decreases k,
{
    if 0 < k <= t.len() && t[k - 1].token_type == TokenType::Whitespace {
        indent_before(t, k - 1) + 1
    } else {
        0
    }
}

/// The leading whitespace of the line of `k` that a paragraph started at
/// `i` counts: the whitespace right before `k`, when it follows a newline
/// at or after `i`; none otherwise.
pub open spec fn counted_indent(t: Seq<TokenView>, i: int, k: int) -> int {
    let p = k - indent_before(t, k);
    if p >= i && p > 0 && t[p - 1].token_type == TokenType::Newline {
        indent_before(t, k)
    } else {
        0
    }
}

/// Token `k` ends a paragraph started at `i`: `Eof`, a blank line, or a
/// `#` or `!` at the start of a line indented by fewer than four
/// whitespace tokens.
pub open spec fn paragraph_stop(t: Seq<TokenView>, i: int, k: int) -> bool {
    ||| t[k].token_type == TokenType::Eof
    ||| blank_line_at(t, k)
    ||| ((t[k].token_type == TokenType::Hash || t[k].token_type == TokenType::Bang) && start_of_line_at(t, k)
        && counted_indent(t, i, k) < 4)
}

proof fn lemma_indent_bounds(t: Seq<TokenView>, k: int)
    ensures
        0 <= indent_before(t, k),
        0 < k <= t.len() ==> indent_before(t, k) <= k,
    decreases k,
{
    if 0 < k <= t.len() && t[k - 1].token_type == TokenType::Whitespace {
        lemma_indent_bounds(t, k - 1);
    }
}

proof fn lemma_skip_whitespace_run(t: Seq<TokenView>, q: int)
    requires
        0 <= q <= t.len(),
    ensures
        forall|k: int| q <= k < skip_whitespace(t, q) ==> #[trigger] t[k].token_type == TokenType::Whitespace,
        indent_before(t, skip_whitespace(t, q)) == skip_whitespace(t, q) - q + indent_before(t, q),
    decreases t.len() - q,
{
    lemma_skip_whitespace(t, q);
    if is_type(t, q, TokenType::Whitespace) {
        lemma_skip_whitespace_run(t, q + 1);
    }
}

proof fn lemma_text_scan_stops(t: Seq<TokenView>, i: int, q: int, ws: Set<usize>)
    requires
        0 <= i <= q <= t.len(),
        q == i || t[q - 1].token_type != TokenType::Whitespace || ({
            let p = q - indent_before(t, q);
            p < i || p == 0 || t[p - 1].token_type != TokenType::Newline
        }),
        forall|k: int| i <= k < q ==> !#[trigger] paragraph_stop(t, i, k),
    ensures
        ({
            let e = text_scan(t, i, q, ws).0;
            &&& q <= e <= t.len()
            &&& e < t.len() ==> paragraph_stop(t, i, e)
            &&& forall|k: int| i <= k < e ==> !#[trigger] paragraph_stop(t, i, k)
        }),
    decreases t.len() - q,
{
    if q < t.len() {
        let lead = leading_space_at(t, q);
        lemma_indent_bounds(t, q);
        lemma_skip_whitespace(t, q);
        lemma_skip_whitespace_run(t, q);
        let j = if lead {
            skip_whitespace(t, q)
        } else {
            q
        };
        let ws2 = if lead {
            ws.union(index_range(q - i, j - i))
        } else {
            ws
        };
        assert forall|k: int| i <= k < j implies !#[trigger] paragraph_stop(t, i, k) by {
            if k >= q {
                assert(t[k].token_type == TokenType::Whitespace);
            }
        }
        if j < t.len() {
            let ty = t[j].token_type;
            if lead {
                assert(indent_before(t, q) == 0);
                assert(counted_indent(t, i, j) == j - q);
            } else {
                assert(counted_indent(t, i, j) == 0) by {
                    lemma_indent_bounds(t, q);
                    if indent_before(t, q) > 0 {
                        assert(t[q - 1].token_type == TokenType::Whitespace);
                    }
                }
            }
            let sol = j - q < 4 && start_of_line_at(t, j);
            let stops = ty == TokenType::Eof || blank_line_at(t, j) || (sol && (ty == TokenType::Hash || ty
                == TokenType::Bang));
            assert(stops == paragraph_stop(t, i, j));
            if !stops {
                let q2 = j + 1;
                assert(indent_before(t, q2) == if ty == TokenType::Whitespace {
                    indent_before(t, j) + 1
                } else {
                    0
                });
                lemma_text_scan_stops(t, i, q2, ws2);
            }
        }
    }
}

/// Where a paragraph that starts at `i` ends: at the first token from `i`
/// on that ends a paragraph ([`paragraph_stop`]), or at the end of the
/// tokens.
pub proof fn lemma_paragraph_end(t: Seq<TokenView>, i: int)
    requires
        0 <= i <= t.len(),
    ensures
        ({
            let e = text_scan(t, i, i, Set::empty()).0;
            &&& i <= e <= t.len()
            &&& e < t.len() ==> paragraph_stop(t, i, e)
            &&& forall|k: int| i <= k < e ==> !#[trigger] paragraph_stop(t, i, k)
        }),
{
    lemma_text_scan_stops(t, i, i, Set::empty());
}

/// The first position at or after `k` that is not a newline.
pub open spec fn skip_newlines(t: Seq<TokenView>, k: int) -> int
    decreases t.len() - k,
{
    if 0 <= k && is_type(t, k, TokenType::Newline) {
        skip_newlines(t, k + 1)
    } else {
        k
    }
}

/// What parsing paragraph text at `i` does.
pub open spec fn text_outcome(t: Seq<TokenView>, i: int) -> StepView {
    let (e, ws) = text_scan(t, i, i, Set::empty());
    if e == i {
        StepView { cur: i, result: Err("empty paragraph"@) }
    } else {
        match inline_result(t.subrange(i, e), ws) {
            Ok(v) => StepView {
                cur: skip_newlines(t, e),
                result: Ok(BlockView::Paragraph { content: v }),
            },
            Err(m) => StepView { cur: e, result: Err(m) },
        }
    }
}

/// Parsing paragraph text at `i` stays within the emphasis parser's limits
/// ([`inline_fits`]).
pub open spec fn text_fits(t: Seq<TokenView>, i: int) -> bool {
    let (e, ws) = text_scan(t, i, i, Set::empty());
    e != i ==> inline_fits(t.subrange(i, e), ws)
}

proof fn lemma_text_scan(t: Seq<TokenView>, b: int, i: int, ws: Set<usize>)
    requires
        0 <= i <= t.len(),
    ensures
        i <= text_scan(t, b, i, ws).0 <= t.len(),
    decreases t.len() - i,
{
    if i < t.len() {
        lemma_skip_whitespace(t, i);
        let lead = leading_space_at(t, i);
        let j = if lead {
            skip_whitespace(t, i)
        } else {
            i
        };
        let ws2 = if lead {
            ws.union(index_range(i - b, j - b))
        } else {
            ws
        };
        if j < t.len() {
            lemma_text_scan(t, b, j + 1, ws2);
        }
    }
}

proof fn lemma_skip_newlines(t: Seq<TokenView>, k: int)
    requires
        0 <= k <= t.len(),
    ensures
        k <= skip_newlines(t, k) <= t.len(),
    decreases t.len() - k,
{
    if is_type(t, k, TokenType::Newline) {
        lemma_skip_newlines(t, k + 1);
    }
}

/// Parses paragraph text at the cursor: see [`text_scan`] for where it
/// ends. The indexes of the leading spaces of its lines, counted from the
/// paragraph's first token, are handed to the inline parser as tokens to
/// leave out. After the paragraph, newlines are
/// consumed. Fails with `empty paragraph` when nothing is collected.
pub fn text(base: &mut BaseParser) -> (r: ParseResult<AstBlock>)
    requires
        old(base).cur() <= old(base).toks().len(),
        !(old(base).cur() == 0 && is_type(old(base).toks(), 0, TokenType::Whitespace)),
        text_fits(old(base).toks(), old(base).cur()),
    ensures
        final(base).same_but_cur(old(base)),
        final(base).cur() <= old(base).toks().len(),
        final(base).cur() == text_outcome(old(base).toks(), old(base).cur()).cur,
        result_view(r) == text_outcome(old(base).toks(), old(base).cur()).result,
{
    match text_checked(base) {
        Some(r) => r,
        None => {
            proof {
                assert(false);
            }
            Err(String::new())
        },
    }
}

/// Like [`text`], but first tests the parser's limits: `None` exactly when
/// paragraph text at the cursor would leave them, or would start on
/// whitespace at the very first token.
pub fn text_checked(base: &mut BaseParser) -> (r: Option<ParseResult<AstBlock>>)
    requires
        old(base).cur() <= old(base).toks().len(),
    ensures
        final(base).same_but_cur(old(base)),
        final(base).cur() <= old(base).toks().len(),
        r is None <==> !(text_fits(old(base).toks(), old(base).cur()) && !(old(base).cur() == 0
            && is_type(old(base).toks(), 0, TokenType::Whitespace))),
        r matches Some(x) ==> final(base).cur() == text_outcome(old(base).toks(), old(base).cur()).cur
            && result_view(x) == text_outcome(old(base).toks(), old(base).cur()).result,
{
    let ghost t = base.toks();
    let start = base.current();
    if start == 0 {
        match base.peek() {
            Some(tok) => {
                proof {
                    base.lemma_toks();
                    assert(tok@ == t[0]);
                }
                if tok.token_type() == TokenType::Whitespace {
                    return None;
                }
            },
            None => {},
        }
    }
    let mut whitespaces_index: HashSet<usize> = HashSet::new();
    proof {
        base.lemma_toks();
        lemma_text_scan(t, start as int, start as int, Set::empty());
    }
    loop
        invariant_except_break
            base.same_but_cur(old(base)),
            t == base.toks(),
            start == old(base).cur(),
            start <= base.cur() <= t.len(),
            base.cur() == 0 ==> !is_type(t, 0, TokenType::Whitespace),
            text_scan(t, start as int, base.cur(), whitespaces_index@) == text_scan(t, start as int, start as int, Set::empty()),
        ensures
            base.same_but_cur(old(base)),
            base.cur() == text_scan(t, start as int, start as int, Set::empty()).0,
            whitespaces_index@ == text_scan(t, start as int, start as int, Set::empty()).1,
        decreases t.len() - base.cur(),
    {
        let ghost i = base.cur();
        let ghost ws0 = whitespaces_index@;
        let tok = match base.peek() {
            None => {
                proof {
                    base.lemma_toks();
                }
                break;
            },
            Some(tok) => tok,
        };
        proof {
            base.lemma_toks();
            assert(tok@ == t[i]);
            lemma_skip_whitespace(t, i);
        }
        let mut token_type = tok.token_type();
        let mut whitespace_count: usize = 0;
        let mut lead = false;
        if token_type == TokenType::Whitespace {
            lead = match base.previous() {
                Some(prev) => prev.token_type() == TokenType::Newline,
                None => false,
            };
        }
        if lead {
            proof {
                assert(leading_space_at(t, i));
            }
            whitespace_count = 1;
            whitespaces_index.insert(base.current() - start);
            base.advance();
            proof {
                assert(whitespaces_index@ =~= ws0.union(index_range(i - start, i + 1 - start)));
            }
            loop
                invariant_except_break
                    base.same_but_cur(old(base)),
                    t == base.toks(),
                    i < base.cur() <= skip_whitespace(t, i) <= t.len(),
                    skip_whitespace(t, base.cur()) == skip_whitespace(t, i),
                    whitespaces_index@ == ws0.union(index_range(i - start, base.cur() - start)),
                    whitespace_count as int == base.cur() - i,
                    token_type == TokenType::Whitespace,
                    start <= i,
                ensures
                    base.same_but_cur(old(base)),
                    base.cur() == skip_whitespace(t, i),
                    whitespaces_index@ == ws0.union(index_range(i - start, base.cur() - start)),
                    whitespace_count as int == base.cur() - i,
                    base.cur() < t.len() ==> token_type == t[base.cur()].token_type,
                    base.cur() >= t.len() ==> token_type == TokenType::Whitespace,
                decreases t.len() - base.cur(),
            {
                let ghost k = base.cur();
                if base.is_at_end() {
                    break;
                }
                let next = match base.peek() {
                    None => {
                        break;
                    },
                    Some(next) => next,
                };
                proof {
                    base.lemma_toks();
                    assert(next@ == t[k]);
                }
                token_type = next.token_type();
                if token_type == TokenType::Whitespace {
                    whitespace_count = whitespace_count + 1;
                    whitespaces_index.insert(base.current() - start);
                    base.advance();
                    proof {
                        lemma_skip_whitespace(t, k + 1);
                        assert(whitespaces_index@ =~= ws0.union(index_range(i - start, k + 1 - start)));
                    }
                } else {
                    break;
                }
            }
        } else {
            proof {
                assert(!leading_space_at(t, i));
            }
        }
        let ghost j = base.cur();
        proof {
            base.lemma_toks();
        }
        let start_of_line = if whitespace_count < 4 {
            base.is_start_of_line()
        } else {
            false
        };
        if token_type == TokenType::Eof || base.is_blank_line() || (start_of_line && (token_type
            == TokenType::Hash || token_type == TokenType::Bang)) {
            break;
        }
        base.advance();
        proof {
            lemma_text_scan(t, start as int, base.cur(), whitespaces_index@);
        }
    }
    if start == base.current() {
        proof {
            reveal_strlit("empty paragraph");
        }
        return Some(Err("empty paragraph".to_owned()));
    }
    let end = base.current();
    proof {
    }
    let content = match base.parse_inline_text_checked(start, end, &whitespaces_index) {
        None => {
            return None;
        },
        Some(Ok(c)) => c,
        Some(Err(e)) => {
            return Some(Err(e));
        },
    };
    let block = AstBlock::paragraph(content);
    proof {
        lemma_skip_newlines(t, end as int);
    }
    while base.current() < base.tokens().len() && base.tokens()[base.current()].token_type()
        == TokenType::Newline
        invariant
            base.same_but_cur(old(base)),
            t == base.toks(),
            end <= base.cur() <= skip_newlines(t, end as int) <= t.len(),
            skip_newlines(t, base.cur()) == skip_newlines(t, end as int),
        decreases t.len() - base.cur(),
    {
        proof {
            base.lemma_toks();
            lemma_skip_newlines(t, base.cur() + 1);
        }
        base.advance();
    }
    Some(Ok(block))
}

/// Parsing paragraph text never moves the cursor back, nor past the tokens.
pub proof fn lemma_text_outcome_bounds(t: Seq<TokenView>, i: int)
    requires
        0 <= i <= t.len(),
    ensures
        i <= text_outcome(t, i).cur <= t.len(),
{
    lemma_text_scan(t, i, i, Set::empty());
    lemma_skip_newlines(t, text_scan(t, i, i, Set::empty()).0);
}

} // verus!
