//! ATX headers: `# title`, up to six `#`s.

use vstd::prelude::*;

use std::collections::HashSet;

use crate::ast::{AstBlock, BlockView, MAX_HEADER_LEVEL};
use crate::chars::{decimal, usize_to_decimal};
use crate::parser::base::{
    BaseParser, ParseResult, StepView, is_type, line_message, line_message_string,
    result_view, skip_whitespace, lemma_skip_whitespace,
};
use crate::parser::code::{line_end, lemma_line_end};
use crate::parser::delimiter::{inline_fits, inline_result};
use crate::token::TokenView;
use crate::token_type::TokenType;

verus! {

broadcast use vstd::seq::group_seq_axioms;

/// The first position at or after `i` that is not a `#`.
pub open spec fn hash_run_end(t: Seq<TokenView>, i: int) -> int
    decreases t.len() - i,
{
    if 0 <= i && is_type(t, i, TokenType::Hash) {
        hash_run_end(t, i + 1)
    } else {
        i
    }
}

/// Walks back from `k` over whitespace, not going below `start`.
pub open spec fn discard_ws_back(t: Seq<TokenView>, start: int, k: int) -> int
    decreases k - start,
{
    if k > start && is_type(t, k - 1, TokenType::Whitespace) {
        discard_ws_back(t, start, k - 1)
    } else {
        k
    }
}

/// Where the header text ends, walking back from `end`: trailing spaces go;
/// a closing run of `#`s goes when whitespace stands before it; a run of
/// `#`s glued to the text stays. `hashed` says that `#`s were seen, and
/// `last_hash` (0 if none) where the last run of them ended.
pub open spec fn cleanup_end(t: Seq<TokenView>, start: int, end: int, hashed: bool, last_hash: int) -> int
    decreases end - start,
{
    if end <= start {
        end
    } else if t[end - 1].token_type == TokenType::Hash {
        cleanup_end(t, start, end - 1, true, if last_hash == 0 { end } else { last_hash })
    } else if t[end - 1].token_type == TokenType::Whitespace {
        if hashed {
            discard_ws_back(t, start, end - 1)
        } else {
            cleanup_end(t, start, end - 1, false, last_hash)
        }
    } else if hashed {
        last_hash
    } else {
        end
    }
}

/// A token that may follow the opening `#`s.
pub open spec fn ends_opening(ty: TokenType) -> bool {
    ty == TokenType::Whitespace || ty == TokenType::Newline || ty == TokenType::Eof
}

/// The header text's token range: after the opening `#`s and the spaces
/// that follow them, up to the cleaned-up end of the line.
pub open spec fn header_text(t: Seq<TokenView>, i: int) -> (int, int) {
    let s = skip_whitespace(t, hash_run_end(t, i));
    (s, cleanup_end(t, s, line_end(t, s), false, 0))
}

/// What parsing a header at `i` does.
pub open spec fn header_outcome(t: Seq<TokenView>, i: int) -> StepView {
    if !is_type(t, i, TokenType::Hash) {
        StepView { cur: i, result: Err(""@) }
    } else {
        let j = hash_run_end(t, i);
        let level = j - i;
        let line = t[i].line;
        if j < t.len() && !ends_opening(t[j].token_type) {
            StepView { cur: j, result: Err(line_message(line, "expected space after '#'"@)) }
        } else if level > MAX_HEADER_LEVEL {
            StepView {
                cur: j,
                result: Err(line_message(line, "invalid header level "@ + decimal(level as nat))),
            }
        } else {
            let (s, e) = header_text(t, i);
            let cur = line_end(t, s);
            match inline_result(t.subrange(s, e), Set::empty()) {
                Ok(v) => StepView { cur, result: Ok(BlockView::Header { level: level as u8, content: v }) },
                Err(m) => StepView { cur, result: Err(m) },
            }
        }
    }
}

/// Parsing a header at `i` stays within the parser's limits: at most 255
/// opening `#`s, and text whose emphasis stays within the inline parser's
/// limits ([`inline_fits`]).
pub open spec fn header_fits(t: Seq<TokenView>, i: int) -> bool {
    is_type(t, i, TokenType::Hash) ==> {
        let j = hash_run_end(t, i);
        &&& j - i <= 255
        &&& (j < t.len() && !ends_opening(t[j].token_type)) || j - i > MAX_HEADER_LEVEL || {
            let (s, e) = header_text(t, i);
            inline_fits(t.subrange(s, e), Set::empty())
        }
    }
}

proof fn lemma_hash_run_end(t: Seq<TokenView>, i: int)
    requires
        0 <= i <= t.len(),
    ensures
        i <= hash_run_end(t, i) <= t.len(),
        hash_run_end(t, i) < t.len() ==> t[hash_run_end(t, i)].token_type != TokenType::Hash,
    decreases t.len() - i,
{
    if is_type(t, i, TokenType::Hash) {
        lemma_hash_run_end(t, i + 1);
    }
}

proof fn lemma_discard_ws_back(t: Seq<TokenView>, start: int, k: int)
    requires
        start <= k,
    ensures
        start <= discard_ws_back(t, start, k) <= k,
    decreases k - start,
{
    if k > start && is_type(t, k - 1, TokenType::Whitespace) {
        lemma_discard_ws_back(t, start, k - 1);
    }
}

proof fn lemma_cleanup_end(t: Seq<TokenView>, start: int, end: int, hashed: bool, last_hash: int)
    requires
        0 <= start <= end,
        hashed ==> end < last_hash,
        !hashed ==> last_hash == 0,
        last_hash <= t.len(),
        end <= t.len(),
    ensures
        start <= cleanup_end(t, start, end, hashed, last_hash) <= t.len(),
        !hashed ==> cleanup_end(t, start, end, hashed, last_hash) <= end,
        hashed ==> cleanup_end(t, start, end, hashed, last_hash) <= last_hash,
    decreases end - start,
{
    if end > start {
        if t[end - 1].token_type == TokenType::Hash {
            lemma_cleanup_end(t, start, end - 1, true, if last_hash == 0 { end } else { last_hash });
        } else if t[end - 1].token_type == TokenType::Whitespace {
            if hashed {
                lemma_discard_ws_back(t, start, end - 1);
            } else {
                lemma_cleanup_end(t, start, end - 1, false, last_hash);
            }
        }
    }
}

proof fn lemma_hash_run_exact(t: Seq<TokenView>, i: int, n: int)
    requires
        0 <= i,
        0 <= n,
        i + n <= t.len(),
        forall|k: int| i <= k < i + n ==> #[trigger] t[k].token_type == TokenType::Hash,
        i + n == t.len() || t[i + n].token_type != TokenType::Hash,
    ensures
        hash_run_end(t, i) == i + n,
    decreases n,
{
    if n > 0 {
        lemma_hash_run_exact(t, i + 1, n - 1);
    }
}

/// A run of `n` `#`s at `i` followed by whitespace, a newline, `Eof` or the
/// end of the tokens: with one to six of them it is a header of level `n`
/// (whose text is the rest of the line, as [`header_text`] cuts it), unless
/// parsing that text's emphasis fails; with more it is refused as an invalid
/// level.
pub proof fn lemma_header_level(t: Seq<TokenView>, i: int, n: int)
    requires
        0 <= i,
        1 <= n,
        i + n <= t.len(),
        forall|k: int| i <= k < i + n ==> #[trigger] t[k].token_type == TokenType::Hash,
        i + n == t.len() || t[i + n].token_type == TokenType::Whitespace || t[i + n].token_type
            == TokenType::Newline || t[i + n].token_type == TokenType::Eof,
    ensures
        n <= 6 ==> ({
            let (s, e) = header_text(t, i);
            match inline_result(t.subrange(s, e), Set::empty()) {
                Ok(v) => header_outcome(t, i).result == Ok::<BlockView, Seq<char>>(
                    BlockView::Header { level: n as u8, content: v },
                ),
                Err(m) => header_outcome(t, i).result == Err::<BlockView, Seq<char>>(m),
            }
        }),
        n > 6 ==> header_outcome(t, i).result == Err::<BlockView, Seq<char>>(
            line_message(t[i].line, "invalid header level "@ + decimal(n as nat)),
        ),
{
    lemma_hash_run_exact(t, i, n);
}

proof fn lemma_skip_ws_exact(t: Seq<TokenView>, k: int, s: int)
    requires
        0 <= k <= s <= t.len(),
        forall|q: int| k <= q < s ==> #[trigger] t[q].token_type == TokenType::Whitespace,
        s == t.len() || t[s].token_type != TokenType::Whitespace,
    ensures
        skip_whitespace(t, k) == s,
    decreases s - k,
{
    if k < s {
        lemma_skip_ws_exact(t, k + 1, s);
    }
}

proof fn lemma_line_end_exact(t: Seq<TokenView>, k: int, l: int)
    requires
        0 <= k <= l <= t.len(),
        forall|q: int| k <= q < l ==> #[trigger] t[q].token_type != TokenType::Newline && t[q].token_type
            != TokenType::Eof,
        l == t.len() || t[l].token_type == TokenType::Newline || t[l].token_type == TokenType::Eof,
    ensures
        line_end(t, k) == l,
    decreases l - k,
{
    if k < l {
        lemma_line_end_exact(t, k + 1, l);
    }
}

proof fn lemma_cleanup_ws_run(t: Seq<TokenView>, s: int, k: int, e1: int)
    requires
        0 <= s <= e1 <= k <= t.len(),
        forall|q: int| e1 <= q < k ==> #[trigger] t[q].token_type == TokenType::Whitespace,
    ensures
        cleanup_end(t, s, k, false, 0) == cleanup_end(t, s, e1, false, 0),
    decreases k - e1,
{
    if k > e1 {
        lemma_cleanup_ws_run(t, s, k - 1, e1);
    }
}

proof fn lemma_cleanup_hash_run(t: Seq<TokenView>, s: int, k: int, h: int, e1: int)
    requires
        0 <= s <= h <= k <= e1 <= t.len(),
        e1 >= 1,
        forall|q: int| h <= q < k ==> #[trigger] t[q].token_type == TokenType::Hash,
    ensures
        cleanup_end(t, s, k, true, e1) == cleanup_end(t, s, h, true, e1),
    decreases k - h,
{
    if k > h {
        lemma_cleanup_hash_run(t, s, k - 1, h, e1);
    }
}

/// Where a header's text ends. The header at `i` opens with `n` `#`s, then
/// whitespace up to `s`, where its text starts; its line ends at `l`.
/// Without the trailing whitespace the line ends at `e1`, and `h..e1` is
/// the run of `#`s that ends there (empty when none does). Without such a
/// run the text ends at `e1`. A run that makes up the whole text leaves it
/// empty. A run after whitespace closes the header: the text ends before
/// that whitespace. A run glued to the text stays in it, up to `e1`.
pub proof fn lemma_header_text_end(t: Seq<TokenView>, i: int, n: int, s: int, l: int, e1: int, h: int)
    requires
        0 <= i,
        1 <= n,
        i + n <= s <= h <= e1 <= l <= t.len(),
        forall|q: int| i <= q < i + n ==> #[trigger] t[q].token_type == TokenType::Hash,
        forall|q: int| i + n <= q < s ==> #[trigger] t[q].token_type == TokenType::Whitespace,
        i + n == t.len() || t[i + n].token_type != TokenType::Hash,
        s == t.len() || t[s].token_type != TokenType::Whitespace,
        forall|q: int| s <= q < l ==> #[trigger] t[q].token_type != TokenType::Newline && t[q].token_type
            != TokenType::Eof,
        l == t.len() || t[l].token_type == TokenType::Newline || t[l].token_type == TokenType::Eof,
        forall|q: int| e1 <= q < l ==> #[trigger] t[q].token_type == TokenType::Whitespace,
        e1 == s || t[e1 - 1].token_type != TokenType::Whitespace,
        forall|q: int| h <= q < e1 ==> #[trigger] t[q].token_type == TokenType::Hash,
        h == s || t[h - 1].token_type != TokenType::Hash,
    ensures
        header_text(t, i).0 == s,
        h == e1 ==> header_text(t, i).1 == e1,
        h < e1 && h == s ==> header_text(t, i).1 == s,
        h < e1 && h > s && t[h - 1].token_type == TokenType::Whitespace ==> {
            let e = header_text(t, i).1;
            &&& s <= e < h
            &&& forall|q: int| e <= q < h ==> #[trigger] t[q].token_type == TokenType::Whitespace
            &&& e == s || t[e - 1].token_type != TokenType::Whitespace
        },
        h < e1 && h > s && t[h - 1].token_type != TokenType::Whitespace ==> header_text(t, i).1 == e1,
{
    lemma_hash_run_exact(t, i, n);
    lemma_skip_ws_exact(t, i + n, s);
    lemma_line_end_exact(t, s, l);
    lemma_cleanup_ws_run(t, s, l, e1);
    if h < e1 {
        assert(cleanup_end(t, s, e1, false, 0) == cleanup_end(t, s, e1 - 1, true, e1));
        lemma_cleanup_hash_run(t, s, e1 - 1, h, e1);
        if h > s && t[h - 1].token_type == TokenType::Whitespace {
            lemma_discard_ws_back_shape(t, s, h - 1);
        }
    }
}

pub open spec fn ws_or_hash(t: Seq<TokenView>, k: int) -> bool {
    t[k].token_type == TokenType::Whitespace || t[k].token_type == TokenType::Hash
}

proof fn lemma_discard_ws_back_shape(t: Seq<TokenView>, start: int, k: int)
    requires
        0 <= start <= k <= t.len(),
    ensures
        ({
            let r = discard_ws_back(t, start, k);
            &&& start <= r <= k
            &&& forall|q: int| r <= q < k ==> #[trigger] t[q].token_type == TokenType::Whitespace
            &&& r == start || t[r - 1].token_type != TokenType::Whitespace
        }),
    decreases k - start,
{
    if k > start && is_type(t, k - 1, TokenType::Whitespace) {
        lemma_discard_ws_back_shape(t, start, k - 1);
    }
}

proof fn lemma_cleanup_shape(t: Seq<TokenView>, start: int, end: int, hashed: bool, last_hash: int, end0: int)
    requires
        0 <= start <= end <= end0 <= t.len(),
        forall|q: int| end <= q < end0 ==> #[trigger] ws_or_hash(t, q),
        hashed ==> end < last_hash <= end0 && t[last_hash - 1].token_type == TokenType::Hash,
        !hashed ==> last_hash == 0,
    ensures
        ({
            let r = cleanup_end(t, start, end, hashed, last_hash);
            &&& start <= r <= end0
            &&& forall|q: int| r <= q < end0 ==> #[trigger] ws_or_hash(t, q)
            &&& r == start || t[r - 1].token_type != TokenType::Whitespace
        }),
    decreases end - start,
{
    if end > start {
        if t[end - 1].token_type == TokenType::Hash {
            lemma_cleanup_shape(t, start, end - 1, true, if last_hash == 0 { end } else { last_hash }, end0);
        } else if t[end - 1].token_type == TokenType::Whitespace {
            if hashed {
                lemma_discard_ws_back_shape(t, start, end - 1);
            } else {
                lemma_cleanup_shape(t, start, end - 1, false, last_hash, end0);
            }
        }
    }
}

/// What a header parsed at `i` is made of: `level` opening `#`s, one to
/// six, followed by whitespace, a newline, `Eof` or the end; then the
/// spaces before the text; the text itself, which ends before the line
/// ends and does not end in whitespace; after it only whitespace and `#`s
/// (a closing run) up to the line's end, where the cursor stops.
pub proof fn lemma_header_shape(t: Seq<TokenView>, i: int)
    requires
        0 <= i <= t.len(),
        header_outcome(t, i).result is Ok,
    ensures
        ({
            let j = hash_run_end(t, i);
            let (s, e) = header_text(t, i);
            let le = line_end(t, s);
            &&& 1 <= j - i <= MAX_HEADER_LEVEL
            &&& forall|k: int| i <= k < j ==> #[trigger] t[k].token_type == TokenType::Hash
            &&& j == t.len() || ends_opening(t[j].token_type)
            &&& j <= s <= e <= le <= t.len()
            &&& forall|k: int| j <= k < s ==> #[trigger] t[k].token_type == TokenType::Whitespace
            &&& s == t.len() || t[s].token_type != TokenType::Whitespace
            &&& forall|k: int| s <= k < le ==> #[trigger] t[k].token_type != TokenType::Newline
                && t[k].token_type != TokenType::Eof
            &&& le == t.len() || t[le].token_type == TokenType::Newline || t[le].token_type == TokenType::Eof
            &&& forall|k: int| e <= k < le ==> #[trigger] ws_or_hash(t, k)
            &&& e == s || t[e - 1].token_type != TokenType::Whitespace
            &&& header_outcome(t, i).cur == le
        }),
{
    let j = hash_run_end(t, i);
    lemma_hash_run_end(t, i);
    lemma_hash_run_all(t, i);
    lemma_skip_whitespace(t, j);
    lemma_skip_ws_all(t, j);
    let s = skip_whitespace(t, j);
    lemma_line_end(t, s);
    let le = line_end(t, s);
    lemma_line_end_stops(t, s);
    lemma_hash_run_end(t, i + 1);
    assert(j >= i + 1);
    lemma_cleanup_shape(t, s, le, false, 0, le);
}

proof fn lemma_line_end_stops(t: Seq<TokenView>, i: int)
    requires
        0 <= i <= t.len(),
    ensures
        line_end(t, i) == t.len() || t[line_end(t, i)].token_type == TokenType::Newline || t[line_end(
            t,
            i,
        )].token_type == TokenType::Eof,
    decreases t.len() - i,
{
    if i < t.len() && t[i].token_type != TokenType::Newline && t[i].token_type != TokenType::Eof {
        lemma_line_end_stops(t, i + 1);
    }
}

proof fn lemma_hash_run_all(t: Seq<TokenView>, i: int)
    requires
        0 <= i <= t.len(),
    ensures
        forall|k: int| i <= k < hash_run_end(t, i) ==> #[trigger] t[k].token_type == TokenType::Hash,
    decreases t.len() - i,
{
    if is_type(t, i, TokenType::Hash) {
        lemma_hash_run_all(t, i + 1);
    }
}

proof fn lemma_skip_ws_all(t: Seq<TokenView>, i: int)
    requires
        0 <= i <= t.len(),
    ensures
        forall|k: int| i <= k < skip_whitespace(t, i) ==> #[trigger] t[k].token_type == TokenType::Whitespace,
    decreases t.len() - i,
{
    if is_type(t, i, TokenType::Whitespace) {
        lemma_skip_ws_all(t, i + 1);
    }
}

/// Walks `index` back over whitespace, not going below `text_start`.
fn discard_trailing_space(base: &BaseParser, text_start: usize, index: &mut usize)
    requires
        text_start <= *old(index) <= base.toks().len(),
    ensures
        *final(index) as int == discard_ws_back(base.toks(), text_start as int, *old(index) as int),
{
    let ghost t = base.toks();
    while *index > text_start
        invariant_except_break
            text_start <= *index <= t.len(),
            t == base.toks(),
            discard_ws_back(t, text_start as int, *index as int) == discard_ws_back(
                t,
                text_start as int,
                *old(index) as int,
            ),
        ensures
            *index as int == discard_ws_back(t, text_start as int, *old(index) as int),
        decreases *index,
    {
        proof {
            base.lemma_toks();
        }
        let token = &base.tokens()[*index - 1];
        proof {
            assert(token@ == t[*index - 1]);
        }
        if token.token_type() == TokenType::Whitespace {
            *index = *index - 1;
        } else {
            break;
        }
    }
}

/// Narrows the header text `text_start..text_end` to what stays: see
/// [`cleanup_end`].
fn clean_up_header_text(base: &BaseParser, text_start: usize, text_end: &mut usize)
    requires
        text_start <= *old(text_end) <= base.toks().len(),
    ensures
        *final(text_end) as int == cleanup_end(base.toks(), text_start as int, *old(text_end) as int, false, 0),
{
    let ghost t = base.toks();
    let mut hashed = false;
    let mut last_hash_index: usize = 0;
    while *text_end > text_start
        invariant_except_break
            text_start <= *text_end <= t.len(),
            t == base.toks(),
            hashed ==> *text_end < last_hash_index <= t.len(),
            !hashed ==> last_hash_index == 0,
            cleanup_end(t, text_start as int, *text_end as int, hashed, last_hash_index as int)
                == cleanup_end(t, text_start as int, *old(text_end) as int, false, 0),
        ensures
            *text_end as int == cleanup_end(t, text_start as int, *old(text_end) as int, false, 0),
        decreases *text_end,
    {
        proof {
            base.lemma_toks();
        }
        let token = &base.tokens()[*text_end - 1];
        proof {
            assert(token@ == t[*text_end - 1]);
        }
        let ty = token.token_type();
        if ty == TokenType::Hash {
            hashed = true;
            if last_hash_index == 0 {
                last_hash_index = *text_end;
            }
        } else if ty == TokenType::Whitespace {
            if hashed {
                *text_end = *text_end - 1;
                discard_trailing_space(base, text_start, text_end);
                break;
            }
        } else {
            if hashed {
                *text_end = last_hash_index;
            }
            break;
        }
        *text_end = *text_end - 1;
    }
}

/// Parses an ATX header: one to six `#`s, then a space (or the end of the
/// line), then the header text, whose emphasis is parsed. Trailing spaces
/// and a closing run of `#`s are left out of the text. Fails with
/// `Line {n}: expected space after '#'` or `Line {n}: invalid header level
/// {level}`; the cursor then stays after the `#`s. On success the cursor
/// stops at the end of the line.
pub fn header(base: &mut BaseParser) -> (r: ParseResult<AstBlock>)
    requires
        old(base).cur() <= old(base).toks().len(),
        header_fits(old(base).toks(), old(base).cur()),
    ensures
        final(base).same_but_cur(old(base)),
        final(base).cur() <= old(base).toks().len(),
        final(base).cur() == header_outcome(old(base).toks(), old(base).cur()).cur,
        result_view(r) == header_outcome(old(base).toks(), old(base).cur()).result,
{
    match header_checked(base) {
        Some(r) => r,
        None => {
            proof {
                assert(false);
            }
            Err(String::new())
        },
    }
}

/// Like [`header`], but first tests the parser's limits: `None` exactly
/// when a header at the cursor would leave them ([`header_fits`]).
pub fn header_checked(base: &mut BaseParser) -> (r: Option<ParseResult<AstBlock>>)
    requires
        old(base).cur() <= old(base).toks().len(),
    ensures
        final(base).same_but_cur(old(base)),
        final(base).cur() <= old(base).toks().len(),
        r is None <==> !header_fits(old(base).toks(), old(base).cur()),
        r matches Some(x) ==> final(base).cur() == header_outcome(old(base).toks(), old(base).cur()).cur
            && result_view(x) == header_outcome(old(base).toks(), old(base).cur()).result,
{
    let ghost t = base.toks();
    let ghost i = base.cur();
    proof {
        base.lemma_toks();
        reveal_strlit("");
    }
    let hash_token = match base.consume(TokenType::Hash, "") {
        Ok(tok) => tok,
        Err(e) => {
            return Some(Err(e));
        },
    };
    let line_number = hash_token.line();
    proof {
        lemma_hash_run_end(t, i);
        assert(hash_token@ == t[i]);
    }
    let mut level: u8 = 1;
    loop
        invariant_except_break
            base.same_but_cur(old(base)),
            t == base.toks(),
            i == old(base).cur(),
            i < base.cur() <= hash_run_end(t, i) <= t.len(),
            hash_run_end(t, base.cur()) == hash_run_end(t, i),
            level as int == base.cur() - i,
        ensures
            base.same_but_cur(old(base)),
            base.cur() == hash_run_end(t, i),
            level as int == base.cur() - i,
        decreases t.len() - base.cur(),
    {
        let ghost k = base.cur();
        match base.peek() {
            Some(tok) => {
                proof {
                    base.lemma_toks();
                    assert(tok@ == t[k]);
                }
                if tok.token_type() == TokenType::Hash {
                    proof {
                        lemma_hash_run_end(t, k + 1);
                    }
                    if level == 255 {
                        assert(hash_run_end(t, k) == hash_run_end(t, k + 1));
                        return None;
                    }
                    level = level + 1;
                    base.advance();
                } else {
                    break;
                }
            },
            None => {
                proof {
                    base.lemma_toks();
                }
                break;
            },
        }
    }
    let ghost j = base.cur();
    match base.peek() {
        Some(tok) => {
            proof {
                base.lemma_toks();
                assert(tok@ == t[j]);
            }
            let ty = tok.token_type();
            if !(ty == TokenType::Whitespace || ty == TokenType::Newline || ty == TokenType::Eof) {
                return Some(Err(line_message_string(line_number, "expected space after '#'")));
            }
        },
        None => {},
    }
    if level as usize > MAX_HEADER_LEVEL {
        let mut message = String::from_str("invalid header level ");
        let digits = usize_to_decimal(level as usize);
        message.append(digits.as_str());
        return Some(Err(line_message_string(line_number, message.as_str())));
    }
    proof {
        lemma_skip_whitespace(t, j);
    }
    while base.current() < base.tokens().len() && base.tokens()[base.current()].token_type()
        == TokenType::Whitespace
        invariant
            base.same_but_cur(old(base)),
            t == base.toks(),
            j <= base.cur() <= skip_whitespace(t, j) <= t.len(),
            skip_whitespace(t, base.cur()) == skip_whitespace(t, j),
        decreases t.len() - base.cur(),
    {
        proof {
            base.lemma_toks();
            lemma_skip_whitespace(t, base.cur() + 1);
        }
        base.advance();
    }
    let text_start = base.current();
    proof {
        base.lemma_toks();
        lemma_line_end(t, text_start as int);
    }
    loop
        invariant_except_break
            base.same_but_cur(old(base)),
            t == base.toks(),
            text_start as int <= base.cur() <= line_end(t, text_start as int) <= t.len(),
            line_end(t, base.cur()) == line_end(t, text_start as int),
        ensures
            base.same_but_cur(old(base)),
            base.cur() == line_end(t, text_start as int),
        decreases t.len() - base.cur(),
    {
        let ghost k = base.cur();
        match base.peek() {
            None => {
                proof {
                    base.lemma_toks();
                }
                break;
            },
            Some(tok) => {
                proof {
                    base.lemma_toks();
                    assert(tok@ == t[k]);
                }
                let ty = tok.token_type();
                if ty == TokenType::Newline || ty == TokenType::Eof {
                    break;
                }
                proof {
                    assert(line_end(t, k) == line_end(t, k + 1));
                    lemma_line_end(t, k + 1);
                }
                base.advance();
            },
        }
    }
    let mut text_end = base.current();
    proof {
        base.lemma_toks();
    }
    clean_up_header_text(base, text_start, &mut text_end);
    proof {
        lemma_cleanup_end(t, text_start as int, line_end(t, text_start as int), false, 0);
    }
    let ignored: HashSet<usize> = HashSet::new();
    match base.parse_inline_text_checked(text_start, text_end, &ignored) {
        None => None,
        Some(Ok(content)) => Some(Ok(AstBlock::header(level, content))),
        Some(Err(e)) => Some(Err(e)),
    }
}

/// Parsing a header never moves the cursor back, nor past the tokens.
pub proof fn lemma_header_outcome_bounds(t: Seq<TokenView>, i: int)
    requires
        0 <= i <= t.len(),
    ensures
        i <= header_outcome(t, i).cur <= t.len(),
{
    if is_type(t, i, TokenType::Hash) {
        lemma_hash_run_end(t, i);
        let j = hash_run_end(t, i);
        lemma_skip_whitespace(t, j);
        lemma_line_end(t, skip_whitespace(t, j));
    }
}

} // verus!
