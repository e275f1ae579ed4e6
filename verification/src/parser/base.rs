//! The token cursor shared by all parsers, and the parser's output.

use vstd::prelude::*;

use std::collections::HashSet;

use crate::ast::{AstBlock, block_views, BlockView, InlineContent};
use crate::parser::block_detector::{
    BlockDetector, MarkerRunAnalyser, MarkerView, register_marker, marker_count,
    first_non_whitespace_count, lemma_marker_index_range, marker_index, registered, occurrences, lemma_registered,
    lemma_one_run_iff_one_type, lemma_non_whitespace_count,
};
use crate::parser::delimiter::{DelimiterParser, inline_result, inline_fits, tokens_well_positioned};
use crate::chars::{is_alphanumeric, is_whitespace, unicode_alphanumeric, unicode_whitespace};
use crate::scanner::views;
use crate::token::{Token, TokenView};
use crate::token_type::TokenType;

verus! {

broadcast use {vstd::seq::group_seq_axioms, vstd::slice::group_slice_axioms};

/// Marks the end of the input when looking at the character after an
/// emphasis run.
pub const END_OF_INPUT_CHAR: char = '¶';

pub type ParseResult<T> = Result<T, String>;

pub open spec fn string_views(s: Seq<String>) -> Seq<Seq<char>> {
    s.map_values(|x: String| x@)
}

/// The blocks parsed from a document and the messages of the errors that
/// parsing recovered from.
#[derive(Debug)]
pub struct ParseOutput {
    blocks: Vec<AstBlock>,
    errors: Vec<String>,
}

impl ParseOutput {
    pub closed spec fn block_list(&self) -> Seq<BlockView> {
        block_views(self.blocks@)
    }

    pub closed spec fn error_list(&self) -> Seq<Seq<char>> {
        string_views(self.errors@)
    }

    pub fn new(blocks: Vec<AstBlock>, errors: Vec<String>) -> (r: Self)
        ensures
            r.block_list() == block_views(blocks@),
            r.error_list() == string_views(errors@),
    {
        ParseOutput { blocks, errors }
    }

    pub fn has_error(&self) -> (r: bool)
        ensures
            r == (self.error_list().len() > 0),
    {
        self.errors.len() > 0
    }

    pub fn blocks(&self) -> (r: &[AstBlock])
        ensures
            block_views(r@) == self.block_list(),
    {
        self.blocks.as_slice()
    }

    pub fn is_empty(&self) -> (r: bool)
        ensures
            r == (self.block_list().len() == 0),
    {
        self.blocks.len() == 0
    }

    /// Consumes the output and returns its blocks.
    pub fn into_blocks(self) -> (r: Vec<AstBlock>)
        ensures
            block_views(r@) == self.block_list(),
    {
        self.blocks
    }

    pub fn errors(&self) -> (r: &[String])
        ensures
            string_views(r@) == self.error_list(),
    {
        self.errors.as_slice()
    }
}

pub open spec fn is_type(t: Seq<TokenView>, i: int, ty: TokenType) -> bool {
    0 <= i < t.len() && t[i].token_type == ty
}

/// Two newlines in a row at `i`.
pub open spec fn blank_line_at(t: Seq<TokenView>, i: int) -> bool {
    is_type(t, i, TokenType::Newline) && is_type(t, i + 1, TokenType::Newline)
}

/// The first position at or after `i` that ends a block: the end, `Eof`, or
/// a blank line.
pub open spec fn block_boundary(t: Seq<TokenView>, i: int) -> int
    decreases t.len() - i,
{
    if i < 0 || i >= t.len() || t[i].token_type == TokenType::Eof || blank_line_at(t, i) {
        i
    } else {
        block_boundary(t, i + 1)
    }
}

/// Only whitespace stands between the start of the line (or of the tokens)
/// and position `i`.
pub open spec fn start_of_line_at(t: Seq<TokenView>, i: int) -> bool
    decreases i,
{
    if i <= 0 {
        true
    } else if t[i - 1].token_type == TokenType::Whitespace {
        start_of_line_at(t, i - 1)
    } else {
        t[i - 1].token_type == TokenType::Newline
    }
}

/// The first position at or after `i` that is not whitespace.
pub open spec fn skip_whitespace(t: Seq<TokenView>, i: int) -> int
    decreases t.len() - i,
{
    if is_type(t, i, TokenType::Whitespace) {
        skip_whitespace(t, i + 1)
    } else {
        i
    }
}

pub proof fn lemma_skip_whitespace(t: Seq<TokenView>, i: int)
    requires
        0 <= i <= t.len(),
    ensures
        i <= skip_whitespace(t, i) <= t.len(),
        is_type(t, i, TokenType::Whitespace) ==> i < skip_whitespace(t, i),
        skip_whitespace(t, i) < t.len() ==> t[skip_whitespace(t, i)].token_type
            != TokenType::Whitespace,
    decreases t.len() - i,
{
    if is_type(t, i, TokenType::Whitespace) {
        lemma_skip_whitespace(t, i + 1);
    }
}

/// Result of block detection: what was found, and the new position.
pub struct DetectState {
    pub detector: BlockDetector,
    pub cur: int,
}

/// Going back to the last saved position, when there is one.
pub open spec fn restored(cur: int, saved: Seq<usize>) -> (int, Seq<usize>) {
    if saved.len() > 0 {
        (saved.last() as int, saved.drop_last())
    } else {
        (cur, saved)
    }
}

/// Saving a position and then going back to the last saved position
/// returns to that position, with the stack as it was before the save.
pub proof fn lemma_restore_after_save(cur: int, saved: Seq<usize>, moved_to: int)
    requires
        0 <= cur <= usize::MAX,
    ensures
        restored(moved_to, saved.push(cur as usize)) == (cur, saved),
{
    assert(saved.push(cur as usize).drop_last() =~= saved);
}

/// The cursor operations of [`BaseParser`].
pub enum CursorOp {
    Advance,
    Consume(TokenType),
    SkipLineWhitespace,
    ToBlockBoundary,
    Save,
    Restore,
    ClearLastSave,
}

/// What one operation does to the position and the saved stack, as the
/// contract of its method says.
pub open spec fn cursor_step(t: Seq<TokenView>, cur: int, saved: Seq<usize>, op: CursorOp) -> (int, Seq<usize>) {
    match op {
        CursorOp::Advance => (if cur < t.len() {
            cur + 1
        } else {
            cur
        }, saved),
        CursorOp::Consume(ty) => (if is_type(t, cur, ty) {
            cur + 1
        } else {
            cur
        }, saved),
        CursorOp::SkipLineWhitespace => (skip_whitespace(t, cur), saved),
        CursorOp::ToBlockBoundary => (block_boundary(t, cur), saved),
        CursorOp::Save => (cur, saved.push(cur as usize)),
        CursorOp::Restore => restored(cur, saved),
        CursorOp::ClearLastSave => (cur, if saved.len() > 0 {
            saved.drop_last()
        } else {
            saved
        }),
    }
}

/// The position and saved stack after the operations `ops`, in order.
pub open spec fn cursor_run(t: Seq<TokenView>, cur: int, saved: Seq<usize>, ops: Seq<CursorOp>) -> (int, Seq<usize>)
    decreases ops.len(),
{
    if ops.len() == 0 {
        (cur, saved)
    } else {
        let (c, s) = cursor_run(t, cur, saved, ops.drop_last());
        cursor_step(t, c, s, ops.last())
    }
}

/// The operations never take the stack below `depth` entries.
pub open spec fn keeps_depth(t: Seq<TokenView>, cur: int, saved: Seq<usize>, ops: Seq<CursorOp>, depth: int) -> bool {
    forall|k: int| 0 <= k <= ops.len() ==> (#[trigger] cursor_run(t, cur, saved, ops.take(k))).1.len() >= depth
}

proof fn lemma_cursor_run_prefix(t: Seq<TokenView>, cur: int, saved: Seq<usize>, ops: Seq<CursorOp>, depth: int)
    requires
        0 <= depth <= saved.len(),
        keeps_depth(t, cur, saved, ops, depth),
    ensures
        cursor_run(t, cur, saved, ops).1.take(depth) == saved.take(depth),
    decreases ops.len(),
{
    assert(ops.take(ops.len() as int) =~= ops);
    assert(cursor_run(t, cur, saved, ops.take(ops.len() as int)).1.len() >= depth);
    if ops.len() > 0 {
        let p = ops.drop_last();
        assert forall|k: int| 0 <= k <= p.len() implies (#[trigger] cursor_run(t, cur, saved, p.take(k))).1.len() >= depth by {
            assert(p.take(k) =~= ops.take(k));
        }
        lemma_cursor_run_prefix(t, cur, saved, p, depth);
        let (c, s) = cursor_run(t, cur, saved, p);
        assert(ops.take(p.len() as int) =~= p);
        assert(s.len() >= depth);
        let s2 = cursor_step(t, c, s, ops.last()).1;
        assert(s2.len() >= depth);
        assert(s2.take(depth) =~= s.take(depth));
    }
}

/// Saving the position `cur`, then any operations that leave the stack at
/// least as deep as just after the save, and end with it as deep (every
/// further save matched by a restore or a cleared save), then a restore:
/// the restore brings the position back to `cur` and the stack back to
/// what it was before the save. Moves made in between are undone.
pub proof fn lemma_restore_undoes_moves(t: Seq<TokenView>, cur: int, saved: Seq<usize>, ops: Seq<CursorOp>)
    requires
        0 <= cur <= usize::MAX,
        keeps_depth(t, cur, saved.push(cur as usize), ops, saved.len() + 1int),
        cursor_run(t, cur, saved.push(cur as usize), ops).1.len() == saved.len() + 1,
    ensures
        ({
            let (c, s) = cursor_run(t, cur, saved.push(cur as usize), ops);
            cursor_step(t, c, s, CursorOp::Restore) == (cur, saved)
        }),
{
    let d: int = saved.len() + 1int;
    let sp = saved.push(cur as usize);
    lemma_cursor_run_prefix(t, cur, sp, ops, d);
    let (c, s) = cursor_run(t, cur, sp, ops);
    assert(s.take(d) =~= s);
    assert(sp.take(d) =~= sp);
    lemma_restore_after_save(cur, saved, c);
}

/// End of the line at `i`: a thematic break when one marker type was seen
/// at least three times; otherwise no block, and back to `cur0`.
pub open spec fn detect_finish(ms: Seq<MarkerView>, i: int, cur0: int) -> DetectState {
    if first_non_whitespace_count(ms) >= 3 {
        DetectState { detector: BlockDetector::ThematicBreak, cur: i }
    } else {
        DetectState { detector: BlockDetector::NoBlock, cur: cur0 }
    }
}

/// Block detection from token `i`, with the markers counted so far, the
/// marker type seen first (`Unset` if none) and the starting position
/// `cur0`.
pub open spec fn detect_from(t: Seq<TokenView>, i: int, ms: Seq<MarkerView>, prev: TokenType, cur0: int) -> DetectState
    decreases t.len() - i,
{
    if i < 0 || i >= t.len() {
        detect_finish(ms, i, cur0)
    } else {
        let ty = t[i].token_type;
        if ty == TokenType::Whitespace {
            let ms2 = register_marker(ms, ty);
            if marker_count(ms2, ty) == 4 && ms2.len() == 1 {
                DetectState { detector: BlockDetector::IndentedCode, cur: i + 1 }
            } else {
                detect_from(t, i + 1, ms2, prev, cur0)
            }
        } else if ty == TokenType::Star || ty == TokenType::Underscore || ty == TokenType::Dash {
            if prev != TokenType::Unset && prev != ty {
                DetectState { detector: BlockDetector::NoBlock, cur: cur0 }
            } else {
                detect_from(
                    t,
                    i + 1,
                    register_marker(ms, ty),
                    if prev == TokenType::Unset {
                        ty
                    } else {
                        prev
                    },
                    cur0,
                )
            }
        } else if ty == TokenType::Newline || ty == TokenType::Eof {
            detect_finish(ms, i, cur0)
        } else {
            DetectState { detector: BlockDetector::NoBlock, cur: cur0 }
        }
    }
}

/// The token types of `s`, in order.
pub open spec fn token_types(s: Seq<TokenView>) -> Seq<TokenType> {
    s.map_values(|x: TokenView| x.token_type)
}

pub open spec fn is_line_marker(ty: TokenType) -> bool {
    ty == TokenType::Star || ty == TokenType::Underscore || ty == TokenType::Dash
}

/// In `ts` there is nothing but whitespace and the marker `m`.
pub open spec fn only_whitespace_and(ts: Seq<TokenType>, m: TokenType) -> bool {
    forall|j: int| 0 <= j < ts.len() ==> #[trigger] ts[j] == TokenType::Whitespace || ts[j] == m
}

proof fn lemma_occurrences_all(ts: Seq<TokenType>, x: TokenType)
    requires
        forall|j: int| 0 <= j < ts.len() ==> #[trigger] ts[j] == x,
    ensures
        occurrences(ts, x) == ts.len(),
    decreases ts.len(),
{
    if ts.len() > 0 {
        let p = ts.drop_last();
        assert forall|j: int| 0 <= j < p.len() implies #[trigger] p[j] == x by {
            assert(p[j] == ts[j]);
        }
        lemma_occurrences_all(p, x);
    }
}

proof fn lemma_detect_shape_from(t: Seq<TokenView>, i: int, ms: Seq<MarkerView>, prev: TokenType, c0: int)
    requires
        0 <= c0 <= i <= t.len(),
        ms == registered(token_types(t.subrange(c0, i))),
        prev == TokenType::Unset ==> only_whitespace_and(token_types(t.subrange(c0, i)), TokenType::Whitespace),
        prev != TokenType::Unset ==> is_line_marker(prev) && only_whitespace_and(token_types(t.subrange(c0, i)), prev),
    ensures
        ({
            let d = detect_from(t, i, ms, prev, c0);
            &&& d.detector == BlockDetector::NoBlock ==> d.cur == c0
            &&& d.detector == BlockDetector::IndentedCode ==> d.cur == c0 + 4 && only_whitespace_and(
                token_types(t.subrange(c0, c0 + 4)),
                TokenType::Whitespace,
            )
            &&& d.detector == BlockDetector::ThematicBreak ==> {
                &&& c0 <= d.cur <= t.len()
                &&& (d.cur == t.len() || t[d.cur].token_type == TokenType::Newline || t[d.cur].token_type
                    == TokenType::Eof)
                &&& exists|m: TokenType| #[trigger] is_line_marker(m) && only_whitespace_and(
                    token_types(t.subrange(c0, d.cur)),
                    m,
                ) && occurrences(token_types(t.subrange(c0, d.cur)), m) >= 3
            }
        }),
    decreases t.len() - i,
{
    let ts = token_types(t.subrange(c0, i));
    if prev == TokenType::Unset {
        lemma_non_whitespace_count(ts, TokenType::Star);
        assert forall|j: int| 0 <= j < ts.len() implies #[trigger] ts[j] != TokenType::Star by {}
        assert(occurrences(ts, TokenType::Star) == 0) by {
            lemma_occurrences_none(ts, TokenType::Star);
        }
    } else {
        lemma_non_whitespace_count(ts, prev);
    }
    if prev != TokenType::Unset {
        assert(first_non_whitespace_count(ms) == occurrences(ts, prev));
    } else {
        assert(first_non_whitespace_count(ms) == 0);
    }
    if i < t.len() {
        let ty = t[i].token_type;
        let ts2 = token_types(t.subrange(c0, i + 1));
        assert(ts2 =~= ts.push(ty));
        assert(ts2.drop_last() =~= ts);
        let ms2 = register_marker(ms, ty);
        assert(ms2 == registered(ts2));
        if ty == TokenType::Whitespace {
            if marker_count(ms2, ty) == 4 && ms2.len() == 1 {
                lemma_registered(ts2);
                lemma_one_run_iff_one_type(ts2);
                assert(ts2[ts2.len() - 1] == TokenType::Whitespace);
                assert forall|j: int| 0 <= j < ts2.len() implies #[trigger] ts2[j] == TokenType::Whitespace by {
                    assert(ts2[j] == ts2[0]);
                    assert(ts2[ts2.len() - 1] == ts2[0]);
                }
                lemma_occurrences_all(ts2, TokenType::Whitespace);
                assert(marker_count(registered(ts2), TokenType::Whitespace) == occurrences(ts2, TokenType::Whitespace));
                assert(i + 1 == c0 + 4);
                assert(ts2 == token_types(t.subrange(c0, c0 + 4)));
                assert(only_whitespace_and(ts2, TokenType::Whitespace));
            } else {
                assert forall|j: int| 0 <= j < ts2.len() implies #[trigger] ts2[j] == TokenType::Whitespace || ts2[j]
                    == (if prev == TokenType::Unset { TokenType::Whitespace } else { prev }) by {
                    if j < ts.len() {
                        assert(ts2[j] == ts[j]);
                    }
                }
                lemma_detect_shape_from(t, i + 1, ms2, prev, c0);
            }
        } else if is_line_marker(ty) {
            if !(prev != TokenType::Unset && prev != ty) {
                let p2 = if prev == TokenType::Unset {
                    ty
                } else {
                    prev
                };
                assert forall|j: int| 0 <= j < ts2.len() implies #[trigger] ts2[j] == TokenType::Whitespace || ts2[j] == p2 by {
                    if j < ts.len() {
                        assert(ts2[j] == ts[j]);
                    }
                }
                lemma_detect_shape_from(t, i + 1, ms2, p2, c0);
            }
        }
    }
    if prev != TokenType::Unset {
        assert(is_line_marker(prev));
    }
}

proof fn lemma_occurrences_none(ts: Seq<TokenType>, x: TokenType)
    requires
        forall|j: int| 0 <= j < ts.len() ==> #[trigger] ts[j] != x,
    ensures
        occurrences(ts, x) == 0,
    decreases ts.len(),
{
    if ts.len() > 0 {
        let p = ts.drop_last();
        assert forall|j: int| 0 <= j < p.len() implies #[trigger] p[j] != x by {
            assert(p[j] == ts[j]);
        }
        lemma_occurrences_none(p, x);
    }
}

/// What block detection from `c0` finds, by the shape of the line: no
/// block leaves the cursor at `c0`; indented code, right after four
/// whitespace tokens at `c0`; a thematic break, at the line's end (a
/// newline, `Eof` or the end of the tokens), with only whitespace and one
/// kind of marker (`*`, `_` or `-`), at least three of it, before it.
pub proof fn lemma_detect_shape(t: Seq<TokenView>, c0: int)
    requires
        0 <= c0 <= t.len(),
    ensures
        ({
            let d = detect_from(t, c0, Seq::empty(), TokenType::Unset, c0);
            &&& d.detector == BlockDetector::NoBlock ==> d.cur == c0
            &&& d.detector == BlockDetector::IndentedCode ==> d.cur == c0 + 4 && only_whitespace_and(
                token_types(t.subrange(c0, c0 + 4)),
                TokenType::Whitespace,
            )
            &&& d.detector == BlockDetector::ThematicBreak ==> {
                &&& c0 <= d.cur <= t.len()
                &&& (d.cur == t.len() || t[d.cur].token_type == TokenType::Newline || t[d.cur].token_type
                    == TokenType::Eof)
                &&& exists|m: TokenType| #[trigger] is_line_marker(m) && only_whitespace_and(
                    token_types(t.subrange(c0, d.cur)),
                    m,
                ) && occurrences(token_types(t.subrange(c0, d.cur)), m) >= 3
            }
        }),
{
    assert(token_types(t.subrange(c0, c0)) =~= Seq::<TokenType>::empty());
    assert(registered(Seq::<TokenType>::empty()) == Seq::<MarkerView>::empty());
    lemma_detect_shape_from(t, c0, Seq::empty(), TokenType::Unset, c0);
}

proof fn lemma_detect_converse_from(
    t: Seq<TokenView>,
    i: int,
    ms: Seq<MarkerView>,
    prev: TokenType,
    c0: int,
    e: int,
    m: TokenType,
)
    requires
        0 <= c0 <= i <= e <= t.len(),
        e == t.len() || t[e].token_type == TokenType::Newline || t[e].token_type == TokenType::Eof,
        m == TokenType::Star || m == TokenType::Underscore || m == TokenType::Dash,
        forall|k: int| c0 <= k < e ==> #[trigger] t[k].token_type == TokenType::Whitespace || t[k].token_type == m,
        !(c0 + 4 <= e && forall|k: int| c0 <= k < c0 + 4 ==> #[trigger] t[k].token_type == TokenType::Whitespace),
        ms == registered(token_types(t.subrange(c0, i))),
        prev == TokenType::Unset || prev == m,
        prev == TokenType::Unset ==> forall|k: int| c0 <= k < i ==> #[trigger] t[k].token_type == TokenType::Whitespace,
    ensures
        detect_from(t, i, ms, prev, c0) == (if occurrences(token_types(t.subrange(c0, e)), m) >= 3 {
            DetectState { detector: BlockDetector::ThematicBreak, cur: e }
        } else {
            DetectState { detector: BlockDetector::NoBlock, cur: c0 }
        }),
    decreases t.len() - i,
{
    let ts = token_types(t.subrange(c0, i));
    if i == e {
        assert forall|j: int| 0 <= j < ts.len() implies #[trigger] ts[j] == TokenType::Whitespace || ts[j] == m by {
            assert(ts[j] == t[c0 + j].token_type);
        }
        lemma_non_whitespace_count(ts, m);
    } else {
        let ty = t[i].token_type;
        let ts2 = token_types(t.subrange(c0, i + 1));
        assert(ts2 =~= ts.push(ty));
        assert(ts2.drop_last() =~= ts);
        let ms2 = register_marker(ms, ty);
        assert(ms2 == registered(ts2));
        if ty == TokenType::Whitespace {
            if marker_count(ms2, ty) == 4 && ms2.len() == 1 {
                lemma_registered(ts2);
                lemma_one_run_iff_one_type(ts2);
                assert forall|j: int| 0 <= j < ts2.len() implies #[trigger] ts2[j] == TokenType::Whitespace by {
                    assert(ts2[j] == ts2[0]);
                    assert(ts2[ts2.len() - 1] == ts2[0]);
                }
                lemma_occurrences_all(ts2, TokenType::Whitespace);
                assert(i + 1 == c0 + 4);
                assert forall|k: int| c0 <= k < c0 + 4 implies #[trigger] t[k].token_type == TokenType::Whitespace by {
                    assert(ts2[k - c0] == t[k].token_type);
                }
                assert(false);
            }
            lemma_detect_converse_from(t, i + 1, ms2, prev, c0, e, m);
        } else {
            assert(ty == m);
            lemma_detect_converse_from(t, i + 1, ms2, m, c0, e, m);
        }
    }
}

/// A line (from `c0` to a newline, `Eof` or the end of the tokens) of
/// whitespace and one kind of marker (`*`, `_` or `-`), not opening with
/// four whitespace tokens, is a thematic break when it has at least three
/// markers, ending at the line's end; with fewer it is no block, and the
/// cursor stays at `c0`. Four whitespace tokens at `c0` open indented code,
/// whatever follows them.
pub proof fn lemma_detect_converse(t: Seq<TokenView>, c0: int, e: int, m: TokenType)
    requires
        0 <= c0 <= e <= t.len(),
    ensures
        (c0 + 4 <= t.len() && forall|k: int| c0 <= k < c0 + 4 ==> #[trigger] t[k].token_type == TokenType::Whitespace)
            ==> detect_from(t, c0, Seq::empty(), TokenType::Unset, c0) == (DetectState {
            detector: BlockDetector::IndentedCode,
            cur: c0 + 4,
        }),
        ({
            &&& e == t.len() || t[e].token_type == TokenType::Newline || t[e].token_type == TokenType::Eof
            &&& m == TokenType::Star || m == TokenType::Underscore || m == TokenType::Dash
            &&& forall|k: int| c0 <= k < e ==> #[trigger] t[k].token_type == TokenType::Whitespace || t[k].token_type == m
            &&& !(c0 + 4 <= e && forall|k: int| c0 <= k < c0 + 4 ==> #[trigger] t[k].token_type == TokenType::Whitespace)
        }) ==> detect_from(t, c0, Seq::empty(), TokenType::Unset, c0) == (if occurrences(
            token_types(t.subrange(c0, e)),
            m,
        ) >= 3 {
            DetectState { detector: BlockDetector::ThematicBreak, cur: e }
        } else {
            DetectState { detector: BlockDetector::NoBlock, cur: c0 }
        }),
{
    assert(token_types(t.subrange(c0, c0)) =~= Seq::<TokenType>::empty());
    assert(registered(Seq::<TokenType>::empty()) == Seq::<MarkerView>::empty());
    if c0 + 4 <= t.len() && forall|k: int| c0 <= k < c0 + 4 ==> #[trigger] t[k].token_type == TokenType::Whitespace {
        let w = TokenType::Whitespace;
        let m0 = Seq::<MarkerView>::empty();
        let m1 = register_marker(m0, w);
        let m2 = register_marker(m1, w);
        let m3 = register_marker(m2, w);
        let m4 = register_marker(m3, w);
        assert(t[c0].token_type == w);
        assert(t[c0 + 1].token_type == w);
        assert(t[c0 + 2].token_type == w);
        assert(t[c0 + 3].token_type == w);
        assert(m1 == seq![MarkerView { token_type: w, count: 1 }]);
        assert(marker_index(m1, w) == Some(0int));
        assert(m2 =~= seq![MarkerView { token_type: w, count: 2 }]);
        assert(marker_index(m2, w) == Some(0int));
        assert(m3 =~= seq![MarkerView { token_type: w, count: 3 }]);
        assert(marker_index(m3, w) == Some(0int));
        assert(m4 =~= seq![MarkerView { token_type: w, count: 4 }]);
        assert(marker_index(m4, w) == Some(0int));
        let u = TokenType::Unset;
        assert(detect_from(t, c0 + 3, m3, u, c0) == (DetectState { detector: BlockDetector::IndentedCode, cur: c0 + 4 }));
        assert(detect_from(t, c0 + 2, m2, u, c0) == detect_from(t, c0 + 3, m3, u, c0));
        assert(detect_from(t, c0 + 1, m1, u, c0) == detect_from(t, c0 + 2, m2, u, c0));
        assert(detect_from(t, c0, m0, u, c0) == detect_from(t, c0 + 1, m1, u, c0));
    }
    if ({
        &&& e == t.len() || t[e].token_type == TokenType::Newline || t[e].token_type == TokenType::Eof
        &&& m == TokenType::Star || m == TokenType::Underscore || m == TokenType::Dash
        &&& forall|k: int| c0 <= k < e ==> #[trigger] t[k].token_type == TokenType::Whitespace || t[k].token_type == m
        &&& !(c0 + 4 <= e && forall|k: int| c0 <= k < c0 + 4 ==> #[trigger] t[k].token_type == TokenType::Whitespace)
    }) {
        lemma_detect_converse_from(t, c0, Seq::empty(), TokenType::Unset, c0, e, m);
    }
}

/// A thematic break that ends at `Eof` or at the end of the tokens leaves
/// its starting position saved; one that ends at a newline does not.
pub open spec fn detect_keeps_save(t: Seq<TokenView>, d: DetectState) -> bool {
    d.detector == BlockDetector::ThematicBreak && !is_type(t, d.cur, TokenType::Newline)
}

/// Logical positions are non-negative and never go backwards, and every
/// marker token takes at least one byte: what the scanner produces.
pub open spec fn positions_ok(t: Seq<TokenView>) -> bool {
    &&& forall|i: int|
        0 <= i < t.len() ==> 0 <= #[trigger] t[i].logical_byte_start <= t[i].logical_byte_end
    &&& forall|i: int, j: int|
        0 <= i < j < t.len() ==> #[trigger] t[i].logical_byte_end <= #[trigger] t[j].logical_byte_start
    &&& forall|i: int|
        0 <= i < t.len() && t[i].token_type == TokenType::Star ==> #[trigger] t[i].logical_byte_end
            - t[i].logical_byte_start >= 1
}

/// Any slice of well-positioned tokens is well positioned, whatever is ignored.
pub proof fn lemma_positions_slice(t: Seq<TokenView>, a: int, b: int, ig: Set<usize>)
    requires
        positions_ok(t),
        0 <= a <= b <= t.len(),
    ensures
        tokens_well_positioned(t.subrange(a, b), ig),
{
    let u = t.subrange(a, b);
    assert forall|i: int| 0 <= i < u.len() implies #[trigger] u[i].logical_byte_start <= u[i].logical_byte_end by {
        assert(u[i] == t[a + i]);
    }
    assert forall|i: int, j: int| 0 <= i < j < u.len() implies #[trigger] u[i].logical_byte_end <= #[trigger] u[j].logical_byte_start by {
        assert(u[i] == t[a + i]);
        assert(u[j] == t[a + j]);
    }
    assert forall|i: int| 0 <= i < u.len() && !crate::parser::delimiter::is_ignored(ig, i) && u[i].token_type == TokenType::Star implies #[trigger] u[i].logical_byte_end - u[i].logical_byte_start >= 1 by {
        assert(u[i] == t[a + i]);
    }
    if u.len() > 0 {
        assert(u[0] == t[a]);
    }
}

/// The lexemes of tokens `a..b`, joined.
pub open spec fn lexemes_between(t: Seq<TokenView>, a: int, b: int) -> Seq<char>
    decreases b - a,
{
    if b <= a {
        Seq::empty()
    } else {
        lexemes_between(t, a, b - 1) + t[b - 1].lexeme
    }
}

/// `format!("Line {}: {}", line, message)`.
pub open spec fn line_message(line: int, message: Seq<char>) -> Seq<char> {
    "Line "@ + crate::chars::decimal(line as nat) + ": "@ + message
}

/// What a block parser does from a position: where it leaves the cursor,
/// and what it returns.
pub struct StepView {
    pub cur: int,
    pub result: Result<BlockView, Seq<char>>,
}

pub open spec fn result_view(r: ParseResult<AstBlock>) -> Result<BlockView, Seq<char>> {
    match r {
        Ok(b) => Ok(b@),
        Err(e) => Err(e@),
    }
}

/// Writes `Line {line}: {message}`.
pub fn line_message_string(line: usize, message: &str) -> (r: String)
    ensures
        r@ == line_message(line as int, message@),
{
    let mut r = String::from_str("Line ");
    let n = crate::chars::usize_to_decimal(line);
    r.append(n.as_str());
    r.append(": ");
    r.append(message);
    r
}

/// A cursor over a token slice, with a stack of saved positions and a list
/// of error messages.
pub struct BaseParser<'a> {
    tokens: &'a [Token],
    current: usize,
    saved_positions: Vec<usize>,
    error_messages: Vec<String>,
}

/// Whether `c` counts as punctuation for emphasis flanking: neither
/// alphanumeric nor whitespace.
pub open spec fn spec_is_punctuation(c: char) -> bool {
    !unicode_alphanumeric(c) && !unicode_whitespace(c)
}

impl<'a> BaseParser<'a> {
    /// The tokens being parsed.
    pub open spec fn toks(&self) -> Seq<TokenView> {
        views(self.raw_tokens()@)
    }

    /// The tokens themselves.
    pub closed spec fn raw_tokens(&self) -> &'a [Token] {
        self.tokens
    }

    /// The index of the next token.
    pub closed spec fn cur(&self) -> int {
        self.current as int
    }

    /// The stack of saved positions.
    pub closed spec fn saved(&self) -> Seq<usize> {
        self.saved_positions@
    }

    /// The error messages collected so far.
    pub closed spec fn errs(&self) -> Seq<Seq<char>> {
        string_views(self.error_messages@)
    }

    pub proof fn lemma_toks(&self)
        ensures
            self.toks() == views(self.raw_tokens()@),
            self.toks().len() == self.raw_tokens()@.len(),
            self.toks().len() <= usize::MAX,
            0 <= self.cur() <= usize::MAX,
    {
        assert(vstd::slice::spec_slice_len(self.tokens) == self.tokens@.len());
    }

    /// Everything but the position is as in `other`.
    pub open spec fn same_but_cur(&self, other: &Self) -> bool {
        &&& self.raw_tokens() == other.raw_tokens()
        &&& self.saved() == other.saved()
        &&& self.errs() == other.errs()
    }

    pub fn new(tokens: &'a [Token]) -> (r: Self)
        ensures
            r.raw_tokens() == tokens,
            r.toks() == views(tokens@),
            r.cur() == 0,
            r.saved() == Seq::<usize>::empty(),
            r.errs() == Seq::<Seq<char>>::empty(),
    {
        let r = BaseParser {
            tokens,
            current: 0,
            saved_positions: Vec::new(),
            error_messages: Vec::new(),
        };
        assert(r.errs() =~= Seq::<Seq<char>>::empty());
        r
    }

    pub fn has_error(&self) -> (r: bool)
        ensures
            r == (self.errs().len() > 0),
    {
        self.error_messages.len() > 0
    }

    /// Pushes the current position onto the saved stack.
    pub fn save(&mut self)
        ensures
            final(self).saved() == old(self).saved().push(old(self).cur() as usize),
            final(self).raw_tokens() == old(self).raw_tokens(),
            final(self).cur() == old(self).cur(),
            final(self).errs() == old(self).errs(),
    {
        self.saved_positions.push(self.current);
    }

    /// Pops the last saved position and moves back to it; fails when nothing
    /// is saved.
    pub fn restore(&mut self) -> (r: ParseResult<()>)
        ensures
            final(self).raw_tokens() == old(self).raw_tokens(),
            final(self).errs() == old(self).errs(),
            old(self).saved().len() > 0 ==> {
                &&& r is Ok
                &&& final(self).cur() == old(self).saved().last()
                &&& final(self).saved() == old(self).saved().drop_last()
            },
            old(self).saved().len() == 0 ==> {
                &&& r matches Err(e) && e@ == "BaseParser internal restore error"@
                &&& final(self).cur() == old(self).cur()
                &&& final(self).saved() == old(self).saved()
            },
    {
        match self.saved_positions.pop() {
            Some(p) => {
                self.current = p;
                Ok(())
            },
            None => Err(String::from_str("BaseParser internal restore error")),
        }
    }

    /// Drops the last saved position, if any.
    pub fn clear_last_save(&mut self)
        ensures
            final(self).raw_tokens() == old(self).raw_tokens(),
            final(self).errs() == old(self).errs(),
            final(self).cur() == old(self).cur(),
            final(self).saved() == if old(self).saved().len() > 0 {
                old(self).saved().drop_last()
            } else {
                old(self).saved()
            },
    {
        self.saved_positions.pop();
    }

    pub fn clear_error_message(&mut self)
        ensures
            final(self).errs() == Seq::<Seq<char>>::empty(),
            final(self).raw_tokens() == old(self).raw_tokens(),
            final(self).cur() == old(self).cur(),
            final(self).saved() == old(self).saved(),
    {
        self.error_messages.clear();
        assert(self.errs() =~= Seq::<Seq<char>>::empty());
    }

    pub fn add_error_message(&mut self, err_msg: String)
        ensures
            final(self).errs() == old(self).errs().push(err_msg@),
            final(self).raw_tokens() == old(self).raw_tokens(),
            final(self).cur() == old(self).cur(),
            final(self).saved() == old(self).saved(),
    {
        let ghost before = self.errs();
        self.error_messages.push(err_msg);
        assert(self.errs() =~= before.push(err_msg@));
    }

    /// Keeps only the first `to_len` error messages.
    pub fn truncate_error_messages(&mut self, to_len: usize)
        ensures
            final(self).errs() == if to_len <= old(self).errs().len() {
                old(self).errs().take(to_len as int)
            } else {
                old(self).errs()
            },
            final(self).raw_tokens() == old(self).raw_tokens(),
            final(self).cur() == old(self).cur(),
            final(self).saved() == old(self).saved(),
    {
        let ghost before = self.error_messages@;
        self.error_messages.truncate(to_len);
        assert(to_len <= before.len() ==> self.errs() =~= string_views(before).take(to_len as int));
    }

    pub fn tokens(&self) -> (r: &'a [Token])
        ensures
            r == self.raw_tokens(),
    {
        self.tokens
    }

    pub fn current(&self) -> (r: usize)
        ensures
            r as int == self.cur(),
    {
        self.current
    }

    pub fn error_messages(&self) -> (r: &Vec<String>)
        ensures
            string_views(r@) == self.errs(),
    {
        &self.error_messages
    }

    /// The token at the current position, if any.
    pub fn peek(&self) -> (r: Option<&'a Token>)
        ensures
            self.cur() < self.toks().len() ==> (r matches Some(t) && t == self.raw_tokens()@[self.cur()]),
            self.cur() >= self.toks().len() ==> r is None,
    {
        if self.current < self.tokens.len() {
            Some(&self.tokens[self.current])
        } else {
            None
        }
    }

    /// The token `n` places after the current one, if any.
    pub fn peek_n(&self, n: usize) -> (r: Option<&'a Token>)
        requires
            self.cur() + n <= usize::MAX,
        ensures
            self.cur() + n < self.toks().len() ==> (r matches Some(t) && t == self.raw_tokens()@[self.cur() + n]),
            self.cur() + n >= self.toks().len() ==> r is None,
    {
        if self.current + n < self.tokens.len() {
            Some(&self.tokens[self.current + n])
        } else {
            None
        }
    }

    pub fn is_at_end(&self) -> (r: bool)
        ensures
            r == (self.cur() >= self.toks().len()),
    {
        self.current >= self.tokens.len()
    }

    /// The token before the current one, if any.
    pub fn previous(&self) -> (r: Option<&'a Token>)
        requires
            self.cur() > 0,
        ensures
            self.cur() - 1 < self.toks().len() ==> (r matches Some(t) && t == self.raw_tokens()@[self.cur() - 1]),
            self.cur() - 1 >= self.toks().len() ==> r is None,
    {
        if self.current - 1 < self.tokens.len() {
            Some(&self.tokens[self.current - 1])
        } else {
            None
        }
    }

    /// Returns the current token and moves past it; at the end, returns
    /// `None` and stays.
    pub fn advance(&mut self) -> (r: Option<&'a Token>)
        ensures
            final(self).same_but_cur(old(self)),
            old(self).cur() < old(self).toks().len() ==> {
                &&& r matches Some(t) && t == old(self).raw_tokens()@[old(self).cur()]
                &&& final(self).cur() == old(self).cur() + 1
            },
            old(self).cur() >= old(self).toks().len() ==> {
                &&& r is None
                &&& final(self).cur() == old(self).cur()
            },
    {
        if self.current < self.tokens.len() {
            let token = &self.tokens[self.current];
            self.current = self.current + 1;
            Some(token)
        } else {
            None
        }
    }

    /// Consumes the current token if it has the expected type; otherwise
    /// fails with `error_message` and stays.
    pub fn consume(&mut self, expected: TokenType, error_message: &str) -> (r: ParseResult<&'a Token>)
        ensures
            final(self).same_but_cur(old(self)),
            (old(self).cur() < old(self).toks().len()
                && old(self).toks()[old(self).cur()].token_type == expected) ==> {
                &&& r matches Ok(t) && t == old(self).raw_tokens()@[old(self).cur()]
                &&& final(self).cur() == old(self).cur() + 1
            },
            !(old(self).cur() < old(self).toks().len()
                && old(self).toks()[old(self).cur()].token_type == expected) ==> {
                &&& r matches Err(e) && e@ == error_message@
                &&& final(self).cur() == old(self).cur()
            },
    {
        if self.current < self.tokens.len() && self.tokens[self.current].token_type() == expected {
            let token = &self.tokens[self.current];
            self.current = self.current + 1;
            return Ok(token);
        }
        Err(error_message.to_owned())
    }

    /// Neither alphanumeric nor whitespace.
    pub fn is_punctuation(&self, c: char) -> (r: bool)
        ensures
            r == spec_is_punctuation(c),
    {
        !is_alphanumeric(c) && !is_whitespace(c)
    }

    /// The tokens with indexes `start..end`.
    pub fn tokens_slice(&self, start: usize, end: usize) -> (r: &'a [Token])
        requires
            start <= end <= self.toks().len(),
        ensures
            r@ == self.raw_tokens()@.subrange(start as int, end as int),
    {
        slice_subrange(self.tokens, start, end)
    }

    /// The current token and the next are both newlines.
    pub fn is_blank_line(&self) -> (r: bool)
        ensures
            r == blank_line_at(self.toks(), self.cur()),
    {
        if self.current >= self.tokens.len() {
            return false;
        }
        match (self.peek(), self.peek_n(1)) {
            (Some(t1), Some(t2)) => t1.token_type() == TokenType::Newline && t2.token_type()
                == TokenType::Newline,
            _ => false,
        }
    }

    /// Moves to the end of the current block (the end, `Eof`, or a blank
    /// line) and returns the new position.
    pub fn consume_until_block_boundary(&mut self) -> (r: usize)
        requires
            old(self).cur() <= old(self).toks().len(),
        ensures
            final(self).same_but_cur(old(self)),
            final(self).cur() == block_boundary(old(self).toks(), old(self).cur()),
            r as int == final(self).cur(),
    {
        let ghost target = block_boundary(self.toks(), self.cur());
        loop
            invariant
                self.same_but_cur(old(self)),
                0 <= self.cur() <= self.toks().len(),
                block_boundary(self.toks(), self.cur()) == target,
                target == block_boundary(old(self).toks(), old(self).cur()),
            ensures
                self.cur() == target,
            decreases self.toks().len() - self.cur(),
        {
            match self.peek() {
                None => break,
                Some(token) => {
                    let ty = token.token_type();
                    if ty == TokenType::Eof {
                        break;
                    }
                    if ty == TokenType::Newline && self.is_blank_line() {
                        break;
                    }
                    self.advance();
                },
            }
        }
        self.current
    }

    /// Only whitespace stands between the start of the line and the current
    /// position.
    pub fn is_start_of_line(&self) -> (r: bool)
        requires
            self.cur() <= self.toks().len(),
        ensures
            r == start_of_line_at(self.toks(), self.cur()),
    {
        if self.current == 0 {
            return true;
        }
        let mut index = self.current;
        while index > 0
            invariant
                index <= self.cur() <= self.toks().len(),
                start_of_line_at(self.toks(), index as int) == start_of_line_at(self.toks(), self.cur()),
            decreases index,
        {
            let ty = self.tokens[index - 1].token_type();
            if ty == TokenType::Whitespace {
                index = index - 1;
            } else if ty == TokenType::Newline {
                return true;
            } else {
                return false;
            }
        }
        true
    }

    /// Recognises a thematic break (three or more of one of `*`, `_`, `-`,
    /// possibly with whitespace) or an indented code block (four leading
    /// spaces) on the current line. A thematic break leaves the cursor on
    /// the line's newline (or `Eof`, or the end); code, just after the fourth
    /// space; otherwise the cursor goes back to where it started. The saved
    /// positions are as they were, but after a thematic break that ends at
    /// `Eof` or at the end of the tokens: the starting position then stays
    /// saved on top of them.
    pub fn detect_block(&mut self) -> (r: BlockDetector)
        requires
            old(self).cur() <= old(self).toks().len(),
        ensures
            final(self).raw_tokens() == old(self).raw_tokens(),
            final(self).errs() == old(self).errs(),
            ({
                let d = detect_from(old(self).toks(), old(self).cur(), Seq::empty(), TokenType::Unset, old(self).cur());
                &&& r == d.detector
                &&& final(self).cur() == d.cur
                &&& final(self).saved() == if detect_keeps_save(old(self).toks(), d) {
                    old(self).saved().push(old(self).cur() as usize)
                } else {
                    old(self).saved()
                }
            }),
    {
        let mut markers = MarkerRunAnalyser::new();
        let mut prev_token_type: TokenType = TokenType::Unset;
        let ghost cur0 = self.cur();
        let ghost saved0 = self.saved();
        let ghost t = self.toks();
        let ghost target = detect_from(t, cur0, Seq::empty(), TokenType::Unset, cur0);
        self.save();
        loop
            invariant
                self.raw_tokens() == old(self).raw_tokens(),
                self.errs() == old(self).errs(),
                t == self.toks(),
                cur0 == old(self).cur(),
                saved0 == old(self).saved(),
                target == detect_from(t, cur0, Seq::empty(), TokenType::Unset, cur0),
                cur0 <= self.cur() <= t.len(),
                self.saved() == saved0.push(cur0 as usize),
                detect_from(t, self.cur(), markers.markers(), prev_token_type, cur0) == target,
                forall|k: int| 0 <= k < markers.markers().len() ==> #[trigger] markers.markers()[k].count <= self.cur() - cur0,
            ensures
                self.cur() >= t.len() || t[self.cur()].token_type == TokenType::Eof
                    || t[self.cur()].token_type == TokenType::Newline,
                detect_from(t, self.cur(), markers.markers(), prev_token_type, cur0) == target,
                self.raw_tokens() == old(self).raw_tokens(),
                self.errs() == old(self).errs(),
                self.saved() == saved0.push(cur0 as usize),
                cur0 <= self.cur() <= t.len(),
            decreases t.len() - self.cur(),
        {
            if self.is_at_end() {
                break;
            }
            let token_type = self.peek().unwrap().token_type();
            let ghost i = self.cur();
            let ghost ms = markers.markers();
            proof {
                self.lemma_toks();
                lemma_marker_index_range(ms, token_type);
            }
            if token_type == TokenType::Whitespace {
                let count = markers.register(token_type);
                if count == 4 && markers.only_one_run() {
                    self.advance();
                    self.clear_last_save();
                    return BlockDetector::IndentedCode;
                }
            } else if token_type == TokenType::Star || token_type == TokenType::Underscore
                || token_type == TokenType::Dash {
                if prev_token_type == TokenType::Unset {
                    prev_token_type = token_type;
                } else if prev_token_type != token_type {
                    let _ = self.restore();
                    return BlockDetector::NoBlock;
                }
                markers.register(token_type);
            } else if token_type == TokenType::Newline {
                break;
            } else if token_type == TokenType::Eof {
                break;
            } else {
                let _ = self.restore();
                return BlockDetector::NoBlock;
            }
            proof {
                let ms2 = markers.markers();
                lemma_marker_index_range(ms2, token_type);
                assert forall|k: int| 0 <= k < ms2.len() implies #[trigger] ms2[k].count <= self.cur() + 1 - cur0 by {
                    if k < ms.len() {
                        assert(ms[k].count <= i - cur0);
                    }
                }
            }
            self.advance();
        }
        if markers.non_whitespace_count() >= 3 {
            let at_newline = match self.peek() {
                Some(token) => token.token_type() == TokenType::Newline,
                None => false,
            };
            if at_newline {
                self.clear_last_save();
            }
            proof {
                self.lemma_toks();
            }
            BlockDetector::ThematicBreak
        } else {
            let _ = self.restore();
            BlockDetector::NoBlock
        }
    }

    /// Moves past whitespace tokens.
    pub fn skip_line_whitespace(&mut self)
        requires
            old(self).cur() <= old(self).toks().len(),
        ensures
            final(self).same_but_cur(old(self)),
            final(self).cur() == skip_whitespace(old(self).toks(), old(self).cur()),
            final(self).cur() <= final(self).toks().len(),
    {
        while self.current < self.tokens.len() && self.tokens[self.current].token_type() == TokenType::Whitespace
            invariant
                self.same_but_cur(old(self)),
                old(self).cur() <= self.cur() <= self.toks().len(),
                skip_whitespace(self.toks(), self.cur()) == skip_whitespace(old(self).toks(), old(self).cur()),
            decreases self.toks().len() - self.cur(),
        {
            self.advance();
        }
    }

    /// Parses the emphasis of tokens `start..end`, leaving out the tokens
    /// whose indexes (counted from `start`) are in `ignored_tokens`.
    pub fn parse_inline_text(&self, start_token_index: usize, end_token_index: usize, ignored_tokens: &HashSet<usize>) -> (r: ParseResult<InlineContent>)
        requires
            start_token_index <= end_token_index <= self.toks().len(),
            inline_fits(self.toks().subrange(start_token_index as int, end_token_index as int), ignored_tokens@),
        ensures
            match inline_result(self.toks().subrange(start_token_index as int, end_token_index as int), ignored_tokens@) {
                Ok(v) => r matches Ok(c) && c@ == v,
                Err(e) => r matches Err(m) && m@ == e,
            },
    {
        let slice = self.tokens_slice(start_token_index, end_token_index);
        assert(views(slice@) =~= self.toks().subrange(start_token_index as int, end_token_index as int));
        let mut inline_parser = DelimiterParser::new(slice, ignored_tokens);
        inline_parser.parse_inline()
    }
}

impl<'a> BaseParser<'a> {
    /// Like [`BaseParser::parse_inline_text`], but first tests the inline
    /// parser's limits: `None` exactly when they would be left.
    pub fn parse_inline_text_checked(&self, start_token_index: usize, end_token_index: usize, ignored_tokens: &HashSet<usize>) -> (r: Option<ParseResult<InlineContent>>)
        requires
            start_token_index <= end_token_index <= self.toks().len(),
        ensures
            r is None <==> !inline_fits(self.toks().subrange(start_token_index as int, end_token_index as int), ignored_tokens@),
            r matches Some(x) ==> match inline_result(self.toks().subrange(start_token_index as int, end_token_index as int), ignored_tokens@) {
                Ok(v) => x matches Ok(c) && c@ == v,
                Err(e) => x matches Err(m) && m@ == e,
            },
    {
        let slice = self.tokens_slice(start_token_index, end_token_index);
        assert(views(slice@) =~= self.toks().subrange(start_token_index as int, end_token_index as int));
        let mut inline_parser = DelimiterParser::new(slice, ignored_tokens);
        inline_parser.parse_inline_checked()
    }
}

/// `&s[start..end]`.
pub fn slice_subrange<'b, T>(s: &'b [T], start: usize, end: usize) -> (r: &'b [T])
    requires
        start <= end <= s@.len(),
    ensures
        r@ == s@.subrange(start as int, end as int),
{
    vstd::slice::slice_subrange(s, start, end)
}

} // verus!
