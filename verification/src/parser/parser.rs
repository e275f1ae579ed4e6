//! The block parser: walks a token list and dispatches each line to the
//! parser of the block that it starts.

use vstd::prelude::*;

use std::collections::HashSet;

use crate::ast::{AstBlock, block_views, BlockView};
use crate::chars::decimal;
use crate::parser::base::{
    BaseParser, ParseOutput, ParseResult, StepView, block_boundary, detect_from, is_type,
    result_view, skip_whitespace, start_of_line_at, string_views, line_message,
    lemma_skip_whitespace,
};
use crate::parser::block_detector::{BlockDetector, MarkerView, register_marker};
use crate::parser::code::{self, code_content, line_end, lemma_line_end};
use crate::parser::delimiter::{inline_fits, inline_result};
use crate::parser::header::{self, header_fits, header_outcome, header_text, lemma_header_level, lemma_header_outcome_bounds};
use crate::parser::image::{self, image_fits, image_outcome, lemma_image_outcome_bounds};
use crate::parser::text::{self, text_fits, text_outcome, lemma_text_outcome_bounds};
use crate::scanner::views;
use crate::token::{Token, TokenView};
use crate::token_type::TokenType;

verus! {

broadcast use {vstd::seq::group_seq_axioms, vstd::std_specs::hash::group_hash_axioms};

/// The state of a parse: the cursor, and the blocks and error messages
/// collected so far.
pub struct ParseState {
    pub cur: int,
    pub blocks: Seq<BlockView>,
    pub errs: Seq<Seq<char>>,
}

/// The parse is over: the tokens are used up, or the cursor is on `Eof`.
pub open spec fn parse_done(t: Seq<TokenView>, st: ParseState) -> bool {
    st.cur < 0 || st.cur >= t.len() || t[st.cur].token_type == TokenType::Eof
}

/// What parsing plain paragraph text up to the end of the block at `i`
/// does (the fallback after a failed header or image).
pub open spec fn plain_outcome(t: Seq<TokenView>, i: int) -> StepView {
    let e = block_boundary(t, i);
    match inline_result(t.subrange(i, e), Set::empty()) {
        Ok(v) => StepView { cur: e, result: Ok(BlockView::Paragraph { content: v }) },
        Err(m) => StepView { cur: e, result: Err(m) },
    }
}

/// Parsing plain text at `i` stays within the parser's limits: its
/// emphasis stays within the inline parser's limits ([`inline_fits`]).
pub open spec fn plain_fits(t: Seq<TokenView>, i: int) -> bool {
    inline_fits(t.subrange(i, block_boundary(t, i)), Set::empty())
}

/// Text can be parsed at `c`: within the limits, and not on whitespace at
/// the very first token (which has no token before it to look at).
pub open spec fn text_ok(t: Seq<TokenView>, c: int) -> bool {
    text_fits(t, c) && !(c == 0 && is_type(t, 0, TokenType::Whitespace))
}

/// Moves the cursor to `cur` and records a block or an error.
pub open spec fn with_result(st: ParseState, cur: int, r: Result<BlockView, Seq<char>>) -> ParseState {
    match r {
        Ok(b) => ParseState { cur, blocks: st.blocks.push(b), ..st },
        Err(e) => ParseState { cur, errs: st.errs.push(e), ..st },
    }
}

/// Steps over one token when the cursor has not moved from `before`.
pub open spec fn ensure_progress(t: Seq<TokenView>, st: ParseState, before: int) -> ParseState {
    if st.cur == before && before < t.len() {
        ParseState { cur: before + 1, ..st }
    } else {
        st
    }
}

/// A token type that may start a thematic break or an indented code block.
pub open spec fn may_start_detected(ty: TokenType) -> bool {
    ty == TokenType::Whitespace || ty == TokenType::Star || ty == TokenType::Underscore || ty
        == TokenType::Dash
}

/// A header or an image: tried, and kept if it parses; otherwise its error
/// is recorded and the block is taken as plain text.
pub open spec fn attempt_step(t: Seq<TokenView>, st: ParseState, o: StepView) -> ParseState {
    let i = st.cur;
    match o.result {
        Ok(b) => ensure_progress(t, ParseState { cur: o.cur, blocks: st.blocks.push(b), errs: st.errs }, i),
        Err(e) => {
            let p = plain_outcome(t, i);
            ensure_progress(t, with_result(ParseState { errs: st.errs.push(e), ..st }, p.cur, p.result), i)
        },
    }
}

/// One turn of the parse loop, from a state that is not done.
pub open spec fn parse_step(t: Seq<TokenView>, st: ParseState) -> ParseState {
    let i = st.cur;
    let ty = t[i].token_type;
    if ty == TokenType::Newline {
        ParseState { cur: i + 1, ..st }
    } else if start_of_line_at(t, i) && ty == TokenType::Hash {
        attempt_step(t, st, header_outcome(t, i))
    } else if start_of_line_at(t, i) && ty == TokenType::Bang {
        attempt_step(t, st, image_outcome(t, i))
    } else if start_of_line_at(t, i) && may_start_detected(ty) {
        let d = detect_from(t, i, Seq::empty(), TokenType::Unset, i);
        let st2 = ParseState { cur: d.cur, ..st };
        match d.detector {
            BlockDetector::ThematicBreak => ensure_progress(t, with_result(st2, d.cur, Ok(BlockView::Thematic)), i),
            BlockDetector::IndentedCode => ensure_progress(
                t,
                with_result(
                    st2,
                    line_end(t, d.cur),
                    Ok(BlockView::Code { language: None, content: code_content(t, d.cur) }),
                ),
                i,
            ),
            BlockDetector::NoBlock => if ty == TokenType::Whitespace {
                ParseState { cur: skip_whitespace(t, d.cur), ..st2 }
            } else {
                let o = text_outcome(t, d.cur);
                ensure_progress(t, with_result(st2, o.cur, o.result), i)
            },
        }
    } else {
        let o = text_outcome(t, i);
        ensure_progress(t, with_result(st, o.cur, o.result), i)
    }
}

/// The turn from `st` stays within the parser's limits.
pub open spec fn step_fits(t: Seq<TokenView>, st: ParseState) -> bool {
    let i = st.cur;
    let ty = t[i].token_type;
    if ty == TokenType::Newline {
        true
    } else if start_of_line_at(t, i) && ty == TokenType::Hash {
        header_fits(t, i) && (header_outcome(t, i).result is Err ==> plain_fits(t, i))
    } else if start_of_line_at(t, i) && ty == TokenType::Bang {
        image_fits(t, i) && (image_outcome(t, i).result is Err ==> plain_fits(t, i))
    } else if start_of_line_at(t, i) && may_start_detected(ty) {
        let d = detect_from(t, i, Seq::empty(), TokenType::Unset, i);
        (d.detector == BlockDetector::NoBlock && ty != TokenType::Whitespace) ==> text_ok(t, d.cur)
    } else {
        text_ok(t, i)
    }
}

/// The parse from `st`, turn by turn until it is done: the final state, or
/// `None` if a turn would leave the parser's limits. (Every turn moves the
/// cursor forward within the tokens, see [`lemma_turn_moves_forward`]; the
/// last test only makes the recursion's measure visible.)
pub open spec fn parse_from(t: Seq<TokenView>, st: ParseState) -> Option<ParseState>
    decreases t.len() - st.cur,
{
    if parse_done(t, st) {
        Some(st)
    } else if !step_fits(t, st) {
        None
    } else {
        let next = parse_step(t, st);
        if next.cur <= st.cur || next.cur > t.len() {
            None
        } else {
            parse_from(t, next)
        }
    }
}

/// The parse from `st` stays within the parser's limits.
pub open spec fn parse_fits(t: Seq<TokenView>, st: ParseState) -> bool {
    parse_from(t, st) is Some
}

/// The final state of the parse from `st`.
pub open spec fn parse_result(t: Seq<TokenView>, st: ParseState) -> ParseState {
    match parse_from(t, st) {
        Some(f) => f,
        None => st,
    }
}

/// Positions that the cursor may take: all within the tokens.
pub open spec fn state_ok(t: Seq<TokenView>, st: ParseState) -> bool {
    0 <= st.cur <= t.len()
}

proof fn lemma_block_boundary(t: Seq<TokenView>, i: int)
    requires
        0 <= i <= t.len(),
    ensures
        i <= block_boundary(t, i) <= t.len(),
    decreases t.len() - i,
{
    if i < t.len() && t[i].token_type != TokenType::Eof && !crate::parser::base::blank_line_at(t, i) {
        lemma_block_boundary(t, i + 1);
    }
}

/// Where block detection leaves the cursor: back at the start when nothing
/// is found, otherwise at or after the token it started from.
proof fn lemma_detect_bounds(t: Seq<TokenView>, i: int, ms: Seq<MarkerView>, prev: TokenType, cur0: int)
    requires
        0 <= i <= t.len(),
    ensures
        ({
            let d = detect_from(t, i, ms, prev, cur0);
            &&& d.detector == BlockDetector::NoBlock ==> d.cur == cur0
            &&& d.detector != BlockDetector::NoBlock ==> i <= d.cur <= t.len()
        }),
    decreases t.len() - i,
{
    if i < t.len() {
        let ty = t[i].token_type;
        if ty == TokenType::Whitespace {
            lemma_detect_bounds(t, i + 1, register_marker(ms, ty), prev, cur0);
        } else if ty == TokenType::Star || ty == TokenType::Underscore || ty == TokenType::Dash {
            if !(prev != TokenType::Unset && prev != ty) {
                lemma_detect_bounds(
                    t,
                    i + 1,
                    register_marker(ms, ty),
                    if prev == TokenType::Unset {
                        ty
                    } else {
                        prev
                    },
                    cur0,
                );
            }
        }
    }
}

/// Every turn of the parse moves the cursor forward and keeps it within
/// the tokens.
pub proof fn lemma_turn_moves_forward(t: Seq<TokenView>, st: ParseState)
    requires
        0 <= st.cur < t.len(),
    ensures
        st.cur < parse_step(t, st).cur <= t.len(),
{
    let i = st.cur;
    let ty = t[i].token_type;
    lemma_block_boundary(t, i);
    lemma_header_outcome_bounds(t, i);
    lemma_image_outcome_bounds(t, i);
    lemma_text_outcome_bounds(t, i);
    lemma_skip_whitespace(t, i);
    lemma_detect_bounds(t, i, Seq::empty(), TokenType::Unset, i);
    let d = detect_from(t, i, Seq::empty(), TokenType::Unset, i);
    lemma_line_end(t, d.cur);
    lemma_text_outcome_bounds(t, d.cur);
}

/// The parse goes turn by turn: from a state within the tokens that is not
/// done and whose turn fits, it ends where the parse from the next state
/// ends. So it fails only where a turn leaves the parser's limits.
pub proof fn lemma_parse_from_step(t: Seq<TokenView>, st: ParseState)
    requires
        state_ok(t, st),
        !parse_done(t, st),
        step_fits(t, st),
    ensures
        parse_from(t, st) == parse_from(t, parse_step(t, st)),
        state_ok(t, parse_step(t, st)),
{
    lemma_turn_moves_forward(t, st);
}

/// A line that starts with a run of one to six `#`s followed by
/// whitespace, a newline, `Eof` or the end of the tokens is parsed as a
/// header of that level: the parse's turn there adds it to the blocks and
/// no error, when the emphasis of its text parses. A run of more than six
/// is refused: the turn records `Line {n}: invalid header level {count}` and
/// goes on with the line as paragraph text.
pub proof fn lemma_parse_header_line(t: Seq<TokenView>, st: ParseState, n: int)
    requires
        0 <= st.cur,
        1 <= n,
        st.cur + n <= t.len(),
        start_of_line_at(t, st.cur),
        forall|k: int| st.cur <= k < st.cur + n ==> #[trigger] t[k].token_type == TokenType::Hash,
        st.cur + n == t.len() || t[st.cur + n].token_type == TokenType::Whitespace || t[st.cur
            + n].token_type == TokenType::Newline || t[st.cur + n].token_type == TokenType::Eof,
    ensures
        ({
            let (s, e) = header_text(t, st.cur);
            n <= 6 && inline_result(t.subrange(s, e), Set::empty()) is Ok ==> {
                &&& parse_step(t, st).blocks == st.blocks.push(
                    BlockView::Header { level: n as u8, content: inline_result(t.subrange(s, e), Set::empty())->Ok_0 },
                )
                &&& parse_step(t, st).errs == st.errs
            }
        }),
        n > 6 ==> {
            &&& parse_step(t, st).errs.len() > st.errs.len()
            &&& parse_step(t, st).errs[st.errs.len() as int] == line_message(
                t[st.cur].line,
                "invalid header level "@ + decimal(n as nat),
            )
            &&& plain_outcome(t, st.cur).result is Ok ==> parse_step(t, st).blocks == st.blocks.push(
                plain_outcome(t, st.cur).result->Ok_0,
            )
        },
{
    lemma_header_level(t, st.cur, n);
}

/// `new` holds every position of `old`, in place, and maybe more on top.
pub open spec fn keeps_saved(old: Seq<usize>, new: Seq<usize>) -> bool {
    old.len() <= new.len() && forall|k: int| 0 <= k < old.len() ==> #[trigger] new[k] == old[k]
}

/// Which block an attempt tries.
enum Attempt {
    Header,
    Image,
}

/// Parses a token list into blocks: headers, images, thematic breaks,
/// indented code and paragraphs.
pub struct Parser<'a> {
    base: BaseParser<'a>,
}

impl<'a> Parser<'a> {
    /// The tokens being parsed.
    pub closed spec fn toks(&self) -> Seq<TokenView> {
        self.base.toks()
    }

    /// The parser's state, with no blocks collected.
    pub closed spec fn state(&self) -> ParseState {
        ParseState {
            cur: self.base.cur(),
            blocks: Seq::empty(),
            errs: self.base.errs(),
        }
    }

    pub fn new(tokens: &'a [Token]) -> (r: Self)
        ensures
            r.toks() == views(tokens@),
            r.state() == (ParseState {
                cur: 0,
                blocks: Seq::empty(),
                errs: Seq::empty(),
            }),
    {
        Parser { base: BaseParser::new(tokens) }
    }

    /// The parser's state, with `blocks` collected.
    closed spec fn state_with(&self, blocks: Seq<AstBlock>) -> ParseState {
        ParseState {
            cur: self.base.cur(),
            blocks: block_views(blocks),
            errs: self.base.errs(),
        }
    }

    /// Runs a header or image parser; when it fails, goes back to where it
    /// started and drops the errors it added. A success keeps its moves and
    /// leaves the starting position saved. `None` when the parser would
    /// leave its limits.
    fn transaction(&mut self, attempt: Attempt) -> (r: Option<ParseResult<AstBlock>>)
        requires
            old(self).base.cur() <= old(self).base.toks().len(),
        ensures
            final(self).base.raw_tokens() == old(self).base.raw_tokens(),
            final(self).base.cur() <= final(self).base.toks().len(),
            keeps_saved(old(self).base.saved(), final(self).base.saved()),
            r is None <==> !(if attempt is Header {
                header_fits(old(self).base.toks(), old(self).base.cur())
            } else {
                image_fits(old(self).base.toks(), old(self).base.cur())
            }),
            r matches Some(x) ==> {
                let o = if attempt is Header {
                    header_outcome(old(self).base.toks(), old(self).base.cur())
                } else {
                    image_outcome(old(self).base.toks(), old(self).base.cur())
                };
                &&& result_view(x) == o.result
                &&& final(self).base.errs() == old(self).base.errs()
                &&& x is Ok ==> final(self).base.cur() == o.cur && final(self).base.saved()
                    == old(self).base.saved().push(old(self).base.cur() as usize)
                &&& x is Err ==> final(self).base.cur() == old(self).base.cur() && final(self).base.saved()
                    == old(self).base.saved()
            },
    {
        proof {
            self.base.lemma_toks();
        }
        self.base.save();
        let error_len = self.base.error_messages().len();
        let checked = match attempt {
            Attempt::Header => header::header_checked(&mut self.base),
            Attempt::Image => image::image_block_checked(&mut self.base),
        };
        let result = match checked {
            Some(x) => x,
            None => {
                return None;
            },
        };
        if result.is_err() {
            match self.base.restore() {
                Ok(()) => {},
                Err(e) => {
                    return Some(Err(e));
                },
            }
            self.base.truncate_error_messages(error_len);
            assert(self.base.errs() =~= old(self).base.errs());
        }
        Some(result)
    }

    /// Takes everything up to the end of the block (`Eof` or a blank line)
    /// as a paragraph.
    fn consume_as_parsed_text(&mut self) -> (r: Option<ParseResult<AstBlock>>)
        requires
            old(self).base.cur() <= old(self).base.toks().len(),
        ensures
            final(self).base.same_but_cur(&old(self).base),
            final(self).base.cur() == plain_outcome(old(self).base.toks(), old(self).base.cur()).cur,
            final(self).base.cur() <= final(self).base.toks().len(),
            r is None <==> !plain_fits(old(self).base.toks(), old(self).base.cur()),
            r matches Some(x) ==> result_view(x) == plain_outcome(old(self).base.toks(), old(self).base.cur()).result,
    {
        let start = self.base.current();
        let end = self.base.consume_until_block_boundary();
        proof {
            self.base.lemma_toks();
            lemma_block_boundary(self.base.toks(), start as int);
        }
        let ignored: HashSet<usize> = HashSet::new();
        match self.base.parse_inline_text_checked(start, end, &ignored) {
            None => None,
            Some(Ok(content)) => Some(Ok(AstBlock::paragraph(content))),
            Some(Err(e)) => Some(Err(e)),
        }
    }

    /// Records the block, or the error, that a turn produced; then, if the
    /// cursor is still at `before`, steps over one token.
    fn finish_turn(&mut self, blocks: &mut Vec<AstBlock>, block: ParseResult<AstBlock>, before: usize)
        requires
            old(self).base.cur() <= old(self).base.toks().len(),
        ensures
            final(self).base.raw_tokens() == old(self).base.raw_tokens(),
            final(self).base.saved() == old(self).base.saved(),
            final(self).base.cur() <= final(self).base.toks().len(),
            final(self).state_with(final(blocks)@) == ensure_progress(
                old(self).base.toks(),
                with_result(old(self).state_with(old(blocks)@), old(self).base.cur(), result_view(block)),
                before as int,
            ),
    {
        proof {
            self.base.lemma_toks();
        }
        match block {
            Ok(b) => {
                let ghost bs = blocks@;
                blocks.push(b);
                proof {
                    assert(block_views(blocks@) =~= block_views(bs).push(b@));
                }
            },
            Err(err) => {
                self.base.add_error_message(err);
            },
        }
        if self.base.current() == before {
            self.base.advance();
        }
    }

    /// A header or an image at the start of a line; `false` when the turn
    /// would leave the parser's limits.
    fn attempt_turn(&mut self, attempt: Attempt, blocks: &mut Vec<AstBlock>) -> (r: bool)
        requires
            state_ok(old(self).base.toks(), old(self).state_with(old(blocks)@)),
        ensures
            final(self).base.raw_tokens() == old(self).base.raw_tokens(),
            keeps_saved(old(self).base.saved(), final(self).base.saved()),
            state_ok(final(self).base.toks(), final(self).state_with(final(blocks)@)),
            r == ({
                let t = old(self).base.toks();
                let i = old(self).base.cur();
                if attempt is Header {
                    header_fits(t, i) && (header_outcome(t, i).result is Err ==> plain_fits(t, i))
                } else {
                    image_fits(t, i) && (image_outcome(t, i).result is Err ==> plain_fits(t, i))
                }
            }),
            r ==> final(self).state_with(final(blocks)@) == attempt_step(
                old(self).base.toks(),
                old(self).state_with(old(blocks)@),
                if attempt is Header {
                    header_outcome(old(self).base.toks(), old(self).base.cur())
                } else {
                    image_outcome(old(self).base.toks(), old(self).base.cur())
                },
            ),
    {
        let ghost t = self.base.toks();
        let ghost st = self.state_with(blocks@);
        let before = self.base.current();
        proof {
            self.base.lemma_toks();
        }
        let block = match self.transaction(attempt) {
            None => {
                proof {
                    self.base.lemma_toks();
                }
                return false;
            },
            Some(Ok(b)) => Ok(b),
            Some(Err(err)) => {
                self.base.add_error_message(err);
                proof {
                    lemma_block_boundary(t, st.cur);
                }
                match self.consume_as_parsed_text() {
                    None => {
                        proof {
                            self.base.lemma_toks();
                        }
                        return false;
                    },
                    Some(x) => x,
                }
            },
        };
        self.finish_turn(blocks, block, before);
        proof {
            self.base.lemma_toks();
        }
        true
    }

    /// A line that starts with whitespace or a marker: a thematic break, an
    /// indented code block, or else text (leading spaces are skipped);
    /// `false` when the turn would leave the parser's limits.
    fn detected_turn(&mut self, token_type: TokenType, blocks: &mut Vec<AstBlock>) -> (r: bool)
        requires
            state_ok(old(self).base.toks(), old(self).state_with(old(blocks)@)),
            may_start_detected(token_type),
        ensures
            final(self).base.raw_tokens() == old(self).base.raw_tokens(),
            keeps_saved(old(self).base.saved(), final(self).base.saved()),
            state_ok(final(self).base.toks(), final(self).state_with(final(blocks)@)),
            r == ({
                let t = old(self).base.toks();
                let i = old(self).base.cur();
                let d = detect_from(t, i, Seq::empty(), TokenType::Unset, i);
                (d.detector == BlockDetector::NoBlock && token_type != TokenType::Whitespace) ==> text_ok(t, d.cur)
            }),
            r ==> ({
                let t = old(self).base.toks();
                let st = old(self).state_with(old(blocks)@);
                let i = st.cur;
                let d = detect_from(t, i, Seq::empty(), TokenType::Unset, i);
                let st2 = ParseState { cur: d.cur, ..st };
                final(self).state_with(final(blocks)@) == match d.detector {
                    BlockDetector::ThematicBreak => ensure_progress(t, with_result(st2, d.cur, Ok(BlockView::Thematic)), i),
                    BlockDetector::IndentedCode => ensure_progress(
                        t,
                        with_result(
                            st2,
                            line_end(t, d.cur),
                            Ok(BlockView::Code { language: None, content: code_content(t, d.cur) }),
                        ),
                        i,
                    ),
                    BlockDetector::NoBlock => if token_type == TokenType::Whitespace {
                        ParseState { cur: skip_whitespace(t, d.cur), ..st2 }
                    } else {
                        let o = text_outcome(t, d.cur);
                        ensure_progress(t, with_result(st2, o.cur, o.result), i)
                    },
                }
            }),
    {
        let ghost t = self.base.toks();
        let ghost st = self.state_with(blocks@);
        let before = self.base.current();
        proof {
            self.base.lemma_toks();
            lemma_detect_bounds(t, st.cur, Seq::empty(), TokenType::Unset, st.cur);
        }
        let block = match self.base.detect_block() {
            BlockDetector::ThematicBreak => Ok(AstBlock::thematic()),
            BlockDetector::IndentedCode => code::code_block(&mut self.base),
            BlockDetector::NoBlock => {
                if token_type == TokenType::Whitespace {
                    self.base.skip_line_whitespace();
                    proof {
                        self.base.lemma_toks();
                    }
                    return true;
                } else {
                    match text::text_checked(&mut self.base) {
                        None => {
                            proof {
                                self.base.lemma_toks();
                            }
                            return false;
                        },
                        Some(x) => x,
                    }
                }
            },
        };
        self.finish_turn(blocks, block, before);
        proof {
            self.base.lemma_toks();
        }
        true
    }

    /// Paragraph text at the cursor; `false` when it would leave the
    /// parser's limits.
    fn text_turn(&mut self, blocks: &mut Vec<AstBlock>) -> (r: bool)
        requires
            state_ok(old(self).base.toks(), old(self).state_with(old(blocks)@)),
        ensures
            final(self).base.raw_tokens() == old(self).base.raw_tokens(),
            keeps_saved(old(self).base.saved(), final(self).base.saved()),
            state_ok(final(self).base.toks(), final(self).state_with(final(blocks)@)),
            r == text_ok(old(self).base.toks(), old(self).base.cur()),
            r ==> ({
                let t = old(self).base.toks();
                let st = old(self).state_with(old(blocks)@);
                let o = text_outcome(t, st.cur);
                final(self).state_with(final(blocks)@) == ensure_progress(t, with_result(st, o.cur, o.result), st.cur)
            }),
    {
        let ghost st = self.state_with(blocks@);
        let before = self.base.current();
        let block = match text::text_checked(&mut self.base) {
            None => {
                proof {
                    self.base.lemma_toks();
                }
                return false;
            },
            Some(x) => x,
        };
        self.finish_turn(blocks, block, before);
        proof {
            self.base.lemma_toks();
        }
        true
    }

    /// One turn of the parse loop: see [`parse_step`]; `false` when the
    /// turn would leave the parser's limits ([`step_fits`]).
    fn turn(&mut self, blocks: &mut Vec<AstBlock>) -> (r: bool)
        requires
            state_ok(old(self).base.toks(), old(self).state_with(old(blocks)@)),
            !parse_done(old(self).base.toks(), old(self).state_with(old(blocks)@)),
        ensures
            final(self).base.raw_tokens() == old(self).base.raw_tokens(),
            keeps_saved(old(self).base.saved(), final(self).base.saved()),
            state_ok(final(self).base.toks(), final(self).state_with(final(blocks)@)),
            r == step_fits(old(self).base.toks(), old(self).state_with(old(blocks)@)),
            r ==> final(self).state_with(final(blocks)@) == parse_step(old(self).base.toks(), old(self).state_with(old(blocks)@)),
    {
        let ghost t = self.base.toks();
        let ghost st = self.state_with(blocks@);
        proof {
            self.base.lemma_toks();
        }
        let token_type = match self.base.peek() {
            Some(token) => token.token_type(),
            None => {
                return true;
            },
        };
        proof {
            assert(token_type == t[st.cur].token_type);
        }
        if token_type == TokenType::Newline {
            self.base.advance();
            return true;
        }
        if !self.base.is_start_of_line() {
            self.text_turn(blocks)
        } else if token_type == TokenType::Hash {
            self.attempt_turn(Attempt::Header, blocks)
        } else if token_type == TokenType::Bang {
            self.attempt_turn(Attempt::Image, blocks)
        } else if token_type == TokenType::Whitespace || token_type == TokenType::Star || token_type
            == TokenType::Underscore || token_type == TokenType::Dash {
            self.detected_turn(token_type, blocks)
        } else {
            self.text_turn(blocks)
        }
    }

    /// The saved positions of the underlying cursor.
    pub closed spec fn saved(&self) -> Seq<usize> {
        self.base.saved()
    }

    /// Parses the tokens into blocks. Parsing never fails as a whole: a
    /// header or image that does not parse is recorded as an error and its
    /// block is kept as a paragraph; other errors are recorded and parsing
    /// goes on. Each turn moves forward, so the parse always ends; the
    /// result is the final state of [`parse_from`].
    pub fn parse(&mut self) -> (r: ParseOutput)
        requires
            state_ok(old(self).toks(), old(self).state()),
            parse_fits(old(self).toks(), ParseState { errs: Seq::empty(), ..old(self).state() }),
        ensures
            ({
                let fin = parse_result(old(self).toks(), ParseState { errs: Seq::empty(), ..old(self).state() });
                &&& r.block_list() == fin.blocks
                &&& r.error_list() == fin.errs
                &&& final(self).toks() == old(self).toks()
                &&& keeps_saved(old(self).saved(), final(self).saved())
                &&& final(self).state() == (ParseState { blocks: Seq::empty(), ..fin })
            }),
    {
        let ghost t = self.base.toks();
        let mut blocks: Vec<AstBlock> = Vec::new();
        self.base.clear_error_message();
        let ghost st0 = ParseState { errs: Seq::empty(), ..old(self).state() };
        let ghost target = parse_result(t, st0);
        proof {
            self.base.lemma_toks();
            assert(block_views(blocks@) =~= Seq::<BlockView>::empty());
            assert(self.state_with(blocks@) == st0);
        }
        loop
            invariant
                t == self.base.toks(),
                old(self).base.raw_tokens() == self.base.raw_tokens(),
                keeps_saved(old(self).base.saved(), self.base.saved()),
                state_ok(t, self.state_with(blocks@)),
                parse_from(t, self.state_with(blocks@)) == Some(target),
            ensures
                parse_done(t, self.state_with(blocks@)),
                parse_from(t, self.state_with(blocks@)) == Some(target),
                t == self.base.toks(),
                old(self).base.raw_tokens() == self.base.raw_tokens(),
                keeps_saved(old(self).base.saved(), self.base.saved()),
            decreases t.len() - self.base.cur(),
        {
            let ghost st = self.state_with(blocks@);
            if self.base.is_at_end() {
                break;
            }
            match self.base.peek() {
                None => {
                    break;
                },
                Some(token) => {
                    proof {
                        self.base.lemma_toks();
                        assert(token@ == t[st.cur]);
                    }
                    if token.token_type() == TokenType::Eof {
                        break;
                    }
                },
            }
            proof {
                lemma_parse_from_step(t, st);
            }
            let fits = self.turn(&mut blocks);
            assert(fits);
        }
        let errors = self.base.error_messages().clone();
        proof {
            assert(string_views(errors@) =~= self.base.errs());
        }
        ParseOutput::new(blocks, errors)
    }

    /// Parses like [`Parser::parse`], but tests the parser's limits turn by
    /// turn first: `None` exactly when the parse would leave them
    /// ([`parse_fits`] fails), and otherwise the result of `parse`.
    pub fn parse_checked(&mut self) -> (r: Option<ParseOutput>)
        requires
            state_ok(old(self).toks(), old(self).state()),
        ensures
            final(self).toks() == old(self).toks(),
            r is Some <==> parse_fits(old(self).toks(), ParseState { errs: Seq::empty(), ..old(self).state() }),
            r matches Some(out) ==> {
                let fin = parse_result(old(self).toks(), ParseState { errs: Seq::empty(), ..old(self).state() });
                &&& out.block_list() == fin.blocks
                &&& out.error_list() == fin.errs
                &&& keeps_saved(old(self).saved(), final(self).saved())
                &&& final(self).state() == (ParseState { blocks: Seq::empty(), ..fin })
            },
    {
        let ghost t = self.base.toks();
        let mut blocks: Vec<AstBlock> = Vec::new();
        self.base.clear_error_message();
        let ghost st0 = ParseState { errs: Seq::empty(), ..old(self).state() };
        proof {
            self.base.lemma_toks();
            assert(block_views(blocks@) =~= Seq::<BlockView>::empty());
            assert(self.state_with(blocks@) == st0);
        }
        loop
            invariant
                t == self.base.toks(),
                old(self).base.raw_tokens() == self.base.raw_tokens(),
                keeps_saved(old(self).base.saved(), self.base.saved()),
                state_ok(t, self.state_with(blocks@)),
                parse_from(t, self.state_with(blocks@)) == parse_from(t, st0),
                st0 == (ParseState { errs: Seq::<Seq<char>>::empty(), ..old(self).state() }),
                t == old(self).toks(),
            ensures
                parse_done(t, self.state_with(blocks@)),
                parse_from(t, self.state_with(blocks@)) == parse_from(t, st0),
                t == self.base.toks(),
                old(self).base.raw_tokens() == self.base.raw_tokens(),
                keeps_saved(old(self).base.saved(), self.base.saved()),
            decreases t.len() - self.base.cur(),
        {
            let ghost st = self.state_with(blocks@);
            if self.base.is_at_end() {
                break;
            }
            match self.base.peek() {
                None => {
                    break;
                },
                Some(token) => {
                    proof {
                        self.base.lemma_toks();
                        assert(token@ == t[st.cur]);
                    }
                    if token.token_type() == TokenType::Eof {
                        break;
                    }
                },
            }
            proof {
                lemma_turn_moves_forward(t, st);
            }
            let fits = self.turn(&mut blocks);
            if !fits {
                assert(parse_from(t, st) is None);
                return None;
            }
            proof {
                lemma_parse_from_step(t, st);
            }
        }
        let errors = self.base.error_messages().clone();
        proof {
            assert(string_views(errors@) =~= self.base.errs());
        }
        Some(ParseOutput::new(blocks, errors))
    }
}

} // verus!
