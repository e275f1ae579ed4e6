//! Inline emphasis: finds runs of `*`, decides which can open or close,
//! pairs openers with closers, and produces the text without the consumed
//! markers together with the styled byte ranges of that text.

use std::collections::HashSet;

use vstd::prelude::*;
use vstd::std_specs::hash::group_hash_axioms;

use crate::ast::{InlineContent, Span, SpanStyle, SpanView, span_views, style_of_count, InlineView};
use crate::chars::{str_byte_len, utf8_len, unicode_whitespace, unicode_alphanumeric, is_whitespace, lemma_utf8_len_encode, first_char, last_char};
use crate::parser::base::{BaseParser, ParseResult, END_OF_INPUT_CHAR, spec_is_punctuation, lexemes_between};
use crate::scanner::views;
use crate::token::{Token, TokenView};
use crate::token_type::TokenType;

verus! {

broadcast use {vstd::seq::group_seq_axioms, group_hash_axioms};

/// A run of consecutive emphasis markers, such as `***`.
#[derive(Debug, Clone, Copy)]
pub struct DelimiterRun {
    token_type: TokenType,
    /// Index of the run's first marker token.
    token_index: usize,
    /// Logical byte position just after the run's last marker.
    byte_index: usize,
    /// Number of markers in the run.
    count: u8,
    can_open: bool,
    can_close: bool,
    /// Markers left over after matching; they stay in the text.
    remaining: u8,
    /// Byte position of the run in the text without markers.
    text_index: usize,
}

pub struct RunView {
    pub token_type: TokenType,
    pub token_index: int,
    pub byte_index: int,
    pub count: int,
    pub can_open: bool,
    pub can_close: bool,
    pub remaining: int,
    pub text_index: int,
}

impl View for DelimiterRun {
    type V = RunView;

    closed spec fn view(&self) -> RunView {
        RunView {
            token_type: self.token_type,
            token_index: self.token_index as int,
            byte_index: self.byte_index as int,
            count: self.count as int,
            can_open: self.can_open,
            can_close: self.can_close,
            remaining: self.remaining as int,
            text_index: self.text_index as int,
        }
    }
}

/// An empty run: no markers, unset type, at position 0.
impl Default for DelimiterRun {
    fn default() -> (r: Self)
        ensures
            r@ == (RunView {
                token_type: TokenType::Unset,
                token_index: 0,
                byte_index: 0,
                count: 0,
                can_open: false,
                can_close: false,
                remaining: 0,
                text_index: 0,
            }),
    {
        DelimiterRun {
            token_type: TokenType::Unset,
            token_index: 0,
            byte_index: 0,
            count: 0,
            can_open: false,
            can_close: false,
            remaining: 0,
            text_index: 0,
        }
    }
}

pub type DelimiterRunVector = Vec<DelimiterRun>;

/// A matched opener and closer, and how many markers they use: 2 for bold,
/// 1 for italic.
#[derive(Debug, Clone, Copy, Eq, PartialEq, Structural)]
pub struct DelimiterMatch {
    opener_index: usize,
    closer_index: usize,
    use_count: u8,
}

pub struct MatchView {
    pub opener: int,
    pub closer: int,
    pub use_count: int,
}

impl View for DelimiterMatch {
    type V = MatchView;

    closed spec fn view(&self) -> MatchView {
        MatchView {
            opener: self.opener_index as int,
            closer: self.closer_index as int,
            use_count: self.use_count as int,
        }
    }
}

pub type DelimiterMatchVector = Vec<DelimiterMatch>;

pub open spec fn run_views(s: Seq<DelimiterRun>) -> Seq<RunView> {
    s.map_values(|r: DelimiterRun| r@)
}

pub open spec fn match_views(s: Seq<DelimiterMatch>) -> Seq<MatchView> {
    s.map_values(|m: DelimiterMatch| m@)
}

// ---------------------------------------------------------------------
// Finding runs.

pub open spec fn is_ignored(ig: Set<usize>, i: int) -> bool {
    ig.contains(i as usize)
}

/// Token types that end a pending run of markers.
pub open spec fn ends_run(ty: TokenType) -> bool {
    match ty {
        TokenType::Whitespace | TokenType::Hash | TokenType::Dash | TokenType::Bang
        | TokenType::EscapedChar | TokenType::Text | TokenType::Newline | TokenType::LBracket
        | TokenType::RBracket | TokenType::LParen | TokenType::RParen => true,
        _ => false,
    }
}

/// Whether the scan for runs stops at token `i`: past the end, or at an
/// `Eof` token that is not ignored.
pub open spec fn run_scan_stops(t: Seq<TokenView>, ig: Set<usize>, i: int) -> bool {
    i >= t.len() || (!is_ignored(ig, i) && t[i].token_type == TokenType::Eof)
}

/// Ends the pending run of `count` markers before token `cur`.
pub open spec fn flush_run(t: Seq<TokenView>, cur: int, count: int, runs: Seq<RunView>) -> Seq<
    RunView,
> {
    if count == 0 {
        runs
    } else {
        runs.push(
            RunView {
                token_type: t[cur - 1].token_type,
                token_index: cur - count,
                byte_index: t[cur - 1].logical_byte_end,
                count,
                can_open: false,
                can_close: false,
                remaining: count,
                text_index: 0,
            },
        )
    }
}

/// The pending marker count after token `i`.
pub open spec fn next_count(t: Seq<TokenView>, ig: Set<usize>, i: int, count: int) -> int {
    if is_ignored(ig, i) {
        count
    } else if t[i].token_type == TokenType::Star {
        count + 1
    } else if ends_run(t[i].token_type) {
        0
    } else {
        count
    }
}

/// The runs found from token `i` on, with `count` markers pending.
pub open spec fn runs_from(t: Seq<TokenView>, ig: Set<usize>, i: int, count: int, runs: Seq<RunView>) -> Seq<RunView>
    decreases t.len() - i,
{
    if i < 0 || run_scan_stops(t, ig, i) {
        flush_run(t, i, count, runs)
    } else {
        let runs2 = if !is_ignored(ig, i) && ends_run(t[i].token_type) {
            flush_run(t, i, count, runs)
        } else {
            runs
        };
        runs_from(t, ig, i + 1, next_count(t, ig, i, count), runs2)
    }
}

/// No pending marker count from token `i` on exceeds `bound`.
pub open spec fn counts_fit(t: Seq<TokenView>, ig: Set<usize>, i: int, count: int, bound: int) -> bool
    decreases t.len() - i,
{
    &&& count <= bound
    &&& (i < 0 || run_scan_stops(t, ig, i) || counts_fit(
        t,
        ig,
        i + 1,
        next_count(t, ig, i, count),
        bound,
    ))
}

/// Number of marker tokens before `n` that are not ignored.
pub open spec fn star_count(t: Seq<TokenView>, ig: Set<usize>, n: int) -> int
    decreases n,
{
    if n <= 0 {
        0
    } else {
        star_count(t, ig, n - 1) + if !is_ignored(ig, n - 1) && t[n - 1].token_type
            == TokenType::Star {
            1int
        } else {
            0int
        }
    }
}

/// Total logical width of the tokens before `n`.
pub open spec fn width_sum(t: Seq<TokenView>, n: int) -> int
    decreases n,
{
    if n <= 0 {
        0
    } else {
        width_sum(t, n - 1) + (t[n - 1].logical_byte_end - t[n - 1].logical_byte_start)
    }
}

/// Logical positions never go backwards, and each marker that is not
/// ignored takes at least one byte.
pub open spec fn tokens_well_positioned(t: Seq<TokenView>, ig: Set<usize>) -> bool {
    &&& forall|i: int|
        0 <= i < t.len() ==> #[trigger] t[i].logical_byte_start <= t[i].logical_byte_end
    &&& forall|i: int, j: int|
        0 <= i < j < t.len() ==> #[trigger] t[i].logical_byte_end <= #[trigger] t[j].logical_byte_start
    &&& forall|i: int|
        0 <= i < t.len() && !is_ignored(ig, i) && t[i].token_type == TokenType::Star
            ==> #[trigger] t[i].logical_byte_end - t[i].logical_byte_start >= 1
    &&& t.len() > 0 ==> t[0].logical_byte_start >= 0
}

/// There are no more markers than tokens.
proof fn lemma_star_count_le(t: Seq<TokenView>, ig: Set<usize>, n: int)
    requires
        0 <= n,
    ensures
        0 <= star_count(t, ig, n) <= n,
    decreases n,
{
    if n > 0 {
        lemma_star_count_le(t, ig, n - 1);
    }
}

proof fn lemma_width_sum(t: Seq<TokenView>, ig: Set<usize>, n: int)
    requires
        tokens_well_positioned(t, ig),
        1 <= n <= t.len(),
    ensures
        t[n - 1].logical_byte_end >= t[0].logical_byte_start + width_sum(t, n),
        width_sum(t, n) >= star_count(t, ig, n),
        star_count(t, ig, n) <= n,
    decreases n,
{
    assert(t[n - 1].logical_byte_start <= t[n - 1].logical_byte_end);
    if n > 1 {
        lemma_width_sum(t, ig, n - 1);
        assert(t[n - 2].logical_byte_end <= t[n - 1].logical_byte_start);
    } else {
        assert(width_sum(t, 0) == 0);
        assert(star_count(t, ig, 0) == 0);
    }
}

/// A run as `runs_from` makes it: at least one marker (and at most 255),
/// no more left over than it has, and its tokens within the slice.
pub open spec fn run_fact(t: Seq<TokenView>, r: RunView) -> bool {
    &&& 1 <= r.count <= 255
    &&& 0 <= r.remaining <= r.count
    &&& 0 <= r.byte_index <= usize::MAX
    &&& 0 <= r.token_index < t.len()
    &&& r.token_index + r.count <= t.len()
    &&& r.token_index + r.count <= usize::MAX
    &&& 0 <= r.text_index <= usize::MAX
}

pub open spec fn runs_fact(t: Seq<TokenView>, rs: Seq<RunView>) -> bool {
    forall|k: int| 0 <= k < rs.len() ==> run_fact(t, #[trigger] rs[k])
}

// ---------------------------------------------------------------------
// Deciding which runs can open and close.

/// The character before a run starting at token `ti`; `None` when that
/// token's lexeme is empty.
pub open spec fn flank_prev(t: Seq<TokenView>, ti: int) -> Option<char> {
    if ti == 0 {
        Some(' ')
    } else if t[ti - 1].lexeme.len() == 0 {
        None
    } else {
        Some(t[ti - 1].lexeme.last())
    }
}

/// The character after a run of `count` tokens starting at `ti`: the end
/// marker past the last token or at a newline or `Eof`; `None` when the next
/// token's lexeme is empty.
pub open spec fn flank_next(t: Seq<TokenView>, ti: int, count: int) -> Option<char> {
    let j = ti + count;
    if j >= t.len() {
        Some(END_OF_INPUT_CHAR)
    } else if t[j].token_type == TokenType::Eof || t[j].token_type == TokenType::Newline {
        Some(END_OF_INPUT_CHAR)
    } else if t[j].lexeme.len() == 0 {
        None
    } else {
        Some(t[j].lexeme[0])
    }
}

/// Left-flanking: the next character is not whitespace, and it is not
/// punctuation or the previous one is whitespace or punctuation.
pub open spec fn left_flanking(p: char, n: char) -> bool {
    !unicode_whitespace(n) && (!spec_is_punctuation(n) || unicode_whitespace(p)
        || spec_is_punctuation(p))
}

/// Right-flanking: the mirror image of left-flanking.
pub open spec fn right_flanking(p: char, n: char) -> bool {
    !unicode_whitespace(p) && (!spec_is_punctuation(p) || unicode_whitespace(n)
        || spec_is_punctuation(n))
}

pub open spec fn prev_char_error() -> Seq<char> {
    "Delimiter can_open can't extract preceeding lexeme last character"@
}

pub open spec fn next_char_error() -> Seq<char> {
    "Delimiter can_open can't extract following lexeme first character"@
}

/// A run with `can_open` and `can_close` decided, or the error met.
pub open spec fn classify_run(t: Seq<TokenView>, r: RunView) -> Result<RunView, Seq<char>> {
    match flank_prev(t, r.token_index) {
        None => Err(prev_char_error()),
        Some(p) => match flank_next(t, r.token_index, r.count) {
            None => Err(next_char_error()),
            Some(n) => Ok(
                RunView { can_open: left_flanking(p, n), can_close: right_flanking(p, n), ..r },
            ),
        },
    }
}

/// Classifies the runs from index `k` on; stops at the first error.
pub open spec fn classify_from(t: Seq<TokenView>, rs: Seq<RunView>, k: int) -> (
    Seq<RunView>,
    Option<Seq<char>>,
)
    decreases rs.len() - k,
{
    if k < 0 || k >= rs.len() {
        (rs, None)
    } else {
        match classify_run(t, rs[k]) {
            Err(e) => (rs, Some(e)),
            Ok(r2) => classify_from(t, rs.update(k, r2), k + 1),
        }
    }
}

// ---------------------------------------------------------------------
// Pairing openers with closers.

/// CommonMark's rule of three: when either run can both open and close,
/// they do not match if their lengths add up to a multiple of 3 unless both
/// are multiples of 3.
pub open spec fn rule_of_three(o: RunView, c: RunView) -> bool {
    if !(o.can_open && o.can_close) && !(c.can_open && c.can_close) {
        true
    } else {
        let sum_multiple_of_3 = (o.remaining + c.remaining) % 3 == 0;
        let not_both_multiples_of_3 = o.remaining % 3 != 0 || c.remaining % 3 != 0;
        !(sum_multiple_of_3 && not_both_multiples_of_3)
    }
}

pub open spec fn compatible(rs: Seq<RunView>, o: int, i: int) -> bool {
    rs[i].token_type == rs[o].token_type && rule_of_three(rs[o], rs[i])
}

/// The highest stack position below `sl` whose run can pair with run `i`.
pub open spec fn find_opener(rs: Seq<RunView>, stack: Seq<usize>, i: int, sl: int) -> Option<int>
    decreases sl,
{
    if sl <= 0 {
        None
    } else if compatible(rs, stack[sl - 1] as int, i) {
        Some(sl - 1)
    } else {
        find_opener(rs, stack, i, sl - 1)
    }
}

/// Runs, stack of open runs, and the matches made so far.
pub struct MatchState {
    pub runs: Seq<RunView>,
    pub stack: Seq<usize>,
    pub matches: Seq<MatchView>,
}

/// How many markers a match uses: two when both sides have two left.
pub open spec fn use_of(opener_count: int, closer_count: int) -> int {
    if opener_count >= 2 && closer_count >= 2 {
        2
    } else {
        1
    }
}

/// One match between run `i` and the opener at stack position `j`.
pub open spec fn match_once(st: MatchState, i: int, j: int) -> MatchState {
    let o = st.stack[j] as int;
    let oc = st.runs[o].remaining;
    let cc = st.runs[i].remaining;
    let u = use_of(oc, cc);
    let runs1 = st.runs.update(o, RunView { remaining: oc - u, ..st.runs[o] });
    let runs2 = runs1.update(i, RunView { remaining: cc - u, ..runs1[i] });
    MatchState {
        runs: runs2,
        stack: if oc - u == 0 {
            st.stack.remove(j)
        } else {
            st.stack
        },
        matches: st.matches.push(MatchView { opener: o, closer: i, use_count: u }),
    }
}

/// Run `i` closes openers on the stack, nearest compatible first, until it
/// has no markers left or no compatible opener remains.
pub open spec fn close_run(st: MatchState, i: int) -> MatchState
    decreases st.runs[i].remaining,
{
    if i < 0 || i >= st.runs.len() || st.runs[i].remaining <= 0 || st.stack.len() == 0 {
        st
    } else {
        match find_opener(st.runs, st.stack, i, st.stack.len() as int) {
            None => st,
            Some(j) => if 0 <= j < st.stack.len() && st.stack[j] != i && 0 <= st.stack[j] < st.runs.len() {
                close_run(match_once(st, i, j), i)
            } else {
                st
            },
        }
    }
}

/// Processes run `i`: a run that can only open goes on the stack, and one
/// that can neither open nor close is passed over; a run that can close
/// first closes what it can, then goes on the stack if it can open and has
/// markers left.
pub open spec fn match_run(st: MatchState, i: int) -> MatchState {
    if !st.runs[i].can_close {
        if st.runs[i].can_open {
            MatchState { stack: st.stack.push(i as usize), ..st }
        } else {
            st
        }
    } else {
        let st2 = close_run(st, i);
        if st2.runs[i].can_open && st2.runs[i].remaining > 0 {
            MatchState { stack: st2.stack.push(i as usize), ..st2 }
        } else {
            st2
        }
    }
}

/// Processes runs `i` up to `n`.
pub open spec fn match_from(st: MatchState, i: int, n: int) -> MatchState
    decreases n - i,
{
    if i < 0 || i >= n {
        st
    } else {
        match_from(match_run(st, i), i + 1, n)
    }
}

/// Order of matches: by opener ascending, then closer descending, then use
/// count descending.
pub open spec fn match_before(a: MatchView, b: MatchView) -> bool {
    a.opener < b.opener || (a.opener == b.opener && (a.closer > b.closer || (a.closer == b.closer
        && a.use_count > b.use_count)))
}

/// Inserts `x` after every element that does not come after it.
pub open spec fn insert_match(s: Seq<MatchView>, x: MatchView) -> Seq<MatchView>
    decreases s.len(),
{
    if s.len() == 0 {
        seq![x]
    } else if match_before(x, s[0]) {
        seq![x] + s
    } else {
        seq![s[0]] + insert_match(s.drop_first(), x)
    }
}

/// Stable sort of matches by `match_before`.
pub open spec fn sort_matches(s: Seq<MatchView>) -> Seq<MatchView>
    decreases s.len(),
{
    if s.len() == 0 {
        s
    } else {
        insert_match(sort_matches(s.drop_last()), s.last())
    }
}

/// The matches that pairing the runs produces, in sorted order, and the
/// runs with their remaining counts.
pub open spec fn matched(rs: Seq<RunView>, ms: Seq<MatchView>) -> (Seq<RunView>, Seq<MatchView>) {
    let st = match_from(MatchState { runs: rs, stack: Seq::empty(), matches: ms }, 0, rs.len() as int);
    (st.runs, sort_matches(st.matches))
}

/// A match refers to an opener before its closer, both existing runs, and
/// uses one or two markers.
pub open spec fn match_fact(n: int, m: MatchView) -> bool {
    &&& 0 <= m.opener < m.closer < n
    &&& (m.use_count == 1 || m.use_count == 2)
}

pub open spec fn matches_fact(n: int, ms: Seq<MatchView>) -> bool {
    forall|k: int| 0 <= k < ms.len() ==> match_fact(n, #[trigger] ms[k])
}

proof fn lemma_insert_match(s: Seq<MatchView>, x: MatchView, p: int)
    requires
        0 <= p <= s.len(),
        forall|q: int| 0 <= q < p ==> !match_before(x, #[trigger] s[q]),
        p < s.len() ==> match_before(x, s[p]),
    ensures
        insert_match(s, x) == s.take(p) + seq![x] + s.skip(p),
    decreases s.len(),
{
    if s.len() == 0 {
        assert(s.take(p) + seq![x] + s.skip(p) =~= seq![x]);
    } else if p == 0 {
        assert(s.take(p) + seq![x] + s.skip(p) =~= seq![x] + s);
    } else {
        assert(!match_before(x, s[0]));
        let t = s.drop_first();
        assert forall|q: int| 0 <= q < p - 1 implies !match_before(x, #[trigger] t[q]) by {
            assert(t[q] == s[q + 1]);
        }
        lemma_insert_match(t, x, p - 1);
        assert(s.take(p) + seq![x] + s.skip(p) =~= seq![s[0]] + (t.take(p - 1) + seq![x] + t.skip(p - 1)));
    }
}

proof fn lemma_find_opener_range(rs: Seq<RunView>, stack: Seq<usize>, i: int, sl: int)
    ensures
        find_opener(rs, stack, i, sl) matches Some(j) ==> 0 <= j < sl && compatible(rs, stack[j] as int, i),
    decreases sl,
{
    if sl > 0 {
        lemma_find_opener_range(rs, stack, i, sl - 1);
    }
}

proof fn lemma_insert_match_members(s: Seq<MatchView>, x: MatchView)
    ensures
        insert_match(s, x).len() == s.len() + 1,
        forall|k: int| 0 <= k < insert_match(s, x).len() ==> #[trigger] insert_match(s, x)[k] == x
            || s.contains(insert_match(s, x)[k]),
    decreases s.len(),
{
    if s.len() > 0 && !match_before(x, s[0]) {
        let t = s.drop_first();
        lemma_insert_match_members(t, x);
        let r = insert_match(s, x);
        assert forall|k: int| 0 <= k < r.len() implies #[trigger] r[k] == x || s.contains(r[k]) by {
            if k == 0 {
                assert(s.contains(s[0]));
            } else {
                assert(r[k] == insert_match(t, x)[k - 1]);
                if insert_match(t, x)[k - 1] != x {
                    let q = choose|q: int| 0 <= q < t.len() && t[q] == insert_match(t, x)[k - 1];
                    assert(s[q + 1] == t[q]);
                }
            }
        }
    } else if s.len() > 0 {
        let r = insert_match(s, x);
        assert forall|k: int| 0 <= k < r.len() implies #[trigger] r[k] == x || s.contains(r[k]) by {
            if k > 0 {
                assert(r[k] == s[k - 1]);
            }
        }
    }
}

/// How many markers of run `k` the match `m` uses.
pub open spec fn use_of_run(m: MatchView, k: int) -> int {
    if m.opener == k || m.closer == k {
        m.use_count
    } else {
        0
    }
}

/// How many markers of run `k` the matches use, all together.
pub open spec fn markers_used(ms: Seq<MatchView>, k: int) -> int
    decreases ms.len(),
{
    if ms.len() == 0 {
        0
    } else {
        use_of_run(ms[0], k) + markers_used(ms.drop_first(), k)
    }
}

proof fn lemma_markers_used_push(ms: Seq<MatchView>, x: MatchView, k: int)
    ensures
        markers_used(ms.push(x), k) == markers_used(ms, k) + use_of_run(x, k),
    decreases ms.len(),
{
    let e = Seq::<MatchView>::empty();
    assert(markers_used(e, k) == 0);
    if ms.len() == 0 {
        assert(ms.push(x).drop_first() =~= e);
        assert(ms.push(x)[0] == x);
    } else {
        assert(ms.push(x).drop_first() =~= ms.drop_first().push(x));
        assert(ms.push(x)[0] == ms[0]);
        lemma_markers_used_push(ms.drop_first(), x, k);
    }
}

proof fn lemma_markers_used_insert(s: Seq<MatchView>, x: MatchView, k: int)
    ensures
        markers_used(insert_match(s, x), k) == markers_used(s, k) + use_of_run(x, k),
    decreases s.len(),
{
    let e = Seq::<MatchView>::empty();
    assert(markers_used(e, k) == 0);
    if s.len() == 0 {
        assert(seq![x].drop_first() =~= e);
        assert(seq![x][0] == x);
    } else if match_before(x, s[0]) {
        assert((seq![x] + s).drop_first() =~= s);
        assert((seq![x] + s)[0] == x);
    } else {
        lemma_markers_used_insert(s.drop_first(), x, k);
        let r = seq![s[0]] + insert_match(s.drop_first(), x);
        assert(r.drop_first() =~= insert_match(s.drop_first(), x));
        assert(r[0] == s[0]);
    }
}

proof fn lemma_markers_used_sort(s: Seq<MatchView>, k: int)
    ensures
        markers_used(sort_matches(s), k) == markers_used(s, k),
    decreases s.len(),
{
    if s.len() > 0 {
        let d = s.drop_last();
        lemma_markers_used_sort(d, k);
        lemma_markers_used_insert(sort_matches(d), s.last(), k);
        lemma_markers_used_push(d, s.last(), k);
        assert(d.push(s.last()) =~= s);
    }
}

/// The markers that run `k` has lost since `rs0` are those the matches use.
pub open spec fn conserved(rs0: Seq<RunView>, st: MatchState) -> bool {
    &&& st.runs.len() == rs0.len()
    &&& forall|k: int|
        0 <= k < rs0.len() ==> rs0[k].remaining - #[trigger] st.runs[k].remaining == markers_used(
            st.matches,
            k,
        )
}

proof fn lemma_close_run_conserved(rs0: Seq<RunView>, st: MatchState, i: int)
    requires
        conserved(rs0, st),
    ensures
        conserved(rs0, close_run(st, i)),
    decreases st.runs[i].remaining,
{
    if !(i < 0 || i >= st.runs.len() || st.runs[i].remaining <= 0 || st.stack.len() == 0) {
        match find_opener(st.runs, st.stack, i, st.stack.len() as int) {
            None => {},
            Some(j) => {
                if 0 <= j < st.stack.len() && st.stack[j] != i && 0 <= st.stack[j] < st.runs.len() {
                    let st2 = match_once(st, i, j);
                    let o = st.stack[j] as int;
                    let u = use_of(st.runs[o].remaining, st.runs[i].remaining);
                    let m = MatchView { opener: o, closer: i, use_count: u };
                    assert forall|k: int| 0 <= k < rs0.len() implies rs0[k].remaining - #[trigger] st2.runs[k].remaining
                        == markers_used(st2.matches, k) by {
                        lemma_markers_used_push(st.matches, m, k);
                        assert(rs0[k].remaining - st.runs[k].remaining == markers_used(st.matches, k));
                    }
                    lemma_close_run_conserved(rs0, st2, i);
                }
            },
        }
    }
}

proof fn lemma_match_from_conserved(rs0: Seq<RunView>, st: MatchState, i: int, n: int)
    requires
        conserved(rs0, st),
    ensures
        conserved(rs0, match_from(st, i, n)),
    decreases n - i,
{
    if 0 <= i < n {
        let st1 = if !st.runs[i].can_close {
            st
        } else {
            lemma_close_run_conserved(rs0, st, i);
            close_run(st, i)
        };
        let st2 = match_run(st, i);
        assert(st2.runs == st1.runs && st2.matches == st1.matches);
        assert forall|k: int| 0 <= k < rs0.len() implies rs0[k].remaining - #[trigger] st2.runs[k].remaining
            == markers_used(st2.matches, k) by {
            assert(rs0[k].remaining - st1.runs[k].remaining == markers_used(st1.matches, k));
        }
        lemma_match_from_conserved(rs0, st2, i + 1, n);
    }
}

/// Matching keeps every marker accounted for: the markers that a run loses
/// are exactly those that the matches naming it, as opener or closer, use.
pub proof fn lemma_matched_conserves_markers(rs: Seq<RunView>, k: int)
    requires
        0 <= k < rs.len(),
    ensures
        ({
            let (rs2, ms2) = matched(rs, Seq::empty());
            &&& rs2.len() == rs.len()
            &&& rs[k].remaining - rs2[k].remaining == markers_used(ms2, k)
        }),
{
    let st0 = MatchState { runs: rs, stack: Seq::empty(), matches: Seq::empty() };
    lemma_match_from_conserved(rs, st0, 0, rs.len() as int);
    let st = match_from(st0, 0, rs.len() as int);
    assert(rs[k].remaining - st.runs[k].remaining == markers_used(st.matches, k));
    lemma_markers_used_sort(st.matches, k);
}

/// No match comes before one that precedes it: openers ascending, then
/// closers descending, then marker counts descending.
pub open spec fn matches_sorted(s: Seq<MatchView>) -> bool {
    forall|i: int, j: int| 0 <= i < j < s.len() ==> !match_before(#[trigger] s[j], #[trigger] s[i])
}

proof fn lemma_insert_match_sorted(s: Seq<MatchView>, x: MatchView)
    requires
        matches_sorted(s),
    ensures
        matches_sorted(insert_match(s, x)),
        insert_match(s, x).to_multiset() =~= s.to_multiset().insert(x),
    decreases s.len(),
{
    broadcast use vstd::multiset::group_multiset_axioms, vstd::seq_lib::group_to_multiset_ensures;

    let r = insert_match(s, x);
    if s.len() == 0 {
        assert(seq![x] =~= s.push(x));
    } else if match_before(x, s[0]) {
        assert forall|i: int, j: int| 0 <= i < j < r.len() implies !match_before(#[trigger] r[j], #[trigger] r[i]) by {
            if i == 0 {
                assert(r[j] == s[j - 1]);
                if j - 1 > 0 {
                    assert(!match_before(s[j - 1], s[0]));
                }
            } else {
                assert(r[i] == s[i - 1] && r[j] == s[j - 1]);
            }
        }
        assert(s =~= seq![x].drop_first() + s);
        assert(r.drop_first() =~= s);
        assert(r =~= seq![x] + s);
        vstd::seq_lib::lemma_seq_union_to_multiset_commutative(seq![x], s);
        assert(seq![x].to_multiset() =~= vstd::multiset::Multiset::empty().insert(x)) by {
            assert(seq![x] =~= Seq::<MatchView>::empty().push(x));
            vstd::seq_lib::to_multiset_build(Seq::<MatchView>::empty(), x);
        }
        vstd::seq_lib::lemma_multiset_commutative(seq![x], s);
    } else {
        let t = s.drop_first();
        assert forall|i: int, j: int| 0 <= i < j < t.len() implies !match_before(#[trigger] t[j], #[trigger] t[i]) by {
            assert(t[i] == s[i + 1] && t[j] == s[j + 1]);
        }
        lemma_insert_match_sorted(t, x);
        lemma_insert_match_members(t, x);
        let r0 = insert_match(t, x);
        assert forall|i: int, j: int| 0 <= i < j < r.len() implies !match_before(#[trigger] r[j], #[trigger] r[i]) by {
            assert(r[j] == r0[j - 1]);
            if i == 0 {
                assert(r[0] == s[0]);
                if r0[j - 1] != x {
                    let q = choose|q: int| 0 <= q < t.len() && t[q] == r0[j - 1];
                    assert(t[q] == s[q + 1]);
                }
            } else {
                assert(r[i] == r0[i - 1]);
            }
        }
        assert(r =~= seq![s[0]] + r0);
        assert(s =~= seq![s[0]] + t);
        vstd::seq_lib::lemma_multiset_commutative(seq![s[0]], r0);
        vstd::seq_lib::lemma_multiset_commutative(seq![s[0]], t);
    }
}

/// The matches come out sorted, and sorting keeps each of them, as many
/// times as it occurs.
pub proof fn lemma_sort_matches(s: Seq<MatchView>)
    ensures
        matches_sorted(sort_matches(s)),
        sort_matches(s).to_multiset() =~= s.to_multiset(),
    decreases s.len(),
{
    broadcast use vstd::multiset::group_multiset_axioms, vstd::seq_lib::group_to_multiset_ensures;

    if s.len() > 0 {
        let d = s.drop_last();
        lemma_sort_matches(d);
        lemma_insert_match_sorted(sort_matches(d), s.last());
        assert(d.push(s.last()) =~= s);
    }
}

/// Sorting keeps the matches: the same number, each one of those given.
proof fn lemma_sort_members(s: Seq<MatchView>)
    ensures
        sort_matches(s).len() == s.len(),
        forall|k: int| 0 <= k < sort_matches(s).len() ==> s.contains(#[trigger] sort_matches(s)[k]),
    decreases s.len(),
{
    if s.len() > 0 {
        let d = s.drop_last();
        lemma_sort_members(d);
        lemma_insert_match_members(sort_matches(d), s.last());
        let r = sort_matches(s);
        assert forall|k: int| 0 <= k < r.len() implies s.contains(#[trigger] r[k]) by {
            if r[k] == s.last() {
                assert(s[s.len() - 1] == s.last());
            } else {
                let q = choose|q: int| 0 <= q < sort_matches(d).len() && sort_matches(d)[q] == r[k];
                let q2 = choose|q2: int| 0 <= q2 < d.len() && d[q2] == sort_matches(d)[q];
                assert(s[q2] == d[q2]);
            }
        }
    }
}

/// Match `m` pairs an earlier run of `rs` that can open with a later one
/// of the same type that can close, using one or two markers.
pub open spec fn match_roles(rs: Seq<RunView>, m: MatchView) -> bool {
    &&& 0 <= m.opener < m.closer < rs.len()
    &&& rs[m.opener].can_open
    &&& rs[m.closer].can_close
    &&& rs[m.opener].token_type == rs[m.closer].token_type
    &&& (m.use_count == 1 || m.use_count == 2)
}

/// What matching keeps true of its state, for the runs `rs0` it started
/// from: only the markers left change; the stack holds runs before `i`
/// that can open; every match has its roles.
pub open spec fn roles_inv(rs0: Seq<RunView>, st: MatchState, i: int) -> bool {
    &&& st.runs.len() == rs0.len()
    &&& forall|k: int| 0 <= k < rs0.len() ==> #[trigger] st.runs[k] == RunView { remaining: st.runs[k].remaining, ..rs0[k] }
    &&& forall|q: int| 0 <= q < st.stack.len() ==> 0 <= #[trigger] st.stack[q] < i && i <= rs0.len() && rs0[st.stack[q] as int].can_open
    &&& forall|j: int| 0 <= j < st.matches.len() ==> match_roles(rs0, #[trigger] st.matches[j])
}

proof fn lemma_close_run_roles(rs0: Seq<RunView>, st: MatchState, i: int)
    requires
        roles_inv(rs0, st, i),
        0 <= i < rs0.len(),
        rs0[i].can_close,
    ensures
        roles_inv(rs0, close_run(st, i), i),
    decreases st.runs[i].remaining,
{
    if !(st.runs[i].remaining <= 0 || st.stack.len() == 0) {
        lemma_find_opener_range(st.runs, st.stack, i, st.stack.len() as int);
        match find_opener(st.runs, st.stack, i, st.stack.len() as int) {
            None => {},
            Some(j) => {
                if 0 <= j < st.stack.len() && st.stack[j] != i && 0 <= st.stack[j] < st.runs.len() {
                    let st2 = match_once(st, i, j);
                    let o = st.stack[j] as int;
                    assert(st.runs[o].token_type == rs0[o].token_type);
                    assert(st.runs[i].token_type == rs0[i].token_type);
                    assert forall|k: int| 0 <= k < rs0.len() implies #[trigger] st2.runs[k] == RunView {
                        remaining: st2.runs[k].remaining,
                        ..rs0[k]
                    } by {
                        assert(st.runs[k] == RunView { remaining: st.runs[k].remaining, ..rs0[k] });
                    }
                    assert forall|q: int| 0 <= q < st2.stack.len() implies 0 <= #[trigger] st2.stack[q] < i && i
                        <= rs0.len() && rs0[st2.stack[q] as int].can_open by {
                        if st2.stack.len() < st.stack.len() {
                            if q < j {
                                assert(st2.stack[q] == st.stack[q]);
                            } else {
                                assert(st2.stack[q] == st.stack[q + 1]);
                            }
                        } else {
                            assert(st2.stack[q] == st.stack[q]);
                        }
                    }
                    assert forall|k: int| 0 <= k < st2.matches.len() implies match_roles(rs0, #[trigger] st2.matches[k]) by {
                        if k < st.matches.len() {
                            assert(st2.matches[k] == st.matches[k]);
                        }
                    }
                    lemma_close_run_roles(rs0, st2, i);
                }
            },
        }
    }
}

proof fn lemma_match_from_roles(rs0: Seq<RunView>, st: MatchState, i: int, n: int)
    requires
        roles_inv(rs0, st, i),
        0 <= i <= n,
        n == rs0.len(),
        n <= usize::MAX,
    ensures
        roles_inv(rs0, match_from(st, i, n), n),
    decreases n - i,
{
    if i < n {
        assert(st.runs[i] == RunView { remaining: st.runs[i].remaining, ..rs0[i] });
        let st1 = if !st.runs[i].can_close {
            st
        } else {
            lemma_close_run_roles(rs0, st, i);
            close_run(st, i)
        };
        let st2 = match_run(st, i);
        assert(st2.runs == st1.runs && st2.matches == st1.matches);
        assert(st1.runs[i] == RunView { remaining: st1.runs[i].remaining, ..rs0[i] });
        assert forall|q: int| 0 <= q < st2.stack.len() implies 0 <= #[trigger] st2.stack[q] < i + 1 && i + 1
            <= rs0.len() && rs0[st2.stack[q] as int].can_open by {
            if q < st1.stack.len() {
                assert(st2.stack[q] == st1.stack[q]);
            } else {
                assert(st2.stack == st1.stack.push(i as usize));
                assert(st2.stack[q] == i as usize);
                assert(st1.runs[i].can_open);
            }
        }
        lemma_match_from_roles(rs0, st2, i + 1, n);
    } else {
        assert forall|q: int| 0 <= q < st.stack.len() implies 0 <= #[trigger] st.stack[q] < n && n <= rs0.len()
            && rs0[st.stack[q] as int].can_open by {}
    }
}

/// Every match that matching finds pairs an earlier run that can open with
/// a later run of the same type that can close, using one or two markers;
/// matching changes only the markers left.
pub proof fn lemma_matched_roles(rs: Seq<RunView>)
    requires
        rs.len() <= usize::MAX,
    ensures
        ({
            let (rs3, ms) = matched(rs, Seq::empty());
            &&& forall|j: int| 0 <= j < ms.len() ==> #[trigger] match_roles(rs, ms[j])
            &&& rs3.len() == rs.len()
            &&& forall|k: int| 0 <= k < rs.len() ==> #[trigger] rs3[k] == RunView { remaining: rs3[k].remaining, ..rs[k] }
        }),
{
    let st0 = MatchState { runs: rs, stack: Seq::empty(), matches: Seq::empty() };
    lemma_match_from_roles(rs, st0, 0, rs.len() as int);
    let st = match_from(st0, 0, rs.len() as int);
    lemma_sort_members(st.matches);
    let ms = sort_matches(st.matches);
    assert forall|j: int| 0 <= j < ms.len() implies #[trigger] match_roles(rs, ms[j]) by {
        assert(st.matches.contains(ms[j]));
        let q = choose|q: int| 0 <= q < st.matches.len() && st.matches[q] == ms[j];
        assert(match_roles(rs, st.matches[q]));
    }
}

/// The opener that a closer picks: the nearest one on the stack that has
/// the closer's marker type and, when either run can both open and close,
/// whose markers left do not sum with the closer's to a multiple of three
/// unless both are multiples of three (the rule of three). Stack entries
/// above it fail that test.
pub proof fn lemma_find_opener_rule_of_three(rs: Seq<RunView>, stack: Seq<usize>, i: int, sl: int)
    ensures
        find_opener(rs, stack, i, sl) matches Some(j) ==> {
            let o = rs[stack[j] as int];
            let c = rs[i];
            &&& 0 <= j < sl
            &&& o.token_type == c.token_type
            &&& ((o.can_open && o.can_close) || (c.can_open && c.can_close)) ==> !((o.remaining + c.remaining)
                % 3 == 0 && (o.remaining % 3 != 0 || c.remaining % 3 != 0))
        },
        forall|q: int|
            #![trigger stack[q]]
            (match find_opener(rs, stack, i, sl) {
                Some(j) => j < q,
                None => true,
            }) && 0 <= q < sl ==> {
                let o = rs[stack[q] as int];
                let c = rs[i];
                !(o.token_type == c.token_type && (((o.can_open && o.can_close) || (c.can_open && c.can_close))
                    ==> !((o.remaining + c.remaining) % 3 == 0 && (o.remaining % 3 != 0 || c.remaining % 3
                    != 0))))
            },
    decreases sl,
{
    if sl > 0 {
        lemma_find_opener_rule_of_three(rs, stack, i, sl - 1);
    }
}

proof fn lemma_close_run_keeps_matches(st: MatchState, i: int)
    ensures
        close_run(st, i).matches.len() >= st.matches.len(),
        forall|k: int| 0 <= k < st.matches.len() ==> #[trigger] close_run(st, i).matches[k] == st.matches[k],
    decreases st.runs[i].remaining,
{
    if !(i < 0 || i >= st.runs.len() || st.runs[i].remaining <= 0 || st.stack.len() == 0) {
        match find_opener(st.runs, st.stack, i, st.stack.len() as int) {
            None => {},
            Some(j) => {
                if 0 <= j < st.stack.len() && st.stack[j] != i && 0 <= st.stack[j] < st.runs.len() {
                    let st2 = match_once(st, i, j);
                    lemma_close_run_keeps_matches(st2, i);
                    assert forall|k: int| 0 <= k < st.matches.len() implies #[trigger] close_run(st, i).matches[k]
                        == st.matches[k] by {
                        assert(st2.matches[k] == st.matches[k]);
                    }
                }
            },
        }
    }
}

/// When a closer pairs with an opener, the pair follows the rule of three
/// on the markers both have left at that moment: if either run can both
/// open and close, their counts do not sum to a multiple of three unless
/// both are multiples of three. So, for example, a closer with two markers
/// that can also open is never paired with an opener that has one marker.
/// The pair uses two markers (bold) when both have at least two left, and
/// one (italic) otherwise.
pub proof fn lemma_pairing_follows_rule_of_three(st: MatchState, i: int)
    requires
        0 <= i < st.runs.len(),
        close_run(st, i).matches.len() > st.matches.len(),
    ensures
        ({
            let m = close_run(st, i).matches[st.matches.len() as int];
            let o = st.runs[m.opener];
            let c = st.runs[i];
            &&& m.closer == i
            &&& o.token_type == c.token_type
            &&& ((o.can_open && o.can_close) || (c.can_open && c.can_close)) ==> !((o.remaining + c.remaining)
                % 3 == 0 && (o.remaining % 3 != 0 || c.remaining % 3 != 0))
            &&& m.use_count == if o.remaining >= 2 && c.remaining >= 2 {
                2int
            } else {
                1int
            }
        }),
{
    lemma_find_opener_rule_of_three(st.runs, st.stack, i, st.stack.len() as int);
    let j = find_opener(st.runs, st.stack, i, st.stack.len() as int)->0;
    let st2 = match_once(st, i, j);
    lemma_close_run_keeps_matches(st2, i);
    assert(st2.matches[st.matches.len() as int] == (MatchView { opener: st.stack[j] as int, closer: i, use_count: use_of(st.runs[st.stack[j] as int].remaining, st.runs[i].remaining) }));
}

/// A closer with markers left pairs with some opener whenever one on the
/// stack has its marker type and passes the rule of three with it: if
/// either run can both open and close, their markers left do not sum to a
/// multiple of three unless both are multiples of three.
pub proof fn lemma_closer_pairs_when_it_can(st: MatchState, i: int, q: int)
    requires
        0 <= i < st.runs.len(),
        st.runs[i].remaining > 0,
        forall|k: int| 0 <= k < st.stack.len() ==> 0 <= #[trigger] st.stack[k] < i,
        0 <= q < st.stack.len(),
        ({
            let o = st.runs[st.stack[q] as int];
            let c = st.runs[i];
            &&& o.token_type == c.token_type
            &&& ((o.can_open && o.can_close) || (c.can_open && c.can_close)) ==> !((o.remaining + c.remaining)
                % 3 == 0 && (o.remaining % 3 != 0 || c.remaining % 3 != 0))
        }),
    ensures
        close_run(st, i).matches.len() > st.matches.len(),
{
    lemma_find_opener_rule_of_three(st.runs, st.stack, i, st.stack.len() as int);
    assert(find_opener(st.runs, st.stack, i, st.stack.len() as int) is Some);
    let j = find_opener(st.runs, st.stack, i, st.stack.len() as int)->0;
    assert(0 <= st.stack[j] < i);
    let st2 = match_once(st, i, j);
    lemma_close_run_keeps_matches(st2, i);
}

proof fn lemma_no_star_no_runs(t: Seq<TokenView>, i: int)
    requires
        0 <= i <= t.len(),
        forall|k: int| 0 <= k < t.len() ==> #[trigger] t[k].token_type != TokenType::Star,
    ensures
        runs_from(t, Set::empty(), i, 0, Seq::empty()) == Seq::<RunView>::empty(),
    decreases t.len() - i,
{
    if !run_scan_stops(t, Set::empty(), i) {
        lemma_no_star_no_runs(t, i + 1);
    }
}

proof fn lemma_clean_text_no_ranges(t: Seq<TokenView>, n: int)
    requires
        0 <= n <= t.len(),
    ensures
        clean_text(t, Set::empty(), Seq::empty(), n) == lexemes_between(t, 0, n),
    decreases n,
{
    if n > 0 {
        lemma_clean_text_no_ranges(t, n - 1);
        assert(!in_some_range(Seq::<(int, int)>::empty(), t[n - 1].logical_byte_start));
    }
}

/// Tokens without `*` have no emphasis: their inline text is all their
/// lexemes, one after another, and there are no spans.
pub proof fn lemma_no_markers_plain_text(t: Seq<TokenView>)
    requires
        forall|k: int| 0 <= k < t.len() ==> #[trigger] t[k].token_type != TokenType::Star,
    ensures
        inline_result(t, Set::empty()) == Ok::<InlineView, Seq<char>>(
            InlineView { text: lexemes_between(t, 0, t.len() as int), spans: Seq::empty() },
        ),
{
    lemma_no_star_no_runs(t, 0);
    let e = Seq::<RunView>::empty();
    assert(classify_from(t, e, 0) == (e, Option::<Seq<char>>::None));
    let st = MatchState { runs: e, stack: Seq::empty(), matches: Seq::empty() };
    assert(match_from(st, 0, 0) == st);
    assert(sort_matches(Seq::<MatchView>::empty()) == Seq::<MatchView>::empty());
    assert(delimiter_ranges(e, Seq::<MatchView>::empty()) == Seq::<(int, int)>::empty());
    lemma_clean_text_no_ranges(t, t.len() as int);
    let sp = spans_of(with_text_indexes(t, Set::empty(), e, Seq::empty()), Seq::empty());
    assert(sp =~= Seq::<SpanView>::empty());
}

/// The stack of openers: earlier runs than `i`, in order, each able to
/// open and with markers left.
pub open spec fn openers_on_stack(st: MatchState, i: int) -> bool {
    &&& forall|k: int| 0 <= k < st.stack.len() ==> 0 <= #[trigger] st.stack[k] < i && i <= st.runs.len()
    &&& forall|k: int|
        #![trigger st.stack[k]]
        0 <= k < st.stack.len() ==> st.runs[st.stack[k] as int].can_open && st.runs[st.stack[k] as int].remaining > 0
    &&& forall|k1: int, k2: int| 0 <= k1 < k2 < st.stack.len() ==> #[trigger] st.stack[k1] < #[trigger] st.stack[k2]
}

proof fn lemma_close_run_keeps_openers(st: MatchState, i: int)
    requires
        0 <= i < st.runs.len(),
        openers_on_stack(st, i),
        st.runs[i].remaining >= 0,
    ensures
        openers_on_stack(close_run(st, i), i),
        close_run(st, i).runs.len() == st.runs.len(),
        close_run(st, i).runs[i].remaining >= 0,
        forall|k: int| 0 <= k < st.runs.len() ==> #[trigger] close_run(st, i).runs[k].can_open == st.runs[k].can_open,
    decreases st.runs[i].remaining,
{
    if !(st.runs[i].remaining <= 0 || st.stack.len() == 0) {
        match find_opener(st.runs, st.stack, i, st.stack.len() as int) {
            None => {},
            Some(j) => {
                lemma_find_opener_rule_of_three(st.runs, st.stack, i, st.stack.len() as int);
                let o = st.stack[j] as int;
                assert(0 <= o < i);
                let st2 = match_once(st, i, j);
                let oc = st.runs[o].remaining;
                let u = use_of(oc, st.runs[i].remaining);
                assert(st2.runs[o].remaining == oc - u);
                assert forall|k: int| 0 <= k < st2.stack.len() implies 0 <= #[trigger] st2.stack[k] < i && i
                    <= st2.runs.len() by {
                    if oc - u == 0 {
                        if k >= j {
                            assert(st2.stack[k] == st.stack[k + 1]);
                        } else {
                            assert(st2.stack[k] == st.stack[k]);
                        }
                    }
                }
                assert forall|k: int| 0 <= k < st2.stack.len() implies #[trigger] st2.runs[st2.stack[k] as int].can_open
                    && st2.runs[st2.stack[k] as int].remaining > 0 by {
                    let x = st2.stack[k] as int;
                    if oc - u == 0 {
                        if k >= j {
                            assert(st2.stack[k] == st.stack[k + 1]);
                            assert(st.stack[j] < st.stack[k + 1]);
                            assert(st.runs[st.stack[k + 1] as int].remaining > 0);
                        } else {
                            assert(st2.stack[k] == st.stack[k]);
                            assert(st.stack[k] < st.stack[j]);
                            assert(st.runs[st.stack[k] as int].remaining > 0);
                        }
                        assert(x != o && x != i);
                        assert(st2.runs[x] == st.runs[x]);
                    } else {
                        assert(st2.stack[k] == st.stack[k]);
                        assert(st.runs[st.stack[k] as int].remaining > 0);
                        if x != o {
                            assert(st2.runs[x] == st.runs[x]);
                        }
                    }
                }
                assert forall|k1: int, k2: int| 0 <= k1 < k2 < st2.stack.len() implies #[trigger] st2.stack[k1]
                    < #[trigger] st2.stack[k2] by {
                    if oc - u == 0 {
                        let a = if k1 >= j { k1 + 1 } else { k1 };
                        let b = if k2 >= j { k2 + 1 } else { k2 };
                        assert(st2.stack[k1] == st.stack[a]);
                        assert(st2.stack[k2] == st.stack[b]);
                    }
                }
                lemma_close_run_keeps_openers(st2, i);
            },
        }
    }
}

/// Matching keeps the stack of openers as the pairing needs it: runs
/// before the current one, in order, each able to open and with markers
/// left; an opener whose markers are all used leaves the stack.
pub proof fn lemma_match_run_keeps_openers(st: MatchState, i: int)
    requires
        0 <= i < st.runs.len() <= usize::MAX,
        openers_on_stack(st, i),
        st.runs[i].remaining > 0,
    ensures
        openers_on_stack(match_run(st, i), i + 1),
{
    let st2 = if st.runs[i].can_close {
        lemma_close_run_keeps_openers(st, i);
        close_run(st, i)
    } else {
        st
    };
    let r = match_run(st, i);
    if st2.runs[i].can_open && st2.runs[i].remaining > 0 {
        assert(r.stack == st2.stack.push(i as usize));
        assert forall|k1: int, k2: int| 0 <= k1 < k2 < r.stack.len() implies #[trigger] r.stack[k1]
            < #[trigger] r.stack[k2] by {
            if k2 == st2.stack.len() {
                assert(r.stack[k1] == st2.stack[k1]);
            } else {
                assert(r.stack[k1] == st2.stack[k1]);
                assert(r.stack[k2] == st2.stack[k2]);
            }
        }
        assert forall|k: int| 0 <= k < r.stack.len() implies #[trigger] r.runs[r.stack[k] as int].can_open
            && r.runs[r.stack[k] as int].remaining > 0 by {
            if k < st2.stack.len() {
                assert(r.stack[k] == st2.stack[k]);
            }
        }
        assert forall|k: int| 0 <= k < r.stack.len() implies 0 <= #[trigger] r.stack[k] < i + 1 && i + 1
            <= r.runs.len() by {
            if k < st2.stack.len() {
                assert(r.stack[k] == st2.stack[k]);
            }
        }
    } else {
        assert(r == st2);
    }
}

/// The matches come out ordered by opener, first to last; for one opener,
/// by closer, last to first; for one pair, by markers used, most first.
pub proof fn lemma_matches_order(s: Seq<MatchView>)
    ensures
        ({
            let m = sort_matches(s);
            &&& m.to_multiset() == s.to_multiset()
            &&& forall|a: int, b: int|
                0 <= a < b < m.len() ==> #[trigger] m[a].opener < #[trigger] m[b].opener || (m[a].opener
                    == m[b].opener && (m[a].closer > m[b].closer || (m[a].closer == m[b].closer
                    && m[a].use_count >= m[b].use_count)))
        }),
{
    lemma_sort_matches(s);
    let m = sort_matches(s);
    assert forall|a: int, b: int| 0 <= a < b < m.len() implies #[trigger] m[a].opener < #[trigger] m[b].opener
        || (m[a].opener == m[b].opener && (m[a].closer > m[b].closer || (m[a].closer == m[b].closer
        && m[a].use_count >= m[b].use_count))) by {
        assert(!match_before(m[b], m[a]));
    }
}

/// One span per match, in the order of the matches: from the opener's
/// position in the text to the closer's, italic for one marker used and
/// bold for two.
pub proof fn lemma_span_per_match(rs: Seq<RunView>, ms: Seq<MatchView>)
    ensures
        spans_of(rs, ms).len() == ms.len(),
        forall|k: int| 0 <= k < ms.len() ==> {
            &&& (#[trigger] spans_of(rs, ms)[k]).start == rs[ms[k].opener].text_index
            &&& spans_of(rs, ms)[k].end == rs[ms[k].closer].text_index
            &&& ms[k].use_count == 1 ==> spans_of(rs, ms)[k].style == SpanStyle::Italic
            &&& ms[k].use_count == 2 ==> spans_of(rs, ms)[k].style == SpanStyle::Bold
        },
{
}

/// Whether a run can open or close emphasis, from the characters around
/// it: `p` before the run (a space at the first token), `n` after it (`¶`
/// past the last token or at a newline or `Eof`). Punctuation is what is
/// neither alphanumeric nor whitespace. A run opens when `n` is not
/// whitespace and is not punctuation or `p` is whitespace or punctuation;
/// it closes in the mirror case. A neighbouring token with an empty lexeme
/// is an error.
pub proof fn lemma_classify_flanking(t: Seq<TokenView>, rs: Seq<RunView>, k: int)
    requires
        0 <= k <= rs.len(),
        forall|q: int| 0 <= q < rs.len() ==> 0 <= #[trigger] rs[q].token_index < t.len() && rs[q].count >= 0,
    ensures
        ({
            let (rs2, err) = classify_from(t, rs, k);
            &&& forall|q: int| 0 <= q < k && q < rs.len() ==> #[trigger] rs2[q] == rs[q]
            &&& err is None ==> forall|q: int| k <= q < rs.len() ==> {
                let ti = rs[q].token_index;
                let j = ti + rs[q].count;
                let p = if ti == 0 {
                    ' '
                } else {
                    t[ti - 1].lexeme.last()
                };
                let n = if j >= t.len() || t[j].token_type == TokenType::Eof || t[j].token_type
                    == TokenType::Newline {
                    '¶'
                } else {
                    t[j].lexeme[0]
                };
                let pp = !unicode_alphanumeric(p) && !unicode_whitespace(p);
                let np = !unicode_alphanumeric(n) && !unicode_whitespace(n);
                &&& (ti == 0 || t[ti - 1].lexeme.len() > 0)
                &&& (j >= t.len() || t[j].token_type == TokenType::Eof || t[j].token_type == TokenType::Newline
                    || t[j].lexeme.len() > 0)
                &&& (#[trigger] rs2[q]).can_open == (!unicode_whitespace(n) && (!np || unicode_whitespace(p)
                    || pp))
                &&& rs2[q].can_close == (!unicode_whitespace(p) && (!pp || unicode_whitespace(n) || np))
            }
        }),
    decreases rs.len() - k,
{
    if k < rs.len() {
        match classify_run(t, rs[k]) {
            Err(e) => {},
            Ok(r2) => {
                let rs1 = rs.update(k, r2);
                assert forall|q: int| 0 <= q < rs1.len() implies 0 <= #[trigger] rs1[q].token_index < t.len()
                    && rs1[q].count >= 0 by {
                    if q != k {
                        assert(rs1[q] == rs[q]);
                    }
                }
                lemma_classify_flanking(t, rs1, k + 1);
                lemma_classify_from_fields(t, rs1, k + 1);
                let (rs2, err) = classify_from(t, rs, k);
                if err is None {
                    assert forall|q: int| k <= q < rs.len() implies rs1[q].token_index == rs[q].token_index
                        && rs1[q].count == rs[q].count by {}
                    assert(rs2[k] == rs1[k]);
                }
            },
        }
    }
}

/// Matching only ever lowers the markers left.
proof fn lemma_close_run_lowers(st: MatchState, i: int)
    ensures
        close_run(st, i).runs.len() == st.runs.len(),
        forall|k: int| 0 <= k < st.runs.len() ==> #[trigger] close_run(st, i).runs[k].remaining <= st.runs[k].remaining,
    decreases st.runs[i].remaining,
{
    if !(i < 0 || i >= st.runs.len() || st.runs[i].remaining <= 0 || st.stack.len() == 0) {
        match find_opener(st.runs, st.stack, i, st.stack.len() as int) {
            None => {},
            Some(j) => {
                if 0 <= j < st.stack.len() && st.stack[j] != i && 0 <= st.stack[j] < st.runs.len() {
                    let st2 = match_once(st, i, j);
                    lemma_close_run_lowers(st2, i);
                }
            },
        }
    }
}

proof fn lemma_match_from_lowers(st: MatchState, i: int, n: int)
    ensures
        match_from(st, i, n).runs.len() == st.runs.len(),
        forall|k: int| 0 <= k < st.runs.len() ==> #[trigger] match_from(st, i, n).runs[k].remaining <= st.runs[k].remaining,
    decreases n - i,
{
    if 0 <= i < n {
        if st.runs[i].can_close {
            lemma_close_run_lowers(st, i);
        }
        let st2 = match_run(st, i);
        lemma_match_from_lowers(st2, i + 1, n);
    }
}

proof fn lemma_match_once_inv(
    t: Seq<TokenView>,
    rs0: Seq<RunView>,
    st: MatchState,
    i: int,
    j: int,
    len: int,
)
    requires
        0 <= i < len,
        st.runs.len() == len,
        0 <= j < st.stack.len(),
        st.runs[i].remaining >= 1,
        compatible(st.runs, st.stack[j] as int, i),
        stack_ok(st.runs, st.stack, i),
        st.runs[st.stack[j] as int].remaining >= 1,
        runs_fact(t, st.runs),
        runs_step(rs0, st.runs),
        forall|k: int| i < k < len ==> #[trigger] st.runs[k] == rs0[k],
        matches_fact(len, st.matches),
    ensures
        ({
            let st2 = match_once(st, i, j);
            &&& st2.runs.len() == len
            &&& stack_ok(st2.runs, st2.stack, i)
            &&& runs_fact(t, st2.runs)
            &&& runs_step(rs0, st2.runs)
            &&& forall|k: int| i < k < len ==> #[trigger] st2.runs[k] == rs0[k]
            &&& matches_fact(len, st2.matches)
            &&& st2.runs[i].remaining < st.runs[i].remaining
            &&& st2.runs[i].remaining == st.runs[i].remaining - st2.matches.last().use_count
        }),
{
    let st2 = match_once(st, i, j);
    let o = st.stack[j] as int;
    assert(0 <= o < i);
    let oc = st.runs[o].remaining;
    let cc = st.runs[i].remaining;
    let u = use_of(oc, cc);
    assert(oc >= 1);
    let runs1 = st.runs.update(o, RunView { remaining: oc - u, ..st.runs[o] });
    assert(runs1[i] == st.runs[i]);
    assert forall|k: int| 0 <= k < st2.stack.len() implies {
        &&& 0 <= #[trigger] st2.stack[k] < i
        &&& i <= st2.runs.len()
    } by {
        if oc - u == 0 {
            if k < j {
                assert(st2.stack[k] == st.stack[k]);
                assert(st.stack[k] < st.stack[j]);
            } else {
                assert(st2.stack[k] == st.stack[k + 1]);
                assert(st.stack[j] < st.stack[k + 1]);
            }
        } else {
            assert(st2.stack[k] == st.stack[k]);
        }
    }
    assert forall|k1: int, k2: int| 0 <= k1 < k2 < st2.stack.len() implies #[trigger] st2.stack[k1] < #[trigger] st2.stack[k2] by {
        if oc - u == 0 {
            let a = if k1 < j { k1 } else { k1 + 1 };
            let b = if k2 < j { k2 } else { k2 + 1 };
            assert(st2.stack[k1] == st.stack[a]);
            assert(st2.stack[k2] == st.stack[b]);
        }
    }
    assert forall|k: int| 0 <= k < st2.runs.len() implies run_fact(t, #[trigger] st2.runs[k]) by {
        assert(run_fact(t, st.runs[k]));
    }
    assert forall|k: int| 0 <= k < rs0.len() implies {
        &&& (#[trigger] st2.runs[k]).remaining <= rs0[k].remaining
        &&& st2.runs[k] == RunView { remaining: st2.runs[k].remaining, ..rs0[k] }
    } by {
        assert(st.runs[k].remaining <= rs0[k].remaining);
    }
    assert forall|k: int| 0 <= k < st2.matches.len() implies match_fact(len, #[trigger] st2.matches[k]) by {
        if k < st.matches.len() {
            assert(st2.matches[k] == st.matches[k]);
        }
    }
}

/// No run has fewer than zero markers left: matching never takes a marker
/// from an opener that has none.
pub open spec fn no_negative(rs: Seq<RunView>) -> bool {
    forall|k: int| 0 <= k < rs.len() ==> #[trigger] rs[k].remaining >= 0
}

/// The matching stack holds runs before `i`, in increasing order.
pub open spec fn stack_ok(rs: Seq<RunView>, stack: Seq<usize>, i: int) -> bool {
    forall|k: int| 0 <= k < stack.len() ==> {
        &&& 0 <= #[trigger] stack[k] < i
        &&& i <= rs.len()
    } && forall|k1: int, k2: int| 0 <= k1 < k2 < stack.len() ==> #[trigger] stack[k1] < #[trigger] stack[k2]
}

/// The run changes that matching makes: only `remaining` moves, and only down.
pub open spec fn runs_step(before: Seq<RunView>, after: Seq<RunView>) -> bool {
    &&& after.len() == before.len()
    &&& forall|k: int| 0 <= k < before.len() ==> {
        &&& (#[trigger] after[k]).remaining <= before[k].remaining
        &&& after[k] == RunView { remaining: after[k].remaining, ..before[k] }
    }
}

// ---------------------------------------------------------------------
// The text without consumed markers, and the spans.

/// The byte range of the markers that a match consumes from its opener or
/// its closer. Left-over opener markers come before the consumed ones,
/// left-over closer markers after.
pub open spec fn match_range(rs: Seq<RunView>, m: MatchView, is_opener: bool) -> (int, int) {
    if is_opener {
        let r = rs[m.opener];
        (r.byte_index - r.count + r.remaining, r.byte_index)
    } else {
        let r = rs[m.closer];
        (r.byte_index - r.count, r.byte_index - r.remaining)
    }
}

/// The byte positions of match `m`'s runs are past at least as many bytes
/// as those runs have markers, so that its ranges start at or after zero.
pub open spec fn match_ranges_fit(rs: Seq<RunView>, m: MatchView) -> bool {
    &&& 0 <= m.opener < rs.len() ==> rs[m.opener].count <= rs[m.opener].byte_index
    &&& 0 <= m.closer < rs.len() ==> rs[m.closer].count <= rs[m.closer].byte_index
}

pub open spec fn ranges_fit(rs: Seq<RunView>, ms: Seq<MatchView>) -> bool {
    forall|j: int| 0 <= j < ms.len() ==> #[trigger] match_ranges_fit(rs, ms[j])
}

/// The consumed byte ranges: opener then closer, for each match in order.
pub open spec fn delimiter_ranges(rs: Seq<RunView>, ms: Seq<MatchView>) -> Seq<(int, int)>
    decreases ms.len(),
{
    if ms.len() == 0 {
        Seq::empty()
    } else {
        delimiter_ranges(rs, ms.drop_last()).push(match_range(rs, ms.last(), true)).push(
            match_range(rs, ms.last(), false),
        )
    }
}

pub open spec fn in_some_range(ranges: Seq<(int, int)>, b: int) -> bool {
    exists|k: int| 0 <= k < ranges.len() && ranges[k].0 <= b < #[trigger] ranges[k].1
}

/// The lexemes of the first `n` tokens, leaving out ignored tokens and those
/// whose logical start falls in a consumed range.
pub open spec fn clean_text(t: Seq<TokenView>, ig: Set<usize>, ranges: Seq<(int, int)>, n: int) -> Seq<char>
    decreases n,
{
    if n <= 0 {
        Seq::empty()
    } else {
        clean_text(t, ig, ranges, n - 1) + if is_ignored(ig, n - 1) || in_some_range(
            ranges,
            t[n - 1].logical_byte_start,
        ) {
            Seq::<char>::empty()
        } else {
            t[n - 1].lexeme
        }
    }
}

pub open spec fn is_closer_run(ms: Seq<MatchView>, k: int) -> bool {
    exists|j: int| 0 <= j < ms.len() && #[trigger] ms[j].closer == k
}

/// Markers of run `k` that come before its text position: all of a closer's,
/// the consumed ones of any other run.
pub open spec fn consumed(rs: Seq<RunView>, ms: Seq<MatchView>, k: int) -> int {
    if is_closer_run(ms, k) {
        rs[k].count
    } else {
        rs[k].count - rs[k].remaining
    }
}

/// The logical start of the first token.
pub open spec fn slice_base(t: Seq<TokenView>) -> int {
    if t.len() > 0 {
        t[0].logical_byte_start
    } else {
        0
    }
}

/// The slice's start plus the markers of runs `0..=k` that come before
/// their text positions.
pub open spec fn running_at(t: Seq<TokenView>, rs: Seq<RunView>, ms: Seq<MatchView>, k: int) -> int
    decreases k + 1,
{
    if k < 0 {
        slice_base(t)
    } else {
        running_at(t, rs, ms, k - 1) + consumed(rs, ms, k)
    }
}

/// Total byte length of the ignored tokens before `n`.
pub open spec fn ignored_bytes(t: Seq<TokenView>, ig: Set<usize>, n: int) -> int
    decreases n,
{
    if n <= 0 {
        0
    } else {
        ignored_bytes(t, ig, n - 1) + if is_ignored(ig, n - 1) {
            utf8_len(t[n - 1].lexeme)
        } else {
            0
        }
    }
}

/// Position of run `k` in the text without markers.
pub open spec fn text_index_at(t: Seq<TokenView>, ig: Set<usize>, rs: Seq<RunView>, ms: Seq<MatchView>, k: int) -> int {
    rs[k].byte_index - running_at(t, rs, ms, k) - ignored_bytes(t, ig, rs[k].token_index)
}

pub open spec fn text_indexes_ok(t: Seq<TokenView>, ig: Set<usize>, rs: Seq<RunView>, ms: Seq<MatchView>) -> bool {
    forall|k: int| 0 <= k < rs.len() ==> text_index_at(t, ig, rs, ms, k) >= 0
}

pub open spec fn with_text_indexes(t: Seq<TokenView>, ig: Set<usize>, rs: Seq<RunView>, ms: Seq<MatchView>) -> Seq<RunView> {
    Seq::new(rs.len(), |k: int| RunView { text_index: text_index_at(t, ig, rs, ms, k), ..rs[k] })
}

/// One span per match, from the opener's to the closer's text position.
pub open spec fn spans_of(rs: Seq<RunView>, ms: Seq<MatchView>) -> Seq<SpanView> {
    ms.map_values(|m: MatchView| SpanView {
        start: rs[m.opener].text_index,
        end: rs[m.closer].text_index,
        style: style_of_count(m.use_count as u8),
    })
}

/// What parsing the emphasis of tokens `t`, ignoring `ig`, gives to a
/// parser that already holds the runs `rs0` and the matches `ms0`: the runs
/// found are added to `rs0`, all runs are classified and matched, and the
/// matches found are added to `ms0`.
pub open spec fn inline_result_from(t: Seq<TokenView>, ig: Set<usize>, rs0: Seq<RunView>, ms0: Seq<MatchView>) -> Result<InlineView, Seq<char>> {
    let rs1 = runs_from(t, ig, 0, 0, rs0);
    let (rs2, err) = classify_from(t, rs1, 0);
    match err {
        Some(e) => Err(e),
        None => {
            let (rs3, ms) = matched(rs2, ms0);
            Ok(
                InlineView {
                    text: clean_text(t, ig, delimiter_ranges(rs3, ms), t.len() as int),
                    spans: spans_of(with_text_indexes(t, ig, rs3, ms), ms),
                },
            )
        },
    }
}

/// What parsing the emphasis of tokens `t`, ignoring `ig`, gives.
pub open spec fn inline_result(t: Seq<TokenView>, ig: Set<usize>) -> Result<InlineView, Seq<char>> {
    inline_result_from(t, ig, Seq::empty(), Seq::empty())
}

/// Parsing the emphasis of tokens `t`, ignoring `ig`, with the runs `rs0`
/// and the matches `ms0` already held, stays within the parser's limits:
/// no run of more than 255 markers, no marker taken from an opener that has
/// none left, no
/// consumed byte range that starts below zero, and no text position below
/// zero (the byte lengths of ignored tokens can exceed their logical
/// widths).
pub open spec fn inline_fits_from(t: Seq<TokenView>, ig: Set<usize>, rs0: Seq<RunView>, ms0: Seq<MatchView>) -> bool {
    &&& counts_fit(t, ig, 0, 0, 255)
    &&& ({
        let rs1 = runs_from(t, ig, 0, 0, rs0);
        let (rs2, err) = classify_from(t, rs1, 0);
        err is None ==> {
            let (rs3, ms) = matched(rs2, ms0);
            no_negative(rs3) && ranges_fit(rs3, ms) && text_indexes_ok(t, ig, rs3, ms)
        }
    })
}

/// Parsing the emphasis of tokens `t`, ignoring `ig`, with a fresh parser
/// stays within the parser's limits.
pub open spec fn inline_fits(t: Seq<TokenView>, ig: Set<usize>) -> bool {
    inline_fits_from(t, ig, Seq::empty(), Seq::empty())
}

// ---------------------------------------------------------------------
// With no token ignored, text positions are never negative.

/// The markers of runs `0..n`, all together.
pub open spec fn prefix_counts(rs: Seq<RunView>, n: int) -> int
    decreases n,
{
    if n <= 0 {
        0
    } else {
        prefix_counts(rs, n - 1) + rs[n - 1].count
    }
}

/// Run `k` ends at token `token_index + count`, its byte position is the end
/// of the token before, and the runs up to it hold no more markers than
/// the tokens before that end.
pub open spec fn run_positioned(t: Seq<TokenView>, ig: Set<usize>, rs: Seq<RunView>, k: int) -> bool {
    let c = rs[k].token_index + rs[k].count;
    &&& 1 <= rs[k].count
    &&& 1 <= c <= t.len()
    &&& rs[k].byte_index == t[c - 1].logical_byte_end
    &&& prefix_counts(rs, k + 1) <= star_count(t, ig, c)
}

pub open spec fn runs_positioned(t: Seq<TokenView>, ig: Set<usize>, rs: Seq<RunView>) -> bool {
    forall|k: int| 0 <= k < rs.len() ==> #[trigger] run_positioned(t, ig, rs, k)
}

proof fn lemma_prefix_counts_push(rs: Seq<RunView>, r: RunView, n: int)
    requires
        0 <= n <= rs.len(),
    ensures
        prefix_counts(rs.push(r), n) == prefix_counts(rs, n),
    decreases n,
{
    if n > 0 {
        lemma_prefix_counts_push(rs, r, n - 1);
    }
}

proof fn lemma_prefix_counts_nonneg(t: Seq<TokenView>, ig: Set<usize>, rs: Seq<RunView>, n: int)
    requires
        runs_positioned(t, ig, rs),
        n <= rs.len(),
    ensures
        prefix_counts(rs, n) >= 0,
        prefix_counts(rs, n) >= n,
    decreases n,
{
    if n > 0 {
        assert(run_positioned(t, ig, rs, n - 1));
        lemma_prefix_counts_nonneg(t, ig, rs, n - 1);
    }
}

proof fn lemma_runs_from_positioned(t: Seq<TokenView>, ig: Set<usize>, i: int, count: int, runs: Seq<RunView>)
    requires
        tokens_well_positioned(t, ig),
        0 <= i,
        0 <= count,
        i <= t.len() ==> prefix_counts(runs, runs.len() as int) + count == star_count(t, ig, i),
        i > t.len() ==> count == 0,
        runs_positioned(t, ig, runs),
    ensures
        runs_positioned(t, ig, runs_from(t, ig, i, count, runs)),
    decreases t.len() - i,
{
    let flushed = flush_run(t, i, count, runs);
    if count > 0 && i <= t.len() {
        let r = flushed.last();
        let n = runs.len();
        lemma_prefix_counts_push(runs, r, n as int);
        lemma_prefix_counts_nonneg(t, ig, runs, n as int);
        if i >= 1 {
            lemma_width_sum(t, ig, i);
        }
        assert(star_count(t, ig, 0) == 0);
        assert forall|k: int| 0 <= k < flushed.len() implies #[trigger] run_positioned(t, ig, flushed, k) by {
            if k < n {
                assert(flushed[k] == runs[k]);
                lemma_prefix_counts_push(runs, r, k + 1);
                assert(run_positioned(t, ig, runs, k));
            } else {
                assert(k == n);
                assert(flushed[k] == r);
                assert(r.token_index + r.count == i);
                assert(r.byte_index == t[i - 1].logical_byte_end);
                assert(prefix_counts(flushed, k + 1) == prefix_counts(flushed, k) + count);
                assert(prefix_counts(flushed, k + 1) == star_count(t, ig, i));
            }
        }
    }
    if i < 0 || run_scan_stops(t, ig, i) {
    } else {
        let runs2 = if !is_ignored(ig, i) && ends_run(t[i].token_type) {
            flushed
        } else {
            runs
        };
        let c2 = next_count(t, ig, i, count);
        if !is_ignored(ig, i) && ends_run(t[i].token_type) && count > 0 {
            assert(prefix_counts(runs2, runs2.len() as int) == prefix_counts(runs, runs.len() as int) + count);
        }
        assert(star_count(t, ig, i + 1) == star_count(t, ig, i) + if !is_ignored(ig, i) && t[i].token_type == TokenType::Star { 1int } else { 0int });
        lemma_runs_from_positioned(t, ig, i + 1, c2, runs2);
    }
}

/// Runs during matching: those of `rs0` but for the markers left, which
/// never drop below zero; runs from `fut` on still have all their markers
/// (at least one); the stack holds runs before `below` with markers left.
pub open spec fn match_ok(rs0: Seq<RunView>, st: MatchState, below: int, fut: int) -> bool {
    &&& st.runs.len() == rs0.len()
    &&& forall|k: int|
        0 <= k < rs0.len() ==> #[trigger] st.runs[k] == RunView { remaining: st.runs[k].remaining, ..rs0[k] }
            && st.runs[k].remaining >= 0
    &&& forall|k: int| fut <= k < rs0.len() ==> #[trigger] st.runs[k].remaining >= 1
    &&& forall|q: int|
        0 <= q < st.stack.len() ==> 0 <= #[trigger] st.stack[q] < below && st.runs[st.stack[q] as int].remaining
            >= 1
    &&& forall|q1: int, q2: int| 0 <= q1 < q2 < st.stack.len() ==> #[trigger] st.stack[q1] < #[trigger] st.stack[q2]
}

proof fn lemma_close_run_ok(rs0: Seq<RunView>, st: MatchState, i: int)
    requires
        match_ok(rs0, st, i, i + 1),
        0 <= i < rs0.len(),
    ensures
        match_ok(rs0, close_run(st, i), i, i + 1),
    decreases st.runs[i].remaining,
{
    if !(st.runs[i].remaining <= 0 || st.stack.len() == 0) {
        match find_opener(st.runs, st.stack, i, st.stack.len() as int) {
            None => {},
            Some(j) => {
                if 0 <= j < st.stack.len() && st.stack[j] != i && 0 <= st.stack[j] < st.runs.len() {
                    let o = st.stack[j] as int;
                    let oc = st.runs[o].remaining;
                    let cc = st.runs[i].remaining;
                    let u = use_of(oc, cc);
                    let st2 = match_once(st, i, j);
                    assert(o < i && oc >= 1);
                    assert forall|k: int| 0 <= k < rs0.len() implies #[trigger] st2.runs[k] == RunView {
                        remaining: st2.runs[k].remaining,
                        ..rs0[k]
                    } && st2.runs[k].remaining >= 0 by {
                        assert(st.runs[k] == RunView { remaining: st.runs[k].remaining, ..rs0[k] });
                    }
                    assert forall|k: int| i + 1 <= k < rs0.len() implies #[trigger] st2.runs[k].remaining >= 1 by {
                        assert(st.runs[k].remaining >= 1);
                    }
                    assert forall|q: int| 0 <= q < st2.stack.len() implies 0 <= #[trigger] st2.stack[q] < i
                        && st2.runs[st2.stack[q] as int].remaining >= 1 by {
                        if oc - u == 0 {
                            let q2 = if q < j { q } else { q + 1 };
                            assert(st2.stack[q] == st.stack[q2]);
                            if q2 < j {
                                assert(st.stack[q2] < st.stack[j]);
                            } else {
                                assert(st.stack[j] < st.stack[q2]);
                            }
                        } else {
                            assert(st2.stack[q] == st.stack[q]);
                        }
                    }
                    assert forall|q1: int, q2: int| 0 <= q1 < q2 < st2.stack.len() implies #[trigger] st2.stack[q1]
                        < #[trigger] st2.stack[q2] by {
                        if oc - u == 0 {
                            let a = if q1 < j { q1 } else { q1 + 1 };
                            let b = if q2 < j { q2 } else { q2 + 1 };
                            assert(st2.stack[q1] == st.stack[a]);
                            assert(st2.stack[q2] == st.stack[b]);
                        } else {
                            assert(st2.stack[q1] == st.stack[q1]);
                            assert(st2.stack[q2] == st.stack[q2]);
                        }
                    }
                    lemma_close_run_ok(rs0, st2, i);
                }
            },
        }
    }
}

proof fn lemma_match_from_ok(rs0: Seq<RunView>, st: MatchState, i: int, n: int)
    requires
        match_ok(rs0, st, i, i),
        0 <= i <= n,
        n == rs0.len(),
        n <= usize::MAX,
    ensures
        match_ok(rs0, match_from(st, i, n), n, n),
    decreases n - i,
{
    if i < n {
        let st1 = if !st.runs[i].can_close {
            st
        } else {
            lemma_close_run_ok(rs0, st, i);
            close_run(st, i)
        };
        let st2 = match_run(st, i);
        assert(st1.runs == st2.runs);
        assert(match_ok(rs0, st1, i, i + 1));
        let pushes = st2.stack.len() == st1.stack.len() + 1;
        assert(pushes ==> st2.stack == st1.stack.push(i as usize));
        assert(!pushes ==> st2.stack == st1.stack);
        assert(pushes ==> st2.runs[i].remaining >= 1);
        assert forall|q: int| 0 <= q < st2.stack.len() implies 0 <= #[trigger] st2.stack[q] < i + 1
            && st2.runs[st2.stack[q] as int].remaining >= 1 by {
            if q < st1.stack.len() {
                assert(st2.stack[q] == st1.stack[q]);
            } else {
                assert(pushes);
                assert(st2.stack[q] == i as usize);
            }
        }
        assert forall|q1: int, q2: int| 0 <= q1 < q2 < st2.stack.len() implies #[trigger] st2.stack[q1]
            < #[trigger] st2.stack[q2] by {
            assert(st2.stack[q1] == st1.stack[q1]);
            if q2 < st1.stack.len() {
                assert(st2.stack[q2] == st1.stack[q2]);
            } else {
                assert(pushes);
                assert(st2.stack[q2] == i as usize);
                assert(st1.stack[q1] < i);
            }
        }
        lemma_match_from_ok(rs0, st2, i + 1, n);
    }
}

/// The markers of the runs `0..=k` that come before their text positions
/// are at most all their markers.
proof fn lemma_running_at_bound(t: Seq<TokenView>, rs: Seq<RunView>, ms: Seq<MatchView>, k: int)
    requires
        k < rs.len(),
        forall|q: int| 0 <= q < rs.len() ==> #[trigger] rs[q].remaining >= 0,
    ensures
        running_at(t, rs, ms, k) <= slice_base(t) + prefix_counts(rs, k + 1),
    decreases k + 1,
{
    if k >= 0 {
        lemma_running_at_bound(t, rs, ms, k - 1);
        assert(rs[k].remaining >= 0);
    }
}

proof fn lemma_prefix_counts_same(a: Seq<RunView>, b: Seq<RunView>, n: int)
    requires
        n <= a.len(),
        n <= b.len(),
        forall|q: int| 0 <= q < n ==> #[trigger] a[q].count == b[q].count,
    ensures
        prefix_counts(a, n) == prefix_counts(b, n),
    decreases n,
{
    if n > 0 {
        lemma_prefix_counts_same(a, b, n - 1);
    }
}

proof fn lemma_no_ignored_bytes(t: Seq<TokenView>, n: int)
    ensures
        ignored_bytes(t, Set::empty(), n) == 0,
    decreases n,
{
    if n > 0 {
        lemma_no_ignored_bytes(t, n - 1);
    }
}

/// With no token left out and positions as the scanner makes them,
/// parsing emphasis with a fresh parser only needs its runs to fit: no
/// opener runs out of markers, and byte ranges and text positions never
/// drop below zero, since each run's markers, and those of the runs before
/// it, take at least one byte each.
pub proof fn lemma_inline_fits_without_ignored(t: Seq<TokenView>)
    requires
        tokens_well_positioned(t, Set::empty()),
        counts_fit(t, Set::empty(), 0, 0, 255),
        t.len() <= usize::MAX,
    ensures
        inline_fits(t, Set::empty()),
{
    let ig = Set::<usize>::empty();
    let e = Seq::<RunView>::empty();
    assert(star_count(t, ig, 0) == 0);
    assert(prefix_counts(e, 0) == 0);
    lemma_runs_from_positioned(t, ig, 0, 0, e);
    lemma_runs_from_counts(t, ig, 0, 0, e, 255);
    let rs1 = runs_from(t, ig, 0, 0, e);
    let (rs2, err) = classify_from(t, rs1, 0);
    if err is None {
        lemma_classify_from_fields(t, rs1, 0);
        let st0 = MatchState { runs: rs2, stack: Seq::empty(), matches: Seq::empty() };
        assert forall|k: int| 0 <= k < rs2.len() implies #[trigger] st0.runs[k] == RunView {
            remaining: st0.runs[k].remaining,
            ..rs2[k]
        } && st0.runs[k].remaining >= 0 by {
            assert(run_positioned(t, ig, rs1, k));
        }
        assert forall|k: int| 0 <= k < rs2.len() implies #[trigger] st0.runs[k].remaining >= 1 by {
            assert(run_positioned(t, ig, rs1, k));
        }
        if rs1.len() > 0 {
            let l = rs1.len() - 1;
            assert(run_positioned(t, ig, rs1, l));
            lemma_prefix_counts_nonneg(t, ig, rs1, rs1.len() as int);
            let c = rs1[l].token_index + rs1[l].count;
            lemma_width_sum(t, ig, c);
        }
        lemma_match_from_ok(rs2, st0, 0, rs2.len() as int);
        let (rs3, ms) = matched(rs2, Seq::empty());
        assert forall|k: int| 0 <= k < rs3.len() implies #[trigger] rs3[k].count <= rs3[k].byte_index by {
            assert(rs3[k] == RunView { remaining: rs3[k].remaining, ..rs2[k] });
            assert(rs2[k] == RunView { can_open: rs2[k].can_open, can_close: rs2[k].can_close, ..rs1[k] });
            assert(run_positioned(t, ig, rs1, k));
            lemma_prefix_counts_nonneg(t, ig, rs1, k);
            let c = rs1[k].token_index + rs1[k].count;
            lemma_width_sum(t, ig, c);
        }
        assert forall|j: int| 0 <= j < ms.len() implies #[trigger] match_ranges_fit(rs3, ms[j]) by {
            if 0 <= ms[j].opener < rs3.len() {
                assert(rs3[ms[j].opener].count <= rs3[ms[j].opener].byte_index);
            }
            if 0 <= ms[j].closer < rs3.len() {
                assert(rs3[ms[j].closer].count <= rs3[ms[j].closer].byte_index);
            }
        }
        assert forall|k: int| 0 <= k < rs3.len() implies text_index_at(t, ig, rs3, ms, k) >= 0 by {
            assert(rs3[k] == RunView { remaining: rs3[k].remaining, ..rs2[k] });
            assert(rs2[k] == RunView { can_open: rs2[k].can_open, can_close: rs2[k].can_close, ..rs1[k] });
            assert(run_positioned(t, ig, rs1, k));
            assert forall|q: int| 0 <= q < k + 1 implies #[trigger] rs3[q].count == rs1[q].count by {
                assert(rs3[q] == RunView { remaining: rs3[q].remaining, ..rs2[q] });
                assert(rs2[q] == RunView { can_open: rs2[q].can_open, can_close: rs2[q].can_close, ..rs1[q] });
            }
            lemma_prefix_counts_same(rs3, rs1, k + 1);
            assert forall|q: int| 0 <= q < rs3.len() implies #[trigger] rs3[q].remaining >= 0 by {
                assert(rs3[q] == RunView { remaining: rs3[q].remaining, ..rs2[q] });
            }
            lemma_running_at_bound(t, rs3, ms, k);
            let c = rs1[k].token_index + rs1[k].count;
            lemma_width_sum(t, ig, c);
            lemma_no_ignored_bytes(t, rs3[k].token_index);
        }
    }
}

/// The index of the first `Eof` token at or after `i`, or the length.
pub open spec fn eof_from(t: Seq<TokenView>, i: int) -> int
    decreases t.len() - i,
{
    if i < 0 || i >= t.len() || t[i].token_type == TokenType::Eof {
        i
    } else {
        eof_from(t, i + 1)
    }
}

proof fn lemma_eof_from(t: Seq<TokenView>, i: int)
    requires
        0 <= i <= t.len(),
    ensures
        i <= eof_from(t, i) <= t.len(),
        forall|j: int| i <= j < eof_from(t, i) ==> #[trigger] t[j].token_type != TokenType::Eof,
        eof_from(t, i) < t.len() ==> t[eof_from(t, i)].token_type == TokenType::Eof,
    decreases t.len() - i,
{
    if i < t.len() && t[i].token_type != TokenType::Eof {
        lemma_eof_from(t, i + 1);
    }
}

pub open spec fn is_star(t: Seq<TokenView>, j: int) -> bool {
    0 <= j < t.len() && t[j].token_type == TokenType::Star
}

/// Run `r` stands for a maximal run of consecutive `*` tokens that ends by
/// `e`: its tokens are all `*`, the tokens just before and after are not,
/// its byte position is the end of its last token, all its markers are
/// left, and it is not yet classified.
pub open spec fn maximal_star_run(t: Seq<TokenView>, e: int, r: RunView) -> bool {
    let a = r.token_index;
    let b = r.token_index + r.count;
    &&& 0 <= a < b <= e
    &&& forall|j: int| a <= j < b ==> #[trigger] is_star(t, j)
    &&& !is_star(t, a - 1)
    &&& !is_star(t, b)
    &&& r.token_type == TokenType::Star
    &&& r.byte_index == t[b - 1].logical_byte_end
    &&& r.remaining == r.count
    &&& !r.can_open && !r.can_close
    &&& r.text_index == 0
}

/// Token `j` lies in run `r`.
pub open spec fn in_run(r: RunView, j: int) -> bool {
    r.token_index <= j < r.token_index + r.count
}

proof fn lemma_runs_from_maximal(t: Seq<TokenView>, e: int, i: int, count: int, runs: Seq<RunView>)
    requires
        forall|j: int| 0 <= j < t.len() ==> #[trigger] t[j].token_type != TokenType::Underscore
            && t[j].token_type != TokenType::Unset,
        e == eof_from(t, 0),
        e <= t.len(),
        forall|j: int| 0 <= j < e ==> #[trigger] t[j].token_type != TokenType::Eof,
        e < t.len() ==> t[e].token_type == TokenType::Eof,
        0 <= count <= i <= e,
        forall|j: int| i - count <= j < i ==> #[trigger] is_star(t, j),
        !is_star(t, i - count - 1),
        forall|k: int| 0 <= k < runs.len() ==> maximal_star_run(t, e, #[trigger] runs[k]) && runs[k].token_index
            + runs[k].count <= i - count,
        forall|k1: int, k2: int| 0 <= k1 < k2 < runs.len() ==> #[trigger] runs[k1].token_index < #[trigger] runs[k2].token_index,
        forall|j: int| 0 <= j < i - count && is_star(t, j) ==> exists|k: int| 0 <= k < runs.len() && #[trigger] in_run(runs[k], j),
    ensures
        ({
            let rs = runs_from(t, Set::empty(), i, count, runs);
            &&& forall|k: int| 0 <= k < rs.len() ==> #[trigger] maximal_star_run(t, e, rs[k])
            &&& forall|k1: int, k2: int| 0 <= k1 < k2 < rs.len() ==> #[trigger] rs[k1].token_index < #[trigger] rs[k2].token_index
            &&& forall|j: int| 0 <= j < e && is_star(t, j) ==> exists|k: int| 0 <= k < rs.len() && #[trigger] in_run(rs[k], j)
        }),
    decreases t.len() - i,
{
    let ig = Set::<usize>::empty();
    let flushed = flush_run(t, i, count, runs);
    let n = runs.len();
    if count > 0 && (i >= e || t[i].token_type != TokenType::Star) {
        let r = flushed.last();
        assert(r.token_index == i - count && r.count == count);
        assert forall|k: int| 0 <= k < flushed.len() implies maximal_star_run(t, e, #[trigger] flushed[k]) && flushed[k].token_index
            + flushed[k].count <= i by {
            if k < n {
                assert(flushed[k] == runs[k]);
            } else {
                assert(flushed[k] == r);
                assert(!is_star(t, i));
                assert(is_star(t, i - 1));
                assert(r.token_type == TokenType::Star);
                assert(r.byte_index == t[i - 1].logical_byte_end);
                assert(maximal_star_run(t, e, r));
            }
        }
        assert forall|k1: int, k2: int| 0 <= k1 < k2 < flushed.len() implies #[trigger] flushed[k1].token_index
            < #[trigger] flushed[k2].token_index by {
            assert(flushed[k1] == runs[k1]);
            if k2 < n {
                assert(flushed[k2] == runs[k2]);
            } else {
                assert(maximal_star_run(t, e, runs[k1]));
            }
        }
        assert forall|j: int| 0 <= j < i && is_star(t, j) implies exists|k: int| 0 <= k < flushed.len() && #[trigger] in_run(flushed[k], j) by {
            if j < i - count {
                let k = choose|k: int| 0 <= k < runs.len() && #[trigger] in_run(runs[k], j);
                assert(flushed[k] == runs[k]);
                assert(in_run(flushed[k], j));
            } else {
                assert(in_run(flushed[n as int], j));
            }
        }
    }
    if run_scan_stops(t, ig, i) {
        assert(i == e);
    } else {
        assert(i < e);
        let ty = t[i].token_type;
        assert(!is_ignored(ig, i));
        if ty == TokenType::Star {
            lemma_runs_from_maximal(t, e, i + 1, count + 1, runs);
        } else {
            assert(ends_run(ty));
            lemma_runs_from_maximal(t, e, i + 1, 0, flushed);
        }
    }
}

/// With no token ignored and no `_` or unset token, the runs that the
/// scan for runs lists are, in order of position, exactly the maximal runs
/// of consecutive `*` tokens before the first `Eof`: one run for each, and
/// every `*` there in one of them.
pub proof fn lemma_runs_are_maximal_star_runs(t: Seq<TokenView>)
    requires
        forall|j: int| 0 <= j < t.len() ==> #[trigger] t[j].token_type != TokenType::Underscore
            && t[j].token_type != TokenType::Unset,
    ensures
        ({
            let rs = runs_from(t, Set::empty(), 0, 0, Seq::empty());
            let e = eof_from(t, 0);
            &&& forall|k: int| 0 <= k < rs.len() ==> #[trigger] maximal_star_run(t, e, rs[k])
            &&& forall|k1: int, k2: int| 0 <= k1 < k2 < rs.len() ==> #[trigger] rs[k1].token_index < #[trigger] rs[k2].token_index
            &&& forall|j: int| 0 <= j < e && is_star(t, j) ==> exists|k: int| 0 <= k < rs.len() && #[trigger] in_run(rs[k], j)
        }),
{
    lemma_eof_from(t, 0);
    lemma_runs_from_maximal(t, eof_from(t, 0), 0, 0, Seq::empty());
}

proof fn lemma_runs_from_grows(t: Seq<TokenView>, ig: Set<usize>, i: int, count: int, runs: Seq<RunView>)
    ensures
        runs_from(t, ig, i, count, runs).len() >= runs.len(),
    decreases t.len() - i,
{
    if !(i < 0 || run_scan_stops(t, ig, i)) {
        let runs2 = if !is_ignored(ig, i) && ends_run(t[i].token_type) {
            flush_run(t, i, count, runs)
        } else {
            runs
        };
        lemma_runs_from_grows(t, ig, i + 1, next_count(t, ig, i, count), runs2);
    }
}

proof fn lemma_runs_from_counts(t: Seq<TokenView>, ig: Set<usize>, i: int, count: int, runs: Seq<RunView>, b: int)
    requires
        counts_fit(t, ig, i, count, b),
        0 <= count,
        forall|k: int| 0 <= k < runs.len() ==> #[trigger] runs[k].count <= b && runs[k].remaining == runs[k].count,
    ensures
        forall|k: int| 0 <= k < runs_from(t, ig, i, count, runs).len() ==> #[trigger] runs_from(t, ig, i, count, runs)[k].count <= b
            && runs_from(t, ig, i, count, runs)[k].remaining == runs_from(t, ig, i, count, runs)[k].count,
    decreases t.len() - i,
{
    if i < 0 || run_scan_stops(t, ig, i) {
    } else {
        let runs2 = if !is_ignored(ig, i) && ends_run(t[i].token_type) {
            flush_run(t, i, count, runs)
        } else {
            runs
        };
        lemma_runs_from_counts(t, ig, i + 1, next_count(t, ig, i, count), runs2, b);
    }
}

/// Classifying changes only the `can_open` and `can_close` flags.
proof fn lemma_classify_from_fields(t: Seq<TokenView>, rs: Seq<RunView>, k: int)
    ensures
        classify_from(t, rs, k).0.len() == rs.len(),
        forall|q: int| 0 <= q < rs.len() ==> #[trigger] classify_from(t, rs, k).0[q] == (RunView {
            can_open: classify_from(t, rs, k).0[q].can_open,
            can_close: classify_from(t, rs, k).0[q].can_close,
            ..rs[q]
        }),
    decreases rs.len() - k,
{
    if 0 <= k < rs.len() {
        match classify_run(t, rs[k]) {
            Err(e) => {},
            Ok(r2) => {
                lemma_classify_from_fields(t, rs.update(k, r2), k + 1);
            },
        }
    }
}

/// Parses the emphasis of a token slice.
pub struct DelimiterParser<'a> {
    base: BaseParser<'a>,
    /// Indexes of tokens left out of the text and the spans.
    ignored_tokens: &'a HashSet<usize>,
    run_vector: DelimiterRunVector,
    match_vector: DelimiterMatchVector,
}

impl DelimiterRun {
    pub fn token_type(&self) -> (r: &TokenType)
        ensures
            *r == self@.token_type,
    {
        &self.token_type
    }

    pub fn token_index(&self) -> (r: usize)
        ensures
            r as int == self@.token_index,
    {
        self.token_index
    }

    pub fn byte_index(&self) -> (r: usize)
        ensures
            r as int == self@.byte_index,
    {
        self.byte_index
    }

    pub fn count(&self) -> (r: u8)
        ensures
            r as int == self@.count,
    {
        self.count
    }

    pub fn can_open(&self) -> (r: bool)
        ensures
            r == self@.can_open,
    {
        self.can_open
    }

    pub fn can_close(&self) -> (r: bool)
        ensures
            r == self@.can_close,
    {
        self.can_close
    }

    pub fn remaining(&self) -> (r: u8)
        ensures
            r as int == self@.remaining,
    {
        self.remaining
    }

    pub fn text_index(&self) -> (r: usize)
        ensures
            r as int == self@.text_index,
    {
        self.text_index
    }

    pub fn set_token_index(&mut self, val: usize)
        ensures
            final(self)@ == (RunView { token_index: val as int, ..old(self)@ }),
    {
        self.token_index = val;
    }

    pub fn set_byte_index(&mut self, val: usize)
        ensures
            final(self)@ == (RunView { byte_index: val as int, ..old(self)@ }),
    {
        self.byte_index = val;
    }

    pub proof fn lemma_fits(&self)
        ensures
            0 <= self@.token_index <= usize::MAX,
            0 <= self@.byte_index <= usize::MAX,
            0 <= self@.count <= 255,
            0 <= self@.remaining <= 255,
            0 <= self@.text_index <= usize::MAX,
    {
    }
}

impl DelimiterMatch {
    pub fn new(opener_index: usize, closer_index: usize, use_count: u8) -> (r: Self)
        ensures
            r@ == (MatchView {
                opener: opener_index as int,
                closer: closer_index as int,
                use_count: use_count as int,
            }),
    {
        Self { opener_index, closer_index, use_count }
    }

    pub fn opener_index(&self) -> (r: usize)
        ensures
            r as int == self@.opener,
    {
        self.opener_index
    }

    pub fn closer_index(&self) -> (r: usize)
        ensures
            r as int == self@.closer,
    {
        self.closer_index
    }

    pub fn use_count(&self) -> (r: u8)
        ensures
            r as int == self@.use_count,
    {
        self.use_count
    }
}

impl<'a> DelimiterParser<'a> {
    /// The tokens being parsed.
    pub closed spec fn toks(&self) -> Seq<TokenView> {
        self.base.toks()
    }

    /// The indexes of the tokens left out.
    pub closed spec fn ignored(&self) -> Set<usize> {
        self.ignored_tokens@
    }

    pub closed spec fn runs(&self) -> Seq<RunView> {
        run_views(self.run_vector@)
    }

    pub closed spec fn matches(&self) -> Seq<MatchView> {
        match_views(self.match_vector@)
    }

    /// The position of the inner cursor is at the first token.
    pub closed spec fn inv(&self) -> bool {
        &&& self.base.cur() == 0
    }

    pub fn new(tokens: &'a [Token], ignored_tokens: &'a HashSet<usize>) -> (r: Self)
        ensures
            r.inv(),
            r.toks() == views(tokens@),
            r.ignored() == ignored_tokens@,
            r.runs() == Seq::<RunView>::empty(),
            r.matches() == Seq::<MatchView>::empty(),
    {
        let r = DelimiterParser {
            base: BaseParser::new(tokens),
            ignored_tokens,
            run_vector: DelimiterRunVector::new(),
            match_vector: DelimiterMatchVector::new(),
        };
        assert(r.runs() =~= Seq::<RunView>::empty());
        assert(r.matches() =~= Seq::<MatchView>::empty());
        r
    }

    pub fn run_vector(&self) -> (r: &DelimiterRunVector)
        ensures
            run_views(r@) == self.runs(),
    {
        &self.run_vector
    }

    pub fn match_vector(&self) -> (r: &DelimiterMatchVector)
        ensures
            match_views(r@) == self.matches(),
    {
        &self.match_vector
    }

    fn ignored_token(&self, index: usize) -> (r: bool)
        ensures
            r == is_ignored(self.ignored(), index as int),
    {
        self.ignored_tokens.contains(&index)
    }

    /// Ends the pending run of `emphasis_count` markers before the current
    /// token.
    fn new_run_vector(&mut self, emphasis_count: &mut u8)
        requires
            *old(emphasis_count) > 0 ==> 0 < old(self).base.cur() <= old(self).base.toks().len(),
            *old(emphasis_count) <= old(self).base.cur(),
        ensures
            *final(emphasis_count) == 0,
            final(self).base == old(self).base,
            final(self).ignored_tokens == old(self).ignored_tokens,
            final(self).match_vector == old(self).match_vector,
            final(self).runs() == flush_run(
                old(self).base.toks(),
                old(self).base.cur(),
                *old(emphasis_count) as int,
                old(self).runs(),
            ),
    {
        if *emphasis_count == 0 {
            return;
        }
        proof {
            self.base.lemma_toks();
        }
        let prev_token = self.base.previous().unwrap();
        let ghost before = self.runs();
        let run = DelimiterRun {
            token_type: prev_token.token_type(),
            token_index: self.base.current() - *emphasis_count as usize,
            byte_index: prev_token.logical_byte_end(),
            count: *emphasis_count,
            can_open: false,
            can_close: false,
            remaining: *emphasis_count,
            text_index: 0,
        };
        self.run_vector.push(run);
        assert(self.runs() =~= before.push(run@));
        *emphasis_count = 0;
    }

    /// Collects the runs of emphasis markers, appending them to the run
    /// vector with `can_open` and `can_close` unset.
    pub fn pre_process(&mut self) -> (r: ParseResult<()>)
        requires
            old(self).inv(),
            counts_fit(old(self).toks(), old(self).ignored(), 0, 0, 255),
            runs_fact(old(self).toks(), old(self).runs()),
        ensures
            r is Ok,
            final(self).inv(),
            final(self).toks() == old(self).toks(),
            final(self).ignored() == old(self).ignored(),
            final(self).matches() == old(self).matches(),
            final(self).runs() == runs_from(old(self).toks(), old(self).ignored(), 0, 0, old(self).runs()),
            runs_fact(final(self).toks(), final(self).runs()),
    {
        let ghost t = self.base.toks();
        let ghost ig = self.ignored();
        let ghost target = runs_from(t, ig, 0, 0, self.runs());
        let ghost base0 = self.base;
        self.base.save();
        let mut emphasis_count: u8 = 0;
        proof {
            self.base.lemma_toks();
        }
        loop
            invariant
                self.base.toks() == t,
                self.base.raw_tokens() == base0.raw_tokens(),
                self.base.saved() == base0.saved().push(0),
                self.base.errs() == base0.errs(),
                self.ignored() == ig,
                self.match_vector == old(self).match_vector,
                self.ignored_tokens == old(self).ignored_tokens,
                0 <= self.base.cur() <= t.len(),
                t.len() == self.base.raw_tokens()@.len(),
                runs_from(t, ig, self.base.cur(), emphasis_count as int, self.runs()) == target,
                counts_fit(t, ig, self.base.cur(), emphasis_count as int, 255),
                emphasis_count as int <= star_count(t, ig, self.base.cur()),
                runs_fact(t, self.runs()),
            ensures
                run_scan_stops(t, ig, self.base.cur()),
            decreases t.len() - self.base.cur(),
        {
            if self.base.is_at_end() {
                break;
            }
            let cur = self.base.current();
            let token_type = self.base.peek().unwrap().token_type();
            if self.ignored_token(cur) {
                self.base.advance();
                proof {
                    reveal_with_fuel(star_count, 2);
                }
                continue;
            }
            if token_type == TokenType::Eof {
                break;
            }
            let ghost before = self.runs();
            assert(counts_fit(t, ig, cur + 1, next_count(t, ig, cur as int, emphasis_count as int), 255));
            if token_type == TokenType::Star {
                emphasis_count = emphasis_count + 1;
            } else if ends_run_exec(token_type) {
                proof {
                    lemma_star_count_le(t, ig, cur as int);
                }
                self.new_run_vector(&mut emphasis_count);
                proof {
                    if self.runs().len() > before.len() {
                        assert forall|k: int| 0 <= k < self.runs().len() implies run_fact(t, #[trigger] self.runs()[k]) by {
                            if k < before.len() {
                                assert(self.runs()[k] == before[k]);
                            }
                        }
                    } else {
                        assert(self.runs() == before);
                    }
                }
            }
            self.base.advance();
            proof {
                reveal_with_fuel(star_count, 2);
            }
        }
        let ghost before = self.runs();
        proof {
            lemma_star_count_le(t, ig, self.base.cur());
        }
        self.new_run_vector(&mut emphasis_count);
        proof {
            if self.runs().len() > before.len() {
                assert forall|k: int| 0 <= k < self.runs().len() implies run_fact(t, #[trigger] self.runs()[k]) by {
                    if k < before.len() {
                        assert(self.runs()[k] == before[k]);
                    }
                }
            } else {
                assert(self.runs() == before);
            }
        }
        self.base.restore()?;
        Ok(())
    }
    /// The characters before and after a run of `count` markers starting at
    /// token `token_index`.
    fn get_flanking_prev_and_next_char(tokens: &[Token], token_index: usize, count: usize) -> (r: ParseResult<(char, char)>)
        requires
            token_index < tokens@.len(),
            token_index + count <= usize::MAX,
        ensures
            ({
                let t = views(tokens@);
                match (flank_prev(t, token_index as int), flank_next(t, token_index as int, count as int)) {
                    (None, _) => r matches Err(e) && e@ == prev_char_error(),
                    (Some(_), None) => r matches Err(e) && e@ == next_char_error(),
                    (Some(p), Some(n)) => r == Ok::<(char, char), String>((p, n)),
                }
            }),
    {
        let prev: char = if token_index == 0 {
            ' '
        } else {
            match last_char(tokens[token_index - 1].lexeme()) {
                Some(c) => c,
                None => {
                    return Err(String::from_str("Delimiter can_open can't extract preceeding lexeme last character"));
                },
            }
        };
        let next: char = if token_index + count >= tokens.len() {
            END_OF_INPUT_CHAR
        } else {
            let token = &tokens[token_index + count];
            let ty = token.token_type();
            if ty == TokenType::Eof || ty == TokenType::Newline {
                END_OF_INPUT_CHAR
            } else {
                match first_char(token.lexeme()) {
                    Some(c) => c,
                    None => {
                        return Err(String::from_str("Delimiter can_open can't extract following lexeme first character"));
                    },
                }
            }
        };
        Ok((prev, next))
    }

    /// Sets `can_open` and `can_close` of each run from the characters around
    /// it. Stops at the first run whose neighbouring lexeme is empty.
    pub fn classify_can_open_close(&mut self) -> (r: ParseResult<()>)
        requires
            runs_fact(old(self).toks(), old(self).runs()),
        ensures
            final(self).inv() == old(self).inv(),
            final(self).toks() == old(self).toks(),
            final(self).ignored() == old(self).ignored(),
            final(self).matches() == old(self).matches(),
            final(self).runs() == classify_from(old(self).toks(), old(self).runs(), 0).0,
            classify_from(old(self).toks(), old(self).runs(), 0).1 is None ==> r is Ok,
            classify_from(old(self).toks(), old(self).runs(), 0).1 is Some ==> (r matches Err(m)
                && m@ == classify_from(old(self).toks(), old(self).runs(), 0).1->0),
            runs_fact(final(self).toks(), final(self).runs()),
    {
        let tokens = self.base.tokens();
        let ghost t = self.toks();
        let ghost target = classify_from(t, self.runs(), 0);
        let len = self.run_vector.len();
        let mut i: usize = 0;
        while i < len
            invariant
                0 <= i <= len,
                len == self.run_vector@.len(),
                self.base == old(self).base,
                self.ignored_tokens == old(self).ignored_tokens,
                self.match_vector == old(self).match_vector,
                tokens == self.base.raw_tokens(),
                t == self.toks(),
                t == old(self).toks(),
                target == classify_from(old(self).toks(), old(self).runs(), 0),
                classify_from(t, self.runs(), i as int) == target,
                runs_fact(t, self.runs()),
            decreases len - i,
        {
            let run = self.run_vector[i];
            assert(self.runs()[i as int] == run@);
            assert(run_fact(t, run@));
            let (prev_char, next_char) = match Self::get_flanking_prev_and_next_char(tokens, run.token_index, run.count as usize) {
                Ok(pn) => pn,
                Err(e) => {
                    proof {
                        let rv = self.runs()[i as int];
                        assert(classify_run(t, rv) is Err);
                        assert(classify_from(t, self.runs(), i as int) == (self.runs(), Some(classify_run(t, rv)->Err_0)));
                        assert(rv.token_index == run.token_index as int);
                        assert(rv.count == run.count as int);
                        assert(e@ == classify_run(t, rv)->Err_0);

                    }
                    return Err(e);
                },
            };
            let can_open = !is_whitespace(next_char) && (!self.base.is_punctuation(next_char)
                || is_whitespace(prev_char) || self.base.is_punctuation(prev_char));
            let can_close = !is_whitespace(prev_char) && (!self.base.is_punctuation(prev_char)
                || is_whitespace(next_char) || self.base.is_punctuation(next_char));
            let new_run = DelimiterRun { can_open, can_close, ..run };
            let ghost before = self.runs();
            self.run_vector.set(i, new_run);
            assert(self.runs() =~= before.update(i as int, new_run@));
            i = i + 1;
        }
        Ok(())
    }

    /// The rule of three: when either run can both open and close, their
    /// markers left must not add up to a multiple of three unless both are
    /// multiples of three. The sum is taken in 16 bits.
    fn satisfies_rule_of_three(&self, opener: &DelimiterRun, closer: &DelimiterRun) -> (r: bool)
        ensures
            r == rule_of_three(opener@, closer@),
    {
        if !(opener.can_open && opener.can_close) && !(closer.can_open && closer.can_close) {
            return true;
        }
        let sum: u16 = opener.remaining as u16 + closer.remaining as u16;
        let sum_multiple_of_3 = sum % 3 == 0;
        let not_both_multiples_of_3 = opener.remaining % 3 != 0 || closer.remaining % 3 != 0;
        !(sum_multiple_of_3 && not_both_multiples_of_3)
    }

    /// Searches the stack downwards for an opener that run `i` can close.
    fn find_opener(&self, stack: &Vec<usize>, i: usize) -> (r: Option<usize>)
        requires
            i < self.runs().len(),
            stack_ok(self.runs(), stack@, i as int),
        ensures
            match find_opener(self.runs(), stack@, i as int, stack@.len() as int) {
                None => r is None,
                Some(j) => r == Some(j as usize),
            },
    {
        let mut stack_len = stack.len();
        while stack_len > 0
            invariant
                stack_len <= stack@.len(),
                stack_ok(self.runs(), stack@, i as int),
                i < self.runs().len(),
                find_opener(self.runs(), stack@, i as int, stack@.len() as int) == find_opener(
                    self.runs(),
                    stack@,
                    i as int,
                    stack_len as int,
                ),
            decreases stack_len,
        {
            stack_len = stack_len - 1;
            let opener_index = stack[stack_len];
            assert(0 <= stack@[stack_len as int] < i);
            let a = self.run_vector[i];
            let b = self.run_vector[opener_index];
            assert(self.runs()[i as int] == a@);
            assert(self.runs()[opener_index as int] == b@);
            if a.token_type == b.token_type && self.satisfies_rule_of_three(&b, &a) {
                return Some(stack_len);
            }
        }
        None
    }

    /// Pairs openers with closers, recording the matches and lowering the
    /// runs' remaining counts; then sorts the matches by opener ascending,
    /// closer descending, use count descending.
    pub fn match_delimiters(&mut self) -> (r: ParseResult<()>)
        requires
            runs_fact(old(self).toks(), old(self).runs()),
            no_negative(matched(old(self).runs(), old(self).matches()).0),
            matches_fact(old(self).runs().len() as int, old(self).matches()),
        ensures
            r is Ok,
            final(self).inv() == old(self).inv(),
            final(self).toks() == old(self).toks(),
            final(self).ignored() == old(self).ignored(),
            (final(self).runs(), final(self).matches()) == matched(old(self).runs(), old(self).matches()),
            runs_fact(final(self).toks(), final(self).runs()),
            runs_step(old(self).runs(), final(self).runs()),
            matches_fact(final(self).runs().len() as int, final(self).matches()),
    {
        let mut stack: Vec<usize> = Vec::new();
        let len = self.run_vector.len();
        let ghost t = self.toks();
        let ghost rs0 = self.runs();
        let ghost target = match_from(MatchState { runs: self.runs(), stack: Seq::empty(), matches: self.matches() }, 0, len as int);
        let mut i: usize = 0;
        while i < len
            invariant
                0 <= i <= len,
                len == self.run_vector@.len(),
                self.base == old(self).base,
                self.ignored_tokens == old(self).ignored_tokens,
                t == self.toks(),
                t == old(self).toks(),
                rs0 == old(self).runs(),
                target == match_from(MatchState { runs: old(self).runs(), stack: Seq::empty(), matches: old(self).matches() }, 0, len as int),
                match_from(MatchState { runs: self.runs(), stack: stack@, matches: self.matches() }, i as int, len as int) == target,
                runs_fact(t, self.runs()),
                runs_step(rs0, self.runs()),
                no_negative(target.runs),
                forall|k: int| i <= k < len ==> #[trigger] self.runs()[k] == rs0[k],
                stack_ok(self.runs(), stack@, i as int),
                matches_fact(len as int, self.matches()),
            decreases len - i,
        {
            let ghost st_i = MatchState { runs: self.runs(), stack: stack@, matches: self.matches() };
            let run = self.run_vector[i];
            assert(self.runs()[i as int] == run@);
            if !run.can_close {
                if run.can_open {
                    stack.push(i);
                }
                assert(stack_ok(self.runs(), stack@, i + 1));
                i = i + 1;
                continue;
            }
            let mut closer_count = run.remaining;
            let ghost inner_target = close_run(st_i, i as int);
            proof {
                lemma_close_run_lowers(st_i, i as int);
                lemma_match_from_lowers(match_run(st_i, i as int), i + 1, len as int);
                assert(match_run(st_i, i as int).runs == inner_target.runs);
            }
            while closer_count > 0 && stack.len() > 0
                invariant
                    0 <= i < len,
                    len == self.run_vector@.len(),
                    self.base == old(self).base,
                    self.ignored_tokens == old(self).ignored_tokens,
                    t == self.toks(),
                    rs0 == old(self).runs(),
                    close_run(MatchState { runs: self.runs(), stack: stack@, matches: self.matches() }, i as int) == inner_target,
                    closer_count > 0 ==> closer_count == self.runs()[i as int].remaining,
                    closer_count == 0 ==> close_run(MatchState { runs: self.runs(), stack: stack@, matches: self.matches() }, i as int) == (MatchState { runs: self.runs(), stack: stack@, matches: self.matches() }),
                    runs_fact(t, self.runs()),
                    runs_step(rs0, self.runs()),
                    forall|k: int| i < k < len ==> #[trigger] self.runs()[k] == rs0[k],
                    stack_ok(self.runs(), stack@, i as int),
                    matches_fact(len as int, self.matches()),
                    no_negative(target.runs),
                    target.runs.len() == len,
                    inner_target.runs.len() == len,
                    forall|k: int| 0 <= k < len ==> #[trigger] target.runs[k].remaining <= inner_target.runs[k].remaining,
                decreases closer_count,
            {
                let ghost st = MatchState { runs: self.runs(), stack: stack@, matches: self.matches() };
                proof {
                    lemma_find_opener_range(st.runs, st.stack, i as int, st.stack.len() as int);
                }
                match self.find_opener(&stack, i) {
                    None => {
                        closer_count = 0;
                    },
                    Some(j) => {
                        let opener_index = stack[j];
                        assert(0 <= opener_index < i);
                        let mut o_run = self.run_vector[opener_index];
                        assert(self.runs()[opener_index as int] == o_run@);
                        let opener_count = o_run.remaining;
                        let use_count: u8 = if opener_count >= 2 && closer_count >= 2 { 2 } else { 1 };
                        proof {
                            let o = opener_index as int;
                            assert(st.stack[j as int] == opener_index);
                            assert(close_run(st, i as int) == close_run(match_once(st, i as int, j as int), i as int));
                            lemma_close_run_lowers(match_once(st, i as int, j as int), i as int);
                            assert(match_once(st, i as int, j as int).runs[o].remaining == opener_count - use_count);
                            assert(target.runs[o].remaining >= 0);
                        }
                        let ghost ms_before = self.matches();
                        self.match_vector.push(DelimiterMatch::new(opener_index, i, use_count));
                        assert(self.matches() =~= ms_before.push(MatchView { opener: opener_index as int, closer: i as int, use_count: use_count as int }));
                        let new_opener_count = opener_count - use_count;
                        closer_count = closer_count - use_count;
                        let ghost rs_a = self.runs();
                        o_run.remaining = new_opener_count;
                        self.run_vector.set(opener_index, o_run);
                        assert(self.runs() =~= rs_a.update(opener_index as int, RunView { remaining: new_opener_count as int, ..rs_a[opener_index as int] }));
                        let ghost rs_b = self.runs();
                        let mut c_run = self.run_vector[i];
                        assert(rs_b[i as int] == c_run@);
                        c_run.remaining = closer_count;
                        self.run_vector.set(i, c_run);
                        assert(self.runs() =~= rs_b.update(i as int, RunView { remaining: closer_count as int, ..rs_b[i as int] }));
                        let ghost stack_before = stack@;
                        if new_opener_count == 0 {
                            stack.remove(j);
                        }
                        proof {
                            assert(find_opener(st.runs, st.stack, i as int, st.stack.len() as int) == Some(j as int));
                            assert(MatchState { runs: self.runs(), stack: stack@, matches: self.matches() } == match_once(st, i as int, j as int));
                            lemma_match_once_inv(t, rs0, st, i as int, j as int, len as int);
                        }
                    },
                }
            }
            let c_run = self.run_vector[i];
            assert(self.runs()[i as int] == c_run@);
            if c_run.can_open && c_run.remaining > 0 {
                stack.push(i);
            }
            assert(stack_ok(self.runs(), stack@, i + 1));
            i = i + 1;
        }
        let sorted = sort_match_vector(&self.match_vector);
        let ghost unsorted = self.matches();
        self.match_vector = sorted;
        proof {
            lemma_sort_members(unsorted);
            assert forall|k: int| 0 <= k < self.matches().len() implies match_fact(len as int, #[trigger] self.matches()[k]) by {
                let q = choose|q: int| 0 <= q < unsorted.len() && unsorted[q] == self.matches()[k];
                assert(match_fact(len as int, unsorted[q]));
            }
        }
        Ok(())
    }

    /// The byte range of the markers that match `delimiter_match` consumes
    /// from its opener or its closer.
    fn get_match_start_end_byte_range(&self, delimiter_match: &DelimiterMatch, is_opener: bool) -> (r: (usize, usize))
        requires
            runs_fact(self.toks(), self.runs()),
            match_fact(self.runs().len() as int, delimiter_match@),
            match_ranges_fit(self.runs(), delimiter_match@),
        ensures
            (r.0 as int, r.1 as int) == match_range(self.runs(), delimiter_match@, is_opener),
    {
        let run = if is_opener {
            self.run_vector[delimiter_match.opener_index]
        } else {
            self.run_vector[delimiter_match.closer_index]
        };
        assert(run@ == self.runs()[if is_opener { delimiter_match@.opener } else { delimiter_match@.closer }]);
        assert(run_fact(self.toks(), run@));
        let run_count = run.count as usize;
        let run_remaining = run.remaining as usize;
        let start: usize = if is_opener {
            run.byte_index - run_count + run_remaining
        } else {
            run.byte_index - run_count
        };
        let end: usize = if is_opener {
            run.byte_index
        } else {
            run.byte_index - run_remaining
        };
        (start, end)
    }

    /// The consumed byte ranges of all matches: opener then closer.
    fn get_delimiter_byte_ranges(&self) -> (r: Vec<(usize, usize)>)
        requires
            runs_fact(self.toks(), self.runs()),
            matches_fact(self.runs().len() as int, self.matches()),
            ranges_fit(self.runs(), self.matches()),
        ensures
            range_views(r@) == delimiter_ranges(self.runs(), self.matches()),
    {
        let mut delimiter_byte_ranges: Vec<(usize, usize)> = Vec::new();
        let mut k: usize = 0;
        assert(self.matches().take(0) =~= Seq::<MatchView>::empty());
        assert(range_views(delimiter_byte_ranges@) =~= Seq::<(int, int)>::empty());
        while k < self.match_vector.len()
            invariant
                k <= self.match_vector@.len(),
                runs_fact(self.toks(), self.runs()),
                matches_fact(self.runs().len() as int, self.matches()),
                ranges_fit(self.runs(), self.matches()),
                range_views(delimiter_byte_ranges@) == delimiter_ranges(self.runs(), self.matches().take(k as int)),
            decreases self.match_vector@.len() - k,
        {
            let m = self.match_vector[k];
            assert(self.matches()[k as int] == m@);
            assert(match_ranges_fit(self.runs(), self.matches()[k as int]));
            let a = self.get_match_start_end_byte_range(&m, true);
            let b = self.get_match_start_end_byte_range(&m, false);
            let ghost before = delimiter_byte_ranges@;
            delimiter_byte_ranges.push(a);
            delimiter_byte_ranges.push(b);
            proof {
                let mk = self.matches().take(k + 1);
                assert(mk.drop_last() =~= self.matches().take(k as int));
                assert(range_views(delimiter_byte_ranges@) =~= range_views(before).push((a.0 as int, a.1 as int)).push((b.0 as int, b.1 as int)));
            }
            k = k + 1;
        }
        assert(self.matches().take(self.matches().len() as int) =~= self.matches());
        delimiter_byte_ranges
    }

    /// The lexemes of the tokens in order, leaving out ignored tokens and
    /// consumed markers.
    pub fn map_markdown_to_clean(&self) -> (r: ParseResult<String>)
        requires
            runs_fact(self.toks(), self.runs()),
            matches_fact(self.runs().len() as int, self.matches()),
            ranges_fit(self.runs(), self.matches()),
        ensures
            r matches Ok(text) && text@ == clean_text(
                self.toks(),
                self.ignored(),
                delimiter_ranges(self.runs(), self.matches()),
                self.toks().len() as int,
            ),
    {
        let delimiter_byte_ranges = self.get_delimiter_byte_ranges();
        let ghost ranges = range_views(delimiter_byte_ranges@);
        let tokens = self.base.tokens();
        let mut clean_text_out = String::new();
        let mut index: usize = 0;
        while index < tokens.len()
            invariant
                index <= tokens@.len(),
                tokens == self.base.raw_tokens(),
                ranges == range_views(delimiter_byte_ranges@),
                clean_text_out@ == clean_text(self.toks(), self.ignored(), ranges, index as int),
            decreases tokens@.len() - index,
        {
            let token = &tokens[index];
            if self.ignored_token(index) {
                index = index + 1;
                continue;
            }
            let byte = token.logical_byte_start();
            let consumed = any_range_contains(&delimiter_byte_ranges, byte);
            if !consumed {
                clean_text_out.append(token.lexeme());
            }
            index = index + 1;
        }
        Ok(clean_text_out)
    }

    /// Whether run `k` is the closer of some match.
    fn is_closer(&self, k: usize) -> (r: bool)
        ensures
            r == is_closer_run(self.matches(), k as int),
    {
        let mut j: usize = 0;
        while j < self.match_vector.len()
            invariant
                j <= self.match_vector@.len(),
                forall|q: int| 0 <= q < j ==> #[trigger] self.matches()[q].closer != k,
            decreases self.match_vector@.len() - j,
        {
            if self.match_vector[j].closer_index == k {
                assert(self.matches()[j as int].closer == k);
                return true;
            }
            j = j + 1;
        }
        false
    }

    /// Total byte length of the ignored tokens before `token_index`, which
    /// is at most `limit`.
    fn ignored_bytes_before(&self, token_index: usize, limit: usize) -> (r: usize)
        requires
            token_index <= self.toks().len(),
            ignored_bytes(self.toks(), self.ignored(), token_index as int) <= limit,
        ensures
            r as int == ignored_bytes(self.toks(), self.ignored(), token_index as int),
    {
        let tokens = self.base.tokens();
        let mut result: usize = 0;
        let mut i: usize = 0;
        proof {
            lemma_ignored_bytes_mono(self.toks(), self.ignored(), 0, token_index as int);
        }
        while i < token_index
            invariant
                i <= token_index <= tokens@.len(),
                tokens == self.base.raw_tokens(),
                result as int == ignored_bytes(self.toks(), self.ignored(), i as int),
                ignored_bytes(self.toks(), self.ignored(), token_index as int) <= limit,
            decreases token_index - i,
        {
            proof {
                lemma_ignored_bytes_mono(self.toks(), self.ignored(), i + 1, token_index as int);
            }
            if self.ignored_token(i) {
                let lx = tokens[i].lexeme();
                let n = str_byte_len(lx);
                proof {
                    lemma_utf8_len_encode(tokens@[i as int]@.lexeme);
                    assert(lx@ == self.toks()[i as int].lexeme);
                    assert(n as int == utf8_len(lx@));
                }
                result = result + n;
            }
            i = i + 1;
        }
        result
    }
}

pub open spec fn range_views(s: Seq<(usize, usize)>) -> Seq<(int, int)> {
    s.map_values(|p: (usize, usize)| (p.0 as int, p.1 as int))
}

proof fn lemma_ignored_bytes_mono(t: Seq<TokenView>, ig: Set<usize>, a: int, b: int)
    requires
        0 <= a <= b <= t.len(),
    ensures
        0 <= ignored_bytes(t, ig, a) <= ignored_bytes(t, ig, b),
    decreases b - a,
{
    if a < b {
        lemma_ignored_bytes_mono(t, ig, a, b - 1);
        if is_ignored(ig, b - 1) {
            crate::chars::lemma_utf8_len_nonneg(t[b - 1].lexeme);
        }
    } else {
        lemma_ignored_bytes_nonneg(t, ig, a);
    }
}

proof fn lemma_ignored_bytes_nonneg(t: Seq<TokenView>, ig: Set<usize>, n: int)
    requires
        n <= t.len(),
    ensures
        0 <= ignored_bytes(t, ig, n),
    decreases n,
{
    if n > 0 {
        lemma_ignored_bytes_nonneg(t, ig, n - 1);
        if is_ignored(ig, n - 1) {
            crate::chars::lemma_utf8_len_nonneg(t[n - 1].lexeme);
        }
    }
}

/// Whether some range `(start, end)` has `start <= b < end`.
fn any_range_contains(ranges: &Vec<(usize, usize)>, b: usize) -> (r: bool)
    ensures
        r == in_some_range(range_views(ranges@), b as int),
{
    let mut k: usize = 0;
    while k < ranges.len()
        invariant
            k <= ranges@.len(),
            forall|q: int| 0 <= q < k ==> !(range_views(ranges@)[q].0 <= b < #[trigger] range_views(ranges@)[q].1),
        decreases ranges@.len() - k,
    {
        let (start, end) = ranges[k];
        if b >= start && b < end {
            assert(range_views(ranges@)[k as int] == (start as int, end as int));
            return true;
        }
        k = k + 1;
    }
    false
}

impl<'a> DelimiterParser<'a> {

    /// Sets each run's position in the text without markers.
    fn calculate_and_set_text_index(&mut self)
        requires
            runs_fact(old(self).toks(), old(self).runs()),
            text_indexes_ok(old(self).toks(), old(self).ignored(), old(self).runs(), old(self).matches()),
        ensures
            final(self).runs() == with_text_indexes(old(self).toks(), old(self).ignored(), old(self).runs(), old(self).matches()),
            final(self).base == old(self).base,
            final(self).ignored_tokens == old(self).ignored_tokens,
            final(self).match_vector == old(self).match_vector,
    {
        let ghost t = self.toks();
        let ghost ig = self.ignored();
        let ghost rs = self.runs();
        let ghost ms = self.matches();
        let tokens = self.base.tokens();
        let mut running_count: usize = if tokens.len() > 0 {
            tokens[0].logical_byte_start()
        } else {
            0
        };
        let len = self.run_vector.len();
        let mut new_runs: Vec<DelimiterRun> = Vec::new();
        let mut index: usize = 0;
        assert(running_count as int == running_at(t, rs, ms, -1));
        assert(run_views(new_runs@) =~= with_text_indexes(t, ig, rs, ms).take(0));
        while index < len
            invariant
                index <= len,
                len == rs.len(),
                rs == self.runs(),
                ms == self.matches(),
                t == self.toks(),
                ig == self.ignored(),
                rs == old(self).runs(),
                ms == old(self).matches(),
                t == old(self).toks(),
                ig == old(self).ignored(),
                self.base == old(self).base,
                self.ignored_tokens == old(self).ignored_tokens,
                self.match_vector == old(self).match_vector,
                self.run_vector == old(self).run_vector,
                tokens == self.base.raw_tokens(),
                runs_fact(t, rs),
                text_indexes_ok(t, ig, rs, ms),
                running_count as int == running_at(t, rs, ms, index - 1),
                run_views(new_runs@) == with_text_indexes(t, ig, rs, ms).take(index as int),
            decreases len - index,
        {
            let run = self.run_vector[index];
            assert(rs[index as int] == run@);
            assert(run_fact(t, run@));
            let add: usize = if self.is_closer(index) {
                run.count as usize
            } else {
                (run.count - run.remaining) as usize
            };
            assert(add as int == consumed(rs, ms, index as int));
            proof {
                lemma_ignored_bytes_nonneg(t, ig, run@.token_index);
                assert(text_index_at(t, ig, rs, ms, index as int) >= 0);
            }
            running_count = running_count + add;
            let room = run.byte_index - running_count;
            let ib = self.ignored_bytes_before(run.token_index, room);
            let text_index = room - ib;
            let new_run = DelimiterRun { text_index, ..run };
            let ghost before = new_runs@;
            new_runs.push(new_run);
            proof {
                assert(text_index as int == text_index_at(t, ig, rs, ms, index as int));
                assert(run_views(new_runs@) =~= run_views(before).push(new_run@));
                assert(with_text_indexes(t, ig, rs, ms)[index as int] == new_run@);
                assert(run_views(new_runs@) =~= with_text_indexes(t, ig, rs, ms).take(index + 1));
            }
            index = index + 1;
        }
        assert(with_text_indexes(t, ig, rs, ms).take(len as int) =~= with_text_indexes(t, ig, rs, ms));
        self.run_vector = new_runs;
    }

    /// Sets the runs' text positions and returns one span per match, from
    /// the opener's to the closer's position, styled by the markers used.
    pub fn produce_spans(&mut self) -> (r: ParseResult<Vec<Span>>)
        requires
            runs_fact(old(self).toks(), old(self).runs()),
            matches_fact(old(self).runs().len() as int, old(self).matches()),
            text_indexes_ok(old(self).toks(), old(self).ignored(), old(self).runs(), old(self).matches()),
        ensures
            final(self).inv() == old(self).inv(),
            final(self).toks() == old(self).toks(),
            final(self).ignored() == old(self).ignored(),
            final(self).matches() == old(self).matches(),
            final(self).runs() == with_text_indexes(old(self).toks(), old(self).ignored(), old(self).runs(), old(self).matches()),
            r matches Ok(v) && span_views(v@) == spans_of(final(self).runs(), final(self).matches()),
    {
        let mut spans: Vec<Span> = Vec::new();
        self.calculate_and_set_text_index();
        let ghost rs = self.runs();
        let ghost ms = self.matches();
        let mut k: usize = 0;
        assert(span_views(spans@) =~= spans_of(rs, ms).take(0));
        while k < self.match_vector.len()
            invariant
                k <= ms.len(),
                ms == self.matches(),
                rs == self.runs(),
                rs.len() == old(self).runs().len(),
                matches_fact(rs.len() as int, ms),
                span_views(spans@) == spans_of(rs, ms).take(k as int),
            decreases ms.len() - k,
        {
            let m = self.match_vector[k];
            assert(ms[k as int] == m@);
            assert(match_fact(rs.len() as int, m@));
            let o = self.run_vector[m.opener_index];
            let c = self.run_vector[m.closer_index];
            assert(rs[m@.opener] == o@);
            assert(rs[m@.closer] == c@);
            let sp = Span::new(o.text_index, c.text_index, m.use_count);
            let ghost before = spans@;
            spans.push(sp);
            assert(spans_of(rs, ms)[k as int] == sp@);
            assert(span_views(spans@) =~= span_views(before).push(sp@));
            assert(span_views(spans@) =~= spans_of(rs, ms).take(k + 1));
            k = k + 1;
        }
        assert(spans_of(rs, ms).take(ms.len() as int) =~= spans_of(rs, ms));
        Ok(spans)
    }

    /// Parses the inline emphasis of the tokens: the text without consumed
    /// markers, and the styled spans of that text. The runs and matches
    /// found are added to those the parser already holds, so a repeated call
    /// works on all of them.
    pub fn parse_inline(&mut self) -> (r: ParseResult<InlineContent>)
        requires
            old(self).inv(),
            runs_fact(old(self).toks(), old(self).runs()),
            matches_fact(old(self).runs().len() as int, old(self).matches()),
            inline_fits_from(old(self).toks(), old(self).ignored(), old(self).runs(), old(self).matches()),
        ensures
            match inline_result_from(old(self).toks(), old(self).ignored(), old(self).runs(), old(self).matches()) {
                Ok(v) => r matches Ok(c) && c@ == v,
                Err(e) => r matches Err(m) && m@ == e,
            },
    {
        let ghost t = self.toks();
        let ghost ig = self.ignored();
        let ghost rs0 = self.runs();
        let ghost ms0 = self.matches();
        self.pre_process()?;
        let ghost rs1 = self.runs();
        proof {
            lemma_runs_from_grows(t, ig, 0, 0, rs0);
            lemma_classify_from_fields(t, rs1, 0);
        }
        self.classify_can_open_close()?;
        proof {
            assert forall|k: int| 0 <= k < ms0.len() implies match_fact(self.runs().len() as int, #[trigger] ms0[k]) by {
                assert(match_fact(rs0.len() as int, ms0[k]));
            }
        }
        self.match_delimiters()?;
        let text = self.map_markdown_to_clean()?;
        let spans = self.produce_spans()?;
        Ok(InlineContent::new(text, spans))
    }

}

impl<'a> DelimiterParser<'a> {
    /// Whether no run of markers grows past 255: [`counts_fit`].
    fn counts_within_limit(&self) -> (r: bool)
        ensures
            r == counts_fit(self.toks(), self.ignored(), 0, 0, 255),
    {
        let ghost t = self.toks();
        let ghost ig = self.ignored();
        let tokens = self.base.tokens();
        let mut i: usize = 0;
        let mut count: usize = 0;
        proof {
            self.base.lemma_toks();
        }
        loop
            invariant
                tokens == self.base.raw_tokens(),
                t == self.toks(),
                ig == self.ignored(),
                t.len() == tokens@.len(),
                i <= tokens@.len(),
                count <= 255,
                counts_fit(t, ig, 0, 0, 255) == counts_fit(t, ig, i as int, count as int, 255),
            decreases tokens@.len() - i,
        {
            if i >= tokens.len() {
                return true;
            }
            let ignored = self.ignored_token(i);
            let ty = tokens[i].token_type();
            proof {
                assert(tokens@[i as int]@ == t[i as int]);
            }
            if !ignored && ty == TokenType::Eof {
                return true;
            }
            let next: usize = if ignored {
                count
            } else if ty == TokenType::Star {
                count + 1
            } else if ends_run_exec(ty) {
                0
            } else {
                count
            };
            assert(next as int == next_count(t, ig, i as int, count as int));
            if next > 255 {
                assert(!counts_fit(t, ig, i + 1, next as int, 255));
                assert(!run_scan_stops(t, ig, i as int));
                return false;
            }
            count = next;
            i = i + 1;
        }
    }

    /// Whether every match's ranges start at or after zero: [`ranges_fit`].
    fn ranges_within(&self) -> (r: bool)
        requires
            matches_fact(self.runs().len() as int, self.matches()),
        ensures
            r == ranges_fit(self.runs(), self.matches()),
    {
        let mut j: usize = 0;
        while j < self.match_vector.len()
            invariant
                j <= self.matches().len(),
                matches_fact(self.runs().len() as int, self.matches()),
                forall|q: int| 0 <= q < j ==> #[trigger] match_ranges_fit(self.runs(), self.matches()[q]),
            decreases self.matches().len() - j,
        {
            let m = self.match_vector[j];
            assert(self.matches()[j as int] == m@);
            assert(match_fact(self.runs().len() as int, m@));
            let o = self.run_vector[m.opener_index];
            let c = self.run_vector[m.closer_index];
            assert(self.runs()[m@.opener] == o@);
            assert(self.runs()[m@.closer] == c@);
            if (o.count as usize) > o.byte_index || (c.count as usize) > c.byte_index {
                assert(!match_ranges_fit(self.runs(), self.matches()[j as int]));
                return false;
            }
            j = j + 1;
        }
        true
    }

    /// The total byte length of the ignored tokens before `token_index`,
    /// when it is at most `limit`; `None` otherwise.
    fn ignored_bytes_within(&self, token_index: usize, limit: usize) -> (r: Option<usize>)
        requires
            token_index <= self.toks().len(),
        ensures
            r is Some <==> ignored_bytes(self.toks(), self.ignored(), token_index as int) <= limit,
            r matches Some(v) ==> v as int == ignored_bytes(self.toks(), self.ignored(), token_index as int),
    {
        let tokens = self.base.tokens();
        let mut result: usize = 0;
        let mut i: usize = 0;
        proof {
            self.base.lemma_toks();
        }
        while i < token_index
            invariant
                i <= token_index <= tokens@.len(),
                tokens == self.base.raw_tokens(),
                result as int == ignored_bytes(self.toks(), self.ignored(), i as int),
                result <= limit,
            decreases token_index - i,
        {
            proof {
                lemma_ignored_bytes_mono(self.toks(), self.ignored(), i + 1, token_index as int);
            }
            if self.ignored_token(i) {
                let lx = tokens[i].lexeme();
                let n = str_byte_len(lx);
                proof {
                    lemma_utf8_len_encode(tokens@[i as int]@.lexeme);
                    assert(lx@ == self.toks()[i as int].lexeme);
                    assert(n as int == utf8_len(lx@));
                }
                if n > limit - result {
                    return None;
                }
                result = result + n;
            }
            i = i + 1;
        }
        Some(result)
    }

    /// Whether no text position would drop below zero: [`text_indexes_ok`].
    fn text_indexes_within(&self) -> (r: bool)
        requires
            runs_fact(self.toks(), self.runs()),
        ensures
            r == text_indexes_ok(self.toks(), self.ignored(), self.runs(), self.matches()),
    {
        let ghost t = self.toks();
        let ghost ig = self.ignored();
        let ghost rs = self.runs();
        let ghost ms = self.matches();
        let tokens = self.base.tokens();
        let mut running: usize = if tokens.len() > 0 {
            tokens[0].logical_byte_start()
        } else {
            0
        };
        proof {
            self.base.lemma_toks();
        }
        assert(running as int == running_at(t, rs, ms, -1));
        let len = self.run_vector.len();
        let mut index: usize = 0;
        while index < len
            invariant
                index <= len,
                len == rs.len(),
                rs == self.runs(),
                ms == self.matches(),
                t == self.toks(),
                ig == self.ignored(),
                runs_fact(t, rs),
                running as int == running_at(t, rs, ms, index - 1),
                forall|q: int| 0 <= q < index ==> text_index_at(t, ig, rs, ms, q) >= 0,
            decreases len - index,
        {
            let run = self.run_vector[index];
            assert(rs[index as int] == run@);
            assert(run_fact(t, run@));
            let add: usize = if self.is_closer(index) {
                run.count as usize
            } else {
                (run.count - run.remaining) as usize
            };
            assert(add as int == consumed(rs, ms, index as int));
            proof {
                lemma_ignored_bytes_nonneg(t, ig, run@.token_index);
            }
            if add > run.byte_index || running > run.byte_index - add {
                assert(text_index_at(t, ig, rs, ms, index as int) < 0);
                return false;
            }
            running = running + add;
            let room = run.byte_index - running;
            match self.ignored_bytes_within(run.token_index, room) {
                None => {
                    assert(text_index_at(t, ig, rs, ms, index as int) < 0);
                    return false;
                },
                Some(_) => {},
            }
            index = index + 1;
        }
        true
    }

    /// Like [`DelimiterParser::parse_inline`] on a fresh parser, but first
    /// tests the parser's limits: `None` exactly when parsing would leave
    /// them ([`inline_fits`] fails).
    pub fn parse_inline_checked(&mut self) -> (r: Option<ParseResult<InlineContent>>)
        requires
            old(self).inv(),
            old(self).runs() == Seq::<RunView>::empty(),
            old(self).matches() == Seq::<MatchView>::empty(),
        ensures
            r is None <==> !inline_fits(old(self).toks(), old(self).ignored()),
            r matches Some(x) ==> match inline_result(old(self).toks(), old(self).ignored()) {
                Ok(v) => x matches Ok(c) && c@ == v,
                Err(e) => x matches Err(m) && m@ == e,
            },
    {
        let ghost t = self.toks();
        let ghost ig = self.ignored();
        if !self.counts_within_limit() {
            return None;
        }
        let ghost rs0 = self.runs();
        assert(runs_fact(t, rs0));
        match self.pre_process() {
            Ok(()) => {},
            Err(e) => {
                return Some(Err(e));
            },
        }
        let ghost rs1 = self.runs();
        proof {
            lemma_runs_from_counts(t, ig, 0, 0, Seq::empty(), 255);
            lemma_classify_from_fields(t, rs1, 0);
        }
        match self.classify_can_open_close() {
            Ok(()) => {},
            Err(e) => {
                return Some(Err(e));
            },
        }
        let ghost rs2 = self.runs();
        let n_runs = self.run_vector.len();
        proof {
            assert(rs2.len() == n_runs);
            assert forall|k: int| 0 <= k < rs2.len() implies #[trigger] rs2[k].remaining >= 1 by {
                assert(run_fact(t, rs1[k]));
            }
            lemma_fresh_no_negative(rs2);
            assert(self.matches() =~= Seq::<MatchView>::empty());
        }
        match self.match_delimiters() {
            Ok(()) => {},
            Err(e) => {
                return Some(Err(e));
            },
        }
        if !self.ranges_within() || !self.text_indexes_within() {
            return None;
        }
        let text = match self.map_markdown_to_clean() {
            Ok(x) => x,
            Err(e) => {
                return Some(Err(e));
            },
        };
        let spans = match self.produce_spans() {
            Ok(x) => x,
            Err(e) => {
                return Some(Err(e));
            },
        };
        Some(Ok(InlineContent::new(text, spans)))
    }
}

/// Matching fresh runs, each with a marker left, never takes a marker that
/// is not there.
proof fn lemma_fresh_no_negative(rs: Seq<RunView>)
    requires
        forall|k: int| 0 <= k < rs.len() ==> #[trigger] rs[k].remaining >= 1,
        rs.len() <= usize::MAX,
    ensures
        no_negative(matched(rs, Seq::empty()).0),
{
    let st0 = MatchState { runs: rs, stack: Seq::empty(), matches: Seq::empty() };
    assert forall|k: int| 0 <= k < rs.len() implies #[trigger] st0.runs[k] == RunView {
        remaining: st0.runs[k].remaining,
        ..rs[k]
    } && st0.runs[k].remaining >= 0 by {}
    lemma_match_from_ok(rs, st0, 0, rs.len() as int);
    let st = match_from(st0, 0, rs.len() as int);
    assert forall|k: int| 0 <= k < st.runs.len() implies #[trigger] st.runs[k].remaining >= 0 by {
        assert(st.runs[k] == RunView { remaining: st.runs[k].remaining, ..rs[k] } && st.runs[k].remaining >= 0);
    }
}

fn match_before_exec(a: &DelimiterMatch, b: &DelimiterMatch) -> (r: bool)
    ensures
        r == match_before(a@, b@),
{
    a.opener_index < b.opener_index || (a.opener_index == b.opener_index && (a.closer_index
        > b.closer_index || (a.closer_index == b.closer_index && a.use_count > b.use_count)))
}

/// The matches sorted stably by opener ascending, closer descending, use
/// count descending.
fn sort_match_vector(v: &Vec<DelimiterMatch>) -> (r: Vec<DelimiterMatch>)
    ensures
        match_views(r@) == sort_matches(match_views(v@)),
{
    let mut out: Vec<DelimiterMatch> = Vec::new();
    let mut k: usize = 0;
    assert(match_views(v@).take(0) =~= Seq::<MatchView>::empty());
    assert(match_views(out@) =~= Seq::<MatchView>::empty());
    while k < v.len()
        invariant
            k <= v.len(),
            match_views(out@) == sort_matches(match_views(v@).take(k as int)),
            out@.len() <= k,
        decreases v.len() - k,
    {
        let x = v[k];
        let mut p: usize = 0;
        while p < out.len() && !match_before_exec(&x, &out[p])
            invariant
                p <= out@.len(),
                forall|q: int| 0 <= q < p ==> !match_before(x@, #[trigger] match_views(out@)[q]),
            decreases out@.len() - p,
        {
            p = p + 1;
        }
        let ghost s = match_views(out@);
        proof {
            lemma_insert_match(s, x@, p as int);
            let vk = match_views(v@).take(k + 1);
            assert(vk.drop_last() =~= match_views(v@).take(k as int));
            assert(vk.last() == x@);
        }
        out.insert(p, x);
        assert(match_views(out@) =~= s.take(p as int) + seq![x@] + s.skip(p as int));
        k = k + 1;
    }
    assert(match_views(v@).take(v@.len() as int) =~= match_views(v@));
    out
}

fn ends_run_exec(ty: TokenType) -> (r: bool)
    ensures
        r == ends_run(ty),
{
    match ty {
        TokenType::Whitespace | TokenType::Hash | TokenType::Dash | TokenType::Bang
        | TokenType::EscapedChar | TokenType::Text | TokenType::Newline | TokenType::LBracket
        | TokenType::RBracket | TokenType::LParen | TokenType::RParen => true,
        _ => false,
    }
}

} // verus!
