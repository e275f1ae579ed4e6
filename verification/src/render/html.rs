//! HTML for the parsed blocks.

use vstd::prelude::*;

use crate::ast::{Span, SpanStyle, SpanView, span_views};
use crate::chars::{
    byte_slice, char_index, chars_of, copy_until, decimal, is_char_boundary, is_whitespace, push_char,
    str_byte_len, unicode_whitespace, usize_to_decimal, utf8_len, lemma_char_index,
    lemma_utf8_len_nonneg, lemma_prefix_bytes_increase,
};

verus! {

broadcast use {vstd::seq::group_seq_axioms, vstd::seq_lib::group_to_multiset_ensures};

/// An opening or closing tag at a byte position of the text.
pub struct EventView {
    pub index: int,
    pub start: bool,
    pub style: SpanStyle,
    pub span_len: int,
}

/// The tags of the spans, in order: each span's opening tag, then its
/// closing tag.
pub open spec fn span_events(spans: Seq<SpanView>) -> Seq<EventView>
    decreases spans.len(),
{
    if spans.len() == 0 {
        Seq::empty()
    } else {
        let sp = spans.last();
        span_events(spans.drop_last()) + seq![
            EventView { index: sp.start, start: true, style: sp.style, span_len: sp.end - sp.start },
            EventView { index: sp.end, start: false, style: sp.style, span_len: sp.end - sp.start },
        ]
    }
}

/// Among opening tags at one position and of one length, italic opens first.
pub open spec fn priority_start(style: SpanStyle) -> int {
    match style {
        SpanStyle::Italic => 0,
        SpanStyle::Bold => 1,
        SpanStyle::Normal => 2,
    }
}

/// Among closing tags at one position and of one length, bold closes first.
pub open spec fn priority_end(style: SpanStyle) -> int {
    match style {
        SpanStyle::Bold => 0,
        SpanStyle::Italic => 1,
        SpanStyle::Normal => 2,
    }
}

/// Tag `a` may come before tag `b`: by position; at one position closing
/// tags first; opening tags of longer spans first; closing tags of shorter
/// spans first; then by style.
pub open spec fn event_le(a: EventView, b: EventView) -> bool {
    if a.index != b.index {
        a.index < b.index
    } else if a.start != b.start {
        !a.start
    } else if a.start {
        a.span_len > b.span_len || (a.span_len == b.span_len && priority_start(a.style)
            <= priority_start(b.style))
    } else {
        a.span_len < b.span_len || (a.span_len == b.span_len && priority_end(a.style) <= priority_end(
            b.style,
        ))
    }
}

/// Inserts `e` into `s` after every element that may come before it.
pub open spec fn insert_event(e: EventView, s: Seq<EventView>) -> Seq<EventView>
    decreases s.len(),
{
    if s.len() == 0 {
        seq![e]
    } else if event_le(s.last(), e) {
        s.push(e)
    } else {
        insert_event(e, s.drop_last()).push(s.last())
    }
}

/// The tags in the order in which they are written.
pub open spec fn sort_events(s: Seq<EventView>) -> Seq<EventView>
    decreases s.len(),
{
    if s.len() == 0 {
        s
    } else {
        insert_event(s.last(), sort_events(s.drop_last()))
    }
}

/// The HTML of one tag.
pub open spec fn tag(e: EventView) -> Seq<char> {
    match e.style {
        SpanStyle::Bold => if e.start {
            "<strong>"@
        } else {
            "</strong>"@
        },
        SpanStyle::Italic => if e.start {
            "<em>"@
        } else {
            "</em>"@
        },
        SpanStyle::Normal => Seq::empty(),
    }
}

/// The text from byte `cur` on, with the tags `evs` written in.
pub open spec fn render_from(s: Seq<char>, evs: Seq<EventView>, cur: int) -> Seq<char>
    decreases evs.len(),
{
    if evs.len() == 0 {
        if cur < utf8_len(s) {
            byte_slice(s, cur, utf8_len(s))
        } else {
            Seq::empty()
        }
    } else {
        let e = evs[0];
        if e.index > cur {
            byte_slice(s, cur, e.index) + tag(e) + render_from(s, evs.drop_first(), e.index)
        } else {
            tag(e) + render_from(s, evs.drop_first(), cur)
        }
    }
}

/// The HTML of a text with its emphasis spans.
pub open spec fn spans_html(s: Seq<char>, spans: Seq<SpanView>) -> Seq<char> {
    render_from(s, sort_events(span_events(spans)), 0)
}

/// Spans that the renderer accepts: each within the text and on character
/// boundaries, with its start before its end; and no span without style
/// that shares both ends with another span (their order would be left
/// open).
pub open spec fn spans_fit(s: Seq<char>, spans: Seq<SpanView>) -> bool {
    &&& forall|i: int|
        0 <= i < spans.len() ==> 0 <= #[trigger] spans[i].start <= spans[i].end <= utf8_len(s)
    &&& forall|i: int|
        0 <= i < spans.len() ==> is_char_boundary(s, #[trigger] spans[i].start) && is_char_boundary(
            s,
            spans[i].end,
        )
    &&& forall|i: int, j: int|
        0 <= i < spans.len() && 0 <= j < spans.len() && i != j && #[trigger] spans[i].start
            == #[trigger] spans[j].start && spans[i].end == spans[j].end ==> spans[i].style
            != SpanStyle::Normal
}

/// Every tag of `evs` lies within the text, on a character boundary.
pub open spec fn events_fit(s: Seq<char>, evs: Seq<EventView>) -> bool {
    forall|k: int|
        0 <= k < evs.len() ==> 0 <= #[trigger] evs[k].index <= utf8_len(s) && is_char_boundary(
            s,
            evs[k].index,
        )
}

proof fn lemma_span_events(spans: Seq<SpanView>, s: Seq<char>)
    requires
        spans_fit(s, spans),
    ensures
        events_fit(s, span_events(spans)),
        span_events(spans).len() == 2 * spans.len(),
    decreases spans.len(),
{
    if spans.len() > 0 {
        let init = spans.drop_last();
        assert forall|i: int| 0 <= i < init.len() implies 0 <= #[trigger] init[i].start <= init[i].end <= utf8_len(s) by {
            assert(init[i] == spans[i]);
        }
        assert forall|i: int| 0 <= i < init.len() implies is_char_boundary(s, #[trigger] init[i].start)
            && is_char_boundary(s, init[i].end) by {
            assert(init[i] == spans[i]);
        }
        assert forall|i: int, j: int|
            0 <= i < init.len() && 0 <= j < init.len() && i != j && #[trigger] init[i].start
                == #[trigger] init[j].start && init[i].end == init[j].end implies init[i].style
            != SpanStyle::Normal by {
            assert(init[i] == spans[i]);
            assert(init[j] == spans[j]);
        }
        lemma_span_events(init, s);
        let n = spans.len() - 1;
        assert(0 <= spans[n].start <= spans[n].end <= utf8_len(s));
        assert(is_char_boundary(s, spans[n].start) && is_char_boundary(s, spans[n].end));
        assert(spans.last() == spans[n]);
        let evs = span_events(spans);
        assert forall|k: int| 0 <= k < evs.len() implies 0 <= #[trigger] evs[k].index <= utf8_len(s)
            && is_char_boundary(s, evs[k].index) by {
            if k < span_events(init).len() {
                assert(evs[k] == span_events(init)[k]);
            }
        }
    }
}

/// Sorting keeps every tag, as many times as it occurs.
pub proof fn lemma_insert_event_multiset(e: EventView, s: Seq<EventView>)
    ensures
        insert_event(e, s).to_multiset() =~= s.to_multiset().insert(e),
        insert_event(e, s).len() == s.len() + 1,
    decreases s.len(),
{
    broadcast use vstd::multiset::group_multiset_axioms, vstd::seq_lib::to_multiset_build;

    if s.len() == 0 {
        assert(seq![e] =~= s.push(e));
    } else if event_le(s.last(), e) {
    } else {
        let init = s.drop_last();
        lemma_insert_event_multiset(e, init);
        assert(init.push(s.last()) =~= s);
    }
}

/// Sorting the tags keeps every tag, as many times as it occurs.
pub proof fn lemma_sort_events_multiset(s: Seq<EventView>)
    ensures
        sort_events(s).to_multiset() =~= s.to_multiset(),
        sort_events(s).len() == s.len(),
    decreases s.len(),
{
    broadcast use vstd::multiset::group_multiset_axioms, vstd::seq_lib::to_multiset_build;

    if s.len() > 0 {
        let init = s.drop_last();
        lemma_sort_events_multiset(init);
        lemma_insert_event_multiset(s.last(), sort_events(init));
        assert(init.push(s.last()) =~= s);
    }
}

/// `event_le` orders every pair of tags.
proof fn lemma_event_le_total(a: EventView, b: EventView)
    ensures
        event_le(a, b) || event_le(b, a),
{
}

/// `event_le` is transitive.
proof fn lemma_event_le_transitive(a: EventView, b: EventView, c: EventView)
    requires
        event_le(a, b),
        event_le(b, c),
    ensures
        event_le(a, c),
{
}

/// Each tag may come before every later one.
pub open spec fn events_sorted(s: Seq<EventView>) -> bool {
    forall|i: int, j: int| 0 <= i < j < s.len() ==> event_le(#[trigger] s[i], #[trigger] s[j])
}

proof fn lemma_insert_event_sorted(e: EventView, s: Seq<EventView>)
    requires
        events_sorted(s),
    ensures
        events_sorted(insert_event(e, s)),
        forall|x: EventView| #[trigger] insert_event(e, s).contains(x) ==> x == e || s.contains(x),
    decreases s.len(),
{
    let r = insert_event(e, s);
    if s.len() == 0 {
    } else if event_le(s.last(), e) {
        assert forall|i: int, j: int| 0 <= i < j < r.len() implies event_le(#[trigger] r[i], #[trigger] r[j]) by {
            if j == s.len() {
                lemma_event_le_transitive(s[i], s.last(), e);
            }
        }
        assert forall|x: EventView| #[trigger] r.contains(x) implies x == e || s.contains(x) by {
            let k = choose|k: int| 0 <= k < r.len() && r[k] == x;
            if k < s.len() {
                assert(s[k] == x);
            }
        }
    } else {
        let init = s.drop_last();
        assert forall|i: int, j: int| 0 <= i < j < init.len() implies event_le(#[trigger] init[i], #[trigger] init[j]) by {
            assert(init[i] == s[i] && init[j] == s[j]);
        }
        lemma_insert_event_sorted(e, init);
        let r0 = insert_event(e, init);
        lemma_event_le_total(s.last(), e);
        assert forall|i: int, j: int| 0 <= i < j < r.len() implies event_le(#[trigger] r[i], #[trigger] r[j]) by {
            if j == r.len() - 1 {
                assert(r[j] == s.last());
                assert(r0.contains(r0[i]));
                if r0[i] == e {
                } else {
                    let k = choose|k: int| 0 <= k < init.len() && init[k] == r0[i];
                    assert(s[k] == init[k]);
                }
            } else {
                assert(r[i] == r0[i] && r[j] == r0[j]);
            }
        }
        assert forall|x: EventView| #[trigger] r.contains(x) implies x == e || s.contains(x) by {
            let k = choose|k: int| 0 <= k < r.len() && r[k] == x;
            if k == r.len() - 1 {
                assert(s[s.len() - 1] == x);
            } else {
                assert(r0[k] == x);
                assert(r0.contains(x));
                if x != e {
                    let m = choose|m: int| 0 <= m < init.len() && init[m] == x;
                    assert(s[m] == x);
                }
            }
        }
    }
}

/// The tags come out sorted.
pub proof fn lemma_sort_events_sorted(s: Seq<EventView>)
    ensures
        events_sorted(sort_events(s)),
    decreases s.len(),
{
    if s.len() > 0 {
        lemma_sort_events_sorted(s.drop_last());
        lemma_insert_event_sorted(s.last(), sort_events(s.drop_last()));
    }
}

/// A text without spans is written as it is.
pub proof fn lemma_no_spans_is_plain_text(s: Seq<char>)
    ensures
        spans_html(s, Seq::empty()) == s,
{
    let e = span_events(Seq::<SpanView>::empty());
    assert(e =~= Seq::<EventView>::empty());
    assert(sort_events(e) =~= Seq::<EventView>::empty());
    assert(s.take(0) =~= Seq::<char>::empty());
    assert(utf8_len(s.take(0)) == 0);
    lemma_char_index(s, 0);
    lemma_char_index(s, s.len() as int);
    assert(s.take(s.len() as int) =~= s);
    assert(s.subrange(0, s.len() as int) =~= s);
    lemma_utf8_len_nonneg(s);
    if utf8_len(s) == 0 {
        assert(s =~= Seq::<char>::empty());
    }
}

/// What [`render_from`] writes with the tags left out: the text pieces only.
pub open spec fn untagged_from(s: Seq<char>, evs: Seq<EventView>, cur: int) -> Seq<char>
    decreases evs.len(),
{
    if evs.len() == 0 {
        if cur < utf8_len(s) {
            byte_slice(s, cur, utf8_len(s))
        } else {
            Seq::empty()
        }
    } else {
        let e = evs[0];
        if e.index > cur {
            byte_slice(s, cur, e.index) + untagged_from(s, evs.drop_first(), e.index)
        } else {
            untagged_from(s, evs.drop_first(), cur)
        }
    }
}

/// Character boundaries in order have character indexes in order.
proof fn lemma_char_index_mono(s: Seq<char>, a: int, b: int)
    requires
        is_char_boundary(s, a),
        is_char_boundary(s, b),
        a <= b,
    ensures
        0 <= char_index(s, a) <= char_index(s, b) <= s.len(),
        utf8_len(s.take(char_index(s, a))) == a,
{
    let ka = char_index(s, a);
    let kb = char_index(s, b);
    if ka > kb {
        lemma_prefix_bytes_increase(s, kb, ka);
    }
}

proof fn lemma_untagged_from(s: Seq<char>, evs: Seq<EventView>, cur: int)
    requires
        0 <= cur <= utf8_len(s),
        is_char_boundary(s, cur),
        events_fit(s, evs),
        forall|k: int| 0 <= k < evs.len() ==> cur <= #[trigger] evs[k].index,
        forall|i: int, j: int| 0 <= i < j < evs.len() ==> #[trigger] evs[i].index <= #[trigger] evs[j].index,
    ensures
        untagged_from(s, evs, cur) == byte_slice(s, cur, utf8_len(s)),
    decreases evs.len(),
{
    let n = utf8_len(s);
    lemma_char_index(s, s.len() as int);
    assert(s.take(s.len() as int) =~= s);
    lemma_char_index_mono(s, cur, n);
    if evs.len() > 0 {
        let e = evs[0];
        let r = evs.drop_first();
        assert forall|k: int| 0 <= k < r.len() implies 0 <= #[trigger] r[k].index <= utf8_len(s) && is_char_boundary(s, r[k].index) by {
            assert(r[k] == evs[k + 1]);
        }
        assert forall|i: int, j: int| 0 <= i < j < r.len() implies #[trigger] r[i].index <= #[trigger] r[j].index by {
            assert(r[i] == evs[i + 1] && r[j] == evs[j + 1]);
        }
        assert(0 <= evs[0].index <= utf8_len(s) && is_char_boundary(s, evs[0].index));
        if e.index > cur {
            assert forall|k: int| 0 <= k < r.len() implies e.index <= #[trigger] r[k].index by {
                assert(r[k] == evs[k + 1]);
            }
            lemma_untagged_from(s, r, e.index);
            lemma_char_index_mono(s, cur, e.index);
            lemma_char_index_mono(s, e.index, n);
            assert(byte_slice(s, cur, e.index) + byte_slice(s, e.index, n) =~= byte_slice(s, cur, n));
        } else {
            assert forall|k: int| 0 <= k < r.len() implies cur <= #[trigger] r[k].index by {
                assert(r[k] == evs[k + 1]);
            }
            lemma_untagged_from(s, r, cur);
        }
    } else {
        if cur >= n {
            assert(byte_slice(s, cur, n) =~= Seq::<char>::empty());
        }
    }
}

/// The HTML of a text with spans holds one opening and one closing tag for
/// each span, and leaving the tags out gives the text back.
pub proof fn lemma_tags_removed_give_text(s: Seq<char>, spans: Seq<SpanView>)
    requires
        spans_fit(s, spans),
    ensures
        span_events(spans).len() == 2 * spans.len(),
        sort_events(span_events(spans)).to_multiset() == span_events(spans).to_multiset(),
        untagged_from(s, sort_events(span_events(spans)), 0) == s,
{
    let evs = span_events(spans);
    lemma_span_events(spans, s);
    lemma_sort_events_multiset(evs);
    lemma_sort_events_sorted(evs);
    let srt = sort_events(evs);
    assert forall|k: int| 0 <= k < srt.len() implies 0 <= #[trigger] srt[k].index <= utf8_len(s) && is_char_boundary(s, srt[k].index) by {
        assert(srt.to_multiset().count(srt[k]) > 0);
        assert(evs.contains(srt[k]));
        let m = choose|m: int| 0 <= m < evs.len() && evs[m] == srt[k];
    }
    assert forall|i: int, j: int| 0 <= i < j < srt.len() implies #[trigger] srt[i].index <= #[trigger] srt[j].index by {
        assert(event_le(srt[i], srt[j]));
    }
    lemma_char_index(s, 0);
    assert(s.take(0) =~= Seq::<char>::empty());
    assert(utf8_len(Seq::<char>::empty()) == 0);
    lemma_utf8_len_nonneg(s);
    lemma_untagged_from(s, srt, 0);
    lemma_char_index(s, s.len() as int);
    assert(s.take(s.len() as int) =~= s);
    assert(byte_slice(s, 0, utf8_len(s)) =~= s);
}

/// `p` stands in `h` at index `k`.
pub open spec fn occurs_at(h: Seq<char>, k: int, p: Seq<char>) -> bool {
    0 <= k && k + p.len() <= h.len() && h.subrange(k, k + p.len()) == p
}

/// The length of the tag that starts at index `k` of `h`, or 0 if none.
pub open spec fn tag_len_at(h: Seq<char>, k: int) -> int {
    if occurs_at(h, k, "<strong>"@) {
        "<strong>"@.len() as int
    } else if occurs_at(h, k, "</strong>"@) {
        "</strong>"@.len() as int
    } else if occurs_at(h, k, "<em>"@) {
        "<em>"@.len() as int
    } else if occurs_at(h, k, "</em>"@) {
        "</em>"@.len() as int
    } else {
        0
    }
}

/// No tag stands anywhere in `h`.
pub open spec fn tag_free(h: Seq<char>) -> bool {
    forall|k: int| 0 <= k < h.len() ==> #[trigger] tag_len_at(h, k) == 0
}

/// `h` from index `k` on with every `<strong>`, `</strong>`, `<em>` and
/// `</em>` removed, reading left to right.
pub open spec fn remove_tags_from(h: Seq<char>, k: int) -> Seq<char>
    decreases h.len() - k,
{
    if k < 0 || k >= h.len() {
        Seq::empty()
    } else if tag_len_at(h, k) > 0 {
        remove_tags_from(h, k + tag_len_at(h, k))
    } else {
        seq![h[k]] + remove_tags_from(h, k + 1)
    }
}

pub open spec fn remove_tags(h: Seq<char>) -> Seq<char> {
    remove_tags_from(h, 0)
}

/// A tag: `<` first, and no other `<`.
pub open spec fn tag_shaped(p: Seq<char>) -> bool {
    &&& p.len() > 0
    &&& p[0] == '<'
    &&& forall|q: int| 1 <= q < p.len() ==> #[trigger] p[q] != '<'
}

proof fn lemma_tag_literals()
    ensures
        "<strong>"@ == seq!['<', 's', 't', 'r', 'o', 'n', 'g', '>'],
        "</strong>"@ == seq!['<', '/', 's', 't', 'r', 'o', 'n', 'g', '>'],
        "<em>"@ == seq!['<', 'e', 'm', '>'],
        "</em>"@ == seq!['<', '/', 'e', 'm', '>'],
        tag_shaped("<strong>"@),
        tag_shaped("</strong>"@),
        tag_shaped("<em>"@),
        tag_shaped("</em>"@),
{
    reveal_strlit("<strong>");
    reveal_strlit("</strong>");
    reveal_strlit("<em>");
    reveal_strlit("</em>");
    let a = "<strong>"@;
    assert forall|q: int| 1 <= q < a.len() implies #[trigger] a[q] != '<' by {
        assert(q == 1 || q == 2 || q == 3 || q == 4 || q == 5 || q == 6 || q == 7);
    }
    let b = "</strong>"@;
    assert forall|q: int| 1 <= q < b.len() implies #[trigger] b[q] != '<' by {
        assert(q == 1 || q == 2 || q == 3 || q == 4 || q == 5 || q == 6 || q == 7 || q == 8);
    }
    let c = "<em>"@;
    assert forall|q: int| 1 <= q < c.len() implies #[trigger] c[q] != '<' by {
        assert(q == 1 || q == 2 || q == 3);
    }
    let d = "</em>"@;
    assert forall|q: int| 1 <= q < d.len() implies #[trigger] d[q] != '<' by {
        assert(q == 1 || q == 2 || q == 3 || q == 4);
    }
}

/// A tag that does not stand within `x` does not stand at `k` in `x + y`
/// either, when `y` starts with `<`: it would have to reach into `y`, whose
/// first `<` no tag holds past its start.
proof fn lemma_no_straddle(x: Seq<char>, y: Seq<char>, k: int, p: Seq<char>)
    requires
        tag_shaped(p),
        y.len() == 0 || y[0] == '<',
        0 <= k < x.len(),
        !occurs_at(x, k, p),
    ensures
        !occurs_at(x + y, k, p),
{
    let h = x + y;
    if occurs_at(h, k, p) {
        if k + p.len() <= x.len() {
            assert(h.subrange(k, k + p.len()) =~= x.subrange(k, k + p.len()));
        } else {
            let q = x.len() - k;
            assert(h.subrange(k, k + p.len())[q] == h[x.len() as int]);
            assert(p[q] != '<');
        }
    }
}

/// Text after a prefix `x` is read as it would be on its own.
proof fn lemma_remove_tags_shift(x: Seq<char>, y: Seq<char>, j: int)
    requires
        0 <= j <= y.len(),
    ensures
        remove_tags_from(x + y, x.len() + j) == remove_tags_from(y, j),
    decreases y.len() - j,
{
    let h = x + y;
    let k = x.len() + j;
    if j < y.len() {
        lemma_tag_literals();
        assert forall|p: Seq<char>| #[trigger] occurs_at(h, k, p) == occurs_at(y, j, p) by {
            if k + p.len() <= h.len() {
                assert(h.subrange(k, k + p.len()) =~= y.subrange(j, j + p.len()));
            }
        }
        assert(tag_len_at(h, k) == tag_len_at(y, j));
        assert(h[k] == y[j]);
        if tag_len_at(y, j) > 0 {
            if j + tag_len_at(y, j) <= y.len() {
                lemma_remove_tags_shift(x, y, j + tag_len_at(y, j));
            }
        } else {
            lemma_remove_tags_shift(x, y, j + 1);
        }
    }
}

/// A tag-free piece followed by nothing or by a tag is copied as it is.
proof fn lemma_remove_tags_copy(x: Seq<char>, y: Seq<char>, k: int)
    requires
        tag_free(x),
        y.len() == 0 || y[0] == '<',
        0 <= k <= x.len(),
    ensures
        remove_tags_from(x + y, k) == x.subrange(k, x.len() as int) + remove_tags(y),
    decreases x.len() - k,
{
    let h = x + y;
    if k < x.len() {
        lemma_tag_literals();
        assert(tag_len_at(x, k) == 0);
        assert(!occurs_at(x, k, "<strong>"@) && !occurs_at(x, k, "</strong>"@) && !occurs_at(x, k, "<em>"@)
            && !occurs_at(x, k, "</em>"@));
        lemma_no_straddle(x, y, k, "<strong>"@);
        lemma_no_straddle(x, y, k, "</strong>"@);
        lemma_no_straddle(x, y, k, "<em>"@);
        lemma_no_straddle(x, y, k, "</em>"@);
        assert(tag_len_at(h, k) == 0);
        assert(h[k] == x[k]);
        lemma_remove_tags_copy(x, y, k + 1);
        assert(x.subrange(k, x.len() as int) =~= seq![x[k]] + x.subrange(k + 1, x.len() as int));
    } else {
        lemma_remove_tags_shift(x, y, 0);
        assert(x.subrange(k, x.len() as int) =~= Seq::<char>::empty());
    }
}

/// A tag at the front is removed whole.
proof fn lemma_remove_tags_tag(e: EventView, y: Seq<char>)
    requires
        e.style != SpanStyle::Normal,
    ensures
        remove_tags(tag(e) + y) == remove_tags(y),
        (tag(e) + y)[0] == '<',
{
    lemma_tag_literals();
    let x = tag(e);
    let h = x + y;
    assert(x.len() > 0 && x[0] == '<');
    assert(h.subrange(0, x.len() as int) =~= x);
    assert(tag_len_at(h, 0) == x.len());
    lemma_remove_tags_shift(x, y, 0);
}

/// A piece of a tag-free text is tag free.
proof fn lemma_tag_free_subrange(s: Seq<char>, a: int, b: int)
    requires
        tag_free(s),
        0 <= a <= b <= s.len(),
    ensures
        tag_free(s.subrange(a, b)),
{
    let x = s.subrange(a, b);
    lemma_tag_literals();
    assert forall|k: int| 0 <= k < x.len() implies #[trigger] tag_len_at(x, k) == 0 by {
        assert(tag_len_at(s, a + k) == 0);
        assert forall|p: Seq<char>| #[trigger] occurs_at(x, k, p) implies occurs_at(s, a + k, p) by {
            assert(x.subrange(k, k + p.len()) =~= s.subrange(a + k, a + k + p.len()));
        }
        assert(!occurs_at(x, k, "<strong>"@));
        assert(!occurs_at(x, k, "</strong>"@));
        assert(!occurs_at(x, k, "<em>"@));
        assert(!occurs_at(x, k, "</em>"@));
    }
}

proof fn lemma_remove_tags_render(s: Seq<char>, evs: Seq<EventView>, cur: int)
    requires
        tag_free(s),
        0 <= cur,
        is_char_boundary(s, cur),
        events_fit(s, evs),
        forall|k: int| 0 <= k < evs.len() ==> (#[trigger] evs[k]).style != SpanStyle::Normal,
    ensures
        remove_tags(render_from(s, evs, cur)) == untagged_from(s, evs, cur),
    decreases evs.len(),
{
    let n = utf8_len(s);
    lemma_char_index(s, s.len() as int);
    assert(s.take(s.len() as int) =~= s);
    if evs.len() == 0 {
        if cur < n {
            lemma_char_index_mono(s, cur, n);
            let x = byte_slice(s, cur, n);
            lemma_tag_free_subrange(s, char_index(s, cur), char_index(s, n));
            lemma_remove_tags_copy(x, Seq::empty(), 0);
            assert(x + Seq::<char>::empty() =~= x);
            assert(x.subrange(0, x.len() as int) =~= x);
            assert(remove_tags(Seq::<char>::empty()) =~= Seq::<char>::empty());
        } else {
            assert(remove_tags(Seq::<char>::empty()) =~= Seq::<char>::empty());
        }
    } else {
        let e = evs[0];
        let r = evs.drop_first();
        assert forall|k: int| 0 <= k < r.len() implies 0 <= #[trigger] r[k].index <= utf8_len(s) && is_char_boundary(s, r[k].index) by {
            assert(r[k] == evs[k + 1]);
        }
        assert forall|k: int| 0 <= k < r.len() implies (#[trigger] r[k]).style != SpanStyle::Normal by {
            assert(r[k] == evs[k + 1]);
        }
        assert(0 <= evs[0].index <= utf8_len(s) && is_char_boundary(s, evs[0].index));
        assert(e.style != SpanStyle::Normal);
        if e.index > cur {
            lemma_remove_tags_render(s, r, e.index);
            let rest = render_from(s, r, e.index);
            lemma_remove_tags_tag(e, rest);
            lemma_char_index_mono(s, cur, e.index);
            let x = byte_slice(s, cur, e.index);
            lemma_tag_free_subrange(s, char_index(s, cur), char_index(s, e.index));
            lemma_remove_tags_copy(x, tag(e) + rest, 0);
            assert(x + tag(e) + rest =~= x + (tag(e) + rest));
            assert(x.subrange(0, x.len() as int) =~= x);
        } else {
            lemma_remove_tags_render(s, r, cur);
            lemma_remove_tags_tag(e, render_from(s, r, cur));
        }
    }
}

/// Removing every `<strong>`, `</strong>`, `<em>` and `</em>` from the HTML
/// of a text with bold and italic spans gives the text back, when the text
/// holds none of these tags itself.
pub proof fn lemma_remove_tags_gives_text(s: Seq<char>, spans: Seq<SpanView>)
    requires
        spans_fit(s, spans),
        forall|i: int| 0 <= i < spans.len() ==> (#[trigger] spans[i]).style != SpanStyle::Normal,
        tag_free(s),
    ensures
        remove_tags(spans_html(s, spans)) == s,
{
    let evs = span_events(spans);
    lemma_span_events(spans, s);
    lemma_span_events_styles(spans);
    lemma_sort_events_multiset(evs);
    let srt = sort_events(evs);
    assert forall|k: int| 0 <= k < srt.len() implies 0 <= #[trigger] srt[k].index <= utf8_len(s) && is_char_boundary(s, srt[k].index)
        && srt[k].style != SpanStyle::Normal by {
        assert(srt.to_multiset().count(srt[k]) > 0);
        assert(evs.contains(srt[k]));
        let m = choose|m: int| 0 <= m < evs.len() && evs[m] == srt[k];
    }
    assert forall|k: int| 0 <= k < srt.len() implies (#[trigger] srt[k]).style != SpanStyle::Normal by {
        assert(srt.to_multiset().count(srt[k]) > 0);
        assert(evs.contains(srt[k]));
        let m = choose|m: int| 0 <= m < evs.len() && evs[m] == srt[k];
    }
    lemma_char_index(s, 0);
    assert(s.take(0) =~= Seq::<char>::empty());
    lemma_remove_tags_render(s, srt, 0);
    lemma_tags_removed_give_text(s, spans);
}

/// The tag that starts at index `k` of `h`, as whether it opens and its
/// style: `<strong>` and `</strong>` for bold, `<em>` and `</em>` for
/// italic.
pub open spec fn tag_at(h: Seq<char>, k: int) -> (bool, SpanStyle) {
    if occurs_at(h, k, "<strong>"@) {
        (true, SpanStyle::Bold)
    } else if occurs_at(h, k, "</strong>"@) {
        (false, SpanStyle::Bold)
    } else if occurs_at(h, k, "<em>"@) {
        (true, SpanStyle::Italic)
    } else {
        (false, SpanStyle::Italic)
    }
}

/// The tags of `h` from index `k` on, read left to right.
pub open spec fn tags_from(h: Seq<char>, k: int) -> Seq<(bool, SpanStyle)>
    decreases h.len() - k,
{
    if k < 0 || k >= h.len() {
        Seq::empty()
    } else if tag_len_at(h, k) > 0 {
        seq![tag_at(h, k)] + tags_from(h, k + tag_len_at(h, k))
    } else {
        tags_from(h, k + 1)
    }
}

/// Text after a prefix `x` is read for tags as it would be on its own.
proof fn lemma_tags_shift(x: Seq<char>, y: Seq<char>, j: int)
    requires
        0 <= j <= y.len(),
    ensures
        tags_from(x + y, x.len() + j) == tags_from(y, j),
    decreases y.len() - j,
{
    let h = x + y;
    let k = x.len() + j;
    if j < y.len() {
        lemma_tag_literals();
        assert forall|p: Seq<char>| #[trigger] occurs_at(h, k, p) == occurs_at(y, j, p) by {
            if k + p.len() <= h.len() {
                assert(h.subrange(k, k + p.len()) =~= y.subrange(j, j + p.len()));
            }
        }
        assert(tag_len_at(h, k) == tag_len_at(y, j));
        assert(tag_at(h, k) == tag_at(y, j));
        if tag_len_at(y, j) > 0 {
            if j + tag_len_at(y, j) <= y.len() {
                lemma_tags_shift(x, y, j + tag_len_at(y, j));
            }
        } else {
            lemma_tags_shift(x, y, j + 1);
        }
    }
}

/// A tag-free piece followed by nothing or by a tag adds no tag.
proof fn lemma_tags_copy(x: Seq<char>, y: Seq<char>, k: int)
    requires
        tag_free(x),
        y.len() == 0 || y[0] == '<',
        0 <= k <= x.len(),
    ensures
        tags_from(x + y, k) == tags_from(y, 0),
    decreases x.len() - k,
{
    let h = x + y;
    if k < x.len() {
        lemma_tag_literals();
        assert(tag_len_at(x, k) == 0);
        assert(!occurs_at(x, k, "<strong>"@) && !occurs_at(x, k, "</strong>"@) && !occurs_at(x, k, "<em>"@)
            && !occurs_at(x, k, "</em>"@));
        lemma_no_straddle(x, y, k, "<strong>"@);
        lemma_no_straddle(x, y, k, "</strong>"@);
        lemma_no_straddle(x, y, k, "<em>"@);
        lemma_no_straddle(x, y, k, "</em>"@);
        assert(tag_len_at(h, k) == 0);
        lemma_tags_copy(x, y, k + 1);
    } else {
        lemma_tags_shift(x, y, 0);
    }
}

/// A tag at the front is read as its event's kind and style.
proof fn lemma_tags_front(e: EventView, y: Seq<char>)
    requires
        e.style != SpanStyle::Normal,
    ensures
        tags_from(tag(e) + y, 0) == seq![(e.start, e.style)] + tags_from(y, 0),
        (tag(e) + y)[0] == '<',
{
    lemma_tag_literals();
    let x = tag(e);
    let h = x + y;
    assert(x.len() > 0 && x[0] == '<');
    assert(h.subrange(0, x.len() as int) =~= x);
    assert(tag_len_at(h, 0) == x.len());
    assert(tag_at(h, 0) == (e.start, e.style));
    lemma_tags_shift(x, y, 0);
}

proof fn lemma_tags_render(s: Seq<char>, evs: Seq<EventView>, cur: int)
    requires
        tag_free(s),
        0 <= cur,
        is_char_boundary(s, cur),
        events_fit(s, evs),
        forall|k: int| 0 <= k < evs.len() ==> (#[trigger] evs[k]).style != SpanStyle::Normal,
    ensures
        tags_from(render_from(s, evs, cur), 0) == evs.map_values(|e: EventView| (e.start, e.style)),
    decreases evs.len(),
{
    let n = utf8_len(s);
    lemma_char_index(s, s.len() as int);
    assert(s.take(s.len() as int) =~= s);
    if evs.len() == 0 {
        if cur < n {
            lemma_char_index_mono(s, cur, n);
            let x = byte_slice(s, cur, n);
            lemma_tag_free_subrange(s, char_index(s, cur), char_index(s, n));
            lemma_tags_copy(x, Seq::empty(), 0);
            assert(x + Seq::<char>::empty() =~= x);
        }
        assert(evs.map_values(|e: EventView| (e.start, e.style)) =~= Seq::<(bool, SpanStyle)>::empty());
    } else {
        let e = evs[0];
        let r = evs.drop_first();
        assert forall|k: int| 0 <= k < r.len() implies 0 <= #[trigger] r[k].index <= utf8_len(s) && is_char_boundary(s, r[k].index) by {
            assert(r[k] == evs[k + 1]);
        }
        assert forall|k: int| 0 <= k < r.len() implies (#[trigger] r[k]).style != SpanStyle::Normal by {
            assert(r[k] == evs[k + 1]);
        }
        assert(0 <= evs[0].index <= utf8_len(s) && is_char_boundary(s, evs[0].index));
        assert(evs.map_values(|e: EventView| (e.start, e.style)) =~= seq![(e.start, e.style)] + r.map_values(
            |e: EventView| (e.start, e.style),
        ));
        if e.index > cur {
            lemma_tags_render(s, r, e.index);
            let rest = render_from(s, r, e.index);
            lemma_tags_front(e, rest);
            lemma_char_index_mono(s, cur, e.index);
            let x = byte_slice(s, cur, e.index);
            lemma_tag_free_subrange(s, char_index(s, cur), char_index(s, e.index));
            lemma_tags_copy(x, tag(e) + rest, 0);
            assert(x + tag(e) + rest =~= x + (tag(e) + rest));
        } else {
            lemma_tags_render(s, r, cur);
            lemma_tags_front(e, render_from(s, r, cur));
        }
    }
}

/// Reading the `<strong>`, `</strong>`, `<em>` and `</em>` tags of the
/// HTML of a text with bold and italic spans (a text that holds none of
/// these tags itself), left to right, gives the tags in the order that
/// [`lemma_tags_nest`] describes: whether each opens, and its style.
pub proof fn lemma_html_tags_in_order(s: Seq<char>, spans: Seq<SpanView>)
    requires
        spans_fit(s, spans),
        forall|i: int| 0 <= i < spans.len() ==> (#[trigger] spans[i]).style != SpanStyle::Normal,
        tag_free(s),
    ensures
        tags_from(spans_html(s, spans), 0) == sort_events(span_events(spans)).map_values(
            |e: EventView| (e.start, e.style),
        ),
{
    let evs = span_events(spans);
    lemma_span_events(spans, s);
    lemma_span_events_styles(spans);
    lemma_sort_events_multiset(evs);
    let srt = sort_events(evs);
    assert forall|k: int| 0 <= k < srt.len() implies 0 <= #[trigger] srt[k].index <= utf8_len(s) && is_char_boundary(s, srt[k].index)
        && srt[k].style != SpanStyle::Normal by {
        assert(srt.to_multiset().count(srt[k]) > 0);
        assert(evs.contains(srt[k]));
        let m = choose|m: int| 0 <= m < evs.len() && evs[m] == srt[k];
    }
    assert forall|k: int| 0 <= k < srt.len() implies (#[trigger] srt[k]).style != SpanStyle::Normal by {
        assert(srt.to_multiset().count(srt[k]) > 0);
        assert(evs.contains(srt[k]));
        let m = choose|m: int| 0 <= m < evs.len() && evs[m] == srt[k];
    }
    lemma_char_index(s, 0);
    assert(s.take(0) =~= Seq::<char>::empty());
    lemma_tags_render(s, srt, 0);
}

proof fn lemma_span_events_styles(spans: Seq<SpanView>)
    requires
        forall|i: int| 0 <= i < spans.len() ==> (#[trigger] spans[i]).style != SpanStyle::Normal,
    ensures
        forall|k: int| 0 <= k < span_events(spans).len() ==> (#[trigger] span_events(spans)[k]).style != SpanStyle::Normal,
    decreases spans.len(),
{
    if spans.len() > 0 {
        let init = spans.drop_last();
        assert forall|i: int| 0 <= i < init.len() implies (#[trigger] init[i]).style != SpanStyle::Normal by {
            assert(init[i] == spans[i]);
        }
        lemma_span_events_styles(init);
        assert(spans.last() == spans[spans.len() - 1]);
        let evs = span_events(spans);
        assert forall|k: int| 0 <= k < evs.len() implies (#[trigger] evs[k]).style != SpanStyle::Normal by {
            if k < span_events(init).len() {
                assert(evs[k] == span_events(init)[k]);
            }
        }
    }
}

/// The tags of a text's spans are written (see [`spans_html`], which writes
/// them in this order) so that the HTML nests: by position; at one
/// position every closing tag before every opening tag; among closing tags
/// at one position, that of the shorter (inner) span first; among opening
/// tags at one position, that of the longer (outer) span first; for spans
/// of one length, italic opens first and bold closes first. Every span
/// gives one opening tag at its start and one closing tag at its end.
pub proof fn lemma_tags_nest(spans: Seq<SpanView>)
    ensures
        ({
            let tags = sort_events(span_events(spans));
            &&& tags.to_multiset() == span_events(spans).to_multiset()
            &&& span_events(spans).len() == 2 * spans.len()
            &&& forall|a: int, b: int| 0 <= a < b < tags.len() ==> #[trigger] tags[a].index <= #[trigger] tags[b].index
            &&& forall|a: int, b: int|
                0 <= a < b < tags.len() && #[trigger] tags[a].index == #[trigger] tags[b].index && tags[a].start
                    != tags[b].start ==> !tags[a].start
            &&& forall|a: int, b: int|
                0 <= a < b < tags.len() && #[trigger] tags[a].index == #[trigger] tags[b].index && !tags[a].start
                    && !tags[b].start ==> tags[a].span_len <= tags[b].span_len
            &&& forall|a: int, b: int|
                0 <= a < b < tags.len() && #[trigger] tags[a].index == #[trigger] tags[b].index && tags[a].start
                    && tags[b].start ==> tags[a].span_len >= tags[b].span_len
            &&& forall|a: int, b: int|
                0 <= a < b < tags.len() && #[trigger] tags[a].index == #[trigger] tags[b].index && tags[a].start
                    && tags[b].start && tags[a].span_len == tags[b].span_len ==> !(tags[a].style
                    == SpanStyle::Bold && tags[b].style == SpanStyle::Italic)
            &&& forall|a: int, b: int|
                0 <= a < b < tags.len() && #[trigger] tags[a].index == #[trigger] tags[b].index && !tags[a].start
                    && !tags[b].start && tags[a].span_len == tags[b].span_len ==> !(tags[a].style
                    == SpanStyle::Italic && tags[b].style == SpanStyle::Bold)
        }),
{
    let evs = span_events(spans);
    lemma_sort_events_multiset(evs);
    lemma_sort_events_sorted(evs);
    lemma_span_events_len(spans);
}

/// One styled span renders as the text before it, the opening tag
/// (`<strong>` for bold, `<em>` for italic), the text it covers, the
/// closing tag and the text after it. An empty span closes before it opens.
pub proof fn lemma_one_span(s: Seq<char>, sp: SpanView)
    requires
        spans_fit(s, seq![sp]),
        sp.style != SpanStyle::Normal,
    ensures
        ({
            let open: Seq<char> = if sp.style == SpanStyle::Bold {
                "<strong>"@
            } else {
                "<em>"@
            };
            let close: Seq<char> = if sp.style == SpanStyle::Bold {
                "</strong>"@
            } else {
                "</em>"@
            };
            let before = byte_slice(s, 0, sp.start);
            let after = byte_slice(s, sp.end, utf8_len(s));
            &&& sp.start < sp.end ==> spans_html(s, seq![sp]) == before + open + byte_slice(s, sp.start, sp.end)
                + close + after
            &&& sp.start == sp.end ==> spans_html(s, seq![sp]) == before + close + open + after
        }),
{
    let spans = seq![sp];
    assert(spans[0] == sp);
    let e1 = EventView { index: sp.start, start: true, style: sp.style, span_len: sp.end - sp.start };
    let e2 = EventView { index: sp.end, start: false, style: sp.style, span_len: sp.end - sp.start };
    assert(spans.drop_last() =~= Seq::<SpanView>::empty());
    assert(span_events(Seq::<SpanView>::empty()) == Seq::<EventView>::empty());
    assert(span_events(spans) == span_events(Seq::<SpanView>::empty()) + seq![e1, e2]);
    assert(span_events(spans) =~= seq![e1, e2]);
    assert(seq![e1, e2].drop_last() =~= seq![e1]);
    assert(seq![e1].drop_last() =~= Seq::<EventView>::empty());
    assert(sort_events(Seq::<EventView>::empty()) == Seq::<EventView>::empty());
    assert(insert_event(e1, Seq::<EventView>::empty()) == seq![e1]);
    assert(sort_events(seq![e1]) == insert_event(e1, sort_events(Seq::<EventView>::empty())));
    assert(sort_events(seq![e1]) =~= seq![e1]);
    assert(sort_events(seq![e1, e2]) == insert_event(e2, seq![e1]));
    let L = utf8_len(s);
    assert(s.take(s.len() as int) =~= s);
    assert(s.take(0) =~= Seq::<char>::empty());
    lemma_char_index(s, s.len() as int);
    lemma_char_index(s, 0);
    assert(byte_slice(s, L, L) =~= Seq::<char>::empty());
    assert(byte_slice(s, 0, 0) =~= Seq::<char>::empty());
    if sp.start < sp.end {
        assert(sort_events(seq![e1, e2]) =~= seq![e1, e2]);
        assert(seq![e1, e2].drop_first() =~= seq![e2]);
        assert(seq![e2].drop_first() =~= Seq::<EventView>::empty());
        assert(render_from(s, Seq::<EventView>::empty(), sp.end) == byte_slice(s, sp.end, L));
        assert(render_from(s, seq![e2], sp.start) == byte_slice(s, sp.start, sp.end) + tag(e2)
            + byte_slice(s, sp.end, L));
        assert(render_from(s, seq![e1, e2], 0) == byte_slice(s, 0, sp.start) + tag(e1) + render_from(
            s,
            seq![e2],
            sp.start,
        ));
    } else {
        assert(insert_event(e2, Seq::<EventView>::empty()) =~= seq![e2]);
        assert(sort_events(seq![e1, e2]) =~= seq![e2, e1]);
        assert(seq![e2, e1].drop_first() =~= seq![e1]);
        assert(seq![e1].drop_first() =~= Seq::<EventView>::empty());
        assert(render_from(s, Seq::<EventView>::empty(), sp.end) == byte_slice(s, sp.end, L));
        assert(render_from(s, seq![e1], sp.end) == tag(e1) + byte_slice(s, sp.end, L));
        assert(render_from(s, seq![e2, e1], 0) == byte_slice(s, 0, sp.start) + tag(e2) + render_from(
            s,
            seq![e1],
            sp.end,
        ));
    }
}

proof fn lemma_span_events_len(spans: Seq<SpanView>)
    ensures
        span_events(spans).len() == 2 * spans.len(),
        forall|k: int| 0 <= k < spans.len() ==> {
            &&& #[trigger] span_events(spans)[2 * k] == (EventView {
                index: spans[k].start,
                start: true,
                style: spans[k].style,
                span_len: spans[k].end - spans[k].start,
            })
            &&& span_events(spans)[2 * k + 1] == (EventView {
                index: spans[k].end,
                start: false,
                style: spans[k].style,
                span_len: spans[k].end - spans[k].start,
            })
        },
    decreases spans.len(),
{
    if spans.len() > 0 {
        let init = spans.drop_last();
        lemma_span_events_len(init);
        let e = span_events(spans);
        let ei = span_events(init);
        assert forall|k: int| 0 <= k < spans.len() implies {
            &&& #[trigger] span_events(spans)[2 * k] == (EventView {
                index: spans[k].start,
                start: true,
                style: spans[k].style,
                span_len: spans[k].end - spans[k].start,
            })
            &&& span_events(spans)[2 * k + 1] == (EventView {
                index: spans[k].end,
                start: false,
                style: spans[k].style,
                span_len: spans[k].end - spans[k].start,
            })
        } by {
            if k < init.len() {
                assert(init[k] == spans[k]);
                assert(e[2 * k] == ei[2 * k]);
                assert(e[2 * k + 1] == ei[2 * k + 1]);
            } else {
                assert(spans.last() == spans[k]);
            }
        }
    }
}

/// Whether a tag opens or closes its span.
#[derive(Clone, Copy, PartialEq, Eq, Structural)]
enum Edge {
    Start,
    End,
}

#[derive(Clone, Copy)]
struct Event {
    index: usize,
    edge: Edge,
    style: SpanStyle,
    span_len: usize,
}

impl View for Event {
    type V = EventView;

    closed spec fn view(&self) -> EventView {
        EventView {
            index: self.index as int,
            start: self.edge == Edge::Start,
            style: self.style,
            span_len: self.span_len as int,
        }
    }
}

spec fn event_views(s: Seq<Event>) -> Seq<EventView> {
    s.map_values(|e: Event| e@)
}

fn style_priority_start(style: &SpanStyle) -> (r: usize)
    ensures
        r as int == priority_start(*style),
{
    match style {
        SpanStyle::Italic => 0,
        SpanStyle::Bold => 1,
        SpanStyle::Normal => 2,
    }
}

fn style_priority_end(style: &SpanStyle) -> (r: usize)
    ensures
        r as int == priority_end(*style),
{
    match style {
        SpanStyle::Bold => 0,
        SpanStyle::Italic => 1,
        SpanStyle::Normal => 2,
    }
}

/// Whether tag `a` may come before tag `b`.
fn comes_before(a: &Event, b: &Event) -> (r: bool)
    ensures
        r == event_le(a@, b@),
{
    if a.index != b.index {
        return a.index < b.index;
    }
    match (a.edge, b.edge) {
        (Edge::End, Edge::Start) => true,
        (Edge::Start, Edge::End) => false,
        (Edge::Start, Edge::Start) => {
            if a.span_len != b.span_len {
                b.span_len < a.span_len
            } else {
                style_priority_start(&a.style) <= style_priority_start(&b.style)
            }
        },
        (Edge::End, Edge::End) => {
            if a.span_len != b.span_len {
                a.span_len < b.span_len
            } else {
                style_priority_end(&a.style) <= style_priority_end(&b.style)
            }
        },
    }
}

/// Sorts the tags by [`event_le`], keeping the order of tags that tie.
fn sort_event_list(events: &Vec<Event>) -> (r: Vec<Event>)
    ensures
        event_views(r@) == sort_events(event_views(events@)),
{
    let mut sorted: Vec<Event> = Vec::new();
    let mut n: usize = 0;
    while n < events.len()
        invariant
            n <= events.len(),
            event_views(sorted@) == sort_events(event_views(events@).take(n as int)),
        decreases events.len() - n,
    {
        let ghost before = event_views(sorted@);
        let e = events[n];
        proof {
            let pre = event_views(events@).take(n + 1);
            assert(pre.drop_last() =~= event_views(events@).take(n as int));
            assert(pre.last() == e@);
        }
        sorted.push(e);
        let mut j: usize = sorted.len() - 1;
        proof {
            assert(event_views(sorted@) =~= before.take(j as int) + seq![e@] + before.skip(j as int));
            assert(before.take(j as int) =~= before);
        }
        while j > 0 && !comes_before(&sorted[j - 1], &sorted[j])
            invariant
                j < sorted.len(),
                sorted.len() == before.len() + 1,
                event_views(sorted@) == before.take(j as int) + seq![e@] + before.skip(j as int),
                insert_event(e@, before) == insert_event(e@, before.take(j as int)) + before.skip(
                    j as int,
                ),
            decreases j,
        {
            proof {
                let v = event_views(sorted@);
                assert(v[j as int] == e@);
                assert(v[j - 1] == before[j - 1]);
                assert(v[j as int] == sorted@[j as int]@);
                assert(v[j - 1] == sorted@[j - 1]@);
                let tj = before.take(j as int);
                assert(tj.drop_last() =~= before.take(j - 1));
                assert(tj.last() == before[j - 1]);
                assert(before.skip(j - 1) =~= seq![before[j - 1]] + before.skip(j as int));
            }
            let ghost old_v = event_views(sorted@);
            let a = sorted[j - 1];
            let b = sorted[j];
            sorted.set(j - 1, b);
            sorted.set(j, a);
            proof {
                let v = event_views(sorted@);
                let w = before.take(j - 1) + seq![e@] + before.skip(j - 1);
                assert(v.len() == w.len());
                assert forall|k: int| 0 <= k < v.len() implies v[k] == w[k] by {
                    if k == j - 1 {
                        assert(v[k] == b@);
                    } else if k == j {
                        assert(v[k] == a@);
                    } else {
                        assert(v[k] == sorted@[k]@);
                        assert(old_v[k] == v[k]);
                    }
                }
                assert(v =~= w);
                assert(insert_event(e@, before.take(j as int)) == insert_event(e@, before.take(j - 1)).push(before[j - 1]));
                assert(insert_event(e@, before.take(j as int)) + before.skip(j as int) =~= insert_event(e@, before.take(j - 1)) + before.skip(j - 1));
            }
            j = j - 1;
        }
        proof {
            if j > 0 {
                let v = event_views(sorted@);
                assert(v[j as int] == e@);
                assert(v[j - 1] == before[j - 1]);
                assert(v[j as int] == sorted@[j as int]@);
                assert(v[j - 1] == sorted@[j - 1]@);
                let tj = before.take(j as int);
                assert(tj.last() == before[j - 1]);
                assert(insert_event(e@, tj) == tj.push(e@));
            } else {
                assert(before.take(0) =~= Seq::<EventView>::empty());
            }
            assert(event_views(sorted@) =~= insert_event(e@, before));
        }
        n = n + 1;
    }
    proof {
        assert(event_views(events@).take(events.len() as int) =~= event_views(events@));
    }
    sorted
}

/// Writes the text with the tags of the sorted `evs` in it.
fn render_events(s: &Vec<char>, evs: &Vec<Event>, total: usize) -> (r: String)
    requires
        total as int == utf8_len(s@),
        events_fit(s@, event_views(evs@)),
    ensures
        r@ == render_from(s@, event_views(evs@), 0),
{
    let ghost all = event_views(evs@);
    let mut html = String::new();
    let mut ci: usize = 0;
    let mut cb: usize = 0;
    let mut n: usize = 0;
    proof {
        assert(s@.take(0) =~= Seq::<char>::empty());
        assert(all.skip(0) =~= all);
        assert(html@ + render_from(s@, all.skip(0), 0) =~= render_from(s@, all, 0));
    }
    while n < evs.len()
        invariant
            n <= evs.len(),
            all == event_views(evs@),
            events_fit(s@, all),
            total as int == utf8_len(s@),
            ci <= s@.len(),
            cb as int == utf8_len(s@.take(ci as int)),
            html@ + render_from(s@, all.skip(n as int), cb as int) == render_from(s@, all, 0),
        decreases evs.len() - n,
    {
        let e = evs[n];
        let ghost rest = all.skip(n as int);
        let ghost before = html@;
        proof {
            assert(rest[0] == e@);
            assert(rest.drop_first() =~= all.skip(n + 1));
            assert(all[n as int] == e@);
            lemma_char_index(s@, ci as int);
        }
        let ghost cb0 = cb as int;
        if e.index > cb {
            let ghost ci0 = ci;
            copy_until(s, &mut html, &mut ci, &mut cb, e.index);
            proof {
                assert(byte_slice(s@, cb0, e.index as int) == s@.subrange(ci0 as int, ci as int));
            }
        }
        let ghost mid = html@;
        match (e.edge, e.style) {
            (Edge::Start, SpanStyle::Bold) => html.append("<strong>"),
            (Edge::Start, SpanStyle::Italic) => html.append("<em>"),
            (Edge::End, SpanStyle::Bold) => html.append("</strong>"),
            (Edge::End, SpanStyle::Italic) => html.append("</em>"),
            (_, _) => {},
        }
        proof {
            assert(html@ == mid + tag(e@));
            if e.index > cb0 {
                assert(render_from(s@, rest, cb0) == byte_slice(s@, cb0, e.index as int) + tag(e@) + render_from(s@, all.skip(n + 1), cb as int));
            } else {
                assert(render_from(s@, rest, cb0) == tag(e@) + render_from(s@, all.skip(n + 1), cb as int));
            }
            assert(html@ + render_from(s@, all.skip(n + 1), cb as int) =~= before + render_from(s@, rest, cb0));
        }
        n = n + 1;
    }
    if cb < total {
        let ghost ci0 = ci;
        proof {
            lemma_char_index(s@, ci as int);
            lemma_char_index(s@, s@.len() as int);
            assert(s@.take(s@.len() as int) =~= s@);
        }
        copy_until(s, &mut html, &mut ci, &mut cb, total);
    }
    proof {
        assert(all.skip(n as int) =~= Seq::<EventView>::empty());
    }
    html
}

/// Writes `clean_text` as HTML with its emphasis spans: `<strong>` for bold,
/// `<em>` for italic. Each span becomes an opening and a closing tag; the
/// tags are written in the order of [`event_le`], so that inner tags close
/// before new ones open.
pub fn spans_to_html(clean_text: &str, spans: &[Span]) -> (r: String)
    requires
        spans_fit(clean_text@, span_views(spans@)),
    ensures
        r@ == spans_html(clean_text@, span_views(spans@)),
{
    let ghost sv = span_views(spans@);
    let mut events: Vec<Event> = Vec::new();
    let mut i: usize = 0;
    while i < spans.len()
        invariant
            i <= spans.len(),
            sv == span_views(spans@),
            spans_fit(clean_text@, sv),
            event_views(events@) == span_events(sv.take(i as int)),
        decreases spans.len() - i,
    {
        let span = &spans[i];
        proof {
            assert(sv[i as int] == span@);
            assert(sv.take(i + 1).drop_last() =~= sv.take(i as int));
            assert(sv.take(i + 1).last() == span@);
        }
        let len = span.end() - span.start();
        let ghost before = event_views(events@);
        events.push(Event { index: span.start(), edge: Edge::Start, style: *span.style(), span_len: len });
        events.push(Event { index: span.end(), edge: Edge::End, style: *span.style(), span_len: len });
        proof {
            assert(event_views(events@) =~= span_events(sv.take(i + 1)));
        }
        i = i + 1;
    }
    proof {
        assert(sv.take(spans.len() as int) =~= sv);
        lemma_span_events(sv, clean_text@);
    }
    let sorted = sort_event_list(&events);
    proof {
        let evs = span_events(sv);
        lemma_sort_events_multiset(evs);
        let srt = sort_events(evs);
        assert forall|k: int| 0 <= k < srt.len() implies 0 <= #[trigger] srt[k].index <= utf8_len(clean_text@)
            && is_char_boundary(clean_text@, srt[k].index) by {
            assert(srt.to_multiset().count(srt[k]) > 0);
            assert(evs.contains(srt[k]));
            let m = choose|m: int| 0 <= m < evs.len() && evs[m] == srt[k];
        }
    }
    let chars = chars_of(clean_text);
    let total = str_byte_len(clean_text);
    render_events(&chars, &sorted, total)
}

/// Where `s[..hi]` ends once its trailing newlines are left out.
pub open spec fn newline_end(s: Seq<char>, hi: int) -> int
    decreases hi,
{
    if hi > 0 && s[hi - 1] == '\n' {
        newline_end(s, hi - 1)
    } else {
        hi
    }
}

/// The first position of `s[lo..hi]` that is not whitespace, or `hi`.
pub open spec fn ws_start(s: Seq<char>, lo: int, hi: int) -> int
    decreases hi - lo,
{
    if lo < hi && unicode_whitespace(s[lo]) {
        ws_start(s, lo + 1, hi)
    } else {
        lo
    }
}

/// Where `s[lo..hi]` ends once its trailing whitespace is left out.
pub open spec fn ws_end(s: Seq<char>, lo: int, hi: int) -> int
    decreases hi - lo,
{
    if hi > lo && unicode_whitespace(s[hi - 1]) {
        ws_end(s, lo, hi - 1)
    } else {
        hi
    }
}

/// `s[..hi]` without its leading and trailing whitespace (`str::trim`).
pub open spec fn trimmed(s: Seq<char>, hi: int) -> Seq<char> {
    let lo = ws_start(s, 0, hi);
    s.subrange(lo, ws_end(s, lo, hi))
}

/// The HTML of a header: the rendered text, trimmed, between `<h{level}>`
/// and `</h{level}>`; a text that ends with a newline loses its newlines
/// inside the tags and keeps one after them.
pub open spec fn header_html(level: u8, s: Seq<char>, spans: Seq<SpanView>) -> Seq<char> {
    let h = spans_html(s, spans);
    let d = decimal(level as nat);
    let ends_newline = h.len() > 0 && h.last() == '\n';
    let body = if ends_newline {
        trimmed(h, newline_end(h, h.len() as int))
    } else {
        trimmed(h, h.len() as int)
    };
    "<h"@ + d + ">"@ + body + "</h"@ + d + ">"@ + if ends_newline {
        "\n"@
    } else {
        Seq::empty()
    }
}

proof fn lemma_newline_end(s: Seq<char>, hi: int)
    requires
        0 <= hi <= s.len(),
    ensures
        0 <= newline_end(s, hi) <= hi,
    decreases hi,
{
    if hi > 0 && s[hi - 1] == '\n' {
        lemma_newline_end(s, hi - 1);
    }
}

proof fn lemma_ws_start(s: Seq<char>, lo: int, hi: int)
    requires
        0 <= lo <= hi,
    ensures
        lo <= ws_start(s, lo, hi) <= hi,
    decreases hi - lo,
{
    if lo < hi && unicode_whitespace(s[lo]) {
        lemma_ws_start(s, lo + 1, hi);
    }
}

proof fn lemma_ws_end(s: Seq<char>, lo: int, hi: int)
    requires
        lo <= hi,
    ensures
        lo <= ws_end(s, lo, hi) <= hi,
    decreases hi - lo,
{
    if hi > lo && unicode_whitespace(s[hi - 1]) {
        lemma_ws_end(s, lo, hi - 1);
    }
}

proof fn lemma_ws_start_all(s: Seq<char>, lo: int, hi: int)
    requires
        0 <= lo <= hi <= s.len(),
    ensures
        lo <= ws_start(s, lo, hi) <= hi,
        forall|k: int| lo <= k < ws_start(s, lo, hi) ==> unicode_whitespace(#[trigger] s[k]),
        ws_start(s, lo, hi) < hi ==> !unicode_whitespace(s[ws_start(s, lo, hi)]),
    decreases hi - lo,
{
    if lo < hi && unicode_whitespace(s[lo]) {
        lemma_ws_start_all(s, lo + 1, hi);
    }
}

proof fn lemma_ws_end_all(s: Seq<char>, lo: int, hi: int)
    requires
        0 <= lo <= hi <= s.len(),
    ensures
        lo <= ws_end(s, lo, hi) <= hi,
        forall|k: int| ws_end(s, lo, hi) <= k < hi ==> unicode_whitespace(#[trigger] s[k]),
        ws_end(s, lo, hi) > lo ==> !unicode_whitespace(s[ws_end(s, lo, hi) - 1]),
    decreases hi - lo,
{
    if hi > lo && unicode_whitespace(s[hi - 1]) {
        lemma_ws_end_all(s, lo, hi - 1);
    }
}

proof fn lemma_newline_end_all(s: Seq<char>, hi: int)
    requires
        0 <= hi <= s.len(),
    ensures
        0 <= newline_end(s, hi) <= hi,
        forall|k: int| newline_end(s, hi) <= k < hi ==> #[trigger] s[k] == '\n',
    decreases hi,
{
    if hi > 0 && s[hi - 1] == '\n' {
        lemma_newline_end_all(s, hi - 1);
    }
}

/// A header is its rendered text `h` with the leading and trailing
/// whitespace taken off (newlines among it), between `<h{level}>` and
/// `</h{level}>`, the level written in decimal; a newline follows when `h`
/// ends with one. The text kept starts and ends with a character that is
/// not whitespace, or is empty when `h` is all whitespace.
pub proof fn lemma_header_html_trims(level: u8, s: Seq<char>, spans: Seq<SpanView>)
    ensures
        ({
            let h = spans_html(s, spans);
            let d = decimal(level as nat);
            exists|a: int, b: int| {
                &&& 0 <= a <= b <= h.len()
                &&& header_html(level, s, spans) == "<h"@ + d + ">"@ + h.subrange(a, b) + "</h"@ + d + ">"@
                    + if h.len() > 0 && h.last() == '\n' {
                    "\n"@
                } else {
                    Seq::<char>::empty()
                }
                &&& forall|k: int| 0 <= k < a ==> unicode_whitespace(#[trigger] h[k])
                &&& forall|k: int| b <= k < h.len() ==> unicode_whitespace(#[trigger] h[k])
                &&& a < b ==> !unicode_whitespace(h[a]) && !unicode_whitespace(h[b - 1])
            }
        }),
{
    let h = spans_html(s, spans);
    let n = h.len() as int;
    let top = if h.len() > 0 && h.last() == '\n' {
        newline_end(h, n)
    } else {
        n
    };
    lemma_newline_end_all(h, n);
    let a = ws_start(h, 0, top);
    lemma_ws_start_all(h, 0, top);
    let b = ws_end(h, a, top);
    lemma_ws_end_all(h, a, top);
    assert forall|k: int| b <= k < h.len() implies unicode_whitespace(#[trigger] h[k]) by {
        if k >= top {
            assert(h[k] == '\n');
        }
    }
    let d = decimal(level as nat);
    let nl = if h.len() > 0 && h.last() == '\n' {
        "\n"@
    } else {
        Seq::<char>::empty()
    };
    assert(header_html(level, s, spans) == "<h"@ + d + ">"@ + h.subrange(a, b) + "</h"@ + d + ">"@ + nl);
    assert(forall|k: int| 0 <= k < a ==> unicode_whitespace(#[trigger] h[k]));
    assert(a < b ==> !unicode_whitespace(h[a]) && !unicode_whitespace(h[b - 1]));
}

/// Appends `v[lo..hi]` to `out`.
fn append_chars(out: &mut String, v: &Vec<char>, lo: usize, hi: usize)
    requires
        lo <= hi <= v@.len(),
    ensures
        final(out)@ == old(out)@ + v@.subrange(lo as int, hi as int),
{
    let mut k = lo;
    while k < hi
        invariant
            lo <= k <= hi <= v@.len(),
            out@ == old(out)@ + v@.subrange(lo as int, k as int),
        decreases hi - k,
    {
        push_char(out, v[k]);
        assert(v@.subrange(lo as int, k + 1) =~= v@.subrange(lo as int, k as int).push(v@[k as int]));
        k = k + 1;
    }
}

/// Writes a header: see [`header_html`].
pub fn header_to_html(level: u8, clean_text: &str, spans: &[Span]) -> (r: String)
    requires
        spans_fit(clean_text@, span_views(spans@)),
    ensures
        r@ == header_html(level, clean_text@, span_views(spans@)),
{
    let html = spans_to_html(clean_text, spans);
    let chars = chars_of(html.as_str());
    let ghost h = html@;
    let n = chars.len();
    let ends_newline = n > 0 && chars[n - 1] == '\n';
    let mut hi = n;
    if ends_newline {
        while hi > 0 && chars[hi - 1] == '\n'
            invariant
                hi <= n,
                n == h.len(),
                chars@ == h,
                newline_end(h, hi as int) == newline_end(h, n as int),
            decreases hi,
        {
            hi = hi - 1;
        }
    }
    let ghost top = hi as int;
    let mut lo: usize = 0;
    proof {
        lemma_newline_end(h, n as int);
        lemma_ws_start(h, 0, top);
    }
    while lo < hi && is_whitespace(chars[lo])
        invariant
            lo <= hi,
            hi as int == top,
            top <= n,
            n == h.len(),
            chars@ == h,
            ws_start(h, lo as int, top) == ws_start(h, 0, top),
        decreases hi - lo,
    {
        lo = lo + 1;
    }
    proof {
        lemma_ws_end(h, lo as int, top);
    }
    while hi > lo && is_whitespace(chars[hi - 1])
        invariant
            lo <= hi <= top <= n,
            n == h.len(),
            chars@ == h,
            lo as int == ws_start(h, 0, top),
            ws_end(h, lo as int, hi as int) == ws_end(h, lo as int, top),
        decreases hi,
    {
        hi = hi - 1;
    }
    let digits = usize_to_decimal(level as usize);
    let mut r = String::from_str("<h");
    r.append(digits.as_str());
    r.append(">");
    append_chars(&mut r, &chars, lo, hi);
    r.append("</h");
    r.append(digits.as_str());
    r.append(">");
    if ends_newline {
        r.append("\n");
    }
    proof {
        assert(ends_newline == (h.len() > 0 && h.last() == '\n'));
        if !ends_newline {
            assert(top == h.len());
        }
        assert(r@ =~= header_html(level, clean_text@, span_views(spans@)));
    }
    r
}

/// A thematic break.
pub fn thematic_to_html() -> (r: String)
    ensures
        r@ == "<hr />"@,
{
    String::from_str("<hr />")
}

/// An indented code block; its language is not written.
pub fn code_to_html(_language: &Option<String>, content: &str) -> (r: String)
    ensures
        r@ == "<pre><code>"@ + content@ + "</code></pre>"@,
{
    let mut r = String::from_str("<pre><code>");
    r.append(content);
    r.append("</code></pre>");
    r
}

} // verus!
