//! Recognises thematic breaks and indented code blocks at the start of a
//! line by counting runs of marker tokens.

use vstd::prelude::*;

use crate::token_type::TokenType;

verus! {

broadcast use vstd::seq::group_seq_axioms;

/// What a line starts: a thematic break (`<hr />`), an indented code block,
/// or neither.
#[derive(Debug, Clone, Copy, PartialEq, Eq, Structural)]
pub enum BlockDetector {
    NoBlock,
    ThematicBreak,
    IndentedCode,
}

/// A token type and how many times it was seen. Two runs are equal when
/// their token types are: a line has one run per type.
#[derive(Debug, Clone, Copy)]
pub struct MarkerRun {
    token_type: TokenType,
    count: usize,
}

pub struct MarkerView {
    pub token_type: TokenType,
    pub count: int,
}

impl View for MarkerRun {
    type V = MarkerView;

    closed spec fn view(&self) -> MarkerView {
        MarkerView { token_type: self.token_type, count: self.count as int }
    }
}

impl PartialEq for MarkerRun {
    fn eq(&self, other: &Self) -> (r: bool) {
        self.token_type == other.token_type
    }
}

impl vstd::std_specs::cmp::PartialEqSpecImpl for MarkerRun {
    open spec fn obeys_eq_spec() -> bool {
        true
    }

    open spec fn eq_spec(&self, other: &Self) -> bool {
        self@.token_type == other@.token_type
    }
}

impl Eq for MarkerRun {
}

/// A run can stand for its token type, by which runs are told apart.
impl std::borrow::Borrow<TokenType> for MarkerRun {
    fn borrow(&self) -> &TokenType {
        &self.token_type
    }
}

impl MarkerRun {
    pub fn token_type(&self) -> (r: &TokenType)
        ensures
            *r == self@.token_type,
    {
        &self.token_type
    }

    pub fn count(&self) -> (r: usize)
        ensures
            r as int == self@.count,
    {
        self.count
    }
}

pub open spec fn marker_views(s: Seq<MarkerRun>) -> Seq<MarkerView> {
    s.map_values(|m: MarkerRun| m@)
}

/// Position of the entry for `ty`, if any.
pub open spec fn marker_index(ms: Seq<MarkerView>, ty: TokenType) -> Option<int>
    decreases ms.len(),
{
    if ms.len() == 0 {
        None
    } else if ms.last().token_type == ty {
        Some(ms.len() - 1)
    } else {
        marker_index(ms.drop_last(), ty)
    }
}

/// Registering a token type: one more of it, or a first one.
pub open spec fn register_marker(ms: Seq<MarkerView>, ty: TokenType) -> Seq<MarkerView> {
    match marker_index(ms, ty) {
        Some(k) => ms.update(k, MarkerView { count: ms[k].count + 1, ..ms[k] }),
        None => ms.push(MarkerView { token_type: ty, count: 1 }),
    }
}

/// How many of `ty` were registered.
pub open spec fn marker_count(ms: Seq<MarkerView>, ty: TokenType) -> int {
    match marker_index(ms, ty) {
        Some(k) => ms[k].count,
        None => 0,
    }
}

/// The count of the first registered type that is not whitespace, or 0.
pub open spec fn first_non_whitespace_count(ms: Seq<MarkerView>) -> int
    decreases ms.len(),
{
    if ms.len() == 0 {
        0
    } else if ms[0].token_type != TokenType::Whitespace {
        ms[0].count
    } else {
        first_non_whitespace_count(ms.drop_first())
    }
}

/// Each token type has at most one entry.
pub open spec fn markers_distinct(ms: Seq<MarkerView>) -> bool {
    forall|i: int, j: int|
        0 <= i < j < ms.len() ==> #[trigger] ms[i].token_type != #[trigger] ms[j].token_type
}

/// Counts of the marker token types seen on one line.
pub struct MarkerRunAnalyser {
    marker_runs: Vec<MarkerRun>,
}

impl MarkerRunAnalyser {
    pub closed spec fn markers(&self) -> Seq<MarkerView> {
        marker_views(self.marker_runs@)
    }

    pub fn new() -> (r: Self)
        ensures
            r.markers() == Seq::<MarkerView>::empty(),
            markers_distinct(r.markers()),
    {
        let r = MarkerRunAnalyser { marker_runs: Vec::new() };
        assert(r.markers() =~= Seq::<MarkerView>::empty());
        r
    }

    /// Counts one more `token_type` and returns its new count.
    pub fn register(&mut self, token_type: TokenType) -> (r: usize)
        requires
            marker_count(old(self).markers(), token_type) < usize::MAX,
        ensures
            final(self).markers() == register_marker(old(self).markers(), token_type),
            r as int == marker_count(final(self).markers(), token_type),
            r as int == marker_count(old(self).markers(), token_type) + 1,
            markers_distinct(old(self).markers()) ==> markers_distinct(final(self).markers()),
    {
        let ghost ms = self.markers();
        let mut k = self.marker_runs.len();
        assert(ms.take(ms.len() as int) =~= ms);
        while k > 0
            invariant
                k <= self.marker_runs@.len(),
                ms.len() == self.marker_runs@.len(),
                ms == self.markers(),
                ms == old(self).markers(),
                marker_count(ms, token_type) < usize::MAX,
                marker_index(ms, token_type) == marker_index(ms.take(k as int), token_type),
            decreases k,
        {
            if self.marker_runs[k - 1].token_type == token_type {
                proof {
                    assert(ms.take(k as int).last() == ms[k - 1]);
                    assert(marker_index(ms.take(k as int), token_type) == Some(k - 1));
                }
                let mut m = self.marker_runs[k - 1];
                assert(ms[k - 1] == m@);
                assert(marker_count(ms, token_type) == m@.count);
                m.count = m.count + 1;
                let result = m.count;
                self.marker_runs.set(k - 1, m);
                proof {
                    assert(self.markers() =~= register_marker(ms, token_type));
                    lemma_marker_index_update(ms, token_type, k - 1, m@);
                    let ms2 = self.markers();
                    assert forall|i: int, j: int| 0 <= i < j < ms2.len() && markers_distinct(ms) implies
                        #[trigger] ms2[i].token_type != #[trigger] ms2[j].token_type by {
                        assert(ms2[i].token_type == ms[i].token_type);
                        assert(ms2[j].token_type == ms[j].token_type);
                    }
                }
                return result;
            }
            assert(ms.take(k as int).drop_last() =~= ms.take(k - 1));
            k = k - 1;
        }
        let m = MarkerRun { token_type: token_type, count: 1 };
        self.marker_runs.push(m);
        proof {
            assert(self.markers() =~= ms.push(m@));
            assert(ms.push(m@).drop_last() =~= ms);
            assert(ms.take(0) =~= Seq::<MarkerView>::empty());
            lemma_marker_index_range(ms, token_type);
            let ms2 = self.markers();
            assert forall|i: int, j: int| 0 <= i < j < ms2.len() && markers_distinct(ms) implies
                #[trigger] ms2[i].token_type != #[trigger] ms2[j].token_type by {
                assert(ms2[i] == ms[i]);
                if j < ms.len() {
                    assert(ms2[j] == ms[j]);
                }
            }
        }
        1
    }

    pub fn only_one_run(&self) -> (r: bool)
        ensures
            r == (self.markers().len() == 1),
    {
        self.marker_runs.len() == 1
    }

    /// The count of the first registered type other than whitespace, or 0.
    pub fn non_whitespace_count(&self) -> (r: usize)
        ensures
            r as int == first_non_whitespace_count(self.markers()),
    {
        let mut k: usize = 0;
        assert(self.markers().skip(0) =~= self.markers());
        while k < self.marker_runs.len()
            invariant
                k <= self.markers().len(),
                first_non_whitespace_count(self.markers()) == first_non_whitespace_count(self.markers().skip(k as int)),
            decreases self.markers().len() - k,
        {
            let m = self.marker_runs[k];
            assert(self.markers()[k as int] == m@);
            assert(self.markers().skip(k as int)[0] == m@);
            if m.token_type != TokenType::Whitespace {
                return m.count;
            }
            assert(self.markers().skip(k as int).drop_first() =~= self.markers().skip(k + 1));
            k = k + 1;
        }
        assert(self.markers().skip(k as int) =~= Seq::<MarkerView>::empty());
        0
    }
}

/// The entries after registering the token types `ts` in order, starting
/// from none.
pub open spec fn registered(ts: Seq<TokenType>) -> Seq<MarkerView>
    decreases ts.len(),
{
    if ts.len() == 0 {
        Seq::empty()
    } else {
        register_marker(registered(ts.drop_last()), ts.last())
    }
}

/// How many times `ty` occurs in `ts`.
pub open spec fn occurrences(ts: Seq<TokenType>, ty: TokenType) -> int
    decreases ts.len(),
{
    if ts.len() == 0 {
        0
    } else {
        occurrences(ts.drop_last(), ty) + if ts.last() == ty {
            1int
        } else {
            0int
        }
    }
}

/// After registering `ts`: one entry per distinct type of `ts`, and none
/// for another type; each entry counts the occurrences of its type.
pub proof fn lemma_registered(ts: Seq<TokenType>)
    ensures
        markers_distinct(registered(ts)),
        forall|ty: TokenType| #[trigger] marker_count(registered(ts), ty) == occurrences(ts, ty),
        forall|ty: TokenType|
            (#[trigger] marker_index(registered(ts), ty) is Some) <==> (exists|i: int| 0 <= i < ts.len() && ts[i] == ty),
        forall|k: int| 0 <= k < registered(ts).len() ==> exists|i: int| 0 <= i < ts.len() && ts[i] == #[trigger] registered(ts)[k].token_type,
        ts.len() > 0 ==> registered(ts).len() >= 1,
    decreases ts.len(),
{
    if ts.len() > 0 {
        let p = ts.drop_last();
        let x = ts.last();
        lemma_registered(p);
        let ms = registered(p);
        let ms2 = registered(ts);
        lemma_marker_index_range(ms, x);
        lemma_register_distinct(ms, x);
        assert forall|ty: TokenType| #[trigger] marker_count(ms2, ty) == occurrences(ts, ty) by {
            lemma_register_other(ms, x, ty);
        }
        assert forall|ty: TokenType|
            (#[trigger] marker_index(ms2, ty) is Some) <==> (exists|i: int| 0 <= i < ts.len() && ts[i] == ty) by {
            lemma_register_other(ms, x, ty);
            if exists|i: int| 0 <= i < p.len() && p[i] == ty {
                let i = choose|i: int| 0 <= i < p.len() && p[i] == ty;
                assert(ts[i] == ty);
            }
            if exists|i: int| 0 <= i < ts.len() && ts[i] == ty {
                let i = choose|i: int| 0 <= i < ts.len() && ts[i] == ty;
                if i < p.len() {
                    assert(p[i] == ty);
                }
            }
            assert(ts[ts.len() - 1] == x);
        }
        assert forall|k: int| 0 <= k < ms2.len() implies exists|i: int| 0 <= i < ts.len() && ts[i] == #[trigger] ms2[k].token_type by {
            if k < ms.len() {
                let i = choose|i: int| 0 <= i < p.len() && p[i] == ms[k].token_type;
                assert(ts[i] == p[i]);
                assert(ms2[k].token_type == ms[k].token_type);
            } else {
                assert(ts[ts.len() - 1] == x);
            }
        }
    }
}

proof fn lemma_register_distinct(ms: Seq<MarkerView>, x: TokenType)
    requires
        markers_distinct(ms),
    ensures
        markers_distinct(register_marker(ms, x)),
        register_marker(ms, x).len() == ms.len() + if marker_index(ms, x) is Some {
            0int
        } else {
            1int
        },
        forall|k: int| 0 <= k < ms.len() ==> #[trigger] register_marker(ms, x)[k].token_type == ms[k].token_type,
        marker_index(ms, x) is None ==> register_marker(ms, x)[ms.len() as int].token_type == x,
{
    lemma_marker_index_range(ms, x);
    let ms2 = register_marker(ms, x);
    assert forall|i: int, j: int| 0 <= i < j < ms2.len() implies #[trigger] ms2[i].token_type != #[trigger] ms2[j].token_type by {
        if j < ms.len() {
            assert(ms2[i].token_type == ms[i].token_type);
            assert(ms2[j].token_type == ms[j].token_type);
        } else {
            assert(ms2[i].token_type == ms[i].token_type);
        }
    }
}

proof fn lemma_register_other(ms: Seq<MarkerView>, x: TokenType, ty: TokenType)
    requires
        markers_distinct(ms),
    ensures
        marker_count(register_marker(ms, x), ty) == marker_count(ms, ty) + if x == ty {
            1int
        } else {
            0int
        },
        (marker_index(register_marker(ms, x), ty) is Some) <==> (marker_index(ms, ty) is Some || x == ty),
{
    lemma_marker_index_range(ms, x);
    lemma_marker_index_range(ms, ty);
    lemma_register_distinct(ms, x);
    let ms2 = register_marker(ms, x);
    lemma_marker_index_range(ms2, ty);
    if x == ty {
        match marker_index(ms, x) {
            Some(k) => {
                lemma_marker_index_update(ms, x, k, MarkerView { count: ms[k].count + 1, ..ms[k] });
            },
            None => {
                assert(ms2.drop_last() =~= ms);
            },
        }
    } else {
        match marker_index(ms, x) {
            Some(k) => {
                lemma_marker_index_unique(ms2, ty);
                lemma_marker_index_unique(ms, ty);
                match marker_index(ms, ty) {
                    Some(q) => {
                        assert(ms2[q].token_type == ty);
                        assert(ms2[q] == ms[q]);
                    },
                    None => {
                        assert forall|q: int| 0 <= q < ms2.len() implies #[trigger] ms2[q].token_type != ty by {
                            assert(ms2[q].token_type == ms[q].token_type);
                        }
                    },
                }
            },
            None => {
                assert(ms2.drop_last() =~= ms);
            },
        }
    }
}

/// With distinct entries, the entry found for a type is its only one.
proof fn lemma_marker_index_unique(ms: Seq<MarkerView>, ty: TokenType)
    requires
        markers_distinct(ms),
    ensures
        forall|q: int| 0 <= q < ms.len() && #[trigger] ms[q].token_type == ty ==> marker_index(ms, ty) == Some(q),
{
    lemma_marker_index_range(ms, ty);
}

/// `only_one_run` after registering `ts` holds exactly when `ts` holds one
/// token type, at least once.
pub proof fn lemma_one_run_iff_one_type(ts: Seq<TokenType>)
    ensures
        (registered(ts).len() == 1) <==> (ts.len() > 0 && forall|i: int| 0 <= i < ts.len() ==> #[trigger] ts[i] == ts[0]),
    decreases ts.len(),
{
    lemma_registered(ts);
    if ts.len() > 0 {
        let p = ts.drop_last();
        let x = ts.last();
        lemma_registered(p);
        lemma_one_run_iff_one_type(p);
        lemma_register_distinct(registered(p), x);
        if p.len() == 0 {
            assert forall|i: int| 0 <= i < ts.len() implies #[trigger] ts[i] == ts[0] by {}
        } else {
            assert(registered(p).len() >= 1);
            if marker_index(registered(p), x) is Some {
                let j = choose|i: int| 0 <= i < p.len() && p[i] == x;
                if forall|i: int| 0 <= i < p.len() ==> #[trigger] p[i] == p[0] {
                    assert(x == p[0]);
                    assert forall|i: int| 0 <= i < ts.len() implies #[trigger] ts[i] == ts[0] by {
                        if i < p.len() {
                            assert(ts[i] == p[i]);
                        }
                        assert(ts[0] == p[0]);
                    }
                } else {
                    let i = choose|i: int| 0 <= i < p.len() && !(#[trigger] p[i] == p[0]);
                    assert(ts[i] == p[i] && ts[0] == p[0]);
                }
                if forall|i: int| 0 <= i < ts.len() ==> #[trigger] ts[i] == ts[0] {
                    assert forall|i: int| 0 <= i < p.len() implies #[trigger] p[i] == p[0] by {
                        assert(ts[i] == p[i] && ts[0] == p[0]);
                    }
                }
            } else {
                assert(p[0] != x) by {
                    if p[0] == x {
                        assert(exists|i: int| 0 <= i < p.len() && p[i] == x);
                    }
                }
                assert(ts[ts.len() - 1] != ts[0]);
            }
        }
    }
}

/// After registering whitespace and one other token type `x` in any order,
/// `non_whitespace_count` gives the number of `x`s (0 when there is none).
pub proof fn lemma_non_whitespace_count(ts: Seq<TokenType>, x: TokenType)
    requires
        x != TokenType::Whitespace,
        forall|i: int| 0 <= i < ts.len() ==> #[trigger] ts[i] == TokenType::Whitespace || ts[i] == x,
    ensures
        first_non_whitespace_count(registered(ts)) == occurrences(ts, x),
{
    lemma_registered(ts);
    let ms = registered(ts);
    assert forall|k: int| 0 <= k < ms.len() implies #[trigger] ms[k].token_type == TokenType::Whitespace
        || ms[k].token_type == x by {
        let i = choose|i: int| 0 <= i < ts.len() && ts[i] == ms[k].token_type;
    }
    assert(marker_count(ms, x) == occurrences(ts, x));
    lemma_marker_index_range(ms, x);
    lemma_marker_index_unique(ms, x);
    lemma_first_non_whitespace(ms, x);
}

proof fn lemma_first_non_whitespace(ms: Seq<MarkerView>, x: TokenType)
    requires
        x != TokenType::Whitespace,
        markers_distinct(ms),
        forall|k: int| 0 <= k < ms.len() ==> #[trigger] ms[k].token_type == TokenType::Whitespace || ms[k].token_type == x,
    ensures
        first_non_whitespace_count(ms) == marker_count(ms, x),
    decreases ms.len(),
{
    lemma_marker_index_range(ms, x);
    lemma_marker_index_unique(ms, x);
    if ms.len() > 0 {
        let r = ms.drop_first();
        assert forall|k: int| 0 <= k < r.len() implies #[trigger] r[k].token_type == TokenType::Whitespace
            || r[k].token_type == x by {
            assert(r[k] == ms[k + 1]);
        }
        assert forall|i: int, j: int| 0 <= i < j < r.len() implies #[trigger] r[i].token_type != #[trigger] r[j].token_type by {
            assert(r[i] == ms[i + 1] && r[j] == ms[j + 1]);
        }
        if ms[0].token_type == x {
            assert(marker_index(ms, x) == Some(0int));
        } else {
            lemma_first_non_whitespace(r, x);
            lemma_marker_index_range(r, x);
            lemma_marker_index_unique(r, x);
            match marker_index(ms, x) {
                Some(k) => {
                    assert(k >= 1);
                    assert(r[k - 1] == ms[k]);
                    assert(marker_index(r, x) == Some(k - 1));
                },
                None => {
                    assert forall|q: int| 0 <= q < r.len() implies #[trigger] r[q].token_type != x by {
                        assert(r[q] == ms[q + 1]);
                    }
                },
            }
        }
    }
}

proof fn lemma_marker_index_update(ms: Seq<MarkerView>, ty: TokenType, k: int, m: MarkerView)
    requires
        marker_index(ms, ty) == Some(k),
        m.token_type == ty,
    ensures
        marker_index(ms.update(k, m), ty) == Some(k),
    decreases ms.len(),
{
    lemma_marker_index_range(ms, ty);
    if k == ms.len() - 1 {
    } else {
        assert(ms.update(k, m).drop_last() =~= ms.drop_last().update(k, m));
        lemma_marker_index_update(ms.drop_last(), ty, k, m);
    }
}

pub proof fn lemma_marker_index_range(ms: Seq<MarkerView>, ty: TokenType)
    ensures
        marker_index(ms, ty) matches Some(k) ==> 0 <= k < ms.len() && ms[k].token_type == ty,
        marker_index(ms, ty) is None ==> forall|q: int| 0 <= q < ms.len() ==> #[trigger] ms[q].token_type != ty,
    decreases ms.len(),
{
    if ms.len() > 0 {
        lemma_marker_index_range(ms.drop_last(), ty);
        if ms.last().token_type != ty {
            assert forall|q: int| 0 <= q < ms.len() - 1 implies #[trigger] ms[q].token_type == ms.drop_last()[q].token_type by {}
        }
    }
}

} // verus!
