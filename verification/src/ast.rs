//! The Markdown syntax tree that the parser produces.

use vstd::prelude::*;

use crate::chars::{byte_slice, chars_of, copy_until, decimal, is_char_boundary, usize_to_decimal, utf8_len};

verus! {

/// Markdown supports six header levels.
pub const MAX_HEADER_LEVEL: usize = 6;

/// Style of a text slice. Overlapping bold and italic spans mean bold-italic.
#[derive(PartialEq, PartialOrd, Ord, Eq, Debug, Clone, Copy, Structural)]
pub enum SpanStyle {
    Normal,
    Bold,
    Italic,
}

/// A byte range of a paragraph's text with one style. Spans can be adjacent,
/// overlapping or nested.
#[derive(Debug, Clone)]
pub struct Span {
    start: usize,
    end: usize,
    style: SpanStyle,
}

pub struct SpanView {
    pub start: int,
    pub end: int,
    pub style: SpanStyle,
}

/// The style that a number of matched emphasis markers gives: one is italic,
/// two is bold, anything else is normal.
pub open spec fn style_of_count(marker_count: u8) -> SpanStyle {
    if marker_count == 1 {
        SpanStyle::Italic
    } else if marker_count == 2 {
        SpanStyle::Bold
    } else {
        SpanStyle::Normal
    }
}

impl View for Span {
    type V = SpanView;

    closed spec fn view(&self) -> SpanView {
        SpanView { start: self.start as int, end: self.end as int, style: self.style }
    }
}

impl Span {
    pub fn new(start: usize, end: usize, marker_count: u8) -> (r: Self)
        ensures
            r@ == (SpanView {
                start: start as int,
                end: end as int,
                style: style_of_count(marker_count),
            }),
    {
        let style = match marker_count {
            1 => SpanStyle::Italic,
            2 => SpanStyle::Bold,
            _ => SpanStyle::Normal,
        };
        Span { start, end, style }
    }

    pub fn normal(start: usize, end: usize) -> (r: Self)
        ensures
            r@ == (SpanView { start: start as int, end: end as int, style: SpanStyle::Normal }),
    {
        Span { start, end, style: SpanStyle::Normal }
    }

    pub fn start(&self) -> (r: usize)
        ensures
            r as int == self@.start,
    {
        self.start
    }

    pub fn end(&self) -> (r: usize)
        ensures
            r as int == self@.end,
    {
        self.end
    }

    pub fn style(&self) -> (r: &SpanStyle)
        ensures
            *r == self@.style,
    {
        &self.style
    }

    pub proof fn lemma_fits(&self)
        ensures
            0 <= self@.start <= usize::MAX,
            0 <= self@.end <= usize::MAX,
    {
    }
}

pub open spec fn span_views(s: Seq<Span>) -> Seq<SpanView> {
    s.map_values(|x: Span| x@)
}

/// The inline parser's result: the text without consumed emphasis markers,
/// and the byte ranges of that text that carry emphasis.
#[derive(Debug, Clone)]
pub struct InlineContent {
    text: String,
    spans: Vec<Span>,
}

pub struct InlineView {
    pub text: Seq<char>,
    pub spans: Seq<SpanView>,
}

impl View for InlineContent {
    type V = InlineView;

    closed spec fn view(&self) -> InlineView {
        InlineView { text: self.text@, spans: span_views(self.spans@) }
    }
}

impl InlineContent {
    pub fn new(text: String, spans: Vec<Span>) -> (r: Self)
        ensures
            r@ == (InlineView { text: text@, spans: span_views(spans@) }),
    {
        Self { text, spans }
    }

    pub fn new_empty() -> (r: Self)
        ensures
            r@ == (InlineView { text: Seq::empty(), spans: Seq::empty() }),
    {
        let r = Self { text: String::new(), spans: Vec::<Span>::new() };
        assert(r@.spans =~= Seq::<SpanView>::empty());
        r
    }

    pub fn text(&self) -> (r: &str)
        ensures
            r@ == self@.text,
    {
        self.text.as_str()
    }

    pub fn spans(&self) -> (r: &Vec<Span>)
        ensures
            span_views(r@) == self@.spans,
    {
        &self.spans
    }
}

/// The name of a style, as `Debug` writes it.
pub open spec fn style_name(style: SpanStyle) -> Seq<char> {
    match style {
        SpanStyle::Normal => "Normal"@,
        SpanStyle::Bold => "Bold"@,
        SpanStyle::Italic => "Italic"@,
    }
}

/// One line per span: the span, as `Debug` writes it, and the text it covers.
pub open spec fn span_line(text: Seq<char>, sp: SpanView) -> Seq<char> {
    "span: Span { start: "@ + decimal(sp.start as nat) + ", end: "@ + decimal(sp.end as nat)
        + ", style: "@ + style_name(sp.style) + " } ➜ "@ + byte_slice(text, sp.start, sp.end)
        + "\n"@
}

pub open spec fn span_lines(text: Seq<char>, spans: Seq<SpanView>) -> Seq<char>
    decreases spans.len(),
{
    if spans.len() == 0 {
        Seq::empty()
    } else {
        span_lines(text, spans.drop_last()) + span_line(text, spans.last())
    }
}

/// The text, then a line for each span.
pub open spec fn inline_text_lines(v: InlineView) -> Seq<char> {
    "text: "@ + v.text + "\n"@ + span_lines(v.text, v.spans)
}

/// Every span lies within the text, on character boundaries, start first.
pub open spec fn spans_within(v: InlineView) -> bool {
    forall|i: int|
        0 <= i < v.spans.len() ==> {
            &&& 0 <= #[trigger] v.spans[i].start <= v.spans[i].end <= utf8_len(v.text)
            &&& is_char_boundary(v.text, v.spans[i].start)
            &&& is_char_boundary(v.text, v.spans[i].end)
        }
}

impl SpanStyle {
    pub fn name(&self) -> (r: &'static str)
        ensures
            r@ == style_name(*self),
    {
        match self {
            SpanStyle::Normal => "Normal",
            SpanStyle::Bold => "Bold",
            SpanStyle::Italic => "Italic",
        }
    }
}

/// The line of [`span_line`] for one span of the text `chars`.
fn span_line_string(chars: &Vec<char>, span: &Span) -> (r: String)
    requires
        0 <= span@.start <= span@.end <= utf8_len(chars@),
        is_char_boundary(chars@, span@.start),
        is_char_boundary(chars@, span@.end),
    ensures
        r@ == span_line(chars@, span@),
{
    let mut r = String::from_str("span: Span { start: ");
    r.append(usize_to_decimal(span.start).as_str());
    r.append(", end: ");
    r.append(usize_to_decimal(span.end).as_str());
    r.append(", style: ");
    r.append(span.style.name());
    r.append(" } ➜ ");
    let mut ci: usize = 0;
    let mut cb: usize = 0;
    let mut skipped = String::new();
    proof {
        assert(chars@.take(0) =~= Seq::<char>::empty());
    }
    copy_until(chars, &mut skipped, &mut ci, &mut cb, span.start);
    let ghost a = ci;
    let mut piece = String::new();
    copy_until(chars, &mut piece, &mut ci, &mut cb, span.end);
    r.append(piece.as_str());
    r.append("\n");
    proof {
        assert(piece@ =~= chars@.subrange(a as int, ci as int));
        assert(r@ =~= span_line(chars@, span@));
    }
    r
}

impl InlineContent {
    /// The text on a line of its own, then for each span a line with the
    /// span and the text it covers.
    pub fn to_string(&self) -> (r: String)
        requires
            spans_within(self@),
        ensures
            r@ == inline_text_lines(self@),
    {
        let ghost v = self@;
        let chars = chars_of(self.text.as_str());
        let mut r = String::from_str("text: ");
        r.append(self.text.as_str());
        r.append("\n");
        let mut i: usize = 0;
        proof {
            assert(v.spans.take(0) =~= Seq::<SpanView>::empty());
        }
        while i < self.spans.len()
            invariant
                i <= self.spans.len(),
                v == self@,
                spans_within(v),
                chars@ == v.text,
                r@ == "text: "@ + v.text + "\n"@ + span_lines(v.text, v.spans.take(i as int)),
            decreases self.spans.len() - i,
        {
            let span = &self.spans[i];
            let ghost sp = v.spans[i as int];
            proof {
                assert(sp == span@);
                assert(0 <= v.spans[i as int].start <= v.spans[i as int].end <= utf8_len(v.text));
                assert(is_char_boundary(v.text, sp.start) && is_char_boundary(v.text, sp.end));
                assert(v.spans.take(i + 1).drop_last() =~= v.spans.take(i as int));
                assert(v.spans.take(i + 1).last() == sp);
            }
            let line = span_line_string(&chars, span);
            r.append(line.as_str());
            proof {
                assert(r@ =~= "text: "@ + v.text + "\n"@ + span_lines(v.text, v.spans.take(i + 1)));
            }
            i = i + 1;
        }
        proof {
            assert(v.spans.take(self.spans.len() as int) =~= v.spans);
        }
        r
    }
}

/// Semantic document structure.
#[allow(inconsistent_fields)]
#[derive(Debug, Clone)]
pub enum AstBlock {
    /// A header line.
    Header { level: u8, content: InlineContent },
    /// A paragraph of text.
    Paragraph { content: InlineContent },
    /// `![caption](relative/path/to/image.png)`.
    Image { path: String, alt: InlineContent },
    /// A thematic break (`***`, `---`, `___`).
    Thematic,
    /// An indented code block: optional language and the raw code.
    Code { language: Option<String>, content: String },
}

#[allow(inconsistent_fields)]
pub enum BlockView {
    Header { level: u8, content: InlineView },
    Paragraph { content: InlineView },
    Image { path: Seq<char>, alt: InlineView },
    Thematic,
    Code { language: Option<Seq<char>>, content: Seq<char> },
}

impl View for AstBlock {
    type V = BlockView;

    open spec fn view(&self) -> BlockView {
        match self {
            AstBlock::Header { level, content } => BlockView::Header {
                level: *level,
                content: content@,
            },
            AstBlock::Paragraph { content } => BlockView::Paragraph { content: content@ },
            AstBlock::Image { path, alt } => BlockView::Image { path: path@, alt: alt@ },
            AstBlock::Thematic => BlockView::Thematic,
            AstBlock::Code { language, content } => BlockView::Code {
                language: match language {
                    Some(l) => Some(l@),
                    None => None,
                },
                content: content@,
            },
        }
    }
}

pub open spec fn block_views(s: Seq<AstBlock>) -> Seq<BlockView> {
    s.map_values(|b: AstBlock| b@)
}

impl AstBlock {
    pub fn header(level: u8, content: InlineContent) -> (r: Self)
        ensures
            r@ == (BlockView::Header { level, content: content@ }),
    {
        AstBlock::Header { level, content }
    }

    pub fn paragraph(content: InlineContent) -> (r: Self)
        ensures
            r@ == (BlockView::Paragraph { content: content@ }),
    {
        AstBlock::Paragraph { content }
    }

    pub fn image(path: String, alt: InlineContent) -> (r: Self)
        ensures
            r@ == (BlockView::Image { path: path@, alt: alt@ }),
    {
        AstBlock::Image { path, alt }
    }

    pub fn thematic() -> (r: Self)
        ensures
            r@ == BlockView::Thematic,
    {
        AstBlock::Thematic
    }

    /// A code block; an empty `language` means none.
    pub fn code(language: &str, content: String) -> (r: Self)
        ensures
            r@ == (BlockView::Code {
                language: if language@.len() > 0 {
                    Some(language@)
                } else {
                    None
                },
                content: content@,
            }),
    {
        AstBlock::Code {
            language: if !language.is_empty() {
                Some(language.to_owned())
            } else {
                None
            },
            content,
        }
    }
}

} // verus!
