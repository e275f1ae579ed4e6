use std::collections::HashSet;

use bh_cmark::ast::Span;
use bh_cmark::parser::delimiter::DelimiterParser;
use bh_cmark::render::html::{code_to_html, header_to_html, spans_to_html, thematic_to_html};
use bh_cmark::scanner::Scanner;

#[test]
fn test_spans_to_html_nested() {
    let spans = vec![Span::new(0, 5, 2), Span::new(0, 5, 1), Span::new(2, 3, 1)];
    assert_eq!(spans_to_html("a b c", &spans), "<em><strong>a <em>b</em> c</strong></em>");
}

#[test]
fn test_spans_to_html_plain_and_multibyte() {
    assert_eq!(spans_to_html("plain", &[]), "plain");
    let text = "Núi Phú";
    let spans = vec![Span::new(0, 4, 1)];
    assert_eq!(spans_to_html(text, &spans), "<em>Núi</em> Phú");
}

#[test]
fn test_header_to_html() {
    assert_eq!(header_to_html(2, "  title \n", &[]), "<h2>title</h2>\n");
    assert_eq!(header_to_html(1, " x ", &[]), "<h1>x</h1>");
    assert_eq!(header_to_html(10, "y", &[Span::new(0, 1, 2)]), "<h10><strong>y</strong></h10>");
}

#[test]
fn test_thematic_and_code_to_html() {
    assert_eq!(thematic_to_html(), "<hr />");
    assert_eq!(code_to_html(&None, "let x = 1;\n"), "<pre><code>let x = 1;\n</code></pre>");
}

#[test]
fn test_inline_content_to_string() {
    let mut scanner = Scanner::new("**ab**");
    let tokens = scanner.scan_tokens().unwrap();
    let ignored: HashSet<usize> = HashSet::new();
    let mut parser = DelimiterParser::new(&tokens, &ignored);
    let content = parser.parse_inline().unwrap();
    assert_eq!(content.to_string(), "text: ab\nspan: Span { start: 0, end: 2, style: Bold } ➜ ab\n");
}

#[test]
fn test_spans_to_html_tags_removed_give_text() {
    let text = "Núi *Phú* a b";
    let spans = vec![Span::new(0, 4, 2), Span::new(5, 11, 1), Span::new(5, 8, 2), Span::new(12, 14, 1)];
    let html = spans_to_html(text, &spans);
    let mut stripped = html.clone();
    for t in ["<strong>", "</strong>", "<em>", "</em>"] {
        stripped = stripped.replace(t, "");
    }
    assert_eq!(stripped, text);
    assert_eq!(html.matches("<strong>").count(), 2);
    assert_eq!(html.matches("</strong>").count(), 2);
    assert_eq!(html.matches("<em>").count(), 2);
    assert_eq!(html.matches("</em>").count(), 2);
}
