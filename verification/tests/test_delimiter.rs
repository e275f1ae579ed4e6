use std::collections::HashSet;

use bh_cmark::ast::SpanStyle;
use bh_cmark::parser::delimiter::DelimiterParser;
use bh_cmark::scanner::Scanner;
use bh_cmark::token::Token;
use bh_cmark::token_type::TokenType;

/// `***a *b* c***`: four runs, three matches (the example of the
/// emphasis parser's documentation).
const NESTED: &str = "***a *b* c***";

fn scan(source: &str) -> Vec<Token> {
    let mut scanner = Scanner::new(source);
    let res = scanner.scan_tokens();
    assert!(res.is_ok(), "Scanning {} should be valid", source);
    res.unwrap()
}

#[test]
fn test_delimiter_parser_classify_can_open_close() {
    let tokens = scan(NESTED);
    let ignored_tokens: HashSet<usize> = HashSet::new();
    let mut parser = DelimiterParser::new(&tokens, &ignored_tokens);
    assert!(parser.pre_process().is_ok(), "pre_process() should be valid");
    assert!(parser.classify_can_open_close().is_ok(), "classify_can_open_close() should be valid");

    let expected: [(usize, bool, bool, u8); 4] =
        [(0, true, false, 3), (5, true, false, 1), (7, false, true, 1), (10, false, true, 3)];
    let runs = parser.run_vector();
    assert_eq!(runs.len(), expected.len());
    for (run, (token_index, can_open, can_close, count)) in runs.iter().zip(expected.iter()) {
        assert_eq!(run.token_index(), *token_index);
        assert_eq!(run.can_open(), *can_open);
        assert_eq!(run.can_close(), *can_close);
        assert_eq!(run.count(), *count);
    }

    // `a*"b"*c`: the first run can only close, the second only open, so
    // nothing matches.
    let tokens = scan("a*\"b\"*c");
    let mut parser = DelimiterParser::new(&tokens, &ignored_tokens);
    assert!(parser.pre_process().is_ok());
    assert!(parser.classify_can_open_close().is_ok());
    let runs = parser.run_vector();
    assert_eq!(runs.len(), 2);
    assert!(!runs[0].can_open() && runs[0].can_close());
    assert!(runs[1].can_open() && !runs[1].can_close());
}

#[test]
fn test_delimiter_map_markdown_to_clean() {
    let cases: [(&str, &str); 4] = [
        (NESTED, "a b c"),
        ("**bold**", "bold"),
        ("a*\"b\"*c", "a*\"b\"*c"),
        ("*not closed", "*not closed"),
    ];
    for (source, clean) in cases.iter() {
        let tokens = scan(source);
        let ignored_tokens: HashSet<usize> = HashSet::new();
        let mut parser = DelimiterParser::new(&tokens, &ignored_tokens);
        assert!(parser.pre_process().is_ok(), "pre_process() {} should be valid", source);
        assert!(parser.classify_can_open_close().is_ok(), "classify_can_open_close() {} should be valid", source);
        assert!(parser.match_delimiters().is_ok(), "match_delimiters() should be valid");
        let res = parser.map_markdown_to_clean();
        assert!(res.is_ok(), "map_markdown_to_clean() should be valid");
        assert_eq!(res.unwrap(), *clean, "{}", source);
    }
}

#[test]
fn test_delimiter_parser_parse_inline() {
    let tokens = scan(NESTED);
    let ignored_tokens: HashSet<usize> = HashSet::new();
    let mut parser = DelimiterParser::new(&tokens, &ignored_tokens);
    let res = parser.parse_inline();
    assert!(res.is_ok(), "parse_inline() should be valid");
    let content = res.unwrap();
    assert_eq!(content.text(), "a b c");
    let spans: Vec<(usize, usize, SpanStyle)> =
        content.spans().iter().map(|s| (s.start(), s.end(), *s.style())).collect();
    assert_eq!(spans, vec![(0, 5, SpanStyle::Bold), (0, 5, SpanStyle::Italic), (2, 3, SpanStyle::Italic)]);

    let matches = parser.match_vector();
    let found: Vec<(usize, usize, u8)> =
        matches.iter().map(|m| (m.opener_index(), m.closer_index(), m.use_count())).collect();
    assert_eq!(found, vec![(0, 3, 2), (0, 3, 1), (1, 2, 1)]);
}

#[test]
fn test_delimiter_parser_produce_spans() {
    let source = "**Không đọc *sử* không đủ tư cách nói chuyện *chính trị*.**";
    let clean = "Không đọc sử không đủ tư cách nói chuyện chính trị.";
    let tokens = scan(source);
    let ignored_tokens: HashSet<usize> = HashSet::new();
    let mut parser = DelimiterParser::new(&tokens, &ignored_tokens);
    assert!(parser.pre_process().is_ok());
    assert!(parser.classify_can_open_close().is_ok());
    assert!(parser.match_delimiters().is_ok());
    let text = parser.map_markdown_to_clean();
    assert!(text.is_ok(), "map_markdown_to_clean() should be valid");
    assert_eq!(text.unwrap(), clean);
    let spans = parser.produce_spans();
    assert!(spans.is_ok(), "produce_spans() should be valid");
    let spans: Vec<(usize, usize, SpanStyle)> =
        spans.unwrap().iter().map(|s| (s.start(), s.end(), *s.style())).collect();
    let su = clean.find("sử").unwrap();
    let ct = clean.find("chính trị").unwrap();
    assert_eq!(
        spans,
        vec![
            (0, clean.len(), SpanStyle::Bold),
            (su, su + "sử".len(), SpanStyle::Italic),
            (ct, ct + "chính trị".len(), SpanStyle::Italic),
        ]
    );
}

#[test]
fn test_delimiter_classify_errors() {
    let ignored_tokens: HashSet<usize> = HashSet::new();

    let tokens = vec![
        Token::new(TokenType::Text, String::new(), 0, 0, 0, 0, 1),
        Token::new(TokenType::Star, "*".to_string(), 0, 1, 0, 1, 1),
        Token::new(TokenType::Eof, String::new(), 1, 1, 1, 1, 1),
    ];
    let mut parser = DelimiterParser::new(&tokens, &ignored_tokens);
    assert!(parser.pre_process().is_ok());
    assert_eq!(
        parser.classify_can_open_close().unwrap_err(),
        "Delimiter can_open can't extract preceeding lexeme last character"
    );

    let tokens = vec![
        Token::new(TokenType::Star, "*".to_string(), 0, 1, 0, 1, 1),
        Token::new(TokenType::Text, String::new(), 1, 1, 1, 1, 1),
        Token::new(TokenType::Eof, String::new(), 1, 1, 1, 1, 1),
    ];
    let mut parser = DelimiterParser::new(&tokens, &ignored_tokens);
    assert!(parser.pre_process().is_ok());
    assert_eq!(
        parser.classify_can_open_close().unwrap_err(),
        "Delimiter can_open can't extract following lexeme first character"
    );
}

#[test]
fn test_delimiter_dual_role_run() {
    // `**a***b*`: the middle run closes the first and opens for the last.
    let tokens = scan("**a***b*");
    let ignored_tokens: HashSet<usize> = HashSet::new();
    let mut parser = DelimiterParser::new(&tokens, &ignored_tokens);
    let content = parser.parse_inline().unwrap();
    assert_eq!(content.text(), "ab");
    let found: Vec<(usize, usize, u8)> =
        parser.match_vector().iter().map(|m| (m.opener_index(), m.closer_index(), m.use_count())).collect();
    assert_eq!(found, vec![(0, 1, 2), (1, 2, 1)]);
    let spans: Vec<(usize, usize, SpanStyle)> =
        content.spans().iter().map(|s| (s.start(), s.end(), *s.style())).collect();
    assert_eq!(spans, vec![(0, 1, SpanStyle::Bold), (1, 2, SpanStyle::Italic)]);
}

#[test]
fn test_delimiter_markers_conserved() {
    let sources = [NESTED, "*****Hello*world****", "**a***b*", "***a **b* c**", "a*\"b\"*c"];
    for source in sources.iter() {
        let tokens = scan(source);
        let ignored_tokens: HashSet<usize> = HashSet::new();
        let mut parser = DelimiterParser::new(&tokens, &ignored_tokens);
        assert!(parser.parse_inline().is_ok(), "{}", source);
        let runs = parser.run_vector();
        for (k, run) in runs.iter().enumerate() {
            let used: usize = parser
                .match_vector()
                .iter()
                .filter(|m| m.opener_index() == k || m.closer_index() == k)
                .map(|m| m.use_count() as usize)
                .sum();
            assert_eq!((run.count() - run.remaining()) as usize, used, "{} run {}", source, k);
        }
        // Matches come out ordered by opener, then by closer descending.
        let ms = parser.match_vector();
        for w in ms.windows(2) {
            assert!(
                w[0].opener_index() < w[1].opener_index()
                    || (w[0].opener_index() == w[1].opener_index()
                        && w[0].closer_index() >= w[1].closer_index())
            );
        }
    }
}

#[test]
fn test_delimiter_dual_role_run_keeping_a_marker() {
    // `*a****b**`: the middle run closes with one marker and opens with two,
    // one marker being left over; its markers used as a closer and as an
    // opener are taken as overlapping ranges, so all four leave the text.
    let tokens = scan("*a****b**");
    let ignored_tokens: HashSet<usize> = HashSet::new();
    let mut parser = DelimiterParser::new(&tokens, &ignored_tokens);
    let content = parser.parse_inline().unwrap();
    assert_eq!(content.text(), "ab");
    let spans: Vec<(usize, usize, SpanStyle)> =
        content.spans().iter().map(|s| (s.start(), s.end(), *s.style())).collect();
    assert_eq!(spans, vec![(0, 1, SpanStyle::Italic), (1, 2, SpanStyle::Bold)]);
}

#[test]
fn test_delimiter_backslash_before_text_keeps_spans() {
    // `\q` is not an escape: its token keeps both characters as text and
    // starts at the backslash, so the italic span covers `a`.
    let tokens = scan("\\q*a*");
    let ignored_tokens: HashSet<usize> = HashSet::new();
    let mut parser = DelimiterParser::new(&tokens, &ignored_tokens);
    let content = parser.parse_inline().unwrap();
    assert_eq!(content.text(), "\\qa");
    let spans: Vec<(usize, usize, SpanStyle)> =
        content.spans().iter().map(|s| (s.start(), s.end(), *s.style())).collect();
    assert_eq!(spans, vec![(2, 3, SpanStyle::Italic)]);
}

#[test]
fn test_delimiter_run_that_neither_opens_nor_closes_is_skipped() {
    // The middle `*` has whitespace on both sides: it can neither open nor
    // close, so the outer pair matches around it and it stays in the text.
    let tokens = scan("*a * b*");
    let ignored_tokens: HashSet<usize> = HashSet::new();
    let mut parser = DelimiterParser::new(&tokens, &ignored_tokens);
    let content = parser.parse_inline().unwrap();
    assert_eq!(content.text(), "a * b");
    let spans: Vec<(usize, usize, SpanStyle)> =
        content.spans().iter().map(|s| (s.start(), s.end(), *s.style())).collect();
    assert_eq!(spans, vec![(0, 5, SpanStyle::Italic)]);
    let runs = parser.run_vector();
    assert!(!runs[1].can_open() && !runs[1].can_close());
    assert_eq!(runs[1].remaining(), 1);
    assert_eq!(parser.match_vector().len(), 1);
}

#[test]
fn test_delimiter_parse_inline_again_without_markers() {
    let tokens = scan("ab c");
    let ignored_tokens: HashSet<usize> = HashSet::new();
    let mut parser = DelimiterParser::new(&tokens, &ignored_tokens);
    let first = parser.parse_inline().unwrap();
    let second = parser.parse_inline().unwrap();
    assert_eq!(first.text(), "ab c");
    assert_eq!(second.text(), "ab c");
    assert!(second.spans().is_empty());
}
