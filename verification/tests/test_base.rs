use bh_cmark::ast::AstBlock;
use bh_cmark::parser::text::text;
use bh_cmark::parser::base::BaseParser;
use bh_cmark::parser::block_detector::{BlockDetector, MarkerRunAnalyser};
use bh_cmark::scanner::Scanner;
use bh_cmark::token_type::TokenType;

#[test]
fn test_base_parser_restore_returns_to_saved_position() {
    let mut scanner = Scanner::new("# a");
    let tokens = scanner.scan_tokens().unwrap();
    let mut base = BaseParser::new(&tokens);
    base.save();
    base.advance();
    base.advance();
    assert_eq!(base.current(), 2);
    assert!(base.restore().is_ok());
    assert_eq!(base.current(), 0);
    assert_eq!(base.restore().unwrap_err(), "BaseParser internal restore error");
}

#[test]
fn test_base_parser_consume() {
    let mut scanner = Scanner::new("# a");
    let tokens = scanner.scan_tokens().unwrap();
    let mut base = BaseParser::new(&tokens);
    assert_eq!(base.consume(TokenType::Bang, "expected '!'").unwrap_err(), "expected '!'");
    assert_eq!(base.current(), 0);
    assert!(base.consume(TokenType::Hash, "").is_ok());
    assert_eq!(base.current(), 1);
}

#[test]
fn test_base_parser_detect_block() {
    let mut scanner = Scanner::new("    code");
    let tokens = scanner.scan_tokens().unwrap();
    let mut base = BaseParser::new(&tokens);
    assert_eq!(base.detect_block(), BlockDetector::IndentedCode);
    assert_eq!(base.current(), 4);

    let mut scanner = Scanner::new("* * *\n");
    let tokens = scanner.scan_tokens().unwrap();
    let mut base = BaseParser::new(&tokens);
    assert_eq!(base.detect_block(), BlockDetector::ThematicBreak);

    let mut scanner = Scanner::new("*-*\n");
    let tokens = scanner.scan_tokens().unwrap();
    let mut base = BaseParser::new(&tokens);
    assert_eq!(base.detect_block(), BlockDetector::NoBlock);
    assert_eq!(base.current(), 0);
}

#[test]
fn test_detect_block_goes_back_after_a_short_line() {
    // Two markers and a newline: no thematic break, and the cursor goes
    // back to where detection started; an earlier save is left alone.
    let mut scanner = Scanner::new("x\n**\ny");
    let tokens = scanner.scan_tokens().unwrap();
    let mut base = BaseParser::new(&tokens);
    base.advance();
    base.save();
    base.advance();
    assert_eq!(base.current(), 2);
    assert_eq!(base.detect_block(), BlockDetector::NoBlock);
    assert_eq!(base.current(), 2);
    assert!(base.restore().is_ok());
    assert_eq!(base.current(), 1);
    assert!(base.restore().is_err());
}

#[test]
fn test_restore_undoes_nested_moves() {
    let mut scanner = Scanner::new("a b c");
    let tokens = scanner.scan_tokens().unwrap();
    let mut base = BaseParser::new(&tokens);
    base.advance();
    base.save();
    base.advance();
    base.save();
    base.advance();
    base.skip_line_whitespace();
    assert!(base.restore().is_ok());
    assert_eq!(base.current(), 2);
    base.consume_until_block_boundary();
    base.save();
    base.clear_last_save();
    assert!(base.restore().is_ok());
    assert_eq!(base.current(), 1);
}

#[test]
fn test_base_parser_blank_line_and_start_of_line() {
    let mut scanner = Scanner::new("a\n\n  b");
    let tokens = scanner.scan_tokens().unwrap();
    let mut base = BaseParser::new(&tokens);
    assert_eq!(base.consume_until_block_boundary(), 1);
    assert!(base.is_blank_line());
    base.advance();
    base.advance();
    base.advance();
    base.advance();
    assert!(base.is_start_of_line());
}

#[test]
fn test_text_on_eof_is_an_empty_paragraph() {
    let mut scanner = Scanner::new("a");
    let tokens = scanner.scan_tokens().unwrap();
    let mut base = BaseParser::new(&tokens);
    base.advance();
    let res = bh_cmark::parser::text::text(&mut base);
    assert_eq!(res.unwrap_err(), "empty paragraph");
    assert_eq!(base.current(), 1);
}

#[test]
fn test_code_block_takes_the_rest_of_the_line() {
    let mut scanner = Scanner::new("    x = 1\ny");
    let tokens = scanner.scan_tokens().unwrap();
    let mut base = BaseParser::new(&tokens);
    assert_eq!(base.detect_block(), BlockDetector::IndentedCode);
    match bh_cmark::parser::code::code_block(&mut base).unwrap() {
        bh_cmark::ast::AstBlock::Code { language, content } => {
            assert!(language.is_none());
            assert_eq!(content, "x = 1\n");
        }
        other => panic!("expected code, got {:?}", other),
    }
}

#[test]
fn test_marker_run_analyser_counts() {
    let mut m = MarkerRunAnalyser::new();
    assert!(!m.only_one_run());
    assert_eq!(m.non_whitespace_count(), 0);
    m.register(TokenType::Whitespace);
    assert!(m.only_one_run());
    assert_eq!(m.non_whitespace_count(), 0);
    m.register(TokenType::Star);
    m.register(TokenType::Whitespace);
    m.register(TokenType::Star);
    assert_eq!(m.register(TokenType::Star), 3);
    assert!(!m.only_one_run());
    assert_eq!(m.non_whitespace_count(), 3);

    let mut d = MarkerRunAnalyser::new();
    d.register(TokenType::Dash);
    d.register(TokenType::Dash);
    assert!(d.only_one_run());
    assert_eq!(d.non_whitespace_count(), 2);
}

#[test]
fn test_detect_block_thematic_stops_at_newline() {
    let mut scanner = Scanner::new(" _ _ _\nx");
    let tokens = scanner.scan_tokens().unwrap();
    let mut base = BaseParser::new(&tokens);
    assert_eq!(base.detect_block(), BlockDetector::ThematicBreak);
    assert_eq!(base.current(), 6);
    assert!(base.restore().is_err());
}

#[test]
fn test_text_drops_leading_spaces_wherever_it_starts() {
    let p = Scanner::new("b\n  c").scan_tokens().unwrap();
    let mut b1 = BaseParser::new(&p);
    let q = Scanner::new("a\n\nb\n  c").scan_tokens().unwrap();
    let mut b2 = BaseParser::new(&q);
    b2.advance();
    b2.advance();
    b2.advance();
    assert_eq!(b2.current(), 3);
    for base in [&mut b1, &mut b2] {
        match text(base).unwrap() {
            AstBlock::Paragraph { content } => {
                assert_eq!(content.text(), "b\nc");
                assert!(content.spans().is_empty());
            }
            other => panic!("expected a paragraph, got {:?}", other),
        }
    }
    assert_eq!(b2.current(), 8);
}

#[test]
fn test_detect_block_thematic_at_eof_keeps_its_save() {
    let mut scanner = Scanner::new("***");
    let tokens = scanner.scan_tokens().unwrap();
    let mut base = BaseParser::new(&tokens);
    assert_eq!(base.detect_block(), BlockDetector::ThematicBreak);
    assert_eq!(base.current(), 3);
    assert!(base.restore().is_ok());
    assert_eq!(base.current(), 0);
}
