use bh_cmark::ast::{AstBlock, SpanStyle};
use bh_cmark::parser::parser::Parser;
use bh_cmark::scanner::Scanner;
use bh_cmark::token::Token;

fn scan(source: &str) -> Vec<Token> {
    let mut scanner = Scanner::new(source);
    let res = scanner.scan_tokens();
    assert!(res.is_ok(), "Scanning {} should be valid", source);
    res.unwrap()
}

fn spans_of(content: &bh_cmark::ast::InlineContent) -> Vec<(usize, usize, SpanStyle)> {
    content.spans().iter().map(|s| (s.start(), s.end(), *s.style())).collect()
}

#[test]
fn test_parser_parse() {
    // A paragraph with bold and italic emphasis.
    let tokens = scan("**Không đọc *sử* không đủ tư cách nói chuyện *chính trị*.**");
    let mut parser = Parser::new(&tokens);
    let output = parser.parse();
    assert!(!output.has_error(), "Parsing should not generate any error messages");
    assert_eq!(output.blocks().len(), 1);
    match &output.blocks()[0] {
        AstBlock::Paragraph { content } => {
            let clean = "Không đọc sử không đủ tư cách nói chuyện chính trị.";
            assert_eq!(content.text(), clean);
            assert_eq!(
                spans_of(content),
                vec![
                    (0, clean.len(), SpanStyle::Bold),
                    (14, 18, SpanStyle::Italic),
                    (56, 68, SpanStyle::Italic),
                ]
            );
        }
        other => panic!("expected a paragraph, got {:?}", other),
    }

    // A header, escaped markers kept as text.
    let tokens = scan("## ABC \\# x");
    let mut parser = Parser::new(&tokens);
    let output = parser.parse();
    assert!(!output.has_error());
    assert_eq!(output.blocks().len(), 1);
    match &output.blocks()[0] {
        AstBlock::Header { level, content } => {
            assert_eq!(*level, 2);
            assert_eq!(content.text(), "ABC # x");
            assert!(content.spans().is_empty());
        }
        other => panic!("expected a header, got {:?}", other),
    }

    // Thematic breaks.
    let tokens = scan("   ***\n____\n----    ");
    let mut parser = Parser::new(&tokens);
    let output = parser.parse();
    assert!(!output.has_error());
    assert_eq!(output.blocks().len(), 3);
    for block in output.blocks() {
        assert!(matches!(block, AstBlock::Thematic));
    }

    // An indented code block.
    let tokens = scan("    self.current += 1;\n// This is a comment.");
    let mut parser = Parser::new(&tokens);
    let output = parser.parse();
    assert!(!output.has_error());
    assert_eq!(output.blocks().len(), 2);
    match &output.blocks()[0] {
        AstBlock::Code { language, content } => {
            assert!(language.is_none());
            assert_eq!(content, "self.current += 1;\n");
        }
        other => panic!("expected code, got {:?}", other),
    }
    match &output.blocks()[1] {
        AstBlock::Paragraph { content } => assert_eq!(content.text(), "// This is a comment."),
        other => panic!("expected a paragraph, got {:?}", other),
    }

    // An image with an emphasised caption.
    let tokens = scan("![***Mount Fuji* / *富士山* / *Núi Phú Sỹ***](./img/fujisan.png)");
    let mut parser = Parser::new(&tokens);
    let output = parser.parse();
    assert!(!output.has_error());
    assert_eq!(output.blocks().len(), 1);
    match &output.blocks()[0] {
        AstBlock::Image { path, alt } => {
            assert_eq!(path, "./img/fujisan.png");
            assert_eq!(alt.text(), "Mount Fuji / 富士山 / Núi Phú Sỹ");
            assert_eq!(
                spans_of(alt),
                vec![
                    (0, 39, SpanStyle::Bold),
                    (0, 10, SpanStyle::Italic),
                    (13, 22, SpanStyle::Italic),
                    (25, 39, SpanStyle::Italic),
                ]
            );
        }
        other => panic!("expected an image, got {:?}", other),
    }
}

#[test]
fn test_parser_parse_invalid() {
    let cases: [(&str, &str); 6] = [
        ("![a [[nested]] text(img.png)", "Line 1: expected ']' after '['"),
        ("####### x", "Line 1: invalid header level 7"),
        ("#x", "Line 1: expected space after '#'"),
        ("!x", "Line 1: expected '['"),
        ("![x]()", "Line 1: missing image path"),
        ("![x](a", "Line 1: expected ')' after '('"),
    ];
    for (source, message) in cases.iter() {
        let tokens = scan(source);
        let mut parser = Parser::new(&tokens);
        let output = parser.parse();
        assert!(output.has_error(), "Parsing {} should generate some error messages", source);
        assert_eq!(output.errors().len(), 1, "{}", source);
        assert_eq!(output.errors()[0], *message, "{} error message", source);
        // The block is kept as a paragraph of its text.
        assert_eq!(output.blocks().len(), 1, "{}", source);
        match &output.blocks()[0] {
            AstBlock::Paragraph { content } => assert_eq!(content.text(), *source),
            other => panic!("expected a paragraph, got {:?}", other),
        }
    }
}

fn parse_one(source: &str) -> AstBlock {
    let tokens = scan(source);
    let mut parser = Parser::new(&tokens);
    let output = parser.parse();
    assert!(!output.has_error(), "{} should parse without errors", source);
    assert_eq!(output.blocks().len(), 1, "{}", source);
    output.blocks()[0].clone()
}

#[test]
fn test_parser_header_closing_hashes() {
    let cases: [(&str, u8, &str); 5] = [
        ("## foo ##", 2, "foo"),
        ("# foo## #", 1, "foo##"),
        ("### foo \\###", 3, "foo ###"),
        ("####    ", 4, ""),
        ("#", 1, ""),
    ];
    for (source, expected_level, expected_text) in cases.iter() {
        match parse_one(source) {
            AstBlock::Header { level, content } => {
                assert_eq!(level, *expected_level, "{}", source);
                assert_eq!(content.text(), *expected_text, "{}", source);
            }
            other => panic!("expected a header for {}, got {:?}", source, other),
        }
    }
}

#[test]
fn test_parser_images() {
    let cases: [(&str, &str, &str); 4] = [
        ("![](relative/path/to/image.png)", "relative/path/to/image.png", ""),
        ("![   ](a.png)", "a.png", ""),
        (
            "![Mount Fuji / (富士山, ふじさ, Fujisan) / [Núi Phú Sỹ]](./img/fujisan.png)",
            "./img/fujisan.png",
            "Mount Fuji / (富士山, ふじさ, Fujisan) / [Núi Phú Sỹ]",
        ),
        (
            "![Mount Fuji / \\(富士山, ふじさ, Fujisan\\) / \\[Núi Phú Sỹ\\]](./img/fujisan.png)",
            "./img/fujisan.png",
            "Mount Fuji / (富士山, ふじさ, Fujisan) / [Núi Phú Sỹ]",
        ),
    ];
    for (source, expected_path, expected_alt) in cases.iter() {
        match parse_one(source) {
            AstBlock::Image { path, alt } => {
                assert_eq!(path, *expected_path, "{}", source);
                assert_eq!(alt.text(), *expected_alt, "{}", source);
                assert!(alt.spans().is_empty());
            }
            other => panic!("expected an image for {}, got {:?}", source, other),
        }
    }
}

#[test]
fn test_parser_escaped_backslashes_in_bold() {
    match parse_one("**bold \\\\Úc Đại Lợi\\\\**") {
        AstBlock::Paragraph { content } => {
            let text = "bold \\Úc Đại Lợi\\";
            assert_eq!(content.text(), text);
            assert_eq!(spans_of(&content), vec![(0, text.len(), SpanStyle::Bold)]);
        }
        other => panic!("expected a paragraph, got {:?}", other),
    }
}

#[test]
fn test_parser_paragraph_lines_and_blocks() {
    let tokens = scan("one\n  two\n\n# three\n");
    let mut parser = Parser::new(&tokens);
    let output = parser.parse();
    assert!(!output.has_error());
    assert_eq!(output.blocks().len(), 2);
    match &output.blocks()[0] {
        // The leading spaces of the second line are left out of the text.
        AstBlock::Paragraph { content } => assert_eq!(content.text(), "one\ntwo"),
        other => panic!("expected a paragraph, got {:?}", other),
    }
    match &output.blocks()[1] {
        AstBlock::Header { level, content } => {
            assert_eq!(*level, 1);
            assert_eq!(content.text(), "three");
        }
        other => panic!("expected a header, got {:?}", other),
    }
}

#[test]
fn test_parser_leading_spaces_after_first_block() {
    // Leading spaces are left out wherever the paragraph starts.
    let tokens = scan("# h\none\n  two");
    let mut parser = Parser::new(&tokens);
    let output = parser.parse();
    assert!(!output.has_error());
    assert_eq!(output.blocks().len(), 2);
    match &output.blocks()[1] {
        AstBlock::Paragraph { content } => assert_eq!(content.text(), "one\ntwo"),
        other => panic!("expected a paragraph, got {:?}", other),
    }

    let tokens = scan("# h\none\n  a b c d");
    let mut parser = Parser::new(&tokens);
    let output = parser.parse();
    match &output.blocks()[1] {
        AstBlock::Paragraph { content } => assert_eq!(content.text(), "one\na b c d"),
        other => panic!("expected a paragraph, got {:?}", other),
    }

    let tokens = scan("a\n\nb\n  c");
    let mut parser = Parser::new(&tokens);
    let output = parser.parse();
    assert_eq!(output.blocks().len(), 2);
    match &output.blocks()[1] {
        AstBlock::Paragraph { content } => assert_eq!(content.text(), "b\nc"),
        other => panic!("expected a paragraph, got {:?}", other),
    }
}

#[test]
fn test_parser_header_then_line_of_spaces_ends() {
    // A line of spaces after a header: detection finds no block and the
    // parse goes on past the spaces; it does not go back to the header.
    let tokens = scan("# T\n  \nx");
    let mut parser = Parser::new(&tokens);
    let output = parser.parse();
    assert!(!output.has_error());
    assert_eq!(output.blocks().len(), 2);
    match &output.blocks()[0] {
        AstBlock::Header { level, content } => {
            assert_eq!(*level, 1);
            assert_eq!(content.text(), "T");
        }
        other => panic!("expected a header, got {:?}", other),
    }
    match &output.blocks()[1] {
        AstBlock::Paragraph { content } => assert_eq!(content.text(), "x"),
        other => panic!("expected a paragraph, got {:?}", other),
    }
}

#[test]
fn test_parser_short_marker_line_after_image_is_text() {
    let tokens = scan("![a](p)\n**\nz");
    let mut parser = Parser::new(&tokens);
    let output = parser.parse();
    assert!(!output.has_error());
    assert_eq!(output.blocks().len(), 2);
    match &output.blocks()[1] {
        AstBlock::Paragraph { content } => assert_eq!(content.text(), "**\nz"),
        other => panic!("expected a paragraph, got {:?}", other),
    }
}

#[test]
fn test_parser_parse_checked_agrees_with_parse() {
    let source = "# Title *x*\n\n![*a*](p.png)\n***\n    code\ntext **b**";
    let tokens = scan(source);
    let mut p1 = Parser::new(&tokens);
    let out1 = p1.parse();
    let mut p2 = Parser::new(&tokens);
    let out2 = p2.parse_checked().expect("within the limits");
    assert_eq!(format!("{:?}", out1), format!("{:?}", out2));
    assert_eq!(out2.blocks().len(), 5);
}

#[test]
fn test_parser_parse_checked_refuses_overlong_runs() {
    let stars = "*".repeat(256);
    let tokens = scan(&format!("a {}b", stars));
    let mut parser = Parser::new(&tokens);
    assert!(parser.parse_checked().is_none());

    let hashes = "#".repeat(256);
    let tokens = scan(&format!("{} x", hashes));
    let mut parser = Parser::new(&tokens);
    assert!(parser.parse_checked().is_none());

    let stars = "*".repeat(255);
    let tokens = scan(&format!("a {}b", stars));
    let mut parser = Parser::new(&tokens);
    assert!(parser.parse_checked().is_some());
}
