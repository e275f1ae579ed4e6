use bh_cmark::scanner::Scanner;
use bh_cmark::token::Token;
use bh_cmark::token_type::TokenType;

#[test]
fn test_scanner_escape_and_positions() {
    let mut scanner = Scanner::new("a\\*b\n");
    let tokens = scanner.scan_tokens().expect("scanning should succeed");
    let found: Vec<(TokenType, String, usize, usize, usize, usize, usize)> = tokens
        .iter()
        .map(|t| {
            (
                t.token_type(),
                t.lexeme().to_string(),
                t.source_byte_start(),
                t.source_byte_end(),
                t.logical_byte_start(),
                t.logical_byte_end(),
                t.line(),
            )
        })
        .collect();
    assert_eq!(
        found,
        vec![
            (TokenType::Text, "a".to_string(), 0, 1, 0, 1, 1),
            (TokenType::EscapedChar, "*".to_string(), 2, 3, 1, 2, 1),
            (TokenType::Text, "b".to_string(), 3, 4, 2, 3, 1),
            (TokenType::Newline, "\n".to_string(), 4, 5, 3, 4, 2),
            (TokenType::Eof, "".to_string(), 5, 5, 4, 4, 2),
        ]
    );
}

#[test]
fn test_scanner_empty_source_is_an_error() {
    let mut scanner = Scanner::new("");
    let res = scanner.scan_tokens();
    assert_eq!(res.unwrap_err(), "Source text is empty.");
}

#[test]
fn test_scanner_merges_text_and_keeps_unescapable_backslash() {
    let mut scanner = Scanner::new("ab\\qc d");
    let tokens = scanner.scan_tokens().unwrap();
    let types: Vec<TokenType> = tokens.iter().map(|t| t.token_type()).collect();
    assert_eq!(types, vec![TokenType::Text, TokenType::Whitespace, TokenType::Text, TokenType::Eof]);
    assert_eq!(tokens[0].lexeme(), "ab\\qc");
    assert_eq!(tokens[0].logical_byte_end(), 5);
}

#[test]
fn test_scanner_trailing_backslash_is_dropped() {
    let mut scanner = Scanner::new("a\\");
    let tokens = scanner.scan_tokens().unwrap();
    assert_eq!(tokens.len(), 2);
    assert_eq!(tokens[0].lexeme(), "a");
    assert_eq!(tokens[1].token_type(), TokenType::Eof);
    assert_eq!(tokens[1].source_byte_end(), 1);
}

#[test]
fn test_scanner_crlf_is_one_newline() {
    let mut scanner = Scanner::new("x\r\ny");
    let tokens = scanner.scan_tokens().unwrap();
    let types: Vec<TokenType> = tokens.iter().map(|t| t.token_type()).collect();
    assert_eq!(types, vec![TokenType::Text, TokenType::Newline, TokenType::Text, TokenType::Eof]);
    assert_eq!(tokens[1].lexeme(), "\r\n");
    assert_eq!(tokens[2].line(), 2);
}

#[test]
fn test_scanner_lexemes_spell_source_without_escapes() {
    let source = "# **a\\_b** ![c](d)\n\\\\e";
    let mut scanner = Scanner::new(source);
    let tokens = scanner.scan_tokens().unwrap();
    let joined: String = tokens.iter().map(|t| t.lexeme()).collect();
    assert_eq!(joined, "# **a_b** ![c](d)\n\\e");
    assert_eq!(tokens.last().unwrap().token_type(), TokenType::Eof);
    assert_eq!(tokens.iter().filter(|t| t.token_type() == TokenType::Eof).count(), 1);
}

#[test]
fn test_token_type_names() {
    assert_eq!(TokenType::Star.to_string(), "Star");
    assert_eq!(TokenType::Eof.name(), "Eof");
    assert_eq!(TokenType::Unset.to_string(), "None");
    assert_eq!(TokenType::default(), TokenType::Unset);
}

#[test]
fn test_scanner_unescapable_backslash_token_starts_at_the_backslash() {
    let mut scanner = Scanner::new("a \\q");
    let tokens = scanner.scan_tokens().unwrap();
    assert_eq!(tokens[2], Token::new(TokenType::Text, "\\q".to_string(), 2, 4, 2, 4, 1));
    assert_eq!(tokens[3].logical_byte_start(), 4);
}

#[test]
fn test_scanner_tokens_tile_the_source() {
    let source = "# **a\\_b** \\q\n\\\\e \u{e9}";
    let mut scanner = Scanner::new(source);
    let tokens = scanner.scan_tokens().unwrap();
    assert_eq!(tokens[0].logical_byte_start(), 0);
    assert_eq!(tokens[0].source_byte_start(), 0);
    for i in 0..tokens.len() {
        let t = &tokens[i];
        assert_eq!(t.logical_byte_end() - t.logical_byte_start(), t.lexeme().len());
        assert_eq!(t.source_byte_end() - t.source_byte_start(), t.lexeme().len());
        if i + 1 < tokens.len() {
            let next = &tokens[i + 1];
            assert_eq!(next.logical_byte_start(), t.logical_byte_end());
            let gap = if next.token_type() == TokenType::EscapedChar { 1 } else { 0 };
            assert_eq!(next.source_byte_start(), t.source_byte_end() + gap);
        }
    }
    // Putting the escape markers back gives the source.
    let rebuilt: String = tokens
        .iter()
        .map(|t| {
            if t.token_type() == TokenType::EscapedChar {
                format!("\\{}", t.lexeme())
            } else {
                t.lexeme().to_string()
            }
        })
        .collect();
    assert_eq!(rebuilt, source);
}

#[test]
fn test_scanner_rebuild_drops_a_final_lone_backslash() {
    let mut scanner = Scanner::new("a\\\\\\");
    let tokens = scanner.scan_tokens().unwrap();
    let types: Vec<TokenType> = tokens.iter().map(|t| t.token_type()).collect();
    assert_eq!(types, vec![TokenType::Text, TokenType::EscapedChar, TokenType::Eof]);
    assert_eq!(tokens[1].lexeme(), "\\");
    assert_eq!(tokens[2].source_byte_end(), 3);
}

#[test]
fn test_scanner_rebuild_keeps_an_even_run_of_backslashes() {
    let source = "a\\\\\\\\";
    let mut scanner = Scanner::new(source);
    let tokens = scanner.scan_tokens().unwrap();
    let rebuilt: String = tokens
        .iter()
        .map(|t| {
            if t.token_type() == TokenType::EscapedChar {
                format!("\\{}", t.lexeme())
            } else {
                t.lexeme().to_string()
            }
        })
        .collect();
    assert_eq!(rebuilt, source);
}

#[test]
fn test_is_whitespace_agrees_with_std() {
    for v in 0u32..0x11_0000 {
        if let Some(c) = char::from_u32(v) {
            assert_eq!(bh_cmark::chars::is_whitespace(c), c.is_whitespace(), "U+{:04X}", v);
        }
    }
}
