use glex::gl_exception::LexErrorKind;
use glex::gl_lexer::Lexer;
use glex::gl_token::Token;
use glex::gl_tokens::Tokens;

fn scan(src: &str) -> (bool, Vec<Token>, Lexer) {
    let mut lx = Lexer::new("test.txt".to_string(), src.to_string(), 0);
    let failed = lx.run();
    let toks = lx.copy_tokens();
    (failed, toks, lx)
}

fn text_of(t: &Tokens) -> String {
    match t {
        Tokens::EOF => String::new(),
        Tokens::INTEGER(s) => s.clone(),
        Tokens::IDENTIFIER(s) => s.clone(),
        Tokens::STRING(s) => s.clone(),
        Tokens::SEMICOLON => ";".to_string(),
        Tokens::LPAREN => "(".to_string(),
        Tokens::RPAREN => ")".to_string(),
        Tokens::COMMA => ",".to_string(),
        Tokens::LBRACE => "{".to_string(),
        Tokens::RBRACE => "}".to_string(),
    }
}

#[test]
fn empty_input_yields_one_eof_at_origin() {
    let (failed, toks, _) = scan("");
    assert!(!failed);
    assert_eq!(toks.len(), 1);
    assert_eq!(toks[0].kind, Tokens::EOF);
    assert_eq!(toks[0].position_start.index, 0);
    assert_eq!(toks[0].position_start.lineno, 0);
    assert_eq!(toks[0].position_start.column, 0);
    assert_eq!(toks[0].position_end.index, 0);
    assert_eq!(toks[0].position_end.lineno, 0);
    assert_eq!(toks[0].position_end.column, 0);
}

#[test]
fn identifier_with_digits_is_one_token() {
    let (failed, toks, lx) = scan("foo123");
    assert!(!failed);
    assert!(lx.error.is_none());
    assert_eq!(toks.len(), 2);
    assert_eq!(toks[0].kind, Tokens::IDENTIFIER("foo123".to_string()));
    assert_eq!(toks[1].kind, Tokens::EOF);
}

#[test]
fn integer_then_letter_is_invalid_syntax() {
    let (failed, _, lx) = scan("123abc");
    assert!(failed);
    assert_eq!(lx.error, Some(LexErrorKind::InvalidSyntax));
}

#[test]
fn integer_then_unknown_char_is_illegal_character() {
    let (failed, _, lx) = scan("123@");
    assert!(failed);
    assert_eq!(lx.error, Some(LexErrorKind::IllegalCharacter));
}

#[test]
fn integer_then_quote_is_invalid_syntax() {
    let (failed, _, lx) = scan("123\"x\"");
    assert!(failed);
    assert_eq!(lx.error, Some(LexErrorKind::InvalidSyntax));
}

#[test]
fn string_with_escaped_n_decodes_to_newline() {
    let (failed, toks, _) = scan("\"a\\nb\"");
    assert!(!failed);
    assert_eq!(toks.len(), 2);
    assert_eq!(toks[0].kind, Tokens::STRING("a\nb".to_string()));
    assert_eq!(toks[1].kind, Tokens::EOF);
}

#[test]
fn unterminated_string_is_invalid_syntax() {
    let (failed, _, lx) = scan("\"abc");
    assert!(failed);
    assert_eq!(lx.error, Some(LexErrorKind::InvalidSyntax));
}

#[test]
fn escaped_quote_stays_in_string() {
    let (failed, toks, _) = scan("\"a\\\"b\"");
    assert!(!failed);
    assert_eq!(toks[0].kind, Tokens::STRING("a\"b".to_string()));
}

// After a backslash-n escape the escape flag stays set, so a quote right
// after it is taken as escaped and the literal runs to the end of the input.
#[test]
fn escape_flag_stays_set_after_escaped_n() {
    let (failed, _, lx) = scan("\"a\\n\"");
    assert!(failed);
    assert_eq!(lx.error, Some(LexErrorKind::InvalidSyntax));
}

#[test]
fn empty_string_literal() {
    let (failed, toks, _) = scan("\"\"");
    assert!(!failed);
    assert_eq!(toks[0].kind, Tokens::STRING(String::new()));
}

#[test]
fn string_followed_by_letter_is_invalid_syntax() {
    let (failed, _, lx) = scan("\"a\"x");
    assert!(failed);
    assert_eq!(lx.error, Some(LexErrorKind::InvalidSyntax));
}

#[test]
fn string_may_span_lines_without_advancing_lineno() {
    let (failed, toks, _) = scan("\"a\nb\"");
    assert!(!failed);
    assert_eq!(toks[0].kind, Tokens::STRING("a\nb".to_string()));
    assert_eq!(toks[0].position_end.lineno, 0);
    assert_eq!(toks[0].position_end.index, 5);
}

#[test]
fn all_six_punctuation_tokens() {
    let (failed, toks, _) = scan(";(),{}");
    assert!(!failed);
    assert_eq!(toks.len(), 7);
    assert_eq!(toks[0].kind, Tokens::SEMICOLON);
    assert_eq!(toks[1].kind, Tokens::LPAREN);
    assert_eq!(toks[2].kind, Tokens::RPAREN);
    assert_eq!(toks[3].kind, Tokens::COMMA);
    assert_eq!(toks[4].kind, Tokens::LBRACE);
    assert_eq!(toks[5].kind, Tokens::RBRACE);
    assert_eq!(toks[6].kind, Tokens::EOF);
}

// The punctuation table holds exactly the six handled characters, so any
// other mark falls through to the illegal-character error.
#[test]
fn colon_is_illegal_character() {
    let (failed, _, lx) = scan(":");
    assert!(failed);
    assert_eq!(lx.error, Some(LexErrorKind::IllegalCharacter));
}

#[test]
fn bare_backslash_is_illegal_character() {
    let (failed, _, lx) = scan("\\");
    assert!(failed);
    assert_eq!(lx.error, Some(LexErrorKind::IllegalCharacter));
}

#[test]
fn punctuation_ends_a_run() {
    let (failed, toks, _) = scan("12;34");
    assert!(!failed);
    assert_eq!(toks.len(), 4);
    assert_eq!(toks[0].kind, Tokens::INTEGER("12".to_string()));
    assert_eq!(toks[1].kind, Tokens::SEMICOLON);
    assert_eq!(toks[2].kind, Tokens::INTEGER("34".to_string()));
    assert_eq!(toks[3].kind, Tokens::EOF);
}

#[test]
fn token_texts_recover_non_whitespace_source() {
    let src = "foo 12\t(bar9 , x)\n{y} ;";
    let (failed, toks, _) = scan(src);
    assert!(!failed);
    let mut joined = String::new();
    for t in toks.iter() {
        joined.push_str(&text_of(&t.kind));
    }
    let stripped: String = src
        .chars()
        .filter(|c| *c != ' ' && *c != '\t' && *c != '\n' && *c != '\r')
        .collect();
    assert_eq!(joined, stripped);
}

#[test]
fn positions_chain_through_tokens() {
    let (failed, toks, _) = scan("ab 12");
    assert!(!failed);
    assert_eq!(toks.len(), 3);
    assert_eq!(toks[0].kind, Tokens::IDENTIFIER("ab".to_string()));
    assert_eq!(toks[0].position_start.index, 0);
    assert_eq!(toks[0].position_end.index, 2);
    assert_eq!(toks[1].kind, Tokens::INTEGER("12".to_string()));
    assert_eq!(toks[1].position_start.index, 3);
    assert_eq!(toks[1].position_end.index, 5);
    assert_eq!(toks[2].kind, Tokens::EOF);
    assert_eq!(toks[2].position_start.index, 5);
    assert_eq!(toks[2].position_end.index, 5);
}

#[test]
fn eof_after_trailing_whitespace_anchors_at_last_token_end() {
    let (failed, toks, _) = scan("a ");
    assert!(!failed);
    assert_eq!(toks.len(), 2);
    assert_eq!(toks[1].kind, Tokens::EOF);
    assert_eq!(toks[1].position_start.index, 1);
    assert_eq!(toks[1].position_end.index, 2);
}

#[test]
fn whitespace_only_input_anchors_eof_at_exhausted_cursor() {
    let (failed, toks, _) = scan("   ");
    assert!(!failed);
    assert_eq!(toks.len(), 1);
    assert_eq!(toks[0].kind, Tokens::EOF);
    assert_eq!(toks[0].position_start.index, 3);
    assert_eq!(toks[0].position_end.index, 3);
}

#[test]
fn newline_resets_index_and_column_and_bumps_lineno() {
    let (failed, toks, _) = scan("a\nb");
    assert!(!failed);
    assert_eq!(toks.len(), 3);
    assert_eq!(toks[1].kind, Tokens::IDENTIFIER("b".to_string()));
    assert_eq!(toks[1].position_start.index, 0);
    assert_eq!(toks[1].position_start.lineno, 1);
    assert_eq!(toks[1].position_start.column, 0);
}

#[test]
fn starting_line_number_offsets_positions() {
    let mut lx = Lexer::new("test.txt".to_string(), "x".to_string(), 7);
    let failed = lx.run();
    assert!(!failed);
    let toks = lx.copy_tokens();
    assert_eq!(toks[0].position_start.lineno, 7);
}

#[test]
fn underscore_starts_an_identifier() {
    let (failed, toks, _) = scan("_a1");
    assert!(!failed);
    assert_eq!(toks[0].kind, Tokens::IDENTIFIER("_a1".to_string()));
}

#[test]
fn carriage_return_is_whitespace() {
    let (failed, toks, _) = scan("a\rb");
    assert!(!failed);
    assert_eq!(toks.len(), 3);
    assert_eq!(toks[0].kind, Tokens::IDENTIFIER("a".to_string()));
    assert_eq!(toks[1].kind, Tokens::IDENTIFIER("b".to_string()));
    // a carriage return is consumed as a same-line step
    assert_eq!(toks[1].position_start.lineno, 0);
    assert_eq!(toks[1].position_start.index, 2);
}

#[test]
fn crlf_line_endings_strip_the_carriage_return_from_line_text() {
    let (failed, toks, _) = scan("a\r\nb");
    assert!(!failed);
    assert_eq!(toks.len(), 3);
    assert_eq!(toks[0].linetext, "a");
    assert_eq!(toks[1].kind, Tokens::IDENTIFIER("b".to_string()));
    assert_eq!(toks[1].linetext, "b");
    assert_eq!(toks[1].position_start.lineno, 1);
}

#[test]
fn copy_tokens_returns_an_independent_copy() {
    let (_, toks, lx) = scan("a");
    drop(lx);
    assert_eq!(toks.len(), 2);
    assert_eq!(toks[0].kind, Tokens::IDENTIFIER("a".to_string()));
}

#[test]
fn tokens_and_position_copies_equal_their_originals() {
    let (_, toks, _) = scan("ab;");
    let t: &Token = &toks[0];
    let c = t.copy();
    assert_eq!(c.kind, t.kind);
    assert_eq!(c.filename, t.filename);
    assert_eq!(c.linetext, t.linetext);
    assert_eq!(c.position_start, t.position_start);
    assert_eq!(c.position_end, t.position_end);
    let p = t.position_start.copy();
    assert_eq!(p, t.position_start);
}

#[test]
fn error_marker_token_is_appended_on_failure() {
    let (failed, toks, _) = scan("123@");
    assert!(failed);
    assert_eq!(toks.len(), 1);
    assert_eq!(toks[0].kind, Tokens::EOF);
    assert_eq!(toks[0].position_start.index, 3);
    assert_eq!(toks[0].position_end.index, 3);
}

#[test]
fn tokens_carry_filename_and_line_text() {
    let (_, toks, _) = scan("ab");
    assert_eq!(toks[0].filename, "test.txt");
    assert_eq!(toks[0].linetext, "ab");
}
