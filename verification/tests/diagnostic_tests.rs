use glex::gl_exception::{Exception, LexErrorKind};
use glex::gl_lexer::Lexer;
use glex::gl_token::Token;
use glex::gl_token_position::TokenPosition;
use glex::gl_tokens::Tokens;

fn token_at(linetext: &str, index: u32, lineno: u32, column: u32) -> Token {
    let p = TokenPosition::new(index, lineno, column);
    Token::new(
        Tokens::EOF,
        "f.txt".to_string(),
        linetext.to_string(),
        p,
        p.copy(),
    )
}

#[test]
fn diagnostic_has_the_four_line_shape() {
    let t = token_at("bad", 0, 0, 0);
    let e = Exception::new(t);
    let s = e.generate_exception_string("boom".to_string());
    assert_eq!(s, "  File \"f.txt\", line 1\n    bad\n    ^\nboom");
}

#[test]
fn diagnostic_points_the_caret_at_the_column() {
    let t = token_at("ab @", 3, 0, 3);
    let e = Exception::new(t);
    let s = e.generate_exception_string(String::new());
    assert_eq!(s, "  File \"f.txt\", line 1\n    ab @\n       ^\n");
}

#[test]
fn diagnostic_trims_leading_whitespace_and_shifts_the_caret() {
    let t = token_at("  xy", 3, 0, 3);
    let e = Exception::new(t);
    let s = e.generate_exception_string("d".to_string());
    assert_eq!(s, "  File \"f.txt\", line 1\n    xy\n     ^\nd");
}

#[test]
fn diagnostic_replaces_tabs_and_trims_them_as_whitespace() {
    let t = token_at("\tzz", 2, 0, 2);
    let e = Exception::new(t);
    let s = e.generate_exception_string(String::new());
    assert_eq!(s, "  File \"f.txt\", line 1\n    zz\n     ^\n");
}

#[test]
fn diagnostic_drops_trailing_line_ending_and_whitespace() {
    let t = token_at("ab \r\n", 0, 0, 0);
    let e = Exception::new(t);
    let s = e.generate_exception_string(String::new());
    assert_eq!(s, "  File \"f.txt\", line 1\n    ab\n    ^\n");
}

#[test]
fn diagnostic_shows_one_based_line_numbers() {
    let t = token_at("q", 0, 41, 0);
    let e = Exception::new(t);
    let s = e.generate_exception_string(String::new());
    assert_eq!(s, "  File \"f.txt\", line 42\n    q\n    ^\n");
}

#[test]
fn token_illegal_char_renders_its_fixed_detail() {
    let t = token_at("@", 0, 0, 0);
    let s = t.illegal_char();
    assert_eq!(s, "  File \"f.txt\", line 1\n    @\n    ^\nIllegal Character");
}

#[test]
fn token_invalid_syntax_renders_the_given_detail() {
    let t = token_at("1x", 1, 0, 1);
    let s = t.invalid_syntax("no separator".to_string());
    assert_eq!(s, "  File \"f.txt\", line 1\n    1x\n     ^\nno separator");
}

#[test]
fn lexer_diagnostic_for_illegal_character() {
    let mut lx = Lexer::new("in.txt".to_string(), "@".to_string(), 0);
    let failed = lx.run();
    assert!(failed);
    assert_eq!(lx.error, Some(LexErrorKind::IllegalCharacter));
    let d = lx.diagnostic().unwrap();
    assert_eq!(d, "  File \"in.txt\", line 1\n    @\n    ^\nIllegal Character");
}

#[test]
fn lexer_diagnostic_for_invalid_syntax_has_empty_detail() {
    let mut lx = Lexer::new("in.txt".to_string(), "12ab".to_string(), 0);
    let failed = lx.run();
    assert!(failed);
    assert_eq!(lx.error, Some(LexErrorKind::InvalidSyntax));
    let d = lx.diagnostic().unwrap();
    assert_eq!(d, "  File \"in.txt\", line 1\n    12ab\n      ^\n");
}

#[test]
fn lexer_diagnostic_on_a_later_line() {
    let mut lx = Lexer::new("in.txt".to_string(), "ok\n  @".to_string(), 0);
    let failed = lx.run();
    assert!(failed);
    let d = lx.diagnostic().unwrap();
    assert_eq!(d, "  File \"in.txt\", line 2\n    @\n    ^\nIllegal Character");
}

#[test]
fn lexer_diagnostic_is_none_without_an_error() {
    let mut lx = Lexer::new("in.txt".to_string(), "fine".to_string(), 0);
    let failed = lx.run();
    assert!(!failed);
    assert!(lx.diagnostic().is_none());
}

// When the scanner drifts off its stored line - here a string literal that
// spans lines puts the cursor on a later physical line than the diagnostic's
// stored text - the caret column can fall left of the trimmed line start, and
// no diagnostic can be rendered.
#[test]
fn lexer_diagnostic_is_none_when_the_caret_cannot_be_placed() {
    let mut lx = Lexer::new("in.txt".to_string(), "\"x\n  y\"\n@".to_string(), 0);
    let failed = lx.run();
    assert!(failed);
    assert_eq!(lx.error, Some(LexErrorKind::IllegalCharacter));
    assert!(lx.diagnostic().is_none());
}

#[test]
fn exception_keeps_its_token() {
    let t = token_at("zz", 0, 0, 0);
    let e = Exception::new(t);
    assert_eq!(e.token.linetext, "zz");
    assert_eq!(e.token.filename, "f.txt");
}
