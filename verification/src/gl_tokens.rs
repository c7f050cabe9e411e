use vstd::prelude::*;

verus! {

// Character classification tables of the scanner, written as predicates over
// `char`, together with the run-measuring spec functions that the scanner's
// contracts are stated with.
pub open spec fn spec_is_digit(c: char) -> bool {
    '0' as u32 <= c as u32 && c as u32 <= '9' as u32
}

pub open spec fn spec_is_letter(c: char) -> bool {
    ||| 'a' as u32 <= c as u32 && c as u32 <= 'z' as u32
    ||| 'A' as u32 <= c as u32 && c as u32 <= 'Z' as u32
    ||| c == '_'
}

pub open spec fn spec_is_letter_or_digit(c: char) -> bool {
    spec_is_letter(c) || spec_is_digit(c)
}

/// The punctuation table holds exactly the six characters the scanner emits
/// tokens for, so no punctuation is ever consumed silently: any other mark
/// reaches the scanner's illegal-character error instead.
pub open spec fn spec_is_punctuation(c: char) -> bool {
    c == ';' || c == '(' || c == ')' || c == ',' || c == '{' || c == '}'
}

pub open spec fn spec_is_space(c: char) -> bool {
    c == ' ' || c == '\t' || c == '\n' || c == '\r'
}

/// A token-start character is one that can itself begin some token class.
/// The scanner uses this only to choose between its two error kinds.
pub open spec fn spec_is_token_start(c: char) -> bool {
    spec_is_digit(c) || spec_is_letter(c) || spec_is_punctuation(c) || c == '"'
}

pub fn is_digit(c: char) -> (r: bool)
    ensures
        r == spec_is_digit(c),
{
    let u = c as u32;
    '0' as u32 <= u && u <= '9' as u32
}

pub fn is_letter(c: char) -> (r: bool)
    ensures
        r == spec_is_letter(c),
{
    let u = c as u32;
    ('a' as u32 <= u && u <= 'z' as u32) || ('A' as u32 <= u && u <= 'Z' as u32) || c == '_'
}

pub fn is_letter_or_digit(c: char) -> (r: bool)
    ensures
        r == spec_is_letter_or_digit(c),
{
    is_letter(c) || is_digit(c)
}

pub fn is_punctuation(c: char) -> (r: bool)
    ensures
        r == spec_is_punctuation(c),
{
    c == ';' || c == '(' || c == ')' || c == ',' || c == '{' || c == '}'
}

pub fn is_space(c: char) -> (r: bool)
    ensures
        r == spec_is_space(c),
{
    c == ' ' || c == '\t' || c == '\n' || c == '\r'
}

pub fn is_token(c: char) -> (r: bool)
    ensures
        r == spec_is_token_start(c),
{
    is_digit(c) || is_letter(c) || is_punctuation(c) || c == '"'
}

/// First index at or after `i` that does not hold a digit (or `s.len()`).
pub open spec fn digit_run_end(s: Seq<char>, i: int) -> int
    decreases s.len() - i,
{
    if i < s.len() && spec_is_digit(s[i]) {
        digit_run_end(s, i + 1)
    } else {
        i
    }
}

pub proof fn lemma_digit_run_end(s: Seq<char>, i: int)
    requires
        0 <= i <= s.len(),
    ensures
        i <= digit_run_end(s, i) <= s.len(),
        forall|k: int| i <= k < digit_run_end(s, i) ==> spec_is_digit(s[k]),
        digit_run_end(s, i) < s.len() ==> !spec_is_digit(s[digit_run_end(s, i)]),
    decreases s.len() - i,
{
    if i < s.len() && spec_is_digit(s[i]) {
        lemma_digit_run_end(s, i + 1);
    }
}

pub proof fn lemma_digit_run_end_is(s: Seq<char>, i: int, j: int)
    requires
        0 <= i <= j <= s.len(),
        forall|k: int| i <= k < j ==> spec_is_digit(s[k]),
        j == s.len() || !spec_is_digit(s[j]),
    ensures
        digit_run_end(s, i) == j,
    decreases j - i,
{
    if i < j {
        assert(spec_is_digit(s[i]));
        lemma_digit_run_end_is(s, i + 1, j);
    }
}

/// First index at or after `i` that holds neither a letter nor a digit.
pub open spec fn word_run_end(s: Seq<char>, i: int) -> int
    decreases s.len() - i,
{
    if i < s.len() && spec_is_letter_or_digit(s[i]) {
        word_run_end(s, i + 1)
    } else {
        i
    }
}

pub proof fn lemma_word_run_end(s: Seq<char>, i: int)
    requires
        0 <= i <= s.len(),
    ensures
        i <= word_run_end(s, i) <= s.len(),
        forall|k: int| i <= k < word_run_end(s, i) ==> spec_is_letter_or_digit(s[k]),
        word_run_end(s, i) < s.len() ==> !spec_is_letter_or_digit(s[word_run_end(s, i)]),
    decreases s.len() - i,
{
    if i < s.len() && spec_is_letter_or_digit(s[i]) {
        lemma_word_run_end(s, i + 1);
    }
}

pub proof fn lemma_word_run_end_is(s: Seq<char>, i: int, j: int)
    requires
        0 <= i <= j <= s.len(),
        forall|k: int| i <= k < j ==> spec_is_letter_or_digit(s[k]),
        j == s.len() || !spec_is_letter_or_digit(s[j]),
    ensures
        word_run_end(s, i) == j,
    decreases j - i,
{
    if i < j {
        assert(spec_is_letter_or_digit(s[i]));
        lemma_word_run_end_is(s, i + 1, j);
    }
}

/// The closed tag set of token kinds, with the recognized text carried by the
/// three classes that have one.
#[allow(non_camel_case_types)]
#[derive(Debug, PartialEq, Eq)]
pub enum Tokens {
    EOF,
    INTEGER(String),
    IDENTIFIER(String),
    STRING(String),
    SEMICOLON,
    LPAREN,
    RPAREN,
    COMMA,
    LBRACE,
    RBRACE,
}

/// Mathematical model of a token kind: the carried text as a `Seq<char>`.
#[allow(non_camel_case_types)]
pub enum SpecTokenKind {
    EOF,
    INTEGER(Seq<char>),
    IDENTIFIER(Seq<char>),
    STRING(Seq<char>),
    SEMICOLON,
    LPAREN,
    RPAREN,
    COMMA,
    LBRACE,
    RBRACE,
}

impl View for Tokens {
    type V = SpecTokenKind;

    open spec fn view(&self) -> SpecTokenKind {
        match self {
            Tokens::EOF => SpecTokenKind::EOF,
            Tokens::INTEGER(s) => SpecTokenKind::INTEGER(s@),
            Tokens::IDENTIFIER(s) => SpecTokenKind::IDENTIFIER(s@),
            Tokens::STRING(s) => SpecTokenKind::STRING(s@),
            Tokens::SEMICOLON => SpecTokenKind::SEMICOLON,
            Tokens::LPAREN => SpecTokenKind::LPAREN,
            Tokens::RPAREN => SpecTokenKind::RPAREN,
            Tokens::COMMA => SpecTokenKind::COMMA,
            Tokens::LBRACE => SpecTokenKind::LBRACE,
            Tokens::RBRACE => SpecTokenKind::RBRACE,
        }
    }
}

impl Tokens {
    /// An independent copy holding the same tag and text.
    pub fn copy(&self) -> (r: Tokens)
        ensures
            r == *self,
    {
        match self {
            Tokens::EOF => Tokens::EOF,
            Tokens::INTEGER(s) => Tokens::INTEGER(s.clone()),
            Tokens::IDENTIFIER(s) => Tokens::IDENTIFIER(s.clone()),
            Tokens::STRING(s) => Tokens::STRING(s.clone()),
            Tokens::SEMICOLON => Tokens::SEMICOLON,
            Tokens::LPAREN => Tokens::LPAREN,
            Tokens::RPAREN => Tokens::RPAREN,
            Tokens::COMMA => Tokens::COMMA,
            Tokens::LBRACE => Tokens::LBRACE,
            Tokens::RBRACE => Tokens::RBRACE,
        }
    }
}

} // verus!
