use vstd::prelude::*;
use vstd::string::StringExecFns;

use crate::gl_exception::{
    renderable, spec_error_detail, spec_render, spec_renderable, Exception, LexErrorKind,
};
use crate::gl_strings::{chars_of, push_char, split_lines, spec_lines};
use crate::gl_token::{mk_token, SpecToken, Token};
use crate::gl_token_position::{pos_newline, pos_step, SpecPos, TokenPosition};
use crate::gl_tokens::{
    digit_run_end, is_digit, is_letter, is_letter_or_digit, is_punctuation, is_space, is_token,
    lemma_digit_run_end,
    lemma_digit_run_end_is, lemma_word_run_end, lemma_word_run_end_is, spec_is_digit,
    spec_is_letter, spec_is_letter_or_digit, spec_is_punctuation, spec_is_space,
    spec_is_token_start, word_run_end, SpecTokenKind, Tokens,
};

verus! {

/// Mathematical model of the scanner's cursor: index of the current character
/// in the input, the current position, the index of the next stored line, and
/// the text of the current line.
#[verifier::ext_equal]
pub struct ScanSt {
    pub c: int,
    pub pos: SpecPos,
    pub li: int,
    pub curline: Seq<char>,
}

/// A same-line step: the next character becomes current, position moves right.
pub open spec fn plain_step(st: ScanSt) -> ScanSt {
    ScanSt { c: st.c + 1, pos: pos_step(st.pos, 1), li: st.li, curline: st.curline }
}

/// A line-crossing step: the newline is consumed, the position moves to the
/// start of the next line, and the next stored line becomes current.
pub open spec fn newline_step(st: ScanSt, lines: Seq<Seq<char>>) -> ScanSt {
    ScanSt {
        c: st.c + 1,
        pos: pos_newline(st.pos),
        li: if st.li < lines.len() {
            st.li + 1
        } else {
            st.li
        },
        curline: if st.li < lines.len() {
            lines[st.li]
        } else {
            st.curline
        },
    }
}

/// The escape flag after one string-body character: a backslash sets it; while
/// it is set, `n` leaves it set (preserved as observed behavior) and any other
/// character clears it.
pub open spec fn next_escape(esc: bool, c: char) -> bool {
    if esc {
        c == 'n'
    } else {
        c == '\\'
    }
}

/// Index of the unescaped closing quote of a string body starting at `i`, or
/// `s.len()` and beyond if the input ends first.
pub open spec fn str_body_end(s: Seq<char>, i: int, esc: bool) -> int
    decreases s.len() - i,
{
    if i < s.len() && (s[i] != '"' || esc) {
        str_body_end(s, i + 1, next_escape(esc, s[i]))
    } else {
        i
    }
}

pub proof fn lemma_str_body_end(s: Seq<char>, i: int, esc: bool)
    requires
        0 <= i <= s.len(),
    ensures
        i <= str_body_end(s, i, esc) <= s.len(),
    decreases s.len() - i,
{
    if i < s.len() && (s[i] != '"' || esc) {
        lemma_str_body_end(s, i + 1, next_escape(esc, s[i]));
    }
}

/// The decoded text of a string body: `\n` becomes a newline, any other
/// escaped character stands for itself, the backslash itself is dropped.
pub open spec fn str_decode(s: Seq<char>, i: int, esc: bool) -> Seq<char>
    decreases s.len() - i,
{
    if i < s.len() && (s[i] != '"' || esc) {
        if esc {
            if s[i] == 'n' {
                seq!['\n'] + str_decode(s, i + 1, true)
            } else {
                seq![s[i]] + str_decode(s, i + 1, false)
            }
        } else {
            if s[i] == '\\' {
                str_decode(s, i + 1, true)
            } else {
                seq![s[i]] + str_decode(s, i + 1, false)
            }
        }
    } else {
        Seq::empty()
    }
}

/// Count of newline characters at or after `i`.
pub open spec fn nl_count(s: Seq<char>, i: int) -> int
    decreases s.len() - i,
{
    if i < s.len() {
        (if s[i] == '\n' {
            1int
        } else {
            0int
        }) + nl_count(s, i + 1)
    } else {
        0
    }
}

pub proof fn lemma_nl_count(s: Seq<char>, i: int)
    requires
        0 <= i <= s.len(),
    ensures
        0 <= nl_count(s, i) <= s.len() - i,
    decreases s.len() - i,
{
    if i < s.len() {
        lemma_nl_count(s, i + 1);
    }
}

pub open spec fn spec_punct_kind(c: char) -> SpecTokenKind {
    if c == ';' {
        SpecTokenKind::SEMICOLON
    } else if c == '(' {
        SpecTokenKind::LPAREN
    } else if c == ')' {
        SpecTokenKind::RPAREN
    } else if c == ',' {
        SpecTokenKind::COMMA
    } else if c == '{' {
        SpecTokenKind::LBRACE
    } else {
        SpecTokenKind::RBRACE
    }
}

/// The error kind raised at a faulty character: invalid syntax when the
/// character could itself start a token, an illegal character otherwise.
pub open spec fn spec_error_kind(c: char) -> LexErrorKind {
    if spec_is_token_start(c) {
        LexErrorKind::InvalidSyntax
    } else {
        LexErrorKind::IllegalCharacter
    }
}

/// The scanner, as a mathematical function: from a cursor state, the sequence
/// of tokens still to be produced and the error that stops the scan, if any.
/// `last_end` is the end position of the last token produced so far; the
/// terminal EOF token is anchored there.
pub open spec fn scan_from(
    inp: Seq<char>,
    lines: Seq<Seq<char>>,
    fname: Seq<char>,
    st: ScanSt,
    last_end: Option<SpecPos>,
) -> (Seq<SpecToken>, Option<LexErrorKind>)
    decreases inp.len() - st.c,
    via scan_from_dec
{
    if !(0 <= st.c < inp.len()) {
        let start = match last_end {
            Option::Some(p) => p,
            Option::None => st.pos,
        };
        (seq![mk_token(SpecTokenKind::EOF, fname, st.curline, start, st.pos)], None)
    } else {
        let ch = inp[st.c];
        if spec_is_space(ch) {
            if ch == '\n' {
                scan_from(inp, lines, fname, newline_step(st, lines), last_end)
            } else {
                scan_from(inp, lines, fname, plain_step(st), last_end)
            }
        } else if spec_is_digit(ch) {
            let e = digit_run_end(inp, st.c);
            let p2 = pos_step(st.pos, e - st.c);
            if e < inp.len() && !spec_is_space(inp[e]) && !spec_is_punctuation(inp[e]) {
                (
                    seq![mk_token(SpecTokenKind::EOF, fname, st.curline, p2, p2)],
                    Some(spec_error_kind(inp[e])),
                )
            } else {
                let tok = mk_token(
                    SpecTokenKind::INTEGER(inp.subrange(st.c, e)),
                    fname,
                    st.curline,
                    st.pos,
                    p2,
                );
                let r = scan_from(
                    inp,
                    lines,
                    fname,
                    ScanSt { c: e, pos: p2, li: st.li, curline: st.curline },
                    Some(p2),
                );
                (seq![tok] + r.0, r.1)
            }
        } else if spec_is_letter(ch) {
            let e = word_run_end(inp, st.c);
            let p2 = pos_step(st.pos, e - st.c);
            if e < inp.len() && !spec_is_space(inp[e]) && !spec_is_punctuation(inp[e]) {
                (
                    seq![mk_token(SpecTokenKind::EOF, fname, st.curline, p2, p2)],
                    Some(spec_error_kind(inp[e])),
                )
            } else {
                let tok = mk_token(
                    SpecTokenKind::IDENTIFIER(inp.subrange(st.c, e)),
                    fname,
                    st.curline,
                    st.pos,
                    p2,
                );
                let r = scan_from(
                    inp,
                    lines,
                    fname,
                    ScanSt { c: e, pos: p2, li: st.li, curline: st.curline },
                    Some(p2),
                );
                (seq![tok] + r.0, r.1)
            }
        } else if spec_is_punctuation(ch) {
            let tok = mk_token(
                spec_punct_kind(ch),
                fname,
                st.curline,
                st.pos,
                pos_step(st.pos, 1),
            );
            let r = scan_from(inp, lines, fname, plain_step(st), Some(pos_step(st.pos, 1)));
            (seq![tok] + r.0, r.1)
        } else if ch == '"' {
            let e = str_body_end(inp, st.c + 1, false);
            if e >= inp.len() {
                let pe = pos_step(st.pos, inp.len() - st.c);
                (
                    seq![mk_token(SpecTokenKind::EOF, fname, st.curline, pe, pe)],
                    Some(LexErrorKind::InvalidSyntax),
                )
            } else {
                let p2 = pos_step(st.pos, e + 1 - st.c);
                if e + 1 < inp.len() && !spec_is_space(inp[e + 1]) && !spec_is_punctuation(
                    inp[e + 1],
                ) {
                    (
                        seq![mk_token(SpecTokenKind::EOF, fname, st.curline, p2, p2)],
                        Some(spec_error_kind(inp[e + 1])),
                    )
                } else {
                    let tok = mk_token(
                        SpecTokenKind::STRING(str_decode(inp, st.c + 1, false)),
                        fname,
                        st.curline,
                        st.pos,
                        p2,
                    );
                    let r = scan_from(
                        inp,
                        lines,
                        fname,
                        ScanSt { c: e + 1, pos: p2, li: st.li, curline: st.curline },
                        Some(p2),
                    );
                    (seq![tok] + r.0, r.1)
                }
            }
        } else {
            (
                seq![mk_token(SpecTokenKind::EOF, fname, st.curline, st.pos, st.pos)],
                Some(LexErrorKind::IllegalCharacter),
            )
        }
    }
}

#[via_fn]
proof fn scan_from_dec(
    inp: Seq<char>,
    lines: Seq<Seq<char>>,
    fname: Seq<char>,
    st: ScanSt,
    last_end: Option<SpecPos>,
) {
    if 0 <= st.c < inp.len() {
        let ch = inp[st.c];
        if spec_is_digit(ch) {
            lemma_digit_run_end(inp, st.c + 1);
        }
        if spec_is_letter(ch) {
            lemma_word_run_end(inp, st.c + 1);
        }
        if ch == '"' {
            lemma_str_body_end(inp, st.c + 1, false);
        }
    }
}

/// The cursor state a freshly built scanner starts from.
pub open spec fn init_scan_st(inp: Seq<char>, lines: Seq<Seq<char>>, lineno: int) -> ScanSt {
    ScanSt {
        c: 0,
        pos: SpecPos { index: 0, lineno, column: 0 },
        li: if lines.len() > 0 {
            1
        } else {
            0
        },
        curline: if lines.len() > 0 {
            lines[0]
        } else {
            inp
        },
    }
}

/// The scanner: walks the characters of one source text and accumulates the
/// token sequence, stopping at the first lexical error. The character buffer
/// is immutable; an advancing cursor marks the current character.
pub struct Lexer {
    filename: String,
    chars: Vec<char>,
    cursor: usize,
    linestext: Vec<String>,
    nextline: usize,
    pub position: TokenPosition,
    current_char: Option<char>,
    current_linetext: String,
    pub tokens: Vec<Token>,
    pub error: Option<LexErrorKind>,
}

impl Lexer {
    /// The characters of the source text being scanned.
    pub closed spec fn inp(self) -> Seq<char> {
        self.chars@
    }

    /// The stored lines of the source text.
    pub closed spec fn lines_view(self) -> Seq<Seq<char>> {
        self.linestext.deep_view()
    }

    pub closed spec fn fname(self) -> Seq<char> {
        self.filename@
    }

    /// The scanner's cursor state, as the model the contracts speak of.
    pub closed spec fn st(self) -> ScanSt {
        ScanSt {
            c: self.cursor as int,
            pos: self.position@,
            li: self.nextline as int,
            curline: self.current_linetext@,
        }
    }

    /// Structural well-formedness: the cursor stays within the buffer, the
    /// current character is the one under the cursor, and the next-line mark
    /// stays within the stored lines.
    pub closed spec fn wf_basic(self) -> bool {
        &&& self.cursor <= self.chars@.len()
        &&& self.current_char == (if (self.cursor as int) < self.chars@.len() {
            Some(self.chars@[self.cursor as int])
        } else {
            None::<char>
        })
        &&& self.nextline <= self.linestext@.len()
    }

    /// Arithmetic headroom: position counters cannot overflow while the rest
    /// of the input is consumed.
    pub closed spec fn fits(self) -> bool {
        &&& self.position.index as int + (self.chars@.len() - self.cursor as int) <= u32::MAX
            as int
        &&& self.position.column as int + (self.chars@.len() - self.cursor as int) <= u32::MAX
            as int
        &&& self.position.lineno as int + nl_count(self.chars@, self.cursor as int) + 1
            <= u32::MAX as int
    }

    pub closed spec fn wf(self) -> bool {
        self.wf_basic() && self.fits()
    }

    /// The token sequence accumulated so far.
    pub closed spec fn toks(self) -> Seq<Token> {
        self.tokens@
    }

    /// The recorded error kind, if the scan has failed.
    pub closed spec fn err(self) -> Option<LexErrorKind> {
        self.error
    }

    /// End position of the last token produced so far, if any.
    pub closed spec fn last_end(self) -> Option<SpecPos> {
        if self.tokens@.len() == 0 {
            None
        } else {
            Some(self.tokens@.last()@.end)
        }
    }

    fn advance_position(&mut self)
        requires
            old(self).position.index < u32::MAX,
            old(self).position.column < u32::MAX,
        ensures
            final(self).position.index == old(self).position.index + 1,
            final(self).position.column == old(self).position.column + 1,
            final(self).position.lineno == old(self).position.lineno,
            final(self).filename == old(self).filename,
            final(self).chars == old(self).chars,
            final(self).cursor == old(self).cursor,
            final(self).linestext == old(self).linestext,
            final(self).nextline == old(self).nextline,
            final(self).current_char == old(self).current_char,
            final(self).current_linetext == old(self).current_linetext,
            final(self).tokens == old(self).tokens,
            final(self).error == old(self).error,
    {
        self.position.index = self.position.index + 1;
        self.position.column = self.position.column + 1;
    }

    fn advance_char(&mut self)
        requires
            old(self).wf_basic(),
        ensures
            final(self).wf_basic(),
            final(self).cursor as int == (if (old(self).cursor as int) < old(self).chars@.len() {
                old(self).cursor as int + 1
            } else {
                old(self).cursor as int
            }),
            final(self).filename == old(self).filename,
            final(self).chars == old(self).chars,
            final(self).linestext == old(self).linestext,
            final(self).nextline == old(self).nextline,
            final(self).position == old(self).position,
            final(self).current_linetext == old(self).current_linetext,
            final(self).tokens == old(self).tokens,
            final(self).error == old(self).error,
    {
        if self.cursor < self.chars.len() {
            self.cursor = self.cursor + 1;
        }
        if self.cursor < self.chars.len() {
            self.current_char = Some(self.chars[self.cursor]);
        } else {
            self.current_char = None;
        }
    }

    fn advance_linetext(&mut self)
        requires
            old(self).wf_basic(),
            old(self).position.lineno < u32::MAX,
        ensures
            final(self).wf_basic(),
            final(self).position@ == pos_newline(old(self).position@),
            final(self).nextline as int == (if (old(self).nextline as int) < old(
                self,
            ).linestext@.len() {
                old(self).nextline as int + 1
            } else {
                old(self).nextline as int
            }),
            final(self).current_linetext@ == (if (old(self).nextline as int) < old(
                self,
            ).linestext@.len() {
                old(self).lines_view()[old(self).nextline as int]
            } else {
                old(self).current_linetext@
            }),
            final(self).filename == old(self).filename,
            final(self).chars == old(self).chars,
            final(self).cursor == old(self).cursor,
            final(self).current_char == old(self).current_char,
            final(self).linestext == old(self).linestext,
            final(self).tokens == old(self).tokens,
            final(self).error == old(self).error,
    {
        self.position.lineno = self.position.lineno + 1;
        self.position.index = 0;
        self.position.column = 0;
        if self.nextline < self.linestext.len() {
            self.current_linetext = self.linestext[self.nextline].clone();
            self.nextline = self.nextline + 1;
        }
    }

    fn advance(&mut self)
        requires
            old(self).wf_basic(),
            old(self).position.index < u32::MAX,
            old(self).position.column < u32::MAX,
        ensures
            final(self).wf_basic(),
            final(self).position@ == pos_step(old(self).position@, 1),
            final(self).cursor as int == (if (old(self).cursor as int) < old(self).chars@.len() {
                old(self).cursor as int + 1
            } else {
                old(self).cursor as int
            }),
            final(self).filename == old(self).filename,
            final(self).chars == old(self).chars,
            final(self).linestext == old(self).linestext,
            final(self).nextline == old(self).nextline,
            final(self).current_linetext == old(self).current_linetext,
            final(self).tokens == old(self).tokens,
            final(self).error == old(self).error,
    {
        self.advance_position();
        self.advance_char();
    }

    fn build_new_token(&mut self, typer: Tokens, pos_start: TokenPosition) -> (token: Token)
        ensures
            token@ == mk_token(
                typer@,
                old(self).filename@,
                old(self).current_linetext@,
                pos_start@,
                old(self).position@,
            ),
            final(self).tokens@ == old(self).tokens@.push(token),
            final(self).filename == old(self).filename,
            final(self).chars == old(self).chars,
            final(self).cursor == old(self).cursor,
            final(self).linestext == old(self).linestext,
            final(self).nextline == old(self).nextline,
            final(self).position == old(self).position,
            final(self).current_char == old(self).current_char,
            final(self).current_linetext == old(self).current_linetext,
            final(self).error == old(self).error,
    {
        let pos_end: TokenPosition = self.position.copy();
        let token: Token = Token::new(
            typer,
            self.filename.clone(),
            self.current_linetext.clone(),
            pos_start,
            pos_end,
        );
        self.tokens.push(token.copy());
        token
    }

    /// Records an illegal-character failure: a terminal EOF marker token is
    /// appended at the current position, the scanner skips past the current
    /// line, and the error kind is kept for rendering on demand.
    fn illegal_char(&mut self)
        requires
            old(self).wf_basic(),
            old(self).position.lineno < u32::MAX,
        ensures
            final(self).wf_basic(),
            final(self).tokens.deep_view() == old(self).tokens.deep_view().push(
                mk_token(
                    SpecTokenKind::EOF,
                    old(self).filename@,
                    old(self).current_linetext@,
                    old(self).position@,
                    old(self).position@,
                ),
            ),
            final(self).error == Some(LexErrorKind::IllegalCharacter),
            final(self).position@ == pos_newline(old(self).position@),
            final(self).nextline as int == (if (old(self).nextline as int) < old(
                self,
            ).linestext@.len() {
                old(self).nextline as int + 1
            } else {
                old(self).nextline as int
            }),
            final(self).current_linetext@ == (if (old(self).nextline as int) < old(
                self,
            ).linestext@.len() {
                old(self).lines_view()[old(self).nextline as int]
            } else {
                old(self).current_linetext@
            }),
            final(self).filename == old(self).filename,
            final(self).chars == old(self).chars,
            final(self).cursor == old(self).cursor,
            final(self).current_char == old(self).current_char,
            final(self).linestext == old(self).linestext,
    {
        let pos_start: TokenPosition = self.position.copy();
        self.build_new_token(Tokens::EOF, pos_start);
        self.advance_linetext();
        self.error = Some(LexErrorKind::IllegalCharacter);
        proof {
            assert(self.tokens.deep_view() =~= old(self).tokens.deep_view().push(
                mk_token(
                    SpecTokenKind::EOF,
                    old(self).filename@,
                    old(self).current_linetext@,
                    old(self).position@,
                    old(self).position@,
                ),
            ));
        }
    }

    /// Records an invalid-syntax failure, in the same way.
    fn invalid_syntax(&mut self)
        requires
            old(self).wf_basic(),
            old(self).position.lineno < u32::MAX,
        ensures
            final(self).wf_basic(),
            final(self).tokens.deep_view() == old(self).tokens.deep_view().push(
                mk_token(
                    SpecTokenKind::EOF,
                    old(self).filename@,
                    old(self).current_linetext@,
                    old(self).position@,
                    old(self).position@,
                ),
            ),
            final(self).error == Some(LexErrorKind::InvalidSyntax),
            final(self).position@ == pos_newline(old(self).position@),
            final(self).nextline as int == (if (old(self).nextline as int) < old(
                self,
            ).linestext@.len() {
                old(self).nextline as int + 1
            } else {
                old(self).nextline as int
            }),
            final(self).current_linetext@ == (if (old(self).nextline as int) < old(
                self,
            ).linestext@.len() {
                old(self).lines_view()[old(self).nextline as int]
            } else {
                old(self).current_linetext@
            }),
            final(self).filename == old(self).filename,
            final(self).chars == old(self).chars,
            final(self).cursor == old(self).cursor,
            final(self).current_char == old(self).current_char,
            final(self).linestext == old(self).linestext,
    {
        let pos_start: TokenPosition = self.position.copy();
        self.build_new_token(Tokens::EOF, pos_start);
        self.advance_linetext();
        self.error = Some(LexErrorKind::InvalidSyntax);
        proof {
            assert(self.tokens.deep_view() =~= old(self).tokens.deep_view().push(
                mk_token(
                    SpecTokenKind::EOF,
                    old(self).filename@,
                    old(self).current_linetext@,
                    old(self).position@,
                    old(self).position@,
                ),
            ));
        }
    }

    /// The models of the accumulated tokens, in order: the view of each
    /// token in `toks()`.
    pub open spec fn toks_model(self) -> Seq<SpecToken> {
        Seq::new(self.toks().len(), |i: int| self.toks()[i]@)
    }

    fn cur_is_digit(&self) -> (r: bool)
        requires
            self.wf_basic(),
        ensures
            r == (self.st().c < self.inp().len() && spec_is_digit(self.inp()[self.st().c])),
    {
        match self.current_char {
            Some(x) => is_digit(x),
            None => false,
        }
    }

    fn cur_is_word(&self) -> (r: bool)
        requires
            self.wf_basic(),
        ensures
            r == (self.st().c < self.inp().len() && spec_is_letter_or_digit(
                self.inp()[self.st().c],
            )),
    {
        match self.current_char {
            Some(x) => is_letter_or_digit(x),
            None => false,
        }
    }

    fn cur_is_quote(&self) -> (r: bool)
        requires
            self.wf_basic(),
        ensures
            r == (self.st().c < self.inp().len() && self.inp()[self.st().c] == '"'),
    {
        match self.current_char {
            Some(x) => x == '"',
            None => false,
        }
    }

    fn cur_in_body(&self, escape_character: bool) -> (r: bool)
        requires
            self.wf_basic(),
        ensures
            r == (self.st().c < self.inp().len() && (self.inp()[self.st().c] != '"'
                || escape_character)),
    {
        match self.current_char {
            Some(x) => x != '"' || escape_character,
            None => false,
        }
    }

    /// True when the character after a completed run can not legally follow
    /// it: it exists and is neither whitespace nor punctuation.
    fn at_bad_boundary(&self) -> (r: bool)
        requires
            self.wf_basic(),
        ensures
            r == (self.st().c < self.inp().len() && !spec_is_space(self.inp()[self.st().c])
                && !spec_is_punctuation(self.inp()[self.st().c])),
    {
        match self.current_char {
            Some(x) => !is_space(x) && !is_punctuation(x),
            None => false,
        }
    }

    /// One step of the main recognition loop: consumes whitespace or one
    /// lexeme and recurses, emits the terminal EOF token, or records the first
    /// lexical error. Returns true exactly when the scan failed.
    #[verifier::rlimit(100)]
    fn make_next_token(&mut self) -> (failed: bool)
        requires
            old(self).wf(),
        ensures
            final(self).wf_basic(),
            !failed ==> final(self).wf(),
            final(self).chars == old(self).chars,
            final(self).filename == old(self).filename,
            final(self).linestext == old(self).linestext,
            ({
                let r = scan_from(
                    old(self).inp(),
                    old(self).lines_view(),
                    old(self).fname(),
                    old(self).st(),
                    old(self).last_end(),
                );
                &&& final(self).tokens.deep_view() == old(self).tokens.deep_view() + r.0
                &&& failed == (r.1 is Some)
                &&& final(self).error == (if r.1 is Some {
                    r.1
                } else {
                    old(self).error
                })
            }),
        decreases old(self).chars@.len() - old(self).cursor,
    {
        let ghost inp = self.chars@;
        let ghost lines = self.linestext.deep_view();
        let ghost fname = self.filename@;
        let ghost st0 = self.st();
        let ghost le0 = self.last_end();
        let ghost r0 = scan_from(inp, lines, fname, st0, le0);

        let pos_start: TokenPosition = self.position.copy();

        if self.current_char.is_none() {
            if self.tokens.len() > 0 {
                let anchor = self.tokens[self.tokens.len() - 1].position_end.copy();
                self.build_new_token(Tokens::EOF, anchor);
            } else {
                self.build_new_token(Tokens::EOF, pos_start);
            }
            proof {
                assert(self.tokens.deep_view() =~= old(self).tokens.deep_view() + r0.0);
            }
            return false;
        }
        let c = self.current_char.unwrap();
        if is_space(c) {
            if c == '\n' {
                proof {
                    lemma_nl_count(inp, st0.c + 1);
                }
                self.advance_linetext();
                self.advance_char();
                proof {
                    assert(self.st() =~= newline_step(st0, lines));
                }
            } else {
                self.advance();
                proof {
                    lemma_nl_count(inp, st0.c + 1);
                    assert(self.st() =~= plain_step(st0));
                }
            }
            proof {
                assert(self.last_end() == le0);
                assert(r0 == scan_from(inp, lines, fname, self.st(), self.last_end()));
                assert(self.wf());
            }
        } else if is_digit(c) {
            let ghost c0 = st0.c;
            let mut number_string = String::new();
            proof {
                assert(number_string@ =~= inp.subrange(c0, c0));
            }
            while self.cur_is_digit()
                invariant
                    self.wf(),
                    self.chars == old(self).chars,
                    self.chars@ == inp,
                    self.filename == old(self).filename,
                    self.linestext == old(self).linestext,
                    self.tokens == old(self).tokens,
                    self.error == old(self).error,
                    self.nextline as int == st0.li,
                    self.current_linetext@ == st0.curline,
                    0 <= c0 <= self.cursor as int <= inp.len(),
                    forall|k: int| c0 <= k < self.cursor as int ==> spec_is_digit(inp[k]),
                    self.position@ == pos_step(st0.pos, self.cursor as int - c0),
                    number_string@ == inp.subrange(c0, self.cursor as int),
                decreases inp.len() - self.cursor,
            {
                let ghost pre = self.cursor as int;
                let d = self.current_char.unwrap();
                push_char(&mut number_string, d);
                self.advance();
                proof {
                    lemma_nl_count(inp, pre + 1);
                    assert(nl_count(inp, pre) >= nl_count(inp, pre + 1));
                    assert(number_string@ =~= inp.subrange(c0, self.cursor as int));
                }
            }
            proof {
                lemma_digit_run_end_is(inp, c0, self.cursor as int);
            }
            let ghost e = self.cursor as int;
            let ghost p2 = pos_step(st0.pos, e - c0);
            if self.at_bad_boundary() {
                proof {
                    lemma_nl_count(inp, e);
                }
                if is_token(self.current_char.unwrap()) {
                    self.invalid_syntax();
                } else {
                    self.illegal_char();
                }
                proof {
                    assert(r0.0 =~= seq![
                        mk_token(SpecTokenKind::EOF, fname, st0.curline, p2, p2),
                    ]);
                    assert(self.tokens.deep_view() =~= old(self).tokens.deep_view() + r0.0);
                }
                return true;
            }
            self.build_new_token(Tokens::INTEGER(number_string), pos_start);
            proof {
                let tok = mk_token(
                    SpecTokenKind::INTEGER(inp.subrange(c0, e)),
                    fname,
                    st0.curline,
                    st0.pos,
                    p2,
                );
                assert(self.st() =~= ScanSt { c: e, pos: p2, li: st0.li, curline: st0.curline });
                assert(self.tokens.deep_view() =~= old(self).tokens.deep_view() + seq![tok]);
                assert(self.last_end() == Some(p2));
                assert(r0.0 =~= seq![tok] + scan_from(
                    inp,
                    lines,
                    fname,
                    self.st(),
                    self.last_end(),
                ).0);
                assert(r0.1 == scan_from(inp, lines, fname, self.st(), self.last_end()).1);
            }
        } else if is_letter(c) {
            let ghost c0 = st0.c;
            let mut identifier_string = String::new();
            proof {
                assert(identifier_string@ =~= inp.subrange(c0, c0));
            }
            while self.cur_is_word()
                invariant
                    self.wf(),
                    self.chars == old(self).chars,
                    self.chars@ == inp,
                    self.filename == old(self).filename,
                    self.linestext == old(self).linestext,
                    self.tokens == old(self).tokens,
                    self.error == old(self).error,
                    self.nextline as int == st0.li,
                    self.current_linetext@ == st0.curline,
                    0 <= c0 <= self.cursor as int <= inp.len(),
                    forall|k: int| c0 <= k < self.cursor as int ==> spec_is_letter_or_digit(inp[k]),
                    self.position@ == pos_step(st0.pos, self.cursor as int - c0),
                    identifier_string@ == inp.subrange(c0, self.cursor as int),
                decreases inp.len() - self.cursor,
            {
                let ghost pre = self.cursor as int;
                let d = self.current_char.unwrap();
                push_char(&mut identifier_string, d);
                self.advance();
                proof {
                    lemma_nl_count(inp, pre + 1);
                    assert(nl_count(inp, pre) >= nl_count(inp, pre + 1));
                    assert(identifier_string@ =~= inp.subrange(c0, self.cursor as int));
                }
            }
            proof {
                lemma_word_run_end_is(inp, c0, self.cursor as int);
            }
            let ghost e = self.cursor as int;
            let ghost p2 = pos_step(st0.pos, e - c0);
            if self.at_bad_boundary() {
                proof {
                    lemma_nl_count(inp, e);
                }
                if is_token(self.current_char.unwrap()) {
                    self.invalid_syntax();
                } else {
                    self.illegal_char();
                }
                proof {
                    assert(r0.0 =~= seq![
                        mk_token(SpecTokenKind::EOF, fname, st0.curline, p2, p2),
                    ]);
                    assert(self.tokens.deep_view() =~= old(self).tokens.deep_view() + r0.0);
                }
                return true;
            }
            self.build_new_token(Tokens::IDENTIFIER(identifier_string), pos_start);
            proof {
                let tok = mk_token(
                    SpecTokenKind::IDENTIFIER(inp.subrange(c0, e)),
                    fname,
                    st0.curline,
                    st0.pos,
                    p2,
                );
                assert(self.st() =~= ScanSt { c: e, pos: p2, li: st0.li, curline: st0.curline });
                assert(self.tokens.deep_view() =~= old(self).tokens.deep_view() + seq![tok]);
                assert(self.last_end() == Some(p2));
                assert(r0.0 =~= seq![tok] + scan_from(
                    inp,
                    lines,
                    fname,
                    self.st(),
                    self.last_end(),
                ).0);
                assert(r0.1 == scan_from(inp, lines, fname, self.st(), self.last_end()).1);
            }
        } else if is_punctuation(c) {
            if c == ';' {
                self.advance();
                self.build_new_token(Tokens::SEMICOLON, pos_start);
            } else if c == '(' {
                self.advance();
                self.build_new_token(Tokens::LPAREN, pos_start);
            } else if c == ')' {
                self.advance();
                self.build_new_token(Tokens::RPAREN, pos_start);
            } else if c == ',' {
                self.advance();
                self.build_new_token(Tokens::COMMA, pos_start);
            } else if c == '{' {
                self.advance();
                self.build_new_token(Tokens::LBRACE, pos_start);
            } else {
                self.advance();
                self.build_new_token(Tokens::RBRACE, pos_start);
            }
            proof {
                lemma_nl_count(inp, st0.c + 1);
                let tok = mk_token(
                    spec_punct_kind(c),
                    fname,
                    st0.curline,
                    st0.pos,
                    pos_step(st0.pos, 1),
                );
                assert(self.st() =~= plain_step(st0));
                assert(self.tokens.deep_view() =~= old(self).tokens.deep_view() + seq![tok]);
                assert(self.last_end() == Some(pos_step(st0.pos, 1)));
                assert(self.wf());
                assert(r0.0 =~= seq![tok] + scan_from(
                    inp,
                    lines,
                    fname,
                    self.st(),
                    self.last_end(),
                ).0);
                assert(r0.1 == scan_from(inp, lines, fname, self.st(), self.last_end()).1);
            }
        } else if c == '"' {
            let ghost c0 = st0.c;
            let mut literal_string: String = String::new();
            let mut escape_character: bool = false;
            self.advance();
            proof {
                lemma_nl_count(inp, c0 + 1);
                assert(str_decode(inp, c0 + 1, false) =~= literal_string@ + str_decode(
                    inp,
                    self.cursor as int,
                    escape_character,
                ));
            }
            while self.cur_in_body(escape_character)
                invariant
                    self.wf(),
                    self.chars == old(self).chars,
                    self.chars@ == inp,
                    self.filename == old(self).filename,
                    self.linestext == old(self).linestext,
                    self.tokens == old(self).tokens,
                    self.error == old(self).error,
                    self.nextline as int == st0.li,
                    self.current_linetext@ == st0.curline,
                    0 <= c0 && c0 + 1 <= self.cursor as int <= inp.len(),
                    self.position@ == pos_step(st0.pos, self.cursor as int - c0),
                    str_body_end(inp, c0 + 1, false) == str_body_end(
                        inp,
                        self.cursor as int,
                        escape_character,
                    ),
                    str_decode(inp, c0 + 1, false) == literal_string@ + str_decode(
                        inp,
                        self.cursor as int,
                        escape_character,
                    ),
                decreases inp.len() - self.cursor,
            {
                let ghost pre = self.cursor as int;
                let ghost pre_esc = escape_character;
                let ghost pre_lit = literal_string@;
                let ch2 = self.current_char.unwrap();
                if escape_character {
                    if ch2 == 'n' {
                        push_char(&mut literal_string, '\n');
                    } else {
                        push_char(&mut literal_string, ch2);
                        escape_character = false;
                    }
                } else {
                    if ch2 == '\\' {
                        escape_character = true;
                    } else {
                        push_char(&mut literal_string, ch2);
                    }
                }
                self.advance();
                proof {
                    lemma_nl_count(inp, pre + 1);
                    assert(nl_count(inp, pre) >= nl_count(inp, pre + 1));
                    assert(escape_character == next_escape(pre_esc, inp[pre]));
                    assert(str_body_end(inp, pre, pre_esc) == str_body_end(
                        inp,
                        self.cursor as int,
                        escape_character,
                    ));
                    assert(str_decode(inp, pre, pre_esc) =~= (literal_string@.skip(
                        pre_lit.len() as int,
                    )) + str_decode(inp, self.cursor as int, escape_character));
                    assert(str_decode(inp, c0 + 1, false) =~= literal_string@ + str_decode(
                        inp,
                        self.cursor as int,
                        escape_character,
                    ));
                }
            }
            let ghost e = self.cursor as int;
            proof {
                assert(str_body_end(inp, e, escape_character) == e);
                assert(str_body_end(inp, c0 + 1, false) == e);
                assert(str_decode(inp, e, escape_character) =~= Seq::<char>::empty());
                assert(literal_string@ =~= str_decode(inp, c0 + 1, false));
            }
            if !self.cur_is_quote() {
                proof {
                    lemma_nl_count(inp, e);
                }
                self.invalid_syntax();
                proof {
                    let pe = pos_step(st0.pos, inp.len() - c0);
                    assert(r0.0 =~= seq![
                        mk_token(SpecTokenKind::EOF, fname, st0.curline, pe, pe),
                    ]);
                    assert(self.tokens.deep_view() =~= old(self).tokens.deep_view() + r0.0);
                }
                return true;
            }
            self.advance();
            let ghost p2 = pos_step(st0.pos, e + 1 - c0);
            if self.at_bad_boundary() {
                proof {
                    lemma_nl_count(inp, e + 1);
                }
                if is_token(self.current_char.unwrap()) {
                    self.invalid_syntax();
                } else {
                    self.illegal_char();
                }
                proof {
                    assert(r0.0 =~= seq![
                        mk_token(SpecTokenKind::EOF, fname, st0.curline, p2, p2),
                    ]);
                    assert(self.tokens.deep_view() =~= old(self).tokens.deep_view() + r0.0);
                }
                return true;
            }
            self.build_new_token(Tokens::STRING(literal_string), pos_start.copy());
            proof {
                lemma_nl_count(inp, e + 1);
                let tok = mk_token(
                    SpecTokenKind::STRING(str_decode(inp, c0 + 1, false)),
                    fname,
                    st0.curline,
                    st0.pos,
                    p2,
                );
                assert(self.st() =~= ScanSt {
                    c: e + 1,
                    pos: p2,
                    li: st0.li,
                    curline: st0.curline,
                });
                assert(self.tokens.deep_view() =~= old(self).tokens.deep_view() + seq![tok]);
                assert(self.last_end() == Some(p2));
                assert(self.wf());
                assert(r0.0 =~= seq![tok] + scan_from(
                    inp,
                    lines,
                    fname,
                    self.st(),
                    self.last_end(),
                ).0);
                assert(r0.1 == scan_from(inp, lines, fname, self.st(), self.last_end()).1);
            }
        } else {
            proof {
                lemma_nl_count(inp, st0.c);
            }
            self.illegal_char();
            proof {
                assert(r0.0 =~= seq![
                    mk_token(SpecTokenKind::EOF, fname, st0.curline, st0.pos, st0.pos),
                ]);
                assert(self.tokens.deep_view() =~= old(self).tokens.deep_view() + r0.0);
            }
            return true;
        }
        let failed = self.make_next_token();
        proof {
            assert(self.tokens.deep_view() =~= old(self).tokens.deep_view() + r0.0);
        }
        failed
    }

    /// Runs the scan to completion: true signals a lexical failure, false
    /// signals that the accumulated token sequence is valid and complete,
    /// ending with the terminal EOF token.
    pub fn run(&mut self) -> (failed: bool)
        requires
            old(self).wf(),
        ensures
            !failed ==> final(self).wf(),
            final(self).inp() == old(self).inp(),
            final(self).lines_view() == old(self).lines_view(),
            final(self).fname() == old(self).fname(),
            ({
                let r = scan_from(
                    old(self).inp(),
                    old(self).lines_view(),
                    old(self).fname(),
                    old(self).st(),
                    old(self).last_end(),
                );
                &&& final(self).toks_model() == old(self).toks_model() + r.0
                &&& failed == (r.1 is Some)
                &&& final(self).err() == (if r.1 is Some {
                    r.1
                } else {
                    old(self).err()
                })
            }),
    {
        let failed = self.make_next_token();
        proof {
            assert(self.toks_model() =~= self.tokens.deep_view());
            assert(old(self).toks_model() =~= old(self).tokens.deep_view());
        }
        if failed == true {
            return true;
        }
        return false;
    }

    /// The rendered diagnostic for the error that stopped the scan, if one
    /// was recorded: the scan left its error marker token as the last one
    /// accumulated, and the detail text follows the error kind. None when no
    /// error was recorded or the marker token cannot be rendered.
    pub fn diagnostic(&self) -> (r: Option<String>)
        ensures
            match self.err() {
                None => r is None,
                Some(kind) => {
                    if self.toks().len() == 0 {
                        r is None
                    } else if spec_renderable(self.toks().last()@) {
                        r matches Some(s) && s@ == spec_render(
                            self.toks().last()@,
                            spec_error_detail(kind),
                        )
                    } else {
                        r is None
                    }
                },
            },
    {
        match self.error {
            None => None,
            Some(kind) => {
                if self.tokens.len() == 0 {
                    return None;
                }
                let t = &self.tokens[self.tokens.len() - 1];
                if !renderable(t) {
                    return None;
                }
                let detail: String = match kind {
                    LexErrorKind::IllegalCharacter => String::from_str("Illegal Character"),
                    LexErrorKind::InvalidSyntax => String::new(),
                };
                Some(Exception::new(t.copy()).generate_exception_string(detail))
            },
        }
    }

    /// An independent copy of the token sequence accumulated so far.
    pub fn copy_tokens(&self) -> (result: Vec<Token>)
        ensures
            result@ == self.toks(),
            result.deep_view() == self.toks_model(),
    {
        let mut tokens: Vec<Token> = Vec::new();
        let mut i: usize = 0;
        while i < self.tokens.len()
            invariant
                i <= self.tokens@.len(),
                tokens@ == self.tokens@.take(i as int),
            decreases self.tokens@.len() - i,
        {
            tokens.push(self.tokens[i].copy());
            i = i + 1;
            proof {
                assert(tokens@ =~= self.tokens@.take(i as int));
            }
        }
        proof {
            assert(tokens@ =~= self.tokens@);
            assert(tokens.deep_view() =~= self.toks_model());
        }
        tokens
    }

    /// A scanner over `codetext`, reporting positions against `filename` and
    /// starting at line `lineno` (so fragments from mid-file scan correctly).
    /// The size bound keeps every position counter within `u32`.
    pub fn new(filename: String, codetext: String, lineno: u32) -> (lexer: Lexer)
        requires
            lineno as int + codetext@.len() + 1 <= u32::MAX as int,
        ensures
            lexer.wf(),
            lexer.inp() == codetext@,
            lexer.lines_view() == spec_lines(codetext@),
            lexer.fname() == filename@,
            lexer.toks().len() == 0,
            lexer.toks_model() == Seq::<SpecToken>::empty(),
            lexer.err() is None,
            lexer.st() == init_scan_st(codetext@, spec_lines(codetext@), lineno as int),
            lexer.last_end() is None,
    {
        let chars: Vec<char> = chars_of(codetext.as_str());
        let linestext: Vec<String> = split_lines(codetext.as_str());
        let position: TokenPosition = TokenPosition::new(0, lineno, 0);
        let current_char: Option<char> = if chars.len() > 0 {
            Some(chars[0])
        } else {
            None
        };
        let has_lines = linestext.len() > 0;
        let current_linetext: String = if has_lines {
            linestext[0].clone()
        } else {
            codetext
        };
        let nextline: usize = if has_lines {
            1
        } else {
            0
        };
        let lexer = Lexer {
            filename,
            chars,
            cursor: 0,
            linestext,
            nextline,
            position,
            current_char,
            current_linetext,
            tokens: Vec::new(),
            error: None,
        };
        proof {
            lemma_nl_count(lexer.chars@, 0);
            assert(lexer.toks_model() =~= Seq::<SpecToken>::empty());
            assert(lexer.st() =~= init_scan_st(
                lexer.chars@,
                spec_lines(lexer.chars@),
                lineno as int,
            ));
        }
        lexer
    }
}

/// The non-whitespace characters of the input at or after `i`, in order.
pub open spec fn strip_spaces(s: Seq<char>, i: int) -> Seq<char>
    decreases s.len() - i,
{
    if i < s.len() {
        if spec_is_space(s[i]) {
            strip_spaces(s, i + 1)
        } else {
            seq![s[i]] + strip_spaces(s, i + 1)
        }
    } else {
        Seq::empty()
    }
}

proof fn lemma_strip_run(s: Seq<char>, i: int, j: int)
    requires
        0 <= i <= j <= s.len(),
        forall|k: int| i <= k < j ==> !spec_is_space(s[k]),
    ensures
        strip_spaces(s, i) == s.subrange(i, j) + strip_spaces(s, j),
    decreases j - i,
{
    if i < j {
        lemma_strip_run(s, i + 1, j);
        assert(s.subrange(i, j) =~= seq![s[i]] + s.subrange(i + 1, j));
        assert(strip_spaces(s, i) =~= s.subrange(i, j) + strip_spaces(s, j));
    } else {
        assert(s.subrange(i, i) =~= Seq::<char>::empty());
        assert(strip_spaces(s, i) =~= s.subrange(i, i) + strip_spaces(s, i));
    }
}

/// The recognized text that one token contributes to the source.
pub open spec fn token_text(k: SpecTokenKind) -> Seq<char> {
    match k {
        SpecTokenKind::EOF => Seq::empty(),
        SpecTokenKind::INTEGER(s) => s,
        SpecTokenKind::IDENTIFIER(s) => s,
        SpecTokenKind::STRING(s) => s,
        SpecTokenKind::SEMICOLON => seq![';'],
        SpecTokenKind::LPAREN => seq!['('],
        SpecTokenKind::RPAREN => seq![')'],
        SpecTokenKind::COMMA => seq![','],
        SpecTokenKind::LBRACE => seq!['{'],
        SpecTokenKind::RBRACE => seq!['}'],
    }
}

/// The texts of a token sequence, concatenated in order.
pub open spec fn concat_texts(toks: Seq<SpecToken>) -> Seq<char>
    decreases toks.len(),
{
    if toks.len() == 0 {
        Seq::empty()
    } else {
        token_text(toks[0].kind) + concat_texts(toks.subrange(1, toks.len() as int))
    }
}

/// Law: on an input without string literals, a successful scan recovers the
/// source. Concatenating the scanned tokens' texts, in order, gives exactly
/// the non-whitespace source text. (A string literal's token text is the
/// decoded body - its quotes and escapes are dropped and it may itself hold
/// whitespace - so inputs holding a quote are left out of this statement.)
pub proof fn lemma_scan_covers_source(
    inp: Seq<char>,
    lines: Seq<Seq<char>>,
    fname: Seq<char>,
    st: ScanSt,
    last_end: Option<SpecPos>,
)
    requires
        0 <= st.c <= inp.len(),
        forall|k: int| st.c <= k < inp.len() ==> inp[k] != '"',
        scan_from(inp, lines, fname, st, last_end).1 is None,
    ensures
        concat_texts(scan_from(inp, lines, fname, st, last_end).0) == strip_spaces(inp, st.c),
    decreases inp.len() - st.c,
{
    let r = scan_from(inp, lines, fname, st, last_end);
    if st.c == inp.len() {
        assert(r.0[0].kind is EOF);
        assert(r.0.len() == 1);
        assert(r.0.subrange(1, r.0.len() as int) =~= Seq::<SpecToken>::empty());
        assert(concat_texts(r.0.subrange(1, r.0.len() as int)) =~= Seq::<char>::empty());
        assert(token_text(r.0[0].kind) =~= Seq::<char>::empty());
        assert(strip_spaces(inp, st.c) =~= Seq::<char>::empty());
        assert(concat_texts(r.0) =~= strip_spaces(inp, st.c));
    } else {
        let ch = inp[st.c];
        if spec_is_space(ch) {
            if ch == '\n' {
                lemma_scan_covers_source(inp, lines, fname, newline_step(st, lines), last_end);
            } else {
                lemma_scan_covers_source(inp, lines, fname, plain_step(st), last_end);
            }
        } else if spec_is_digit(ch) {
            let e = digit_run_end(inp, st.c);
            lemma_digit_run_end(inp, st.c);
            let st2 = ScanSt { c: e, pos: pos_step(st.pos, e - st.c), li: st.li, curline: st.curline };
            let rest = scan_from(inp, lines, fname, st2, Some(pos_step(st.pos, e - st.c)));
            lemma_scan_covers_source(inp, lines, fname, st2, Some(pos_step(st.pos, e - st.c)));
            assert(forall|k: int| st.c <= k < e ==> !spec_is_space(inp[k]));
            lemma_strip_run(inp, st.c, e);
            assert(r.0.subrange(1, r.0.len() as int) =~= rest.0);
            assert(concat_texts(r.0) =~= strip_spaces(inp, st.c));
        } else if spec_is_letter(ch) {
            let e = word_run_end(inp, st.c);
            lemma_word_run_end(inp, st.c);
            let st2 = ScanSt { c: e, pos: pos_step(st.pos, e - st.c), li: st.li, curline: st.curline };
            let rest = scan_from(inp, lines, fname, st2, Some(pos_step(st.pos, e - st.c)));
            lemma_scan_covers_source(inp, lines, fname, st2, Some(pos_step(st.pos, e - st.c)));
            assert(forall|k: int| st.c <= k < e ==> !spec_is_space(inp[k]));
            lemma_strip_run(inp, st.c, e);
            assert(r.0.subrange(1, r.0.len() as int) =~= rest.0);
            assert(concat_texts(r.0) =~= strip_spaces(inp, st.c));
        } else {
            assert(spec_is_punctuation(ch));
            let rest = scan_from(inp, lines, fname, plain_step(st), Some(pos_step(st.pos, 1)));
            lemma_scan_covers_source(inp, lines, fname, plain_step(st), Some(pos_step(st.pos, 1)));
            assert(token_text(spec_punct_kind(ch)) =~= seq![ch]);
            assert(r.0.subrange(1, r.0.len() as int) =~= rest.0);
            assert(concat_texts(r.0) =~= strip_spaces(inp, st.c));
        }
    }
}

/// How one token's end position relates to its start: an integer or an
/// identifier ends its own length to the right on the same line; a
/// punctuation token ends one character to the right; a string token ends at
/// least its two quotes to the right on the same line, with index and column
/// moving together.
pub open spec fn token_span_ok(t: SpecToken) -> bool {
    match t.kind {
        SpecTokenKind::EOF => true,
        SpecTokenKind::INTEGER(s) => t.end == pos_step(t.start, s.len() as int),
        SpecTokenKind::IDENTIFIER(s) => t.end == pos_step(t.start, s.len() as int),
        SpecTokenKind::STRING(_) => t.end.lineno == t.start.lineno && t.end.index >= t.start.index
            + 2 && t.end.index - t.start.index == t.end.column - t.start.column,
        _ => t.end == pos_step(t.start, 1),
    }
}

/// Law: in a successful scan, every non-EOF token ends where the cursor stood
/// just after its last consumed character, and the terminal EOF token - the
/// only EOF token, and always present - starts at the previous token's end
/// position, or, when no other token was produced, at its own zero-width end:
/// the cursor where the input ran out.
pub proof fn lemma_token_positions(
    inp: Seq<char>,
    lines: Seq<Seq<char>>,
    fname: Seq<char>,
    st: ScanSt,
    last_end: Option<SpecPos>,
)
    requires
        0 <= st.c <= inp.len(),
        scan_from(inp, lines, fname, st, last_end).1 is None,
    ensures
        ({
            let toks = scan_from(inp, lines, fname, st, last_end).0;
            &&& toks.len() >= 1
            &&& toks.last().kind is EOF
            &&& toks.last().start == (if toks.len() >= 2 {
                toks[toks.len() - 2].end
            } else {
                match last_end {
                    Option::Some(p) => p,
                    Option::None => toks.last().end,
                }
            })
            &&& forall|i: int| 0 <= i < toks.len() ==> #[trigger] token_span_ok(toks[i])
            &&& forall|i: int| 0 <= i < toks.len() - 1 ==> !((#[trigger] toks[i]).kind is EOF)
        }),
    decreases inp.len() - st.c,
{
    let toks = scan_from(inp, lines, fname, st, last_end).0;
    if st.c == inp.len() {
        assert(toks =~= seq![toks[0]]);
    } else {
        let ch = inp[st.c];
        if spec_is_space(ch) {
            if ch == '\n' {
                lemma_token_positions(inp, lines, fname, newline_step(st, lines), last_end);
            } else {
                lemma_token_positions(inp, lines, fname, plain_step(st), last_end);
            }
        } else if spec_is_digit(ch) || spec_is_letter(ch) {
            let e = if spec_is_digit(ch) {
                lemma_digit_run_end(inp, st.c);
                digit_run_end(inp, st.c)
            } else {
                lemma_word_run_end(inp, st.c);
                word_run_end(inp, st.c)
            };
            let p2 = pos_step(st.pos, e - st.c);
            let st2 = ScanSt { c: e, pos: p2, li: st.li, curline: st.curline };
            let rest = scan_from(inp, lines, fname, st2, Some(p2)).0;
            lemma_token_positions(inp, lines, fname, st2, Some(p2));
            assert(toks =~= seq![toks[0]] + rest);
            assert(forall|i: int| 1 <= i < toks.len() ==> toks[i] == rest[i - 1]);
            assert(token_span_ok(toks[0]));
            assert(toks[0].end == p2);
            assert(toks.last() == rest.last());
            if rest.len() >= 2 {
                assert(toks[toks.len() - 2] == rest[rest.len() - 2]);
            } else {
                assert(toks[toks.len() - 2] == toks[0]);
            }
            assert(forall|i: int| 0 <= i < toks.len() ==> #[trigger] token_span_ok(toks[i]));
            assert(forall|i: int|
                0 <= i < toks.len() - 1 ==> !((#[trigger] toks[i]).kind is EOF));
        } else if spec_is_punctuation(ch) {
            let p2 = pos_step(st.pos, 1);
            let rest = scan_from(inp, lines, fname, plain_step(st), Some(p2)).0;
            lemma_token_positions(inp, lines, fname, plain_step(st), Some(p2));
            assert(toks =~= seq![toks[0]] + rest);
            assert(forall|i: int| 1 <= i < toks.len() ==> toks[i] == rest[i - 1]);
            assert(token_span_ok(toks[0]));
            assert(toks[0].end == p2);
            assert(toks.last() == rest.last());
            if rest.len() >= 2 {
                assert(toks[toks.len() - 2] == rest[rest.len() - 2]);
            } else {
                assert(toks[toks.len() - 2] == toks[0]);
            }
            assert(forall|i: int| 0 <= i < toks.len() ==> #[trigger] token_span_ok(toks[i]));
            assert(forall|i: int|
                0 <= i < toks.len() - 1 ==> !((#[trigger] toks[i]).kind is EOF));
        } else {
            assert(ch == '"');
            let e = str_body_end(inp, st.c + 1, false);
            lemma_str_body_end(inp, st.c + 1, false);
            let p2 = pos_step(st.pos, e + 1 - st.c);
            let st2 = ScanSt { c: e + 1, pos: p2, li: st.li, curline: st.curline };
            let rest = scan_from(inp, lines, fname, st2, Some(p2)).0;
            lemma_token_positions(inp, lines, fname, st2, Some(p2));
            assert(toks =~= seq![toks[0]] + rest);
            assert(forall|i: int| 1 <= i < toks.len() ==> toks[i] == rest[i - 1]);
            assert(token_span_ok(toks[0]));
            assert(toks[0].end == p2);
            assert(toks.last() == rest.last());
            if rest.len() >= 2 {
                assert(toks[toks.len() - 2] == rest[rest.len() - 2]);
            } else {
                assert(toks[toks.len() - 2] == toks[0]);
            }
            assert(forall|i: int| 0 <= i < toks.len() ==> #[trigger] token_span_ok(toks[i]));
            assert(forall|i: int|
                0 <= i < toks.len() - 1 ==> !((#[trigger] toks[i]).kind is EOF));
        }
    }
}

} // verus!
