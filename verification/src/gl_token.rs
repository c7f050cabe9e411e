use vstd::prelude::*;
use vstd::string::StringExecFns;

use crate::gl_exception::{spec_render, spec_renderable, Exception};
use crate::gl_token_position::{SpecPos, TokenPosition};
use crate::gl_tokens::{SpecTokenKind, Tokens};

verus! {

/// Mathematical model of a token: kind, originating filename, the full text
/// of the source line it sits on, and its start and end positions.
#[verifier::ext_equal]
pub struct SpecToken {
    pub kind: SpecTokenKind,
    pub filename: Seq<char>,
    pub linetext: Seq<char>,
    pub start: SpecPos,
    pub end: SpecPos,
}

pub open spec fn mk_token(
    kind: SpecTokenKind,
    filename: Seq<char>,
    linetext: Seq<char>,
    start: SpecPos,
    end: SpecPos,
) -> SpecToken {
    SpecToken { kind, filename, linetext, start, end }
}

/// A classified lexeme. It carries its kind, the filename it came from, the
/// verbatim text of the source line holding it (for diagnostics), and the
/// positions of its first character and of the cursor just past its last
/// consumed character.
#[derive(Debug)]
pub struct Token {
    pub kind: Tokens,
    pub filename: String,
    pub linetext: String,
    pub position_start: TokenPosition,
    pub position_end: TokenPosition,
}

impl View for Token {
    type V = SpecToken;

    open spec fn view(&self) -> SpecToken {
        SpecToken {
            kind: self.kind@,
            filename: self.filename@,
            linetext: self.linetext@,
            start: self.position_start@,
            end: self.position_end@,
        }
    }
}

impl DeepView for Token {
    type V = SpecToken;

    open spec fn deep_view(&self) -> SpecToken {
        self.view()
    }
}

impl Token {
    pub fn new(
        kind: Tokens,
        filename: String,
        linetext: String,
        position_start: TokenPosition,
        position_end: TokenPosition,
    ) -> (r: Token)
        ensures
            r.kind == kind,
            r.filename == filename,
            r.linetext == linetext,
            r.position_start == position_start,
            r.position_end == position_end,
    {
        Token { kind, filename, linetext, position_start, position_end }
    }

    /// An independent clone of this token.
    pub fn copy(&self) -> (r: Token)
        ensures
            r == *self,
    {
        Token {
            kind: self.kind.copy(),
            filename: self.filename.clone(),
            linetext: self.linetext.clone(),
            position_start: self.position_start.copy(),
            position_end: self.position_end.copy(),
        }
    }

    /// The rendered diagnostic for an illegal-character failure anchored at
    /// this token's position.
    pub fn illegal_char(&self) -> (r: String)
        requires
            spec_renderable(self@),
        ensures
            r@ == spec_render(self@, "Illegal Character"@),
    {
        Exception::new(self.copy()).generate_exception_string(String::from_str("Illegal Character"))
    }

    /// The rendered diagnostic for an invalid-syntax failure anchored at this
    /// token's position, with caller-supplied detail text.
    pub fn invalid_syntax(&self, error_details: String) -> (r: String)
        requires
            spec_renderable(self@),
        ensures
            r@ == spec_render(self@, error_details@),
    {
        Exception::new(self.copy()).generate_exception_string(error_details)
    }
}

} // verus!
