use vstd::prelude::*;
use vstd::string::StringExecFns;

use crate::gl_strings::{append_u32, chars_of, push_char, spec_dec};
use crate::gl_token::{SpecToken, Token};
use crate::gl_tokens::{is_space, spec_is_space};

verus! {

/// The two lexical error kinds. An IllegalCharacter is a character that
/// belongs to no recognized class and starts no token; an InvalidSyntax is a
/// completed run followed by a character that cannot legally follow it, or an
/// unterminated string literal.
#[derive(Debug, Clone, Copy, PartialEq, Eq, Structural)]
pub enum LexErrorKind {
    IllegalCharacter,
    InvalidSyntax,
}

/// The line with every tab replaced by a single space.
pub open spec fn spec_replace_tabs(s: Seq<char>) -> Seq<char> {
    s.map(
        |i: int, c: char|
            if c == '\t' {
                ' '
            } else {
                c
            },
    )
}

/// First index at or after `i` that holds no whitespace (or `s.len()`).
pub open spec fn space_run_end(s: Seq<char>, i: int) -> int
    decreases s.len() - i,
{
    if i < s.len() && spec_is_space(s[i]) {
        space_run_end(s, i + 1)
    } else {
        i
    }
}

pub proof fn lemma_space_run_end_is(s: Seq<char>, i: int, j: int)
    requires
        0 <= i <= j <= s.len(),
        forall|k: int| i <= k < j ==> spec_is_space(s[k]),
        j == s.len() || !spec_is_space(s[j]),
    ensures
        space_run_end(s, i) == j,
    decreases j - i,
{
    if i < j {
        assert(spec_is_space(s[i]));
        lemma_space_run_end_is(s, i + 1, j);
    }
}

/// Drops one trailing newline, then one trailing carriage return.
pub open spec fn spec_chop_line_end(s: Seq<char>) -> Seq<char> {
    let a = if s.len() > 0 && s[s.len() - 1] == '\n' {
        s.drop_last()
    } else {
        s
    };
    if a.len() > 0 && a[a.len() - 1] == '\r' {
        a.drop_last()
    } else {
        a
    }
}

/// Length of `s` once its trailing whitespace is removed.
pub open spec fn trim_end_len(s: Seq<char>) -> int
    decreases s.len(),
{
    if s.len() > 0 && spec_is_space(s[s.len() - 1]) {
        trim_end_len(s.drop_last())
    } else {
        s.len() as int
    }
}

pub proof fn lemma_trim_end_len_is(s: Seq<char>, j: int)
    requires
        0 <= j <= s.len(),
        forall|k: int| j <= k < s.len() ==> spec_is_space(s[k]),
        j == 0 || !spec_is_space(s[j - 1]),
    ensures
        trim_end_len(s) == j,
    decreases s.len(),
{
    if s.len() > j {
        assert(spec_is_space(s[s.len() - 1]));
        assert(forall|k: int| j <= k < s.drop_last().len() ==> spec_is_space(s.drop_last()[k]));
        lemma_trim_end_len_is(s.drop_last(), j);
    }
}

/// The source line as the diagnostic shows it: tabs replaced by spaces, the
/// leading whitespace removed, one trailing newline and carriage return
/// removed, then the trailing whitespace trimmed.
pub open spec fn spec_display_line(s: Seq<char>) -> Seq<char> {
    let r = spec_replace_tabs(s);
    let t = r.skip(space_run_end(r, 0));
    let u = spec_chop_line_end(t);
    u.take(trim_end_len(u))
}

pub open spec fn spec_spaces(n: int) -> Seq<char> {
    Seq::new(
        if n >= 0 {
            n as nat
        } else {
            0
        },
        |i: int| ' ',
    )
}

/// A diagnostic can be rendered when the token's column is not left of the
/// trimmed line start, and its line number has room for 1-based display.
pub open spec fn spec_renderable(t: SpecToken) -> bool {
    &&& t.start.column >= space_run_end(spec_replace_tabs(t.linetext), 0)
    &&& t.start.lineno + 1 <= u32::MAX as int
}

/// The fixed four-line diagnostic shape: a file-and-line header, the trimmed
/// source line, a caret under the token's column, then the detail text.
pub open spec fn spec_render(t: SpecToken, details: Seq<char>) -> Seq<char> {
    "  File \""@ + t.filename + "\", line "@ + spec_dec(t.start.lineno + 1) + "\n    "@
        + spec_display_line(t.linetext) + "\n    "@ + spec_spaces(
        t.start.column - space_run_end(spec_replace_tabs(t.linetext), 0),
    ) + "^\n"@ + details
}

/// The detail text the scanner attaches to each error kind.
pub open spec fn spec_error_detail(kind: LexErrorKind) -> Seq<char> {
    match kind {
        LexErrorKind::IllegalCharacter => "Illegal Character"@,
        LexErrorKind::InvalidSyntax => Seq::empty(),
    }
}

/// Decides `spec_renderable` for a concrete token, so that callers can guard
/// a rendering call without any precondition of their own.
pub fn renderable(t: &Token) -> (r: bool)
    ensures
        r == spec_renderable(t@),
{
    if t.position_start.lineno == u32::MAX {
        return false;
    }
    let raw = chars_of(t.linetext.as_str());
    let mut i: usize = 0;
    while i < raw.len() && is_space(raw[i])
        invariant
            i <= raw@.len(),
            raw@ == t.linetext@,
            forall|k: int| 0 <= k < i ==> spec_is_space(raw@[k]),
        decreases raw@.len() - i,
    {
        i = i + 1;
    }
    proof {
        let rep = spec_replace_tabs(t.linetext@);
        assert(rep.len() == raw@.len());
        assert(forall|k: int| 0 <= k < rep.len() ==> spec_is_space(#[trigger] rep[k])
            == spec_is_space(raw@[k]));
        lemma_space_run_end_is(rep, 0, i as int);
    }
    (t.position_start.column as usize) >= i
}

/// Renders a source-anchored diagnostic for the token it carries.
pub struct Exception {
    pub token: Token,
}

impl Exception {
    pub fn new(token: Token) -> (r: Exception)
        ensures
            r.token == token,
    {
        Exception { token }
    }

    /// The four-line diagnostic anchored at this exception's token, with the
    /// caller-supplied detail text as its last line.
    pub fn generate_exception_string(&self, error_details: String) -> (r: String)
        requires
            spec_renderable(self.token@),
        ensures
            r@ == spec_render(self.token@, error_details@),
    {
        let raw = chars_of(self.token.linetext.as_str());
        let mut linetext: Vec<char> = Vec::new();
        let mut i: usize = 0;
        while i < raw.len()
            invariant
                i <= raw.len(),
                raw@ == self.token.linetext@,
                linetext@ == spec_replace_tabs(raw@).take(i as int),
            decreases raw.len() - i,
        {
            let c = raw[i];
            if c == '\t' {
                linetext.push(' ');
            } else {
                linetext.push(c);
            }
            i = i + 1;
            proof {
                assert(linetext@ =~= spec_replace_tabs(raw@).take(i as int));
            }
        }
        let ghost rep = spec_replace_tabs(self.token.linetext@);
        proof {
            assert(linetext@ =~= rep);
        }
        // count and pass over the leading whitespace
        let mut start: usize = 0;
        while start < linetext.len() && is_space(linetext[start])
            invariant
                start <= linetext.len(),
                linetext@ == rep,
                forall|k: int| 0 <= k < start ==> spec_is_space(rep[k]),
            decreases linetext.len() - start,
        {
            start = start + 1;
        }
        proof {
            lemma_space_run_end_is(rep, 0, start as int);
        }
        // drop one trailing newline, then one trailing carriage return, then
        // the trailing whitespace
        let mut end: usize = linetext.len();
        if end > start && linetext[end - 1] == '\n' {
            end = end - 1;
        }
        if end > start && linetext[end - 1] == '\r' {
            end = end - 1;
        }
        let ghost chopped = spec_chop_line_end(rep.skip(start as int));
        proof {
            assert(rep.skip(start as int).len() == rep.len() - start);
            assert(chopped =~= rep.subrange(start as int, end as int));
        }
        while end > start && is_space(linetext[end - 1])
            invariant
                start <= end <= linetext.len(),
                linetext@ == rep,
                chopped == spec_chop_line_end(rep.skip(start as int)),
                chopped.len() >= end - start,
                forall|k: int| 0 <= k < chopped.len() ==> chopped[k] == rep[start + k],
                forall|k: int| end - start <= k < chopped.len() ==> spec_is_space(chopped[k]),
            decreases end,
        {
            end = end - 1;
        }
        proof {
            lemma_trim_end_len_is(chopped, end - start as int);
            assert(chopped.take(end - start as int) =~= rep.subrange(start as int, end as int));
        }
        // the display line is linetext[start .. end]
        let mut result: String = String::new();
        result.append("  File \"");
        result.append(self.token.filename.as_str());
        result.append("\", line ");
        append_u32(&mut result, self.token.position_start.lineno + 1);
        result.append("\n    ");
        let ghost header = "  File \""@ + self.token.filename@ + "\", line "@ + spec_dec(
            self.token.position_start.lineno + 1,
        ) + "\n    "@;
        proof {
            assert(result@ =~= header);
        }
        let mut i: usize = start;
        while i < end
            invariant
                start <= i <= end <= linetext.len(),
                linetext@ == rep,
                result@ == header + rep.subrange(start as int, i as int),
            decreases end - i,
        {
            push_char(&mut result, linetext[i]);
            i = i + 1;
            proof {
                assert(result@ =~= header + rep.subrange(start as int, i as int));
            }
        }
        result.append("\n    ");
        let ghost header2 = header + rep.subrange(start as int, end as int) + "\n    "@;
        proof {
            assert(result@ =~= header2);
        }
        let caret_offset = self.token.position_start.column - (start as u32);
        let mut j: u32 = 0;
        while j < caret_offset
            invariant
                j <= caret_offset,
                result@ == header2 + spec_spaces(j as int),
            decreases caret_offset - j,
        {
            push_char(&mut result, ' ');
            j = j + 1;
            proof {
                assert(result@ =~= header2 + spec_spaces(j as int));
            }
        }
        result.append("^\n");
        result.append(error_details.as_str());
        proof {
            assert(spec_display_line(self.token.linetext@) =~= rep.subrange(
                start as int,
                end as int,
            ));
            assert(result@ =~= spec_render(self.token@, error_details@));
        }
        result
    }
}

} // verus!
