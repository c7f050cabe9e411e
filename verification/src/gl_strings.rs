use vstd::prelude::*;
use vstd::string::StrSliceExecFns;

verus! {

// String-building helpers: character extraction, character-by-character
// string construction, decimal rendering, and line splitting.
/// Relies on String::push: appends exactly the one character to the end.
#[verifier::external_body]
pub fn push_char(s: &mut String, c: char)
    ensures
        final(s)@ == old(s)@ + seq![c],
{
    s.push(c);
}

/// The characters of a string slice, in order.
pub fn chars_of(s: &str) -> (r: Vec<char>)
    ensures
        r@ == s@,
{
    let n = s.unicode_len();
    let mut r: Vec<char> = Vec::new();
    let mut i: usize = 0;
    while i < n
        invariant
            i <= n,
            n == s@.len(),
            r@ == s@.take(i as int),
        decreases n - i,
    {
        let c = s.get_char(i);
        r.push(c);
        i = i + 1;
        proof {
            assert(r@ =~= s@.take(i as int));
        }
    }
    proof {
        assert(r@ =~= s@);
    }
    r
}

pub open spec fn spec_digit_char(d: int) -> char {
    if d == 0 {
        '0'
    } else if d == 1 {
        '1'
    } else if d == 2 {
        '2'
    } else if d == 3 {
        '3'
    } else if d == 4 {
        '4'
    } else if d == 5 {
        '5'
    } else if d == 6 {
        '6'
    } else if d == 7 {
        '7'
    } else if d == 8 {
        '8'
    } else {
        '9'
    }
}

/// The decimal digit sequence of a non-negative number, most significant
/// digit first.
pub open spec fn spec_dec(n: int) -> Seq<char>
    decreases n,
{
    if n < 10 {
        seq![spec_digit_char(n)]
    } else {
        spec_dec(n / 10).push(spec_digit_char(n % 10))
    }
}

fn digit_char(d: u32) -> (c: char)
    requires
        d < 10,
    ensures
        c == spec_digit_char(d as int),
{
    if d == 0 {
        '0'
    } else if d == 1 {
        '1'
    } else if d == 2 {
        '2'
    } else if d == 3 {
        '3'
    } else if d == 4 {
        '4'
    } else if d == 5 {
        '5'
    } else if d == 6 {
        '6'
    } else if d == 7 {
        '7'
    } else if d == 8 {
        '8'
    } else {
        '9'
    }
}

/// Appends the decimal rendering of `n` to `s`.
pub fn append_u32(s: &mut String, n: u32)
    ensures
        final(s)@ == old(s)@ + spec_dec(n as int),
    decreases n,
{
    if n >= 10 {
        append_u32(s, n / 10);
        push_char(s, digit_char(n % 10));
        proof {
            assert(s@ =~= old(s)@ + spec_dec(n as int));
        }
    } else {
        push_char(s, digit_char(n));
        proof {
            assert(s@ =~= old(s)@ + spec_dec(n as int));
        }
    }
}

/// First index at or after `i` that holds a newline (or `s.len()`).
pub open spec fn line_run_end(s: Seq<char>, i: int) -> int
    decreases s.len() - i,
{
    if i < s.len() && s[i] != '\n' {
        line_run_end(s, i + 1)
    } else {
        i
    }
}

pub proof fn lemma_line_run_end(s: Seq<char>, i: int)
    requires
        0 <= i <= s.len(),
    ensures
        i <= line_run_end(s, i) <= s.len(),
        forall|k: int| i <= k < line_run_end(s, i) ==> s[k] != '\n',
        line_run_end(s, i) < s.len() ==> s[line_run_end(s, i)] == '\n',
    decreases s.len() - i,
{
    if i < s.len() && s[i] != '\n' {
        lemma_line_run_end(s, i + 1);
    }
}

pub proof fn lemma_line_run_end_is(s: Seq<char>, i: int, j: int)
    requires
        0 <= i <= j <= s.len(),
        forall|k: int| i <= k < j ==> s[k] != '\n',
        j == s.len() || s[j] == '\n',
    ensures
        line_run_end(s, i) == j,
    decreases j - i,
{
    if i < j {
        assert(s[i] != '\n');
        lemma_line_run_end_is(s, i + 1, j);
    }
}

/// The lines of a text: split at each newline, with the newline dropped and a
/// carriage return immediately before a dropped newline dropped as well. The
/// final line needs no newline; an empty text has no lines.
pub open spec fn spec_lines(s: Seq<char>) -> Seq<Seq<char>>
    decreases s.len(),
    via spec_lines_dec
{
    if s.len() == 0 {
        Seq::empty()
    } else {
        let nl = line_run_end(s, 0);
        if nl == s.len() {
            seq![s]
        } else {
            let line = if nl > 0 && s[nl - 1] == '\r' {
                s.subrange(0, nl - 1)
            } else {
                s.subrange(0, nl)
            };
            seq![line] + spec_lines(s.subrange(nl + 1, s.len() as int))
        }
    }
}

#[via_fn]
proof fn spec_lines_dec(s: Seq<char>) {
    if s.len() != 0 {
        lemma_line_run_end(s, 0);
    }
}

fn split_lines_from(s: &str, start: usize, n: usize, out: &mut Vec<String>)
    requires
        start <= n,
        n == s@.len(),
    ensures
        final(out).deep_view() == old(out).deep_view() + spec_lines(
            s@.subrange(start as int, s@.len() as int),
        ),
    decreases n - start,
{
    let ghost t = s@.subrange(start as int, s@.len() as int);
    if start == n {
        proof {
            assert(out.deep_view() =~= old(out).deep_view() + spec_lines(t));
        }
        return ;
    }
    let mut j = start;
    while j < n && s.get_char(j) != '\n'
        invariant
            start <= j <= n,
            n == s@.len(),
            forall|k: int| start <= k < j ==> s@[k] != '\n',
        decreases n - j,
    {
        j = j + 1;
    }
    proof {
        lemma_line_run_end_is(t, 0, j - start);
    }
    let line_end = if j < n && j > start && s.get_char(j - 1) == '\r' {
        j - 1
    } else {
        j
    };
    let piece = s.substring_char(start, line_end);
    out.push(piece.to_owned());
    proof {
        assert(out.deep_view() =~= old(out).deep_view().push(piece@));
    }
    if j < n {
        let ghost mid = out.deep_view();
        split_lines_from(s, j + 1, n, out);
        proof {
            let nl = line_run_end(t, 0);
            assert(t.subrange(nl + 1, t.len() as int) =~= s@.subrange(
                j + 1 as int,
                s@.len() as int,
            ));
            assert(piece@ =~= (if nl > 0 && t[nl - 1] == '\r' {
                t.subrange(0, nl - 1)
            } else {
                t.subrange(0, nl)
            }));
            assert(out.deep_view() =~= old(out).deep_view() + spec_lines(t));
        }
    } else {
        proof {
            assert(piece@ =~= t);
            assert(out.deep_view() =~= old(out).deep_view() + spec_lines(t));
        }
    }
}

/// The lines of a string slice, as owned strings.
pub fn split_lines(s: &str) -> (r: Vec<String>)
    ensures
        r.deep_view() == spec_lines(s@),
{
    let n = s.unicode_len();
    let mut r: Vec<String> = Vec::new();
    split_lines_from(s, 0, n, &mut r);
    proof {
        assert(s@.subrange(0, s@.len() as int) =~= s@);
        assert(r.deep_view() =~= spec_lines(s@));
    }
    r
}

} // verus!
