use vstd::prelude::*;

verus! {

/// Mathematical model of a scan location, used by every contract that speaks
/// of positions.
#[verifier::ext_equal]
pub struct SpecPos {
    pub index: int,
    pub lineno: int,
    pub column: int,
}

/// Moves a position `k` characters to the right on the same line.
pub open spec fn pos_step(p: SpecPos, k: int) -> SpecPos {
    SpecPos { index: p.index + k, lineno: p.lineno, column: p.column + k }
}

/// Moves a position to the start of the next line.
pub open spec fn pos_newline(p: SpecPos) -> SpecPos {
    SpecPos { index: 0, lineno: p.lineno + 1, column: 0 }
}

/// An immutable snapshot of a scan location: character offset within the
/// current line, 0-based line number, and 0-based column. The column resets
/// with each line, exactly as the offset does.
#[derive(Debug, Clone, Copy, PartialEq, Eq, Structural)]
pub struct TokenPosition {
    pub index: u32,
    pub lineno: u32,
    pub column: u32,
}

impl View for TokenPosition {
    type V = SpecPos;

    open spec fn view(&self) -> SpecPos {
        SpecPos { index: self.index as int, lineno: self.lineno as int, column: self.column as int }
    }
}

impl TokenPosition {
    pub fn new(index: u32, lineno: u32, column: u32) -> (r: TokenPosition)
        ensures
            r.index == index,
            r.lineno == lineno,
            r.column == column,
    {
        TokenPosition { index, lineno, column }
    }

    /// An independent copy of this position.
    pub fn copy(&self) -> (r: TokenPosition)
        ensures
            r == *self,
    {
        TokenPosition { index: self.index, lineno: self.lineno, column: self.column }
    }
}

} // verus!
