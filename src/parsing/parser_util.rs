use vstd::prelude::*;

verus! {

/// A position in a text: absolute character count, line and column, all from 1.
#[derive(Debug)]
pub struct ParserLocation {
    pub pos: usize,
    pub line: usize,
    pub col: usize,
}

/// Moves past a character that is not a line break.
pub fn inc_char(loc: &mut ParserLocation)
    requires
        old(loc).pos < usize::MAX,
        old(loc).col < usize::MAX,
    ensures
        final(loc).pos == old(loc).pos + 1,
        final(loc).col == old(loc).col + 1,
        final(loc).line == old(loc).line,
{
    loc.pos += 1;
    loc.col += 1;
}

/// Moves past a line break, to the first column of the next line.
pub fn inc_line(loc: &mut ParserLocation)
    requires
        old(loc).pos < usize::MAX,
        old(loc).line < usize::MAX,
    ensures
        final(loc).pos == old(loc).pos + 1,
        final(loc).col == 1,
        final(loc).line == old(loc).line + 1,
{
    loc.pos += 1;
    loc.col = 1;
    loc.line += 1;
}

} // verus!
