use vstd::prelude::*;

verus! {

/// The cursor position implied by the plain text read so far.
#[derive(Debug, Clone, Copy, PartialEq, Eq, Structural)]
pub struct Rainbow {
    pub col: usize,
    pub row: usize,
}

/// The position after a plain character: a line break starts the next row,
/// any other character moves one column on.
pub open spec fn next_position(col: nat, row: nat, ch: char) -> (nat, nat) {
    if ch == '\n' {
        (0, row + 1)
    } else {
        (col + 1, row)
    }
}

impl Rainbow {
    /// The top-left position.
    pub fn new() -> (r: Rainbow)
        ensures
            r.col == 0,
            r.row == 0,
    {
        Rainbow { col: 0, row: 0 }
    }

    /// Moves past the plain character `ch`.
    pub fn advance(&mut self, ch: char)
        requires
            ch == '\n' ==> old(self).row < usize::MAX,
            ch != '\n' ==> old(self).col < usize::MAX,
        ensures
            (final(self).col as nat, final(self).row as nat) == next_position(
                old(self).col as nat,
                old(self).row as nat,
                ch,
            ),
    {
        if ch == '\n' {
            self.row = self.row + 1;
            self.col = 0;
        } else {
            self.col = self.col + 1;
        }
    }
}

} // verus!
