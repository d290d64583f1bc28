//! The grid of the puzzle as a caller shows it: four columns by five rows,
//! with a cursor on one cell, and a list of words with at most one of them
//! picked out.

use vstd::prelude::*;

verus! {

/// How many columns the grid has.
pub const COLUMNS: u8 = 4;

/// How many rows the grid has.
pub const ROWS: u8 = 5;

/// The cell that the cursor is on.
#[derive(Clone, Copy, Debug, PartialEq, Eq)]
pub struct Cursor {
    x: u8,
    y: u8,
}

impl Default for Cursor {
    /// The cursor on the top left cell.
    fn default() -> (r: Cursor)
        ensures
            r.column() == 0,
            r.row() == 0,
    {
        Cursor { x: 0, y: 0 }
    }
}

impl Cursor {
    /// The cursor stands on a cell of the grid.
    #[verifier::type_invariant]
    closed spec fn on_grid(&self) -> bool {
        self.x < COLUMNS && self.y < ROWS
    }

    /// The column of the cell, counted from the left.
    pub closed spec fn column(&self) -> int {
        self.x as int
    }

    /// The row of the cell, counted from the top.
    pub closed spec fn row(&self) -> int {
        self.y as int
    }

    /// The place of the cell where the rows are laid end to end.
    pub open spec fn index(&self) -> int {
        self.row() * COLUMNS + self.column()
    }

    /// The cursor on the cell in column `x` of row `y`, if the grid has
    /// that cell.
    pub fn new(x: u8, y: u8) -> (r: Option<Cursor>)
        ensures
            r is Some <==> x < COLUMNS && y < ROWS,
            r matches Some(cursor) ==> cursor.column() == x && cursor.row() == y,
    {
        if x < COLUMNS && y < ROWS {
            Some(Cursor { x, y })
        } else {
            None
        }
    }

    /// The column and the row of the cell.
    pub fn position(&self) -> (r: (u8, u8))
        ensures
            r.0 == self.column(),
            r.1 == self.row(),
            r.0 < COLUMNS,
            r.1 < ROWS,
    {
        proof {
            use_type_invariant(self);
        }
        (self.x, self.y)
    }

    /// The place of the cell where the rows are laid end to end.
    pub fn current_index(&self) -> (r: usize)
        ensures
            r == self.index(),
            r < 20,
    {
        proof {
            use_type_invariant(self);
        }
        self.y as usize * 4 + self.x as usize
    }

    /// Moves the cursor by `dx` columns and `dy` rows. The cursor stays
    /// where it is if that would take it off the grid.
    pub fn move_cursor(&mut self, dx: i8, dy: i8)
        ensures
            if 0 <= old(self).column() + dx < COLUMNS && 0 <= old(self).row() + dy < ROWS {
                final(self).column() == old(self).column() + dx && final(self).row() == old(
                    self,
                ).row() + dy
            } else {
                *final(self) == *old(self)
            },
    {
        proof {
            use_type_invariant(&*self);
        }
        let x = self.x as i16 + dx as i16;
        let y = self.y as i16 + dy as i16;
        if 0 <= x && x < 4 && 0 <= y && y < 5 {
            *self = Cursor { x: x as u8, y: y as u8 };
        }
    }

    /// Moves the cursor by `di` cells along the rows laid end to end. The
    /// cursor stays where it is if that would take it off the grid.
    pub fn move_index(&mut self, di: i8)
        ensures
            if 0 <= old(self).index() + di < 20 {
                final(self).index() == old(self).index() + di
            } else {
                *final(self) == *old(self)
            },
    {
        proof {
            use_type_invariant(&*self);
        }
        let index = self.y as i16 * 4 + self.x as i16 + di as i16;
        if 0 <= index && index < 20 {
            *self = Cursor { x: (index % 4) as u8, y: (index / 4) as u8 };
        }
    }
}

/// The word picked out of a list of `count` after a move by `di`, where
/// `highlight` was picked out before. From a word, the move goes `di` words
/// on, and picks out nothing if that leaves the list. From nothing, a move
/// forward counts from the start of the list and a move backward from its
/// end, without regard to how long the list is.
pub open spec fn highlight_moved(highlight: Option<usize>, di: int, count: int) -> Option<usize> {
    match highlight {
        Some(index) => if 0 <= index + di < count {
            Some((index + di) as usize)
        } else {
            None
        },
        None => if di > 0 {
            Some((di - 1) as usize)
        } else if di < 0 {
            if count + di >= 0 {
                Some((count + di) as usize)
            } else {
                Some((usize::MAX + 1 + count + di) as usize)
            }
        } else {
            None
        },
    }
}

/// Moves the pick in a list of `count` words by `di`.
pub fn move_word_index(highlight: Option<usize>, di: i8, count: usize) -> (r: Option<usize>)
    ensures
        r == highlight_moved(highlight, di as int, count as int),
{
    match highlight {
        Some(index) => {
            if di >= 0 {
                let step = di as usize;
                if index < count && step < count - index {
                    Some(index + step)
                } else {
                    None
                }
            } else {
                let step = (-(di as i16)) as usize;
                if step <= index && index - step < count {
                    Some(index - step)
                } else {
                    None
                }
            }
        },
        None => {
            if di > 0 {
                Some((di - 1) as usize)
            } else if di < 0 {
                let step = (-(di as i16)) as usize;
                if count >= step {
                    Some(count - step)
                } else {
                    Some(usize::MAX - (step - count) + 1)
                }
            } else {
                None
            }
        },
    }
}

} // verus!
