use vstd::prelude::*;

verus! {

/// Colour code of the red chip; red moves first.
pub const RED_FG: u8 = 1;

/// Colour code of the yellow chip; yellow moves second.
pub const YELLOW_FG: u8 = 3;

/// Number of rows of a Connect Four board.
pub const ROWS: usize = 6;

/// Number of columns of a Connect Four board.
pub const COLS: usize = 7;

/// A chip on the board, identified by its foreground colour code.
#[derive(Clone, Copy, Debug, PartialEq, Eq, Structural)]
pub struct Chip {
    pub fg_color: u8,
}

impl Chip {
    pub fn red() -> (c: Chip)
        ensures
            c.fg_color == RED_FG,
    {
        Chip { fg_color: RED_FG }
    }

    pub fn yellow() -> (c: Chip)
        ensures
            c.fg_color == YELLOW_FG,
    {
        Chip { fg_color: YELLOW_FG }
    }
}

/// A chip that belongs to one of the two players.
pub open spec fn is_player_chip(c: Chip) -> bool {
    c.fg_color == RED_FG || c.fg_color == YELLOW_FG
}

/// A board position as the search reads it: the cells in row-major
/// order starting from the bottom row, and the chip of the player to move.
pub struct Position {
    pub layout: Vec<Option<Chip>>,
    pub to_play: Chip,
}

/// What the game reports about a board after a move.
#[derive(Clone, Copy, Debug, PartialEq, Eq, Structural)]
pub enum BoardState {
    Ongoing,
    /// The index of the winning player.
    Win(usize),
    Draw,
    Invalid,
}

/// +1 for red, -1 for yellow.
pub open spec fn spec_player_sign(c: Chip) -> int {
    if c.fg_color == RED_FG {
        1
    } else {
        -1
    }
}

/// The sign of the player that owns `chip`: 1 for red, -1 for yellow.
pub fn player_sign(chip: Chip) -> (s: i32)
    requires
        is_player_chip(chip),
    ensures
        s == spec_player_sign(chip),
        s == 1 || s == -1,
{
    if chip.fg_color == RED_FG {
        1
    } else {
        -1
    }
}

/// Whether column `col` occurs among `valid`.
pub open spec fn column_is_valid(valid: Seq<isize>, col: int) -> bool {
    exists|j: int| 0 <= j < valid.len() && valid[j] == col
}

/// The legal-move mask over the seven columns: entry `i` is set exactly
/// when column `i` is among the valid moves.
pub fn legal_action_mask(valid: &Vec<isize>) -> (mask: Vec<bool>)
    ensures
        mask@.len() == COLS,
        forall|i: int| 0 <= i < COLS ==> #[trigger] mask@[i] == column_is_valid(valid@, i),
{
    let mut mask: Vec<bool> = Vec::new();
    let mut i: usize = 0;
    while i < COLS
        invariant
            i <= COLS,
            mask@.len() == i,
            forall|k: int| 0 <= k < i ==> #[trigger] mask@[k] == column_is_valid(valid@, k),
        decreases COLS - i,
    {
        let mut found = false;
        let mut j: usize = 0;
        while j < valid.len()
            invariant
                i < COLS,
                j <= valid@.len(),
                found == (exists|l: int| 0 <= l < j && valid@[l] == i as int),
            decreases valid@.len() - j,
        {
            if valid[j] == i as isize {
                found = true;
            }
            j += 1;
        }
        mask.push(found);
        i += 1;
    }
    mask
}

/// Whether some entry of the mask is set.
pub fn any_legal(mask: &Vec<bool>) -> (b: bool)
    ensures
        b == (exists|i: int| 0 <= i < mask@.len() && mask@[i]),
{
    let mut i: usize = 0;
    while i < mask.len()
        invariant
            i <= mask@.len(),
            forall|k: int| 0 <= k < i ==> !mask@[k],
        decreases mask@.len() - i,
    {
        if mask[i] {
            return true;
        }
        i += 1;
    }
    false
}

} // verus!
