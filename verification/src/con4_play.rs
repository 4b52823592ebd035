use vstd::prelude::*;
use crate::connect4::{BoardState, Chip, Position, RED_FG, YELLOW_FG, ROWS, COLS, is_player_chip, spec_player_sign, player_sign};

verus! {

/// Index into the layout of the cell at row `r` (counted from the top)
/// and column `c`: the layout starts with the bottom row.
pub open spec fn cell_index(r: int, c: int) -> int {
    (ROWS - 1 - r) * COLS + c
}

/// The chip in row `r`, column `c`, if the layout covers that cell.
pub open spec fn chip_at(layout: Seq<Option<Chip>>, r: int, c: int) -> Option<Chip> {
    let idx = cell_index(r, c);
    if 0 <= idx < layout.len() {
        layout[idx]
    } else {
        None
    }
}

/// The code of a cell: 1 for a red chip, -1 for a yellow chip, 0 otherwise.
pub open spec fn cell_code(cell: Option<Chip>) -> i8 {
    match cell {
        Some(chip) => if chip.fg_color == RED_FG {
            1i8
        } else if chip.fg_color == YELLOW_FG {
            -1i8
        } else {
            0i8
        },
        None => 0i8,
    }
}

/// `m` is the 6 x 7 matrix of cell codes of `layout`.
pub open spec fn is_board_matrix(layout: Seq<Option<Chip>>, m: Seq<Vec<i8>>) -> bool {
    &&& m.len() == ROWS
    &&& forall|r: int| 0 <= r < ROWS ==> (#[trigger] m[r])@.len() == COLS
    &&& forall|r: int, c: int|
        0 <= r < ROWS && 0 <= c < COLS ==> #[trigger] m[r]@[c] == cell_code(chip_at(layout, r, c))
}

fn layout_cell(layout: &Vec<Option<Chip>>, r: usize, c: usize) -> (cell: Option<Chip>)
    requires
        r < ROWS,
        c < COLS,
    ensures
        cell == chip_at(layout@, r as int, c as int),
{
    let idx = (ROWS - 1 - r) * COLS + c;
    if idx < layout.len() {
        layout[idx]
    } else {
        None
    }
}

/// The board as a 6 x 7 matrix, top row first: 1 for red (who moves
/// first), -1 for yellow, 0 for an empty cell. Layout cells beyond the 42
/// of the board are ignored.
pub fn con4_board_to_matrix(game: &Position) -> (matrix: Vec<Vec<i8>>)
    ensures
        is_board_matrix(game.layout@, matrix@),
{
    let mut matrix: Vec<Vec<i8>> = Vec::new();
    let mut r: usize = 0;
    while r < ROWS
        invariant
            r <= ROWS,
            matrix@.len() == r,
            forall|k: int| 0 <= k < r ==> (#[trigger] matrix@[k])@.len() == COLS,
            forall|k: int, c: int|
                0 <= k < r && 0 <= c < COLS ==> #[trigger] matrix@[k]@[c] == cell_code(
                    chip_at(game.layout@, k, c),
                ),
        decreases ROWS - r,
    {
        let mut row: Vec<i8> = Vec::new();
        let mut c: usize = 0;
        while c < COLS
            invariant
                r < ROWS,
                c <= COLS,
                row@.len() == c,
                forall|j: int| 0 <= j < c ==> row@[j] == cell_code(chip_at(game.layout@, r as int, j)),
            decreases COLS - c,
        {
            let code: i8 = match layout_cell(&game.layout, r, c) {
                Some(chip) => if chip.fg_color == RED_FG {
                    1
                } else if chip.fg_color == YELLOW_FG {
                    -1
                } else {
                    0
                },
                None => 0,
            };
            row.push(code);
            c += 1;
        }
        matrix.push(row);
        r += 1;
    }
    matrix
}

/// The reward of a finished game for `player` (+1 red, -1 yellow) when
/// the winner is player number `side`: 1 when the two agree, -1 otherwise.
pub open spec fn spec_game_reward(player: i32, side: usize) -> int {
    if player == side as i32 {
        1
    } else {
        -1
    }
}

/// Law: a won game is worth 1 to `player` exactly when `player`, compared
/// with the winner's number as the game reports it, is that winner, and
/// -1 otherwise; no other reward occurs.
pub proof fn lemma_game_reward(player: i32, side: usize)
    ensures
        spec_game_reward(player, side) == 1 <==> player == side as i32,
        spec_game_reward(player, side) == -1 <==> player != side as i32,
{
}

/// The reward that self-play records for a won game.
pub fn game_reward(player: i32, side: usize) -> (reward: i32)
    ensures
        reward == spec_game_reward(player, side),
        reward == 1 <==> player == side as i32,
        reward == -1 <==> player != side as i32,
{
    if player == side as i32 {
        1
    } else {
        -1
    }
}

/// The outcome that self-play records once `player` (+1 red, -1 yellow)
/// has moved and the board reports `state`: `None` while the game goes on
/// (an invalid report included), the reward of a win for the mover, and 0
/// for a draw.
pub open spec fn spec_finished_game_outcome(state: BoardState, player: i32) -> Option<int> {
    match state {
        BoardState::Win(side) => Some(spec_game_reward(player, side)),
        BoardState::Draw => Some(0),
        _ => None,
    }
}

/// Law: a game goes on exactly while the board reports it ongoing or
/// invalid; a draw records 0, and a win records the reward of the mover
/// `player` against the winner's number: 1 when they agree, -1 otherwise.
pub proof fn lemma_finished_game_outcome(state: BoardState, player: i32)
    ensures
        spec_finished_game_outcome(state, player) is None <==> (state is Ongoing || state is Invalid),
        state is Draw ==> spec_finished_game_outcome(state, player) == Some(0int),
        state matches BoardState::Win(side) ==> spec_finished_game_outcome(state, player) == Some(
            if player == side as i32 {
                1int
            } else {
                -1int
            },
        ),
{
}

/// Whether the game is over after a move of `player`, and with which outcome.
pub fn finished_game_outcome(state: BoardState, player: i32) -> (outcome: Option<i32>)
    ensures
        match outcome {
            Some(r) => spec_finished_game_outcome(state, player) == Some(r as int),
            None => spec_finished_game_outcome(state, player) is None,
        },
        outcome == (match state {
            BoardState::Win(side) => Some(if player == side as i32 { 1i32 } else { -1i32 }),
            BoardState::Draw => Some(0i32),
            _ => None,
        }),
{
    match state {
        BoardState::Win(side) => Some(game_reward(player, side)),
        BoardState::Draw => Some(0),
        _ => None,
    }
}

fn copy_policy<P: Copy>(policy: &Vec<P>) -> (out: Vec<P>)
    ensures
        out@ == policy@,
{
    let mut out: Vec<P> = Vec::new();
    let mut i: usize = 0;
    while i < policy.len()
        invariant
            i <= policy@.len(),
            out@ == policy@.subrange(0, i as int),
        decreases policy@.len() - i,
    {
        out.push(policy[i]);
        i += 1;
    }
    out
}

/// One training example per recorded move: the board matrix of the
/// position, the search policy of that move, the sign of the player to
/// move, and the final outcome of the game. The two histories are paired
/// up to the shorter one.
pub fn generate_training_example<P: Copy>(
    game_state_history: &Vec<Position>,
    policy_history: &Vec<Vec<P>>,
    final_outcome: i32,
) -> (examples: Vec<(Vec<Vec<i8>>, Vec<P>, i32, i32)>)
    requires
        forall|k: int|
            0 <= k < game_state_history@.len() && k < policy_history@.len() ==> is_player_chip(
                #[trigger] game_state_history@[k].to_play,
            ),
    ensures
        examples@.len() == if game_state_history@.len() < policy_history@.len() {
            game_state_history@.len()
        } else {
            policy_history@.len()
        },
        forall|k: int|
            0 <= k < examples@.len() ==> {
                &&& is_board_matrix(game_state_history@[k].layout@, (#[trigger] examples@[k]).0@)
                &&& examples@[k].1@ == policy_history@[k]@
                &&& examples@[k].2 == spec_player_sign(game_state_history@[k].to_play)
                &&& examples@[k].3 == final_outcome
            },
{
    let n = if game_state_history.len() < policy_history.len() {
        game_state_history.len()
    } else {
        policy_history.len()
    };
    let mut examples: Vec<(Vec<Vec<i8>>, Vec<P>, i32, i32)> = Vec::new();
    let mut k: usize = 0;
    while k < n
        invariant
            k <= n,
            n <= game_state_history@.len(),
            n <= policy_history@.len(),
            examples@.len() == k,
            forall|j: int|
                0 <= j < game_state_history@.len() && j < policy_history@.len() ==> is_player_chip(
                    #[trigger] game_state_history@[j].to_play,
                ),
            forall|j: int|
                0 <= j < k ==> {
                    &&& is_board_matrix(game_state_history@[j].layout@, (#[trigger] examples@[j]).0@)
                    &&& examples@[j].1@ == policy_history@[j]@
                    &&& examples@[j].2 == spec_player_sign(game_state_history@[j].to_play)
                    &&& examples@[j].3 == final_outcome
                },
        decreases n - k,
    {
        let state = &game_state_history[k];
        let board = con4_board_to_matrix(state);
        let policy = copy_policy(&policy_history[k]);
        let sign = player_sign(state.to_play);
        examples.push((board, policy, sign, final_outcome));
        k += 1;
    }
    examples
}

} // verus!
