use vstd::prelude::*;
use crate::mcts_par::Side;

verus! {

/// A Hnefatafl game that reaches this many recorded positions ends in a draw.
pub const MAX_GAME_LENGTH: usize = 100;

/// +1 for the attacker, -1 for the defender.
pub open spec fn spec_side_sign(side: Side) -> int {
    match side {
        Side::Attacker => 1,
        Side::Defender => -1,
    }
}

pub fn side_sign(side: Side) -> (s: i32)
    ensures
        s == spec_side_sign(side),
{
    match side {
        Side::Attacker => 1,
        Side::Defender => -1,
    }
}

/// Whether a game with `history_len` recorded positions is stopped as a draw.
pub fn reached_move_limit(history_len: usize) -> (b: bool)
    ensures
        b == (history_len == MAX_GAME_LENGTH),
{
    history_len == MAX_GAME_LENGTH
}

fn copy_seq<T: Copy>(v: &Vec<T>) -> (out: Vec<T>)
    ensures
        out@ == v@,
{
    let mut out: Vec<T> = Vec::new();
    let mut i: usize = 0;
    while i < v.len()
        invariant
            i <= v@.len(),
            out@ == v@.subrange(0, i as int),
        decreases v@.len() - i,
    {
        out.push(v[i]);
        i += 1;
    }
    out
}

fn copy_board(b: &Vec<Vec<u8>>) -> (out: Vec<Vec<u8>>)
    ensures
        out@.len() == b@.len(),
        forall|r: int| 0 <= r < b@.len() ==> (#[trigger] out@[r])@ == b@[r]@,
{
    let mut out: Vec<Vec<u8>> = Vec::new();
    let mut r: usize = 0;
    while r < b.len()
        invariant
            r <= b@.len(),
            out@.len() == r,
            forall|k: int| 0 <= k < r ==> (#[trigger] out@[k])@ == b@[k]@,
        decreases b@.len() - r,
    {
        out.push(copy_seq(&b[r]));
        r += 1;
    }
    out
}

/// A recorded Hnefatafl position as training reads it: the board matrix
/// and the side to move.
pub struct HnefPosition {
    pub board: Vec<Vec<u8>>,
    pub side_to_play: Side,
}

/// One training example per recorded position: its board matrix, the
/// search policy played there, the sign of the side to move, and the final
/// outcome; positions and policies are paired up to the shorter list.
pub fn generate_training_example<P: Copy>(
    game_state_history: &Vec<HnefPosition>,
    policy_history: &Vec<Vec<P>>,
    final_outcome: i32,
) -> (examples: Vec<(Vec<Vec<u8>>, Vec<P>, i32, i32)>)
    ensures
        examples@.len() == if game_state_history@.len() < policy_history@.len() {
            game_state_history@.len()
        } else {
            policy_history@.len()
        },
        forall|k: int|
            0 <= k < examples@.len() ==> {
                let board = game_state_history@[k].board@;
                &&& (#[trigger] examples@[k]).0@.len() == board.len()
                &&& forall|r: int| 0 <= r < board.len() ==> examples@[k].0@[r]@ == board[r]@
                &&& examples@[k].1@ == policy_history@[k]@
                &&& examples@[k].2 == spec_side_sign(game_state_history@[k].side_to_play)
                &&& examples@[k].3 == final_outcome
            },
{
    let n = if game_state_history.len() < policy_history.len() {
        game_state_history.len()
    } else {
        policy_history.len()
    };
    let mut examples: Vec<(Vec<Vec<u8>>, Vec<P>, i32, i32)> = Vec::new();
    let mut k: usize = 0;
    while k < n
        invariant
            k <= n,
            n <= game_state_history@.len(),
            n <= policy_history@.len(),
            examples@.len() == k,
            forall|j: int|
                0 <= j < k ==> {
                    let board = game_state_history@[j].board@;
                    &&& (#[trigger] examples@[j]).0@.len() == board.len()
                    &&& forall|r: int| 0 <= r < board.len() ==> examples@[j].0@[r]@ == board[r]@
                    &&& examples@[j].1@ == policy_history@[j]@
                    &&& examples@[j].2 == spec_side_sign(game_state_history@[j].side_to_play)
                    &&& examples@[j].3 == final_outcome
                },
        decreases n - k,
    {
        let position = &game_state_history[k];
        let board = copy_board(&position.board);
        let policy = copy_seq(&policy_history[k]);
        let sign = side_sign(position.side_to_play);
        examples.push((board, policy, sign, final_outcome));
        k += 1;
    }
    examples
}

} // verus!
