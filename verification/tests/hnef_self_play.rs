use alphazero_mcts::mcts_par::Side;
use alphazero_mcts::self_play::{generate_training_example, reached_move_limit, side_sign, HnefPosition, MAX_GAME_LENGTH};

#[test]
fn side_signs() {
    assert_eq!(side_sign(Side::Attacker), 1);
    assert_eq!(side_sign(Side::Defender), -1);
}

#[test]
fn move_limit() {
    assert!(reached_move_limit(MAX_GAME_LENGTH));
    assert!(!reached_move_limit(99));
    assert!(!reached_move_limit(101));
}

#[test]
fn examples_carry_board_policy_side_and_outcome() {
    let boards = vec![vec![vec![1u8, 0], vec![0, 2]], vec![vec![0u8]]];
    let positions = vec![
        HnefPosition { board: boards[0].clone(), side_to_play: Side::Attacker },
        HnefPosition { board: boards[1].clone(), side_to_play: Side::Defender },
    ];
    let policies: Vec<Vec<f32>> = vec![vec![0.1, 0.9]];
    let ex = generate_training_example(&positions, &policies, 1);
    assert_eq!(ex.len(), 1);
    assert_eq!(ex[0].0, boards[0]);
    assert_eq!(ex[0].1, vec![0.1, 0.9]);
    assert_eq!(ex[0].2, 1);
    assert_eq!(ex[0].3, 1);
}
