use alphazero_mcts::connect4::{any_legal, legal_action_mask, player_sign, BoardState, Chip, Position};
use alphazero_mcts::con4_play::{con4_board_to_matrix, finished_game_outcome, game_reward, generate_training_example};

fn red() -> Option<Chip> {
    Some(Chip::red())
}

fn yellow() -> Option<Chip> {
    Some(Chip::yellow())
}

fn empty_layout() -> Vec<Option<Chip>> {
    vec![None; 42]
}

#[test]
fn legal_mask_marks_listed_columns() {
    let mask = legal_action_mask(&vec![0, 3, 6]);
    assert_eq!(mask, vec![true, false, false, true, false, false, true]);
}

#[test]
fn legal_mask_ignores_columns_off_the_board() {
    let mask = legal_action_mask(&vec![-1, 7, 9, 2, 2]);
    assert_eq!(mask, vec![false, false, true, false, false, false, false]);
}

#[test]
fn any_legal_on_masks() {
    assert!(!any_legal(&vec![false; 7]));
    assert!(any_legal(&vec![false, false, false, false, false, false, true]));
    assert!(!any_legal(&vec![]));
}

#[test]
fn player_signs() {
    assert_eq!(player_sign(Chip::red()), 1);
    assert_eq!(player_sign(Chip::yellow()), -1);
}

#[test]
fn board_matrix_bottom_row_first_in_layout() {
    let mut layout = empty_layout();
    layout[0] = red();
    layout[6] = yellow();
    layout[41] = yellow();
    layout[7] = red();
    let game = Position { layout, to_play: Chip::red() };
    let m = con4_board_to_matrix(&game);
    assert_eq!(m.len(), 6);
    assert!(m.iter().all(|row| row.len() == 7));
    assert_eq!(m[5][0], 1);
    assert_eq!(m[5][6], -1);
    assert_eq!(m[4][0], 1);
    assert_eq!(m[0][6], -1);
    let filled: i32 = m.iter().flatten().map(|&x| (x as i32).abs()).sum();
    assert_eq!(filled, 4);
}

#[test]
fn board_matrix_short_and_long_layouts() {
    let short = Position { layout: vec![red(), yellow()], to_play: Chip::red() };
    let m = con4_board_to_matrix(&short);
    assert_eq!(m[5][0], 1);
    assert_eq!(m[5][1], -1);
    assert_eq!(m[0], vec![0; 7]);
    let mut long = vec![None; 50];
    long[45] = red();
    long[41] = red();
    let m = con4_board_to_matrix(&Position { layout: long, to_play: Chip::yellow() });
    let filled: i32 = m.iter().flatten().map(|&x| (x as i32).abs()).sum();
    assert_eq!(filled, 1);
    assert_eq!(m[0][6], 1);
}

#[test]
fn board_matrix_other_colours_are_empty() {
    let mut layout = empty_layout();
    layout[3] = Some(Chip { fg_color: 2 });
    let m = con4_board_to_matrix(&Position { layout, to_play: Chip::red() });
    assert_eq!(m[5][3], 0);
}

#[test]
fn rewards_of_won_games() {
    assert_eq!(game_reward(1, 1), 1);
    assert_eq!(game_reward(1, 0), -1);
    assert_eq!(game_reward(-1, 0), -1);
    assert_eq!(game_reward(-1, usize::MAX), 1);
}

#[test]
fn training_examples_pair_positions_with_policies() {
    let mut layout = empty_layout();
    layout[0] = red();
    let a = Position { layout: empty_layout(), to_play: Chip::red() };
    let b = Position { layout, to_play: Chip::yellow() };
    let policies: Vec<Vec<f32>> = vec![vec![0.5, 0.5], vec![1.0], vec![0.25]];
    let ex = generate_training_example(&vec![a, b], &policies, -1);
    assert_eq!(ex.len(), 2);
    assert_eq!(ex[0].1, vec![0.5, 0.5]);
    assert_eq!(ex[0].2, 1);
    assert_eq!(ex[1].2, -1);
    assert_eq!(ex[1].3, -1);
    assert_eq!(ex[1].0[5][0], 1);
    assert_eq!(ex[0].0[5][0], 0);
}

#[test]
fn board_state_is_plain_data() {
    assert_eq!(BoardState::Win(1), BoardState::Win(1));
    assert_ne!(BoardState::Draw, BoardState::Ongoing);
}

#[test]
fn finished_game_outcomes() {
    assert_eq!(finished_game_outcome(BoardState::Ongoing, 1), None);
    assert_eq!(finished_game_outcome(BoardState::Invalid, 1), None);
    assert_eq!(finished_game_outcome(BoardState::Draw, -1), Some(0));
    assert_eq!(finished_game_outcome(BoardState::Win(1), 1), Some(1));
    assert_eq!(finished_game_outcome(BoardState::Win(2), -1), Some(-1));
}
