use alphazero_mcts::con4_mcts::{
    con4_board_to_matrix_perspective, last_argmax, mask_scores, model_input_planes, simulation_budget_exceeded,
    terminal_value, TraversalStep, Tree, NUM_PLANES,
};
use alphazero_mcts::connect4::{BoardState, Chip, Position};

type Stats = (f32, f32);

fn priors(n: usize) -> Vec<Stats> {
    (0..n).map(|i| (i as f32 / 10.0, 0.0)).collect()
}

/// Root expanded with three children, child 1 expanded with two.
fn small_tree() -> Tree<Stats> {
    let mut t = Tree::new(1, (1.0, 0.0), 0, Some(0));
    t.expand(0, &priors(3), -1);
    let c1 = t.node(0).children[1];
    t.expand(c1, &priors(2), 1);
    t
}

#[test]
fn new_tree_has_one_root() {
    let t: Tree<Stats> = Tree::new(1, (1.0, 0.0), 0, None);
    assert_eq!(t.len(), 1);
    assert_eq!(t.root, 0);
    assert_eq!(t.node(0).visits, 0);
    assert!(!t.node(0).is_expanded);
    assert!(!t.node(0).has_parent());
}

#[test]
fn expand_appends_one_child_per_prior() {
    let t = small_tree();
    assert_eq!(t.len(), 6);
    assert_eq!(t.node(0).children, vec![1, 2, 3]);
    assert!(t.node(0).is_expanded);
    for a in 0..3 {
        let c = t.node(1 + a);
        assert_eq!(c.action, a as u32);
        assert_eq!(c.parent, Some(0));
        assert_eq!(c.player, -1);
        assert_eq!(c.stats, (a as f32 / 10.0, 0.0));
        assert!(c.has_parent());
    }
    assert_eq!(t.node(2).children, vec![4, 5]);
    assert_eq!(t.node(5).player, 1);
}

#[test]
fn backpropagate_counts_and_alternates_signs() {
    let mut t = small_tree();
    let updates = t.backpropagate(&vec![1, 0]);
    assert_eq!(updates, vec![(0, false), (2, true), (4, false)]);
    assert_eq!(t.node(0).visits, 1);
    assert_eq!(t.node(2).visits, 1);
    assert_eq!(t.node(4).visits, 1);
    assert_eq!(t.node(1).visits, 0);
    assert!(t.node(4).is_expanded);
    let updates = t.backpropagate(&vec![2]);
    assert_eq!(updates, vec![(0, true), (3, false)]);
    assert_eq!(t.node(0).visits, 2);
    let updates = t.backpropagate(&vec![]);
    assert_eq!(updates, vec![(0, false)]);
    assert_eq!(t.node(0).visits, 3);
    assert!(t.node(3).is_expanded);
}

#[test]
fn child_visits_by_action() {
    let mut t = small_tree();
    t.backpropagate(&vec![1]);
    t.backpropagate(&vec![1]);
    t.backpropagate(&vec![2]);
    assert_eq!(t.child_visits(0), vec![0, 2, 1]);
}

#[test]
fn best_child_takes_last_of_equal_scores() {
    let mut t = small_tree();
    t.backpropagate(&vec![]);
    let legal = vec![true; 7];
    assert_eq!(t.choose_best_child(0, &vec![5, 9, 9], &legal), 3);
    assert_eq!(t.choose_best_child(0, &vec![5, 9, 2], &legal), 2);
}

#[test]
fn best_child_skips_illegal_moves() {
    let mut t = small_tree();
    t.backpropagate(&vec![]);
    let legal = vec![true, false, false, true, true, true, true];
    assert_eq!(t.choose_best_child(0, &vec![5, 9, 9], &legal), 1);
    let none_legal = vec![false; 7];
    assert_eq!(t.choose_best_child(0, &vec![5, 9, 1], &none_legal), 3);
    let short = vec![false, true];
    assert_eq!(t.choose_best_child(0, &vec![5, 3, 9], &short), 2);
}

#[test]
fn argmax_and_masking() {
    assert_eq!(last_argmax(&vec![3, 1, 3, 2]), 2);
    assert_eq!(last_argmax(&vec![-4]), 0);
    assert_eq!(mask_scores(&vec![1, 2, 3], &vec![true, false]), vec![1, i64::MIN]);
}

#[test]
fn rerooting_cuts_the_chosen_child_loose() {
    let mut t = small_tree();
    let r = t.take_child_as_root(1);
    assert_eq!(r, 2);
    assert_eq!(t.root, 2);
    assert_eq!(t.node(2).parent, None);
    assert!(t.is_descendant(4, 2));
    assert!(!t.is_descendant(1, 2));
    assert!(!t.is_descendant(3, 2));
    assert_eq!(t.expanded_nodes(), vec![2]);
}

#[test]
fn expanded_nodes_of_the_whole_tree() {
    let mut t = small_tree();
    assert_eq!(t.expanded_nodes(), vec![0, 2]);
    t.backpropagate(&vec![0]);
    assert_eq!(t.expanded_nodes(), vec![0, 1, 2]);
}

#[test]
fn virtual_loss_round_trip_on_empty_path() {
    let mut t = small_tree();
    t.add_virtual_loss(2, &vec![]);
    assert_eq!(t.node(2).vl_applied, 1);
    assert_eq!(t.node(2).v_loss, 1);
    t.revert_virtual_loss(2, &vec![]);
    assert_eq!(t.node(2).vl_applied, 0);
    assert_eq!(t.node(2).v_loss, 0);
}

#[test]
fn virtual_loss_along_a_path_marks_every_node() {
    let mut t = small_tree();
    t.add_virtual_loss(0, &vec![1, 1]);
    for i in [0, 2, 5] {
        assert_eq!(t.node(i).vl_applied, 1);
        assert_eq!(t.node(i).v_loss, 1);
    }
    for i in [1, 3, 4] {
        assert_eq!(t.node(i).vl_applied, 0);
        assert_eq!(t.node(i).v_loss, 0);
    }
    t.revert_virtual_loss(0, &vec![1, 1]);
    for i in 0..t.len() {
        assert_eq!(t.node(i).vl_applied, 0);
        assert_eq!(t.node(i).v_loss, 0);
    }
}

#[test]
fn traversal_steps() {
    let t = small_tree();
    assert_eq!(t.traversal_step(0, 1), TraversalStep::Expanded);
    assert_eq!(t.traversal_step(1, 2), TraversalStep::Leaf);
    assert_eq!(t.traversal_step(0, 51), TraversalStep::TooDeep);
    assert_eq!(t.traversal_step(0, 50), TraversalStep::Expanded);
}

#[test]
fn simulation_budget() {
    let mut t = small_tree();
    assert!(t.needs_simulation(1));
    t.backpropagate(&vec![]);
    assert!(!t.needs_simulation(1));
    assert!(!simulation_budget_exceeded(200, 100));
    assert!(simulation_budget_exceeded(201, 100));
}

#[test]
fn stats_can_be_replaced() {
    let mut t = small_tree();
    t.set_stats(4, (0.5, -2.0));
    assert_eq!(t.node(4).stats, (0.5, -2.0));
    assert_eq!(t.node(4).action, 0);
}

#[test]
fn terminal_values() {
    assert_eq!(terminal_value(BoardState::Draw, Chip::red()), 0);
    assert_eq!(terminal_value(BoardState::Ongoing, Chip::red()), 0);
    assert_eq!(terminal_value(BoardState::Invalid, Chip::yellow()), 0);
    assert_eq!(terminal_value(BoardState::Win(0), Chip::red()), -1);
    assert_eq!(terminal_value(BoardState::Win(1), Chip::yellow()), -1);
    assert_eq!(terminal_value(BoardState::Win(usize::MAX), Chip::red()), 1);
}

fn sample_position(to_play: Chip) -> Position {
    let mut layout = vec![None; 42];
    layout[0] = Some(Chip::red());
    layout[1] = Some(Chip::yellow());
    Position { layout, to_play }
}

#[test]
fn perspective_marks_own_chips() {
    let p = sample_position(Chip::red());
    let red = con4_board_to_matrix_perspective(&p, 1);
    let yellow = con4_board_to_matrix_perspective(&p, -1);
    assert_eq!(red[5][0], 1);
    assert_eq!(red[5][1], 0);
    assert_eq!(yellow[5][0], 0);
    assert_eq!(yellow[5][1], 1);
    let other = con4_board_to_matrix_perspective(&p, 7);
    assert_eq!(other, yellow);
}

#[test]
fn model_input_stacks_history_and_pads() {
    let current = sample_position(Chip::yellow());
    let older = Position { layout: vec![None; 42], to_play: Chip::red() };
    let history = vec![older, sample_position(Chip::red())];
    let (planes, cond) = model_input_planes(&current, &history);
    assert_eq!(planes.len(), NUM_PLANES);
    assert_eq!(cond, 1);
    assert_eq!(planes[0][5][1], 1);
    assert_eq!(planes[0][5][0], 0);
    assert_eq!(planes[1][5][0], 1);
    assert_eq!(planes[1][5][1], 0);
    assert_eq!(planes[2][5][1], 1);
    assert_eq!(planes[3][5][0], 1);
    assert_eq!(planes[4][5][1], 0);
    assert_eq!(planes[5][5][0], 0);
    for k in 6..NUM_PLANES {
        assert!(planes[k].iter().flatten().all(|&x| x == 0));
    }
    let long: Vec<Position> = (0..10).map(|_| sample_position(Chip::red())).collect();
    let (planes, cond) = model_input_planes(&sample_position(Chip::red()), &long);
    assert_eq!(cond, 0);
    for k in 0..NUM_PLANES {
        let (own, other) = if k % 2 == 0 { (0, 1) } else { (1, 0) };
        assert_eq!(planes[k][5][own], 1);
        assert_eq!(planes[k][5][other], 0);
    }
}
