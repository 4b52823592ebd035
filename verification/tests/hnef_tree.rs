use alphazero_mcts::mcts_par::{calc_reward, GameStatus, Node, Side, Tree, POLICY_SIZE};

type Prob = f32;
type Q = f32;

fn pi() -> Vec<Prob> {
    (0..10).map(|i| i as f32).collect()
}

fn root_tree() -> Tree<Prob, Q> {
    Tree::new(vec![3, 1, 3, 7], &pi(), 0.0)
}

fn notr(t: &Tree<Prob, Q>, i: usize) -> &alphazero_mcts::mcts_par::Notr<Prob, Q> {
    match &t.refs[i] {
        Node::Notr(n) => n,
        Node::Term(_) => panic!("not an open node"),
    }
}

#[test]
fn root_entries_are_deduplicated() {
    let t = root_tree();
    let root = notr(&t, 0);
    assert_eq!(root.visits, 1);
    assert_eq!(root.valid_actions, vec![3, 1, 3, 7]);
    let actions: Vec<u32> = root.entries.iter().map(|e| e.action).collect();
    assert_eq!(actions, vec![3, 1, 7]);
    assert!(root.entries.iter().all(|e| e.count == 0 && e.q == 0.0));
    assert_eq!(root.entries[2].prob, 7.0);
    assert_eq!(root.parent, None);
    assert_eq!(root.depth, 0);
}

#[test]
fn adding_nodes_links_them() {
    let mut t = root_tree();
    let a = t.add_notr(0, 3, vec![0, 2], &pi(), 0.0);
    let b = t.add_term(a, 2, -1);
    assert_eq!(a, 1);
    assert_eq!(b, 2);
    assert_eq!(notr(&t, 0).children, vec![(3, 1)]);
    assert_eq!(notr(&t, 1).children, vec![(2, 2)]);
    assert_eq!(notr(&t, 1).depth, 1);
    assert_eq!(notr(&t, 1).parent, Some((3, 0)));
    match &t.refs[2] {
        Node::Term(term) => {
            assert_eq!(term.value, -1);
            assert_eq!(term.depth, 2);
            assert_eq!(term.parent, Some((2, 1)));
            assert_eq!(term.num, 2);
        }
        Node::Notr(_) => panic!("expected a finished-game node"),
    }
    let c = t.add_term(0, 3, 1);
    assert_eq!(notr(&t, 0).children, vec![(3, c)]);
}

#[test]
fn select_action_uses_last_best_key() {
    let mut t = root_tree();
    t.add_notr(0, 1, vec![0], &pi(), 0.0);
    let s = t.select_action(0, &vec![4, 9, 9, 1]);
    assert_eq!(s.index, 2);
    assert_eq!(s.action, 3);
    assert_eq!(s.child, None);
    let s = t.select_action(0, &vec![4, 9, 2, 1]);
    assert_eq!(s.action, 1);
    assert_eq!(s.child, Some(1));
}

#[test]
fn backup_counts_each_ancestor() {
    let mut t = root_tree();
    let a = t.add_notr(0, 1, vec![5, 6], &pi(), 0.0);
    let b = t.add_notr(a, 6, vec![0], &pi(), 0.0);
    let steps = t.backup(b);
    assert_eq!(steps.len(), 2);
    assert_eq!((steps[0].node, steps[0].entry, steps[0].negated), (a, Some(1), false));
    assert_eq!((steps[1].node, steps[1].entry, steps[1].negated), (0, Some(1), true));
    assert_eq!(notr(&t, a).visits, 2);
    assert_eq!(notr(&t, a).entries[1].count, 1);
    assert_eq!(notr(&t, 0).visits, 2);
    assert_eq!(notr(&t, 0).entries[1].count, 1);
    assert_eq!(notr(&t, b).visits, 1);
    for i in [0, a] {
        let n = notr(&t, i);
        let sum: u64 = n.entries.iter().map(|e| e.count).sum();
        assert_eq!(n.visits, 1 + sum);
    }
    assert!(t.backup(0).is_empty());
}

#[test]
fn backup_through_an_action_without_entry() {
    let mut t = root_tree();
    let a = t.add_term(0, 9, 1);
    let steps = t.backup(a);
    assert_eq!(steps.len(), 1);
    assert_eq!(steps[0].entry, None);
    assert_eq!(notr(&t, 0).visits, 2);
    assert!(notr(&t, 0).entries.iter().all(|e| e.count == 0));
}

#[test]
fn entry_positions() {
    let t = root_tree();
    assert_eq!(t.entry_position(0, 7), Some(2));
    assert_eq!(t.entry_position(0, 8), None);
}

#[test]
fn policy_counts_over_all_moves() {
    let mut t = root_tree();
    let a = t.add_notr(0, 7, vec![0], &pi(), 0.0);
    t.backup(a);
    t.backup(a);
    let b = t.add_term(0, 1, 0);
    t.backup(b);
    let (counts, total) = t.improved_policy_counts();
    assert_eq!(counts.len(), POLICY_SIZE);
    assert_eq!(counts[7], 2);
    assert_eq!(counts[1], 1);
    assert_eq!(counts[3], 0);
    assert_eq!(total, 3);
}

#[test]
fn rewards_of_new_leaves() {
    assert_eq!(calc_reward(GameStatus::Draw, Side::Attacker, &vec![1]), Some(0));
    assert_eq!(calc_reward(GameStatus::Win(Side::Defender), Side::Defender, &vec![]), Some(1));
    assert_eq!(calc_reward(GameStatus::Win(Side::Attacker), Side::Defender, &vec![]), Some(-1));
    assert_eq!(calc_reward(GameStatus::Ongoing, Side::Attacker, &vec![0, 0, 0]), Some(0));
    assert_eq!(calc_reward(GameStatus::Ongoing, Side::Attacker, &vec![0, 1, 0]), None);
    assert_eq!(calc_reward(GameStatus::Ongoing, Side::Attacker, &vec![]), Some(0));
}

#[test]
fn no_tree_for_a_finished_game() {
    assert!(Tree::<Prob, Q>::for_game(GameStatus::Draw, vec![1], &pi(), 0.0).is_none());
    assert!(Tree::<Prob, Q>::for_game(GameStatus::Win(Side::Attacker), vec![1], &pi(), 0.0).is_none());
    let t = Tree::<Prob, Q>::for_game(GameStatus::Ongoing, vec![3, 1, 3, 7], &pi(), 0.0).unwrap();
    let actions: Vec<u32> = notr(&t, 0).entries.iter().map(|e| e.action).collect();
    assert_eq!(actions, vec![3, 1, 7]);
    assert_eq!(notr(&t, 0).visits, 1);
}

#[test]
fn child_visits_over_all_moves() {
    let mut t = root_tree();
    t.add_notr(0, 3, vec![0, 2], &pi(), 0.0);
    t.add_notr(0, 7, vec![1], &pi(), 0.0);
    t.add_term(0, 1, 1);
    let (visits, total) = t.child_visit_counts();
    assert_eq!(visits.len(), POLICY_SIZE);
    assert_eq!(visits[3], 1);
    assert_eq!(visits[7], 1);
    assert_eq!(visits[1], 0);
    assert_eq!(visits[0], 0);
    assert_eq!(total, 2);
}
