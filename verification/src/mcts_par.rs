use vstd::prelude::*;
use crate::con4_mcts::{Action, is_last_max, last_argmax};

verus! {

/// Length of the policy vector: one entry per move code of the 7 x 7 board.
pub const POLICY_SIZE: usize = 2401;

/// The two sides of Hnefatafl.
#[derive(Clone, Copy, Debug, PartialEq, Eq, Structural)]
pub enum Side {
    Attacker,
    Defender,
}

/// The status of a Hnefatafl game, as the search reads it.
#[derive(Clone, Copy, Debug, PartialEq, Eq, Structural)]
pub enum GameStatus {
    Ongoing,
    Win(Side),
    Draw,
}

/// The statistics of one valid action of a node: its visit count, its
/// prior probability and its mean value (the last two kept for the
/// caller, who computes with them).
pub struct ActionEntry<P, Q> {
    pub action: Action,
    pub count: u64,
    pub prob: P,
    pub q: Q,
}

/// A node whose game is not over.
pub struct Notr<P, Q> {
    pub num: usize,
    /// The action that leads here and the parent's number.
    pub parent: Option<(Action, usize)>,
    /// The child reached by each action tried so far.
    pub children: Vec<(Action, usize)>,
    pub visits: u64,
    pub valid_actions: Vec<Action>,
    /// One entry per distinct valid action, in order of first occurrence.
    pub entries: Vec<ActionEntry<P, Q>>,
    pub depth: u32,
}

/// A node whose game is over, with its reward.
pub struct Term {
    pub num: usize,
    pub parent: Option<(Action, usize)>,
    pub value: i32,
    pub depth: u32,
}

pub enum Node<P, Q> {
    Notr(Notr<P, Q>),
    Term(Term),
}

/// No action occurs twice among the entries.
pub open spec fn distinct_entries<P, Q>(e: Seq<ActionEntry<P, Q>>) -> bool {
    forall|i: int, j: int|
        0 <= i < e.len() && 0 <= j < e.len() && i != j ==> #[trigger] e[i].action != #[trigger] e[j].action
}

/// No action occurs twice among the children.
pub open spec fn distinct_children(c: Seq<(Action, usize)>) -> bool {
    forall|i: int, j: int|
        0 <= i < c.len() && 0 <= j < c.len() && i != j ==> #[trigger] c[i].0 != #[trigger] c[j].0
}

/// The children as a map from action to node number.
pub open spec fn children_map(c: Seq<(Action, usize)>) -> Map<Action, usize> {
    Map::new(
        |a: Action| exists|k: int| 0 <= k < c.len() && c[k].0 == a,
        |a: Action| c[choose|k: int| 0 <= k < c.len() && c[k].0 == a].1,
    )
}

/// Some entry is for action `a`.
pub open spec fn has_entry<P, Q>(e: Seq<ActionEntry<P, Q>>, a: Action) -> bool {
    exists|k: int| 0 <= k < e.len() && e[k].action == a
}

/// The entries built from the valid actions and the prior vector `pi`:
/// one per distinct valid action, never counted, with prior `pi[action]`
/// and mean value `q0`.
pub open spec fn fresh_entries<P, Q>(
    e: Seq<ActionEntry<P, Q>>,
    valid: Seq<Action>,
    pi: Seq<P>,
    q0: Q,
) -> bool {
    &&& distinct_entries(e)
    &&& forall|k: int|
        0 <= k < e.len() ==> {
            &&& valid.contains((#[trigger] e[k]).action)
            &&& e[k].count == 0
            &&& e[k].prob == pi[e[k].action as int]
            &&& e[k].q == q0
        }
    &&& forall|v: int|
        0 <= v < valid.len() ==> has_entry(e, #[trigger] valid[v])
}

/// The position of `a` among the entries, if it occurs.
pub fn find_entry<P, Q>(entries: &Vec<ActionEntry<P, Q>>, a: Action) -> (pos: Option<usize>)
    ensures
        match pos {
            Some(k) => k < entries@.len() && entries@[k as int].action == a,
            None => forall|k: int| 0 <= k < entries@.len() ==> entries@[k].action != a,
        },
{
    let mut k: usize = 0;
    while k < entries.len()
        invariant
            k <= entries@.len(),
            forall|j: int| 0 <= j < k ==> entries@[j].action != a,
        decreases entries@.len() - k,
    {
        if entries[k].action == a {
            return Some(k);
        }
        k += 1;
    }
    None
}

/// The child reached by `a`, if any.
pub fn find_child(children: &Vec<(Action, usize)>, a: Action) -> (child: Option<usize>)
    requires
        distinct_children(children@),
    ensures
        child == (if children_map(children@).dom().contains(a) {
            Some(children_map(children@)[a])
        } else {
            None::<usize>
        }),
{
    match find_child_pos(children, a) {
        Some(k) => {
            proof {
                assert(children@[k as int].0 == a);
                assert(children_map(children@).dom().contains(a));
                let j = choose|j: int| 0 <= j < children@.len() && children@[j].0 == a;
                assert(children@[j].0 == children@[k as int].0);
                assert(j == k);
            }
            Some(children[k].1)
        },
        None => None,
    }
}

/// The position of the child entry for `a`, if any.
pub fn find_child_pos(children: &Vec<(Action, usize)>, a: Action) -> (pos: Option<usize>)
    ensures
        match pos {
            Some(k) => k < children@.len() && children@[k as int].0 == a,
            None => forall|k: int| 0 <= k < children@.len() ==> children@[k].0 != a,
        },
{
    let mut k: usize = 0;
    while k < children.len()
        invariant
            k <= children@.len(),
            forall|j: int| 0 <= j < k ==> children@[j].0 != a,
        decreases children@.len() - k,
    {
        if children[k].0 == a {
            return Some(k);
        }
        k += 1;
    }
    None
}

/// The entries for `valid_actions` with priors from `pi`.
pub fn make_entries<P: Copy, Q: Copy>(valid_actions: &Vec<Action>, pi: &Vec<P>, q0: Q) -> (entries: Vec<ActionEntry<P, Q>>)
    requires
        forall|k: int| 0 <= k < valid_actions@.len() ==> (#[trigger] valid_actions@[k] as int) < pi@.len(),
    ensures
        fresh_entries(entries@, valid_actions@, pi@, q0),
{
    let mut entries: Vec<ActionEntry<P, Q>> = Vec::new();
    let mut v: usize = 0;
    while v < valid_actions.len()
        invariant
            v <= valid_actions@.len(),
            forall|k: int| 0 <= k < valid_actions@.len() ==> (#[trigger] valid_actions@[k] as int) < pi@.len(),
            distinct_entries(entries@),
            forall|k: int|
                0 <= k < entries@.len() ==> {
                    &&& valid_actions@.contains((#[trigger] entries@[k]).action)
                    &&& entries@[k].count == 0
                    &&& entries@[k].prob == pi@[entries@[k].action as int]
                    &&& entries@[k].q == q0
                },
            forall|w: int|
                0 <= w < v ==> has_entry(entries@, #[trigger] valid_actions@[w]),
        decreases valid_actions@.len() - v,
    {
        let a = valid_actions[v];
        let found = find_entry(&entries, a);
        let ghost before = entries@;
        match found {
            None => {
                entries.push(ActionEntry { action: a, count: 0, prob: pi[a as usize], q: q0 });
                proof {
                    assert(entries@ == before.push(ActionEntry { action: a, count: 0, prob: pi@[a as int], q: q0 }));
                    assert(valid_actions@.contains(a)) by {
                        assert(valid_actions@[v as int] == a);
                    }
                    assert forall|i: int, j: int|
                        0 <= i < entries@.len() && 0 <= j < entries@.len() && i != j implies #[trigger] entries@[i].action
                            != #[trigger] entries@[j].action by {
                        if i < before.len() && j < before.len() {
                            assert(before[i].action != before[j].action);
                        }
                    }
                    assert forall|k: int|
                        0 <= k < entries@.len() implies {
                            &&& valid_actions@.contains((#[trigger] entries@[k]).action)
                            &&& entries@[k].count == 0
                            &&& entries@[k].prob == pi@[entries@[k].action as int]
                            &&& entries@[k].q == q0
                        } by {
                        if k < before.len() {
                            assert(entries@[k] == before[k]);
                        }
                    }
                    assert forall|w: int| 0 <= w <= v implies has_entry(entries@, #[trigger] valid_actions@[w]) by {
                        if w < v {
                            assert(has_entry(before, valid_actions@[w]));
                            let k = choose|k: int| 0 <= k < before.len() && before[k].action == valid_actions@[w];
                            assert(entries@[k] == before[k]);
                        } else {
                            assert(entries@[entries@.len() - 1].action == a);
                        }
                    }
                }
            },
            Some(k) => {
                proof {
                    assert(entries@[k as int].action == valid_actions@[v as int]);
                }
            },
        }
        v += 1;
    }
    entries
}

impl<P: Copy, Q: Copy> Notr<P, Q> {
    /// A node reached from `parent` by `action`, with one fresh entry per
    /// distinct valid action.
    pub fn new(
        num: usize,
        parent: usize,
        action: &Action,
        visits: u64,
        valid_actions: Vec<Action>,
        pi: &Vec<P>,
        q0: Q,
        depth: u32,
    ) -> (n: Self)
        requires
            forall|k: int| 0 <= k < valid_actions@.len() ==> (#[trigger] valid_actions@[k] as int) < pi@.len(),
        ensures
            n.num == num,
            n.parent == Some((*action, parent)),
            n.children@.len() == 0,
            n.visits == visits,
            n.valid_actions@ == valid_actions@,
            fresh_entries(n.entries@, valid_actions@, pi@, q0),
            n.depth == depth,
    {
        let entries = make_entries(&valid_actions, pi, q0);
        Notr {
            num,
            parent: Some((*action, parent)),
            children: Vec::new(),
            visits,
            valid_actions,
            entries,
            depth,
        }
    }
}

impl<P, Q> Notr<P, Q> {
    /// Records `child` as the node reached by `action`, replacing an
    /// earlier child of that action.
    pub fn add_child(&mut self, action: Action, child: usize)
        requires
            distinct_children(old(self).children@),
        ensures
            distinct_children(final(self).children@),
            children_map(final(self).children@) == children_map(old(self).children@).insert(action, child),
            final(self).num == old(self).num,
            final(self).parent == old(self).parent,
            final(self).visits == old(self).visits,
            final(self).valid_actions == old(self).valid_actions,
            final(self).entries == old(self).entries,
            final(self).depth == old(self).depth,
            forall|k: int| 0 <= k < final(self).children@.len() ==> (#[trigger] final(self).children@[k]).0 == action
                || old(self).children@.contains(final(self).children@[k]),
            forall|k: int| 0 <= k < final(self).children@.len() ==> (#[trigger] final(self).children@[k]).0 == action
                ==> final(self).children@[k].1 == child,
    {
        let ghost old_c = self.children@;
        match find_child_pos(&self.children, action) {
            Some(k) => {
                self.children.set(k, (action, child));
                proof {
                    let nc = self.children@;
                    assert(nc == old_c.update(k as int, (action, child)));
                    assert forall|i: int, j: int|
                        0 <= i < nc.len() && 0 <= j < nc.len() && i != j implies #[trigger] nc[i].0 != #[trigger] nc[j].0 by {
                        assert(old_c[i].0 != old_c[j].0);
                    }
                    assert forall|a: Action| #![auto] children_map(nc).dom().contains(a) == children_map(old_c).insert(action, child).dom().contains(a) by {
                        if a != action {
                            if exists|j: int| 0 <= j < nc.len() && nc[j].0 == a {
                                let j = choose|j: int| 0 <= j < nc.len() && nc[j].0 == a;
                                assert(old_c[j].0 == a);
                            }
                            if exists|j: int| 0 <= j < old_c.len() && old_c[j].0 == a {
                                let j = choose|j: int| 0 <= j < old_c.len() && old_c[j].0 == a;
                                assert(nc[j].0 == a);
                            }
                        } else {
                            assert(nc[k as int].0 == a);
                        }
                    }
                    assert forall|a: Action| #[trigger] children_map(nc).dom().contains(a) implies children_map(nc)[a] == children_map(old_c).insert(action, child)[a] by {
                        let j = choose|j: int| 0 <= j < nc.len() && nc[j].0 == a;
                        if a == action {
                            assert(nc[j].0 == nc[k as int].0);
                            assert(j == k);
                        } else {
                            let i = choose|i: int| 0 <= i < old_c.len() && old_c[i].0 == a;
                            assert(nc[i].0 == a);
                            assert(nc[i].0 == nc[j].0);
                            assert(i == j);
                        }
                    }
                    assert(children_map(nc) =~= children_map(old_c).insert(action, child));
                    assert forall|j: int| 0 <= j < nc.len() && (#[trigger] nc[j]).0 != action implies old_c.contains(nc[j]) by {
                        assert(old_c[j] == nc[j]);
                    }
                }
            },
            None => {
                self.children.push((action, child));
                proof {
                    let nc = self.children@;
                    assert(nc == old_c.push((action, child)));
                    assert forall|i: int, j: int|
                        0 <= i < nc.len() && 0 <= j < nc.len() && i != j implies #[trigger] nc[i].0 != #[trigger] nc[j].0 by {
                        if i < old_c.len() && j < old_c.len() {
                            assert(old_c[i].0 != old_c[j].0);
                        }
                    }
                    assert forall|a: Action| #![auto] children_map(nc).dom().contains(a) == children_map(old_c).insert(action, child).dom().contains(a) by {
                        if a != action {
                            if exists|j: int| 0 <= j < nc.len() && nc[j].0 == a {
                                let j = choose|j: int| 0 <= j < nc.len() && nc[j].0 == a;
                                assert(old_c[j].0 == a);
                            }
                            if exists|j: int| 0 <= j < old_c.len() && old_c[j].0 == a {
                                let j = choose|j: int| 0 <= j < old_c.len() && old_c[j].0 == a;
                                assert(nc[j].0 == a);
                            }
                        } else {
                            assert(nc[nc.len() - 1].0 == a);
                        }
                    }
                    assert forall|a: Action| #[trigger] children_map(nc).dom().contains(a) implies children_map(nc)[a] == children_map(old_c).insert(action, child)[a] by {
                        let j = choose|j: int| 0 <= j < nc.len() && nc[j].0 == a;
                        if a == action {
                            assert(j == nc.len() - 1);
                        } else {
                            let i = choose|i: int| 0 <= i < old_c.len() && old_c[i].0 == a;
                            assert(nc[i].0 == a);
                            assert(nc[i].0 == nc[j].0);
                            assert(i == j);
                        }
                    }
                    assert(children_map(nc) =~= children_map(old_c).insert(action, child));
                    assert forall|j: int| 0 <= j < nc.len() && (#[trigger] nc[j]).0 != action implies old_c.contains(nc[j]) by {
                        assert(old_c[j] == nc[j]);
                    }
                }
            },
        }
    }
}

impl Term {
    pub fn new(num: usize, parent: usize, action: &Action, value: i32, depth: u32) -> (t: Self)
        ensures
            t.num == num,
            t.parent == Some((*action, parent)),
            t.value == value,
            t.depth == depth,
    {
        Term { num, parent: Some((*action, parent)), value, depth }
    }
}

/// The parent link of a node.
pub open spec fn node_parent<P, Q>(n: Node<P, Q>) -> Option<(Action, usize)> {
    match n {
        Node::Notr(x) => x.parent,
        Node::Term(t) => t.parent,
    }
}

pub open spec fn node_num<P, Q>(n: Node<P, Q>) -> usize {
    match n {
        Node::Notr(x) => x.num,
        Node::Term(t) => t.num,
    }
}

pub open spec fn node_depth<P, Q>(n: Node<P, Q>) -> u32 {
    match n {
        Node::Notr(x) => x.depth,
        Node::Term(t) => t.depth,
    }
}

/// The open node behind `n` (meaningful when `n` is one).
pub open spec fn notr_of<P, Q>(n: Node<P, Q>) -> Notr<P, Q> {
    match n {
        Node::Notr(x) => x,
        Node::Term(_) => arbitrary(),
    }
}

/// The chain of (action, parent) links from node `i` up to the root, in
/// the parent links `parents` of an arena.
pub open spec fn ancestors_in(parents: Seq<Option<(Action, usize)>>, i: int) -> Seq<(Action, usize)>
    decreases i,
{
    if 0 <= i < parents.len() {
        match parents[i] {
            Some(ap) => if ap.1 < i {
                seq![ap] + ancestors_in(parents, ap.1 as int)
            } else {
                Seq::empty()
            },
            None => Seq::empty(),
        }
    } else {
        Seq::empty()
    }
}

/// One update that a backup made: the node, the position of the action's
/// entry there, and whether the reward reaches it negated.
pub struct BackupStep {
    pub node: usize,
    pub entry: Option<usize>,
    pub negated: bool,
}

/// What the search does at a node: the position among the valid actions
/// of the chosen one, the action, and the child it leads to, if tried.
pub struct Selection {
    pub index: usize,
    pub action: Action,
    pub child: Option<usize>,
}

/// The sum of the counts of the entries.
pub open spec fn sum_counts<P, Q>(e: Seq<ActionEntry<P, Q>>) -> int
    decreases e.len(),
{
    if e.len() == 0 {
        0
    } else {
        sum_counts(e.drop_last()) + e.last().count
    }
}

/// The reward of the position reached by a new leaf, from the point of
/// view of the player to move there: `Some(1)` or `Some(-1)` for a won
/// game as that player won or lost, `Some(0)` for a draw or when no move
/// is left (`tile_plays` marks the legal moves with ones), and `None` when
/// the game goes on.
pub open spec fn spec_calc_reward(status: GameStatus, side_to_play: Side, legal_count: int) -> Option<i32> {
    match status {
        GameStatus::Ongoing => if legal_count <= 0 {
            Some(0i32)
        } else {
            None
        },
        GameStatus::Win(side) => if side_to_play == side {
            Some(1i32)
        } else {
            Some(-1i32)
        },
        GameStatus::Draw => Some(0i32),
    }
}

pub open spec fn sum_i8(s: Seq<i8>) -> int
    decreases s.len(),
{
    if s.len() == 0 {
        0
    } else {
        sum_i8(s.drop_last()) + s.last()
    }
}

/// Law: a won game is worth 1 exactly when the winner is the side to
/// move and -1 otherwise; a draw is worth 0; a game that goes on is worth
/// 0 when no move is left and has no reward yet otherwise.
pub proof fn lemma_calc_reward(status: GameStatus, side_to_play: Side, legal_count: int)
    ensures
        status matches GameStatus::Win(w) ==> (spec_calc_reward(status, side_to_play, legal_count) == Some(1i32)
            <==> side_to_play == w),
        status matches GameStatus::Win(w) ==> (spec_calc_reward(status, side_to_play, legal_count) == Some(-1i32)
            <==> side_to_play != w),
        status is Draw ==> spec_calc_reward(status, side_to_play, legal_count) == Some(0i32),
        status is Ongoing ==> (spec_calc_reward(status, side_to_play, legal_count) is None <==> legal_count > 0),
        status is Ongoing && legal_count <= 0 ==> spec_calc_reward(status, side_to_play, legal_count) == Some(0i32),
{
}

pub fn calc_reward(status: GameStatus, side_to_play: Side, tile_plays: &Vec<i8>) -> (reward: Option<i32>)
    requires
        status is Ongoing ==> tile_plays@.len() <= 0x100_0000,
    ensures
        reward == spec_calc_reward(status, side_to_play, sum_i8(tile_plays@)),
        status matches GameStatus::Win(w) ==> reward == Some(if side_to_play == w { 1i32 } else { -1i32 }),
        status is Draw ==> reward == Some(0i32),
        status is Ongoing ==> (reward is None <==> sum_i8(tile_plays@) > 0),
        status is Ongoing && reward is Some ==> reward == Some(0i32),
{
    match status {
        GameStatus::Ongoing => {
            let mut total: i32 = 0;
            let mut k: usize = 0;
            while k < tile_plays.len()
                invariant
                    k <= tile_plays@.len(),
                    tile_plays@.len() <= 0x100_0000,
                    total == sum_i8(tile_plays@.subrange(0, k as int)),
                    -128 * k <= total <= 127 * k,
                decreases tile_plays@.len() - k,
            {
                proof {
                    assert(tile_plays@.subrange(0, k as int + 1).drop_last() =~= tile_plays@.subrange(0, k as int));
                }
                total = total + tile_plays[k] as i32;
                k += 1;
            }
            assert(tile_plays@.subrange(0, k as int) =~= tile_plays@);
            if total <= 0 {
                Some(0)
            } else {
                None
            }
        },
        GameStatus::Win(side) => {
            if side_to_play == side {
                Some(1)
            } else {
                Some(-1)
            }
        },
        GameStatus::Draw => Some(0),
    }
}

/// The search tree: an arena of nodes; node 0 is the root.
pub struct Tree<P, Q> {
    pub refs: Vec<Node<P, Q>>,
}

impl<P, Q> Tree<P, Q> {
    pub open spec fn parents(&self) -> Seq<Option<(Action, usize)>> {
        self.refs@.map_values(|n: Node<P, Q>| node_parent(n))
    }

    pub open spec fn ancestors(&self, i: int) -> Seq<(Action, usize)> {
        ancestors_in(self.parents(), i)
    }

    pub open spec fn notr(&self, i: int) -> Notr<P, Q> {
        notr_of(self.refs@[i])
    }

    pub open spec fn child_link_ok(&self, i: int, k: int) -> bool {
        let (a, c) = self.notr(i).children@[k];
        &&& i < c < self.refs@.len()
        &&& node_parent(self.refs@[c as int]) == Some((a, i as usize))
    }

    pub open spec fn node_wf(&self, i: int) -> bool {
        let n = self.refs@[i];
        &&& node_num(n) == i
        &&& (i > 0 ==> node_parent(n) is Some)
        &&& (node_parent(n) matches Some((a, p)) ==> {
            &&& p < i
            &&& self.refs@[p as int] is Notr
            &&& node_depth(n) == node_depth(self.refs@[p as int]) + 1
        })
        &&& (n is Notr ==> {
            &&& distinct_entries(self.notr(i).entries@)
            &&& distinct_children(self.notr(i).children@)
            &&& forall|k: int| 0 <= k < self.notr(i).children@.len() ==> #[trigger] self.child_link_ok(i, k)
        })
    }

    /// Node 0 is the open root; every other node links to an open parent
    /// before it, one level up, and the parent lists it as its child for
    /// that action unless a later child took the place; no action repeats
    /// among a node's entries or children.
    pub open spec fn wf(&self) -> bool {
        &&& self.refs@.len() > 0
        &&& self.refs@[0] is Notr
        &&& node_parent(self.refs@[0]) is None
        &&& forall|i: int| 0 <= i < self.refs@.len() ==> #[trigger] self.node_wf(i)
    }

    pub proof fn lemma_ancestors(&self, i: int)
        requires
            self.wf(),
            0 <= i < self.refs@.len(),
        ensures
            forall|k: int|
                0 <= k < self.ancestors(i).len() ==> {
                    &&& (#[trigger] self.ancestors(i)[k]).1 < i
                    &&& self.refs@[self.ancestors(i)[k].1 as int] is Notr
                },
            forall|k1: int, k2: int|
                0 <= k1 < k2 < self.ancestors(i).len() ==> #[trigger] self.ancestors(i)[k2].1
                    < #[trigger] self.ancestors(i)[k1].1,
            self.ancestors(i).len() > 0 ==> self.ancestors(i)[0] == node_parent(self.refs@[i])->0,
            self.ancestors(i).len() > 0 ==> self.ancestors(i).subrange(1, self.ancestors(i).len() as int)
                == self.ancestors(self.ancestors(i)[0].1 as int),
            self.ancestors(i).len() == 0 <==> node_parent(self.refs@[i]) is None,
            self.ancestors(i).len() <= i,
        decreases i,
    {
        assert(self.node_wf(i));
        assert(self.parents()[i] == node_parent(self.refs@[i]));
        match node_parent(self.refs@[i]) {
            Some(ap) => {
                let p = ap.1 as int;
                self.lemma_ancestors(p);
                let rest = self.ancestors(p);
                assert(self.ancestors(i) == seq![ap] + rest);
                assert(self.ancestors(i).subrange(1, self.ancestors(i).len() as int) =~= rest);
                assert forall|k: int| 0 <= k < self.ancestors(i).len() implies {
                    &&& (#[trigger] self.ancestors(i)[k]).1 < i
                    &&& self.refs@[self.ancestors(i)[k].1 as int] is Notr
                } by {
                    if k > 0 {
                        assert(self.ancestors(i)[k] == rest[k - 1]);
                    }
                }
                assert forall|k1: int, k2: int|
                    0 <= k1 < k2 < self.ancestors(i).len() implies #[trigger] self.ancestors(i)[k2].1
                        < #[trigger] self.ancestors(i)[k1].1 by {
                    assert(self.ancestors(i)[k2] == rest[k2 - 1]);
                    if k1 > 0 {
                        assert(self.ancestors(i)[k1] == rest[k1 - 1]);
                    }
                }
            },
            None => {},
        }
    }

    /// Selects at an open node the valid action with the last best key
    /// (`keys[k]` scores `valid_actions[k]`), and looks up its child.
    pub fn select_action(&self, node: usize, keys: &Vec<i64>) -> (sel: Selection)
        requires
            self.wf(),
            node < self.refs@.len(),
            self.refs@[node as int] is Notr,
            keys@.len() == self.notr(node as int).valid_actions@.len(),
            keys@.len() > 0,
        ensures
            is_last_max(keys@, sel.index as int),
            sel.action == self.notr(node as int).valid_actions@[sel.index as int],
            sel.child == (if children_map(self.notr(node as int).children@).dom().contains(sel.action) {
                Some(children_map(self.notr(node as int).children@)[sel.action])
            } else {
                None::<usize>
            }),
    {
        proof {
            assert(self.node_wf(node as int));
        }
        match &self.refs[node] {
            Node::Notr(n) => {
                let index = last_argmax(keys);
                let action = n.valid_actions[index];
                let child = find_child(&n.children, action);
                Selection { index, action, child }
            },
            Node::Term(_) => {
                proof {
                    assert(false);
                }
                Selection { index: 0, action: 0, child: None }
            },
        }
    }

    /// The position of `action` among the entries of the open node `node`.
    pub fn entry_position(&self, node: usize, action: Action) -> (pos: Option<usize>)
        requires
            self.wf(),
            node < self.refs@.len(),
            self.refs@[node as int] is Notr,
        ensures
            match pos {
                Some(k) => k < self.notr(node as int).entries@.len()
                    && self.notr(node as int).entries@[k as int].action == action,
                None => !has_entry(self.notr(node as int).entries@, action),
            },
    {
        match &self.refs[node] {
            Node::Notr(n) => find_entry(&n.entries, action),
            Node::Term(_) => {
                proof {
                    assert(false);
                }
                None
            },
        }
    }
}

impl<P, Q> Tree<P, Q> {
    /// Records `child` as the child of the open node `parent_num` for
    /// `action`; nothing else changes.
    fn attach_child(&mut self, parent_num: usize, action: Action, child: usize)
        requires
            old(self).wf(),
            parent_num < old(self).refs@.len(),
            old(self).refs@[parent_num as int] is Notr,
        ensures
            final(self).refs@.len() == old(self).refs@.len(),
            final(self).refs@[parent_num as int] is Notr,
            distinct_children(final(self).notr(parent_num as int).children@),
            children_map(final(self).notr(parent_num as int).children@) == children_map(
                old(self).notr(parent_num as int).children@,
            ).insert(action, child),
            forall|k: int|
                0 <= k < final(self).notr(parent_num as int).children@.len() ==> {
                    let pr = #[trigger] final(self).notr(parent_num as int).children@[k];
                    &&& pr.0 == action || old(self).notr(parent_num as int).children@.contains(pr)
                    &&& pr.0 == action ==> pr.1 == child
                },
            final(self).notr(parent_num as int).num == old(self).notr(parent_num as int).num,
            final(self).notr(parent_num as int).parent == old(self).notr(parent_num as int).parent,
            final(self).notr(parent_num as int).visits == old(self).notr(parent_num as int).visits,
            final(self).notr(parent_num as int).valid_actions == old(self).notr(parent_num as int).valid_actions,
            final(self).notr(parent_num as int).entries == old(self).notr(parent_num as int).entries,
            final(self).notr(parent_num as int).depth == old(self).notr(parent_num as int).depth,
            forall|i: int|
                0 <= i < old(self).refs@.len() && i != parent_num ==> final(self).refs@[i] == old(
                    self,
                ).refs@[i],
    {
        proof {
            assert(self.node_wf(parent_num as int));
        }
        match &mut self.refs[parent_num] {
            Node::Notr(par) => {
                par.add_child(action, child);
            },
            Node::Term(_) => {},
        }
    }

    /// After a new node `num` is attached below `parent_num` and pushed,
    /// the tree is well formed again.
    proof fn lemma_attach_wf(self, t: Self, parent_num: usize, action: Action, num: usize)
        requires
            self.wf(),
            parent_num < self.refs@.len(),
            self.refs@[parent_num as int] is Notr,
            num == self.refs@.len(),
            t.refs@.len() == num + 1,
            t.refs@[parent_num as int] is Notr,
            distinct_children(t.notr(parent_num as int).children@),
            forall|k: int|
                0 <= k < t.notr(parent_num as int).children@.len() ==> {
                    let pr = #[trigger] t.notr(parent_num as int).children@[k];
                    &&& pr.0 == action || self.notr(parent_num as int).children@.contains(pr)
                    &&& pr.0 == action ==> pr.1 == num
                },
            t.notr(parent_num as int).num == self.notr(parent_num as int).num,
            t.notr(parent_num as int).parent == self.notr(parent_num as int).parent,
            t.notr(parent_num as int).entries == self.notr(parent_num as int).entries,
            t.notr(parent_num as int).depth == self.notr(parent_num as int).depth,
            forall|i: int| 0 <= i < num && i != parent_num ==> t.refs@[i] == self.refs@[i],
            node_num(t.refs@[num as int]) == num,
            node_parent(t.refs@[num as int]) == Some((action, parent_num)),
            node_depth(t.refs@[num as int]) == self.notr(parent_num as int).depth + 1,
            t.refs@[num as int] is Notr ==> t.notr(num as int).children@.len() == 0 && distinct_entries(
                t.notr(num as int).entries@,
            ),
        ensures
            t.wf(),
    {
        assert forall|i: int| 0 <= i < t.refs@.len() implies #[trigger] t.node_wf(i) by {
            if i < num {
                assert(self.node_wf(i));
                if let Some((a, p)) = node_parent(self.refs@[i]) {
                    assert(self.refs@[p as int] is Notr);
                    if p == parent_num {
                        assert(node_depth(t.refs@[p as int]) == node_depth(self.refs@[p as int]));
                    } else {
                        assert(t.refs@[p as int] == self.refs@[p as int]);
                    }
                }
                if i == parent_num {
                    assert forall|k: int| 0 <= k < t.notr(i).children@.len() implies #[trigger] t.child_link_ok(i, k) by {
                        let pr = t.notr(i).children@[k];
                        if pr.0 == action {
                            assert(pr.1 == num);
                        } else {
                            let j = choose|j: int| 0 <= j < self.notr(i).children@.len() && self.notr(i).children@[j] == pr;
                            assert(self.child_link_ok(i, j));
                            assert(t.refs@[pr.1 as int] == self.refs@[pr.1 as int]);
                        }
                    }
                } else if t.refs@[i] is Notr {
                    assert forall|k: int| 0 <= k < t.notr(i).children@.len() implies #[trigger] t.child_link_ok(i, k) by {
                        assert(self.child_link_ok(i, k));
                        let pr = t.notr(i).children@[k];
                        if pr.1 != parent_num {
                            assert(t.refs@[pr.1 as int] == self.refs@[pr.1 as int]);
                        }
                    }
                }
            } else {
                assert(i == num);
            }
        }
    }
}

/// `b` is the open node `a` after one backup through it along `action`:
/// one more visit, one more count for the entry of `action` (if any), and
/// nothing else changed.
pub open spec fn bumped<P, Q>(a: Notr<P, Q>, b: Notr<P, Q>, action: Action) -> bool {
    &&& b.num == a.num
    &&& b.parent == a.parent
    &&& b.children == a.children
    &&& b.valid_actions == a.valid_actions
    &&& b.depth == a.depth
    &&& b.visits == a.visits + 1
    &&& b.entries@.len() == a.entries@.len()
    &&& forall|j: int|
        0 <= j < a.entries@.len() ==> {
            let x = #[trigger] a.entries@[j];
            let y = b.entries@[j];
            &&& y.action == x.action
            &&& y.prob == x.prob
            &&& y.q == x.q
            &&& y.count == x.count + (if x.action == action {
                1int
            } else {
                0int
            })
        }
}

/// Counts can still grow: no visit count and no action count is at the top.
pub open spec fn room_to_count<P, Q>(n: Notr<P, Q>) -> bool {
    &&& n.visits < u64::MAX
    &&& forall|j: int| 0 <= j < n.entries@.len() ==> (#[trigger] n.entries@[j]).count < u64::MAX
}

fn bump_notr<P, Q>(n: &mut Notr<P, Q>, e: Option<usize>)
    requires
        room_to_count(*old(n)),
        match e {
            Some(j) => j < old(n).entries@.len(),
            None => true,
        },
    ensures
        final(n).num == old(n).num,
        final(n).parent == old(n).parent,
        final(n).children == old(n).children,
        final(n).valid_actions == old(n).valid_actions,
        final(n).depth == old(n).depth,
        final(n).visits == old(n).visits + 1,
        final(n).entries@.len() == old(n).entries@.len(),
        forall|j: int|
            0 <= j < old(n).entries@.len() ==> {
                let x = #[trigger] old(n).entries@[j];
                let y = final(n).entries@[j];
                &&& y.action == x.action
                &&& y.prob == x.prob
                &&& y.q == x.q
                &&& y.count == x.count + (if picks(e, j) {
                    1int
                } else {
                    0int
                })
            },
{
    n.visits = n.visits + 1;
    match e {
        Some(j) => {
            let ghost before = n.entries@;
            let c = n.entries[j].count;
            n.entries[j].count = c + 1;
            assert(n.entries@[j as int].action == before[j as int].action);
            assert(n.entries@[j as int].prob == before[j as int].prob);
            assert(n.entries@[j as int].q == before[j as int].q);
            assert(n.entries@[j as int].count == before[j as int].count + 1);
            assert forall|i: int| 0 <= i < before.len() && i != j implies n.entries@[i] == before[i] by {}
            assert(n.entries@.len() == before.len());
            assert(before == old(n).entries@);
            assert forall|i: int| 0 <= i < old(n).entries@.len() implies {
                let x = #[trigger] old(n).entries@[i];
                let y = n.entries@[i];
                &&& y.action == x.action
                &&& y.prob == x.prob
                &&& y.q == x.q
                &&& y.count == x.count + (if picks(e, i) {
                    1int
                } else {
                    0int
                })
            } by {
                if i != j {
                    assert(n.entries@[i] == before[i]);
                }
            }
        },
        None => {},
    }
}

impl<P, Q> Tree<P, Q> {
    /// The two trees agree on everything but visit and action counts.
    pub open spec fn same_shape(&self, t: Self) -> bool {
        &&& t.refs@.len() == self.refs@.len()
        &&& forall|i: int|
            0 <= i < self.refs@.len() ==> {
                let a = #[trigger] self.refs@[i];
                let b = t.refs@[i];
                &&& (a is Notr <==> b is Notr)
                &&& node_num(a) == node_num(b)
                &&& node_parent(a) == node_parent(b)
                &&& node_depth(a) == node_depth(b)
                &&& (a is Notr ==> {
                    &&& notr_of(a).children == notr_of(b).children
                    &&& notr_of(a).entries@.len() == notr_of(b).entries@.len()
                    &&& forall|j: int|
                        0 <= j < notr_of(a).entries@.len() ==> (#[trigger] notr_of(a).entries@[j]).action
                            == notr_of(b).entries@[j].action
                })
            }
    }

    pub proof fn lemma_same_shape_wf(&self, t: Self)
        requires
            self.wf(),
            self.same_shape(t),
        ensures
            t.wf(),
            t.parents() == self.parents(),
    {
        assert(t.parents() =~= self.parents());
        assert(self.refs@[0] == self.refs@[0]);
        assert forall|i: int| 0 <= i < t.refs@.len() implies #[trigger] t.node_wf(i) by {
            assert(self.node_wf(i));
            let a = self.refs@[i];
            if let Some((x, p)) = node_parent(a) {
                assert(self.refs@[p as int] == self.refs@[p as int]);
            }
            if a is Notr {
                assert forall|j1: int, j2: int|
                    0 <= j1 < t.notr(i).entries@.len() && 0 <= j2 < t.notr(i).entries@.len() && j1 != j2
                        implies #[trigger] t.notr(i).entries@[j1].action != #[trigger] t.notr(i).entries@[j2].action by {
                    assert(self.notr(i).entries@[j1].action == t.notr(i).entries@[j1].action);
                    assert(self.notr(i).entries@[j2].action == t.notr(i).entries@[j2].action);
                }
                assert forall|k: int| 0 <= k < t.notr(i).children@.len() implies #[trigger] t.child_link_ok(i, k) by {
                    assert(self.child_link_ok(i, k));
                    let c = self.notr(i).children@[k].1 as int;
                    assert(self.refs@[c] == self.refs@[c]);
                }
            }
        }
    }

    /// One more visit for the open node `p`, and one more count for its
    /// entry at position `e`, if given.
    fn bump(&mut self, p: usize, e: Option<usize>)
        requires
            p < old(self).refs@.len(),
            old(self).refs@[p as int] is Notr,
            room_to_count(old(self).notr(p as int)),
            match e {
                Some(j) => j < old(self).notr(p as int).entries@.len(),
                None => true,
            },
        ensures
            final(self).refs@.len() == old(self).refs@.len(),
            final(self).refs@[p as int] is Notr,
            forall|i: int| 0 <= i < old(self).refs@.len() && i != p ==> final(self).refs@[i] == old(self).refs@[i],
            final(self).notr(p as int).num == old(self).notr(p as int).num,
            final(self).notr(p as int).parent == old(self).notr(p as int).parent,
            final(self).notr(p as int).children == old(self).notr(p as int).children,
            final(self).notr(p as int).valid_actions == old(self).notr(p as int).valid_actions,
            final(self).notr(p as int).depth == old(self).notr(p as int).depth,
            final(self).notr(p as int).visits == old(self).notr(p as int).visits + 1,
            final(self).notr(p as int).entries@.len() == old(self).notr(p as int).entries@.len(),
            forall|j: int|
                0 <= j < old(self).notr(p as int).entries@.len() ==> {
                    let x = #[trigger] old(self).notr(p as int).entries@[j];
                    let y = final(self).notr(p as int).entries@[j];
                    &&& y.action == x.action
                    &&& y.prob == x.prob
                    &&& y.q == x.q
                    &&& y.count == x.count + (if picks(e, j) {
                        1int
                    } else {
                        0int
                    })
                },
    {
        match &mut self.refs[p] {
            Node::Notr(n) => {
                bump_notr(n, e);
            },
            Node::Term(_) => {},
        }
    }

    /// Backs a result up from node `start` to the root: every ancestor
    /// gains a visit, and the count of the action taken from it (if it has
    /// an entry for it) grows by one. Returns one step per ancestor, the
    /// nearest first: the ancestor, the position of that entry, and whether
    /// the reward reaches it negated; the reward alternates sign from one
    /// ancestor to the next, the nearest taking it as it is.
    pub fn backup(&mut self, start: usize) -> (steps: Vec<BackupStep>)
        requires
            old(self).wf(),
            start < old(self).refs@.len(),
            forall|k: int|
                0 <= k < old(self).ancestors(start as int).len() ==> room_to_count(
                    old(self).notr((#[trigger] old(self).ancestors(start as int)[k]).1 as int),
                ),
        ensures
            final(self).wf(),
            final(self).refs@.len() == old(self).refs@.len(),
            final(self).parents() == old(self).parents(),
            steps@.len() == old(self).ancestors(start as int).len(),
            forall|k: int|
                0 <= k < steps@.len() ==> {
                    let (a, p) = #[trigger] old(self).ancestors(start as int)[k];
                    &&& steps@[k].node == p
                    &&& steps@[k].negated == (k % 2 == 1)
                    &&& match steps@[k].entry {
                        Some(e) => e < old(self).notr(p as int).entries@.len()
                            && old(self).notr(p as int).entries@[e as int].action == a,
                        None => !has_entry(old(self).notr(p as int).entries@, a),
                    }
                    &&& final(self).refs@[p as int] is Notr
                    &&& bumped(old(self).notr(p as int), final(self).notr(p as int), a)
                },
            forall|i: int|
                0 <= i < old(self).refs@.len() && (forall|k: int|
                    0 <= k < old(self).ancestors(start as int).len() ==> (#[trigger] old(self).ancestors(
                        start as int,
                    )[k]).1 != i) ==> final(self).refs@[i] == old(self).refs@[i],
    {
        let ghost old_t = *self;
        let ghost anc = old_t.ancestors(start as int);
        proof {
            old_t.lemma_ancestors(start as int);
        }
        let mut steps: Vec<BackupStep> = Vec::new();
        let mut cur = start;
        let mut k: usize = 0;
        let mut done = false;
        while !done
            invariant
                old_t.wf(),
                anc == old_t.ancestors(start as int),
                forall|j: int| 0 <= j < anc.len() ==> room_to_count(old_t.notr((#[trigger] anc[j]).1 as int)),
                forall|j: int|
                    0 <= j < anc.len() ==> {
                        &&& (#[trigger] anc[j]).1 < start
                        &&& old_t.refs@[anc[j].1 as int] is Notr
                    },
                forall|j1: int, j2: int| 0 <= j1 < j2 < anc.len() ==> #[trigger] anc[j2].1 < #[trigger] anc[j1].1,
                k <= anc.len(),
                anc.len() <= start,
                cur < old_t.refs@.len(),
                k > 0 ==> cur == anc[k - 1].1,
                k == 0 ==> cur == start,
                done ==> k == anc.len(),
                !done ==> old_t.ancestors(cur as int) == anc.subrange(k as int, anc.len() as int),
                old_t.same_shape(*self),
                steps@.len() == k,
                forall|j: int|
                    0 <= j < k ==> {
                        let (a, p) = #[trigger] anc[j];
                        &&& steps@[j].node == p
                        &&& steps@[j].negated == (j % 2 == 1)
                        &&& match steps@[j].entry {
                            Some(e) => e < old_t.notr(p as int).entries@.len()
                                && old_t.notr(p as int).entries@[e as int].action == a,
                            None => !has_entry(old_t.notr(p as int).entries@, a),
                        }
                        &&& self.refs@[p as int] is Notr
                        &&& bumped(old_t.notr(p as int), self.notr(p as int), a)
                    },
                forall|i: int|
                    0 <= i < old_t.refs@.len() && (forall|j: int| 0 <= j < k ==> (#[trigger] anc[j]).1 != i)
                        ==> self.refs@[i] == old_t.refs@[i],
            decreases cur + (if done {
                0int
            } else {
                1int
            }),
        {
            proof {
                old_t.lemma_ancestors(cur as int);
                assert(self.refs@[cur as int] == self.refs@[cur as int]);
            }
            let par = match &self.refs[cur] {
                Node::Notr(n) => n.parent,
                Node::Term(t) => t.parent,
            };
            match par {
                Some((a, p)) => {
                    proof {
                        assert(old_t.ancestors(cur as int).len() > 0);
                        assert(anc[k as int] == old_t.ancestors(cur as int)[0]);
                        assert(anc[k as int] == (a, p));
                        assert forall|j: int| 0 <= j < k implies (#[trigger] anc[j]).1 != p by {
                            assert(anc[k as int].1 < anc[j].1);
                        }
                        assert(self.refs@[p as int] == old_t.refs@[p as int]);
                        assert(old_t.node_wf(p as int));
                    }
                    let e = match &self.refs[p] {
                        Node::Notr(n) => find_entry(&n.entries, a),
                        Node::Term(_) => None,
                    };
                    let ghost before = *self;
                    self.bump(p, e);
                    steps.push(BackupStep { node: p, entry: e, negated: k % 2 == 1 });
                    proof {
                        let o = old_t.notr(p as int);
                        let nw = self.notr(p as int);
                        assert forall|j: int| 0 <= j < o.entries@.len() implies {
                            let x = #[trigger] o.entries@[j];
                            let y = nw.entries@[j];
                            &&& y.action == x.action
                            &&& y.prob == x.prob
                            &&& y.q == x.q
                            &&& y.count == x.count + (if x.action == a {
                                1int
                            } else {
                                0int
                            })
                        } by {
                            if let Some(ei) = e {
                                if o.entries@[j].action == a {
                                    assert(o.entries@[j].action == o.entries@[ei as int].action);
                                }
                            }
                        }
                        assert(bumped(o, nw, a));
                        assert forall|j: int| 0 <= j < k + 1 implies {
                            let (aa, pp) = #[trigger] anc[j];
                            &&& steps@[j].node == pp
                            &&& steps@[j].negated == (j % 2 == 1)
                            &&& match steps@[j].entry {
                                Some(e) => e < old_t.notr(pp as int).entries@.len()
                                    && old_t.notr(pp as int).entries@[e as int].action == aa,
                                None => !has_entry(old_t.notr(pp as int).entries@, aa),
                            }
                            &&& self.refs@[pp as int] is Notr
                            &&& bumped(old_t.notr(pp as int), self.notr(pp as int), aa)
                        } by {
                            if j < k {
                                assert(anc[k as int].1 < anc[j].1);
                                assert(self.refs@[anc[j].1 as int] == before.refs@[anc[j].1 as int]);
                            }
                        }
                        assert forall|i: int|
                            0 <= i < old_t.refs@.len() && (forall|j: int| 0 <= j < k + 1 ==> (#[trigger] anc[j]).1 != i)
                                implies self.refs@[i] == old_t.refs@[i] by {
                            assert(anc[k as int].1 != i);
                        }
                        assert(old_t.ancestors(p as int) =~= anc.subrange(k as int + 1, anc.len() as int));
                    }
                    cur = p;
                    k += 1;
                },
                None => {
                    proof {
                        assert(old_t.ancestors(cur as int).len() == 0);
                    }
                    done = true;
                },
            }
        }
        proof {
            old_t.lemma_same_shape_wf(*self);
        }
        steps
    }
}

/// The optional position `e` is `i`.
pub open spec fn picks(e: Option<usize>, i: int) -> bool {
    match e {
        Some(j) => j == i,
        None => false,
    }
}

pub proof fn lemma_sum_counts_prefix<P, Q>(e: Seq<ActionEntry<P, Q>>, j: int)
    requires
        0 <= j < e.len(),
    ensures
        sum_counts(e.subrange(0, j + 1)) == sum_counts(e.subrange(0, j)) + e[j].count,
        sum_counts(e.subrange(0, j)) <= sum_counts(e.subrange(0, j + 1)),
{
    assert(e.subrange(0, j + 1).drop_last() =~= e.subrange(0, j));
}

pub proof fn lemma_sum_counts_monotone<P, Q>(e: Seq<ActionEntry<P, Q>>, j: int)
    requires
        0 <= j <= e.len(),
    ensures
        sum_counts(e.subrange(0, j)) <= sum_counts(e),
    decreases e.len() - j,
{
    if j < e.len() {
        lemma_sum_counts_prefix(e, j);
        lemma_sum_counts_monotone(e, j + 1);
    } else {
        assert(e.subrange(0, j) =~= e);
    }
}

/// Raising the counts of entries keeps the sum in step: when `b` differs
/// from `a` by one more count exactly where the action is `act`, and `act`
/// occurs once, the sum grows by one.
pub proof fn lemma_sum_counts_bump<P, Q>(a: Seq<ActionEntry<P, Q>>, b: Seq<ActionEntry<P, Q>>, act: Action)
    requires
        a.len() == b.len(),
        distinct_entries(a),
        has_entry(a, act),
        forall|j: int|
            0 <= j < a.len() ==> (#[trigger] b[j]).count == a[j].count + (if a[j].action == act {
                1int
            } else {
                0int
            }),
    ensures
        sum_counts(b) == sum_counts(a) + 1,
    decreases a.len(),
{
    let n = a.len();
    let k = choose|k: int| 0 <= k < a.len() && a[k].action == act;
    if a[n - 1].action == act {
        assert forall|j: int| 0 <= j < n - 1 implies #[trigger] b.drop_last()[j].count == a.drop_last()[j].count by {
            assert(a[j].action != a[n - 1].action);
        }
        lemma_sum_counts_equal(a.drop_last(), b.drop_last());
    } else {
        assert(k < n - 1);
        assert forall|i: int, j: int|
            0 <= i < a.drop_last().len() && 0 <= j < a.drop_last().len() && i != j implies #[trigger] a.drop_last()[i].action
                != #[trigger] a.drop_last()[j].action by {
            assert(a[i].action != a[j].action);
        }
        assert(a.drop_last()[k].action == act);
        assert forall|j: int| 0 <= j < a.drop_last().len() implies (#[trigger] b.drop_last()[j]).count
            == a.drop_last()[j].count + (if a.drop_last()[j].action == act {
            1int
        } else {
            0int
        }) by {
            assert(b.drop_last()[j] == b[j]);
        }
        lemma_sum_counts_bump(a.drop_last(), b.drop_last(), act);
    }
}

pub proof fn lemma_sum_counts_equal<P, Q>(a: Seq<ActionEntry<P, Q>>, b: Seq<ActionEntry<P, Q>>)
    requires
        a.len() == b.len(),
        forall|j: int| 0 <= j < a.len() ==> (#[trigger] b[j]).count == a[j].count,
    ensures
        sum_counts(b) == sum_counts(a),
    decreases a.len(),
{
    if a.len() > 0 {
        assert forall|j: int| 0 <= j < a.drop_last().len() implies (#[trigger] b.drop_last()[j]).count == a.drop_last()[j].count by {
            assert(b.drop_last()[j] == b[j]);
        }
        lemma_sum_counts_equal(a.drop_last(), b.drop_last());
    }
}

/// An open node has been visited once more than its actions have been
/// counted: the visit it was created with.
pub open spec fn balanced<P, Q>(n: Notr<P, Q>) -> bool {
    n.visits == 1 + sum_counts(n.entries@)
}

/// Law: a node starts balanced, and a backup through it along one of its
/// valid actions keeps it balanced.
pub proof fn lemma_backup_keeps_balance<P, Q>(a: Notr<P, Q>, b: Notr<P, Q>, act: Action)
    requires
        balanced(a),
        distinct_entries(a.entries@),
        has_entry(a.entries@, act),
        bumped(a, b, act),
    ensures
        balanced(b),
{
    assert forall|j: int| 0 <= j < a.entries@.len() implies (#[trigger] b.entries@[j]).count
        == a.entries@[j].count + (if a.entries@[j].action == act {
        1int
    } else {
        0int
    }) by {
        let x = a.entries@[j];
    }
    lemma_sum_counts_bump(a.entries@, b.entries@, act);
}

/// Law: fresh entries have not been counted, so a fresh node visited once
/// is balanced.
pub proof fn lemma_fresh_balanced<P, Q>(n: Notr<P, Q>, pi: Seq<P>, q0: Q)
    requires
        fresh_entries(n.entries@, n.valid_actions@, pi, q0),
        n.visits == 1,
    ensures
        balanced(n),
{
    lemma_sum_counts_zero(n.entries@);
}

pub proof fn lemma_sum_counts_zero<P, Q>(e: Seq<ActionEntry<P, Q>>)
    requires
        forall|j: int| 0 <= j < e.len() ==> (#[trigger] e[j]).count == 0,
    ensures
        sum_counts(e) == 0,
    decreases e.len(),
{
    if e.len() > 0 {
        assert forall|j: int| 0 <= j < e.drop_last().len() implies (#[trigger] e.drop_last()[j]).count == 0 by {
            assert(e.drop_last()[j] == e[j]);
        }
        lemma_sum_counts_zero(e.drop_last());
    }
}

impl<P, Q> Tree<P, Q> {
    /// The root's action counts laid out over all move codes, and their sum;
    /// the improved policy divides the first by the second.
    pub fn improved_policy_counts(&self) -> (r: (Vec<u64>, u64))
        requires
            self.wf(),
            forall|j: int|
                0 <= j < self.notr(0).entries@.len() ==> ((#[trigger] self.notr(0).entries@[j]).action as int)
                    < POLICY_SIZE,
            sum_counts(self.notr(0).entries@) <= u64::MAX,
        ensures
            r.0@.len() == POLICY_SIZE,
            forall|j: int|
                0 <= j < self.notr(0).entries@.len() ==> r.0@[(#[trigger] self.notr(0).entries@[j]).action as int]
                    == self.notr(0).entries@[j].count,
            forall|a: int|
                0 <= a < POLICY_SIZE && !has_entry(self.notr(0).entries@, a as Action) ==> #[trigger] r.0@[a]
                    == 0,
            r.1 == sum_counts(self.notr(0).entries@),
    {
        let mut counts: Vec<u64> = Vec::new();
        let mut a: usize = 0;
        while a < POLICY_SIZE
            invariant
                a <= POLICY_SIZE,
                counts@.len() == a,
                forall|b: int| 0 <= b < a ==> #[trigger] counts@[b] == 0,
            decreases POLICY_SIZE - a,
        {
            counts.push(0);
            a += 1;
        }
        let mut total: u64 = 0;
        match &self.refs[0] {
            Node::Notr(root) => {
                let ghost e = root.entries@;
                proof {
                    assert(self.node_wf(0));
                }
                let mut j: usize = 0;
                while j < root.entries.len()
                    invariant
                        e == root.entries@,
                        e == self.notr(0).entries@,
                        distinct_entries(e),
                        forall|i: int| 0 <= i < e.len() ==> ((#[trigger] e[i]).action as int) < POLICY_SIZE,
                        sum_counts(e) <= u64::MAX,
                        j <= e.len(),
                        counts@.len() == POLICY_SIZE,
                        total == sum_counts(e.subrange(0, j as int)),
                        forall|i: int| 0 <= i < j ==> counts@[(#[trigger] e[i]).action as int] == e[i].count,
                        forall|b: int|
                            0 <= b < POLICY_SIZE && (forall|i: int| 0 <= i < j ==> (#[trigger] e[i]).action != b)
                                ==> #[trigger] counts@[b] == 0,
                    decreases e.len() - j,
                {
                    proof {
                        lemma_sum_counts_prefix(e, j as int);
                        lemma_sum_counts_monotone(e, j as int + 1);
                    }
                    let entry = &root.entries[j];
                    let ghost before = counts@;
                    counts.set(entry.action as usize, entry.count);
                    total = total + entry.count;
                    proof {
                        assert forall|i: int| 0 <= i < j + 1 implies counts@[(#[trigger] e[i]).action as int]
                            == e[i].count by {
                            if i < j {
                                assert(e[i].action != e[j as int].action);
                            }
                        }
                    }
                    j += 1;
                }
                proof {
                    assert(e.subrange(0, e.len() as int) =~= e);
                    assert forall|b: int|
                        0 <= b < POLICY_SIZE && !has_entry(e, b as Action) implies #[trigger] counts@[b] == 0 by {
                        assert forall|i: int| 0 <= i < e.len() implies (#[trigger] e[i]).action != b by {
                            if e[i].action == b {
                                assert(e[i].action == b as Action);
                            }
                        }
                    }
                }
            },
            Node::Term(_) => {},
        }
        (counts, total)
    }
}

impl<P, Q> Tree<P, Q> {
    /// The visits of node `c`: those of an open node, none for a node of a
    /// finished game.
    pub open spec fn node_visits(&self, c: int) -> int {
        match self.refs@[c] {
            Node::Notr(n) => n.visits as int,
            Node::Term(_) => 0,
        }
    }

    /// The visits of the listed children, summed.
    pub open spec fn sum_child_visits(&self, c: Seq<(Action, usize)>) -> int
        decreases c.len(),
    {
        if c.len() == 0 {
            0
        } else {
            self.sum_child_visits(c.drop_last()) + self.node_visits(c.last().1 as int)
        }
    }

    pub proof fn lemma_sum_child_visits_prefix(&self, c: Seq<(Action, usize)>, j: int)
        requires
            0 <= j < c.len(),
        ensures
            self.sum_child_visits(c.subrange(0, j + 1)) == self.sum_child_visits(c.subrange(0, j))
                + self.node_visits(c[j].1 as int),
    {
        assert(c.subrange(0, j + 1).drop_last() =~= c.subrange(0, j));
    }

    pub proof fn lemma_sum_child_visits_monotone(&self, c: Seq<(Action, usize)>, j: int)
        requires
            0 <= j <= c.len(),
        ensures
            self.sum_child_visits(c.subrange(0, j)) <= self.sum_child_visits(c),
        decreases c.len() - j,
    {
        if j < c.len() {
            self.lemma_sum_child_visits_prefix(c, j);
            assert(self.node_visits(c[j].1 as int) >= 0);
            self.lemma_sum_child_visits_monotone(c, j + 1);
        } else {
            assert(c.subrange(0, j) =~= c);
        }
    }

    /// The visits of the root's children laid out over all move codes, and
    /// their sum: the policy of the sequential search divides the first by
    /// the second. A child of a finished game counts no visits.
    pub fn child_visit_counts(&self) -> (r: (Vec<u64>, u64))
        requires
            self.wf(),
            forall|j: int|
                0 <= j < self.notr(0).children@.len() ==> ((#[trigger] self.notr(0).children@[j]).0 as int)
                    < POLICY_SIZE,
            self.sum_child_visits(self.notr(0).children@) <= u64::MAX,
        ensures
            r.0@.len() == POLICY_SIZE,
            forall|j: int|
                0 <= j < self.notr(0).children@.len() ==> r.0@[(#[trigger] self.notr(0).children@[j]).0 as int]
                    == self.node_visits(self.notr(0).children@[j].1 as int),
            forall|a: int|
                0 <= a < POLICY_SIZE && !children_map(self.notr(0).children@).dom().contains(a as Action)
                    ==> #[trigger] r.0@[a] == 0,
            r.1 == self.sum_child_visits(self.notr(0).children@),
    {
        let mut counts: Vec<u64> = Vec::new();
        let mut a: usize = 0;
        while a < POLICY_SIZE
            invariant
                a <= POLICY_SIZE,
                counts@.len() == a,
                forall|b: int| 0 <= b < a ==> #[trigger] counts@[b] == 0,
            decreases POLICY_SIZE - a,
        {
            counts.push(0);
            a += 1;
        }
        let mut total: u64 = 0;
        proof {
            assert(self.node_wf(0));
        }
        match &self.refs[0] {
            Node::Notr(root) => {
                let ghost c = root.children@;
                let mut j: usize = 0;
                while j < root.children.len()
                    invariant
                        self.wf(),
                        c == root.children@,
                        c == self.notr(0).children@,
                        distinct_children(c),
                        forall|k: int| 0 <= k < c.len() ==> #[trigger] self.child_link_ok(0, k),
                        forall|i: int| 0 <= i < c.len() ==> ((#[trigger] c[i]).0 as int) < POLICY_SIZE,
                        self.sum_child_visits(c) <= u64::MAX,
                        j <= c.len(),
                        counts@.len() == POLICY_SIZE,
                        total == self.sum_child_visits(c.subrange(0, j as int)),
                        forall|i: int|
                            0 <= i < j ==> counts@[(#[trigger] c[i]).0 as int] == self.node_visits(c[i].1 as int),
                        forall|b: int|
                            0 <= b < POLICY_SIZE && (forall|i: int| 0 <= i < j ==> (#[trigger] c[i]).0 != b)
                                ==> #[trigger] counts@[b] == 0,
                    decreases c.len() - j,
                {
                    proof {
                        self.lemma_sum_child_visits_prefix(c, j as int);
                        self.lemma_sum_child_visits_monotone(c, j as int + 1);
                        assert(self.child_link_ok(0, j as int));
                    }
                    let (action, child) = root.children[j];
                    let v: u64 = match &self.refs[child] {
                        Node::Notr(n) => n.visits,
                        Node::Term(_) => 0,
                    };
                    counts.set(action as usize, v);
                    total = total + v;
                    proof {
                        assert forall|i: int| 0 <= i < j + 1 implies counts@[(#[trigger] c[i]).0 as int]
                            == self.node_visits(c[i].1 as int) by {
                            if i < j {
                                assert(c[i].0 != c[j as int].0);
                            }
                        }
                    }
                    j += 1;
                }
                proof {
                    assert(c.subrange(0, c.len() as int) =~= c);
                    assert forall|b: int|
                        0 <= b < POLICY_SIZE && !children_map(c).dom().contains(b as Action) implies #[trigger] counts@[b] == 0 by {
                        assert forall|i: int| 0 <= i < c.len() implies (#[trigger] c[i]).0 != b by {
                            if c[i].0 == b {
                                assert(c[i].0 == b as Action);
                            }
                        }
                    }
                }
            },
            Node::Term(_) => {},
        }
        (counts, total)
    }
}

/// `x` is the (action, count) pair of one of the first `n` entries.
pub open spec fn pair_of_prefix<P, Q>(e: Seq<ActionEntry<P, Q>>, n: int, x: (Action, u64)) -> bool {
    exists|j: int| 0 <= j < n && x == count_pair(e[j])
}

/// The (action, count) pair of an entry.
pub open spec fn count_pair<P, Q>(e: ActionEntry<P, Q>) -> (Action, u64) {
    (e.action, e.count)
}

impl<P, Q> Notr<P, Q> {
    /// The action counts from the highest down: every entry's (action,
    /// count) pair once, in non-increasing order of count; the order among
    /// equal counts is left open.
    pub fn ranked_counts(&self) -> (ranked: Vec<(Action, u64)>)
        requires
            distinct_entries(self.entries@),
        ensures
            ranked@.len() == self.entries@.len(),
            forall|k: int|
                0 <= k < ranked@.len() ==> pair_of_prefix(self.entries@, self.entries@.len() as int, #[trigger] ranked@[k]),
            forall|j: int|
                0 <= j < self.entries@.len() ==> ranked@.contains(count_pair(#[trigger] self.entries@[j])),
            forall|a: int, b: int| 0 <= a < b < ranked@.len() ==> (#[trigger] ranked@[a]).1 >= (#[trigger] ranked@[b]).1,
    {
        let mut ranked: Vec<(Action, u64)> = Vec::new();
        let mut i: usize = 0;
        while i < self.entries.len()
            invariant
                i <= self.entries@.len(),
                ranked@.len() == i,
                forall|k: int|
                    0 <= k < ranked@.len() ==> pair_of_prefix(self.entries@, i as int, #[trigger] ranked@[k]),
                forall|j: int| 0 <= j < i ==> ranked@.contains(count_pair(#[trigger] self.entries@[j])),
                forall|a: int, b: int| 0 <= a < b < ranked@.len() ==> (#[trigger] ranked@[a]).1 >= (#[trigger] ranked@[b]).1,
            decreases self.entries@.len() - i,
        {
            let x = (self.entries[i].action, self.entries[i].count);
            let mut pos: usize = 0;
            while pos < ranked.len() && ranked[pos].1 >= x.1
                invariant
                    pos <= ranked@.len(),
                    forall|k: int| 0 <= k < pos ==> (#[trigger] ranked@[k]).1 >= x.1,
                decreases ranked@.len() - pos,
            {
                pos += 1;
            }
            let ghost before = ranked@;
            ranked.insert(pos, x);
            proof {
                assert(ranked@ == before.insert(pos as int, x));
                assert forall|a: int, b: int| 0 <= a < b < ranked@.len() implies (#[trigger] ranked@[a]).1
                    >= (#[trigger] ranked@[b]).1 by {
                    if b < pos {
                        assert(ranked@[a] == before[a] && ranked@[b] == before[b]);
                    } else if b == pos {
                        assert(ranked@[a] == before[a]);
                    } else if a == pos {
                        assert(ranked@[b] == before[b - 1]);
                        if pos < before.len() {
                            assert(before[pos as int].1 < x.1);
                            if b - 1 > pos {
                                assert(before[pos as int].1 >= before[b - 1].1);
                            }
                        }
                    } else if a < pos {
                        assert(ranked@[a] == before[a] && ranked@[b] == before[b - 1]);
                    } else {
                        assert(ranked@[a] == before[a - 1] && ranked@[b] == before[b - 1]);
                    }
                }
                assert forall|k: int| 0 <= k < ranked@.len() implies pair_of_prefix(self.entries@, i + 1, #[trigger] ranked@[k]) by {
                    if k < pos {
                        assert(ranked@[k] == before[k]);
                        assert(pair_of_prefix(self.entries@, i as int, before[k]));
                    } else if k == pos {
                        assert(ranked@[k] == count_pair(self.entries@[i as int]));
                    } else {
                        assert(ranked@[k] == before[k - 1]);
                        assert(pair_of_prefix(self.entries@, i as int, before[k - 1]));
                    }
                }
                assert forall|j: int| 0 <= j < i + 1 implies ranked@.contains(count_pair(#[trigger] self.entries@[j])) by {
                    if j < i {
                        let k = choose|k: int| 0 <= k < before.len() && before[k] == count_pair(self.entries@[j]);
                        if k < pos {
                            assert(ranked@[k] == before[k]);
                        } else {
                            assert(ranked@[k + 1] == before[k]);
                        }
                    } else {
                        assert(ranked@[pos as int] == x);
                    }
                }
            }
            i += 1;
        }
        ranked
    }
}

/// The positions of the ones of a move mask, as moves.
pub fn indices_of_ones(mask: &Vec<i8>) -> (moves: Vec<Action>)
    requires
        mask@.len() <= 0x1_0000_0000,
    ensures
        forall|a: int, b: int| 0 <= a < b < moves@.len() ==> moves@[a] < moves@[b],
        forall|k: int| 0 <= k < moves@.len() ==> (#[trigger] moves@[k] as int) < mask@.len() && mask@[moves@[k] as int] == 1,
        forall|i: int| 0 <= i < mask@.len() && #[trigger] mask@[i] == 1 ==> moves@.contains(i as Action),
{
    let mut moves: Vec<Action> = Vec::new();
    let mut i: usize = 0;
    while i < mask.len()
        invariant
            i <= mask@.len(),
            mask@.len() <= 0x1_0000_0000,
            forall|a: int, b: int| 0 <= a < b < moves@.len() ==> moves@[a] < moves@[b],
            forall|k: int| 0 <= k < moves@.len() ==> (#[trigger] moves@[k] as int) < i && mask@[moves@[k] as int] == 1,
            forall|j: int| 0 <= j < i && #[trigger] mask@[j] == 1 ==> moves@.contains(j as Action),
        decreases mask@.len() - i,
    {
        let ghost before = moves@;
        if mask[i] == 1 {
            moves.push(i as Action);
            proof {
                assert(moves@[moves@.len() - 1] == i as Action);
            }
        }
        proof {
            assert forall|j: int| 0 <= j < i + 1 && #[trigger] mask@[j] == 1 implies moves@.contains(j as Action) by {
                if j < i {
                    let k = choose|k: int| 0 <= k < before.len() && before[k] == j as Action;
                    assert(moves@[k] == before[k]);
                }
            }
        }
        i += 1;
    }
    moves
}

fn set_entry_stats<P, Q>(n: &mut Notr<P, Q>, e: usize, prob: P, q: Q)
    requires
        e < old(n).entries@.len(),
    ensures
        final(n).num == old(n).num,
        final(n).parent == old(n).parent,
        final(n).children == old(n).children,
        final(n).valid_actions == old(n).valid_actions,
        final(n).depth == old(n).depth,
        final(n).visits == old(n).visits,
        final(n).entries@.len() == old(n).entries@.len(),
        final(n).entries@[e as int].action == old(n).entries@[e as int].action,
        final(n).entries@[e as int].count == old(n).entries@[e as int].count,
        final(n).entries@[e as int].prob == prob,
        final(n).entries@[e as int].q == q,
        forall|j: int| 0 <= j < old(n).entries@.len() && j != e ==> final(n).entries@[j] == old(n).entries@[j],
{
    n.entries[e].prob = prob;
    n.entries[e].q = q;
}

impl<P, Q> Tree<P, Q> {
    /// Replaces the caller's prior and mean value of entry `e` of the open
    /// node `node`; nothing else changes.
    pub fn set_entry_stats(&mut self, node: usize, e: usize, prob: P, q: Q)
        requires
            old(self).wf(),
            node < old(self).refs@.len(),
            old(self).refs@[node as int] is Notr,
            e < old(self).notr(node as int).entries@.len(),
        ensures
            final(self).wf(),
            final(self).refs@.len() == old(self).refs@.len(),
            final(self).refs@[node as int] is Notr,
            forall|i: int| 0 <= i < old(self).refs@.len() && i != node ==> final(self).refs@[i] == old(self).refs@[i],
            final(self).notr(node as int).num == old(self).notr(node as int).num,
            final(self).notr(node as int).parent == old(self).notr(node as int).parent,
            final(self).notr(node as int).children == old(self).notr(node as int).children,
            final(self).notr(node as int).valid_actions == old(self).notr(node as int).valid_actions,
            final(self).notr(node as int).depth == old(self).notr(node as int).depth,
            final(self).notr(node as int).visits == old(self).notr(node as int).visits,
            final(self).notr(node as int).entries@.len() == old(self).notr(node as int).entries@.len(),
            final(self).notr(node as int).entries@[e as int].action == old(self).notr(node as int).entries@[e as int].action,
            final(self).notr(node as int).entries@[e as int].count == old(self).notr(node as int).entries@[e as int].count,
            final(self).notr(node as int).entries@[e as int].prob == prob,
            final(self).notr(node as int).entries@[e as int].q == q,
            forall|j: int|
                0 <= j < old(self).notr(node as int).entries@.len() && j != e ==> final(self).notr(node as int).entries@[j]
                    == old(self).notr(node as int).entries@[j],
    {
        let ghost old_t = *self;
        match &mut self.refs[node] {
            Node::Notr(n) => {
                set_entry_stats(n, e, prob, q);
            },
            Node::Term(_) => {},
        }
        proof {
            assert forall|i: int| 0 <= i < old_t.refs@.len() implies {
                let a = #[trigger] old_t.refs@[i];
                let b = self.refs@[i];
                &&& (a is Notr <==> b is Notr)
                &&& node_num(a) == node_num(b)
                &&& node_parent(a) == node_parent(b)
                &&& node_depth(a) == node_depth(b)
                &&& (a is Notr ==> {
                    &&& notr_of(a).children == notr_of(b).children
                    &&& notr_of(a).entries@.len() == notr_of(b).entries@.len()
                    &&& forall|j: int|
                        0 <= j < notr_of(a).entries@.len() ==> (#[trigger] notr_of(a).entries@[j]).action
                            == notr_of(b).entries@[j].action
                })
            } by {
                if i == node {
                    assert forall|j: int| 0 <= j < old_t.notr(i).entries@.len() implies (#[trigger] old_t.notr(i).entries@[j]).action
                        == self.notr(i).entries@[j].action by {
                        if j != e {
                            assert(self.notr(i).entries@[j] == old_t.notr(i).entries@[j]);
                        }
                    }
                }
            }
            assert(old_t.same_shape(*self));
            old_t.lemma_same_shape_wf(*self);
        }
    }
}

impl<P, Q> Tree<P, Q> {
    /// `self` is a tree of one open root, visited once, with the valid
    /// actions `valid` and one fresh entry per distinct valid action.
    pub open spec fn is_new_tree(&self, valid: Seq<Action>, pi: Seq<P>, q0: Q) -> bool {
        &&& self.wf()
        &&& self.refs@.len() == 1
        &&& self.refs@[0] is Notr
        &&& self.notr(0).num == 0
        &&& self.notr(0).parent is None
        &&& self.notr(0).children@.len() == 0
        &&& self.notr(0).visits == 1
        &&& self.notr(0).valid_actions@ == valid
        &&& fresh_entries(self.notr(0).entries@, valid, pi, q0)
        &&& self.notr(0).depth == 0
    }
}

impl<P: Copy, Q: Copy> Tree<P, Q> {
    /// A tree of one open root, visited once, with one fresh entry per
    /// distinct valid action.
    pub fn new(valid_actions: Vec<Action>, pi: &Vec<P>, q0: Q) -> (t: Self)
        requires
            forall|k: int| 0 <= k < valid_actions@.len() ==> (#[trigger] valid_actions@[k] as int) < pi@.len(),
        ensures
            t.is_new_tree(valid_actions@, pi@, q0),
    {
        let entries = make_entries(&valid_actions, pi, q0);
        let root = Notr {
            num: 0,
            parent: None,
            children: Vec::new(),
            visits: 1,
            valid_actions,
            entries,
            depth: 0,
        };
        let mut refs: Vec<Node<P, Q>> = Vec::new();
        refs.push(Node::Notr(root));
        let t = Tree { refs };
        assert(t.node_wf(0));
        t
    }

    /// The tree for a search from a position whose game has status
    /// `status`: the tree of `new` while the game goes on, and none for a
    /// game that is already over, from which no search starts.
    pub fn for_game(status: GameStatus, valid_actions: Vec<Action>, pi: &Vec<P>, q0: Q) -> (t: Option<Self>)
        requires
            status is Ongoing ==> forall|k: int|
                0 <= k < valid_actions@.len() ==> (#[trigger] valid_actions@[k] as int) < pi@.len(),
        ensures
            t is Some <==> status is Ongoing,
            t matches Some(tree) ==> tree.is_new_tree(valid_actions@, pi@, q0),
    {
        match status {
            GameStatus::Ongoing => Some(Self::new(valid_actions, pi, q0)),
            _ => None,
        }
    }

    /// Attaches a new open node below the open node `parent_num`, reached by
    /// `action`, visited once, one level deeper; the parent records it as
    /// its child for that action. Returns its number.
    pub fn add_notr(&mut self, parent_num: usize, action: Action, valid_actions: Vec<Action>, pi: &Vec<P>, q0: Q) -> (num: usize)
        requires
            old(self).wf(),
            parent_num < old(self).refs@.len(),
            old(self).refs@[parent_num as int] is Notr,
            old(self).notr(parent_num as int).depth < u32::MAX,
            forall|k: int| 0 <= k < valid_actions@.len() ==> (#[trigger] valid_actions@[k] as int) < pi@.len(),
        ensures
            final(self).wf(),
            num == old(self).refs@.len(),
            final(self).refs@.len() == old(self).refs@.len() + 1,
            final(self).refs@[num as int] is Notr,
            final(self).notr(num as int).num == num,
            final(self).notr(num as int).parent == Some((action, parent_num)),
            final(self).notr(num as int).children@.len() == 0,
            final(self).notr(num as int).visits == 1,
            final(self).notr(num as int).valid_actions@ == valid_actions@,
            fresh_entries(final(self).notr(num as int).entries@, valid_actions@, pi@, q0),
            final(self).notr(num as int).depth == old(self).notr(parent_num as int).depth + 1,
            final(self).refs@[parent_num as int] is Notr,
            children_map(final(self).notr(parent_num as int).children@) == children_map(
                old(self).notr(parent_num as int).children@,
            ).insert(action, num),
            final(self).notr(parent_num as int).num == old(self).notr(parent_num as int).num,
            final(self).notr(parent_num as int).parent == old(self).notr(parent_num as int).parent,
            final(self).notr(parent_num as int).visits == old(self).notr(parent_num as int).visits,
            final(self).notr(parent_num as int).valid_actions == old(self).notr(parent_num as int).valid_actions,
            final(self).notr(parent_num as int).entries == old(self).notr(parent_num as int).entries,
            final(self).notr(parent_num as int).depth == old(self).notr(parent_num as int).depth,
            forall|i: int|
                0 <= i < old(self).refs@.len() && i != parent_num ==> final(self).refs@[i] == old(
                    self,
                ).refs@[i],
    {
        let ghost old_t = *self;
        proof {
            assert(old_t.node_wf(parent_num as int));
        }
        let num = self.refs.len();
        let depth = match &self.refs[parent_num] {
            Node::Notr(n) => n.depth,
            Node::Term(_) => 0,
        };
        let new_notr = Notr::new(num, parent_num, &action, 1, valid_actions, pi, q0, depth + 1);
        self.attach_child(parent_num, action, num);
        self.refs.push(Node::Notr(new_notr));
        proof {
            old_t.lemma_attach_wf(*self, parent_num, action, num);
        }
        num
    }

    /// Attaches a finished-game node with reward `value` below the open
    /// node `parent_num`, reached by `action`, one level deeper; the parent
    /// records it as its child for that action. Returns its number.
    pub fn add_term(&mut self, parent_num: usize, action: Action, value: i32) -> (num: usize)
        requires
            old(self).wf(),
            parent_num < old(self).refs@.len(),
            old(self).refs@[parent_num as int] is Notr,
            old(self).notr(parent_num as int).depth < u32::MAX,
        ensures
            final(self).wf(),
            num == old(self).refs@.len(),
            final(self).refs@.len() == old(self).refs@.len() + 1,
            final(self).refs@[num as int] == Node::<P, Q>::Term(
                Term {
                    num,
                    parent: Some((action, parent_num)),
                    value,
                    depth: (old(self).notr(parent_num as int).depth + 1) as u32,
                },
            ),
            final(self).refs@[parent_num as int] is Notr,
            children_map(final(self).notr(parent_num as int).children@) == children_map(
                old(self).notr(parent_num as int).children@,
            ).insert(action, num),
            final(self).notr(parent_num as int).num == old(self).notr(parent_num as int).num,
            final(self).notr(parent_num as int).parent == old(self).notr(parent_num as int).parent,
            final(self).notr(parent_num as int).visits == old(self).notr(parent_num as int).visits,
            final(self).notr(parent_num as int).valid_actions == old(self).notr(parent_num as int).valid_actions,
            final(self).notr(parent_num as int).entries == old(self).notr(parent_num as int).entries,
            final(self).notr(parent_num as int).depth == old(self).notr(parent_num as int).depth,
            forall|i: int|
                0 <= i < old(self).refs@.len() && i != parent_num ==> final(self).refs@[i] == old(
                    self,
                ).refs@[i],
    {
        let ghost old_t = *self;
        proof {
            assert(old_t.node_wf(parent_num as int));
        }
        let num = self.refs.len();
        let depth = match &self.refs[parent_num] {
            Node::Notr(n) => n.depth,
            Node::Term(_) => 0,
        };
        let new_term = Term::new(num, parent_num, &action, value, depth + 1);
        self.attach_child(parent_num, action, num);
        self.refs.push(Node::Term(new_term));
        proof {
            old_t.lemma_attach_wf(*self, parent_num, action, num);
        }
        num
    }
}

} // verus!
