use vstd::prelude::*;
use crate::connect4::{Chip, Position, BoardState, RED_FG, YELLOW_FG, ROWS, COLS, is_player_chip, spec_player_sign, player_sign};
use crate::con4_play::{chip_at, cell_index};

verus! {

/// A move: the column (Connect Four) or the move number (Hnefatafl).
pub type Action = u32;

/// Deepest traversal a single simulation may take.
pub const MAX_TRAVERSAL_DEPTH: u32 = 50;

/// A node of the search tree, held in the arena of a [`Tree`].
///
/// `stats` carries what the caller keeps per node besides the counts
/// below (the prior probability and the accumulated value); the tree
/// stores it and hands it back but never reads it.
pub struct Node<S> {
    pub player: i32,
    pub stats: S,
    pub action: Action,
    pub parent: Option<usize>,
    pub is_expanded: bool,
    pub visits: u64,
    /// Virtual loss.
    pub v_loss: i64,
    /// Number of virtual losses applied.
    pub vl_applied: i32,
    /// `children[a]` is the arena index of the child reached by action `a`.
    pub children: Vec<usize>,
}

impl<S> Node<S> {
    /// A fresh, unexpanded node without children; visits start at the
    /// given count, or at 0.
    pub fn new(player: i32, stats: S, action: Action, parent: Option<usize>, visits: Option<u64>) -> (node: Self)
        ensures
            node.player == player,
            node.stats == stats,
            node.action == action,
            node.parent == parent,
            !node.is_expanded,
            node.visits == (match visits {
                Some(v) => v,
                None => 0,
            }),
            node.v_loss == 0,
            node.vl_applied == 0,
            node.children@.len() == 0,
    {
        let v = match visits {
            Some(v) => v,
            None => 0,
        };
        Node {
            player,
            stats,
            action,
            parent,
            is_expanded: false,
            visits: v,
            v_loss: 0,
            vl_applied: 0,
            children: Vec::new(),
        }
    }

    pub fn has_parent(&self) -> (b: bool)
        ensures
            b == self.parent is Some,
    {
        self.parent.is_some()
    }
}

/// The node reached from `start` by the first `d` actions of `path`,
/// in the child lists `kids` of an arena.
pub open spec fn walk(kids: Seq<Seq<usize>>, start: usize, path: Seq<Action>, d: int) -> usize
    decreases d,
{
    if d <= 0 {
        start
    } else {
        let prev = walk(kids, start, path, d - 1);
        kids[prev as int][path[d - 1] as int]
    }
}

/// Index of the last maximal entry: every entry is at most `s[i]` and
/// every later entry is below it.
pub open spec fn is_last_max(s: Seq<i64>, i: int) -> bool {
    &&& 0 <= i < s.len()
    &&& forall|j: int| 0 <= j < s.len() ==> #[trigger] s[j] <= s[i]
    &&& forall|j: int| i < j < s.len() ==> #[trigger] s[j] < s[i]
}

pub open spec fn min_len(a: int, b: int) -> int {
    if a < b {
        a
    } else {
        b
    }
}

/// The scores of the first `min(|keys|, |legal|)` actions with every
/// illegal action pushed down to the lowest key.
pub open spec fn masked_scores(keys: Seq<i64>, legal: Seq<bool>) -> Seq<i64> {
    Seq::new(
        min_len(keys.len() as int, legal.len() as int) as nat,
        |j: int|
            if legal[j] {
                keys[j]
            } else {
                i64::MIN
            },
    )
}

/// The index of the last maximal score, as `Iterator::max_by` picks it.
pub fn last_argmax(scores: &Vec<i64>) -> (best: usize)
    requires
        scores@.len() > 0,
    ensures
        is_last_max(scores@, best as int),
{
    let mut best: usize = 0;
    let mut j: usize = 1;
    while j < scores.len()
        invariant
            1 <= j <= scores@.len(),
            best < j,
            forall|k: int| 0 <= k < j ==> #[trigger] scores@[k] <= scores@[best as int],
            forall|k: int| best < k < j ==> #[trigger] scores@[k] < scores@[best as int],
        decreases scores@.len() - j,
    {
        if scores[j] >= scores[best] {
            best = j;
        }
        j += 1;
    }
    best
}

/// Law: the move chosen as the last best masked score is the last legal
/// move with the highest key, whenever some legal move scores above the
/// lowest key; when none does, every score is the lowest and the last
/// move considered is chosen.
pub proof fn lemma_masked_choice(keys: Seq<i64>, legal: Seq<bool>, a: int)
    requires
        is_last_max(masked_scores(keys, legal), a),
    ensures
        a < keys.len(),
        a < legal.len(),
        (exists|j: int| 0 <= j < keys.len() && j < legal.len() && legal[j] && keys[j] > i64::MIN) ==> {
            &&& legal[a]
            &&& forall|j: int| 0 <= j < keys.len() && j < legal.len() && #[trigger] legal[j] ==> keys[j] <= keys[a]
            &&& forall|j: int| a < j < keys.len() && j < legal.len() && #[trigger] legal[j] ==> keys[j] < keys[a]
        },
        !(exists|j: int| 0 <= j < keys.len() && j < legal.len() && legal[j] && keys[j] > i64::MIN) ==> a
            == min_len(keys.len() as int, legal.len() as int) - 1,
{
    let m = masked_scores(keys, legal);
    let n = m.len() as int;
    if exists|j: int| 0 <= j < keys.len() && j < legal.len() && legal[j] && keys[j] > i64::MIN {
        let w = choose|j: int| 0 <= j < keys.len() && j < legal.len() && legal[j] && keys[j] > i64::MIN;
        assert(m[w] <= m[a]);
        assert forall|j: int| 0 <= j < keys.len() && j < legal.len() && #[trigger] legal[j] implies keys[j] <= keys[a] by {
            assert(m[j] <= m[a]);
        }
        assert forall|j: int| a < j < keys.len() && j < legal.len() && #[trigger] legal[j] implies keys[j] < keys[a] by {
            assert(m[j] < m[a]);
        }
    } else {
        if a < n - 1 {
            assert(m[n - 1] < m[a]);
        }
    }
}

/// The masked scores of [`masked_scores`], computed: the scores of the
/// first `min(|keys|, |legal|)` actions, an illegal one at the lowest key.
pub fn mask_scores(keys: &Vec<i64>, legal: &Vec<bool>) -> (masked: Vec<i64>)
    ensures
        masked@ == masked_scores(keys@, legal@),
        masked@.len() == (if keys@.len() < legal@.len() {
            keys@.len()
        } else {
            legal@.len()
        }),
        forall|k: int| 0 <= k < masked@.len() ==> #[trigger] masked@[k] == (if legal@[k] {
            keys@[k]
        } else {
            i64::MIN
        }),
{
    let n = if keys.len() < legal.len() {
        keys.len()
    } else {
        legal.len()
    };
    let mut masked: Vec<i64> = Vec::new();
    let mut j: usize = 0;
    while j < n
        invariant
            j <= n,
            n == min_len(keys@.len() as int, legal@.len() as int),
            masked@.len() == j,
            forall|k: int|
                0 <= k < j ==> #[trigger] masked@[k] == (if legal@[k] {
                    keys@[k]
                } else {
                    i64::MIN
                }),
        decreases n - j,
    {
        if legal[j] {
            masked.push(keys[j]);
        } else {
            masked.push(i64::MIN);
        }
        j += 1;
    }
    assert(masked@ =~= masked_scores(keys@, legal@));
    masked
}

/// The colour code that counts as "own" from the perspective of `player`:
/// red for player 1, yellow for anyone else.
pub open spec fn perspective_color(player: i32) -> u8 {
    if player == 1 {
        RED_FG
    } else {
        YELLOW_FG
    }
}

/// 1 where the cell holds a chip of the colour, 0 otherwise.
pub open spec fn perspective_code(cell: Option<Chip>, color: u8) -> u8 {
    match cell {
        Some(chip) => if chip.fg_color == color {
            1u8
        } else {
            0u8
        },
        None => 0u8,
    }
}

/// `m` is the 6 x 7 occupancy matrix of `player`'s chips in `layout`.
pub open spec fn is_perspective_matrix(layout: Seq<Option<Chip>>, player: i32, m: Seq<Vec<u8>>) -> bool {
    &&& m.len() == ROWS
    &&& forall|r: int| 0 <= r < ROWS ==> (#[trigger] m[r])@.len() == COLS
    &&& forall|r: int, c: int|
        0 <= r < ROWS && 0 <= c < COLS ==> #[trigger] m[r]@[c] == perspective_code(
            chip_at(layout, r, c),
            perspective_color(player),
        )
}

/// `m` is the 6 x 7 matrix of zeros.
pub open spec fn is_zero_matrix(m: Seq<Vec<u8>>) -> bool {
    &&& m.len() == ROWS
    &&& forall|r: int| 0 <= r < ROWS ==> (#[trigger] m[r])@.len() == COLS
    &&& forall|r: int, c: int| 0 <= r < ROWS && 0 <= c < COLS ==> #[trigger] m[r]@[c] == 0
}

/// The board from the perspective of `player`: 1 where the player (red
/// for 1, yellow otherwise) has a chip, 0 elsewhere, top row first.
pub fn con4_board_to_matrix_perspective(game: &Position, player: i32) -> (matrix: Vec<Vec<u8>>)
    ensures
        is_perspective_matrix(game.layout@, player, matrix@),
{
    let target = if player == 1 {
        RED_FG
    } else {
        YELLOW_FG
    };
    let mut matrix: Vec<Vec<u8>> = Vec::new();
    let mut r: usize = 0;
    while r < ROWS
        invariant
            r <= ROWS,
            target == perspective_color(player),
            matrix@.len() == r,
            forall|k: int| 0 <= k < r ==> (#[trigger] matrix@[k])@.len() == COLS,
            forall|k: int, c: int|
                0 <= k < r && 0 <= c < COLS ==> #[trigger] matrix@[k]@[c] == perspective_code(
                    chip_at(game.layout@, k, c),
                    target,
                ),
        decreases ROWS - r,
    {
        let mut row: Vec<u8> = Vec::new();
        let mut c: usize = 0;
        while c < COLS
            invariant
                r < ROWS,
                c <= COLS,
                row@.len() == c,
                forall|j: int|
                    0 <= j < c ==> row@[j] == perspective_code(chip_at(game.layout@, r as int, j), target),
            decreases COLS - c,
        {
            let idx = (ROWS - 1 - r) * COLS + c;
            let code: u8 = if idx < game.layout.len() {
                match game.layout[idx] {
                    Some(chip) => if chip.fg_color == target {
                        1
                    } else {
                        0
                    },
                    None => 0,
                }
            } else {
                0
            };
            row.push(code);
            c += 1;
        }
        matrix.push(row);
        r += 1;
    }
    matrix
}

fn zero_matrix() -> (m: Vec<Vec<u8>>)
    ensures
        is_zero_matrix(m@),
{
    let mut m: Vec<Vec<u8>> = Vec::new();
    let mut r: usize = 0;
    while r < ROWS
        invariant
            r <= ROWS,
            m@.len() == r,
            forall|k: int| 0 <= k < r ==> (#[trigger] m@[k])@.len() == COLS,
            forall|k: int, c: int| 0 <= k < r && 0 <= c < COLS ==> #[trigger] m@[k]@[c] == 0,
        decreases ROWS - r,
    {
        let mut row: Vec<u8> = Vec::new();
        let mut c: usize = 0;
        while c < COLS
            invariant
                c <= COLS,
                row@.len() == c,
                forall|j: int| 0 <= j < c ==> row@[j] == 0,
            decreases COLS - c,
        {
            row.push(0);
            c += 1;
        }
        m.push(row);
        r += 1;
    }
    m
}

/// Number of positions fed to the network: the current one and up to
/// seven before it.
pub const HISTORY_LEN: usize = 8;

/// Number of planes fed to the network: two per position.
pub const NUM_PLANES: usize = 16;

/// How many positions the network sees when `history_len` earlier ones are known.
pub open spec fn input_positions(history_len: int) -> int {
    if history_len + 1 < HISTORY_LEN {
        history_len + 1
    } else {
        HISTORY_LEN as int
    }
}

/// The position shown in planes `2j` and `2j + 1`: the current one first,
/// then the history from its most recent end backwards.
pub open spec fn input_position(game: Position, history: Seq<Position>, j: int) -> Position {
    if j == 0 {
        game
    } else {
        history[history.len() - j]
    }
}

/// Law: the first position shown is the current one, and the others are
/// the most recent earlier positions, newest first: position `j` is the
/// `j`-th from the end of the history, whatever the history's length.
pub proof fn lemma_shown_positions(game: Position, history: Seq<Position>, j: int)
    requires
        0 <= j < input_positions(history.len() as int),
    ensures
        j == 0 ==> input_position(game, history, j) == game,
        j >= 1 ==> input_position(game, history, j) == history[history.len() - j],
        j >= 1 ==> 0 <= history.len() - j < history.len(),
        input_positions(history.len() as int) == (if history.len() < HISTORY_LEN {
            history.len() as int + 1
        } else {
            HISTORY_LEN as int
        }),
{
}

/// Whose chips plane `k` marks when `mover` (+1 red, -1 yellow) is to
/// move: the even planes show the mover's chips, the odd planes the
/// opponent's.
pub open spec fn plane_player(mover: int, k: int) -> i32 {
    if k % 2 == 0 {
        mover as i32
    } else {
        (-mover) as i32
    }
}

/// The input planes of the network for `game`: each shown position appears
/// twice, first from the perspective of the player to move in `game`, then
/// from the perspective of the opponent, and the remaining planes are zero.
/// The second value is the condition plane's constant: 0 when red is to
/// move, 1 otherwise.
pub fn model_input_planes(game: &Position, history: &Vec<Position>) -> (input: (Vec<Vec<Vec<u8>>>, u8))
    requires
        is_player_chip(game.to_play),
    ensures
        input.0@.len() == NUM_PLANES,
        forall|k: int|
            0 <= k < 2 * input_positions(history@.len() as int) ==> is_perspective_matrix(
                input_position(*game, history@, k / 2).layout@,
                plane_player(spec_player_sign(game.to_play), k),
                (#[trigger] input.0@[k])@,
            ),
        forall|k: int|
            2 * input_positions(history@.len() as int) <= k < NUM_PLANES ==> is_zero_matrix(
                (#[trigger] input.0@[k])@,
            ),
        input.1 == (if spec_player_sign(game.to_play) == 1 {
            0u8
        } else {
            1u8
        }),
        forall|k: int|
            0 <= k < 2 ==> is_perspective_matrix(
                game.layout@,
                (if k % 2 == 0 {
                    spec_player_sign(game.to_play)
                } else {
                    -spec_player_sign(game.to_play)
                }) as i32,
                (#[trigger] input.0@[k])@,
            ),
        forall|k: int|
            2 <= k < 2 * input_positions(history@.len() as int) ==> is_perspective_matrix(
                history@[history@.len() - k / 2].layout@,
                (if k % 2 == 0 {
                    spec_player_sign(game.to_play)
                } else {
                    -spec_player_sign(game.to_play)
                }) as i32,
                (#[trigger] input.0@[k])@,
            ),
{
    let player = player_sign(game.to_play);
    let opponent = -player;
    let ghost m = input_positions(history@.len() as int);
    let mut planes: Vec<Vec<Vec<u8>>> = Vec::new();
    let first = con4_board_to_matrix_perspective(game, player);
    let second = con4_board_to_matrix_perspective(game, opponent);
    planes.push(first);
    planes.push(second);
    let mut shown: usize = 1;
    let mut j: usize = 0;
    while j < history.len() && shown < HISTORY_LEN
        invariant
            j <= history@.len(),
            shown == j + 1,
            shown <= HISTORY_LEN,
            m == input_positions(history@.len() as int),
            player == spec_player_sign(game.to_play),
            opponent == -player,
            planes@.len() == 2 * shown,
            forall|k: int|
                0 <= k < 2 * shown ==> is_perspective_matrix(
                    input_position(*game, history@, k / 2).layout@,
                    plane_player(player as int, k),
                    (#[trigger] planes@[k])@,
                ),
        decreases history@.len() - j,
    {
        let h = &history[history.len() - 1 - j];
        let a = con4_board_to_matrix_perspective(h, player);
        let b = con4_board_to_matrix_perspective(h, opponent);
        planes.push(a);
        planes.push(b);
        j += 1;
        shown += 1;
        proof {
            assert(input_position(*game, history@, shown as int - 1) == history@[history@.len() - 1 - (j - 1)]);
        }
    }
    assert(shown == m);
    while planes.len() < NUM_PLANES
        invariant
            shown == m,
            m <= HISTORY_LEN,
            2 * m <= planes@.len() <= NUM_PLANES,
            player == spec_player_sign(game.to_play),
            forall|k: int|
                0 <= k < 2 * m ==> is_perspective_matrix(
                    input_position(*game, history@, k / 2).layout@,
                    plane_player(player as int, k),
                    (#[trigger] planes@[k])@,
                ),
            forall|k: int| 2 * m <= k < planes@.len() ==> is_zero_matrix((#[trigger] planes@[k])@),
        decreases NUM_PLANES - planes@.len(),
    {
        let z = zero_matrix();
        planes.push(z);
    }
    let cond: u8 = if player == 1 {
        0
    } else {
        1
    };
    (planes, cond)
}

/// The value of a simulation that ended in a finished game, seen from the
/// node where it ended: `to_play` is the chip of the player to move after
/// the last move, who did not make the winning move. A win is worth -1.
/// The value is computed by comparing the winner's number, cut to 32 bits
/// and read as signed, with the negated player code (1 for red, 2 for
/// yellow); only a winner number whose low 32 bits read as -1 with red to
/// move, or -2 with yellow to move, would give 1, and no player number is
/// such. A draw or any other report is worth 0.
pub open spec fn spec_terminal_value(state: BoardState, to_play: Chip) -> int {
    match state {
        BoardState::Win(side) => {
            let code: int = if to_play.fg_color == RED_FG {
                1
            } else {
                2
            };
            if (side as int) % 0x1_0000_0000int == 0x1_0000_0000int - code {
                1
            } else {
                -1
            }
        },
        _ => 0,
    }
}

/// The value that the search backs up for a finished simulation.
pub fn terminal_value(state: BoardState, to_play: Chip) -> (value: i32)
    requires
        state is Win ==> is_player_chip(to_play),
    ensures
        value == spec_terminal_value(state, to_play),
        state matches BoardState::Win(side) && side <= i32::MAX ==> value == -1,
{
    match state {
        BoardState::Ongoing => 0,
        BoardState::Win(side) => {
            let code: i32 = if to_play.fg_color == RED_FG {
                1
            } else {
                2
            };
            let wide = side as u64;
            proof {
                assert(((side as i32) == -1i32) == ((wide & 0xffff_ffffu64) == 0xffff_ffffu64)) by (bit_vector)
                    requires
                        wide == side as u64,
                ;
                assert(((side as i32) == -2i32) == ((wide & 0xffff_ffffu64) == 0xffff_fffeu64)) by (bit_vector)
                    requires
                        wide == side as u64,
                ;
                assert((wide & 0xffff_ffffu64) == wide % 0x1_0000_0000u64) by (bit_vector);
            }
            if -code == side as i32 {
                1
            } else {
                -1
            }
        },
        BoardState::Draw => 0,
        BoardState::Invalid => 0,
    }
}

/// `n` with `delta` more virtual losses.
pub open spec fn shift_virtual_loss<S>(n: Node<S>, delta: int) -> Node<S> {
    Node { v_loss: (n.v_loss + delta) as i64, vl_applied: (n.vl_applied + delta) as i32, ..n }
}

/// The arena with `delta` more virtual losses on each of the first
/// `d + 1` nodes of the path from `start`.
pub open spec fn shifted_along<S>(
    nodes: Seq<Node<S>>,
    kids: Seq<Seq<usize>>,
    start: usize,
    path: Seq<Action>,
    d: int,
    delta: int,
) -> Seq<Node<S>>
    decreases d + 1,
{
    if d < 0 {
        nodes
    } else {
        let prev = shifted_along(nodes, kids, start, path, d - 1, delta);
        let i = walk(kids, start, path, d) as int;
        prev.update(i, shift_virtual_loss(prev[i], delta))
    }
}

/// The arena after a virtual loss along `path` from `start`: one unit on
/// `start` and one on every node of the path below it.
pub open spec fn added_virtual_loss<S>(
    nodes: Seq<Node<S>>,
    kids: Seq<Seq<usize>>,
    start: usize,
    path: Seq<Action>,
) -> Seq<Node<S>> {
    shifted_along(nodes, kids, start, path, path.len() as int, 1)
}

/// The arena after taking one virtual loss back from `start` and from
/// every node of the path below it.
pub open spec fn reverted_virtual_loss<S>(
    nodes: Seq<Node<S>>,
    kids: Seq<Seq<usize>>,
    start: usize,
    path: Seq<Action>,
) -> Seq<Node<S>> {
    shifted_along(nodes, kids, start, path, path.len() as int, -1)
}

/// Whether the simulation count has passed twice the budget, the guard
/// against a search that stops making progress.
pub fn simulation_budget_exceeded(simulation_count: u64, num_simulations: u32) -> (b: bool)
    ensures
        b == (simulation_count > 2 * num_simulations),
{
    simulation_count > 2 * (num_simulations as u64)
}

/// Law: the perspective of red marks exactly the cells that the board
/// matrix codes 1, and the perspective of yellow exactly those it codes -1.
pub proof fn lemma_perspective_matches_board(layout: Seq<Option<Chip>>, r: int, c: int)
    ensures
        perspective_code(chip_at(layout, r, c), perspective_color(1)) == 1 <==> crate::con4_play::cell_code(
            chip_at(layout, r, c),
        ) == 1,
        perspective_code(chip_at(layout, r, c), perspective_color(-1i32)) == 1 <==> crate::con4_play::cell_code(
            chip_at(layout, r, c),
        ) == -1,
{
}

/// The search tree: an arena of nodes and the index of its root.
pub struct Tree<S> {
    pub nodes: Vec<Node<S>>,
    pub root: usize,
}

impl<S> Tree<S> {
    /// The child lists of all nodes.
    pub open spec fn kids(&self) -> Seq<Seq<usize>> {
        self.nodes@.map_values(|n: Node<S>| n.children@)
    }

    pub open spec fn child_ok(&self, i: int, k: int) -> bool {
        let c = self.nodes@[i].children@[k] as int;
        &&& i < c < self.nodes@.len()
        &&& self.nodes@[c].action == k
        &&& (self.nodes@[c].parent == Some(i as usize) || self.nodes@[c].parent is None)
    }

    pub open spec fn node_wf(&self, i: int) -> bool {
        let n = self.nodes@[i];
        &&& (n.parent matches Some(p) ==> p < i && self.nodes@[p as int].children@.contains(i as usize))
        &&& (n.parent is None ==> i <= self.root)
        &&& (!n.is_expanded ==> n.children@.len() == 0)
        &&& forall|k: int| 0 <= k < n.children@.len() ==> #[trigger] self.child_ok(i, k)
    }

    /// Every child sits after its parent in the arena and carries the
    /// action that leads to it; a node's parent lists it among its children;
    /// the root has no parent, and no node after the root is without one;
    /// only expanded nodes have children.
    pub open spec fn wf(&self) -> bool {
        &&& self.root < self.nodes@.len()
        &&& self.nodes@[self.root as int].parent is None
        &&& forall|i: int| 0 <= i < self.nodes@.len() ==> #[trigger] self.node_wf(i)
    }

    pub open spec fn path_node(&self, start: usize, path: Seq<Action>, d: int) -> usize {
        walk(self.kids(), start, path, d)
    }

    /// Every action of `path` names an existing child along the way.
    pub open spec fn valid_path(&self, start: usize, path: Seq<Action>) -> bool {
        &&& start < self.nodes@.len()
        &&& forall|d: int|
            0 <= d < path.len() ==> (path[d] as int) < self.nodes@[self.path_node(
                start,
                path,
                d,
            ) as int].children@.len()
    }

    pub proof fn lemma_path_nodes(&self, start: usize, path: Seq<Action>, d: int)
        requires
            self.wf(),
            self.valid_path(start, path),
            0 <= d <= path.len(),
        ensures
            self.path_node(start, path, d) < self.nodes@.len(),
            start <= self.path_node(start, path, d),
            d > 0 ==> self.path_node(start, path, d - 1) < self.path_node(start, path, d),
        decreases d,
    {
        if d > 0 {
            self.lemma_path_nodes(start, path, d - 1);
            let prev = self.path_node(start, path, d - 1);
            let k = path[d - 1] as int;
            assert(self.node_wf(prev as int));
            assert(self.child_ok(prev as int, k));
            assert(self.kids()[prev as int] == self.nodes@[prev as int].children@);
        }
    }

    /// Path nodes strictly increase with depth.
    pub proof fn lemma_path_increasing(&self, start: usize, path: Seq<Action>, d1: int, d2: int)
        requires
            self.wf(),
            self.valid_path(start, path),
            0 <= d1 < d2 <= path.len(),
        ensures
            self.path_node(start, path, d1) < self.path_node(start, path, d2),
        decreases d2 - d1,
    {
        self.lemma_path_nodes(start, path, d2);
        if d1 + 1 < d2 {
            self.lemma_path_increasing(start, path, d1, d2 - 1);
        }
    }

    /// Shifting virtual losses along a path leaves the arena's shape alone.
    pub proof fn lemma_shifted_shape(t: Self, start: usize, path: Seq<Action>, d: int, delta: int)
        requires
            t.wf(),
            t.valid_path(start, path),
            -1 <= d <= path.len(),
        ensures
            shifted_along(t.nodes@, t.kids(), start, path, d, delta).len() == t.nodes@.len(),
            forall|i: int|
                0 <= i < t.nodes@.len() ==> {
                    let a = #[trigger] shifted_along(t.nodes@, t.kids(), start, path, d, delta)[i];
                    let b = t.nodes@[i];
                    &&& a.children == b.children
                    &&& a.player == b.player
                    &&& a.stats == b.stats
                    &&& a.action == b.action
                    &&& a.parent == b.parent
                    &&& a.is_expanded == b.is_expanded
                    &&& a.visits == b.visits
                },
        decreases d + 1,
    {
        if d >= 0 {
            Self::lemma_shifted_shape(t, start, path, d - 1, delta);
            t.lemma_path_nodes(start, path, d);
        }
    }

    /// A node that the first `d + 1` path nodes miss keeps its counts.
    pub proof fn lemma_shifted_untouched(
        t: Self,
        nodes: Seq<Node<S>>,
        start: usize,
        path: Seq<Action>,
        d: int,
        delta: int,
        i: int,
    )
        requires
            t.wf(),
            t.valid_path(start, path),
            nodes.len() == t.nodes@.len(),
            -1 <= d <= path.len(),
            0 <= i < t.nodes@.len(),
            forall|e: int| 0 <= e <= d ==> #[trigger] t.path_node(start, path, e) != i,
        ensures
            shifted_along(nodes, t.kids(), start, path, d, delta)[i] == nodes[i],
            shifted_along(nodes, t.kids(), start, path, d, delta).len() == nodes.len(),
        decreases d + 1,
    {
        if d >= 0 {
            Self::lemma_shifted_untouched(t, nodes, start, path, d - 1, delta, i);
            t.lemma_path_nodes(start, path, d);
            assert(t.path_node(start, path, d) != i);
        }
    }

    /// The node at depth `e` of the path, `e <= d`, is shifted exactly once.
    pub proof fn lemma_shifted_on_path(
        t: Self,
        nodes: Seq<Node<S>>,
        start: usize,
        path: Seq<Action>,
        d: int,
        delta: int,
        e: int,
    )
        requires
            t.wf(),
            t.valid_path(start, path),
            nodes.len() == t.nodes@.len(),
            0 <= e <= d <= path.len(),
        ensures
            shifted_along(nodes, t.kids(), start, path, d, delta).len() == nodes.len(),
            shifted_along(nodes, t.kids(), start, path, d, delta)[t.path_node(start, path, e) as int]
                == shift_virtual_loss(nodes[t.path_node(start, path, e) as int], delta),
        decreases d,
    {
        let i = t.path_node(start, path, e) as int;
        t.lemma_path_nodes(start, path, e);
        if d == e {
            assert forall|f: int| 0 <= f <= d - 1 implies #[trigger] t.path_node(start, path, f) != i by {
                t.lemma_path_increasing(start, path, f, e);
            }
            Self::lemma_shifted_untouched(t, nodes, start, path, d - 1, delta, i);
        } else {
            Self::lemma_shifted_on_path(t, nodes, start, path, d - 1, delta, e);
            t.lemma_path_increasing(start, path, e, d);
            t.lemma_path_nodes(start, path, d);
        }
    }

    /// A tree of a single fresh root node.
    pub fn new(player: i32, stats: S, action: Action, visits: Option<u64>) -> (t: Self)
        ensures
            t.wf(),
            t.root == 0,
            t.nodes@.len() == 1,
            t.nodes@[0].player == player,
            t.nodes@[0].stats == stats,
            t.nodes@[0].action == action,
            t.nodes@[0].parent is None,
            !t.nodes@[0].is_expanded,
            t.nodes@[0].visits == (match visits {
                Some(v) => v,
                None => 0,
            }),
            t.nodes@[0].v_loss == 0,
            t.nodes@[0].vl_applied == 0,
            t.nodes@[0].children@.len() == 0,
    {
        let root = Node::new(player, stats, action, None, visits);
        let mut nodes: Vec<Node<S>> = Vec::new();
        nodes.push(root);
        let t = Tree { nodes, root: 0 };
        assert(t.node_wf(0));
        t
    }

    pub fn len(&self) -> (n: usize)
        ensures
            n == self.nodes@.len(),
    {
        self.nodes.len()
    }

    pub fn node(&self, i: usize) -> (n: &Node<S>)
        requires
            i < self.nodes@.len(),
        ensures
            *n == self.nodes@[i as int],
    {
        &self.nodes[i]
    }

    /// Replaces the caller's statistics of node `i`; nothing else changes.
    pub fn set_stats(&mut self, i: usize, stats: S)
        requires
            old(self).wf(),
            i < old(self).nodes@.len(),
        ensures
            final(self).wf(),
            final(self).root == old(self).root,
            final(self).nodes@.len() == old(self).nodes@.len(),
            final(self).nodes@[i as int].stats == stats,
            final(self).nodes@[i as int].children == old(self).nodes@[i as int].children,
            final(self).nodes@[i as int].player == old(self).nodes@[i as int].player,
            final(self).nodes@[i as int].action == old(self).nodes@[i as int].action,
            final(self).nodes@[i as int].parent == old(self).nodes@[i as int].parent,
            final(self).nodes@[i as int].is_expanded == old(self).nodes@[i as int].is_expanded,
            final(self).nodes@[i as int].visits == old(self).nodes@[i as int].visits,
            final(self).nodes@[i as int].v_loss == old(self).nodes@[i as int].v_loss,
            final(self).nodes@[i as int].vl_applied == old(self).nodes@[i as int].vl_applied,
            forall|j: int|
                0 <= j < old(self).nodes@.len() && j != i ==> final(self).nodes@[j] == old(
                    self,
                ).nodes@[j],
    {
        self.nodes[i].stats = stats;
        assert forall|j: int| 0 <= j < self.nodes@.len() implies #[trigger] self.node_wf(j) by {
            assert(old(self).node_wf(j));
            assert forall|k: int| 0 <= k < self.nodes@[j].children@.len() implies #[trigger] self.child_ok(j, k) by {
                assert(old(self).child_ok(j, k));
            }
        }
    }

    /// The visit counts of the children of `node`, by action.
    pub fn child_visits(&self, node: usize) -> (visits: Vec<u64>)
        requires
            self.wf(),
            node < self.nodes@.len(),
        ensures
            visits@.len() == self.nodes@[node as int].children@.len(),
            forall|a: int|
                0 <= a < visits@.len() ==> #[trigger] visits@[a] == self.nodes@[self.nodes@[node as int].children@[a] as int].visits,
    {
        let n = self.nodes[node].children.len();
        let mut visits: Vec<u64> = Vec::new();
        let mut a: usize = 0;
        while a < n
            invariant
                self.wf(),
                node < self.nodes@.len(),
                n == self.nodes@[node as int].children@.len(),
                a <= n,
                visits@.len() == a,
                forall|b: int|
                    0 <= b < a ==> #[trigger] visits@[b] == self.nodes@[self.nodes@[node as int].children@[b] as int].visits,
            decreases n - a,
        {
            let c = self.nodes[node].children[a];
            proof {
                assert(self.node_wf(node as int));
                assert(self.child_ok(node as int, a as int));
            }
            visits.push(self.nodes[c].visits);
            a += 1;
        }
        visits
    }
}

/// Where a traversal stands at a node.
#[derive(Clone, Copy, Debug, PartialEq, Eq, Structural)]
pub enum TraversalStep {
    /// The traversal went deeper than allowed.
    TooDeep,
    /// The node is not expanded: the traversal ends here.
    Leaf,
    /// The node is expanded: a child is to be chosen.
    Expanded,
}

impl<S> Tree<S> {
    /// Whether the root has fewer visits than the simulation budget.
    pub fn needs_simulation(&self, num_simulations: u32) -> (b: bool)
        requires
            self.wf(),
        ensures
            b == (self.nodes@[self.root as int].visits < num_simulations),
    {
        self.nodes[self.root].visits < num_simulations as u64
    }

    /// How the traversal goes on at `node`, `depth` counting the nodes
    /// entered so far.
    pub fn traversal_step(&self, node: usize, depth: u32) -> (r: TraversalStep)
        requires
            self.wf(),
            node < self.nodes@.len(),
        ensures
            r == (if depth > MAX_TRAVERSAL_DEPTH {
                TraversalStep::TooDeep
            } else if !self.nodes@[node as int].is_expanded {
                TraversalStep::Leaf
            } else {
                TraversalStep::Expanded
            }),
    {
        if depth > MAX_TRAVERSAL_DEPTH {
            TraversalStep::TooDeep
        } else if !self.nodes[node].is_expanded {
            TraversalStep::Leaf
        } else {
            TraversalStep::Expanded
        }
    }

    /// The child of an expanded, visited node with the best score: `keys[a]` is the
    /// score of action `a` as an order-preserving integer, illegal actions
    /// count as the lowest key, and among equal best scores the last
    /// action wins. When some legal action scores above the lowest key,
    /// the chosen action is legal.
    pub fn choose_best_child(&self, node: usize, keys: &Vec<i64>, legal: &Vec<bool>) -> (child: usize)
        requires
            self.wf(),
            node < self.nodes@.len(),
            self.nodes@[node as int].is_expanded,
            self.nodes@[node as int].visits > 0,
            keys@.len() == self.nodes@[node as int].children@.len(),
            keys@.len() > 0,
            legal@.len() > 0,
        ensures
            child < self.nodes@.len(),
            ({
                let a = self.nodes@[child as int].action as int;
                &&& is_last_max(masked_scores(keys@, legal@), a)
                &&& self.nodes@[node as int].children@[a] == child
                &&& (exists|j: int|
                    0 <= j < masked_scores(keys@, legal@).len() && legal@[j] && keys@[j]
                        > i64::MIN) ==> legal@[a]
            }),
            ({
                let a = self.nodes@[child as int].action as int;
                &&& a < keys@.len()
                &&& a < legal@.len()
                &&& (exists|j: int| 0 <= j < keys@.len() && j < legal@.len() && legal@[j] && keys@[j] > i64::MIN) ==> {
                    &&& legal@[a]
                    &&& forall|j: int|
                        0 <= j < keys@.len() && j < legal@.len() && #[trigger] legal@[j] ==> keys@[j] <= keys@[a]
                    &&& forall|j: int|
                        a < j < keys@.len() && j < legal@.len() && #[trigger] legal@[j] ==> keys@[j] < keys@[a]
                }
                &&& !(exists|j: int| 0 <= j < keys@.len() && j < legal@.len() && legal@[j] && keys@[j] > i64::MIN)
                    ==> a == min_len(keys@.len() as int, legal@.len() as int) - 1
            }),
    {
        let masked = mask_scores(keys, legal);
        let a = last_argmax(&masked);
        let child = self.nodes[node].children[a];
        proof {
            assert(self.node_wf(node as int));
            assert(self.child_ok(node as int, a as int));
            let m = masked_scores(keys@, legal@);
            lemma_masked_choice(keys@, legal@, a as int);
            if exists|j: int| 0 <= j < m.len() && legal@[j] && keys@[j] > i64::MIN {
                let j = choose|j: int| 0 <= j < m.len() && legal@[j] && keys@[j] > i64::MIN;
                assert(m[j] <= m[a as int]);
            }
        }
        child
    }

    /// Counts a simulation along `path` from the root: the root and every
    /// node on the path gain one visit, the nodes below the root are marked
    /// expanded. Returns, root first, each node on the path with whether it
    /// takes the negated value: the last node takes the value as it is, and
    /// the sign alternates from one depth to the next.
    pub fn backpropagate(&mut self, path: &Vec<Action>) -> (updates: Vec<(usize, bool)>)
        requires
            old(self).wf(),
            old(self).valid_path(old(self).root, path@),
            forall|d: int|
                0 <= d <= path@.len() ==> old(self).nodes@[old(self).path_node(
                    old(self).root,
                    path@,
                    d,
                ) as int].visits < u64::MAX,
        ensures
            final(self).wf(),
            final(self).root == old(self).root,
            final(self).nodes@.len() == old(self).nodes@.len(),
            final(self).kids() == old(self).kids(),
            forall|i: int|
                0 <= i < old(self).nodes@.len() ==> {
                    let a = #[trigger] final(self).nodes@[i];
                    let b = old(self).nodes@[i];
                    &&& a.player == b.player
                    &&& a.stats == b.stats
                    &&& a.action == b.action
                    &&& a.parent == b.parent
                    &&& a.v_loss == b.v_loss
                    &&& a.vl_applied == b.vl_applied
                    &&& a.children == b.children
                },
            forall|d: int|
                0 <= d <= path@.len() ==> #[trigger] final(self).nodes@[old(self).path_node(
                    old(self).root,
                    path@,
                    d,
                ) as int].visits == old(self).nodes@[old(self).path_node(
                    old(self).root,
                    path@,
                    d,
                ) as int].visits + 1,
            forall|d: int|
                1 <= d <= path@.len() ==> #[trigger] final(self).nodes@[old(self).path_node(
                    old(self).root,
                    path@,
                    d,
                ) as int].is_expanded,
            final(self).nodes@[old(self).root as int].is_expanded == old(self).nodes@[old(
                self,
            ).root as int].is_expanded,
            forall|i: int|
                0 <= i < old(self).nodes@.len() && (forall|d: int|
                    0 <= d <= path@.len() ==> old(self).path_node(old(self).root, path@, d)
                        != i) ==> {
                    &&& #[trigger] final(self).nodes@[i].visits == old(self).nodes@[i].visits
                    &&& final(self).nodes@[i].is_expanded == old(self).nodes@[i].is_expanded
                },
            updates@.len() == path@.len() + 1,
            forall|d: int|
                0 <= d <= path@.len() ==> #[trigger] updates@[d] == (
                    old(self).path_node(old(self).root, path@, d),
                    (path@.len() - d) % 2 == 1,
                ),
    {
        let ghost old_t = *self;
        let n = path.len();
        let root = self.root;
        let mut updates: Vec<(usize, bool)> = Vec::new();
        proof {
            old_t.lemma_path_nodes(root, path@, 0);
        }
        let v = self.nodes[root].visits;
        self.nodes[root].visits = v + 1;
        updates.push((root, n % 2 == 1));
        let mut cur = root;
        let mut d: usize = 0;
        while d < n
            invariant
                old_t.wf(),
                old_t.valid_path(root, path@),
                root == old_t.root,
                n == path@.len(),
                d <= n,
                cur == old_t.path_node(root, path@, d as int),
                self.root == root,
                self.nodes@.len() == old_t.nodes@.len(),
                forall|i: int|
                    0 <= i < old_t.nodes@.len() ==> {
                        let a = #[trigger] self.nodes@[i];
                        let b = old_t.nodes@[i];
                        &&& a.player == b.player
                        &&& a.stats == b.stats
                        &&& a.action == b.action
                        &&& a.parent == b.parent
                        &&& a.v_loss == b.v_loss
                        &&& a.vl_applied == b.vl_applied
                        &&& a.children == b.children
                    },
                forall|e: int|
                    0 <= e <= path@.len() ==> old_t.nodes@[old_t.path_node(root, path@, e) as int].visits
                        < u64::MAX,
                forall|e: int|
                    0 <= e <= d ==> #[trigger] self.nodes@[old_t.path_node(root, path@, e) as int].visits
                        == old_t.nodes@[old_t.path_node(root, path@, e) as int].visits + 1,
                forall|e: int|
                    1 <= e <= d ==> #[trigger] self.nodes@[old_t.path_node(
                        root,
                        path@,
                        e,
                    ) as int].is_expanded,
                forall|i: int|
                    0 <= i < old_t.nodes@.len() && (forall|e: int|
                        0 <= e <= d ==> old_t.path_node(root, path@, e) != i) ==> {
                        &&& #[trigger] self.nodes@[i].visits == old_t.nodes@[i].visits
                        &&& self.nodes@[i].is_expanded == old_t.nodes@[i].is_expanded
                    },
                forall|i: int|
                    0 <= i < old_t.nodes@.len() && (forall|e: int|
                        1 <= e <= d ==> old_t.path_node(root, path@, e) != i) ==> #[trigger] self.nodes@[i].is_expanded
                        == old_t.nodes@[i].is_expanded,
                updates@.len() == d + 1,
                forall|e: int|
                    0 <= e <= d ==> #[trigger] updates@[e] == (
                        old_t.path_node(root, path@, e),
                        (path@.len() - e) % 2 == 1,
                    ),
            decreases n - d,
        {
            proof {
                old_t.lemma_path_nodes(root, path@, d as int);
                old_t.lemma_path_nodes(root, path@, d as int + 1);
                assert(old_t.kids()[cur as int] == old_t.nodes@[cur as int].children@);
                assert forall|e: int| 0 <= e <= d implies #[trigger] old_t.path_node(root, path@, e)
                    < old_t.path_node(root, path@, d as int + 1) by {
                    old_t.lemma_path_increasing(root, path@, e, d as int + 1);
                }
            }
            let next = self.nodes[cur].children[path[d] as usize];
            assert(next == old_t.path_node(root, path@, d as int + 1));
            let v = self.nodes[next].visits;
            self.nodes[next].visits = v + 1;
            self.nodes[next].is_expanded = true;
            updates.push((next, (n - d - 1) % 2 == 1));
            cur = next;
            d += 1;
        }
        proof {
            assert forall|e: int| 1 <= e <= n implies #[trigger] old_t.path_node(root, path@, e)
                != root by {
                old_t.lemma_path_increasing(root, path@, 0, e);
            }
            assert(self.kids() =~= old_t.kids());
            assert forall|i: int| 0 <= i < self.nodes@.len() implies #[trigger] self.node_wf(i) by {
                assert(old_t.node_wf(i));
                assert forall|k: int| 0 <= k < self.nodes@[i].children@.len() implies #[trigger] self.child_ok(i, k) by {
                    assert(old_t.child_ok(i, k));
                }
                if !self.nodes@[i].is_expanded {
                    assert(!old_t.nodes@[i].is_expanded);
                }
            }
        }
        updates
    }
}

impl<S> Tree<S> {
    /// Whether node `i` lies in the subtree of `r`: following parents from
    /// `i` reaches `r`.
    pub open spec fn descends(&self, i: int, r: int) -> bool
        decreases i,
    {
        if i == r {
            true
        } else if 0 <= i < self.nodes@.len() {
            match self.nodes@[i].parent {
                Some(p) => if p < i {
                    self.descends(p as int, r)
                } else {
                    false
                },
                None => false,
            }
        } else {
            false
        }
    }

    /// Whether node `i` lies in the subtree of `r`.
    pub fn is_descendant(&self, i: usize, r: usize) -> (b: bool)
        requires
            self.wf(),
            i < self.nodes@.len(),
        ensures
            b == self.descends(i as int, r as int),
    {
        let mut cur = i;
        while cur != r
            invariant
                self.wf(),
                cur < self.nodes@.len(),
                self.descends(i as int, r as int) == self.descends(cur as int, r as int),
            decreases cur,
        {
            proof {
                assert(self.node_wf(cur as int));
            }
            match self.nodes[cur].parent {
                Some(p) => {
                    cur = p;
                },
                None => {
                    return false;
                },
            }
        }
        true
    }

    /// Node `i` can be reached from the root by following children.
    pub open spec fn reachable(&self, i: int) -> bool {
        exists|path: Seq<Action>|
            self.valid_path(self.root, path) && #[trigger] self.path_node(self.root, path, path.len() as int) == i
    }

    /// Walking a longer path passes the same nodes along the shared prefix.
    pub proof fn lemma_walk_prefix(kids: Seq<Seq<usize>>, start: usize, path: Seq<Action>, a: Action, d: int)
        requires
            0 <= d <= path.len(),
        ensures
            walk(kids, start, path.push(a), d) == walk(kids, start, path, d),
        decreases d,
    {
        if d > 0 {
            Self::lemma_walk_prefix(kids, start, path, a, d - 1);
            assert(path.push(a)[d - 1] == path[d - 1]);
        }
    }

    /// Every node on a path from the root lies in the subtree of the root.
    pub proof fn lemma_path_descends(&self, path: Seq<Action>, d: int)
        requires
            self.wf(),
            self.valid_path(self.root, path),
            0 <= d <= path.len(),
        ensures
            self.descends(self.path_node(self.root, path, d) as int, self.root as int),
        decreases d,
    {
        if d > 0 {
            self.lemma_path_descends(path, d - 1);
            self.lemma_path_nodes(self.root, path, d);
            self.lemma_path_nodes(self.root, path, d - 1);
            let prev = self.path_node(self.root, path, d - 1);
            let c = self.path_node(self.root, path, d);
            let k = path[d - 1] as int;
            assert(self.kids()[prev as int] == self.nodes@[prev as int].children@);
            assert(self.node_wf(prev as int));
            assert(self.child_ok(prev as int, k));
            assert(self.node_wf(c as int));
            assert(self.nodes@[c as int].parent == Some(prev));
        }
    }

    /// Every node in the subtree of the root is reached by some path.
    pub proof fn lemma_descends_reachable(&self, i: int)
        requires
            self.wf(),
            0 <= i < self.nodes@.len(),
            self.descends(i, self.root as int),
        ensures
            self.reachable(i),
        decreases i,
    {
        if i == self.root {
            let path = Seq::<Action>::empty();
            assert(self.valid_path(self.root, path));
            assert(self.path_node(self.root, path, path.len() as int) == i);
        } else {
            let p = self.nodes@[i].parent->0;
            assert(self.node_wf(i));
            self.lemma_descends_reachable(p as int);
            let path = choose|path: Seq<Action>|
                self.valid_path(self.root, path) && #[trigger] self.path_node(self.root, path, path.len() as int) == p;
            assert(self.nodes@.len() == self.nodes.len());
            assert((i as usize) as int == i);
            assert(self.nodes@[p as int].children@.contains(i as usize));
            assert(exists|k: int|
                0 <= k < self.nodes@[p as int].children@.len() && self.nodes@[p as int].children@[k]
                    == i as usize);
            let k = choose|k: int|
                0 <= k < self.nodes@[p as int].children@.len() && self.nodes@[p as int].children@[k]
                    == i as usize;
            assert(self.node_wf(p as int));
            assert(self.child_ok(p as int, k));
            assert(self.nodes@[p as int].children@[k] as int == i);
            let a = self.nodes@[i].action;
            assert(a == k);
            let np = path.push(a);
            assert forall|d: int| 0 <= d <= path.len() implies #[trigger] self.path_node(self.root, np, d)
                == self.path_node(self.root, path, d) by {
                Self::lemma_walk_prefix(self.kids(), self.root, path, a, d);
            }
            assert forall|d: int| 0 <= d < np.len() implies (np[d] as int) < self.nodes@[self.path_node(
                self.root,
                np,
                d,
            ) as int].children@.len() by {
                if d < path.len() {
                    assert(np[d] == path[d]);
                    assert((path[d] as int) < self.nodes@[self.path_node(self.root, path, d) as int].children@.len());
                } else {
                    assert(self.path_node(self.root, np, d) == p);
                }
            }
            assert(self.valid_path(self.root, np));
            assert(self.kids()[p as int] == self.nodes@[p as int].children@);
            assert(self.path_node(self.root, np, np.len() as int) == i);
        }
    }

    /// Law: the subtree of the root, followed up by parents, is exactly
    /// what is reached from the root by following children.
    pub proof fn lemma_subtree_is_reachable(&self, i: int)
        requires
            self.wf(),
            0 <= i < self.nodes@.len(),
        ensures
            self.descends(i, self.root as int) <==> self.reachable(i),
    {
        if self.descends(i, self.root as int) {
            self.lemma_descends_reachable(i);
        }
        if self.reachable(i) {
            let path = choose|path: Seq<Action>|
                self.valid_path(self.root, path) && #[trigger] self.path_node(self.root, path, path.len() as int) == i;
            self.lemma_path_descends(path, path.len() as int);
        }
    }

    /// Node `i` is an expanded node in the subtree of the root.
    pub open spec fn expanded_in_subtree(&self, i: int) -> bool {
        self.descends(i, self.root as int) && self.nodes@[i].is_expanded
    }

    /// The expanded nodes of the subtree of the root, in arena order: the
    /// nodes whose accumulated value changes perspective when the tree is
    /// reused for the next move.
    pub fn expanded_nodes(&self) -> (found: Vec<usize>)
        requires
            self.wf(),
        ensures
            forall|a: int, b: int| 0 <= a < b < found@.len() ==> found@[a] < found@[b],
            forall|k: int|
                0 <= k < found@.len() ==> found@[k] < self.nodes@.len()
                    && self.expanded_in_subtree(#[trigger] found@[k] as int),
            forall|i: int|
                0 <= i < self.nodes@.len() && #[trigger] self.expanded_in_subtree(i)
                    ==> found@.contains(i as usize),
    {
        let mut found: Vec<usize> = Vec::new();
        let mut i: usize = 0;
        while i < self.nodes.len()
            invariant
                self.wf(),
                i <= self.nodes@.len(),
                forall|a: int, b: int| 0 <= a < b < found@.len() ==> found@[a] < found@[b],
                forall|k: int|
                    0 <= k < found@.len() ==> found@[k] < i && self.expanded_in_subtree(
                        #[trigger] found@[k] as int,
                    ),
                forall|j: int|
                    0 <= j < i && #[trigger] self.expanded_in_subtree(j) ==> found@.contains(
                        j as usize,
                    ),
            decreases self.nodes@.len() - i,
        {
            let keep = self.nodes[i].is_expanded && self.is_descendant(i, self.root);
            let ghost before = found@;
            if keep {
                found.push(i);
            }
            proof {
                assert forall|j: int| 0 <= j <= i && #[trigger] self.expanded_in_subtree(j)
                    implies found@.contains(j as usize) by {
                    if j < i {
                        assert(before.contains(j as usize));
                        let k = choose|k: int| 0 <= k < before.len() && before[k] == j as usize;
                        assert(found@[k] == j as usize);
                    } else {
                        assert(found@[found@.len() - 1] == i);
                    }
                }
            }
            i += 1;
        }
        found
    }

    /// Makes the child of the root reached by `action` the new root, cut
    /// from its parent; the arena is kept as it is.
    pub fn take_child_as_root(&mut self, action: usize) -> (new_root: usize)
        requires
            old(self).wf(),
            action < old(self).nodes@[old(self).root as int].children@.len(),
        ensures
            final(self).wf(),
            new_root == old(self).nodes@[old(self).root as int].children@[action as int],
            final(self).root == new_root,
            final(self).nodes@.len() == old(self).nodes@.len(),
            final(self).nodes@[new_root as int].parent is None,
            final(self).kids() == old(self).kids(),
            forall|i: int|
                0 <= i < old(self).nodes@.len() && i != new_root ==> final(self).nodes@[i] == old(
                    self,
                ).nodes@[i],
            ({
                let a = final(self).nodes@[new_root as int];
                let b = old(self).nodes@[new_root as int];
                &&& a.player == b.player
                &&& a.stats == b.stats
                &&& a.action == b.action
                &&& a.is_expanded == b.is_expanded
                &&& a.visits == b.visits
                &&& a.v_loss == b.v_loss
                &&& a.vl_applied == b.vl_applied
                &&& a.children == b.children
            }),
    {
        let ghost old_t = *self;
        proof {
            assert(old_t.node_wf(old_t.root as int));
            assert(old_t.child_ok(old_t.root as int, action as int));
        }
        let c = self.nodes[self.root].children[action];
        self.nodes[c].parent = None;
        self.root = c;
        proof {
            assert(self.kids() =~= old_t.kids());
            assert forall|i: int| 0 <= i < self.nodes@.len() implies #[trigger] self.node_wf(i) by {
                assert(old_t.node_wf(i));
                assert forall|k: int| 0 <= k < self.nodes@[i].children@.len() implies #[trigger] self.child_ok(i, k) by {
                    assert(old_t.child_ok(i, k));
                }
            }
        }
        c
    }
}

impl<S> Tree<S> {
    /// The nodes of the path from `start`, `start` included, after one
    /// more (`delta == 1`) or one fewer (`delta == -1`) virtual loss each.
    fn shift_along(&mut self, start: usize, path: &Vec<Action>, delta: i8)
        requires
            old(self).wf(),
            old(self).valid_path(start, path@),
            delta == 1 || delta == -1,
            forall|d: int|
                0 <= d <= path@.len() ==> {
                    let nd = #[trigger] old(self).nodes@[old(self).path_node(start, path@, d) as int];
                    &&& i32::MIN <= nd.vl_applied + delta <= i32::MAX
                    &&& i64::MIN <= nd.v_loss + delta <= i64::MAX
                },
        ensures
            final(self).wf(),
            final(self).root == old(self).root,
            final(self).kids() == old(self).kids(),
            final(self).nodes@ == shifted_along(
                old(self).nodes@,
                old(self).kids(),
                start,
                path@,
                path@.len() as int,
                delta as int,
            ),
    {
        let ghost old_t = *self;
        let n = path.len();
        proof {
            old_t.lemma_path_nodes(start, path@, 0);
            assert(shifted_along(old_t.nodes@, old_t.kids(), start, path@, -1, delta as int) == old_t.nodes@);
        }
        let vl = self.nodes[start].v_loss;
        self.nodes[start].v_loss = vl + delta as i64;
        let va = self.nodes[start].vl_applied;
        self.nodes[start].vl_applied = va + delta as i32;
        assert(self.nodes@ =~= shifted_along(old_t.nodes@, old_t.kids(), start, path@, 0, delta as int));
        let mut cur = start;
        let mut d: usize = 0;
        while d < n
            invariant
                old_t.wf(),
                old_t.valid_path(start, path@),
                n == path@.len(),
                d <= n,
                delta == 1 || delta == -1,
                cur == old_t.path_node(start, path@, d as int),
                self.root == old_t.root,
                forall|e: int|
                    0 <= e <= path@.len() ==> {
                        let nd = #[trigger] old_t.nodes@[old_t.path_node(start, path@, e) as int];
                        &&& i32::MIN <= nd.vl_applied + delta <= i32::MAX
                        &&& i64::MIN <= nd.v_loss + delta <= i64::MAX
                    },
                self.nodes@ == shifted_along(old_t.nodes@, old_t.kids(), start, path@, d as int, delta as int),
            decreases n - d,
        {
            proof {
                old_t.lemma_path_nodes(start, path@, d as int);
                old_t.lemma_path_nodes(start, path@, d as int + 1);
                Self::lemma_shifted_shape(old_t, start, path@, d as int, delta as int);
                let nx = old_t.path_node(start, path@, d as int + 1);
                assert forall|e: int| 0 <= e <= d implies #[trigger] old_t.path_node(start, path@, e) != nx by {
                    old_t.lemma_path_increasing(start, path@, e, d as int + 1);
                }
                Self::lemma_shifted_untouched(old_t, old_t.nodes@, start, path@, d as int, delta as int, nx as int);
            }
            let next = self.nodes[cur].children[path[d] as usize];
            assert(next == old_t.path_node(start, path@, d as int + 1));
            let vl = self.nodes[next].v_loss;
            self.nodes[next].v_loss = vl + delta as i64;
            let va = self.nodes[next].vl_applied;
            self.nodes[next].vl_applied = va + delta as i32;
            cur = next;
            d += 1;
            assert(self.nodes@ =~= shifted_along(old_t.nodes@, old_t.kids(), start, path@, d as int, delta as int));
        }
        proof {
            Self::lemma_shifted_shape(old_t, start, path@, n as int, delta as int);
            assert(self.kids() =~= old_t.kids());
            assert forall|i: int| 0 <= i < self.nodes@.len() implies #[trigger] self.node_wf(i) by {
                assert(old_t.node_wf(i));
                assert forall|k: int| 0 <= k < self.nodes@[i].children@.len() implies #[trigger] self.child_ok(i, k) by {
                    assert(old_t.child_ok(i, k));
                }
            }
        }
    }

    /// Applies a virtual loss for a traversal along `path` from `start`:
    /// `start` and every node of the path below it take one more.
    pub fn add_virtual_loss(&mut self, start: usize, path: &Vec<Action>)
        requires
            old(self).wf(),
            old(self).valid_path(start, path@),
            forall|d: int|
                0 <= d <= path@.len() ==> {
                    let nd = #[trigger] old(self).nodes@[old(self).path_node(start, path@, d) as int];
                    &&& nd.vl_applied < i32::MAX
                    &&& nd.v_loss < i64::MAX
                },
        ensures
            final(self).wf(),
            final(self).root == old(self).root,
            final(self).kids() == old(self).kids(),
            final(self).nodes@ == added_virtual_loss(old(self).nodes@, old(self).kids(), start, path@),
    {
        self.shift_along(start, path, 1);
    }

    /// Takes back one virtual loss from `start` and from every node on
    /// `path` below it.
    pub fn revert_virtual_loss(&mut self, start: usize, path: &Vec<Action>)
        requires
            old(self).wf(),
            old(self).valid_path(start, path@),
            forall|d: int|
                0 <= d <= path@.len() ==> {
                    let nd = #[trigger] old(self).nodes@[old(self).path_node(start, path@, d) as int];
                    &&& nd.vl_applied > i32::MIN
                    &&& nd.v_loss > i64::MIN
                },
        ensures
            final(self).wf(),
            final(self).root == old(self).root,
            final(self).kids() == old(self).kids(),
            final(self).nodes@ == reverted_virtual_loss(old(self).nodes@, old(self).kids(), start, path@),
    {
        self.shift_along(start, path, -1);
    }
}

/// Law: taking a virtual loss back along the same path right after adding
/// it gives back the arena as it was, every node of the path included.
pub proof fn lemma_virtual_loss_round_trip<S>(t: Tree<S>, start: usize, path: Seq<Action>)
    requires
        t.wf(),
        t.valid_path(start, path),
        forall|d: int|
            0 <= d <= path.len() ==> {
                let nd = #[trigger] t.nodes@[t.path_node(start, path, d) as int];
                &&& nd.vl_applied < i32::MAX
                &&& nd.v_loss < i64::MAX
            },
    ensures
        reverted_virtual_loss(added_virtual_loss(t.nodes@, t.kids(), start, path), t.kids(), start, path)
            == t.nodes@,
{
    let n = path.len() as int;
    let a = added_virtual_loss(t.nodes@, t.kids(), start, path);
    let r = reverted_virtual_loss(a, t.kids(), start, path);
    Tree::<S>::lemma_shifted_on_path(t, t.nodes@, start, path, n, 1, 0);
    Tree::<S>::lemma_shifted_on_path(t, a, start, path, n, -1, 0);
    assert forall|i: int| 0 <= i < t.nodes@.len() implies #[trigger] r[i] == t.nodes@[i] by {
        if exists|e: int| 0 <= e <= n && t.path_node(start, path, e) == i {
            let e = choose|e: int| 0 <= e <= n && t.path_node(start, path, e) == i;
            Tree::<S>::lemma_shifted_on_path(t, t.nodes@, start, path, n, 1, e);
            Tree::<S>::lemma_shifted_on_path(t, a, start, path, n, -1, e);
            let x = t.nodes@[i];
            assert(x.vl_applied < i32::MAX && x.v_loss < i64::MAX);
        } else {
            Tree::<S>::lemma_shifted_untouched(t, t.nodes@, start, path, n, 1, i);
            Tree::<S>::lemma_shifted_untouched(t, a, start, path, n, -1, i);
        }
    }
    assert(r =~= t.nodes@);
}

impl<S: Copy> Tree<S> {
    /// Expands an unexpanded node: one fresh child per prior, the child
    /// for action `a` carrying `priors[a]` and `child_to_play`, appended
    /// to the arena in action order.
    pub fn expand(&mut self, node: usize, priors: &Vec<S>, child_to_play: i32)
        requires
            old(self).wf(),
            node < old(self).nodes@.len(),
            !old(self).nodes@[node as int].is_expanded,
            priors@.len() > 0,
            priors@.len() <= 0x1_0000_0000,
        ensures
            final(self).wf(),
            final(self).root == old(self).root,
            final(self).nodes@.len() == old(self).nodes@.len() + priors@.len(),
            forall|i: int|
                0 <= i < old(self).nodes@.len() && i != node ==> final(self).nodes@[i] == old(
                    self,
                ).nodes@[i],
            final(self).nodes@[node as int].is_expanded,
            final(self).nodes@[node as int].children@ == Seq::new(
                priors@.len(),
                |k: int| (old(self).nodes@.len() + k) as usize,
            ),
            final(self).nodes@[node as int].player == old(self).nodes@[node as int].player,
            final(self).nodes@[node as int].stats == old(self).nodes@[node as int].stats,
            final(self).nodes@[node as int].action == old(self).nodes@[node as int].action,
            final(self).nodes@[node as int].parent == old(self).nodes@[node as int].parent,
            final(self).nodes@[node as int].visits == old(self).nodes@[node as int].visits,
            final(self).nodes@[node as int].v_loss == old(self).nodes@[node as int].v_loss,
            final(self).nodes@[node as int].vl_applied == old(self).nodes@[node as int].vl_applied,
            forall|k: int|
                0 <= k < priors@.len() ==> {
                    let c = #[trigger] final(self).nodes@[old(self).nodes@.len() + k];
                    &&& c.player == child_to_play
                    &&& c.stats == priors@[k]
                    &&& c.action == k
                    &&& c.parent == Some(node)
                    &&& !c.is_expanded
                    &&& c.visits == 0
                    &&& c.v_loss == 0
                    &&& c.vl_applied == 0
                    &&& c.children@.len() == 0
                },
    {
        let ghost old_t = *self;
        let base = self.nodes.len();
        let n = priors.len();
        let mut k: usize = 0;
        while k < n
            invariant
                old_t.wf(),
                n == priors@.len(),
                n <= 0x1_0000_0000,
                node < base,
                base == old_t.nodes@.len(),
                self.root == old_t.root,
                k <= n,
                self.nodes@.len() == base + k,
                forall|i: int| 0 <= i < base ==> self.nodes@[i] == old_t.nodes@[i],
                forall|j: int|
                    0 <= j < k ==> {
                        let c = #[trigger] self.nodes@[base + j];
                        &&& c.player == child_to_play
                        &&& c.stats == priors@[j]
                        &&& c.action == j
                        &&& c.parent == Some(node)
                        &&& !c.is_expanded
                        &&& c.visits == 0
                        &&& c.v_loss == 0
                        &&& c.vl_applied == 0
                        &&& c.children@.len() == 0
                    },
            decreases n - k,
        {
            let child = Node::new(child_to_play, priors[k], k as Action, Some(node), Some(0));
            self.nodes.push(child);
            k += 1;
        }
        let total = self.nodes.len();
        let ghost mid = self.nodes@;
        let mut children: Vec<usize> = Vec::new();
        let mut j: usize = 0;
        while j < n
            invariant
                j <= n,
                total == base + n,
                children@.len() == j,
                forall|i: int| 0 <= i < j ==> #[trigger] children@[i] == (base + i) as usize,
            decreases n - j,
        {
            children.push(base + j);
            j += 1;
        }
        assert(children@ =~= Seq::new(n as nat, |k: int| (base + k) as usize));
        self.nodes[node].children = children;
        self.nodes[node].is_expanded = true;
        proof {
            assert forall|i: int| 0 <= i < self.nodes@.len() implies #[trigger] self.node_wf(i) by {
                if i < base {
                    assert(old_t.node_wf(i));
                    assert(old_t.node_wf(node as int));
                    if let Some(p) = old_t.nodes@[i].parent {
                        if p == node {
                            assert(old_t.nodes@[node as int].children@.len() == 0);
                            assert(!old_t.nodes@[node as int].children@.contains(i as usize));
                        } else {
                            assert(self.nodes@[p as int] == old_t.nodes@[p as int]);
                        }
                    }
                    if i != node {
                        assert forall|k: int| 0 <= k < self.nodes@[i].children@.len() implies #[trigger] self.child_ok(i, k) by {
                            assert(old_t.child_ok(i, k));
                        }
                    } else {
                        assert forall|k: int| 0 <= k < self.nodes@[i].children@.len() implies #[trigger] self.child_ok(i, k) by {
                            assert(self.nodes@[base + k] == mid[base + k]);
                            assert(self.nodes@[i].children@[k] == base + k);
                        }
                    }
                } else {
                    let c = self.nodes@[i];
                    assert(c == self.nodes@[base + (i - base)]);
                    assert(self.nodes@[node as int].children@[i - base] == i as usize);
                }
            }
        }
    }
}

} // verus!
