use crate::chance::{random_below, sample_indices};
use crate::game::{
    count_zeros, empty_indices, lemma_empty_indices, legal_actions, max_tile, move_spec, tiles_bounded, Action,
    Board, Cord, Summary, MAX_TILE,
};
use vstd::arithmetic::power2::{lemma2_to64, lemma_pow2_unfold, pow2};
use vstd::prelude::*;

verus! {

/// A player: picks an action on a board where the game is not over.
pub trait AIPlayer {
    fn next_action(&self, board: &Board) -> (r: Action)
        requires
            board.wf(),
            tiles_bounded(board.vec@),
            legal_actions(board.vec@).len() > 0,
        ensures
            legal_actions(board.vec@).contains(r),
    ;
}

/// A player that picks one of the legal actions uniformly at random.
#[derive(Clone, Copy, Debug)]
pub struct RandomPlayer;

impl AIPlayer for RandomPlayer {
    fn next_action(&self, board: &Board) -> (r: Action) {
        let actions = board.get_actions();
        let i = random_below(actions.len());
        actions[i]
    }
}

/// A possible random tile: `value` written into empty cell `index`, with
/// probability `tenths / (10 * e)` on a board with `e` empty cells.
#[derive(Clone, Copy, Debug, PartialEq, Eq, Structural)]
pub struct SpawnCandidate {
    pub index: usize,
    pub value: u64,
    pub tenths: u64,
}

/// How a search node's board was reached from its parent.
#[derive(Clone, Copy, Debug, PartialEq, Eq, Structural)]
pub enum Move {
    Direction(Action),
    Space(SpawnCandidate),
    Start,
    End,
}

impl Move {
    pub fn space(&self) -> (r: SpawnCandidate)
        requires
            self is Space,
        ensures
            *self == Move::Space(r),
    {
        match *self {
            Move::Space(u) => u,
            _ => {
                proof {
                    assert(false);
                }
                SpawnCandidate { index: 0, value: 0, tenths: 0 }
            },
        }
    }

    pub fn dir(&self) -> (r: Action)
        requires
            self is Direction,
        ensures
            *self == Move::Direction(r),
    {
        match *self {
            Move::Direction(a) => a,
            _ => {
                proof {
                    assert(false);
                }
                Action::Up
            },
        }
    }
}

/// A node of the search tree.
#[derive(Clone, Debug)]
pub struct State {
    /// How this board was reached.
    pub action: Move,
    /// The number of levels above this node.
    pub depth: usize,
    pub board: Board,
}

impl State {
    pub fn new(action: Move, depth: usize, board: Board) -> (r: State)
        ensures
            r.action == action,
            r.depth == depth,
            r.board == board,
    {
        State { action, depth, board }
    }

    /// The root of a search from `board`.
    pub fn from_board(board: Board) -> (r: State)
        ensures
            r.action == Move::Start,
            r.depth == 0,
            r.board == board,
    {
        State { action: Move::Start, depth: 0, board }
    }
}

/// The children of a max node: for each legal action, in order, the board
/// after that move, one level deeper.
pub fn move_children(s: &State) -> (r: Vec<State>)
    requires
        s.board.wf(),
        tiles_bounded(s.board.vec@),
        s.depth < usize::MAX,
    ensures
        r@.len() == legal_actions(s.board.vec@).len(),
        forall|i: int| 0 <= i < r@.len() ==> {
            &&& #[trigger] r@[i].action == Move::Direction(legal_actions(s.board.vec@)[i])
            &&& r@[i].depth == s.depth + 1
            &&& r@[i].board.wf()
            &&& forall|k: int| 0 <= k < 16 ==> r@[i].board.vec@[k] as int
                == move_spec(s.board.vec@, legal_actions(s.board.vec@)[i])[k]
        },
{
    let actions = s.board.get_actions();
    let mut r: Vec<State> = Vec::new();
    let mut i: usize = 0;
    while i < actions.len()
        invariant
            s.board.wf(),
            tiles_bounded(s.board.vec@),
            s.depth < usize::MAX,
            actions@ == legal_actions(s.board.vec@),
            0 <= i <= actions@.len(),
            r@.len() == i,
            forall|j: int| 0 <= j < i ==> {
                &&& #[trigger] r@[j].action == Move::Direction(actions@[j])
                &&& r@[j].depth == s.depth + 1
                &&& r@[j].board.wf()
                &&& forall|k: int| 0 <= k < 16 ==> r@[j].board.vec@[k] as int == move_spec(s.board.vec@, actions@[j])[k]
            },
        decreases actions@.len() - i,
    {
        let a = actions[i];
        r.push(State::new(Move::Direction(a), s.depth + 1, s.board.make_move(a)));
        i = i + 1;
    }
    r
}

/// The children of a chance node: for each of `cands`, in order, the board
/// with that tile spawned, one level deeper.
pub fn spawn_children(s: &State, cands: &Vec<SpawnCandidate>) -> (r: Vec<State>)
    requires
        s.board.wf(),
        s.depth < usize::MAX,
        forall|i: int| 0 <= i < cands@.len() ==> (#[trigger] cands@[i]).index < 16,
    ensures
        r@.len() == cands@.len(),
        forall|i: int| 0 <= i < r@.len() ==> {
            &&& #[trigger] r@[i].action == Move::Space(cands@[i])
            &&& r@[i].depth == s.depth + 1
            &&& r@[i].board.vec@ == s.board.vec@.update(cands@[i].index as int, cands@[i].value)
        },
{
    let mut r: Vec<State> = Vec::new();
    let mut i: usize = 0;
    while i < cands.len()
        invariant
            s.board.wf(),
            s.depth < usize::MAX,
            forall|j: int| 0 <= j < cands@.len() ==> (#[trigger] cands@[j]).index < 16,
            0 <= i <= cands@.len(),
            r@.len() == i,
            forall|j: int| 0 <= j < i ==> {
                &&& #[trigger] r@[j].action == Move::Space(cands@[j])
                &&& r@[j].depth == s.depth + 1
                &&& r@[j].board.vec@ == s.board.vec@.update(cands@[j].index as int, cands@[j].value)
            },
        decreases cands@.len() - i,
    {
        let c = cands[i];
        r.push(State::new(Move::Space(c), s.depth + 1, s.board.add_space(c.index, c.value)));
        i = i + 1;
    }
    r
}

/// Every candidate spawn on board `b`: a 2 (nine tenths) in each empty
/// cell, then a 4 (one tenth) in each empty cell.
pub open spec fn all_candidates(b: Seq<u64>) -> Seq<SpawnCandidate> {
    let e = empty_indices(b);
    Seq::new(e.len(), |i: int| SpawnCandidate { index: e[i], value: 2, tenths: 9 })
        + Seq::new(e.len(), |i: int| SpawnCandidate { index: e[i], value: 4, tenths: 1 })
}

/// The penalty of the board's best tiles standing in the center, for one
/// center cell holding `v`.
pub open spec fn center_term(best: u64, v: u64) -> int {
    (if v == best { -6int } else { 0int }) + (if v == best / 2 { -4int } else { 0int })
}

/// The center penalty: three times the center terms of the four center
/// cells `(1,1)`, `(1,2)`, `(2,1)`, `(2,2)`.
pub open spec fn center_penalty_spec(b: Seq<u64>) -> int {
    let best = max_tile(b);
    3 * center_sum(best, b, 4)
}

/// The center terms of the first `j` center cells.
pub open spec fn center_sum(best: u64, b: Seq<u64>, j: int) -> int
    decreases j,
{
    if j <= 0 {
        0
    } else {
        let c = if j == 1 { 5int } else if j == 2 { 9int } else if j == 3 { 6int } else { 10int };
        center_sum(best, b, j - 1) + center_term(best, b[c])
    }
}

/// The penalty for a nearly full board with `e` empty cells.
pub open spec fn near_game_over_spec(e: int) -> int {
    if e == 0 {
        -100
    } else if e < 3 {
        -7 * (3 - e)
    } else {
        0
    }
}

/// The sum of the squares of the cells.
pub open spec fn squares(s: Seq<u64>) -> int
    decreases s.len(),
{
    if s.len() == 0 {
        0
    } else {
        squares(s.drop_last()) + s.last() * s.last()
    }
}

/// No two candidates on a board are the same.
pub proof fn lemma_candidates_distinct(b: Seq<u64>)
    requires
        b.len() <= usize::MAX,
    ensures
        all_candidates(b).no_duplicates(),
{
    crate::game::lemma_empty_indices_increasing(b);
    let e = empty_indices(b);
    let c = all_candidates(b);
    assert forall|i: int, j: int| 0 <= i < c.len() && 0 <= j < c.len() && i != j implies c[i] != c[j] by {
        let n = e.len() as int;
        let ii = if i < n { i } else { i - n };
        let jj = if j < n { j } else { j - n };
        if ii < jj {
            assert(e[ii] < e[jj]);
        } else if jj < ii {
            assert(e[jj] < e[ii]);
        }
    }
}

/// Every candidate spawn on `board`, as `all_candidates` lists them.
pub fn candidates(board: &Board) -> (r: Vec<SpawnCandidate>)
    ensures
        r@ == all_candidates(board.vec@),
{
    let empty = board.get_empty();
    let mut r: Vec<SpawnCandidate> = Vec::new();
    let mut i: usize = 0;
    while i < empty.len()
        invariant
            empty@ == empty_indices(board.vec@),
            0 <= i <= empty@.len(),
            r@ =~= Seq::new(i as nat, |j: int| SpawnCandidate { index: empty@[j], value: 2, tenths: 9 }),
        decreases empty@.len() - i,
    {
        r.push(SpawnCandidate { index: empty[i], value: 2, tenths: 9 });
        i = i + 1;
    }
    let ghost twos = r@;
    let mut i: usize = 0;
    while i < empty.len()
        invariant
            empty@ == empty_indices(board.vec@),
            0 <= i <= empty@.len(),
            twos.len() == empty@.len(),
            r@ =~= twos + Seq::new(i as nat, |j: int| SpawnCandidate { index: empty@[j], value: 4, tenths: 1 }),
        decreases empty@.len() - i,
    {
        r.push(SpawnCandidate { index: empty[i], value: 4, tenths: 1 });
        i = i + 1;
    }
    r
}

/// The base-2 logarithm of a tile, rounded down; an empty cell counts as a
/// tile of value 1.
pub open spec fn tile_log(v: u64) -> int
    decreases v,
{
    if v <= 1 {
        0
    } else {
        1 + tile_log(v / 2)
    }
}

/// The two cells of adjacent pair `j`: pairs `0..12` are horizontal, row by
/// row; pairs `12..24` are vertical, row by row.
pub open spec fn pair_cells(j: int) -> (int, int) {
    if j < 12 {
        let x = j % 3;
        let y = j / 3;
        (x + 4 * y, x + 1 + 4 * y)
    } else {
        let m = j - 12;
        (m % 4 + 4 * (m / 4), m % 4 + 4 * (m / 4) + 4)
    }
}

/// The logarithmic difference across adjacent pair `j`.
pub open spec fn pair_step(b: Seq<u64>, j: int) -> int {
    let (c, d) = pair_cells(j);
    let diff = tile_log(b[c]) - tile_log(b[d]);
    if diff < 0 { -diff } else { diff }
}

/// The sum of the logarithmic differences across the first `n` pairs.
pub open spec fn roughness_upto(b: Seq<u64>, n: int) -> int
    decreases n,
{
    if n <= 0 {
        0
    } else {
        roughness_upto(b, n - 1) + pair_step(b, n - 1)
    }
}

/// How rough the board is: the sum, over all 24 pairs of horizontally or
/// vertically adjacent cells, of the difference of their tile logarithms.
pub open spec fn roughness_spec(b: Seq<u64>) -> int {
    roughness_upto(b, 24)
}

/// A value below `2^k` has a logarithm below `k`.
proof fn lemma_tile_log_below(v: u64, k: nat)
    requires
        k > 0,
        v < pow2(k),
    ensures
        0 <= tile_log(v) < k,
    decreases v,
{
    lemma_pow2_unfold(k);
    if k == 1 {
        lemma2_to64();
    }
    if v > 1 {
        lemma_tile_log_below(v / 2, (k - 1) as nat);
    }
}

/// The logarithm of a tile, rounded down; zero for an empty cell.
pub fn tile_log_exec(v: u64) -> (r: u64)
    ensures
        r == tile_log(v),
        r < 64,
{
    proof {
        lemma2_to64();
        lemma_tile_log_below(v, 64);
    }
    let mut w = v;
    let mut r: u64 = 0;
    while w > 1
        invariant
            r + tile_log(w) == tile_log(v),
            tile_log(v) < 64,
            pow2(64) == 0x1_0000_0000_0000_0000,
        decreases w,
    {
        proof {
            lemma_tile_log_below(w / 2, 64);
        }
        w = w / 2;
        r = r + 1;
    }
    r
}

/// How rough the board is, as `roughness_spec` defines it.
pub fn roughness(board: &Board) -> (r: u64)
    requires
        board.wf(),
    ensures
        r == roughness_spec(board.vec@),
{
    let mut sum: u64 = 0;
    let mut j: usize = 0;
    while j < 24
        invariant
            board.wf(),
            0 <= j <= 24,
            sum == roughness_upto(board.vec@, j as int),
            sum <= 64 * j,
        decreases 24 - j,
    {
        let (c, d) = if j < 12 {
            let x = j % 3;
            let y = j / 3;
            (x + 4 * y, x + 1 + 4 * y)
        } else {
            let m = j - 12;
            (m % 4 + 4 * (m / 4), m % 4 + 4 * (m / 4) + 4)
        };
        assert((c as int, d as int) == pair_cells(j as int));
        let lc = tile_log_exec(board.vec[c]);
        let ld = tile_log_exec(board.vec[d]);
        let step = if lc >= ld { lc - ld } else { ld - lc };
        sum = sum + step;
        j = j + 1;
    }
    sum
}

/// The integer features of the position heuristic.
#[derive(Clone, Copy, Debug, PartialEq, Eq, Structural)]
pub struct Features {
    /// Twice the number of empty cells.
    pub openness: u64,
    pub near_game_over: i64,
    /// The sum of the squares of the cells.
    pub squared_sum: u128,
    pub center_penalty: i64,
    /// The roughness of the board.
    pub roughness: u64,
}

/// The expectimax player: `max_depth` player moves deep, evaluating at most
/// `num_expecti` spawns at each chance node.
#[derive(Clone, Copy, Debug)]
pub struct ExpectiMax {
    pub max_depth: usize,
    pub num_expecti: usize,
}

impl ExpectiMax {
    /// The player, or `None` when `num_expecti` is zero: a chance node could
    /// then evaluate nothing.
    pub fn new(max_depth: usize, num_expecti: usize) -> (r: Option<ExpectiMax>)
        ensures
            r is None <==> num_expecti == 0,
            r matches Some(e) ==> e.max_depth == max_depth && e.num_expecti == num_expecti,
    {
        if num_expecti == 0 {
            None
        } else {
            Some(ExpectiMax { max_depth, num_expecti })
        }
    }

    /// A node at `depth` on board `b` is evaluated by the heuristic alone.
    pub open spec fn leaf(&self, depth: int, b: Seq<u64>) -> bool {
        depth == self.max_depth || legal_actions(b).len() == 0
    }

    /// The spawns that a chance node on `board` evaluates: all of them when
    /// there are at most `num_expecti`, else `num_expecti` distinct ones
    /// drawn at random.
    pub fn select_candidates(&self, board: &Board) -> (r: Vec<SpawnCandidate>)
        requires
            board.wf(),
        ensures
            2 * count_zeros(board.vec@) <= self.num_expecti ==> r@ == all_candidates(board.vec@),
            2 * count_zeros(board.vec@) > self.num_expecti ==> {
                &&& r@.len() == self.num_expecti
                &&& r@.no_duplicates()
                &&& forall|i: int| 0 <= i < r@.len() ==> all_candidates(board.vec@).contains(#[trigger] r@[i])
            },
            forall|i: int| 0 <= i < r@.len() ==> (#[trigger] r@[i]).index < 16,
    {
        let all = candidates(board);
        proof {
            lemma_empty_indices(board.vec@);
            lemma_candidates_distinct(board.vec@);
        }
        proof {
            assert forall|i: int| 0 <= i < all@.len() implies (#[trigger] all@[i]).index < 16 by {
                let n = empty_indices(board.vec@).len() as int;
                if i < n {
                    assert(all@[i].index == empty_indices(board.vec@)[i]);
                } else {
                    assert(all@[i].index == empty_indices(board.vec@)[i - n]);
                }
            }
        }
        if all.len() <= self.num_expecti {
            return all;
        }
        let picks = sample_indices(all.len(), self.num_expecti);
        let mut r: Vec<SpawnCandidate> = Vec::new();
        let mut i: usize = 0;
        while i < picks.len()
            invariant
                all@ == all_candidates(board.vec@),
                all@.no_duplicates(),
                picks@.len() == self.num_expecti,
                forall|j: int| 0 <= j < picks@.len() ==> picks@[j] < all@.len(),
                forall|j: int, k: int| 0 <= j < k < picks@.len() ==> picks@[j] != picks@[k],
                0 <= i <= picks@.len(),
                r@.len() == i,
                forall|j: int| 0 <= j < i ==> r@[j] == all@[picks@[j] as int],
                forall|j: int| 0 <= j < all@.len() ==> (#[trigger] all@[j]).index < 16,
            decreases picks@.len() - i,
        {
            r.push(all[picks[i]]);
            i = i + 1;
        }
        proof {
            assert forall|j: int, k: int| 0 <= j < r@.len() && 0 <= k < r@.len() && j != k implies r@[j] != r@[k] by {
                if j < k {
                    assert(picks@[j] != picks@[k]);
                } else {
                    assert(picks@[k] != picks@[j]);
                }
            }
            assert forall|j: int| 0 <= j < r@.len() implies all@.contains(#[trigger] r@[j]) by {
                assert(all@[picks@[j] as int] == r@[j]);
            }
        }
        r
    }

    /// The integer features of the heuristic on `board`.
    pub fn features(board: &Board) -> (r: Features)
        requires
            board.wf(),
            tiles_bounded(board.vec@),
        ensures
            r.openness == 2 * count_zeros(board.vec@),
            r.near_game_over == near_game_over_spec(count_zeros(board.vec@)),
            r.squared_sum == squares(board.vec@),
            r.center_penalty == center_penalty_spec(board.vec@),
            r.roughness == roughness_spec(board.vec@),
    {
        let e = board.count_empty();
        proof {
            lemma_empty_indices(board.vec@);
        }
        let near_game_over: i64 = if e == 0 {
            -100
        } else if e < 3 {
            let short: i64 = 3 - e as i64;
            0 - 7 * short
        } else {
            0
        };
        let mut squared_sum: u128 = 0;
        let mut i: usize = 0;
        while i < 16
            invariant
                board.wf(),
                tiles_bounded(board.vec@),
                0 <= i <= 16,
                squared_sum == squares(board.vec@.take(i as int)),
                squared_sum <= i * 0x100_0000_0000_0000_0000_0000_0000_0000,
            decreases 16 - i,
        {
            assert(board.vec@.take(i as int + 1).drop_last() =~= board.vec@.take(i as int));
            assert(board.vec@[i as int] <= MAX_TILE);
            let v = board.vec[i] as u128;
            assert(v * v <= 0x100_0000_0000_0000_0000_0000_0000_0000) by (nonlinear_arith)
                requires
                    v <= 0x1000_0000_0000_0000,
            ;
            squared_sum = squared_sum + v * v;
            i = i + 1;
        }
        assert(board.vec@.take(16) =~= board.vec@);
        let best = board.get_best_tile();
        let mut center: i64 = 0;
        let center_cells = [Cord(1, 1), Cord(1, 2), Cord(2, 1), Cord(2, 2)];
        let mut j: usize = 0;
        while j < 4
            invariant
                board.wf(),
                best == max_tile(board.vec@),
                center_cells@ == seq![Cord(1, 1), Cord(1, 2), Cord(2, 1), Cord(2, 2)],
                0 <= j <= 4,
                center == center_sum(best, board.vec@, j as int),
                -10 * j <= center <= 0,
            decreases 4 - j,
        {
            let v = board.get(center_cells[j]);
            if best == v {
                center = center - 6;
            }
            if best / 2 == v {
                center = center - 4;
            }
            j = j + 1;
        }
        Features {
            openness: 2 * e as u64,
            near_game_over,
            squared_sum,
            center_penalty: center * 3,
            roughness: roughness(board),
        }
    }

    pub fn is_leaf(&self, s: &State) -> (r: bool)
        requires
            s.board.wf(),
            tiles_bounded(s.board.vec@),
        ensures
            r == self.leaf(s.depth as int, s.board.vec@),
    {
        s.depth == self.max_depth || s.board.get_actions().len() == 0
    }
}

/// The result of one finished game.
#[derive(Clone, Copy, Debug)]
pub struct Report {
    pub moves: usize,
    pub summary: Summary,
}

impl Report {
    pub fn new(moves: usize, summary: Summary) -> (r: Report)
        ensures
            r.moves == moves,
            r.summary == summary,
    {
        Report { moves, summary }
    }
}

/// How many of `reports` reached a best tile of at least `threshold`.
pub open spec fn reaching(reports: Seq<Report>, threshold: u64) -> int
    decreases reports.len(),
{
    if reports.len() == 0 {
        0
    } else {
        reaching(reports.drop_last(), threshold) + if reports.last().summary.best_tile >= threshold { 1int } else { 0int }
    }
}

/// The number of reports whose best tile is at least `threshold`.
pub fn count_reaching(reports: &Vec<Report>, threshold: u64) -> (r: usize)
    ensures
        r == reaching(reports@, threshold),
{
    let mut n: usize = 0;
    let mut i: usize = 0;
    while i < reports.len()
        invariant
            0 <= i <= reports@.len(),
            n == reaching(reports@.take(i as int), threshold),
            n <= i,
        decreases reports@.len() - i,
    {
        assert(reports@.take(i as int + 1).drop_last() =~= reports@.take(i as int));
        if reports[i].summary.best_tile >= threshold {
            n = n + 1;
        }
        i = i + 1;
    }
    assert(reports@.take(i as int) =~= reports@);
    n
}

/// A player together with the reports of the games it has finished.
#[derive(Debug)]
pub struct Player<T> {
    pub player: T,
    pub reports: Vec<Report>,
}

impl<T> Player<T> {
    pub fn new(player: T) -> (r: Player<T>)
        ensures
            r.player == player,
            r.reports@.len() == 0,
    {
        Player { player, reports: Vec::new() }
    }
}

} // verus!
