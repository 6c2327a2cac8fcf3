use crate::chance::{random_below, random_ratio};
use vstd::prelude::*;

verus! {

/// A direction in which all tiles slide.
#[derive(Clone, Copy, Debug, PartialEq, Eq, Structural)]
pub enum Action {
    Up,
    Down,
    Left,
    Right,
}

/// The unit vector of an action, as `(dx, dy)`.
pub open spec fn dir_spec(a: Action) -> (int, int) {
    match a {
        Action::Down => (0, 1),
        Action::Up => (0, -1),
        Action::Right => (1, 0),
        Action::Left => (-1, 0),
    }
}

impl Action {
    /// The unit vector of this action, as `(dx, dy)`; `y` grows downward.
    pub fn dir(&self) -> (r: (i64, i64))
        ensures
            r.0 == dir_spec(*self).0,
            r.1 == dir_spec(*self).1,
    {
        match *self {
            Action::Down => (0, 1),
            Action::Up => (0, -1),
            Action::Right => (1, 0),
            Action::Left => (-1, 0),
        }
    }

    /// The cell on the destination edge of the line through `start`.
    pub fn min_cord(&self, start: Cord) -> (r: Cord)
        ensures
            r == min_cord_spec(*self, start),
    {
        let Cord(x, y) = start;
        match *self {
            Action::Up => Cord(x, 0),
            Action::Down => Cord(x, 3),
            Action::Left => Cord(0, y),
            Action::Right => Cord(3, y),
        }
    }
}

pub open spec fn min_cord_spec(a: Action, c: Cord) -> Cord {
    match a {
        Action::Up => Cord(c.0, 0),
        Action::Down => Cord(c.0, 3),
        Action::Left => Cord(0, c.1),
        Action::Right => Cord(3, c.1),
    }
}

/// A cell position `(x, y)`; it lies on the board when both are in `0..4`.
#[derive(Clone, Copy, Debug, PartialEq, Eq, Structural)]
pub struct Cord(pub i64, pub i64);

pub open spec fn valid_xy(x: int, y: int) -> bool {
    0 <= x < 4 && 0 <= y < 4
}

impl Cord {
    pub open spec fn valid(&self) -> bool {
        valid_xy(self.0 as int, self.1 as int)
    }

    /// The index of this cell in the row-major cell sequence.
    pub open spec fn index(&self) -> int {
        self.0 + 4 * self.1
    }

    /// The index of this cell in the row-major cell sequence.
    pub fn to_index(&self) -> (r: usize)
        requires
            self.valid(),
        ensures
            r == self.index(),
    {
        (self.0 + 4 * self.1) as usize
    }

    /// Whether this cell lies on the board.
    pub fn is_valid(&self) -> (r: bool)
        ensures
            r == self.valid(),
    {
        let Cord(x, y) = *self;
        if (x < 0) || (y < 0) {
            false
        } else if (x >= 4) || (y >= 4) {
            false
        } else {
            true
        }
    }

    /// The neighbouring cell one step in the direction of `action`, if it
    /// lies on the board.
    pub fn over(&self, action: Action) -> (r: Option<Cord>)
        requires
            i64::MIN < self.0 < i64::MAX,
            i64::MIN < self.1 < i64::MAX,
        ensures
            r == (if valid_xy(self.0 + dir_spec(action).0, self.1 + dir_spec(action).1) {
                Some(Cord((self.0 + dir_spec(action).0) as i64, (self.1 + dir_spec(action).1) as i64))
            } else {
                None
            }),
    {
        let (dx, dy) = action.dir();
        let Cord(x, y) = *self;
        let over = Cord(x + dx, y + dy);
        if over.is_valid() {
            Some(over)
        } else {
            None
        }
    }
}

// Lines. For an action, line `l` (in `0..4`) is the row or column that the
// tiles slide along, and position `p` (in `0..4`) counts cells from the
// destination edge of that line.

/// Column of position `p` of line `l`.
pub open spec fn line_x(a: Action, l: int, p: int) -> int {
    match a {
        Action::Up => l,
        Action::Down => 3 - l,
        Action::Left => p,
        Action::Right => 3 - p,
    }
}

/// Row of position `p` of line `l`.
pub open spec fn line_y(a: Action, l: int, p: int) -> int {
    match a {
        Action::Up => p,
        Action::Down => 3 - p,
        Action::Left => l,
        Action::Right => 3 - l,
    }
}

/// Cell index of position `p` of line `l`.
pub open spec fn line_cell(a: Action, l: int, p: int) -> int {
    line_x(a, l, p) + 4 * line_y(a, l, p)
}

/// The line that cell `(x, y)` belongs to.
pub open spec fn line_of(a: Action, x: int, y: int) -> int {
    match a {
        Action::Up => x,
        Action::Down => 3 - x,
        Action::Left => y,
        Action::Right => 3 - y,
    }
}

/// The position of cell `(x, y)` within its line.
pub open spec fn pos_of(a: Action, x: int, y: int) -> int {
    match a {
        Action::Up => y,
        Action::Down => 3 - y,
        Action::Left => x,
        Action::Right => 3 - x,
    }
}

/// The cells of the board in the order in which a move visits them: line by
/// line, each from its destination edge outward.
pub open spec fn traversal_cord(a: Action, i: int) -> Cord {
    Cord(line_x(a, i / 4, i % 4) as i64, line_y(a, i / 4, i % 4) as i64)
}

/// The result of sliding `s` (a line read from its destination edge) tile by
/// tile: zeros are skipped, and a tile equal to the last placed one merges
/// into it unless that one is itself the product of a merge. The flag tells
/// whether the last placed tile came from a merge.
pub open spec fn slide(s: Seq<int>) -> (Seq<int>, bool)
    decreases s.len(),
{
    if s.len() == 0 {
        (Seq::empty(), false)
    } else {
        let (out, merged) = slide(s.drop_last());
        let v = s.last();
        if v == 0 {
            (out, merged)
        } else if out.len() > 0 && out.last() == v && !merged {
            (out.update(out.len() - 1, 2 * v), true)
        } else {
            (out.push(v), false)
        }
    }
}

pub fn get_traversal(action: Action) -> (r: Vec<Cord>)
    ensures
        r@.len() == 16,
        forall|i: int| 0 <= i < 16 ==> r@[i] == traversal_cord(action, i),
{
    let mut r: Vec<Cord> = Vec::new();
    let mut i: i64 = 0;
    while i < 16
        invariant
            0 <= i <= 16,
            r@.len() == i,
            forall|j: int| 0 <= j < i ==> r@[j] == traversal_cord(action, j),
        decreases 16 - i,
    {
        let l = i / 4;
        let p = i % 4;
        let c = match action {
            Action::Up => Cord(l, p),
            Action::Down => Cord(3 - l, 3 - p),
            Action::Left => Cord(p, l),
            Action::Right => Cord(3 - p, 3 - l),
        };
        r.push(c);
        i = i + 1;
    }
    r
}

pub proof fn lemma_line_coords(a: Action, l: int, p: int)
    requires
        0 <= l < 4,
        0 <= p < 4,
    ensures
        valid_xy(line_x(a, l, p), line_y(a, l, p)),
        line_of(a, line_x(a, l, p), line_y(a, l, p)) == l,
        pos_of(a, line_x(a, l, p), line_y(a, l, p)) == p,
        0 <= line_cell(a, l, p) < 16,
        line_cell(a, l, p) % 4 == line_x(a, l, p),
        line_cell(a, l, p) / 4 == line_y(a, l, p),
{
}

pub proof fn lemma_cell_coords(a: Action, x: int, y: int)
    requires
        valid_xy(x, y),
    ensures
        0 <= line_of(a, x, y) < 4,
        0 <= pos_of(a, x, y) < 4,
        line_x(a, line_of(a, x, y), pos_of(a, x, y)) == x,
        line_y(a, line_of(a, x, y), pos_of(a, x, y)) == y,
{
}


/// The largest tile value the engine accepts: two of them merge, and the
/// squares of sixteen of them add up, without overflow.
pub const MAX_TILE: u64 = 0x1000_0000_0000_0000;

/// The tiles of line `l`, from its destination edge outward.
pub open spec fn line_tiles(b: Seq<u64>, a: Action, l: int) -> Seq<int> {
    Seq::new(4, |p: int| b[line_cell(a, l, p)] as int)
}

/// Line `l` after the move: its tiles slid toward the edge.
pub open spec fn slid_line(b: Seq<u64>, a: Action, l: int) -> Seq<int> {
    slide(line_tiles(b, a, l)).0
}

/// Cell `k` after moving board `b` in direction `a`.
pub open spec fn moved_cell(b: Seq<u64>, a: Action, k: int) -> int {
    let l = line_of(a, k % 4, k / 4);
    let p = pos_of(a, k % 4, k / 4);
    if p < slid_line(b, a, l).len() {
        slid_line(b, a, l)[p]
    } else {
        0
    }
}

/// The cells of board `b` after a move in direction `a`.
pub open spec fn move_spec(b: Seq<u64>, a: Action) -> Seq<int> {
    Seq::new(16, |k: int| moved_cell(b, a, k))
}

/// Every cell is at most `MAX_TILE`.
pub open spec fn tiles_bounded(b: Seq<u64>) -> bool {
    forall|k: int| 0 <= k < b.len() ==> b[k] <= MAX_TILE
}

pub proof fn lemma_slide_bounds(s: Seq<int>, bound: int)
    requires
        forall|j: int| 0 <= j < s.len() ==> 0 <= #[trigger] s[j] && s[j] <= bound,
    ensures
        slide(s).0.len() <= s.len(),
        forall|j: int| 0 <= j < slide(s).0.len() ==> 0 < #[trigger] slide(s).0[j] && slide(s).0[j] <= 2 * bound,
    decreases s.len(),
{
    if s.len() > 0 {
        lemma_slide_bounds(s.drop_last(), bound);
    }
}

pub proof fn lemma_index_coords(a: Action, k: int)
    requires
        0 <= k < 16,
    ensures
        valid_xy(k % 4, k / 4),
        0 <= line_of(a, k % 4, k / 4) < 4,
        0 <= pos_of(a, k % 4, k / 4) < 4,
        line_cell(a, line_of(a, k % 4, k / 4), pos_of(a, k % 4, k / 4)) == k,
{
    lemma_cell_coords(a, k % 4, k / 4);
}

/// How many cells of line `l` the first `i` steps of the traversal visit.
spec fn processed(i: int, l: int) -> int {
    if i <= 4 * l {
        0
    } else if i >= 4 * l + 4 {
        4
    } else {
        i - 4 * l
    }
}

/// Cell `k` of the board under construction, and its merge flag, after the
/// first `i` steps of the traversal.
spec fn partial_ok(b: Seq<u64>, a: Action, i: int, nv: Seq<u64>, mg: Seq<bool>, k: int) -> bool {
    let l = line_of(a, k % 4, k / 4);
    let p = pos_of(a, k % 4, k / 4);
    let st = slide(line_tiles(b, a, l).take(processed(i, l)));
    &&& nv[k] as int == (if p < st.0.len() { st.0[p] } else { 0 })
    &&& p >= st.0.len() ==> !mg[k]
    &&& p == st.0.len() - 1 ==> mg[k] == st.1
}

/// Within line `l0`, the board under construction holds the slid prefix
/// `st` followed by empty cells.
proof fn lemma_partial_line(b: Seq<u64>, a: Action, i: int, nv: Seq<u64>, mg: Seq<bool>, j: int)
    requires
        0 <= i < 16,
        0 <= j < 4,
        forall|k: int| 0 <= k < 16 ==> #[trigger] partial_ok(b, a, i, nv, mg, k),
    ensures
        ({
            let st = slide(line_tiles(b, a, i / 4).take(i % 4));
            &&& nv[line_cell(a, i / 4, j)] as int == (if j < st.0.len() { st.0[j] } else { 0 })
            &&& j >= st.0.len() ==> !mg[line_cell(a, i / 4, j)]
            &&& j == st.0.len() - 1 ==> mg[line_cell(a, i / 4, j)] == st.1
        }),
{
    lemma_line_coords(a, i / 4, j);
    assert(partial_ok(b, a, i, nv, mg, line_cell(a, i / 4, j)));
}

/// Visiting cell `i` of the traversal: `nv2` and `mg2` are the board under
/// construction and its merge flags after the visit.
spec fn visit(b: Seq<u64>, a: Action, i: int, nv: Seq<u64>, mg: Seq<bool>, nv2: Seq<u64>, mg2: Seq<bool>) -> bool {
    let l0 = i / 4;
    let p0 = i % 4;
    let v = b[line_cell(a, l0, p0)];
    let st = slide(line_tiles(b, a, l0).take(p0));
    let n = st.0.len() as int;
    if v == 0 {
        nv2 == nv && mg2 == mg
    } else if n > 0 && st.0.last() == v && !st.1 {
        nv2 == nv.update(line_cell(a, l0, n - 1), (2 * v) as u64) && mg2 == mg.update(line_cell(a, l0, n - 1), true)
    } else {
        nv2 == nv.update(line_cell(a, l0, n), v) && mg2 == mg
    }
}

#[verifier::rlimit(50)]
proof fn lemma_visit_cell(b: Seq<u64>, a: Action, i: int, nv: Seq<u64>, mg: Seq<bool>, nv2: Seq<u64>, mg2: Seq<bool>, k: int)
    requires
        0 <= i < 16,
        0 <= k < 16,
        b.len() == 16,
        tiles_bounded(b),
        nv.len() == 16,
        mg.len() == 16,
        partial_ok(b, a, i, nv, mg, k),
        visit(b, a, i, nv, mg, nv2, mg2),
    ensures
        partial_ok(b, a, i + 1, nv2, mg2, k),
{
    let l0 = i / 4;
    let p0 = i % 4;
    let tiles = line_tiles(b, a, l0);
    lemma_line_coords(a, l0, p0);
    lemma_slide_bounds(tiles.take(p0), MAX_TILE as int);
    let st = slide(tiles.take(p0));
    let n = st.0.len() as int;
    if n < 4 {
        lemma_line_coords(a, l0, n);
    }
    if n > 0 {
        lemma_line_coords(a, l0, n - 1);
    }
    lemma_index_coords(a, k);
    let l = line_of(a, k % 4, k / 4);
    if l != l0 {
        assert(processed(i + 1, l) == processed(i, l));
        assert(nv2[k] == nv[k]);
        assert(mg2[k] == mg[k]);
    } else {
        assert(processed(i, l) == p0);
        assert(processed(i + 1, l) == p0 + 1);
        assert(tiles.take(p0 + 1).drop_last() =~= tiles.take(p0));
        assert(tiles.take(p0 + 1).last() == b[line_cell(a, l0, p0)]);
    }
}

proof fn lemma_visit(b: Seq<u64>, a: Action, i: int, nv: Seq<u64>, mg: Seq<bool>, nv2: Seq<u64>, mg2: Seq<bool>)
    requires
        0 <= i < 16,
        b.len() == 16,
        tiles_bounded(b),
        nv.len() == 16,
        mg.len() == 16,
        forall|k: int| 0 <= k < 16 ==> #[trigger] partial_ok(b, a, i, nv, mg, k),
        visit(b, a, i, nv, mg, nv2, mg2),
    ensures
        forall|k: int| 0 <= k < 16 ==> #[trigger] partial_ok(b, a, i + 1, nv2, mg2, k),
{
    assert forall|k: int| 0 <= k < 16 implies #[trigger] partial_ok(b, a, i + 1, nv2, mg2, k) by {
        lemma_visit_cell(b, a, i, nv, mg, nv2, mg2, k);
    }
}

/// The first empty position of a line whose occupied cells form a prefix
/// of length `n` is `n`.
proof fn lemma_first_free_pos(nv: Seq<u64>, a: Action, l0: int, n: int, p0: int, q: int)
    requires
        0 <= l0 < 4,
        0 <= n <= p0 < 4,
        0 <= q <= p0,
        forall|j: int| 0 <= j < 4 ==> (j < n) == (#[trigger] nv[line_cell(a, l0, j)] != 0),
        forall|j: int| 0 <= j < q ==> #[trigger] nv[line_cell(a, l0, j)] != 0,
        q < p0 ==> nv[line_cell(a, l0, q)] == 0,
    ensures
        q == n,
{
    if q < n {
        assert(nv[line_cell(a, l0, q)] != 0);
    }
    if q > n {
        assert(nv[line_cell(a, l0, n)] != 0);
    }
}

/// The number of empty cells.
pub open spec fn count_zeros(s: Seq<u64>) -> int
    decreases s.len(),
{
    if s.len() == 0 {
        0
    } else {
        count_zeros(s.drop_last()) + if s.last() == 0 { 1int } else { 0 }
    }
}

/// The indices of the empty cells, in increasing order.
pub open spec fn empty_indices(s: Seq<u64>) -> Seq<usize>
    decreases s.len(),
{
    if s.len() == 0 {
        Seq::empty()
    } else if s.last() == 0 {
        empty_indices(s.drop_last()).push((s.len() - 1) as usize)
    } else {
        empty_indices(s.drop_last())
    }
}

/// The largest cell value, zero for no cells.
pub open spec fn max_tile(s: Seq<u64>) -> u64
    decreases s.len(),
{
    if s.len() == 0 {
        0
    } else if s.last() > max_tile(s.drop_last()) {
        s.last()
    } else {
        max_tile(s.drop_last())
    }
}

/// The cells as integers.
pub open spec fn cells_int(s: Seq<u64>) -> Seq<int> {
    Seq::new(s.len(), |k: int| s[k] as int)
}

/// A move in direction `a` changes board `b`.
pub open spec fn changes(b: Seq<u64>, a: Action) -> bool {
    move_spec(b, a) != cells_int(b)
}

/// The actions that change board `b`, in the order Up, Down, Left, Right.
pub open spec fn legal_actions(b: Seq<u64>) -> Seq<Action> {
    let s1 = if changes(b, Action::Up) { seq![Action::Up] } else { Seq::empty() };
    let s2 = if changes(b, Action::Down) { s1.push(Action::Down) } else { s1 };
    let s3 = if changes(b, Action::Left) { s2.push(Action::Left) } else { s2 };
    if changes(b, Action::Right) { s3.push(Action::Right) } else { s3 }
}

/// The only cell in which `after` differs from `before` was empty and now
/// holds a 2 or a 4.
pub open spec fn spawned(before: Seq<u64>, after: Seq<u64>) -> bool {
    exists|k: int| #![trigger before[k]]
        0 <= k < before.len() && before[k] == 0 && (after[k] == 2 || after[k] == 4)
            && after == before.update(k, after[k])
}

pub proof fn lemma_empty_indices(s: Seq<u64>)
    requires
        s.len() <= usize::MAX,
    ensures
        empty_indices(s).len() == count_zeros(s),
        0 <= count_zeros(s) <= s.len(),
        forall|i: int| 0 <= i < empty_indices(s).len() ==>
            (#[trigger] empty_indices(s)[i] as int) < s.len() && s[empty_indices(s)[i] as int] == 0,
    decreases s.len(),
{
    if s.len() > 0 {
        let t = s.drop_last();
        lemma_empty_indices(t);
        assert forall|i: int| 0 <= i < empty_indices(s).len() implies
            (#[trigger] empty_indices(s)[i] as int) < s.len() && s[empty_indices(s)[i] as int] == 0 by {
            if i < empty_indices(t).len() {
                assert(empty_indices(s)[i] == empty_indices(t)[i]);
                assert(s[empty_indices(t)[i] as int] == t[empty_indices(t)[i] as int]);
            }
        }
    }
}

pub proof fn lemma_count_zeros_all_empty(s: Seq<u64>)
    requires
        forall|k: int| 0 <= k < s.len() ==> s[k] == 0,
    ensures
        count_zeros(s) == s.len(),
    decreases s.len(),
{
    if s.len() > 0 {
        lemma_count_zeros_all_empty(s.drop_last());
    }
}

/// The empty indices are strictly increasing.
pub proof fn lemma_empty_indices_increasing(s: Seq<u64>)
    requires
        s.len() <= usize::MAX,
    ensures
        forall|i: int, j: int| 0 <= i < j < empty_indices(s).len() ==>
            (#[trigger] empty_indices(s)[i]) < #[trigger] empty_indices(s)[j],
    decreases s.len(),
{
    if s.len() > 0 {
        let t = s.drop_last();
        lemma_empty_indices_increasing(t);
        lemma_empty_indices(t);
        assert forall|i: int, j: int| 0 <= i < j < empty_indices(s).len() implies
            (#[trigger] empty_indices(s)[i]) < #[trigger] empty_indices(s)[j] by {
            assert(empty_indices(s)[i] == empty_indices(t)[i]);
        }
    }
}

/// Filling an empty cell leaves one empty cell fewer.
pub proof fn lemma_count_zeros_fill(s: Seq<u64>, k: int, v: u64)
    requires
        0 <= k < s.len(),
        s[k] == 0,
        v != 0,
    ensures
        count_zeros(s.update(k, v)) == count_zeros(s) - 1,
    decreases s.len(),
{
    let t = s.update(k, v);
    if k == s.len() - 1 {
        assert(t.drop_last() =~= s.drop_last());
    } else {
        assert(t.drop_last() =~= s.drop_last().update(k, v));
        lemma_count_zeros_fill(s.drop_last(), k, v);
    }
}

/// The 4x4 grid, row-major: cell `(x, y)` is `vec[x + 4 * y]`. Zero is an
/// empty cell.
#[derive(Clone, Debug)]
pub struct Board {
    pub vec: Vec<u64>,
}

impl Board {
    /// The board has its sixteen cells.
    pub open spec fn wf(&self) -> bool {
        self.vec@.len() == 16
    }

    pub open spec fn cell(&self, c: Cord) -> u64 {
        self.vec@[c.index()]
    }

    /// The board with every cell empty.
    pub fn empty() -> (r: Board)
        ensures
            r.wf(),
            forall|i: int| 0 <= i < 16 ==> r.vec@[i] == 0,
    {
        let vec = vec![0u64; 16];
        Board { vec }
    }

    /// A board with two random tiles on it, as a game starts.
    pub fn new() -> (r: Board)
        ensures
            r.wf(),
            count_zeros(r.vec@) == 14,
            tiles_bounded(r.vec@),
            forall|k: int| 0 <= k < 16 ==> r.vec@[k] == 0 || r.vec@[k] == 2 || r.vec@[k] == 4,
    {
        let empty = Board::empty();
        proof {
            lemma_count_zeros_all_empty(empty.vec@);
        }
        let one = empty.add_random();
        let two = one.add_random();
        proof {
            let k1 = choose|k: int| #![trigger empty.vec@[k]]
                0 <= k < 16 && empty.vec@[k] == 0 && (one.vec@[k] == 2 || one.vec@[k] == 4)
                    && one.vec@ == empty.vec@.update(k, one.vec@[k]);
            let k2 = choose|k: int| #![trigger one.vec@[k]]
                0 <= k < 16 && one.vec@[k] == 0 && (two.vec@[k] == 2 || two.vec@[k] == 4)
                    && two.vec@ == one.vec@.update(k, two.vec@[k]);
            assert forall|k: int| 0 <= k < 16 implies two.vec@[k] == 0 || two.vec@[k] == 2 || two.vec@[k] == 4 by {
                if k != k2 {
                    assert(two.vec@[k] == one.vec@[k]);
                    if k != k1 {
                        assert(one.vec@[k] == empty.vec@[k]);
                    }
                }
            }
        }
        two
    }

    /// The indices of the empty cells, in increasing order.
    pub fn get_empty(&self) -> (r: Vec<usize>)
        ensures
            r@ == empty_indices(self.vec@),
    {
        let mut r: Vec<usize> = Vec::new();
        let mut i: usize = 0;
        while i < self.vec.len()
            invariant
                0 <= i <= self.vec@.len(),
                r@ == empty_indices(self.vec@.take(i as int)),
            decreases self.vec@.len() - i,
        {
            assert(self.vec@.take(i as int + 1).drop_last() =~= self.vec@.take(i as int));
            if self.vec[i] == 0 {
                r.push(i);
            }
            i = i + 1;
        }
        assert(self.vec@.take(i as int) =~= self.vec@);
        r
    }

    /// This board with `value` written into cell `index`.
    pub fn add_space(&self, index: usize, value: u64) -> (r: Board)
        requires
            index < self.vec@.len(),
        ensures
            r.vec@ == self.vec@.update(index as int, value),
    {
        let mut vec = self.vec.clone();
        vec.set(index, value);
        Board { vec }
    }

    /// This board with a tile put into an empty cell chosen uniformly at
    /// random: a 2 with probability nine in ten, else a 4.
    pub fn add_random(&self) -> (r: Board)
        requires
            self.wf(),
            count_zeros(self.vec@) > 0,
        ensures
            r.wf(),
            spawned(self.vec@, r.vec@),
            count_zeros(r.vec@) == count_zeros(self.vec@) - 1,
            tiles_bounded(self.vec@) ==> tiles_bounded(r.vec@),
    {
        let value: u64 = if random_ratio(9, 10) { 2 } else { 4 };
        let empty = self.get_empty();
        proof {
            lemma_empty_indices(self.vec@);
        }
        let indx = empty[random_below(empty.len())];
        let r = self.add_space(indx, value);
        proof {
            lemma_count_zeros_fill(self.vec@, indx as int, value);
            assert(self.vec@[indx as int] == 0);
        }
        r
    }

    /// Whether every tile is at most `MAX_TILE`.
    pub fn is_bounded(&self) -> (r: bool)
        ensures
            r == tiles_bounded(self.vec@),
    {
        let mut i: usize = 0;
        while i < self.vec.len()
            invariant
                0 <= i <= self.vec@.len(),
                forall|k: int| 0 <= k < i ==> self.vec@[k] <= MAX_TILE,
            decreases self.vec@.len() - i,
        {
            if self.vec[i] > MAX_TILE {
                return false;
            }
            i = i + 1;
        }
        true
    }

    /// The number of empty cells.
    pub fn count_empty(&self) -> (r: usize)
        ensures
            r == count_zeros(self.vec@),
    {
        let mut accum: usize = 0;
        let mut i: usize = 0;
        while i < self.vec.len()
            invariant
                0 <= i <= self.vec@.len(),
                accum == count_zeros(self.vec@.take(i as int)),
                count_zeros(self.vec@.take(i as int)) <= i,
            decreases self.vec@.len() - i,
        {
            assert(self.vec@.take(i as int + 1).drop_last() =~= self.vec@.take(i as int));
            if self.vec[i] == 0 {
                accum = accum + 1;
            }
            i = i + 1;
        }
        assert(self.vec@.take(i as int) =~= self.vec@);
        accum
    }

    /// The largest tile on the board.
    pub fn get_best_tile(&self) -> (r: u64)
        ensures
            r == max_tile(self.vec@),
    {
        let mut max: u64 = 0;
        let mut i: usize = 0;
        while i < self.vec.len()
            invariant
                0 <= i <= self.vec@.len(),
                max == max_tile(self.vec@.take(i as int)),
            decreases self.vec@.len() - i,
        {
            assert(self.vec@.take(i as int + 1).drop_last() =~= self.vec@.take(i as int));
            if self.vec[i] > max {
                max = self.vec[i];
            }
            i = i + 1;
        }
        assert(self.vec@.take(i as int) =~= self.vec@);
        max
    }

    /// What a finished game reports of this board.
    pub fn summary(&self) -> (r: Summary)
        ensures
            r.best_tile == max_tile(self.vec@),
    {
        let best_tile = self.get_best_tile();
        Summary { best_tile }
    }

    /// The actions that change this board, in the order Up, Down, Left,
    /// Right. The game is over when there is none.
    pub fn get_actions(&self) -> (r: Vec<Action>)
        requires
            self.wf(),
            tiles_bounded(self.vec@),
        ensures
            r@ == legal_actions(self.vec@),
    {
        let mut r: Vec<Action> = Vec::new();
        if self.moves_with(Action::Up) {
            r.push(Action::Up);
        }
        if self.moves_with(Action::Down) {
            r.push(Action::Down);
        }
        if self.moves_with(Action::Left) {
            r.push(Action::Left);
        }
        if self.moves_with(Action::Right) {
            r.push(Action::Right);
        }
        assert(r@ =~= legal_actions(self.vec@));
        r
    }

    /// Whether a move in direction `action` changes this board.
    pub fn moves_with(&self, action: Action) -> (r: bool)
        requires
            self.wf(),
            tiles_bounded(self.vec@),
        ensures
            r == changes(self.vec@, action),
    {
        let trial = self.make_move(action);
        if trial != *self {
            proof {
                if move_spec(self.vec@, action) == cells_int(self.vec@) {
                    assert forall|k: int| 0 <= k < 16 implies trial.vec@[k] == self.vec@[k] by {
                        assert(move_spec(self.vec@, action)[k] == cells_int(self.vec@)[k]);
                    }
                    assert(trial.vec@ =~= self.vec@);
                }
            }
            true
        } else {
            assert(move_spec(self.vec@, action) =~= cells_int(self.vec@));
            false
        }
    }

    /// The value of the cell at `c`.
    pub fn get(&self, c: Cord) -> (r: u64)
        requires
            self.wf(),
            c.valid(),
        ensures
            r == self.cell(c),
    {
        let Cord(x, y) = c;
        self.vec[(x + y * 4) as usize]
    }

    /// The cell at `c`, to write into.
    pub fn get_mut(&mut self, c: Cord) -> (r: &mut u64)
        requires
            old(self).wf(),
            c.valid(),
        ensures
            *r == old(self).cell(c),
            final(self).vec@ == old(self).vec@.update(c.index(), *final(r)),
    {
        let Cord(x, y) = c;
        &mut self.vec[(x + y * 4) as usize]
    }

    /// The board after sliding every tile toward the edge of `action`, each
    /// tile merging at most once.
    pub fn make_move(&self, action: Action) -> (r: Board)
        requires
            self.wf(),
            tiles_bounded(self.vec@),
        ensures
            r.wf(),
            forall|k: int| 0 <= k < 16 ==> r.vec@[k] as int == #[trigger] move_spec(self.vec@, action)[k],
    {
        let b = Ghost(self.vec@);
        let mut new = Board::empty();
        let mut merged: Vec<bool> = vec![false; 16];
        let traversal = get_traversal(action);
        let mut i: usize = 0;
        while i < 16
            invariant
                self.wf(),
                tiles_bounded(self.vec@),
                b@ == self.vec@,
                traversal@.len() == 16,
                forall|j: int| 0 <= j < 16 ==> traversal@[j] == traversal_cord(action, j),
                0 <= i <= 16,
                new.wf(),
                merged@.len() == 16,
                forall|k: int| 0 <= k < 16 ==> partial_ok(b@, action, i as int, new.vec@, merged@, k),
            decreases 16 - i,
        {
            let cord = traversal[i];
            let ghost l0 = i as int / 4;
            let ghost p0 = i as int % 4;
            proof {
                lemma_line_coords(action, l0, p0);
                assert(cord == traversal_cord(action, i as int));
            }
            let value = self.get(cord);
            let ghost st = slide(line_tiles(b@, action, l0).take(p0));
            let ghost old_new = new.vec@;
            let ghost old_merged = merged@;
            proof {
                lemma_slide_bounds(line_tiles(b@, action, l0).take(p0), MAX_TILE as int);
            }
            if value != 0 {
                let first_free = get_first_free(cord, action, &new);
                proof {
                    lemma_cell_coords(action, first_free.0 as int, first_free.1 as int);
                    assert forall|j: int| 0 <= j < 4 implies (j < st.0.len()) == (#[trigger] new.vec@[line_cell(action, l0, j)] != 0) by {
                        lemma_partial_line(b@, action, i as int, new.vec@, merged@, j);
                    }
                    lemma_first_free_pos(new.vec@, action, l0, st.0.len() as int, p0,
                        pos_of(action, first_free.0 as int, first_free.1 as int));
                    lemma_line_coords(action, l0, st.0.len() as int);
                }
                let next_cord = first_free.over(action);
                match next_cord {
                    None => {
                        *new.get_mut(first_free) = value;
                    },
                    Some(over) => {
                        proof {
                            lemma_line_coords(action, l0, st.0.len() - 1);
                            lemma_partial_line(b@, action, i as int, new.vec@, merged@, st.0.len() - 1);
                        }
                        if new.get(over) == value && !merged[over.to_index()] {
                            *new.get_mut(over) = value * 2;
                            merged.set(over.to_index(), true);
                        } else {
                            *new.get_mut(first_free) = value;
                        }
                    },
                }
            }
            proof {
                assert(visit(b@, action, i as int, old_new, old_merged, new.vec@, merged@));
                lemma_visit(b@, action, i as int, old_new, old_merged, new.vec@, merged@);
            }
            i = i + 1;
        }
        proof {
            assert forall|k: int| 0 <= k < 16 implies new.vec@[k] as int == #[trigger] move_spec(self.vec@, action)[k] by {
                lemma_index_coords(action, k);
                let l = line_of(action, k % 4, k / 4);
                assert(line_tiles(b@, action, l).take(4) =~= line_tiles(b@, action, l));
                assert(partial_ok(b@, action, 16, new.vec@, merged@, k));
            }
        }
        new
    }
}

/// The first empty cell of `board`, scanning the line of `start_cord` from
/// the destination edge of `action` up to `start_cord`; `start_cord` itself
/// when every cell before it is occupied.
pub fn get_first_free(start_cord: Cord, action: Action, board: &Board) -> (r: Cord)
    requires
        start_cord.valid(),
        board.wf(),
    ensures
        r.valid(),
        line_of(action, r.0 as int, r.1 as int) == line_of(action, start_cord.0 as int, start_cord.1 as int),
        pos_of(action, r.0 as int, r.1 as int) <= pos_of(action, start_cord.0 as int, start_cord.1 as int),
        forall|j: int| 0 <= j < pos_of(action, r.0 as int, r.1 as int) ==>
            board.vec@[line_cell(action, line_of(action, r.0 as int, r.1 as int), j)] != 0,
        pos_of(action, r.0 as int, r.1 as int) < pos_of(action, start_cord.0 as int, start_cord.1 as int)
            ==> board.cell(r) == 0,
{
    let ghost l = line_of(action, start_cord.0 as int, start_cord.1 as int);
    let ghost p = pos_of(action, start_cord.0 as int, start_cord.1 as int);
    proof {
        lemma_cell_coords(action, start_cord.0 as int, start_cord.1 as int);
    }
    let (dx, dy) = action.dir();
    let mut on_cord = action.min_cord(start_cord);
    while on_cord != start_cord
        invariant
            on_cord.valid(),
            board.wf(),
            0 <= l < 4,
            0 <= p < 4,
            dx == dir_spec(action).0,
            dy == dir_spec(action).1,
            line_x(action, l, p) == start_cord.0,
            line_y(action, l, p) == start_cord.1,
            line_of(action, on_cord.0 as int, on_cord.1 as int) == l,
            pos_of(action, on_cord.0 as int, on_cord.1 as int) <= p,
            forall|j: int| 0 <= j < pos_of(action, on_cord.0 as int, on_cord.1 as int) ==>
                board.vec@[line_cell(action, l, j)] != 0,
        decreases p - pos_of(action, on_cord.0 as int, on_cord.1 as int),
    {
        if board.get(on_cord) == 0 {
            return on_cord;
        }
        let Cord(x, y) = on_cord;
        proof {
            lemma_cell_coords(action, x as int, y as int);
        }
        on_cord = Cord(x - dx, y - dy);
    }
    on_cord
}

impl PartialEq for Board {
    fn eq(&self, other: &Board) -> (r: bool) {
        if self.vec.len() != other.vec.len() {
            return false;
        }
        let mut i: usize = 0;
        while i < self.vec.len()
            invariant
                self.vec@.len() == other.vec@.len(),
                0 <= i <= self.vec@.len(),
                forall|k: int| 0 <= k < i ==> self.vec@[k] == other.vec@[k],
            decreases self.vec@.len() - i,
        {
            if self.vec[i] != other.vec[i] {
                return false;
            }
            i = i + 1;
        }
        assert(self.vec@ =~= other.vec@);
        true
    }
}

impl vstd::std_specs::cmp::PartialEqSpecImpl for Board {
    open spec fn obeys_eq_spec() -> bool {
        true
    }

    open spec fn eq_spec(&self, other: &Board) -> bool {
        self.vec@ == other.vec@
    }
}

/// The outcome of a finished game: its best tile.
#[derive(Clone, Copy, Debug, PartialEq, Eq, Structural)]
pub struct Summary {
    pub best_tile: u64,
}

} // verus!
