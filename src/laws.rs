use crate::ai::ExpectiMax;
use crate::game::{
    cells_int, changes, legal_actions, lemma_index_coords, lemma_line_coords, lemma_slide_bounds, line_cell, line_of,
    line_tiles, move_spec, slid_line, slide, Action, MAX_TILE,
};
use vstd::prelude::*;

verus! {

/// An action is legal on a board exactly when moving in its direction
/// changes the board.
pub proof fn lemma_legal_iff_changes(b: Seq<u64>, a: Action)
    ensures
        legal_actions(b).contains(a) <==> move_spec(b, a) != cells_int(b),
{
    let l = legal_actions(b);
    if changes(b, a) {
        let i = match a {
            Action::Up => 0int,
            Action::Down => if changes(b, Action::Up) { 1int } else { 0int },
            Action::Left => (if changes(b, Action::Up) { 1int } else { 0int }) + (if changes(b, Action::Down) { 1int } else { 0int }),
            Action::Right => (if changes(b, Action::Up) { 1int } else { 0int }) + (if changes(b, Action::Down) { 1int } else { 0int })
                + (if changes(b, Action::Left) { 1int } else { 0int }),
        };
        assert(l[i] == a);
    } else {
        assert forall|i: int| 0 <= i < l.len() implies l[i] != a by {}
    }
}

/// The game is over on a board, no action being legal, exactly when no
/// move changes it.
pub proof fn lemma_terminal_iff_stuck(b: Seq<u64>)
    ensures
        legal_actions(b).len() == 0 <==> forall|a: Action| move_spec(b, a) == cells_int(b),
{
    if legal_actions(b).len() == 0 {
        assert forall|a: Action| move_spec(b, a) == cells_int(b) by {
            lemma_legal_iff_changes(b, a);
        }
    } else {
        let a = legal_actions(b)[0];
        lemma_legal_iff_changes(b, a);
    }
}

/// `k` tiles of value `v`.
pub open spec fn run(v: int, k: nat) -> Seq<int> {
    Seq::new(k, |i: int| v)
}

/// Sliding a run of `k` equal tiles leaves `k / 2` tiles of twice the value,
/// then one of the original value when `k` is odd: no tile merges twice.
pub proof fn lemma_run_merges_once(v: int, k: nat)
    requires
        v > 0,
    ensures
        slide(run(v, k)).0 == run(2 * v, k / 2) + (if k % 2 == 1 { run(v, 1) } else { run(v, 0) }),
        slide(run(v, k)).1 == (k > 0 && k % 2 == 0),
    decreases k,
{
    if k > 0 {
        let k1 = (k - 1) as nat;
        assert(run(v, k).drop_last() =~= run(v, k1));
        lemma_run_merges_once(v, k1);
        if k % 2 == 1 {
            assert(k / 2 == k1 / 2);
            assert(slide(run(v, k)).0 =~= run(2 * v, k / 2) + run(v, 1));
        } else {
            assert(k / 2 == k1 / 2 + 1);
            assert(slide(run(v, k)).0 =~= run(2 * v, k / 2) + run(v, 0));
        }
    }
}

/// Empty cells after the tiles of a line do not change how it slides.
pub proof fn lemma_slide_trailing_empty(s: Seq<int>, z: nat)
    ensures
        slide(s + run(0, z)) == slide(s),
    decreases z,
{
    if z > 0 {
        let z1 = (z - 1) as nat;
        assert((s + run(0, z)).drop_last() =~= s + run(0, z1));
        lemma_slide_trailing_empty(s, z1);
    } else {
        assert(s + run(0, 0) =~= s);
    }
}

/// A line that holds a run of `k` equal tiles of value `v` at its
/// destination edge and nothing else holds, after the move, `k / 2` tiles of
/// value `2 * v` there, then one tile `v` when `k` is odd.
pub proof fn lemma_move_run(b: Seq<u64>, a: Action, l: int, v: int, k: nat)
    requires
        v > 0,
        k <= 4,
        line_tiles(b, a, l) == run(v, k) + run(0, (4 - k) as nat),
    ensures
        slid_line(b, a, l) == run(2 * v, k / 2) + (if k % 2 == 1 { run(v, 1) } else { run(v, 0) }),
{
    lemma_slide_trailing_empty(run(v, k), (4 - k) as nat);
    lemma_run_merges_once(v, k);
}

/// The sum of a sequence.
pub open spec fn total(s: Seq<int>) -> int
    decreases s.len(),
{
    if s.len() == 0 {
        0
    } else {
        total(s.drop_last()) + s.last()
    }
}

proof fn lemma_total_update(s: Seq<int>, i: int, x: int)
    requires
        0 <= i < s.len(),
    ensures
        total(s.update(i, x)) == total(s) - s[i] + x,
    decreases s.len(),
{
    let t = s.update(i, x);
    if i == s.len() - 1 {
        assert(t.drop_last() =~= s.drop_last());
    } else {
        assert(t.drop_last() =~= s.drop_last().update(i, x));
        lemma_total_update(s.drop_last(), i, x);
    }
}

/// Sliding a line keeps the sum of its tiles.
proof fn lemma_slide_total(s: Seq<int>)
    ensures
        total(slide(s).0) == total(s),
    decreases s.len(),
{
    if s.len() > 0 {
        let out = slide(s.drop_last()).0;
        lemma_slide_total(s.drop_last());
        if out.len() > 0 {
            lemma_total_update(out, out.len() - 1, 2 * s.last());
        }
        assert(out.push(s.last()).drop_last() =~= out);
    }
}

proof fn lemma_total_trailing_empty(s: Seq<int>, z: nat)
    ensures
        total(s + run(0, z)) == total(s),
    decreases z,
{
    if z > 0 {
        let z1 = (z - 1) as nat;
        assert((s + run(0, z)).drop_last() =~= s + run(0, z1));
        lemma_total_trailing_empty(s, z1);
    } else {
        assert(s + run(0, 0) =~= s);
    }
}

proof fn lemma_total4(s: Seq<int>)
    requires
        s.len() == 4,
    ensures
        total(s) == s[0] + s[1] + s[2] + s[3],
{
    reveal_with_fuel(total, 5);
}

proof fn lemma_total16(s: Seq<int>)
    requires
        s.len() == 16,
    ensures
        total(s) == s[0] + s[1] + s[2] + s[3] + s[4] + s[5] + s[6] + s[7] + s[8] + s[9] + s[10] + s[11]
            + s[12] + s[13] + s[14] + s[15],
{
    reveal_with_fuel(total, 17);
}

/// Line `l` of the 16-cell sequence `s`, from its destination edge outward.
spec fn line_of_seq(s: Seq<int>, a: Action, l: int) -> Seq<int> {
    Seq::new(4, |p: int| s[line_cell(a, l, p)])
}

/// The sum of a 16-cell sequence is the sum of its four lines.
proof fn lemma_total_by_lines(s: Seq<int>, a: Action)
    requires
        s.len() == 16,
    ensures
        total(s) == total(line_of_seq(s, a, 0)) + total(line_of_seq(s, a, 1)) + total(line_of_seq(s, a, 2))
            + total(line_of_seq(s, a, 3)),
{
    lemma_total16(s);
    lemma_total4(line_of_seq(s, a, 0));
    lemma_total4(line_of_seq(s, a, 1));
    lemma_total4(line_of_seq(s, a, 2));
    lemma_total4(line_of_seq(s, a, 3));
}

/// Line `l` of the moved board sums to what line `l` of the board did.
proof fn lemma_moved_line_total(b: Seq<u64>, a: Action, l: int)
    requires
        b.len() == 16,
        0 <= l < 4,
    ensures
        total(line_of_seq(move_spec(b, a), a, l)) == total(line_of_seq(cells_int(b), a, l)),
{
    let out = slid_line(b, a, l);
    lemma_slide_bounds(line_tiles(b, a, l), u64::MAX as int);
    let padded = out + run(0, (4 - out.len()) as nat);
    assert forall|p: int| 0 <= p < 4 implies line_of_seq(move_spec(b, a), a, l)[p] == padded[p]
        && line_of_seq(cells_int(b), a, l)[p] == line_tiles(b, a, l)[p] by {
        lemma_line_coords(a, l, p);
    }
    assert(line_of_seq(move_spec(b, a), a, l) =~= padded);
    assert(line_of_seq(cells_int(b), a, l) =~= line_tiles(b, a, l));
    lemma_slide_total(line_tiles(b, a, l));
    lemma_total_trailing_empty(out, (4 - out.len()) as nat);
}

/// A move keeps the sum of the tiles: merging two tiles of value `v` makes
/// one of value `2 * v`.
pub proof fn lemma_move_keeps_total(b: Seq<u64>, a: Action)
    requires
        b.len() == 16,
    ensures
        total(move_spec(b, a)) == total(cells_int(b)),
{
    lemma_total_by_lines(move_spec(b, a), a);
    lemma_total_by_lines(cells_int(b), a);
    lemma_moved_line_total(b, a, 0);
    lemma_moved_line_total(b, a, 1);
    lemma_moved_line_total(b, a, 2);
    lemma_moved_line_total(b, a, 3);
}

/// No entry of a sequence of non-negative numbers exceeds its sum.
proof fn lemma_entry_le_total(s: Seq<int>, k: int)
    requires
        0 <= k < s.len(),
        forall|j: int| 0 <= j < s.len() ==> #[trigger] s[j] >= 0,
    ensures
        s[k] <= total(s),
        total(s) >= 0,
    decreases s.len(),
{
    let t = s.drop_last();
    if k < s.len() - 1 {
        lemma_entry_le_total(t, k);
    } else if t.len() > 0 {
        lemma_entry_le_total(t, 0);
    }
}

/// On a board whose tiles add up to at most `MAX_TILE`, a move keeps that
/// sum, so the moved board again has every tile at most `MAX_TILE`: the
/// engine's bound holds over a whole game as long as the spawned tiles keep
/// the sum below it.
pub proof fn lemma_move_keeps_bound(b: Seq<u64>, a: Action)
    requires
        b.len() == 16,
        total(cells_int(b)) <= MAX_TILE,
    ensures
        total(move_spec(b, a)) <= MAX_TILE,
        forall|k: int| 0 <= k < 16 ==> 0 <= #[trigger] move_spec(b, a)[k] <= MAX_TILE,
{
    lemma_move_keeps_total(b, a);
    let m = move_spec(b, a);
    assert forall|j: int| 0 <= j < m.len() implies #[trigger] m[j] >= 0 by {
        lemma_index_coords(a, j);
        lemma_slide_bounds(line_tiles(b, a, line_of(a, j % 4, j / 4)), u64::MAX as int);
    }
    assert forall|k: int| 0 <= k < 16 implies 0 <= #[trigger] move_spec(b, a)[k] <= MAX_TILE by {
        lemma_entry_le_total(m, k);
    }
}

/// With a search depth of zero the root is a leaf: the search evaluates the
/// board with the heuristic and never reaches a chance node.
pub proof fn lemma_depth_zero_root_is_leaf(e: ExpectiMax, b: Seq<u64>)
    requires
        e.max_depth == 0,
    ensures
        e.leaf(0, b),
{
}

} // verus!
