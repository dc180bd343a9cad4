//! The board model: goal test, Manhattan heuristic and successor generation.

use vstd::prelude::*;

verus! {

/// A 3×3 board stored row by row; `0` is the blank.
pub type Board = [u8; 9];

/// Side length of the board.
pub const SIDE: usize = 3;

/// Number of cells on the board.
pub const CELLS: usize = 9;

/// The solved arrangement, row by row.
pub open spec fn goal_board() -> Seq<u8> {
    Seq::new(9, |k: int| if k == 8 { 0u8 } else { (k + 1) as u8 })
}

pub open spec fn is_goal_board(b: Seq<u8>) -> bool {
    b == goal_board()
}

pub open spec fn has_blank(b: Seq<u8>) -> bool {
    b.len() == 9 && exists|k: int| 0 <= k < 9 && b[k] == 0
}

/// Nine cells holding each of `0..=8` exactly once (distinct values below 9,
/// the blank among them).
pub open spec fn valid_board(b: Seq<u8>) -> bool {
    &&& b.len() == 9
    &&& forall|i: int| 0 <= i < 9 ==> #[trigger] b[i] < 9
    &&& forall|i: int, j: int| 0 <= i < 9 && 0 <= j < 9 && i != j ==> b[i] != b[j]
    &&& has_blank(b)
}

/// Index of the first blank cell.
pub open spec fn blank_index(b: Seq<u8>) -> int {
    choose|k: int| 0 <= k < 9 && b[k] == 0 && forall|j: int| 0 <= j < k ==> b[j] != 0
}

pub open spec fn abs_diff(a: int, b: int) -> int {
    if a >= b {
        a - b
    } else {
        b - a
    }
}

/// Manhattan distance of tile `v`, standing at cell `k`, from its goal cell.
pub open spec fn tile_distance(v: u8, k: int) -> int {
    if v == 0 {
        0
    } else {
        abs_diff(k / 3, (v - 1) / 3) + abs_diff(k % 3, (v - 1) % 3)
    }
}

/// Sum of the tile distances over the first `n` cells.
pub open spec fn manhattan_prefix(b: Seq<u8>, n: int) -> int
    decreases n,
{
    if n <= 0 {
        0
    } else {
        manhattan_prefix(b, n - 1) + tile_distance(b[n - 1], n - 1)
    }
}

/// Sum over all non-blank tiles of their distance from their goal cells.
pub open spec fn manhattan(b: Seq<u8>) -> int {
    manhattan_prefix(b, 9)
}

/// The cell that the blank at `e` swaps with when moving in direction `d`
/// (0 right, 1 down, 2 left, 3 up), if it stays on the board.
pub open spec fn neighbour(e: int, d: int) -> Option<int> {
    if d == 0 {
        if e % 3 < 2 { Some(e + 1) } else { None }
    } else if d == 1 {
        if e / 3 < 2 { Some(e + 3) } else { None }
    } else if d == 2 {
        if e % 3 > 0 { Some(e - 1) } else { None }
    } else {
        if e / 3 > 0 { Some(e - 3) } else { None }
    }
}

/// The board after the tile at `n` slides into the blank at `e`.
pub open spec fn slide(b: Seq<u8>, e: int, n: int) -> Seq<u8> {
    b.update(e, b[n]).update(n, 0)
}

/// The boards reached by the first `d` directions, in direction order.
pub open spec fn successors_upto(b: Seq<u8>, d: int) -> Seq<Seq<u8>>
    decreases d,
{
    if d <= 0 {
        seq![]
    } else {
        let prev = successors_upto(b, d - 1);
        match neighbour(blank_index(b), d - 1) {
            Some(n) => prev.push(slide(b, blank_index(b), n)),
            None => prev,
        }
    }
}

/// The boards one move away, in the order right, down, left, up.
pub open spec fn successor_boards(b: Seq<u8>) -> Seq<Seq<u8>> {
    successors_upto(b, 4)
}

pub open spec fn is_step(a: Seq<u8>, b: Seq<u8>) -> bool {
    successor_boards(a).contains(b)
}

/// `p` starts at `start`, moves one step at a time and ends at the goal.
pub open spec fn is_solution(start: Seq<u8>, p: Seq<Seq<u8>>) -> bool {
    &&& p.len() >= 1
    &&& p[0] == start
    &&& is_goal_board(p.last())
    &&& forall|i: int| 0 <= i < p.len() - 1 ==> #[trigger] is_step(p[i], p[i + 1])
}

pub open spec fn solvable(start: Seq<u8>) -> bool {
    exists|p: Seq<Seq<u8>>| is_solution(start, p)
}

/// Cells `e` and `n` share a side.
pub open spec fn adjacent(e: int, n: int) -> bool {
    &&& 0 <= e < 9
    &&& 0 <= n < 9
    &&& {
        ||| e / 3 == n / 3 && abs_diff(e % 3, n % 3) == 1
        ||| e % 3 == n % 3 && abs_diff(e / 3, n / 3) == 1
    }
}

proof fn lemma_blank_index(b: Seq<u8>)
    requires
        has_blank(b),
    ensures
        0 <= blank_index(b) < 9,
        b[blank_index(b)] == 0,
        forall|j: int| 0 <= j < blank_index(b) ==> b[j] != 0,
{
    let w = choose|w: int| 0 <= w < 9 && b[w] == 0;
    lemma_first_zero_exists(b, w);
}

proof fn lemma_first_zero_exists(b: Seq<u8>, w: int)
    requires
        0 <= w < 9,
        b.len() == 9,
        b[w] == 0,
    ensures
        exists|k: int| 0 <= k < 9 && b[k] == 0 && forall|j: int| 0 <= j < k ==> b[j] != 0,
    decreases w,
{
    if exists|j: int| 0 <= j < w && b[j] == 0 {
        let j = choose|j: int| 0 <= j < w && b[j] == 0;
        lemma_first_zero_exists(b, j);
    } else {
        assert(forall|j: int| 0 <= j < w ==> b[j] != 0);
    }
}

/// On a valid board the blank is the only zero cell.
pub proof fn lemma_blank_unique(b: Seq<u8>, k: int)
    requires
        valid_board(b),
        0 <= k < 9,
        b[k] == 0,
    ensures
        blank_index(b) == k,
{
    lemma_blank_index(b);
}

proof fn lemma_neighbour_adjacent(e: int, d: int)
    requires
        0 <= e < 9,
    ensures
        neighbour(e, d) matches Some(n) ==> adjacent(e, n),
{
}

/// Every board in `successors_upto(b, d)` is a slide of the blank to an
/// adjacent cell.
proof fn lemma_successor_shape(b: Seq<u8>, d: int, i: int)
    requires
        has_blank(b),
        0 <= i < successors_upto(b, d).len(),
    ensures
        exists|n: int|
            adjacent(blank_index(b), n) && successors_upto(b, d)[i] == slide(
                b,
                blank_index(b),
                n,
            ),
    decreases d,
{
    lemma_blank_index(b);
    let e = blank_index(b);
    if d > 0 {
        let prev = successors_upto(b, d - 1);
        lemma_neighbour_adjacent(e, d - 1);
        if i < prev.len() {
            lemma_successor_shape(b, d - 1, i);
        } else {
            let n = neighbour(e, d - 1)->Some_0;
            assert(adjacent(e, n) && successors_upto(b, d)[i] == slide(b, e, n));
        }
    }
}

/// A slide in any direction that stays on the board is among the successors.
proof fn lemma_successor_present(b: Seq<u8>, d: int, dd: int)
    requires
        0 <= dd < d,
        neighbour(blank_index(b), dd) is Some,
    ensures
        successors_upto(b, d).contains(
            slide(b, blank_index(b), neighbour(blank_index(b), dd)->Some_0),
        ),
    decreases d,
{
    let x = slide(b, blank_index(b), neighbour(blank_index(b), dd)->Some_0);
    if dd < d - 1 {
        lemma_successor_present(b, d - 1, dd);
        let prev = successors_upto(b, d - 1);
        let i = choose|i: int| 0 <= i < prev.len() && prev[i] == x;
        assert(successors_upto(b, d)[i] == x);
    } else {
        let cur = successors_upto(b, d);
        assert(cur[cur.len() - 1] == x);
    }
}

/// A step from a valid board slides a tile into the blank from an adjacent
/// cell.
pub proof fn lemma_step_shape(a: Seq<u8>, b: Seq<u8>)
    requires
        valid_board(a),
        is_step(a, b),
    ensures
        adjacent(blank_index(a), blank_index(b)),
        a[blank_index(a)] == 0,
        b == slide(a, blank_index(a), blank_index(b)),
        valid_board(b),
{
    lemma_blank_index(a);
    let i = choose|i: int| 0 <= i < successor_boards(a).len() && successor_boards(a)[i] == b;
    lemma_successor_shape(a, 4, i);
    let e = blank_index(a);
    let n = choose|n: int| adjacent(e, n) && successors_upto(a, 4)[i] == slide(a, e, n);
    assert(b[n] == 0);
    assert forall|x: int, y: int| 0 <= x < 9 && 0 <= y < 9 && x != y implies b[x] != b[y] by {
        if x == n || y == n || x == e || y == e {
        } else {
        }
    }
    assert forall|x: int| 0 <= x < 9 implies #[trigger] b[x] < 9 by {}
    lemma_blank_unique(b, n);
}

/// Every board along a solution from a valid board is valid.
pub proof fn lemma_solution_valid(start: Seq<u8>, p: Seq<Seq<u8>>, i: int)
    requires
        valid_board(start),
        is_solution(start, p),
        0 <= i < p.len(),
    ensures
        valid_board(p[i]),
    decreases i,
{
    if i > 0 {
        let j = i - 1;
        lemma_solution_valid(start, p, j);
        assert(is_step(p[j], p[j + 1]));
        lemma_step_shape(p[j], p[j + 1]);
    }
}

proof fn lemma_manhattan_terms(b: Seq<u8>)
    ensures
        manhattan(b) == tile_distance(b[0], 0) + tile_distance(b[1], 1) + tile_distance(b[2], 2)
            + tile_distance(b[3], 3) + tile_distance(b[4], 4) + tile_distance(b[5], 5)
            + tile_distance(b[6], 6) + tile_distance(b[7], 7) + tile_distance(b[8], 8),
{
    reveal_with_fuel(manhattan_prefix, 10);
}

proof fn lemma_update_manhattan(b: Seq<u8>, k: int, v: u8)
    requires
        b.len() == 9,
        0 <= k < 9,
    ensures
        manhattan(b.update(k, v)) == manhattan(b) - tile_distance(b[k], k) + tile_distance(v, k),
{
    let c = b.update(k, v);
    lemma_manhattan_terms(b);
    lemma_manhattan_terms(c);
    if k == 0 {
    } else if k == 1 {
    } else if k == 2 {
    } else if k == 3 {
    } else if k == 4 {
    } else if k == 5 {
    } else if k == 6 {
    } else if k == 7 {
    } else {
    }
}

proof fn lemma_adjacent_distance(v: u8, e: int, n: int)
    requires
        adjacent(e, n),
    ensures
        abs_diff(tile_distance(v, e), tile_distance(v, n)) <= 1,
{
    if v != 0 {
        let tr = (v - 1) / 3;
        let tc = (v - 1) % 3;
        let (er, ec, nr, nc) = (e / 3, e % 3, n / 3, n % 3);
        assert(tile_distance(v, e) == abs_diff(er, tr) + abs_diff(ec, tc));
        assert(tile_distance(v, n) == abs_diff(nr, tr) + abs_diff(nc, tc));
    }
}

/// One slide changes the heuristic by at most one.
proof fn lemma_slide_manhattan(b: Seq<u8>, e: int, n: int)
    requires
        b.len() == 9,
        adjacent(e, n),
        b[e] == 0,
    ensures
        abs_diff(manhattan(slide(b, e, n)), manhattan(b)) <= 1,
{
    let b1 = b.update(e, b[n]);
    lemma_update_manhattan(b, e, b[n]);
    lemma_update_manhattan(b1, n, 0u8);
    lemma_adjacent_distance(b[n], e, n);
}

proof fn lemma_tile_distance_nonneg(v: u8, k: int)
    ensures
        tile_distance(v, k) >= 0,
{
}

proof fn lemma_tile_home(v: u8, k: int)
    requires
        0 <= k < 9,
        tile_distance(v, k) == 0,
    ensures
        v == 0 || v == k + 1,
{
    if v != 0 {
        let t = v - 1;
        assert(k / 3 == t / 3 && k % 3 == t % 3);
        assert(k == 3 * (k / 3) + k % 3);
        assert(t == 3 * (t / 3) + t % 3);
    }
}

/// The heuristic is zero on a valid board exactly when it is the goal board.
pub proof fn lemma_heuristic_zero_iff_goal(b: Seq<u8>)
    requires
        valid_board(b),
    ensures
        manhattan(b) == 0 <==> is_goal_board(b),
{
    lemma_manhattan_terms(b);
    if manhattan(b) == 0 {
        assert forall|k: int| 0 <= k < 9 implies tile_distance(#[trigger] b[k], k) == 0 by {
            lemma_tile_distance_nonneg(b[0], 0);
            lemma_tile_distance_nonneg(b[1], 1);
            lemma_tile_distance_nonneg(b[2], 2);
            lemma_tile_distance_nonneg(b[3], 3);
            lemma_tile_distance_nonneg(b[4], 4);
            lemma_tile_distance_nonneg(b[5], 5);
            lemma_tile_distance_nonneg(b[6], 6);
            lemma_tile_distance_nonneg(b[7], 7);
            lemma_tile_distance_nonneg(b[8], 8);
        }
        assert forall|k: int| 0 <= k < 9 implies #[trigger] b[k] == 0 || b[k] == k + 1 by {
            lemma_tile_home(b[k], k);
        }
        assert(b[8] == 0);
        assert forall|k: int| 0 <= k < 9 implies #[trigger] b[k] == goal_board()[k] by {
            if k < 8 {
                assert(b[k] != b[8]);
            }
        }
        assert(b =~= goal_board());
    }
    if is_goal_board(b) {
        assert(b[0] == 1 && b[1] == 2 && b[2] == 3 && b[3] == 4 && b[4] == 5);
        assert(b[5] == 6 && b[6] == 7 && b[7] == 8 && b[8] == 0);
    }
}

/// The heuristic never exceeds the number of moves of any solution.
pub proof fn lemma_heuristic_admissible(b: Seq<u8>, p: Seq<Seq<u8>>)
    requires
        valid_board(b),
        is_solution(b, p),
    ensures
        manhattan(b) <= p.len() - 1,
    decreases p.len(),
{
    if p.len() == 1 {
        lemma_heuristic_zero_iff_goal(b);
    } else {
        let z: int = 0;
        assert(is_step(p[z], p[z + 1]));
        lemma_step_shape(b, p[1]);
        lemma_slide_manhattan(b, blank_index(b), blank_index(p[1]));
        let q = p.drop_first();
        assert forall|i: int| 0 <= i < q.len() - 1 implies #[trigger] is_step(q[i], q[i + 1]) by {
            let j = i + 1;
            assert(is_step(p[j], p[j + 1]));
        }
        assert(is_solution(p[1], q));
        lemma_heuristic_admissible(p[1], q);
    }
}

/// Undoing a move: the board a successor came from is a successor of it.
pub proof fn lemma_successor_reversible(b: Seq<u8>, i: int)
    requires
        valid_board(b),
        0 <= i < successor_boards(b).len(),
    ensures
        is_step(successor_boards(b)[i], b),
        slide(
            successor_boards(b)[i],
            blank_index(successor_boards(b)[i]),
            blank_index(b),
        ) == b,
{
    let c = successor_boards(b)[i];
    assert(is_step(b, c));
    lemma_step_shape(b, c);
    let e = blank_index(b);
    let n = blank_index(c);
    assert(slide(c, n, e) =~= b);
    let dd: int = if e == n + 1 {
        0
    } else if e == n + 3 {
        1
    } else if e == n - 1 {
        2
    } else {
        3
    };
    assert(neighbour(n, dd) == Some(e));
    lemma_successor_present(c, 4, dd);
}

/// Tiles `x` before `y` stand in the wrong order (the blank never does).
#[verifier::opaque]
pub open spec fn out_of_order(x: u8, y: u8) -> int {
    if x != 0 && y != 0 && x > y {
        1
    } else {
        0
    }
}

/// Tiles at `i` and `j` (`i` before `j`) stand in the wrong order.
pub open spec fn inverted(b: Seq<u8>, i: int, j: int) -> int {
    out_of_order(b[i], b[j])
}

proof fn lemma_out_of_order_facts()
    ensures
        forall|x: u8| #[trigger] out_of_order(x, 0) == 0 && out_of_order(0, x) == 0,
        forall|x: u8, y: u8|
            x != 0 && y != 0 && x != y ==> #[trigger] out_of_order(x, y) + #[trigger] out_of_order(
                y,
                x,
            ) == 1,
{
    reveal(out_of_order);
}

/// Number of cells `a < i` whose tile stands in the wrong order against the
/// tile at `j`.
pub open spec fn inverted_before(b: Seq<u8>, i: int, j: int) -> int
    decreases i,
{
    if i <= 0 {
        0
    } else {
        inverted_before(b, i - 1, j) + inverted(b, i - 1, j)
    }
}

/// Number of inverted pairs among the first `n` cells.
pub open spec fn inversions_upto(b: Seq<u8>, n: int) -> int
    decreases n,
{
    if n <= 0 {
        0
    } else {
        inversions_upto(b, n - 1) + inverted_before(b, n - 1, n - 1)
    }
}

/// Number of pairs of tiles, blank left out, that stand in the wrong order
/// when the board is read row by row.
pub open spec fn inversions(b: Seq<u8>) -> int {
    inversions_upto(b, 9)
}

proof fn lemma_inversion_terms(b: Seq<u8>)
    ensures
        inversions(b) == inverted(b, 0, 1) + inverted(b, 0, 2) + inverted(b, 1, 2) +
            inverted(b, 0, 3) + inverted(b, 1, 3) + inverted(b, 2, 3) + inverted(b, 0, 4) +
            inverted(b, 1, 4) + inverted(b, 2, 4) + inverted(b, 3, 4) + inverted(b, 0, 5) +
            inverted(b, 1, 5) + inverted(b, 2, 5) + inverted(b, 3, 5) + inverted(b, 4, 5) +
            inverted(b, 0, 6) + inverted(b, 1, 6) + inverted(b, 2, 6) + inverted(b, 3, 6) +
            inverted(b, 4, 6) + inverted(b, 5, 6) + inverted(b, 0, 7) + inverted(b, 1, 7) +
            inverted(b, 2, 7) + inverted(b, 3, 7) + inverted(b, 4, 7) + inverted(b, 5, 7) +
            inverted(b, 6, 7) + inverted(b, 0, 8) + inverted(b, 1, 8) + inverted(b, 2, 8) +
            inverted(b, 3, 8) + inverted(b, 4, 8) + inverted(b, 5, 8) + inverted(b, 6, 8) +
            inverted(b, 7, 8),
{
    reveal_with_fuel(inversions_upto, 10);
    reveal_with_fuel(inverted_before, 10);
}

/// The facts about a board from which a slide's parity of inversions follows.
pub open spec fn slide_ready(b: Seq<u8>, e: int, n: int) -> bool {
    &&& b.len() == 9
    &&& b[e] == 0
    &&& forall|k: int| 0 <= k < 9 && k != e ==> #[trigger] b[k] != 0
    &&& forall|k: int| 0 <= k < 9 && k != n ==> #[trigger] b[k] != b[n]
}

proof fn lemma_slide_parity_0_1(b: Seq<u8>)
    requires
        slide_ready(b, 0, 1),
    ensures
        inversions(slide(b, 0, 1)) % 2 == inversions(b) % 2,
{
    let c = slide(b, 0, 1);
    lemma_inversion_terms(b);
    lemma_inversion_terms(c);
    lemma_out_of_order_facts();
    assert(c[0] == b[1] && c[1] == 0);
    assert(c[2] == b[2] && c[3] == b[3] && c[4] == b[4] && c[5] == b[5] && c[6] == b[6] && c[7] == b[7] && c[8] == b[8]);
}

proof fn lemma_slide_parity_0_3(b: Seq<u8>)
    requires
        slide_ready(b, 0, 3),
    ensures
        inversions(slide(b, 0, 3)) % 2 == inversions(b) % 2,
{
    let c = slide(b, 0, 3);
    lemma_inversion_terms(b);
    lemma_inversion_terms(c);
    lemma_out_of_order_facts();
    assert(c[0] == b[3] && c[3] == 0);
    assert(c[1] == b[1] && c[2] == b[2] && c[4] == b[4] && c[5] == b[5] && c[6] == b[6] && c[7] == b[7] && c[8] == b[8]);
}

proof fn lemma_slide_parity_1_2(b: Seq<u8>)
    requires
        slide_ready(b, 1, 2),
    ensures
        inversions(slide(b, 1, 2)) % 2 == inversions(b) % 2,
{
    let c = slide(b, 1, 2);
    lemma_inversion_terms(b);
    lemma_inversion_terms(c);
    lemma_out_of_order_facts();
    assert(c[1] == b[2] && c[2] == 0);
    assert(c[0] == b[0] && c[3] == b[3] && c[4] == b[4] && c[5] == b[5] && c[6] == b[6] && c[7] == b[7] && c[8] == b[8]);
}

proof fn lemma_slide_parity_1_4(b: Seq<u8>)
    requires
        slide_ready(b, 1, 4),
    ensures
        inversions(slide(b, 1, 4)) % 2 == inversions(b) % 2,
{
    let c = slide(b, 1, 4);
    lemma_inversion_terms(b);
    lemma_inversion_terms(c);
    lemma_out_of_order_facts();
    assert(c[1] == b[4] && c[4] == 0);
    assert(c[0] == b[0] && c[2] == b[2] && c[3] == b[3] && c[5] == b[5] && c[6] == b[6] && c[7] == b[7] && c[8] == b[8]);
}

proof fn lemma_slide_parity_2_5(b: Seq<u8>)
    requires
        slide_ready(b, 2, 5),
    ensures
        inversions(slide(b, 2, 5)) % 2 == inversions(b) % 2,
{
    let c = slide(b, 2, 5);
    lemma_inversion_terms(b);
    lemma_inversion_terms(c);
    lemma_out_of_order_facts();
    assert(c[2] == b[5] && c[5] == 0);
    assert(c[0] == b[0] && c[1] == b[1] && c[3] == b[3] && c[4] == b[4] && c[6] == b[6] && c[7] == b[7] && c[8] == b[8]);
}

proof fn lemma_slide_parity_3_4(b: Seq<u8>)
    requires
        slide_ready(b, 3, 4),
    ensures
        inversions(slide(b, 3, 4)) % 2 == inversions(b) % 2,
{
    let c = slide(b, 3, 4);
    lemma_inversion_terms(b);
    lemma_inversion_terms(c);
    lemma_out_of_order_facts();
    assert(c[3] == b[4] && c[4] == 0);
    assert(c[0] == b[0] && c[1] == b[1] && c[2] == b[2] && c[5] == b[5] && c[6] == b[6] && c[7] == b[7] && c[8] == b[8]);
}

proof fn lemma_slide_parity_3_6(b: Seq<u8>)
    requires
        slide_ready(b, 3, 6),
    ensures
        inversions(slide(b, 3, 6)) % 2 == inversions(b) % 2,
{
    let c = slide(b, 3, 6);
    lemma_inversion_terms(b);
    lemma_inversion_terms(c);
    lemma_out_of_order_facts();
    assert(c[3] == b[6] && c[6] == 0);
    assert(c[0] == b[0] && c[1] == b[1] && c[2] == b[2] && c[4] == b[4] && c[5] == b[5] && c[7] == b[7] && c[8] == b[8]);
}

proof fn lemma_slide_parity_4_5(b: Seq<u8>)
    requires
        slide_ready(b, 4, 5),
    ensures
        inversions(slide(b, 4, 5)) % 2 == inversions(b) % 2,
{
    let c = slide(b, 4, 5);
    lemma_inversion_terms(b);
    lemma_inversion_terms(c);
    lemma_out_of_order_facts();
    assert(c[4] == b[5] && c[5] == 0);
    assert(c[0] == b[0] && c[1] == b[1] && c[2] == b[2] && c[3] == b[3] && c[6] == b[6] && c[7] == b[7] && c[8] == b[8]);
}

proof fn lemma_slide_parity_4_7(b: Seq<u8>)
    requires
        slide_ready(b, 4, 7),
    ensures
        inversions(slide(b, 4, 7)) % 2 == inversions(b) % 2,
{
    let c = slide(b, 4, 7);
    lemma_inversion_terms(b);
    lemma_inversion_terms(c);
    lemma_out_of_order_facts();
    assert(c[4] == b[7] && c[7] == 0);
    assert(c[0] == b[0] && c[1] == b[1] && c[2] == b[2] && c[3] == b[3] && c[5] == b[5] && c[6] == b[6] && c[8] == b[8]);
}

proof fn lemma_slide_parity_5_8(b: Seq<u8>)
    requires
        slide_ready(b, 5, 8),
    ensures
        inversions(slide(b, 5, 8)) % 2 == inversions(b) % 2,
{
    let c = slide(b, 5, 8);
    lemma_inversion_terms(b);
    lemma_inversion_terms(c);
    lemma_out_of_order_facts();
    assert(c[5] == b[8] && c[8] == 0);
    assert(c[0] == b[0] && c[1] == b[1] && c[2] == b[2] && c[3] == b[3] && c[4] == b[4] && c[6] == b[6] && c[7] == b[7]);
}

proof fn lemma_slide_parity_6_7(b: Seq<u8>)
    requires
        slide_ready(b, 6, 7),
    ensures
        inversions(slide(b, 6, 7)) % 2 == inversions(b) % 2,
{
    let c = slide(b, 6, 7);
    lemma_inversion_terms(b);
    lemma_inversion_terms(c);
    lemma_out_of_order_facts();
    assert(c[6] == b[7] && c[7] == 0);
    assert(c[0] == b[0] && c[1] == b[1] && c[2] == b[2] && c[3] == b[3] && c[4] == b[4] && c[5] == b[5] && c[8] == b[8]);
}

proof fn lemma_slide_parity_7_8(b: Seq<u8>)
    requires
        slide_ready(b, 7, 8),
    ensures
        inversions(slide(b, 7, 8)) % 2 == inversions(b) % 2,
{
    let c = slide(b, 7, 8);
    lemma_inversion_terms(b);
    lemma_inversion_terms(c);
    lemma_out_of_order_facts();
    assert(c[7] == b[8] && c[8] == 0);
    assert(c[0] == b[0] && c[1] == b[1] && c[2] == b[2] && c[3] == b[3] && c[4] == b[4] && c[5] == b[5] && c[6] == b[6]);
}

/// A tile sliding forward from `n` into the blank at `e < n` keeps the parity
/// of the inversions: sideways it keeps the order of the tiles, vertically it
/// passes two other tiles.
proof fn lemma_forward_slide_parity(b: Seq<u8>, e: int, n: int)
    requires
        0 <= e < n < 9,
        n == e + 3 || (n == e + 1 && e % 3 < 2),
        slide_ready(b, e, n),
    ensures
        inversions(slide(b, e, n)) % 2 == inversions(b) % 2,
{
    if e == 0 && n == 1 {
        lemma_slide_parity_0_1(b);
    } else if e == 0 && n == 3 {
        lemma_slide_parity_0_3(b);
    } else if e == 1 && n == 2 {
        lemma_slide_parity_1_2(b);
    } else if e == 1 && n == 4 {
        lemma_slide_parity_1_4(b);
    } else if e == 2 && n == 5 {
        lemma_slide_parity_2_5(b);
    } else if e == 3 && n == 4 {
        lemma_slide_parity_3_4(b);
    } else if e == 3 && n == 6 {
        lemma_slide_parity_3_6(b);
    } else if e == 4 && n == 5 {
        lemma_slide_parity_4_5(b);
    } else if e == 4 && n == 7 {
        lemma_slide_parity_4_7(b);
    } else if e == 5 && n == 8 {
        lemma_slide_parity_5_8(b);
    } else if e == 6 && n == 7 {
        lemma_slide_parity_6_7(b);
    } else if e == 7 && n == 8 {
        lemma_slide_parity_7_8(b);
    }
}

/// A move keeps the parity of the inversions.
proof fn lemma_slide_parity(b: Seq<u8>, e: int, n: int)
    requires
        valid_board(b),
        adjacent(e, n),
        b[e] == 0,
    ensures
        inversions(slide(b, e, n)) % 2 == inversions(b) % 2,
{
    let c = slide(b, e, n);
    assert(forall|k: int| 0 <= k < 9 && k != e ==> #[trigger] b[k] != 0);
    assert(forall|k: int| 0 <= k < 9 && k != n ==> #[trigger] b[k] != b[n]);
    if e < n {
        lemma_forward_slide_parity(b, e, n);
    } else {
        assert(forall|k: int| 0 <= k < 9 && k != n ==> #[trigger] c[k] != 0);
        assert(forall|k: int| 0 <= k < 9 && k != e ==> #[trigger] c[k] != c[e]);
        lemma_forward_slide_parity(c, n, e);
        assert(slide(c, n, e) =~= b);
    }
}

/// Every board along a solution from a valid board has the parity of
/// inversions of the start.
proof fn lemma_solution_parity(start: Seq<u8>, p: Seq<Seq<u8>>, i: int)
    requires
        valid_board(start),
        is_solution(start, p),
        0 <= i < p.len(),
    ensures
        inversions(p[i]) % 2 == inversions(start) % 2,
    decreases i,
{
    if i > 0 {
        let j = i - 1;
        lemma_solution_parity(start, p, j);
        lemma_solution_valid(start, p, j);
        assert(is_step(p[j], p[j + 1]));
        lemma_step_shape(p[j], p[j + 1]);
        lemma_slide_parity(p[j], blank_index(p[j]), blank_index(p[j + 1]));
    }
}

/// A valid board with an odd number of inversions cannot reach the goal:
/// moves keep the parity and the goal has none.
pub proof fn lemma_odd_parity_unsolvable(b: Seq<u8>)
    requires
        valid_board(b),
        inversions(b) % 2 == 1,
    ensures
        !solvable(b),
{
    if solvable(b) {
        let p = choose|p: Seq<Seq<u8>>| is_solution(b, p);
        lemma_solution_parity(b, p, p.len() - 1);
        let g = p[p.len() - 1];
        lemma_inversion_terms(g);
        assert(g == goal_board());
        reveal(out_of_order);
    }
}

/// Locates the first blank cell of `b` as a flat index.
pub fn blank_of(b: &Board) -> (k: usize)
    requires
        has_blank(b@),
    ensures
        k == blank_index(b@),
        k < 9,
{
    let mut k: usize = 0;
    while k < CELLS
        invariant
            k <= 9,
            has_blank(b@),
            forall|j: int| 0 <= j < k ==> b@[j] != 0,
        decreases 9 - k,
    {
        if b[k] == 0 {
            let ghost c = blank_index(b@);
            assert(b@[k as int] == 0 && forall|j: int| 0 <= j < k ==> b@[j] != 0);
            assert(c == k as int) by {
                if c < k as int {
                } else if c > k as int {
                }
            }
            return k;
        }
        k = k + 1;
    }
    proof {
        let w = choose|w: int| 0 <= w < 9 && b@[w] == 0;
        assert(b@[w] != 0);
    }
    0
}


/// Distance of tile `v` at cell `k` from its goal cell.
fn tile_distance_of(v: u8, k: usize) -> (r: usize)
    requires
        k < 9,
    ensures
        r == tile_distance(v, k as int),
        r <= 90,
{
    if v == 0 {
        0
    } else {
        let target_row = ((v - 1) / 3) as usize;
        let target_col = ((v - 1) % 3) as usize;
        let row = k / SIDE;
        let col = k % SIDE;
        let dr = if row >= target_row { row - target_row } else { target_row - row };
        let dc = if col >= target_col { col - target_col } else { target_col - col };
        dr + dc
    }
}

/// The cell the blank at `e` swaps with in direction `d`, if any.
fn neighbour_of(e: usize, d: usize) -> (r: Option<usize>)
    requires
        e < 9,
    ensures
        match r {
            Some(n) => neighbour(e as int, d as int) == Some(n as int) && n < 9,
            None => neighbour(e as int, d as int) is None,
        },
{
    if d == 0 {
        if e % SIDE < 2 { Some(e + 1) } else { None }
    } else if d == 1 {
        if e / SIDE < 2 { Some(e + 3) } else { None }
    } else if d == 2 {
        if e % SIDE > 0 { Some(e - 1) } else { None }
    } else {
        if e / SIDE > 0 { Some(e - 3) } else { None }
    }
}

/// The board after the tile at `n` slides into the blank at `e`.
fn slide_of(b: &Board, e: usize, n: usize) -> (r: Board)
    requires
        e < 9,
        n < 9,
    ensures
        r@ == slide(b@, e as int, n as int),
{
    let mut r: Board = *b;
    r[e] = b[n];
    r[n] = 0;
    assert(r@ =~= slide(b@, e as int, n as int));
    r
}

/// The boards one move away from `b`, each with the cost of the move.
pub fn board_successors(b: &Board) -> (r: Vec<(Board, usize)>)
    requires
        has_blank(b@),
    ensures
        r@.len() == successor_boards(b@).len(),
        forall|i: int|
            0 <= i < r@.len() ==> (#[trigger] r@[i]).0@ == successor_boards(b@)[i] && r@[i].1
                == 1,
{
    let e = blank_of(b);
    let mut r: Vec<(Board, usize)> = Vec::new();
    let mut d: usize = 0;
    while d < 4
        invariant
            d <= 4,
            e == blank_index(b@),
            e < 9,
            r@.len() == successors_upto(b@, d as int).len(),
            forall|i: int|
                0 <= i < r@.len() ==> (#[trigger] r@[i]).0@ == successors_upto(b@, d as int)[i]
                    && r@[i].1 == 1,
        decreases 4 - d,
    {
        match neighbour_of(e, d) {
            Some(n) => {
                r.push((slide_of(b, e, n), 1));
            },
            None => {},
        }
        d = d + 1;
    }
    r
}

/// One board configuration together with the tile that last slid.
#[derive(Clone, Copy, Debug, PartialEq, Eq, Hash)]
pub struct PuzzleState {
    pub puzzle: Board,
    pub number_slid: u8,
}

impl PuzzleState {
    pub fn new(puzzle: Board, number_slid: u8) -> (r: PuzzleState)
        ensures
            r.puzzle@ == puzzle@,
            r.number_slid == number_slid,
    {
        PuzzleState { puzzle, number_slid }
    }

    /// Sum of the Manhattan distances of the tiles from their goal cells.
    pub fn heuristic(&self) -> (r: usize)
        ensures
            r == manhattan(self.puzzle@),
    {
        let mut distance: usize = 0;
        let mut k: usize = 0;
        while k < CELLS
            invariant
                k <= 9,
                distance == manhattan_prefix(self.puzzle@, k as int),
                distance <= 90 * k,
            decreases 9 - k,
        {
            distance = distance + tile_distance_of(self.puzzle[k], k);
            k = k + 1;
        }
        distance
    }

    pub fn is_goal(&self) -> (r: bool)
        ensures
            r == is_goal_board(self.puzzle@),
    {
        let mut k: usize = 0;
        while k < CELLS
            invariant
                k <= 9,
                forall|j: int| 0 <= j < k ==> self.puzzle@[j] == goal_board()[j],
            decreases 9 - k,
        {
            let want: u8 = if k == 8 { 0 } else { (k + 1) as u8 };
            if self.puzzle[k] != want {
                assert(self.puzzle@[k as int] != goal_board()[k as int]);
                return false;
            }
            k = k + 1;
        }
        assert(self.puzzle@ =~= goal_board());
        true
    }

    /// Row and column of the blank.
    pub fn find_empty(&self) -> (r: (usize, usize))
        requires
            has_blank(self.puzzle@),
        ensures
            r.0 < 3,
            r.1 < 3,
            3 * r.0 + r.1 == blank_index(self.puzzle@),
    {
        let k = blank_of(&self.puzzle);
        (k / SIDE, k % SIDE)
    }

    /// The states one move away, right, down, left, up, each at cost 1;
    /// `number_slid` is the tile that moved into the old blank cell.
    pub fn successors(&self) -> (r: Vec<(PuzzleState, usize)>)
        requires
            has_blank(self.puzzle@),
        ensures
            r@.len() == successor_boards(self.puzzle@).len(),
            forall|i: int|
                0 <= i < r@.len() ==> {
                    &&& (#[trigger] r@[i]).0.puzzle@ == successor_boards(self.puzzle@)[i]
                    &&& r@[i].0.number_slid == successor_boards(self.puzzle@)[i][blank_index(
                        self.puzzle@,
                    )]
                    &&& r@[i].1 == 1
                },
    {
        let b = &self.puzzle;
        let e = blank_of(b);
        let mut r: Vec<(PuzzleState, usize)> = Vec::new();
        let mut d: usize = 0;
        while d < 4
            invariant
                d <= 4,
                e == blank_index(b@),
                e < 9,
                r@.len() == successors_upto(b@, d as int).len(),
                forall|i: int|
                    0 <= i < r@.len() ==> {
                        &&& (#[trigger] r@[i]).0.puzzle@ == successors_upto(b@, d as int)[i]
                        &&& r@[i].0.number_slid == successors_upto(b@, d as int)[i][e as int]
                        &&& r@[i].1 == 1
                    },
            decreases 4 - d,
        {
            match neighbour_of(e, d) {
                Some(n) => {
                    let next = PuzzleState { puzzle: slide_of(b, e, n), number_slid: b[n] };
                    r.push((next, 1));
                },
                None => {},
            }
            d = d + 1;
        }
        r
    }
}

} // verus!
