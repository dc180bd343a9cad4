//! Optimal search from a board to the goal.

use vstd::prelude::*;
use crate::puzzle::{
    Board, PuzzleState, blank_index, blank_of, board_successors, has_blank, is_solution,
    lemma_solution_valid, solvable, valid_board,
};

verus! {

/// The boards of a sequence of arrays, as sequences.
pub open spec fn boards_of(s: Seq<Board>) -> Seq<Seq<u8>> {
    s.map_values(|b: Board| b@)
}

/// The boards of a sequence of states.
pub open spec fn state_boards(s: Seq<PuzzleState>) -> Seq<Seq<u8>> {
    s.map_values(|st: PuzzleState| st.puzzle@)
}

/// `p` is a solution from `start` with no more moves than any other.
pub open spec fn is_shortest_solution(start: Seq<u8>, p: Seq<Seq<u8>>) -> bool {
    &&& is_solution(start, p)
    &&& forall|q: Seq<Seq<u8>>| is_solution(start, q) ==> p.len() <= q.len()
}

/// The boards of the path that `pathfinding`'s A* search returns from
/// `start` over these moves, when it finds one.
pub uninterp spec fn astar_path(start: Seq<u8>) -> Seq<Seq<u8>>;

/// Relies on `pathfinding::directed::astar::astar`: given the successors (each
/// at cost 1) and an admissible heuristic, it returns a cheapest path from
/// `start` to a node that the success test accepts, both ends included, with
/// its total cost; `None` only when no such node can be reached. The search
/// is deterministic (its map uses an unseeded hasher), so the path depends on
/// `start` alone.
#[verifier::external_body]
fn astar_boards(start: &Board) -> (r: Option<(Vec<Board>, usize)>)
    requires
        valid_board(start@),
    ensures
        match r {
            Some((path, cost)) => {
                &&& is_shortest_solution(start@, boards_of(path@))
                &&& cost == path@.len() - 1
                &&& boards_of(path@) == astar_path(start@)
            },
            None => !solvable(start@),
        },
{
    pathfinding::directed::astar::astar(
        start,
        |b: &Board| board_successors(b),
        |b: &Board| PuzzleState::new(*b, 0).heuristic(),
        |b: &Board| PuzzleState::new(*b, 0).is_goal(),
    )
}

/// The states along a sequence of boards, leaving out the first: each records
/// the tile that slid into the blank of the board before it.
pub fn path_states(boards: &Vec<Board>) -> (r: Vec<PuzzleState>)
    requires
        boards@.len() >= 1,
        forall|i: int| 0 <= i < boards@.len() - 1 ==> has_blank((#[trigger] boards@[i])@),
    ensures
        r@.len() == boards@.len() - 1,
        forall|j: int|
            0 <= j < r@.len() ==> {
                &&& (#[trigger] r@[j]).puzzle@ == boards@[j + 1]@
                &&& r@[j].number_slid == boards@[j + 1]@[blank_index(boards@[j]@)]
            },
{
    let mut path: Vec<PuzzleState> = Vec::new();
    let mut i: usize = 1;
    while i < boards.len()
        invariant
            1 <= i <= boards@.len(),
            forall|k: int| 0 <= k < boards@.len() - 1 ==> has_blank((#[trigger] boards@[k])@),
            path@.len() == i - 1,
            forall|j: int|
                0 <= j < path@.len() ==> {
                    &&& (#[trigger] path@[j]).puzzle@ == boards@[j + 1]@
                    &&& path@[j].number_slid == boards@[j + 1]@[blank_index(boards@[j]@)]
                },
        decreases boards@.len() - i,
    {
        let prev = &boards[i - 1];
        let cur = &boards[i];
        let e = blank_of(prev);
        path.push(PuzzleState::new(*cur, cur[e]));
        i = i + 1;
    }
    path
}

/// Finds a shortest sequence of moves from `initial` to the goal. The path
/// leaves out `initial` and ends at the goal; each state records the tile
/// that slid into the previous blank. The cost is the number of moves. The
/// path is the one the search finds, so equal boards give equal results.
pub fn solve_puzzle(initial: PuzzleState) -> (r: Option<(Vec<PuzzleState>, usize)>)
    requires
        valid_board(initial.puzzle@),
    ensures
        r is None <==> !solvable(initial.puzzle@),
        r matches Some((path, cost)) ==> {
            &&& cost == path@.len()
            &&& is_shortest_solution(
                initial.puzzle@,
                seq![initial.puzzle@] + state_boards(path@),
            )
            &&& seq![initial.puzzle@] + state_boards(path@) == astar_path(initial.puzzle@)
            &&& forall|i: int|
                0 <= i < path@.len() ==> (#[trigger] path@[i]).number_slid == path@[i].puzzle@[
                    blank_index((seq![initial.puzzle@] + state_boards(path@))[i])]
        },
{
    match astar_boards(&initial.puzzle) {
        None => None,
        Some((boards, cost)) => {
            let ghost bs = boards_of(boards@);
            proof {
                assert forall|i: int| 0 <= i < boards@.len() - 1 implies has_blank(
                    (#[trigger] boards@[i])@,
                ) by {
                    lemma_solution_valid(initial.puzzle@, bs, i);
                }
            }
            let path = path_states(&boards);
            proof {
                let full = seq![initial.puzzle@] + state_boards(path@);
                assert(full =~= bs);
            }
            Some((path, cost))
        },
    }
}

} // verus!
