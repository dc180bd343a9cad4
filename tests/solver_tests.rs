use std::collections::{HashMap, VecDeque};

use slide_solver::display::{absolute_position, path_to_pos, rect_to_points, Point, Rectangle};
use slide_solver::error::SlideError;
use slide_solver::input::{board_from_rows, parse_board, string_to_i32_vec, to_matrix};
use slide_solver::puzzle::{board_successors, Board, PuzzleState};
use slide_solver::solver::{path_states, solve_puzzle};

const GOAL: Board = [1, 2, 3, 4, 5, 6, 7, 8, 0];

fn bfs_distance(start: Board) -> Option<usize> {
    let mut seen: HashMap<Board, usize> = HashMap::new();
    let mut queue = VecDeque::new();
    seen.insert(start, 0);
    queue.push_back(start);
    while let Some(b) = queue.pop_front() {
        let d = seen[&b];
        if b == GOAL {
            return Some(d);
        }
        for (next, _) in board_successors(&b) {
            if !seen.contains_key(&next) {
                seen.insert(next, d + 1);
                queue.push_back(next);
            }
        }
    }
    None
}

fn check_path(start: Board, path: &[PuzzleState]) {
    let mut prev = start;
    for state in path {
        let nexts: Vec<Board> = board_successors(&prev).into_iter().map(|(b, _)| b).collect();
        assert!(nexts.contains(&state.puzzle));
        let blank = prev.iter().position(|&v| v == 0).unwrap();
        assert_eq!(state.number_slid, state.puzzle[blank]);
        prev = state.puzzle;
    }
    assert_eq!(prev, GOAL);
}

#[test]
fn one_move_from_goal() {
    let start: Board = [1, 2, 3, 4, 5, 6, 7, 0, 8];
    let (path, cost) = solve_puzzle(PuzzleState::new(start, 0)).unwrap();
    assert_eq!(cost, 1);
    assert_eq!(path.len(), 1);
    assert_eq!(path[0].puzzle, GOAL);
    assert_eq!(path[0].number_slid, 8);
}

#[test]
fn already_solved() {
    let (path, cost) = solve_puzzle(PuzzleState::new(GOAL, 0)).unwrap();
    assert_eq!(cost, 0);
    assert!(path.is_empty());
}

#[test]
fn swapped_tiles_have_no_solution() {
    let start: Board = [2, 1, 3, 4, 5, 6, 7, 8, 0];
    assert!(solve_puzzle(PuzzleState::new(start, 0)).is_none());
}

#[test]
fn odd_parity_board_has_no_solution() {
    let start: Board = [8, 1, 2, 0, 4, 3, 7, 6, 5];
    assert_eq!(bfs_distance(start), None);
    assert!(solve_puzzle(PuzzleState::new(start, 0)).is_none());
}

#[test]
fn solution_length_matches_breadth_first_search() {
    let boards: [Board; 5] = [
        [1, 2, 3, 4, 5, 6, 0, 7, 8],
        [1, 2, 3, 0, 4, 6, 7, 5, 8],
        [4, 1, 3, 7, 2, 6, 0, 5, 8],
        [8, 6, 7, 2, 5, 4, 3, 0, 1],
        [6, 4, 7, 8, 5, 0, 3, 2, 1],
    ];
    for start in boards {
        let best = bfs_distance(start).unwrap();
        let (path, cost) = solve_puzzle(PuzzleState::new(start, 0)).unwrap();
        assert_eq!(cost, best);
        assert_eq!(path.len(), best);
        check_path(start, &path);
    }
}

#[test]
fn hardest_boards_take_thirty_one_moves() {
    let start: Board = [8, 6, 7, 2, 5, 4, 3, 0, 1];
    let (_, cost) = solve_puzzle(PuzzleState::new(start, 0)).unwrap();
    assert_eq!(cost, 31);
}

#[test]
fn heuristic_is_zero_only_on_goal() {
    assert_eq!(PuzzleState::new(GOAL, 0).heuristic(), 0);
    assert!(PuzzleState::new(GOAL, 0).is_goal());
    let other: Board = [1, 2, 3, 4, 5, 6, 7, 0, 8];
    assert_eq!(PuzzleState::new(other, 0).heuristic(), 1);
    assert!(!PuzzleState::new(other, 0).is_goal());
}

#[test]
fn heuristic_exact_value() {
    // 8 at (0,0) wants (2,1): 3; 1 at (0,1) wants (0,0): 1; 2 at (0,2): 1;
    // 4 at (1,1) wants (1,0): 1; 3 at (1,2) wants (0,2): 1; 7 at (2,0): 0;
    // 6 at (2,1) wants (1,2): 2; 5 at (2,2) wants (1,1): 2.
    let b: Board = [8, 1, 2, 0, 4, 3, 7, 6, 5];
    assert_eq!(PuzzleState::new(b, 0).heuristic(), 11);
}

#[test]
fn heuristic_never_exceeds_true_distance() {
    let boards: [Board; 4] = [
        [4, 1, 3, 7, 2, 6, 0, 5, 8],
        [8, 6, 7, 2, 5, 4, 3, 0, 1],
        [0, 1, 2, 3, 4, 5, 6, 7, 8],
        [1, 2, 3, 4, 0, 6, 7, 5, 8],
    ];
    for b in boards {
        let d = bfs_distance(b).unwrap();
        assert!(PuzzleState::new(b, 0).heuristic() <= d);
    }
}

#[test]
fn successors_in_fixed_order() {
    let b: Board = [1, 2, 3, 4, 0, 5, 6, 7, 8];
    let s = PuzzleState::new(b, 0).successors();
    let boards: Vec<Board> = s.iter().map(|(st, _)| st.puzzle).collect();
    assert_eq!(
        boards,
        vec![
            [1, 2, 3, 4, 5, 0, 6, 7, 8],
            [1, 2, 3, 4, 7, 5, 6, 0, 8],
            [1, 2, 3, 0, 4, 5, 6, 7, 8],
            [1, 0, 3, 4, 2, 5, 6, 7, 8],
        ]
    );
    let slid: Vec<u8> = s.iter().map(|(st, _)| st.number_slid).collect();
    assert_eq!(slid, vec![5, 7, 4, 2]);
    assert!(s.iter().all(|(_, c)| *c == 1));
    let corner = PuzzleState::new([0, 1, 2, 3, 4, 5, 6, 7, 8], 0).successors();
    assert_eq!(corner.len(), 2);
}

#[test]
fn moves_can_be_undone() {
    let boards: [Board; 3] = [
        [1, 2, 3, 4, 0, 5, 6, 7, 8],
        [0, 1, 2, 3, 4, 5, 6, 7, 8],
        [1, 2, 3, 4, 5, 6, 7, 8, 0],
    ];
    for b in boards {
        for (next, _) in PuzzleState::new(b, 0).successors() {
            let back: Vec<Board> =
                next.successors().into_iter().map(|(st, _)| st.puzzle).collect();
            assert!(back.contains(&b));
        }
    }
}

#[test]
fn find_empty_gives_row_and_column() {
    let b: Board = [1, 2, 3, 4, 5, 6, 7, 0, 8];
    assert_eq!(PuzzleState::new(b, 0).find_empty(), (2, 1));
}

fn rect(x0: i32, y0: i32, x1: i32, y1: i32) -> Rectangle {
    Rectangle::new(Point { x: x0, y: y0 }, Point { x: x1, y: y1 }, None)
}

#[test]
fn grid_positions_exact_cells() {
    let r = rect(100, 200, 400, 500);
    assert_eq!(r.width(), 300);
    assert_eq!(r.height(), 300);
    let g = r.grid_positions(Point { x: 1920, y: 1080 }).unwrap();
    assert_eq!(g.len(), 3);
    assert_eq!(g[0][0].top_left, Point { x: 100, y: 200 });
    assert_eq!(g[0][0].bottom_right, Point { x: 200, y: 300 });
    assert_eq!(g[0][0].center, Some(Point { x: 150, y: 250 }));
    assert_eq!(g[1][2].center, Some(Point { x: 350, y: 350 }));
    assert_eq!(g[2][2].bottom_right, Point { x: 400, y: 500 });
}

#[test]
fn grid_centers_increase_and_cover() {
    let r = rect(10, 20, 111, 92);
    let g = r.grid_positions(Point { x: 800, y: 600 }).unwrap();
    for row in 0..3 {
        for col in 0..2 {
            assert!(g[row][col].center.unwrap().x < g[row][col + 1].center.unwrap().x);
            assert!(g[col][row].center.unwrap().y < g[col + 1][row].center.unwrap().y);
            assert_eq!(g[row][col].bottom_right.x, g[row][col + 1].top_left.x);
        }
        assert_eq!(g[row][0].top_left.x, 10);
        assert!(g[row][2].bottom_right.x >= 111 - 2 && g[row][2].bottom_right.x <= 111);
        assert!(g[2][row].bottom_right.y >= 92 - 2 && g[2][row].bottom_right.y <= 92);
    }
}

#[test]
fn degenerate_rectangle_is_refused() {
    let r = rect(100, 100, 100, 200);
    assert_eq!(r.grid_positions(Point { x: 10, y: 10 }), Err(SlideError::DegenerateGeometry));
    let r = rect(100, 300, 200, 200);
    assert_eq!(r.grid_positions(Point { x: 10, y: 10 }), Err(SlideError::DegenerateGeometry));
}

#[test]
fn centers_row_by_row_and_clicks_on_blank() {
    let g = rect(0, 0, 90, 90).grid_positions(Point { x: 100, y: 100 }).unwrap();
    let points = rect_to_points(&g);
    assert_eq!(points.len(), 9);
    assert_eq!(points[0], Point { x: 15, y: 15 });
    assert_eq!(points[5], Point { x: 75, y: 45 });
    let grid = to_matrix(points, 3);
    let path = vec![
        PuzzleState::new([1, 2, 3, 4, 5, 6, 7, 0, 8], 8),
        PuzzleState::new([1, 2, 3, 4, 5, 6, 7, 8, 0], 8),
    ];
    let clicks = path_to_pos(&path, &grid);
    assert_eq!(clicks, vec![Point { x: 45, y: 75 }, Point { x: 75, y: 75 }]);
}

#[test]
fn coordinate_transform_ends_and_order() {
    let screen = Point { x: 1920, y: 1080 };
    assert_eq!(absolute_position(Point { x: 0, y: 0 }, screen), Ok(Point { x: 0, y: 0 }));
    assert_eq!(
        absolute_position(Point { x: 1919, y: 1079 }, screen),
        Ok(Point { x: 65535, y: 65535 })
    );
    assert_eq!(
        absolute_position(Point { x: 960, y: 540 }, screen),
        Ok(Point { x: 32784, y: 32797 })
    );
    let a = absolute_position(Point { x: 100, y: 100 }, screen).unwrap();
    let b = absolute_position(Point { x: 101, y: 101 }, screen).unwrap();
    assert!(a.x <= b.x && a.y <= b.y);
    assert_eq!(
        absolute_position(Point { x: 5, y: 5 }, Point { x: 1, y: 600 }),
        Err(SlideError::DegenerateGeometry)
    );
}

#[test]
fn matrix_rows_keep_leftovers() {
    let m = to_matrix(vec![1, 2, 3, 4, 5, 6, 7], 3);
    assert_eq!(m, vec![vec![1, 2, 3], vec![4, 5, 6], vec![7]]);
    let empty: Vec<Vec<u8>> = to_matrix(Vec::new(), 3);
    assert!(empty.is_empty());
}

#[test]
fn digits_become_rows() {
    let rows = string_to_i32_vec("123456780".to_string());
    assert_eq!(rows, vec![vec![1, 2, 3], vec![4, 5, 6], vec![7, 8, 0]]);
    let rows = string_to_i32_vec("1234".to_string());
    assert_eq!(rows, vec![vec![1, 2, 3]]);
}

#[test]
fn boards_are_validated() {
    let ok = board_from_rows(&vec![vec![1, 2, 3], vec![4, 5, 6], vec![7, 8, 0]]);
    assert_eq!(ok, Ok(GOAL));
    let dup = board_from_rows(&vec![vec![1, 1, 3], vec![4, 5, 6], vec![7, 8, 0]]);
    assert_eq!(dup, Err(SlideError::InvalidBoard));
    let big = board_from_rows(&vec![vec![1, 9, 3], vec![4, 5, 6], vec![7, 8, 0]]);
    assert_eq!(big, Err(SlideError::InvalidBoard));
    let short = board_from_rows(&vec![vec![1, 2, 3], vec![4, 5, 6]]);
    assert_eq!(short, Err(SlideError::InvalidBoard));
}

#[test]
fn degenerate_screen_is_refused() {
    let r = rect(100, 100, 400, 400);
    assert_eq!(r.grid_positions(Point { x: 0, y: 0 }), Err(SlideError::DegenerateGeometry));
    assert_eq!(r.grid_positions(Point { x: 1920, y: -5 }), Err(SlideError::DegenerateGeometry));
    assert_eq!(r.grid_positions(Point { x: 1, y: 1080 }), Err(SlideError::DegenerateGeometry));
    assert!(r.grid_positions(Point { x: 2, y: 2 }).is_ok());
}

#[test]
fn centers_of_any_shape_row_by_row() {
    let cell = |x: i32, y: i32| Rectangle::new(Point { x, y }, Point { x, y }, Some(Point { x, y }));
    let grid = vec![vec![cell(1, 1), cell(2, 1)], vec![], vec![cell(3, 2)]];
    assert_eq!(
        rect_to_points(&grid),
        vec![Point { x: 1, y: 1 }, Point { x: 2, y: 1 }, Point { x: 3, y: 2 }]
    );
}

#[test]
fn clicks_on_a_larger_grid() {
    let p = |x: i32, y: i32| Point { x, y };
    let grid = vec![
        vec![p(0, 0), p(1, 0), p(2, 0), p(3, 0)],
        vec![p(0, 1), p(1, 1), p(2, 1), p(3, 1)],
        vec![p(0, 2), p(1, 2), p(2, 2), p(3, 2)],
        vec![p(0, 3), p(1, 3), p(2, 3), p(3, 3)],
    ];
    let path = vec![PuzzleState::new([1, 2, 3, 4, 5, 0, 6, 7, 8], 5)];
    assert_eq!(path_to_pos(&path, &grid), vec![p(2, 1)]);
}

#[test]
fn parse_board_accepts_permutations_only() {
    assert_eq!(parse_board("123456780".to_string()), Ok(GOAL));
    assert_eq!(parse_board("012345678".to_string()), Ok([0, 1, 2, 3, 4, 5, 6, 7, 8]));
    for bad in ["112345678", "12345678", "123456789", "1234567800", "12345678x", ""] {
        assert_eq!(parse_board(bad.to_string()), Err(SlideError::InvalidBoard), "{}", bad);
    }
}

#[test]
fn states_record_the_slid_tile() {
    let boards: Vec<Board> = vec![[1, 2, 3, 4, 5, 6, 0, 7, 8], [1, 2, 3, 4, 5, 6, 7, 0, 8], GOAL];
    let states = path_states(&boards);
    assert_eq!(states.len(), 2);
    assert_eq!(states[0].puzzle, boards[1]);
    assert_eq!(states[0].number_slid, 7);
    assert_eq!(states[1].puzzle, GOAL);
    assert_eq!(states[1].number_slid, 8);
}

#[test]
fn same_board_same_path() {
    let start: Board = [4, 1, 3, 7, 2, 6, 0, 5, 8];
    assert_eq!(solve_puzzle(PuzzleState::new(start, 0)), solve_puzzle(PuzzleState::new(start, 3)));
}
