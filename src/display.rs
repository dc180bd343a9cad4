//! Screen geometry: the 3×3 grid of cells over the puzzle's bounding box,
//! the points to click for a solution, and the input device's coordinates.

use vstd::prelude::*;
use vstd::arithmetic::div_mod::{lemma_div_is_ordered, lemma_div_by_multiple};
use vstd::arithmetic::mul::lemma_mul_is_distributive_add_other_way;
use crate::error::SlideError;
use crate::puzzle::{PuzzleState, blank_index, blank_of, has_blank};

verus! {

#[derive(Clone, Copy, Debug, PartialEq, Eq, Structural)]
pub struct Point {
    pub x: i32,
    pub y: i32,
}

#[derive(Clone, Copy, Debug, PartialEq, Eq)]
pub struct Rectangle {
    pub top_left: Point,
    pub bottom_right: Point,
    pub center: Option<Point>,
}

/// Integer division rounding toward zero, as Rust's `/` does.
pub open spec fn div_toward_zero(n: int, d: int) -> int {
    if n >= 0 {
        n / d
    } else {
        -((-n) / d)
    }
}

pub open spec fn rect_width(r: Rectangle) -> int {
    r.bottom_right.x - r.top_left.x
}

pub open spec fn rect_height(r: Rectangle) -> int {
    r.bottom_right.y - r.top_left.y
}

/// Width of one grid cell: a third of the width, truncated.
pub open spec fn cell_width(r: Rectangle) -> int {
    rect_width(r) / 3
}

pub open spec fn cell_height(r: Rectangle) -> int {
    rect_height(r) / 3
}

pub open spec fn cell_left(r: Rectangle, col: int) -> int {
    r.top_left.x + col * cell_width(r)
}

pub open spec fn cell_top(r: Rectangle, row: int) -> int {
    r.top_left.y + row * cell_height(r)
}

pub open spec fn cell_center_x(r: Rectangle, col: int) -> int {
    div_toward_zero(cell_left(r, col) + cell_left(r, col) + cell_width(r), 2)
}

pub open spec fn cell_center_y(r: Rectangle, row: int) -> int {
    div_toward_zero(cell_top(r, row) + cell_top(r, row) + cell_height(r), 2)
}

/// `cell` is the grid cell of `bounds` at `row`, `col`, with its center.
pub open spec fn is_grid_cell(cell: Rectangle, bounds: Rectangle, row: int, col: int) -> bool {
    &&& cell.top_left.x == cell_left(bounds, col)
    &&& cell.top_left.y == cell_top(bounds, row)
    &&& cell.bottom_right.x == cell_left(bounds, col) + cell_width(bounds)
    &&& cell.bottom_right.y == cell_top(bounds, row) + cell_height(bounds)
    &&& cell.center matches Some(c) && c.x == cell_center_x(bounds, col) && c.y
        == cell_center_y(bounds, row)
}

pub open spec fn is_grid(g: Seq<Vec<Rectangle>>, bounds: Rectangle) -> bool {
    &&& g.len() == 3
    &&& forall|row: int| 0 <= row < 3 ==> (#[trigger] g[row])@.len() == 3
    &&& forall|row: int, col: int|
        0 <= row < 3 && 0 <= col < 3 ==> is_grid_cell(g[row]@[col], bounds, row, col)
}

fn div_toward_zero_of(n: i64, d: i64) -> (r: i64)
    requires
        d > 0,
        n > i64::MIN,
    ensures
        r == div_toward_zero(n as int, d as int),
{
    if n >= 0 {
        n / d
    } else {
        -((-n) / d)
    }
}

impl Rectangle {
    pub fn new(top_left: Point, bottom_right: Point, center: Option<Point>) -> (r: Rectangle)
        ensures
            r == (Rectangle { top_left, bottom_right, center }),
    {
        Rectangle { top_left, bottom_right, center }
    }

    pub fn width(&self) -> (r: i32)
        requires
            i32::MIN <= rect_width(*self) <= i32::MAX,
        ensures
            r == rect_width(*self),
    {
        self.bottom_right.x - self.top_left.x
    }

    pub fn height(&self) -> (r: i32)
        requires
            i32::MIN <= rect_height(*self) <= i32::MAX,
        ensures
            r == rect_height(*self),
    {
        self.bottom_right.y - self.top_left.y
    }

    /// The cell at `row`, `col` of this rectangle's grid.
    fn grid_cell(&self, row: i64, col: i64, cw: i64, ch: i64) -> (r: Rectangle)
        requires
            0 <= row < 3,
            0 <= col < 3,
            rect_width(*self) > 0,
            rect_height(*self) > 0,
            cw == cell_width(*self),
            ch == cell_height(*self),
        ensures
            is_grid_cell(r, *self, row as int, col as int),
    {
        assert(0 <= col * cw <= 2 * cw) by (nonlinear_arith)
            requires
                0 <= col < 3,
                cw >= 0,
        ;
        assert(0 <= row * ch <= 2 * ch) by (nonlinear_arith)
            requires
                0 <= row < 3,
                ch >= 0,
        ;
        let tl_x: i64 = self.top_left.x as i64 + col * cw;
        let tl_y: i64 = self.top_left.y as i64 + row * ch;
        let br_x: i64 = tl_x + cw;
        let br_y: i64 = tl_y + ch;
        let center_x = div_toward_zero_of(tl_x + br_x, 2);
        let center_y = div_toward_zero_of(tl_y + br_y, 2);
        Rectangle {
            top_left: Point { x: tl_x as i32, y: tl_y as i32 },
            bottom_right: Point { x: br_x as i32, y: br_y as i32 },
            center: Some(Point { x: center_x as i32, y: center_y as i32 }),
        }
    }

    /// Splits this rectangle into a 3×3 grid of equal cells, row by row, each
    /// with its center. A rectangle without extent, or a screen too small to
    /// map points onto the input device (under two pixels on a side), is
    /// refused before any cell is computed.
    pub fn grid_positions(&self, screen_size: Point) -> (r: Result<Vec<Vec<Rectangle>>, SlideError>)
        ensures
            r is Err <==> rect_width(*self) <= 0 || rect_height(*self) <= 0 || screen_size.x < 2
                || screen_size.y < 2,
            r matches Err(e) ==> e == SlideError::DegenerateGeometry,
            r matches Ok(g) ==> is_grid(g@, *self),
    {
        let w: i64 = self.bottom_right.x as i64 - self.top_left.x as i64;
        let h: i64 = self.bottom_right.y as i64 - self.top_left.y as i64;
        if w <= 0 || h <= 0 || screen_size.x < 2 || screen_size.y < 2 {
            return Err(SlideError::DegenerateGeometry);
        }
        let cw: i64 = w / 3;
        let ch: i64 = h / 3;
        let mut positions: Vec<Vec<Rectangle>> = Vec::new();
        let mut row: i64 = 0;
        while row < 3
            invariant
                0 <= row <= 3,
                positions@.len() == row,
                rect_width(*self) > 0,
                rect_height(*self) > 0,
                cw == cell_width(*self),
                ch == cell_height(*self),
                forall|i: int| 0 <= i < row ==> (#[trigger] positions@[i])@.len() == 3,
                forall|i: int, j: int|
                    0 <= i < row && 0 <= j < 3 ==> is_grid_cell(positions@[i]@[j], *self, i, j),
            decreases 3 - row,
        {
            let mut cells: Vec<Rectangle> = Vec::new();
            let mut col: i64 = 0;
            while col < 3
                invariant
                    0 <= row < 3,
                    0 <= col <= 3,
                    cells@.len() == col,
                    rect_width(*self) > 0,
                    rect_height(*self) > 0,
                    cw == cell_width(*self),
                    ch == cell_height(*self),
                    forall|j: int| 0 <= j < col ==> is_grid_cell(cells@[j], *self, row as int, j),
                decreases 3 - col,
            {
                cells.push(self.grid_cell(row, col, cw, ch));
                col = col + 1;
            }
            positions.push(cells);
            row = row + 1;
        }
        Ok(positions)
    }
}

/// The centers of a row of cells, in order.
pub open spec fn row_centers(row: Seq<Rectangle>) -> Seq<Point> {
    row.map_values(|cell: Rectangle| cell.center->Some_0)
}

/// The centers of the first `n` rows of cells, row by row.
pub open spec fn grid_centers(rows: Seq<Vec<Rectangle>>, n: int) -> Seq<Point>
    decreases n,
{
    if n <= 0 {
        seq![]
    } else {
        grid_centers(rows, n - 1) + row_centers(rows[n - 1]@)
    }
}

/// The centers of a grid of cells, row by row; in a 3×3 grid the center of
/// the cell at `row`, `col` comes at `3 * row + col`.
pub fn rect_to_points(positions: &Vec<Vec<Rectangle>>) -> (r: Vec<Point>)
    requires
        forall|row: int, col: int|
            0 <= row < positions@.len() && 0 <= col < positions@[row]@.len() ==> (
            #[trigger] positions@[row]@[col]).center is Some,
    ensures
        r@ == grid_centers(positions@, positions@.len() as int),
        positions@.len() == 3 && (forall|row: int|
            0 <= row < 3 ==> (#[trigger] positions@[row])@.len() == 3) ==> r@.len() == 9 && (
        forall|row: int, col: int|
            0 <= row < 3 && 0 <= col < 3 ==> positions@[row]@[col].center == Some(
                #[trigger] r@[3 * row + col],
            )),
{
    let mut points: Vec<Point> = Vec::new();
    let mut row: usize = 0;
    while row < positions.len()
        invariant
            row <= positions@.len(),
            points@ == grid_centers(positions@, row as int),
            forall|i: int, j: int|
                0 <= i < positions@.len() && 0 <= j < positions@[i]@.len() ==> (
                #[trigger] positions@[i]@[j]).center is Some,
        decreases positions@.len() - row,
    {
        let cells = &positions[row];
        let mut col: usize = 0;
        while col < cells.len()
            invariant
                row < positions@.len(),
                cells == positions@[row as int],
                col <= cells@.len(),
                points@ == grid_centers(positions@, row as int) + row_centers(
                    cells@.take(col as int),
                ),
                forall|i: int, j: int|
                    0 <= i < positions@.len() && 0 <= j < positions@[i]@.len() ==> (
                    #[trigger] positions@[i]@[j]).center is Some,
            decreases cells@.len() - col,
        {
            let center = match cells[col].center {
                Some(c) => c,
                None => Point { x: 0, y: 0 },
            };
            points.push(center);
            proof {
                assert(cells@.take(col + 1) =~= cells@.take(col as int).push(cells@[col as int]));
                assert(row_centers(cells@.take(col + 1)) =~= row_centers(
                    cells@.take(col as int),
                ).push(center));
                assert(points@ =~= grid_centers(positions@, row as int) + row_centers(
                    cells@.take(col + 1),
                ));
            }
            col = col + 1;
        }
        proof {
            assert(cells@.take(cells@.len() as int) =~= cells@);
        }
        row = row + 1;
    }
    proof {
        if positions@.len() == 3 && (forall|i: int|
            0 <= i < 3 ==> (#[trigger] positions@[i])@.len() == 3) {
            reveal_with_fuel(grid_centers, 4);
            let g = grid_centers(positions@, 3);
            assert(g =~= row_centers(positions@[0]@) + row_centers(positions@[1]@) + row_centers(
                positions@[2]@,
            ));
            assert forall|i: int, j: int| 0 <= i < 3 && 0 <= j < 3 implies positions@[i]@[j].center
                == Some(#[trigger] points@[3 * i + j]) by {
                assert(positions@[i]@[j].center is Some);
            }
        }
    }
    points
}

/// For each state of a path, the point over the cell where its blank sits:
/// clicking there slides the matching tile on screen.
pub fn path_to_pos(path: &Vec<PuzzleState>, positions: &Vec<Vec<Point>>) -> (r: Vec<Point>)
    requires
        positions@.len() >= 3,
        forall|row: int| 0 <= row < 3 ==> (#[trigger] positions@[row])@.len() >= 3,
        forall|i: int| 0 <= i < path@.len() ==> has_blank((#[trigger] path@[i]).puzzle@),
    ensures
        r@.len() == path@.len(),
        forall|i: int|
            0 <= i < path@.len() ==> #[trigger] r@[i] == positions@[blank_index(
                path@[i].puzzle@,
            ) / 3]@[blank_index(path@[i].puzzle@) % 3],
{
    let mut points: Vec<Point> = Vec::new();
    let mut i: usize = 0;
    while i < path.len()
        invariant
            i <= path@.len(),
            points@.len() == i,
            positions@.len() >= 3,
            forall|row: int| 0 <= row < 3 ==> (#[trigger] positions@[row])@.len() >= 3,
            forall|k: int| 0 <= k < path@.len() ==> has_blank((#[trigger] path@[k]).puzzle@),
            forall|k: int|
                0 <= k < i ==> #[trigger] points@[k] == positions@[blank_index(
                    path@[k].puzzle@,
                ) / 3]@[blank_index(path@[k].puzzle@) % 3],
        decreases path@.len() - i,
    {
        let (row, col) = path[i].find_empty();
        points.push(positions[row][col]);
        i = i + 1;
    }
    points
}

/// Largest value of the input device's absolute coordinates.
pub const INPUT_MAX: i64 = 65535;

pub open spec fn clamp_i32(v: int) -> int {
    if v < i32::MIN {
        i32::MIN as int
    } else if v > i32::MAX {
        i32::MAX as int
    } else {
        v
    }
}

/// Pixel coordinate `v` on an axis of `size` pixels, scaled to the device's
/// `0..=65535` range: `65535 * v / (size - 1)`, truncated toward zero.
pub open spec fn scale_to_input(v: int, size: int) -> int {
    clamp_i32(div_toward_zero(65535 * v, size - 1))
}

fn scale_to_input_of(v: i32, size: i32) -> (r: i32)
    requires
        size >= 2,
    ensures
        r == scale_to_input(v as int, size as int),
{
    let n: i64 = INPUT_MAX * (v as i64);
    let q = div_toward_zero_of(n, (size as i64) - 1);
    if q < i32::MIN as i64 {
        i32::MIN
    } else if q > i32::MAX as i64 {
        i32::MAX
    } else {
        q as i32
    }
}

/// Converts a pixel point on a screen of `screen_size` pixels into the input
/// device's absolute coordinates.
pub fn absolute_position(point: Point, screen_size: Point) -> (r: Result<Point, SlideError>)
    ensures
        r is Err <==> screen_size.x < 2 || screen_size.y < 2,
        r matches Err(e) ==> e == SlideError::DegenerateGeometry,
        r matches Ok(p) ==> p.x == scale_to_input(point.x as int, screen_size.x as int) && p.y
            == scale_to_input(point.y as int, screen_size.y as int),
{
    if screen_size.x < 2 || screen_size.y < 2 {
        return Err(SlideError::DegenerateGeometry);
    }
    Ok(
        Point {
            x: scale_to_input_of(point.x, screen_size.x),
            y: scale_to_input_of(point.y, screen_size.y),
        },
    )
}

proof fn lemma_div_toward_zero_half(a: int, b: int)
    requires
        a <= b,
    ensures
        div_toward_zero(a, 2) <= div_toward_zero(b, 2),
        a + 3 <= b ==> div_toward_zero(a, 2) < div_toward_zero(b, 2),
        a >= 0 && a + 2 <= b ==> div_toward_zero(a, 2) < div_toward_zero(b, 2),
{
}

/// Cell centers of a grid grow to the right across a row and downward along a
/// column; strictly once the side spans six pixels, or three where the
/// rectangle lies at nonnegative coordinates. The cells meet edge to
/// edge from the top-left corner, and at most two pixels are left uncovered
/// at the right and at the bottom.
pub proof fn lemma_grid_layout(g: Seq<Vec<Rectangle>>, bounds: Rectangle, row: int, col: int)
    requires
        is_grid(g, bounds),
        rect_width(bounds) > 0,
        rect_height(bounds) > 0,
        0 <= row < 3,
        0 <= col < 2,
    ensures
        g[row]@[col].center->Some_0.x <= g[row]@[col + 1].center->Some_0.x,
        rect_width(bounds) >= 6 || (rect_width(bounds) >= 3 && bounds.top_left.x >= 0)
            ==> g[row]@[col].center->Some_0.x < g[row]@[col + 1].center->Some_0.x,
        g[col]@[row].center->Some_0.y <= g[col + 1]@[row].center->Some_0.y,
        rect_height(bounds) >= 6 || (rect_height(bounds) >= 3 && bounds.top_left.y >= 0)
            ==> g[col]@[row].center->Some_0.y < g[col + 1]@[row].center->Some_0.y,
        g[row]@[col].bottom_right.x == g[row]@[col + 1].top_left.x,
        g[col]@[row].bottom_right.y == g[col + 1]@[row].top_left.y,
        g[row]@[0].top_left.x == bounds.top_left.x,
        g[0]@[row].top_left.y == bounds.top_left.y,
        bounds.bottom_right.x - 2 <= g[row]@[2].bottom_right.x <= bounds.bottom_right.x,
        bounds.bottom_right.y - 2 <= g[2]@[row].bottom_right.y <= bounds.bottom_right.y,
{
    let cw = cell_width(bounds);
    let ch = cell_height(bounds);
    lemma_mul_is_distributive_add_other_way(cw, col, 1);
    lemma_mul_is_distributive_add_other_way(ch, col, 1);
    assert(is_grid_cell(g[row]@[col], bounds, row, col));
    assert(is_grid_cell(g[row]@[col + 1], bounds, row, col + 1));
    assert(is_grid_cell(g[col]@[row], bounds, col, row));
    assert(is_grid_cell(g[col + 1]@[row], bounds, col + 1, row));
    assert(is_grid_cell(g[row]@[0], bounds, row, 0));
    assert(is_grid_cell(g[0]@[row], bounds, 0, row));
    assert(is_grid_cell(g[row]@[2], bounds, row, 2));
    assert(is_grid_cell(g[2]@[row], bounds, 2, row));
    let lx = cell_left(bounds, col);
    let ty = cell_top(bounds, col);
    lemma_div_toward_zero_half(lx + lx + cw, lx + cw + lx + cw + cw);
    lemma_div_toward_zero_half(ty + ty + ch, ty + ch + ty + ch + ch);
    assert(rect_width(bounds) >= 3 ==> cw >= 1);
    assert(rect_height(bounds) >= 3 ==> ch >= 1);
    assert(rect_width(bounds) >= 6 ==> cw >= 2);
    assert(rect_height(bounds) >= 6 ==> ch >= 2);
    assert(bounds.top_left.x >= 0 ==> lx >= 0) by {
        assert(col * cw >= 0) by (nonlinear_arith)
            requires
                col >= 0,
                cw >= 0,
        ;
    }
    assert(bounds.top_left.y >= 0 ==> ty >= 0) by {
        assert(col * ch >= 0) by (nonlinear_arith)
            requires
                col >= 0,
                ch >= 0,
        ;
    }
}

proof fn lemma_div_toward_zero_ordered(a: int, b: int, d: int)
    requires
        a <= b,
        d > 0,
    ensures
        div_toward_zero(a, d) <= div_toward_zero(b, d),
{
    if a >= 0 {
        lemma_div_is_ordered(a, b, d);
    } else if b >= 0 {
        lemma_div_is_ordered(0, -a, d);
        lemma_div_is_ordered(0, b, d);
    } else {
        lemma_div_is_ordered(-b, -a, d);
    }
}

/// Scaling to device coordinates keeps the order of pixel coordinates, sends
/// the first pixel to 0 and the last pixel, `size - 1`, to 65535.
pub proof fn lemma_scale_to_input(a: int, b: int, size: int)
    requires
        a <= b,
        size >= 2,
    ensures
        scale_to_input(a, size) <= scale_to_input(b, size),
        scale_to_input(0, size) == 0,
        scale_to_input(size - 1, size) == 65535,
{
    lemma_div_toward_zero_ordered(65535 * a, 65535 * b, size - 1);
    lemma_div_by_multiple(65535, size - 1);
    assert(65535 * (size - 1) == (size - 1) * 65535) by (nonlinear_arith);
}

} // verus!
