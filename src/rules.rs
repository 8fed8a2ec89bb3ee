//! The mathematical model of the game: grids as sequences of rows, and the
//! moves, jumps and capture chains that the engine computes.
use vstd::prelude::*;

use crate::cell::Cell;
use crate::checker::Checker;
use crate::point::{abs, sign, Point};
use crate::turn::Turn;

verus! {

/// The number of rows and of columns of the board.
pub const BOARD_SIZE: usize = 8;

/// Whether `(x, y)` lies on the board.
pub open spec fn on_board(x: int, y: int) -> bool {
    0 <= x < 8 && 0 <= y < 8
}

pub open spec fn on_board_point(p: Point) -> bool {
    on_board(p.x as int, p.y as int)
}

/// A grid is eight rows of eight cells; `g[y][x]` is column `x` of row `y`.
pub open spec fn grid_wf(g: Seq<Seq<Cell>>) -> bool {
    g.len() == 8 && forall|y: int| 0 <= y < 8 ==> #[trigger] g[y].len() == 8
}

pub open spec fn cell_at(g: Seq<Seq<Cell>>, p: Point) -> Cell {
    g[p.y as int][p.x as int]
}

/// A marker becomes an empty square; anything else stays.
pub open spec fn cleared(c: Cell) -> Cell {
    if c.spec_is_move() {
        Cell::Empty
    } else {
        c
    }
}

/// The grid with every marker removed.
pub open spec fn clear_grid(g: Seq<Seq<Cell>>) -> Seq<Seq<Cell>> {
    Seq::new(8, |y: int| Seq::new(8, |x: int| cleared(g[y][x])))
}

/// Whether the grid holds no marker.
pub open spec fn no_markers(g: Seq<Seq<Cell>>) -> bool {
    forall|y: int, x: int| on_board(x, y) ==> !(#[trigger] g[y][x]).spec_is_move()
}

/// The coordinate `k` steps from `p` in direction `d` (which is 1 or -1).
pub open spec fn along(p: int, d: int, k: int) -> int {
    if d > 0 {
        p + k
    } else {
        p - k
    }
}

/// The cell `k` steps from `from` along the diagonal `(dx, dy)`.
pub open spec fn ray(g: Seq<Seq<Cell>>, from: Point, dx: int, dy: int, k: int) -> Cell {
    g[along(from.y as int, dy, k)][along(from.x as int, dx, k)]
}

/// The square `k` steps from `from` along the diagonal `(dx, dy)`.
pub open spec fn ray_pt(from: Point, dx: int, dy: int, k: int) -> Point {
    Point { x: along(from.x as int, dx, k) as i8, y: along(from.y as int, dy, k) as i8 }
}

/// The number of diagonal steps from `from` to `to`.
pub open spec fn dist(from: Point, to: Point) -> int {
    abs(to.x - from.x)
}

/// Whether `to` lies on one of the four diagonals through `from`, not at `from`.
pub open spec fn diagonal(from: Point, to: Point) -> bool {
    abs(to.x - from.x) == abs(to.y - from.y) && to.x != from.x
}

pub open spec fn dir_x(from: Point, to: Point) -> int {
    sign(to.x - from.x)
}

pub open spec fn dir_y(from: Point, to: Point) -> int {
    sign(to.y - from.y)
}

/// The row direction in which a man of this colour advances.
pub open spec fn forward(piece: Checker) -> int {
    if piece.spec_is_black() {
        1
    } else {
        -1
    }
}

/// The row on which a man of this colour is promoted.
pub open spec fn promotion_row(piece: Checker) -> int {
    if piece.spec_is_black() {
        7
    } else {
        0
    }
}

/// Whether the cell holds a piece of the other colour than `piece`.
pub open spec fn hostile(c: Cell, piece: Checker) -> bool {
    match c {
        Cell::Checker(q) => q.spec_is_enemy(piece),
        _ => false,
    }
}

/// A move without capture: a man steps to the empty square diagonally ahead;
/// a king slides any distance along a diagonal over empty squares.
pub open spec fn is_step(g: Seq<Seq<Cell>>, piece: Checker, from: Point, to: Point) -> bool {
    &&& on_board_point(to)
    &&& diagonal(from, to)
    &&& (piece.spec_is_queen() || (dist(from, to) == 1 && dir_y(from, to) == forward(piece)))
    &&& forall|k: int|
        1 <= k <= dist(from, to) ==> #[trigger] ray(g, from, dir_x(from, to), dir_y(from, to), k)
            == Cell::Empty
}

/// Step `k` of the way from `from` to `to` holds an enemy, and every other
/// square on the way, `to` included, is empty.
pub open spec fn jumps_over(g: Seq<Seq<Cell>>, piece: Checker, from: Point, to: Point, k: int) -> bool {
    &&& 1 <= k < dist(from, to)
    &&& hostile(ray(g, from, dir_x(from, to), dir_y(from, to), k), piece)
    &&& forall|j: int|
        1 <= j <= dist(from, to) && j != k ==> #[trigger] ray(
            g,
            from,
            dir_x(from, to),
            dir_y(from, to),
            j,
        ) == Cell::Empty
}

/// One jump: a man jumps an adjacent enemy to the empty square just beyond;
/// a king jumps the first piece on a diagonal, an enemy, and lands on any of
/// the empty squares that follow it.
pub open spec fn is_jump(g: Seq<Seq<Cell>>, piece: Checker, from: Point, to: Point) -> bool {
    &&& on_board_point(to)
    &&& diagonal(from, to)
    &&& (piece.spec_is_queen() || dist(from, to) == 2)
    &&& exists|k: int| jumps_over(g, piece, from, to, k)
}

/// A square that the piece on `from` looks at along a diagonal: for a man,
/// each diagonal neighbour; for a king, each empty square of a diagonal up to
/// the first piece on it, and that piece's square.
pub open spec fn is_neighbour(g: Seq<Seq<Cell>>, from: Point, to: Point) -> bool {
    &&& on_board_point(to)
    &&& diagonal(from, to)
    &&& if cell_at(g, from).spec_is_queen() {
        &&& forall|k: int|
            1 <= k < dist(from, to) ==> #[trigger] ray(g, from, dir_x(from, to), dir_y(from, to), k)
                == Cell::Empty
        &&& (cell_at(g, to) == Cell::Empty || cell_at(g, to) is Checker)
    } else {
        dist(from, to) == 1
    }
}

/// Whether square `(x, y)` is one of the first `n` squares on the way from
/// `from` towards `to`, `from` counted as the first.
pub open spec fn within(from: Point, to: Point, x: int, y: int, n: int) -> bool {
    let t = if dir_x(from, to) > 0 {
        x - from.x
    } else {
        from.x - x
    };
    0 <= t < n && y == along(from.y as int, dir_y(from, to), t)
}

/// Whether square `(x, y)` lies on the way from `from` to `to`, `from`
/// included and `to` excluded.
pub open spec fn on_segment(from: Point, to: Point, x: int, y: int) -> bool {
    within(from, to, x, y, dist(from, to))
}

/// The piece on `from` moves to `to`; every square on the way is emptied.
pub open spec fn slide(g: Seq<Seq<Cell>>, from: Point, to: Point) -> Seq<Seq<Cell>> {
    Seq::new(
        8,
        |y: int|
            Seq::new(
                8,
                |x: int|
                    if x == to.x && y == to.y {
                        cell_at(g, from)
                    } else if on_segment(from, to, x, y) {
                        Cell::Empty
                    } else {
                        g[y][x]
                    },
            ),
    )
}

/// `rest` lists the landing squares of a chain of jumps that `piece`, standing
/// on `from`, can make one after the other; each jump removes the enemy it
/// passes over before the next is tried.
pub open spec fn is_chain(g: Seq<Seq<Cell>>, piece: Checker, from: Point, rest: Seq<Point>) -> bool
    decreases rest.len(),
{
    if rest.len() == 0 {
        true
    } else {
        is_jump(g, piece, from, rest[0]) && is_chain(
            slide(g, from, rest[0]),
            piece,
            rest[0],
            rest.drop_first(),
        )
    }
}

/// The grid after the piece on `from` has made the jumps to each square of `rest`.
pub open spec fn replay(g: Seq<Seq<Cell>>, from: Point, rest: Seq<Point>) -> Seq<Seq<Cell>>
    decreases rest.len(),
{
    if rest.len() == 0 {
        g
    } else {
        replay(slide(g, from, rest[0]), rest[0], rest.drop_first())
    }
}

/// The piece on `start`, if any.
pub open spec fn piece_at(g: Seq<Seq<Cell>>, start: Point) -> Checker {
    match cell_at(g, start) {
        Cell::Checker(p) => p,
        _ => Checker::White,
    }
}

/// `r` is a capture route from `start`: `start` itself, followed by the
/// landing squares of a chain of jumps of the piece standing there.
pub open spec fn is_capture_route(g: Seq<Seq<Cell>>, start: Point, r: Seq<Point>) -> bool {
    &&& r.len() >= 1
    &&& r[0] == start
    &&& (r.len() == 1 || (cell_at(g, start) is Checker && is_chain(
        g,
        piece_at(g, start),
        start,
        r.drop_first(),
    )))
}

/// `rest` is a chain of jumps of the piece on `from` that ends on `to`, and
/// no such chain makes fewer jumps.
pub open spec fn shortest_chain_to(g: Seq<Seq<Cell>>, from: Point, to: Point, rest: Seq<Point>) -> bool {
    &&& is_chain(g, piece_at(g, from), from, rest)
    &&& rest.len() >= 1
    &&& rest.last() == to
    &&& forall|other: Seq<Point>|
        #[trigger] is_chain(g, piece_at(g, from), from, other) && other.len() >= 1 && other.last()
            == to ==> rest.len() <= other.len()
}

/// The side to move has a piece on `from`.
pub open spec fn can_move(g: Seq<Seq<Cell>>, turn: Turn, from: Point) -> bool {
    &&& on_board_point(from)
    &&& cell_at(g, from) is Checker
    &&& turn.owns(piece_at(g, from))
}

/// `to` is an empty square where some capture route from `from` ends.
pub open spec fn capture_dest(g: Seq<Seq<Cell>>, from: Point, to: Point) -> bool {
    &&& on_board_point(to)
    &&& cell_at(g, to) == Cell::Empty
    &&& exists|r: Seq<Point>| #[trigger]
        is_capture_route(g, from, r) && r.len() >= 2 && r.last() == to
}

/// `to` is reached from `from` by a move without capture.
pub open spec fn step_dest(g: Seq<Seq<Cell>>, from: Point, to: Point) -> bool {
    is_step(g, piece_at(g, from), from, to)
}

/// What a legal-move query shows on `p`: a capture marker where a capture
/// ends, else a move marker where a plain move ends, else the square itself.
pub open spec fn marked(g: Seq<Seq<Cell>>, turn: Turn, from: Point, p: Point) -> Cell {
    if can_move(g, turn, from) && capture_dest(g, from, p) {
        Cell::Capture
    } else if can_move(g, turn, from) && step_dest(g, from, p) {
        Cell::Move
    } else {
        cell_at(g, p)
    }
}

/// A man on its promotion row becomes a king.
pub open spec fn promoted(c: Cell, y: int) -> Cell {
    match c {
        Cell::Checker(Checker::White) => if y == 0 {
            Cell::Checker(Checker::WhiteQueen)
        } else {
            c
        },
        Cell::Checker(Checker::Black) => if y == 7 {
            Cell::Checker(Checker::BlackQueen)
        } else {
            c
        },
        _ => c,
    }
}

/// The grid with the piece on `p` promoted if it stands on its promotion row.
pub open spec fn promote_at(g: Seq<Seq<Cell>>, p: Point) -> Seq<Seq<Cell>> {
    g.update(p.y as int, g[p.y as int].update(p.x as int, promoted(cell_at(g, p), p.y as int)))
}

} // verus!
