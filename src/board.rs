use vstd::prelude::*;

use crate::cell::Cell;
use crate::checker::Checker;
use crate::point::Point;
use crate::rules::{
    cell_at, clear_grid, grid_wf, no_markers, on_board, on_board_point, promote_at, BOARD_SIZE,
};
use crate::turn::Turn;

verus! {

/// The grid of cells and the side to move.
#[derive(Debug, Clone)]
pub struct Board {
    pub size: usize,
    pub cells: Vec<Vec<Cell>>,
    pub turn: Turn,
}

/// The rows of cells as sequences.
pub open spec fn grid_of(cells: &Vec<Vec<Cell>>) -> Seq<Seq<Cell>> {
    cells@.map_values(|r: Vec<Cell>| r@)
}

/// The opening position: men on the dark squares (`x + y` odd) of the three
/// rows at each end, black on rows 0 to 2 and white on rows 5 to 7.
pub open spec fn initial_cell(x: int, y: int) -> Cell {
    if (x + y) % 2 == 1 && y < 3 {
        Cell::Checker(Checker::Black)
    } else if (x + y) % 2 == 1 && y > 4 {
        Cell::Checker(Checker::White)
    } else {
        Cell::Empty
    }
}

/// Writes `c` at column `x` of row `y`.
pub(crate) fn put(cells: &mut Vec<Vec<Cell>>, x: usize, y: usize, c: Cell)
    requires
        grid_wf(grid_of(old(cells))),
        x < 8,
        y < 8,
    ensures
        grid_of(final(cells)) == grid_of(old(cells)).update(
            y as int,
            grid_of(old(cells))[y as int].update(x as int, c),
        ),
        grid_wf(grid_of(final(cells))),
{
    let ghost g = grid_of(cells);
    assert(g[y as int] == cells@[y as int]@);
    cells[y][x] = c;
    proof {
        assert(grid_of(cells) =~~= g.update(y as int, g[y as int].update(x as int, c)));
    }
}

/// A copy of the rows.
pub(crate) fn copy_cells(cells: &Vec<Vec<Cell>>) -> (r: Vec<Vec<Cell>>)
    requires
        grid_wf(grid_of(cells)),
    ensures
        grid_of(&r) == grid_of(cells),
{
    let mut r: Vec<Vec<Cell>> = Vec::new();
    let mut y: usize = 0;
    while y < 8
        invariant
            y <= 8,
            grid_wf(grid_of(cells)),
            r@.len() == y,
            forall|i: int| 0 <= i < y ==> (#[trigger] r@[i])@ == cells@[i]@,
        decreases 8 - y,
    {
        let mut row: Vec<Cell> = Vec::new();
        let mut x: usize = 0;
        assert(grid_of(cells)[y as int] == cells@[y as int]@);
        while x < 8
            invariant
                x <= 8,
                y < 8,
                grid_wf(grid_of(cells)),
                cells@[y as int]@.len() == 8,
                row@ == cells@[y as int]@.subrange(0, x as int),
            decreases 8 - x,
        {
            assert(grid_of(cells)[y as int] == cells@[y as int]@);
            row.push(cells[y][x]);
            x += 1;
        }
        assert(row@ =~= cells@[y as int]@);
        r.push(row);
        y += 1;
    }
    assert(grid_of(&r) =~~= grid_of(cells));
    r
}

impl Board {
    pub open spec fn grid(&self) -> Seq<Seq<Cell>> {
        grid_of(&self.cells)
    }

    /// An eight by eight grid.
    pub open spec fn wf(&self) -> bool {
        self.size == BOARD_SIZE && grid_wf(self.grid())
    }

    /// The opening position, white to move.
    pub fn new() -> (r: Board)
        ensures
            r.wf(),
            r.turn == Turn::White,
            forall|y: int, x: int| on_board(x, y) ==> #[trigger] r.grid()[y][x] == initial_cell(x, y),
    {
        let mut cells: Vec<Vec<Cell>> = Vec::new();
        let mut i: usize = 0;
        while i < BOARD_SIZE
            invariant
                i <= 8,
                cells@.len() == i,
                forall|y: int| 0 <= y < i ==> (#[trigger] cells@[y])@.len() == 8,
                forall|y: int, x: int|
                    0 <= y < i && 0 <= x < 8 ==> #[trigger] cells@[y]@[x] == initial_cell(x, y),
            decreases 8 - i,
        {
            let mut row: Vec<Cell> = Vec::new();
            let mut j: usize = 0;
            while j < BOARD_SIZE
                invariant
                    j <= 8,
                    i < 8,
                    row@.len() == j,
                    forall|x: int| 0 <= x < j ==> #[trigger] row@[x] == initial_cell(x, i as int),
                decreases 8 - j,
            {
                let cell = if (i + j) % 2 != 0 && i < 3 {
                    Cell::Checker(Checker::Black)
                } else if (i + j) % 2 != 0 && i > 4 {
                    Cell::Checker(Checker::White)
                } else {
                    Cell::Empty
                };
                row.push(cell);
                j += 1;
            }
            cells.push(row);
            i += 1;
        }
        Board { size: BOARD_SIZE, cells, turn: Turn::White }
    }

    /// Every square with what it holds, row by row.
    pub fn iter(&self) -> (r: Vec<(Point, Cell)>)
        requires
            self.wf(),
        ensures
            r@.len() == 64,
            forall|y: int, x: int|
                on_board(x, y) ==> #[trigger] r@[8 * y + x] == (
                Point { x: x as i8, y: y as i8 },
                self.grid()[y][x],
            ),
    {
        let mut r: Vec<(Point, Cell)> = Vec::new();
        let mut y: i8 = 0;
        while y < 8
            invariant
                0 <= y <= 8,
                self.wf(),
                r@.len() == 8 * y,
                forall|yy: int, x: int|
                    0 <= yy < y && 0 <= x < 8 ==> #[trigger] r@[8 * yy + x] == (
                    Point { x: x as i8, y: yy as i8 },
                    self.grid()[yy][x],
                ),
            decreases 8 - y,
        {
            let mut x: i8 = 0;
            while x < 8
                invariant
                    0 <= x <= 8,
                    0 <= y < 8,
                    self.wf(),
                    r@.len() == 8 * y + x,
                    forall|yy: int, xx: int|
                        0 <= yy < y && 0 <= xx < 8 ==> #[trigger] r@[8 * yy + xx] == (
                        Point { x: xx as i8, y: yy as i8 },
                        self.grid()[yy][xx],
                    ),
                    forall|xx: int|
                        0 <= xx < x ==> #[trigger] r@[8 * y + xx] == (
                        Point { x: xx as i8, y: y },
                        self.grid()[y as int][xx],
                    ),
                decreases 8 - x,
            {
                let point = Point { x, y };
                r.push((point, *self.get_cell(point)));
                x += 1;
            }
            y += 1;
        }
        r
    }

    /// Promotes the man on `point` if it stands on its promotion row.
    pub fn check_promotion(&mut self, point: Point)
        requires
            old(self).wf(),
            on_board_point(point),
        ensures
            final(self).wf(),
            final(self).turn == old(self).turn,
            final(self).grid() == promote_at(old(self).grid(), point),
    {
        let ghost g = self.grid();
        let cell = *self.get_cell(point);
        let white_promotion_row: i8 = 0;
        let black_promotion_row: i8 = (self.size - 1) as i8;
        let promote = match cell {
            Cell::Checker(Checker::White) => point.y == white_promotion_row,
            Cell::Checker(Checker::Black) => point.y == black_promotion_row,
            _ => false,
        };
        if promote {
            self.set_cell(point, cell.promote());
        }
        proof {
            assert(self.grid() =~~= promote_at(g, point));
        }
    }

    pub fn set_cell(&mut self, point: Point, cell: Cell)
        requires
            old(self).wf(),
            on_board_point(point),
        ensures
            final(self).wf(),
            final(self).turn == old(self).turn,
            final(self).grid() == old(self).grid().update(
                point.y as int,
                old(self).grid()[point.y as int].update(point.x as int, cell),
            ),
    {
        put(&mut self.cells, point.x as usize, point.y as usize, cell);
    }

    pub fn get_cell(&self, point: Point) -> (r: &Cell)
        requires
            self.wf(),
            on_board_point(point),
        ensures
            *r == cell_at(self.grid(), point),
    {
        &self.cells[point.y as usize][point.x as usize]
    }

    /// A copy of the board with every marker removed.
    pub fn clear_moves(&self) -> (r: Board)
        requires
            self.wf(),
        ensures
            r.wf(),
            r.turn == self.turn,
            r.grid() == clear_grid(self.grid()),
            no_markers(r.grid()),
    {
        let mut cells: Vec<Vec<Cell>> = Vec::new();
        let mut y: usize = 0;
        while y < 8
            invariant
                y <= 8,
                self.wf(),
                cells@.len() == y,
                forall|i: int| 0 <= i < y ==> (#[trigger] cells@[i])@ == clear_grid(self.grid())[i],
            decreases 8 - y,
        {
            let mut row: Vec<Cell> = Vec::new();
            let mut x: usize = 0;
            while x < 8
                invariant
                    x <= 8,
                    y < 8,
                    self.wf(),
                    row@ == clear_grid(self.grid())[y as int].subrange(0, x as int),
                decreases 8 - x,
            {
                let c = self.cells[y][x];
                row.push(if c.is_move() { Cell::Empty } else { c });
                assert(row@ =~= clear_grid(self.grid())[y as int].subrange(0, x + 1));
                x += 1;
            }
            assert(row@ =~= clear_grid(self.grid())[y as int]);
            cells.push(row);
            y += 1;
        }
        let r = Board { size: self.size, cells, turn: self.turn };
        assert(r.grid() =~~= clear_grid(self.grid()));
        r
    }
}

impl Default for Board {
    /// An empty board, white to move.
    fn default() -> (r: Board)
        ensures
            r.wf(),
            r.turn == Turn::White,
            forall|y: int, x: int| on_board(x, y) ==> #[trigger] r.grid()[y][x] == Cell::Empty,
    {
        let mut cells: Vec<Vec<Cell>> = Vec::new();
        let mut y: usize = 0;
        while y < BOARD_SIZE
            invariant
                y <= 8,
                cells@.len() == y,
                forall|i: int| 0 <= i < y ==> (#[trigger] cells@[i])@ == Seq::new(8, |x: int| Cell::Empty),
            decreases 8 - y,
        {
            let mut row: Vec<Cell> = Vec::new();
            let mut x: usize = 0;
            while x < BOARD_SIZE
                invariant
                    x <= 8,
                    row@ == Seq::new(x as nat, |i: int| Cell::Empty),
                decreases 8 - x,
            {
                row.push(Cell::Empty);
                assert(row@ =~= Seq::new((x + 1) as nat, |i: int| Cell::Empty));
                x += 1;
            }
            cells.push(row);
            y += 1;
        }
        Board { size: BOARD_SIZE, cells, turn: Turn::White }
    }
}

} // verus!
