//! Properties of the rules that hold of every board.
use vstd::prelude::*;

use crate::board::initial_cell;
use crate::cell::Cell;
use crate::checker::Checker;
use crate::point::Point;
use crate::rules::{
    along, can_move, capture_dest, cell_at, diagonal, dir_x, dir_y, dist, forward, grid_wf, hostile,
    is_capture_route, is_chain, is_jump, is_step, jumps_over, marked, on_board, on_board_point,
    piece_at, promote_at, promoted, promotion_row, ray, ray_pt, replay, shortest_chain_to, slide,
    step_dest,
};
use crate::turn::Turn;

verus! {

/// The number of cells equal to `c` among the first `n` cells of a row.
pub open spec fn count_in_row(row: Seq<Cell>, c: Cell, n: int) -> nat
    decreases n,
{
    if n <= 0 {
        0
    } else {
        count_in_row(row, c, n - 1) + if row[n - 1] == c {
            1nat
        } else {
            0nat
        }
    }
}

/// The number of cells equal to `c` among the first `n` rows.
pub open spec fn count_in_grid(g: Seq<Seq<Cell>>, c: Cell, n: int) -> nat
    decreases n,
{
    if n <= 0 {
        0
    } else {
        count_in_grid(g, c, n - 1) + count_in_row(g[n - 1], c, 8)
    }
}

/// The opening grid.
pub open spec fn opening() -> Seq<Seq<Cell>> {
    Seq::new(8, |y: int| Seq::new(8, |x: int| initial_cell(x, y)))
}

proof fn lemma_opening_row(y: int, c: Cell)
    requires
        0 <= y < 8,
    ensures
        count_in_row(opening()[y], c, 8) == if (c == Cell::Checker(Checker::Black) && y < 3) || (c
            == Cell::Checker(Checker::White) && y > 4) {
            4nat
        } else if c == Cell::Empty && (3 <= y <= 4) {
            8nat
        } else if c == Cell::Empty {
            4nat
        } else {
            0nat
        },
{
    let row = opening()[y];
    reveal_with_fuel(count_in_row, 9);
    assert(row[0] == initial_cell(0, y));
    assert(row[1] == initial_cell(1, y));
    assert(row[2] == initial_cell(2, y));
    assert(row[3] == initial_cell(3, y));
    assert(row[4] == initial_cell(4, y));
    assert(row[5] == initial_cell(5, y));
    assert(row[6] == initial_cell(6, y));
    assert(row[7] == initial_cell(7, y));
}

/// The opening position holds twelve men of each colour, each on a square
/// with `x + y` odd, black men on rows 0 to 2 and white men on rows 5 to 7,
/// and no king.
pub proof fn law_opening_position()
    ensures
        count_in_grid(opening(), Cell::Checker(Checker::Black), 8) == 12,
        count_in_grid(opening(), Cell::Checker(Checker::White), 8) == 12,
        forall|y: int, x: int|
            on_board(x, y) && (#[trigger] opening()[y][x]) is Checker ==> (x + y) % 2 == 1,
        forall|y: int, x: int|
            on_board(x, y) && #[trigger] opening()[y][x] == Cell::Checker(Checker::Black) ==> y < 3,
        forall|y: int, x: int|
            on_board(x, y) && #[trigger] opening()[y][x] == Cell::Checker(Checker::White) ==> y > 4,
        forall|y: int, x: int| on_board(x, y) ==> !(#[trigger] opening()[y][x]).spec_is_queen(),
{
    reveal_with_fuel(count_in_grid, 9);
    let b = Cell::Checker(Checker::Black);
    let w = Cell::Checker(Checker::White);
    lemma_opening_row(0, b);
    lemma_opening_row(1, b);
    lemma_opening_row(2, b);
    lemma_opening_row(3, b);
    lemma_opening_row(4, b);
    lemma_opening_row(5, b);
    lemma_opening_row(6, b);
    lemma_opening_row(7, b);
    lemma_opening_row(0, w);
    lemma_opening_row(1, w);
    lemma_opening_row(2, w);
    lemma_opening_row(3, w);
    lemma_opening_row(4, w);
    lemma_opening_row(5, w);
    lemma_opening_row(6, w);
    lemma_opening_row(7, w);
}

/// A man with no enemy on a diagonally adjacent square has no capture: the
/// legal-move query marks exactly the empty squares diagonally ahead of it.
pub proof fn law_man_without_adjacent_enemy(g: Seq<Seq<Cell>>, turn: Turn, from: Point)
    requires
        grid_wf(g),
        can_move(g, turn, from),
        !piece_at(g, from).spec_is_queen(),
        forall|dx: int, dy: int|
            (dx == 1 || dx == -1) && (dy == 1 || dy == -1) ==> !hostile(
                #[trigger] ray(g, from, dx, dy, 1),
                piece_at(g, from),
            ),
    ensures
        forall|p: Point|
            #[trigger] marked(g, turn, from, p) == if on_board_point(p) && diagonal(from, p) && dist(
                from,
                p,
            ) == 1 && dir_y(from, p) == forward(piece_at(g, from)) && cell_at(g, p) == Cell::Empty {
                Cell::Move
            } else {
                cell_at(g, p)
            },
{
    let piece = piece_at(g, from);
    assert forall|p: Point| #[trigger] marked(g, turn, from, p) == if on_board_point(p) && diagonal(
        from,
        p,
    ) && dist(from, p) == 1 && dir_y(from, p) == forward(piece) && cell_at(g, p) == Cell::Empty {
        Cell::Move
    } else {
        cell_at(g, p)
    } by {
        if capture_dest(g, from, p) {
            let rr = choose|rr: Seq<Point>| #[trigger]
                is_capture_route(g, from, rr) && rr.len() >= 2 && rr.last() == p;
            let t = rr.drop_first()[0];
            assert(is_jump(g, piece, from, t));
            let k = choose|k: int| jumps_over(g, piece, from, t, k);
            assert(k == 1);
            assert(!hostile(ray(g, from, dir_x(from, t), dir_y(from, t), 1), piece));
        }
        if on_board_point(p) && diagonal(from, p) && dist(from, p) == 1 {
            assert(ray(g, from, dir_x(from, p), dir_y(from, p), 1) == cell_at(g, p));
        }
    }
}

/// A man with an enemy on a diagonally adjacent square and an empty square
/// just beyond it has a capture landing there.
pub proof fn law_man_single_capture(g: Seq<Seq<Cell>>, turn: Turn, from: Point, beyond: Point)
    requires
        grid_wf(g),
        can_move(g, turn, from),
        !piece_at(g, from).spec_is_queen(),
        on_board_point(beyond),
        diagonal(from, beyond),
        dist(from, beyond) == 2,
        hostile(ray(g, from, dir_x(from, beyond), dir_y(from, beyond), 1), piece_at(g, from)),
        cell_at(g, beyond) == Cell::Empty,
    ensures
        marked(g, turn, from, beyond) == Cell::Capture,
{
    let piece = piece_at(g, from);
    assert(ray(g, from, dir_x(from, beyond), dir_y(from, beyond), 2) == cell_at(g, beyond));
    assert(jumps_over(g, piece, from, beyond, 1));
    let rr = seq![from, beyond];
    assert(rr.drop_first() =~= seq![beyond]);
    assert(seq![beyond].drop_first() =~= Seq::<Point>::empty());
    assert(is_jump(g, piece, from, beyond));
    assert(is_chain(slide(g, from, beyond), piece, beyond, Seq::<Point>::empty()));
    assert(is_chain(g, piece, from, seq![beyond]));
    assert(is_capture_route(g, from, rr));
    assert(capture_dest(g, from, beyond));
}

/// A king with an enemy on a diagonal, nothing between them, and empty
/// squares beyond it may land on any of those squares: each one is a
/// capture landing.
pub proof fn law_king_lands_anywhere_beyond(
    g: Seq<Seq<Cell>>,
    turn: Turn,
    from: Point,
    dx: int,
    dy: int,
    k: int,
    m: int,
)
    requires
        grid_wf(g),
        can_move(g, turn, from),
        piece_at(g, from).spec_is_queen(),
        dx == 1 || dx == -1,
        dy == 1 || dy == -1,
        1 <= k < m,
        on_board(along(from.x as int, dx, m), along(from.y as int, dy, m)),
        forall|j: int| 1 <= j <= m && j != k ==> #[trigger] ray(g, from, dx, dy, j) == Cell::Empty,
        hostile(ray(g, from, dx, dy, k), piece_at(g, from)),
    ensures
        marked(g, turn, from, ray_pt(from, dx, dy, m)) == Cell::Capture,
{
    let piece = piece_at(g, from);
    let t = ray_pt(from, dx, dy, m);
    assert(dist(from, t) == m);
    assert(dir_x(from, t) == dx);
    assert(dir_y(from, t) == dy);
    assert(ray(g, from, dx, dy, m) == cell_at(g, t));
    assert(jumps_over(g, piece, from, t, k));
    let rr = seq![from, t];
    assert(rr.drop_first() =~= seq![t]);
    assert(seq![t].drop_first() =~= Seq::<Point>::empty());
    assert(is_jump(g, piece, from, t));
    assert(is_chain(slide(g, from, t), piece, t, Seq::<Point>::empty()));
    assert(is_chain(g, piece, from, seq![t]));
    assert(is_capture_route(g, from, rr));
}

/// A square that the legal-move query leaves without a marker is no legal
/// destination: a move there changes neither the pieces nor the turn.
pub proof fn law_unmarked_destination(g: Seq<Seq<Cell>>, turn: Turn, from: Point, to: Point)
    requires
        !marked(g, turn, from, to).spec_is_move(),
    ensures
        !(can_move(g, turn, from) && (capture_dest(g, from, to) || step_dest(g, from, to))),
{
}

/// Promotion makes a king of a man on its promotion row, and a second
/// promotion changes nothing.
pub proof fn law_promotion(c: Cell, y: int)
    ensures
        promoted(promoted(c, y), y) == promoted(c, y),
        forall|q: Checker|
            c == Cell::Checker(q) && y == promotion_row(q) ==> #[trigger] promoted(c, y)
                == Cell::Checker(q.spec_promote()) && promoted(c, y).spec_is_queen(),
        c.spec_is_queen() ==> promoted(c, y) == c,
{
}

/// After a chain of jumps the moving piece stands on the last landing square.
pub proof fn lemma_replay_lands(g: Seq<Seq<Cell>>, piece: Checker, from: Point, rest: Seq<Point>)
    requires
        grid_wf(g),
        rest.len() >= 1,
        is_chain(g, piece, from, rest),
    ensures
        cell_at(replay(g, from, rest), rest.last()) == cell_at(g, from),
        grid_wf(replay(g, from, rest)),
    decreases rest.len(),
{
    let g2 = slide(g, from, rest[0]);
    if rest.len() == 1 {
        assert(rest.drop_first() =~= Seq::<Point>::empty());
    } else {
        lemma_replay_lands(g2, piece, rest[0], rest.drop_first());
    }
}

/// A capture or a plain move that ends on the mover's promotion row leaves
/// a king there.
pub proof fn law_promotion_on_arrival(g: Seq<Seq<Cell>>, from: Point, to: Point, rest: Seq<Point>)
    requires
        grid_wf(g),
        on_board_point(from),
        cell_at(g, from) is Checker,
        to.y == promotion_row(piece_at(g, from)),
        (rest.len() >= 1 && is_chain(g, piece_at(g, from), from, rest) && rest.last() == to) || (
        rest.len() == 0 && is_step(g, piece_at(g, from), from, to)),
    ensures
        rest.len() >= 1 ==> cell_at(promote_at(replay(g, from, rest), to), to).spec_is_queen(),
        rest.len() == 0 ==> cell_at(promote_at(slide(g, from, to), to), to).spec_is_queen(),
{
    if rest.len() >= 1 {
        lemma_replay_lands(g, piece_at(g, from), from, rest);
        crate::lemmas::lemma_chain_shape(g, piece_at(g, from), from, rest);
        let r = seq![from] + rest;
        assert(r[r.len() - 1] == to);
        assert(on_board_point(to));
        let x = replay(g, from, rest);
        assert(promote_at(x, to)[to.y as int][to.x as int] == promoted(cell_at(x, to), to.y as int));
    } else {
        let x = slide(g, from, to);
        assert(promote_at(x, to)[to.y as int][to.x as int] == promoted(cell_at(x, to), to.y as int));
    }
}

/// Two jumps in a row: an enemy beside `start`, the empty square `mid`
/// beyond it, a second enemy beside `mid` and the empty square `end` beyond
/// that one. Then `start`, `mid`, `end` is a capture route, `end` is a
/// capture landing, and playing that route empties the start square and both
/// enemies' squares and leaves the piece on `end`.
pub proof fn law_two_jump_chain(g: Seq<Seq<Cell>>, turn: Turn, start: Point, mid: Point, end: Point)
    requires
        grid_wf(g),
        can_move(g, turn, start),
        on_board_point(mid),
        on_board_point(end),
        diagonal(start, mid),
        dist(start, mid) == 2,
        diagonal(mid, end),
        dist(mid, end) == 2,
        end != start,
        hostile(ray(g, start, dir_x(start, mid), dir_y(start, mid), 1), piece_at(g, start)),
        cell_at(g, mid) == Cell::Empty,
        hostile(ray(g, mid, dir_x(mid, end), dir_y(mid, end), 1), piece_at(g, start)),
        cell_at(g, end) == Cell::Empty,
    ensures
        is_capture_route(g, start, seq![start, mid, end]),
        capture_dest(g, start, end),
        ({
            let x = replay(g, start, seq![mid, end]);
            &&& cell_at(x, end) == cell_at(g, start)
            &&& cell_at(x, start) == Cell::Empty
            &&& ray(x, start, dir_x(start, mid), dir_y(start, mid), 1) == Cell::Empty
            &&& ray(x, mid, dir_x(mid, end), dir_y(mid, end), 1) == Cell::Empty
        }),
{
    let piece = piece_at(g, start);
    let g1 = slide(g, start, mid);
    let g2 = slide(g1, mid, end);
    assert(ray(g, start, dir_x(start, mid), dir_y(start, mid), 2) == cell_at(g, mid));
    assert(jumps_over(g, piece, start, mid, 1));
    assert(is_jump(g, piece, start, mid));
    assert(cell_at(g1, end) == Cell::Empty);
    assert(ray(g1, mid, dir_x(mid, end), dir_y(mid, end), 1) == ray(g, mid, dir_x(mid, end), dir_y(mid, end), 1));
    assert(ray(g1, mid, dir_x(mid, end), dir_y(mid, end), 2) == cell_at(g1, end));
    assert(jumps_over(g1, piece, mid, end, 1));
    assert(is_jump(g1, piece, mid, end));
    assert(is_chain(g2, piece, end, Seq::<Point>::empty()));
    assert(seq![end].drop_first() =~= Seq::<Point>::empty());
    assert(is_chain(g1, piece, mid, seq![end]));
    assert(seq![mid, end].drop_first() =~= seq![end]);
    assert(is_chain(g, piece, start, seq![mid, end]));
    assert(seq![start, mid, end].drop_first() =~= seq![mid, end]);
    assert(is_capture_route(g, start, seq![start, mid, end]));
    assert(seq![start, mid, end].last() == end);
    assert(replay(g2, end, Seq::<Point>::empty()) == g2);
    assert(replay(g1, mid, seq![end]) == g2);
    assert(replay(g, start, seq![mid, end]) == g2);
}

/// For a man in the two-jump position above, when no enemy stands beside
/// `start` in the direction of the second jump unless both jumps go the same
/// way, the only chain with the fewest jumps that ends on `end` is `mid`,
/// `end`: the move to `end` plays exactly that chain, removing both enemies.
pub proof fn law_two_jump_chain_is_played(
    g: Seq<Seq<Cell>>,
    turn: Turn,
    start: Point,
    mid: Point,
    end: Point,
    rest: Seq<Point>,
)
    requires
        grid_wf(g),
        can_move(g, turn, start),
        !piece_at(g, start).spec_is_queen(),
        on_board_point(mid),
        on_board_point(end),
        diagonal(start, mid),
        dist(start, mid) == 2,
        diagonal(mid, end),
        dist(mid, end) == 2,
        end != start,
        hostile(ray(g, start, dir_x(start, mid), dir_y(start, mid), 1), piece_at(g, start)),
        cell_at(g, mid) == Cell::Empty,
        hostile(ray(g, mid, dir_x(mid, end), dir_y(mid, end), 1), piece_at(g, start)),
        cell_at(g, end) == Cell::Empty,
        (dir_x(mid, end) == dir_x(start, mid) && dir_y(mid, end) == dir_y(start, mid)) || !hostile(
            ray(g, start, dir_x(mid, end), dir_y(mid, end), 1),
            piece_at(g, start),
        ),
        shortest_chain_to(g, start, end, rest),
    ensures
        rest == seq![mid, end],
{
    let piece = piece_at(g, start);
    law_two_jump_chain(g, turn, start, mid, end);
    assert(seq![start, mid, end].drop_first() =~= seq![mid, end]);
    assert(is_chain(g, piece, start, seq![mid, end]));
    assert(rest.len() <= 2);
    let t = rest[0];
    assert(is_jump(g, piece, start, t));
    if rest.len() == 1 {
        assert(t == end);
        assert(false);
    } else {
        let g1 = slide(g, start, t);
        assert(is_chain(g1, piece, t, rest.drop_first()));
        assert(rest.drop_first()[0] == end);
        assert(is_jump(g1, piece, t, end));
        let k = choose|k: int| jumps_over(g, piece, start, t, k);
        assert(k == 1);
        assert(hostile(ray(g, start, dir_x(start, t), dir_y(start, t), 1), piece));
        assert(t == mid);
        assert(rest =~= seq![mid, end]);
    }
}

} // verus!
