//! Facts about the model that the engine's proofs rest on.
use vstd::prelude::*;

use crate::cell::Cell;
use crate::checker::Checker;
use crate::point::Point;
use crate::rules::{
    along, cell_at, clear_grid, diagonal, dir_x, dir_y, dist, grid_wf, hostile, is_chain,
    is_jump, jumps_over, no_markers, on_board, on_board_point, on_segment, promote_at, replay,
    slide,
};

verus! {

/// The number of enemies of `piece` among the first `n` cells of a row.
pub open spec fn row_hostiles(row: Seq<Cell>, piece: Checker, n: int) -> nat
    decreases n,
{
    if n <= 0 {
        0
    } else {
        row_hostiles(row, piece, n - 1) + if hostile(row[n - 1], piece) {
            1nat
        } else {
            0nat
        }
    }
}

/// The number of enemies of `piece` among the first `n` rows.
pub open spec fn hostiles(g: Seq<Seq<Cell>>, piece: Checker, n: int) -> nat
    decreases n,
{
    if n <= 0 {
        0
    } else {
        hostiles(g, piece, n - 1) + row_hostiles(g[n - 1], piece, 8)
    }
}

/// The number of enemies of `piece` on the board.
pub open spec fn hostile_count(g: Seq<Seq<Cell>>, piece: Checker) -> nat {
    hostiles(g, piece, 8)
}

proof fn lemma_row_fewer(r1: Seq<Cell>, r2: Seq<Cell>, piece: Checker, n: int, x0: int)
    requires
        forall|x: int| 0 <= x < n ==> (hostile(#[trigger] r2[x], piece) ==> hostile(r1[x], piece)),
    ensures
        row_hostiles(r2, piece, n) <= row_hostiles(r1, piece, n),
        0 <= x0 < n && hostile(r1[x0], piece) && !hostile(r2[x0], piece) ==> row_hostiles(
            r2,
            piece,
            n,
        ) < row_hostiles(r1, piece, n),
    decreases n,
{
    if n > 0 {
        lemma_row_fewer(r1, r2, piece, n - 1, x0);
    }
}

proof fn lemma_fewer(g1: Seq<Seq<Cell>>, g2: Seq<Seq<Cell>>, piece: Checker, n: int, x0: int, y0: int)
    requires
        n <= 8,
        forall|y: int, x: int|
            0 <= y < n && 0 <= x < 8 ==> (hostile(#[trigger] g2[y][x], piece) ==> hostile(
                g1[y][x],
                piece,
            )),
    ensures
        hostiles(g2, piece, n) <= hostiles(g1, piece, n),
        0 <= y0 < n && 0 <= x0 < 8 && hostile(g1[y0][x0], piece) && !hostile(g2[y0][x0], piece)
            ==> hostiles(g2, piece, n) < hostiles(g1, piece, n),
    decreases n,
{
    if n > 0 {
        lemma_fewer(g1, g2, piece, n - 1, x0, y0);
        assert forall|x: int| 0 <= x < 8 && hostile(#[trigger] g2[n - 1][x], piece) implies hostile(
            g1[n - 1][x],
            piece,
        ) by {}
        lemma_row_fewer(g1[n - 1], g2[n - 1], piece, 8, x0);
    }
}

/// The square `k` steps along the way from `from` to `to` is on the board.
pub proof fn lemma_between_on_board(from: Point, to: Point, k: int)
    requires
        on_board_point(from),
        on_board_point(to),
        diagonal(from, to),
        0 <= k <= dist(from, to),
    ensures
        on_board(
            along(from.x as int, dir_x(from, to), k),
            along(from.y as int, dir_y(from, to), k),
        ),
{
}

/// A jump leaves fewer enemies on the board, and the jumping piece on its landing square.
pub proof fn lemma_jump_captures(g: Seq<Seq<Cell>>, piece: Checker, from: Point, to: Point)
    requires
        grid_wf(g),
        on_board_point(from),
        cell_at(g, from) == Cell::Checker(piece),
        is_jump(g, piece, from, to),
    ensures
        grid_wf(slide(g, from, to)),
        cell_at(slide(g, from, to), to) == Cell::Checker(piece),
        hostile_count(slide(g, from, to), piece) < hostile_count(g, piece),
{
    let g2 = slide(g, from, to);
    let k = choose|k: int| jumps_over(g, piece, from, to, k);
    let dx = dir_x(from, to);
    let dy = dir_y(from, to);
    let x0 = along(from.x as int, dx, k);
    let y0 = along(from.y as int, dy, k);
    lemma_between_on_board(from, to, k);
    assert(on_segment(from, to, x0, y0));
    assert(g2[y0][x0] == Cell::Empty);
    assert(hostile(g[y0][x0], piece));
    assert forall|y: int, x: int|
        0 <= y < 8 && 0 <= x < 8 && hostile(#[trigger] g2[y][x], piece) implies hostile(
        g[y][x],
        piece,
    ) by {}
    lemma_fewer(g, g2, piece, 8, x0, y0);
}

/// The shape of a route: every square is on the board, and each step is diagonal.
pub open spec fn route_shape(r: Seq<Point>) -> bool {
    &&& forall|i: int| 0 <= i < r.len() ==> on_board_point(#[trigger] r[i])
    &&& forall|i: int| 1 <= i < r.len() ==> diagonal(r[i - 1], #[trigger] r[i])
}

/// A chain of jumps has the shape of a route.
pub proof fn lemma_chain_shape(g: Seq<Seq<Cell>>, piece: Checker, from: Point, rest: Seq<Point>)
    requires
        on_board_point(from),
        is_chain(g, piece, from, rest),
    ensures
        route_shape(seq![from] + rest),
    decreases rest.len(),
{
    let r = seq![from] + rest;
    if rest.len() > 0 {
        lemma_chain_shape(slide(g, from, rest[0]), piece, rest[0], rest.drop_first());
        let r2 = seq![rest[0]] + rest.drop_first();
        assert(r2 =~= rest);
        assert forall|i: int| 0 <= i < r.len() implies on_board_point(#[trigger] r[i]) by {
            if i > 0 {
                assert(r[i] == r2[i - 1]);
            }
        }
        assert forall|i: int| 1 <= i < r.len() implies diagonal(r[i - 1], #[trigger] r[i]) by {
            if i > 1 {
                assert(r[i] == r2[i - 1]);
                assert(r[i - 1] == r2[i - 2]);
            }
        }
    }
}

/// Replaying one more jump at the end of a route.
pub proof fn lemma_replay_push(g: Seq<Seq<Cell>>, from: Point, rest: Seq<Point>, p: Point)
    ensures
        replay(g, from, rest.push(p)) == slide(
            replay(g, from, rest),
            if rest.len() == 0 {
                from
            } else {
                rest.last()
            },
            p,
        ),
    decreases rest.len(),
{
    if rest.len() == 0 {
        assert(rest.push(p).drop_first() =~= Seq::<Point>::empty());
        assert(rest.push(p)[0] == p);
        assert(replay(slide(g, from, p), p, Seq::<Point>::empty()) == slide(g, from, p));
    } else {
        assert(rest.push(p)[0] == rest[0]);
        assert(rest.push(p).drop_first() =~= rest.drop_first().push(p));
        lemma_replay_push(slide(g, from, rest[0]), rest[0], rest.drop_first(), p);
        if rest.len() > 1 {
            assert(rest.drop_first().last() == rest.last());
        }
    }
}

/// Removing markers from a grid that holds none changes nothing.
pub proof fn lemma_clear_unmarked(g: Seq<Seq<Cell>>)
    requires
        grid_wf(g),
        no_markers(g),
    ensures
        clear_grid(g) == g,
{
    assert(clear_grid(g) =~~= g);
}

/// A step leaves no marker on an unmarked grid.
pub proof fn lemma_slide_unmarked(g: Seq<Seq<Cell>>, from: Point, to: Point)
    requires
        grid_wf(g),
        no_markers(g),
        on_board_point(from),
    ensures
        no_markers(slide(g, from, to)),
        grid_wf(slide(g, from, to)),
{
}

/// Promotion leaves no marker on an unmarked grid.
pub proof fn lemma_promote_unmarked(g: Seq<Seq<Cell>>, p: Point)
    requires
        grid_wf(g),
        no_markers(g),
        on_board_point(p),
    ensures
        no_markers(promote_at(g, p)),
        grid_wf(promote_at(g, p)),
{
    let g2 = promote_at(g, p);
    assert forall|y: int, x: int| on_board(x, y) implies !(#[trigger] g2[y][x]).spec_is_move() by {
        if y == p.y && x == p.x {
            assert(!g[y][x].spec_is_move());
        }
    }
}

/// Replaying jumps keeps an unmarked grid unmarked.
pub proof fn lemma_replay_unmarked(g: Seq<Seq<Cell>>, from: Point, rest: Seq<Point>)
    requires
        grid_wf(g),
        no_markers(g),
        on_board_point(from),
        route_shape(seq![from] + rest),
    ensures
        grid_wf(replay(g, from, rest)),
        no_markers(replay(g, from, rest)),
    decreases rest.len(),
{
    if rest.len() > 0 {
        let r = seq![from] + rest;
        assert(r[1] == rest[0]);
        assert(seq![rest[0]] + rest.drop_first() =~= r.drop_first());
        lemma_slide_unmarked(g, from, rest[0]);
        lemma_replay_unmarked(slide(g, from, rest[0]), rest[0], rest.drop_first());
    }
}

pub proof fn lemma_replay_step(g: Seq<Seq<Cell>>, route: Seq<Point>, i: int)
    requires
        1 <= i < route.len(),
    ensures
        replay(g, route[0], route.subrange(1, i + 1)) == slide(
            replay(g, route[0], route.subrange(1, i)),
            route[i - 1],
            route[i],
        ),
{
    let rest = route.subrange(1, i);
    lemma_replay_push(g, route[0], rest, route[i]);
    assert(rest.push(route[i]) =~= route.subrange(1, i + 1));
    if i > 1 {
        assert(rest.last() == route[i - 1]);
    }
}

} // verus!
