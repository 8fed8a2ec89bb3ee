//! The rules engine: legal moves, capture chains and move execution. Every
//! operation takes a board and returns a new one.
use vstd::prelude::*;

use crate::board::{copy_cells, grid_of, Board};
use crate::cell::Cell;
use crate::checker::Checker;
use crate::lemmas::{
    lemma_chain_shape, lemma_clear_unmarked, lemma_promote_unmarked, lemma_replay_step,
    lemma_replay_unmarked, lemma_slide_unmarked, route_shape,
};
use crate::point::Point;
use crate::route::Route;
use crate::rules::{
    can_move, capture_dest, cell_at, clear_grid, diagonal, dir_x, dir_y, dist, forward, grid_wf,
    is_capture_route, is_chain, is_neighbour, is_step, marked, no_markers, on_board_point,
    piece_at, promote_at, ray, replay, shortest_chain_to, slide, step_dest,
};
use crate::search::{
    by_depth, extends_chain, holds_route, lemma_contains_kept, scan_neighbours, search, slide_cells,
};

verus! {

/// Some route among the first `n` of `rs` makes at least one jump and ends on `p`.
pub open spec fn some_route_ends(rs: Seq<Route>, n: int, p: Point) -> bool {
    exists|m: int| 0 <= m < n && (#[trigger] rs[m])@.len() >= 2 && rs[m]@.last() == p
}

/// Why a move is refused.
#[derive(Debug, Clone, Copy, PartialEq, Eq, Structural)]
pub enum MoveError {
    /// The origin or the destination lies off the board.
    OutOfBounds,
    /// The origin holds no piece.
    NoPieceAtOrigin,
    /// The piece on the origin belongs to the side not to move.
    WrongTurn,
    /// No plain move and no capture route of that piece ends on the destination.
    IllegalDestination,
}

/// The rules engine. It holds no state.
pub struct Engine {}

impl Engine {
    /// The board after a move of the piece on `from` to `to`, for the side
    /// to move: a capture where a capture route ends on `to` (the whole
    /// chain is played, one with the fewest jumps), else a plain move. The
    /// result holds no markers, the piece is promoted if it ends on its
    /// promotion row, and the turn passes once. When no such move exists the
    /// board is returned without markers and with the same side to move.
    pub fn make_move(board: Board, from: Point, to: Point) -> (r: Board)
        requires
            board.wf(),
        ensures
            ({
                let g = clear_grid(board.grid());
                &&& r.wf()
                &&& no_markers(r.grid())
                &&& !(can_move(g, board.turn, from) && (capture_dest(g, from, to) || step_dest(
                    g,
                    from,
                    to,
                ))) ==> r.grid() == g && r.turn == board.turn
                &&& can_move(g, board.turn, from) && capture_dest(g, from, to) ==> {
                    &&& r.turn == board.turn.spec_next()
                    &&& exists|rest: Seq<Point>|
                        #[trigger] shortest_chain_to(g, from, to, rest) && r.grid() == promote_at(
                            replay(g, from, rest),
                            to,
                        )
                }
                &&& can_move(g, board.turn, from) && !capture_dest(g, from, to) && step_dest(
                    g,
                    from,
                    to,
                ) ==> r.turn == board.turn.spec_next() && r.grid() == promote_at(
                    slide(g, from, to),
                    to,
                )
            }),
    {
        let clean = board.clear_moves();
        let ghost g = clean.grid();
        let turn = board.turn;
        let annotated = Engine::with_legal_moves(board, from);
        if !to.valid() {
            proof {
                lemma_clear_unmarked(g);
            }
            return clean;
        }
        let to_cell = *annotated.get_cell(to);
        proof {
            lemma_clear_unmarked(g);
        }
        match to_cell {
            Cell::Move => {
                let mut moved = Engine::simple_capture(&clean, from, to);
                moved.check_promotion(to);
                moved.turn = turn.next();
                proof {
                    lemma_slide_unmarked(g, from, to);
                    lemma_promote_unmarked(slide(g, from, to), to);
                }
                moved
            },
            Cell::Capture => {
                let mut captured = Engine::capture(&clean, from, to);
                captured.turn = turn.next();
                captured
            },
            _ => clean,
        }
    }

    /// Whether `make_move` would play a move from `from` to `to`, and if not,
    /// the first reason in this order: a point off the board, no piece on
    /// the origin, a piece of the side not to move, a destination that no
    /// move of that piece reaches.
    pub fn validate_move(board: &Board, from: Point, to: Point) -> (r: Result<(), MoveError>)
        requires
            board.wf(),
        ensures
            ({
                let g = clear_grid(board.grid());
                &&& (r == Err::<(), MoveError>(MoveError::OutOfBounds)) <==> !(on_board_point(from)
                    && on_board_point(to))
                &&& (r == Err::<(), MoveError>(MoveError::NoPieceAtOrigin)) <==> (on_board_point(from)
                    && on_board_point(to) && !(cell_at(g, from) is Checker))
                &&& (r == Err::<(), MoveError>(MoveError::WrongTurn)) <==> (on_board_point(from)
                    && on_board_point(to) && cell_at(g, from) is Checker && !board.turn.owns(
                    piece_at(g, from),
                ))
                &&& (r == Err::<(), MoveError>(MoveError::IllegalDestination)) <==> (can_move(
                    g,
                    board.turn,
                    from,
                ) && on_board_point(to) && !capture_dest(g, from, to) && !step_dest(g, from, to))
                &&& r is Ok <==> (can_move(g, board.turn, from) && (capture_dest(g, from, to)
                    || step_dest(g, from, to)))
            }),
    {
        if !from.valid() || !to.valid() {
            return Err(MoveError::OutOfBounds);
        }
        let clean = board.clear_moves();
        let piece = match *clean.get_cell(from) {
            Cell::Checker(piece) => piece,
            _ => {
                return Err(MoveError::NoPieceAtOrigin);
            },
        };
        if !clean.turn.is_owner_of(piece) {
            return Err(MoveError::WrongTurn);
        }
        let annotated = Engine::with_legal_moves(clean, from);
        proof {
            lemma_clear_unmarked(clear_grid(board.grid()));
        }
        if annotated.get_cell(to).is_move() {
            Ok(())
        } else {
            proof {
                let g = clear_grid(board.grid());
                assert(!cell_at(g, to).spec_is_move());
            }
            Err(MoveError::IllegalDestination)
        }
    }

    /// The board without markers, then with a move marker on each square that
    /// the piece on `from` can reach by a plain move and a capture marker on
    /// each empty square where one of its capture routes ends. Nothing is
    /// marked unless `from` holds a piece of the side to move. Plain moves
    /// stay available beside captures.
    pub fn with_legal_moves(board: Board, from: Point) -> (r: Board)
        requires
            board.wf(),
        ensures
            r.wf(),
            r.turn == board.turn,
            forall|p: Point|
                on_board_point(p) ==> #[trigger] cell_at(r.grid(), p) == marked(
                    clear_grid(board.grid()),
                    board.turn,
                    from,
                    p,
                ),
    {
        let mut marked_board = board.clear_moves();
        let clean = board.clear_moves();
        let ghost g = clean.grid();
        if !from.valid() {
            return marked_board;
        }
        let piece = match *clean.get_cell(from) {
            Cell::Checker(piece) => piece,
            _ => {
                return marked_board;
            },
        };
        if !clean.turn.is_owner_of(piece) {
            return marked_board;
        }
        let queen = piece.is_queen();
        let forward_step: i8 = if piece.is_black() {
            1
        } else {
            -1
        };
        let neighbours = Engine::get_neighbours(&clean, from);
        let mut i: usize = 0;
        while i < neighbours.len()
            invariant
                i <= neighbours@.len(),
                clean.wf(),
                marked_board.wf(),
                marked_board.turn == board.turn,
                g == clean.grid(),
                no_markers(g),
                on_board_point(from),
                cell_at(g, from) == Cell::Checker(piece),
                queen == piece.spec_is_queen(),
                forward_step == forward(piece),
                forall|q: Point| #[trigger]
                    neighbours@.contains(q) <==> is_neighbour(g, from, q),
                forall|p: Point|
                    on_board_point(p) ==> #[trigger] cell_at(marked_board.grid(), p) == if is_step(
                        g,
                        piece,
                        from,
                        p,
                    ) && neighbours@.subrange(0, i as int).contains(p) {
                        Cell::Move
                    } else {
                        cell_at(g, p)
                    },
            decreases neighbours@.len() - i,
        {
            let q = neighbours[i];
            assert(neighbours@.contains(q));
            let ahead = q.y - from.y == forward_step;
            if clean.get_cell(q).is_empty() && (queen || ahead) {
                marked_board.set_cell(q, Cell::Move);
            }
            proof {
                assert(is_step(g, piece, from, q) <==> (cell_at(g, q) == Cell::Empty && (queen
                    || ahead))) by {
                    if cell_at(g, q) == Cell::Empty && (queen || ahead) {
                        assert forall|k: int| 1 <= k <= dist(from, q) implies #[trigger] ray(
                            g,
                            from,
                            dir_x(from, q),
                            dir_y(from, q),
                            k,
                        ) == Cell::Empty by {
                            if k == dist(from, q) {
                                assert(ray(g, from, dir_x(from, q), dir_y(from, q), k)
                                    == cell_at(g, q));
                            }
                        }
                    }
                    if is_step(g, piece, from, q) {
                        assert(ray(g, from, dir_x(from, q), dir_y(from, q), dist(from, q))
                            == cell_at(g, q));
                    }
                }
                assert forall|p: Point| on_board_point(p) implies #[trigger] cell_at(
                    marked_board.grid(),
                    p,
                ) == if is_step(g, piece, from, p) && neighbours@.subrange(0, i + 1).contains(p) {
                    Cell::Move
                } else {
                    cell_at(g, p)
                } by {
                    if neighbours@.subrange(0, i as int).contains(p) {
                        let k = choose|k: int| 0 <= k < i && #[trigger] neighbours@.subrange(0, i as int)[k] == p;
                        assert(neighbours@.subrange(0, i + 1)[k] == p);
                    }
                    if neighbours@.subrange(0, i + 1).contains(p) && p != q {
                        let k = choose|k: int| 0 <= k < i + 1 && #[trigger] neighbours@.subrange(0, i + 1)[k] == p;
                        assert(neighbours@.subrange(0, i as int)[k] == p);
                    }
                    if p == q {
                        assert(neighbours@.subrange(0, i + 1)[i as int] == q);
                    }
                }
            }
            i += 1;
        }
        proof {
            assert(neighbours@.subrange(0, neighbours@.len() as int) =~= neighbours@);
            assert forall|p: Point| #[trigger] is_step(g, piece, from, p) implies is_neighbour(g, from, p) by {
                if piece.spec_is_queen() {
                    assert(ray(g, from, dir_x(from, p), dir_y(from, p), dist(from, p))
                        == cell_at(g, p));
                }
            }
        }
        let routes = Engine::get_captures(&clean, from);
        proof {
            lemma_clear_unmarked(g);
        }
        let mut j: usize = 0;
        while j < routes.len()
            invariant
                j <= routes@.len(),
                clean.wf(),
                marked_board.wf(),
                marked_board.turn == board.turn,
                g == clean.grid(),
                no_markers(g),
                on_board_point(from),
                cell_at(g, from) == Cell::Checker(piece),
                forall|m: int| 0 <= m < routes@.len() ==> is_capture_route(g, from, #[trigger] routes@[m]@),
                forall|rr: Seq<Point>|
                    #[trigger] is_capture_route(g, from, rr) ==> exists|m: int|
                        0 <= m < routes@.len() && #[trigger] routes@[m]@ == rr,
                forall|p: Point|
                    on_board_point(p) ==> #[trigger] cell_at(marked_board.grid(), p) == if some_route_ends(
                        routes@,
                        j as int,
                        p,
                    ) && cell_at(g, p) == Cell::Empty {
                        Cell::Capture
                    } else if is_step(g, piece, from, p) {
                        Cell::Move
                    } else {
                        cell_at(g, p)
                    },
            decreases routes@.len() - j,
        {
            let route = &routes[j];
            let n = route.points.len();
            if n >= 2 {
                let last = route.points[n - 1];
                proof {
                    assert(is_capture_route(g, from, routes@[j as int]@));
                    lemma_chain_shape(g, piece, from, route@.drop_first());
                    assert(seq![from] + route@.drop_first() =~= route@);
                    assert(on_board_point(route@[n - 1]));
                }
                if clean.get_cell(last).is_empty() {
                    marked_board.set_cell(last, Cell::Capture);
                }
                proof {
                    assert(routes@[j as int]@.last() == last);
                }
            }
            proof {
                assert forall|p: Point| on_board_point(p) implies #[trigger] cell_at(
                    marked_board.grid(),
                    p,
                ) == if some_route_ends(routes@, j + 1, p) && cell_at(g, p) == Cell::Empty {
                    Cell::Capture
                } else if is_step(g, piece, from, p) {
                    Cell::Move
                } else {
                    cell_at(g, p)
                } by {
                    if some_route_ends(routes@, j + 1, p) && !some_route_ends(routes@, j as int, p) {
                        let m = choose|m: int|
                            0 <= m < j + 1 && (#[trigger] routes@[m])@.len() >= 2 && routes@[m]@.last() == p;
                        assert(m == j);
                    }
                    if some_route_ends(routes@, j as int, p) {
                        let m = choose|m: int|
                            0 <= m < j && (#[trigger] routes@[m])@.len() >= 2 && routes@[m]@.last() == p;
                        assert(some_route_ends(routes@, j + 1, p));
                    }
                }
            }
            j += 1;
        }
        proof {
            assert forall|p: Point| on_board_point(p) implies #[trigger] cell_at(marked_board.grid(), p)
                == marked(g, board.turn, from, p) by {
                assert(piece_at(g, from) == piece);
                if some_route_ends(routes@, routes@.len() as int, p) && cell_at(g, p) == Cell::Empty {
                    let m = choose|m: int|
                        0 <= m < routes@.len() && (#[trigger] routes@[m])@.len() >= 2 && routes@[m]@.last() == p;
                    assert(is_capture_route(g, from, routes@[m]@));
                    assert(capture_dest(g, from, p));
                }
                if capture_dest(g, from, p) {
                    let rr = choose|rr: Seq<Point>| #[trigger]
                        is_capture_route(g, from, rr) && rr.len() >= 2 && rr.last() == p;
                    let m = choose|m: int| 0 <= m < routes@.len() && #[trigger] routes@[m]@ == rr;
                    assert(some_route_ends(routes@, routes@.len() as int, p));
                }
            }
        }
        marked_board
    }

    /// Every capture route from `start` on the board without markers, by
    /// number of jumps: the route of `start` alone first, then every chain of
    /// jumps of the piece there, each jump removing the enemy it passes over.
    /// A man may capture in any of the four directions; it is not promoted
    /// during the chain.
    pub fn get_captures(board: &Board, start: Point) -> (r: Vec<Route>)
        requires
            board.wf(),
            on_board_point(start),
        ensures
            r@.len() >= 1,
            r@[0]@ == seq![start],
            forall|a: int, b: int| 0 <= a < b < r@.len() ==> r@[a]@.len() <= r@[b]@.len(),
            forall|i: int|
                0 <= i < r@.len() ==> is_capture_route(
                    clear_grid(board.grid()),
                    start,
                    #[trigger] r@[i]@,
                ),
            forall|rr: Seq<Point>|
                #[trigger] is_capture_route(clear_grid(board.grid()), start, rr) ==> exists|i: int|
                    0 <= i < r@.len() && #[trigger] r@[i]@ == rr,
    {
        let clean = board.clear_moves();
        let ghost g = clean.grid();
        let start_route = Route { points: vec![start] };
        let mut out: Vec<Route> = Vec::new();
        match *clean.get_cell(start) {
            Cell::Checker(piece) => {
                search(&clean.cells, piece, start, &start_route, &mut out);
                let sorted = by_depth(&out);
                proof {
                    assert(start_route@ =~= seq![start]);
                    assert forall|i: int| 0 <= i < out@.len() implies is_capture_route(
                        g,
                        start,
                        #[trigger] out@[i]@,
                    ) by {
                        assert(extends_chain(g, piece, start, seq![start], out@[i]@));
                        assert(out@[i]@[0] == out@[i]@.subrange(0, 1)[0]);
                        assert(out@[i]@.skip(1) =~= out@[i]@.drop_first());
                    }
                    assert forall|rr: Seq<Point>| #[trigger] is_capture_route(g, start, rr) implies exists|i: int|
                        0 <= i < out@.len() && #[trigger] out@[i]@ == rr by {
                        let rest = rr.drop_first();
                        if rr.len() == 1 {
                            assert(rest =~= Seq::<Point>::empty());
                        }
                        assert(is_chain(g, piece, start, rest));
                        assert(seq![start] + rest =~= rr);
                    }
                    assert forall|i: int| 0 <= i < sorted@.len() implies is_capture_route(
                        g,
                        start,
                        #[trigger] sorted@[i]@,
                    ) by {
                        assert(holds_route(out@, sorted@[i]@));
                        let j = choose|j: int| 0 <= j < out@.len() && (#[trigger] out@[j])@ == sorted@[i]@;
                        assert(is_capture_route(g, start, out@[j]@));
                    }
                    assert forall|rr: Seq<Point>| #[trigger] is_capture_route(g, start, rr) implies exists|i: int|
                        0 <= i < sorted@.len() && #[trigger] sorted@[i]@ == rr by {
                        let j = choose|j: int| 0 <= j < out@.len() && #[trigger] out@[j]@ == rr;
                        assert(holds_route(sorted@, out@[j]@));
                        let a = choose|a: int| 0 <= a < sorted@.len() && (#[trigger] sorted@[a])@ == out@[j]@;
                        assert(sorted@[a]@ == rr);
                    }
                    assert(holds_route(sorted@, out@[0]@));
                    let a = choose|a: int| 0 <= a < sorted@.len() && (#[trigger] sorted@[a])@ == out@[0]@;
                    assert(sorted@[0]@.len() <= 1);
                    assert(is_capture_route(g, start, sorted@[0]@));
                    assert(sorted@[0]@ =~= seq![start]);
                }
                sorted
            },
            _ => {
                out.push(start_route);
                proof {
                    assert(out@[0]@ =~= seq![start]);
                    assert forall|rr: Seq<Point>| #[trigger] is_capture_route(g, start, rr) implies exists|i: int|
                        0 <= i < out@.len() && #[trigger] out@[i]@ == rr by {
                        assert(rr =~= seq![start]);
                    }
                }
                out
            },
        }
    }

    /// The board without markers after the chain of jumps of a capture route
    /// from `from` that ends on `target`, one with the fewest jumps, with the
    /// piece promoted at the end if it stands on its promotion row; the board
    /// without markers and otherwise unchanged when no route ends there.
    pub fn capture(board: &Board, from: Point, target: Point) -> (r: Board)
        requires
            board.wf(),
            on_board_point(from),
        ensures
            ({
                let g = clear_grid(board.grid());
                &&& r.wf()
                &&& r.turn == board.turn
                &&& no_markers(r.grid())
                &&& (exists|rr: Seq<Point>|
                    #[trigger] is_capture_route(g, from, rr) && rr.len() >= 2 && rr.last() == target)
                    ==> exists|rest: Seq<Point>|
                    #[trigger] shortest_chain_to(g, from, target, rest) && r.grid() == promote_at(
                        replay(g, from, rest),
                        target,
                    )
                &&& !(exists|rr: Seq<Point>|
                    #[trigger] is_capture_route(g, from, rr) && rr.len() >= 2 && rr.last() == target)
                    ==> r.grid() == g
            }),
    {
        let board = board.clear_moves();
        let ghost g = board.grid();
        proof {
            lemma_clear_unmarked(g);
        }
        let routes = Engine::get_captures(&board, from);
        match Engine::find_route(&routes, target) {
            Some(i) => {
                let route = &routes[i];
                let ghost rest = route@.drop_first();
                proof {
                    assert(is_capture_route(g, from, routes@[i as int]@));
                    lemma_chain_shape(g, piece_at(g, from), from, rest);
                    assert(seq![from] + rest =~= route@);
                    lemma_replay_unmarked(g, from, rest);
                }
                let mut r = Engine::route_capture(&board, route);
                proof {
                    assert(rest.last() == target);
                    assert(on_board_point(target));
                }
                r.check_promotion(target);
                proof {
                    lemma_promote_unmarked(replay(g, from, rest), target);
                    assert(is_chain(g, piece_at(g, from), from, rest));
                    assert forall|other: Seq<Point>|
                        #[trigger] is_chain(g, piece_at(g, from), from, other) && other.len() >= 1
                            && other.last() == target implies rest.len() <= other.len() by {
                        let rr = seq![from] + other;
                        assert(rr.drop_first() =~= other);
                        assert(is_capture_route(g, from, rr));
                        let m = choose|m: int| 0 <= m < routes@.len() && #[trigger] routes@[m]@ == rr;
                        assert(rr.last() == target);
                        if m < i {
                            assert(routes@[m]@.len() >= 2 && routes@[m]@.last() == target);
                        }
                        if m > i {
                            assert(routes@[i as int]@.len() <= routes@[m]@.len());
                        }
                    }
                    assert(shortest_chain_to(g, from, target, rest));
                }
                r
            },
            None => {
                proof {
                    assert forall|rr: Seq<Point>|
                        #[trigger] is_capture_route(g, from, rr) && rr.len() >= 2 implies rr.last()
                        != target by {
                        let m = choose|m: int| 0 <= m < routes@.len() && #[trigger] routes@[m]@ == rr;
                    }
                }
                Board { size: board.size, cells: copy_cells(&board.cells), turn: board.turn }
            },
        }
    }

    /// The index of the first route that makes at least one jump and ends on `target`.
    fn find_route(routes: &Vec<Route>, target: Point) -> (r: Option<usize>)
        ensures
            r matches Some(i) ==> i < routes@.len() && routes@[i as int]@.len() >= 2
                && routes@[i as int]@.last() == target && forall|m: int|
                0 <= m < i ==> !((#[trigger] routes@[m])@.len() >= 2 && routes@[m]@.last() == target),
            r is None ==> forall|m: int|
                0 <= m < routes@.len() ==> !((#[trigger] routes@[m])@.len() >= 2 && routes@[m]@.last()
                    == target),
    {
        let mut i: usize = 0;
        while i < routes.len()
            invariant
                i <= routes@.len(),
                forall|m: int|
                    0 <= m < i ==> !((#[trigger] routes@[m])@.len() >= 2 && routes@[m]@.last() == target),
            decreases routes@.len() - i,
        {
            let n = routes[i].points.len();
            if n >= 2 && routes[i].points[n - 1] == target {
                return Some(i);
            }
            i += 1;
        }
        None
    }

    /// The board after every jump of `route`, played from its first square.
    pub fn route_capture(board: &Board, route: &Route) -> (r: Board)
        requires
            board.wf(),
            route@.len() >= 1,
            route_shape(route@),
        ensures
            r.wf(),
            r.turn == board.turn,
            r.grid() == replay(board.grid(), route@[0], route@.drop_first()),
    {
        let mut cells = copy_cells(&board.cells);
        let mut i: usize = 1;
        while i < route.points.len()
            invariant
                1 <= i <= route@.len(),
                route_shape(route@),
                grid_wf(grid_of(&cells)),
                grid_of(&cells) == replay(board.grid(), route@[0], route@.subrange(1, i as int)),
            decreases route@.len() - i,
        {
            let prev = route.points[i - 1];
            let curr = route.points[i];
            proof {
                lemma_replay_step(board.grid(), route@, i as int);
                assert(on_board_point(route@[i - 1]));
                assert(on_board_point(route@[i as int]));
                assert(diagonal(route@[i - 1], route@[i as int]));
            }
            slide_cells(&mut cells, prev, curr);
            i += 1;
        }
        assert(route@.subrange(1, route@.len() as int) =~= route@.drop_first());
        Board { size: board.size, cells, turn: board.turn }
    }

    /// The board after the piece on `from` moves to `target`, every square
    /// on the way emptied.
    pub fn simple_capture(board: &Board, from: Point, target: Point) -> (r: Board)
        requires
            board.wf(),
            on_board_point(from),
            on_board_point(target),
            diagonal(from, target),
        ensures
            r.wf(),
            r.turn == board.turn,
            r.grid() == slide(board.grid(), from, target),
    {
        let mut cells = copy_cells(&board.cells);
        slide_cells(&mut cells, from, target);
        Board { size: board.size, cells, turn: board.turn }
    }

    /// The squares that the piece on `point` looks at, diagonal by diagonal.
    pub fn get_neighbours(board: &Board, point: Point) -> (r: Vec<Point>)
        requires
            board.wf(),
            on_board_point(point),
        ensures
            forall|q: Point| #[trigger] r@.contains(q) <==> is_neighbour(board.grid(), point, q),
    {
        let ghost g = board.grid();
        let queen = board.get_cell(point).is_queen();
        let mut r: Vec<Point> = Vec::new();
        scan_neighbours(&board.cells, point, -1, -1, queen, &mut r);
        let ghost r1 = r@;
        scan_neighbours(&board.cells, point, -1, 1, queen, &mut r);
        let ghost r2 = r@;
        scan_neighbours(&board.cells, point, 1, -1, queen, &mut r);
        let ghost r3 = r@;
        scan_neighbours(&board.cells, point, 1, 1, queen, &mut r);
        proof {
            assert forall|q: Point| #[trigger] r@.contains(q) <==> is_neighbour(g, point, q) by {
                if r@.contains(q) {
                    let i = choose|i: int| 0 <= i < r@.len() && r@[i] == q;
                    if i < r1.len() {
                        assert(r2[i] == r1[i]);
                        assert(r3[i] == r2[i]);
                    } else if i < r2.len() {
                        assert(r3[i] == r2[i]);
                    }
                }
                if is_neighbour(g, point, q) {
                    if dir_x(point, q) == -1 && dir_y(point, q) == -1 {
                        lemma_contains_kept(r1, r2, q);
                        lemma_contains_kept(r2, r3, q);
                        lemma_contains_kept(r3, r@, q);
                    } else if dir_x(point, q) == -1 && dir_y(point, q) == 1 {
                        lemma_contains_kept(r2, r3, q);
                        lemma_contains_kept(r3, r@, q);
                    } else if dir_x(point, q) == 1 && dir_y(point, q) == -1 {
                        lemma_contains_kept(r3, r@, q);
                    }
                }
            }
        }
        r
    }

    /// Whether `point` lies on the board.
    pub fn is_valid(board: &Board, point: &Point) -> (r: bool)
        requires
            board.wf(),
        ensures
            r == on_board_point(*point),
    {
        point.x >= 0 && point.x < board.size as i8 && point.y >= 0 && point.y < board.size as i8
    }
}

} // verus!
