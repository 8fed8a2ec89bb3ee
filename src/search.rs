//! Discovery of jumps and capture chains on a grid of cells.
use vstd::prelude::*;

use crate::board::{copy_cells, grid_of, put};
use crate::cell::Cell;
use crate::checker::Checker;
use crate::lemmas::{hostile_count, lemma_between_on_board, lemma_jump_captures};
use crate::point::Point;
use crate::route::{copy_points, Route};
use crate::rules::{
    along, cell_at, diagonal, dir_x, dir_y, dist, grid_wf, hostile, is_chain, is_jump, jumps_over,
    is_neighbour, on_board, on_board_point, ray, ray_pt, slide, within,
};

verus! {

/// The cell `k` steps from `at` along `(dx, dy)`, if that square is on the board.
pub(crate) fn cell_on_ray(cells: &Vec<Vec<Cell>>, at: Point, dx: i8, dy: i8, k: i8) -> (r: Option<
    Cell,
>)
    requires
        grid_wf(grid_of(cells)),
        on_board_point(at),
        dx == 1 || dx == -1,
        dy == 1 || dy == -1,
        0 <= k <= 8,
    ensures
        r is Some <==> on_board(
            along(at.x as int, dx as int, k as int),
            along(at.y as int, dy as int, k as int),
        ),
        r matches Some(c) ==> c == ray(grid_of(cells), at, dx as int, dy as int, k as int),
{
    let p = ray_point(at, dx, dy, k);
    if 0 <= p.x && p.x < 8 && 0 <= p.y && p.y < 8 {
        assert(grid_of(cells)[p.y as int] == cells@[p.y as int]@);
        Some(cells[p.y as usize][p.x as usize])
    } else {
        None
    }
}

/// The square `k` steps from `at` along `(dx, dy)`.
pub(crate) fn ray_point(at: Point, dx: i8, dy: i8, k: i8) -> (p: Point)
    requires
        on_board_point(at),
        dx == 1 || dx == -1,
        dy == 1 || dy == -1,
        0 <= k <= 8,
    ensures
        p.x == along(at.x as int, dx as int, k as int),
        p.y == along(at.y as int, dy as int, k as int),
{
    let x: i8 = if dx > 0 {
        at.x + k
    } else {
        at.x - k
    };
    let y: i8 = if dy > 0 {
        at.y + k
    } else {
        at.y - k
    };
    Point { x, y }
}

/// Moves the piece on `from` to `to` and empties every square on the way.
pub(crate) fn slide_cells(cells: &mut Vec<Vec<Cell>>, from: Point, to: Point)
    requires
        grid_wf(grid_of(old(cells))),
        on_board_point(from),
        on_board_point(to),
        diagonal(from, to),
    ensures
        grid_wf(grid_of(final(cells))),
        grid_of(final(cells)) == slide(grid_of(old(cells)), from, to),
{
    let ghost g = grid_of(cells);
    assert(g[from.y as int] == cells@[from.y as int]@);
    let moved = cells[from.y as usize][from.x as usize];
    let dx: i8 = if to.x > from.x {
        1
    } else {
        -1
    };
    let dy: i8 = if to.y > from.y {
        1
    } else {
        -1
    };
    let n: i8 = if to.x > from.x {
        to.x - from.x
    } else {
        from.x - to.x
    };
    let mut k: i8 = 0;
    while k < n
        invariant
            0 <= k <= n,
            n == dist(from, to),
            dx == dir_x(from, to),
            dy == dir_y(from, to),
            on_board_point(from),
            on_board_point(to),
            diagonal(from, to),
            grid_wf(g),
            grid_wf(grid_of(cells)),
            forall|y: int, x: int|
                on_board(x, y) ==> #[trigger] grid_of(cells)[y][x] == (if within(from, to, x, y, k as int) {
                    Cell::Empty
                } else {
                    g[y][x]
                }),
        decreases n - k,
    {
        proof {
            lemma_between_on_board(from, to, k as int);
        }
        let p = ray_point(from, dx, dy, k);
        put(cells, p.x as usize, p.y as usize, Cell::Empty);
        k += 1;
    }
    put(cells, to.x as usize, to.y as usize, moved);
    assert(grid_of(cells) =~~= slide(g, from, to));
}

/// Appends to `out` the landing square of every jump that `piece`, standing
/// on `at`, can make along the diagonal `(dx, dy)`.
fn scan_jumps(cells: &Vec<Vec<Cell>>, piece: Checker, at: Point, dx: i8, dy: i8, out: &mut Vec<Point>)
    requires
        grid_wf(grid_of(cells)),
        on_board_point(at),
        dx == 1 || dx == -1,
        dy == 1 || dy == -1,
    ensures
        final(out)@.len() >= old(out)@.len(),
        forall|i: int| 0 <= i < old(out)@.len() ==> final(out)@[i] == old(out)@[i],
        forall|i: int|
            old(out)@.len() <= i < final(out)@.len() ==> is_jump(
                grid_of(cells),
                piece,
                at,
                #[trigger] final(out)@[i],
            ),
        forall|t: Point|
            #[trigger] is_jump(grid_of(cells), piece, at, t) && dir_x(at, t) == dx && dir_y(at, t)
                == dy ==> final(out)@.contains(t),
{
    let ghost g = grid_of(cells);
    let mut k: i8 = 1;
    loop
        invariant
            1 <= k <= 8,
            g == grid_of(cells),
            grid_wf(g),
            on_board_point(at),
            dx == 1 || dx == -1,
            dy == 1 || dy == -1,
            out@ == old(out)@,
            forall|j: int|
                1 <= j < k ==> on_board(along(at.x as int, dx as int, j), along(at.y as int, dy as int, j))
                    && #[trigger] ray(g, at, dx as int, dy as int, j) == Cell::Empty,
        ensures
            1 <= k <= 8,
            !(on_board(along(at.x as int, dx as int, k as int), along(at.y as int, dy as int, k as int))
                && ray(g, at, dx as int, dy as int, k as int) == Cell::Empty),
        decreases 8 - k,
    {
        match cell_on_ray(cells, at, dx, dy, k) {
            Some(Cell::Empty) => {
                k += 1;
            },
            _ => {
                break ;
            },
        }
    }
    let first = cell_on_ray(cells, at, dx, dy, k);
    let enemy = match first {
        Some(Cell::Checker(q)) => q.is_enemy(piece),
        _ => false,
    };
    // Every jump along this diagonal passes over the first piece met.
    proof {
        assert forall|t: Point|
            #[trigger] is_jump(g, piece, at, t) && dir_x(at, t) == dx && dir_y(at, t) == dy implies {
            &&& jumps_over(g, piece, at, t, k as int)
            &&& enemy
            &&& (piece.spec_is_queen() || k == 1)
        } by {
            let k0 = choose|k0: int| jumps_over(g, piece, at, t, k0);
            lemma_between_on_board(at, t, k0);
            if k0 > k {
                lemma_between_on_board(at, t, k as int);
                assert(ray(g, at, dx as int, dy as int, k as int) == Cell::Empty);
            }
            if k0 < k {
                assert(ray(g, at, dx as int, dy as int, k0) == Cell::Empty);
            }
            assert(k0 == k);
        }
    }
    if !enemy || !(piece.is_queen() || k == 1) {
        return ;
    }
    let mut j: i8 = k + 1;
    loop
        invariant_except_break
            !piece.spec_is_queen() ==> j == k + 1,
        invariant
            1 <= k < j <= 8,
            on_board(along(at.x as int, dx as int, k as int), along(at.y as int, dy as int, k as int)),
            g == grid_of(cells),
            grid_wf(g),
            on_board_point(at),
            dx == 1 || dx == -1,
            dy == 1 || dy == -1,
            hostile(ray(g, at, dx as int, dy as int, k as int), piece),
            piece.spec_is_queen() || k == 1,
            forall|m: int|
                1 <= m < k ==> #[trigger] ray(g, at, dx as int, dy as int, m) == Cell::Empty,
            forall|m: int|
                k < m < j ==> on_board(along(at.x as int, dx as int, m), along(at.y as int, dy as int, m))
                    && #[trigger] ray(g, at, dx as int, dy as int, m) == Cell::Empty,
            out@.len() >= old(out)@.len(),
            forall|i: int| 0 <= i < old(out)@.len() ==> out@[i] == old(out)@[i],
            forall|i: int|
                old(out)@.len() <= i < out@.len() ==> is_jump(g, piece, at, #[trigger] out@[i]),
            forall|m: int|
                k < m < j ==> out@.contains(
                    #[trigger] ray_pt(at, dx as int, dy as int, m),
                ),
        ensures
            (!piece.spec_is_queen() && j == k + 2) || !(on_board(
                along(at.x as int, dx as int, j as int),
                along(at.y as int, dy as int, j as int),
            ) && ray(g, at, dx as int, dy as int, j as int) == Cell::Empty),
        decreases 8 - j,
    {
        match cell_on_ray(cells, at, dx, dy, j) {
            Some(Cell::Empty) => {
                let p = ray_point(at, dx, dy, j);
                proof {
                    assert(dist(at, p) == j);
                    assert(dir_x(at, p) == dx);
                    assert(dir_y(at, p) == dy);
                    assert(jumps_over(g, piece, at, p, k as int));
                    assert(is_jump(g, piece, at, p));
                    assert(p == ray_pt(at, dx as int, dy as int, j as int));
                }
                let ghost before = out@;
                out.push(p);
                proof {
                    assert forall|m: int| k < m < j + 1 implies out@.contains(
                        #[trigger] ray_pt(at, dx as int, dy as int, m),
                    ) by {
                        if m < j {
                            let i = choose|i: int|
                                0 <= i < before.len() && before[i] == ray_pt(at, dx as int, dy as int, m);
                            assert(out@[i] == before[i]);
                        } else {
                            assert(out@[before.len() as int] == p);
                        }
                    }
                }
                j += 1;
                if !piece.is_queen() {
                    break ;
                }
            },
            _ => {
                break ;
            },
        }
    }
    proof {
        assert forall|t: Point|
            #[trigger] is_jump(g, piece, at, t) && dir_x(at, t) == dx && dir_y(at, t)
                == dy implies out@.contains(t) by {
            let m0 = dist(at, t);
            if m0 >= j {
                lemma_between_on_board(at, t, j as int);
                assert(ray(g, at, dx as int, dy as int, j as int) == Cell::Empty);
            }
            assert(t == ray_pt(at, dx as int, dy as int, m0));
        }
    }
}

pub(crate) proof fn lemma_contains_kept(a: Seq<Point>, b: Seq<Point>, t: Point)
    requires
        a.contains(t),
        b.len() >= a.len(),
        forall|i: int| 0 <= i < a.len() ==> b[i] == a[i],
    ensures
        b.contains(t),
{
    let i = choose|i: int| 0 <= i < a.len() && a[i] == t;
    assert(b[i] == t);
}

/// The landing square of every jump that `piece`, standing on `at`, can make,
/// diagonal by diagonal.
fn landings(cells: &Vec<Vec<Cell>>, piece: Checker, at: Point) -> (r: Vec<Point>)
    requires
        grid_wf(grid_of(cells)),
        on_board_point(at),
    ensures
        forall|i: int| 0 <= i < r@.len() ==> is_jump(grid_of(cells), piece, at, #[trigger] r@[i]),
        forall|t: Point| #[trigger] is_jump(grid_of(cells), piece, at, t) ==> r@.contains(t),
{
    let mut r: Vec<Point> = Vec::new();
    scan_jumps(cells, piece, at, -1, -1, &mut r);
    let ghost r1 = r@;
    scan_jumps(cells, piece, at, -1, 1, &mut r);
    let ghost r2 = r@;
    scan_jumps(cells, piece, at, 1, -1, &mut r);
    let ghost r3 = r@;
    scan_jumps(cells, piece, at, 1, 1, &mut r);
    proof {
        assert forall|t: Point| #[trigger] is_jump(grid_of(cells), piece, at, t) implies r@.contains(
            t,
        ) by {
            if dir_x(at, t) == -1 && dir_y(at, t) == -1 {
                lemma_contains_kept(r1, r2, t);
                lemma_contains_kept(r2, r3, t);
                lemma_contains_kept(r3, r@, t);
            } else if dir_x(at, t) == -1 && dir_y(at, t) == 1 {
                lemma_contains_kept(r2, r3, t);
                lemma_contains_kept(r3, r@, t);
            } else if dir_x(at, t) == 1 && dir_y(at, t) == -1 {
                lemma_contains_kept(r3, r@, t);
            }
        }
    }
    r
}

/// `r` is `prefix` followed by the landing squares of a chain of jumps of
/// `piece` from `at`.
pub open spec fn extends_chain(
    g: Seq<Seq<Cell>>,
    piece: Checker,
    at: Point,
    prefix: Seq<Point>,
    r: Seq<Point>,
) -> bool {
    &&& r.len() >= prefix.len()
    &&& r.subrange(0, prefix.len() as int) == prefix
    &&& is_chain(g, piece, at, r.skip(prefix.len() as int))
}

proof fn lemma_extends_one_more(
    g: Seq<Seq<Cell>>,
    piece: Checker,
    at: Point,
    t: Point,
    prefix: Seq<Point>,
    r: Seq<Point>,
)
    requires
        is_jump(g, piece, at, t),
        extends_chain(slide(g, at, t), piece, t, prefix.push(t), r),
    ensures
        extends_chain(g, piece, at, prefix, r),
{
    let n = prefix.len() as int;
    let s = r.skip(n);
    assert(r.subrange(0, n) =~= r.subrange(0, n + 1).subrange(0, n));
    assert(prefix.push(t).subrange(0, n) =~= prefix);
    assert(s[0] == r[n]);
    assert(r.subrange(0, n + 1)[n] == r[n]);
    assert(s.drop_first() =~= r.skip(n + 1));
}

/// Appends to `out` every route that continues `route`, whose last square is
/// `at`, with a chain of jumps of `piece`: `route` itself first, then the
/// longer ones, depth first, the jumps of each square in diagonal order.
pub(crate) fn search(cells: &Vec<Vec<Cell>>, piece: Checker, at: Point, route: &Route, out: &mut Vec<Route>)
    requires
        grid_wf(grid_of(cells)),
        on_board_point(at),
        cell_at(grid_of(cells), at) == Cell::Checker(piece),
    ensures
        final(out)@.len() > old(out)@.len(),
        forall|i: int| 0 <= i < old(out)@.len() ==> final(out)@[i] == old(out)@[i],
        final(out)@[old(out)@.len() as int]@ == route@,
        forall|i: int|
            old(out)@.len() <= i < final(out)@.len() ==> extends_chain(
                grid_of(cells),
                piece,
                at,
                route@,
                #[trigger] final(out)@[i]@,
            ),
        forall|rest: Seq<Point>|
            #[trigger] is_chain(grid_of(cells), piece, at, rest) ==> exists|i: int|
                old(out)@.len() <= i < final(out)@.len() && #[trigger] final(out)@[i]@ == route@
                    + rest,
    decreases hostile_count(grid_of(cells), piece),
{
    let ghost g = grid_of(cells);
    let ghost n0 = out@.len();
    out.push(Route { points: copy_points(&route.points) });
    proof {
        assert(route@.subrange(0, route@.len() as int) =~= route@);
        assert(route@.skip(route@.len() as int) =~= Seq::<Point>::empty());
        assert(out@[n0 as int]@ == route@);
    }
    let targets = landings(cells, piece, at);
    let mut i: usize = 0;
    while i < targets.len()
        invariant
            i <= targets@.len(),
            g == grid_of(cells),
            grid_wf(g),
            on_board_point(at),
            cell_at(g, at) == Cell::Checker(piece),
            forall|m: int| 0 <= m < targets@.len() ==> is_jump(g, piece, at, #[trigger] targets@[m]),
            out@.len() > n0,
            n0 == old(out)@.len(),
            forall|m: int| 0 <= m < n0 ==> out@[m] == old(out)@[m],
            out@[n0 as int]@ == route@,
            forall|m: int|
                n0 <= m < out@.len() ==> extends_chain(g, piece, at, route@, #[trigger] out@[m]@),
            forall|rest: Seq<Point>|
                #[trigger] is_chain(g, piece, at, rest) && rest.len() >= 1
                    && targets@.subrange(0, i as int).contains(rest[0]) ==> exists|m: int|
                    n0 <= m < out@.len() && #[trigger] out@[m]@ == route@ + rest,
        decreases targets@.len() - i,
    {
        let t = targets[i];
        let mut next = copy_cells(cells);
        proof {
            lemma_jump_captures(g, piece, at, t);
        }
        slide_cells(&mut next, at, t);
        let next_route = route.add_point(t);
        let ghost before = out@;
        search(&next, piece, t, &next_route, out);
        proof {
            let g2 = slide(g, at, t);
            assert forall|m: int| n0 <= m < out@.len() implies extends_chain(
                g,
                piece,
                at,
                route@,
                #[trigger] out@[m]@,
            ) by {
                if m >= before.len() {
                    lemma_extends_one_more(g, piece, at, t, route@, out@[m]@);
                } else {
                    assert(out@[m] == before[m]);
                }
            }
            assert forall|rest: Seq<Point>|
                #[trigger] is_chain(g, piece, at, rest) && rest.len() >= 1
                    && targets@.subrange(0, i + 1).contains(rest[0]) implies exists|m: int|
                n0 <= m < out@.len() && #[trigger] out@[m]@ == route@ + rest by {
                if rest[0] == t {
                    let tail = rest.drop_first();
                    assert(is_chain(g2, piece, t, tail));
                    let m = choose|m: int|
                        before.len() <= m < out@.len() && #[trigger] out@[m]@ == next_route@ + tail;
                    assert(next_route@ == route@.push(t));
                    assert(rest =~= seq![t] + tail);
                    assert(route@.push(t) + tail =~= route@ + rest);
                } else {
                    let k = choose|k: int| 0 <= k < i + 1 && #[trigger] targets@.subrange(0, i + 1)[k] == rest[0];
                    assert(k != i);
                    assert(targets@.subrange(0, i as int)[k] == rest[0]);
                    assert(targets@.subrange(0, i as int).contains(rest[0]));
                    let m = choose|m: int| n0 <= m < before.len() && #[trigger] before[m]@ == route@ + rest;
                    assert(out@[m] == before[m]);
                }
            }
        }
        i += 1;
    }
    proof {
        assert forall|rest: Seq<Point>| #[trigger] is_chain(g, piece, at, rest) implies exists|m: int|
            n0 <= m < out@.len() && #[trigger] out@[m]@ == route@ + rest by {
            if rest.len() == 0 {
                assert(route@ + rest =~= route@);
            } else {
                assert(targets@.subrange(0, targets@.len() as int) =~= targets@);
            }
        }
    }
}

/// Appends to `out` the squares along the diagonal `(dx, dy)` that the piece
/// on `at` looks at: one square for a man, the empty run and the first piece
/// for a king.
pub(crate) fn scan_neighbours(
    cells: &Vec<Vec<Cell>>,
    at: Point,
    dx: i8,
    dy: i8,
    queen: bool,
    out: &mut Vec<Point>,
)
    requires
        grid_wf(grid_of(cells)),
        on_board_point(at),
        dx == 1 || dx == -1,
        dy == 1 || dy == -1,
        queen == cell_at(grid_of(cells), at).spec_is_queen(),
    ensures
        final(out)@.len() >= old(out)@.len(),
        forall|i: int| 0 <= i < old(out)@.len() ==> final(out)@[i] == old(out)@[i],
        forall|i: int|
            old(out)@.len() <= i < final(out)@.len() ==> is_neighbour(
                grid_of(cells),
                at,
                #[trigger] final(out)@[i],
            ),
        forall|t: Point|
            #[trigger] is_neighbour(grid_of(cells), at, t) && dir_x(at, t) == dx && dir_y(at, t)
                == dy ==> final(out)@.contains(t),
{
    let ghost g = grid_of(cells);
    if !queen {
        if cell_on_ray(cells, at, dx, dy, 1).is_some() {
            let p = ray_point(at, dx, dy, 1);
            out.push(p);
            assert(out@[out@.len() - 1] == p);
        }
        proof {
            assert forall|t: Point|
                #[trigger] is_neighbour(g, at, t) && dir_x(at, t) == dx && dir_y(at, t)
                    == dy implies out@.contains(t) by {
                assert(t == ray_pt(at, dx as int, dy as int, 1));
            }
        }
        return ;
    }
    let mut k: i8 = 1;
    loop
        invariant
            1 <= k <= 8,
            g == grid_of(cells),
            grid_wf(g),
            on_board_point(at),
            dx == 1 || dx == -1,
            dy == 1 || dy == -1,
            cell_at(g, at).spec_is_queen(),
            forall|j: int|
                1 <= j < k ==> on_board(along(at.x as int, dx as int, j), along(at.y as int, dy as int, j))
                    && #[trigger] ray(g, at, dx as int, dy as int, j) == Cell::Empty,
            out@.len() >= old(out)@.len(),
            forall|i: int| 0 <= i < old(out)@.len() ==> out@[i] == old(out)@[i],
            forall|i: int| old(out)@.len() <= i < out@.len() ==> is_neighbour(g, at, #[trigger] out@[i]),
            forall|j: int| 1 <= j < k ==> out@.contains(#[trigger] ray_pt(at, dx as int, dy as int, j)),
        ensures
            !(on_board(along(at.x as int, dx as int, k as int), along(at.y as int, dy as int, k as int))
                && ray(g, at, dx as int, dy as int, k as int) == Cell::Empty),
            on_board(along(at.x as int, dx as int, k as int), along(at.y as int, dy as int, k as int))
                && ray(g, at, dx as int, dy as int, k as int) is Checker ==> out@.contains(
                ray_pt(at, dx as int, dy as int, k as int),
            ),
        decreases 8 - k,
    {
        let c = cell_on_ray(cells, at, dx, dy, k);
        match c {
            Some(cell) => {
                if cell.is_move() {
                    break ;
                }
                let p = ray_point(at, dx, dy, k);
                proof {
                    assert(dist(at, p) == k);
                    assert(dir_x(at, p) == dx);
                    assert(dir_y(at, p) == dy);
                    assert(p == ray_pt(at, dx as int, dy as int, k as int));
                    assert(cell_at(g, p) == cell);
                    assert(is_neighbour(g, at, p));
                }
                let ghost before = out@;
                out.push(p);
                proof {
                    assert forall|j: int| 1 <= j < k + 1 implies out@.contains(
                        #[trigger] ray_pt(at, dx as int, dy as int, j),
                    ) by {
                        if j < k {
                            let i = choose|i: int|
                                0 <= i < before.len() && before[i] == ray_pt(at, dx as int, dy as int, j);
                            assert(out@[i] == before[i]);
                        } else {
                            assert(out@[before.len() as int] == p);
                        }
                    }
                }
                if cell.is_checker() {
                    break ;
                }
                k += 1;
            },
            None => {
                break ;
            },
        }
    }
    proof {
        assert forall|t: Point|
            #[trigger] is_neighbour(g, at, t) && dir_x(at, t) == dx && dir_y(at, t)
                == dy implies out@.contains(t) by {
            let m = dist(at, t);
            assert(t == ray_pt(at, dx as int, dy as int, m));
            if m > k {
                lemma_between_on_board(at, t, k as int);
                assert(ray(g, at, dx as int, dy as int, k as int) == Cell::Empty);
            }
            if m == k {
                assert(ray(g, at, dx as int, dy as int, k as int) == cell_at(g, t));
            }
        }
    }
}

/// Some route of `rs` has the points `v`.
pub open spec fn holds_route(rs: Seq<Route>, v: Seq<Point>) -> bool {
    exists|j: int| 0 <= j < rs.len() && (#[trigger] rs[j])@ == v
}

proof fn lemma_push_route(before: Seq<Route>, after: Seq<Route>, routes: Seq<Route>, k: int, depth: int)
    requires
        0 <= k < routes.len(),
        after.len() == before.len() + 1,
        forall|a: int| 0 <= a < before.len() ==> after[a] == before[a],
        after[before.len() as int]@ == routes[k]@,
        routes[k]@.len() == depth,
        forall|a: int, b: int| 0 <= a < b < before.len() ==> before[a]@.len() <= before[b]@.len(),
        forall|a: int| 0 <= a < before.len() ==> (#[trigger] before[a])@.len() <= depth,
        forall|a: int| 0 <= a < before.len() ==> holds_route(routes, (#[trigger] before[a])@),
        forall|j: int|
            0 <= j < routes.len() && (#[trigger] routes[j])@.len() < depth ==> holds_route(
                before,
                routes[j]@,
            ),
        forall|j: int|
            0 <= j < k && (#[trigger] routes[j])@.len() == depth ==> holds_route(before, routes[j]@),
    ensures
        forall|a: int, b: int| 0 <= a < b < after.len() ==> after[a]@.len() <= after[b]@.len(),
        forall|a: int| 0 <= a < after.len() ==> (#[trigger] after[a])@.len() <= depth,
        forall|a: int| 0 <= a < after.len() ==> holds_route(routes, (#[trigger] after[a])@),
        forall|j: int|
            0 <= j < routes.len() && (#[trigger] routes[j])@.len() < depth ==> holds_route(
                after,
                routes[j]@,
            ),
        forall|j: int|
            0 <= j < k + 1 && (#[trigger] routes[j])@.len() == depth ==> holds_route(after, routes[j]@),
{
    let n = before.len() as int;
    assert forall|a: int, b: int| 0 <= a < b < after.len() implies after[a]@.len() <= after[b]@.len() by {
        if b < n {
            assert(after[a] == before[a]);
            assert(after[b] == before[b]);
        } else {
            assert(after[a] == before[a]);
        }
    }
    assert forall|a: int| 0 <= a < after.len() implies holds_route(routes, (#[trigger] after[a])@) by {
        if a < n {
            assert(after[a] == before[a]);
        } else {
            assert(routes[k]@ == after[a]@);
        }
    }
    assert forall|a: int| 0 <= a < after.len() implies (#[trigger] after[a])@.len() <= depth by {
        if a < n {
            assert(after[a] == before[a]);
        }
    }
    assert forall|j: int| 0 <= j < routes.len() && (#[trigger] routes[j])@.len() < depth implies holds_route(
        after,
        routes[j]@,
    ) by {
        let a = choose|a: int| 0 <= a < before.len() && (#[trigger] before[a])@ == routes[j]@;
        assert(after[a] == before[a]);
    }
    assert forall|j: int| 0 <= j < k + 1 && (#[trigger] routes[j])@.len() == depth implies holds_route(
        after,
        routes[j]@,
    ) by {
        if j < k {
            let a = choose|a: int| 0 <= a < before.len() && (#[trigger] before[a])@ == routes[j]@;
            assert(after[a] == before[a]);
        } else {
            assert(after[n]@ == routes[j]@);
        }
    }
}

/// The routes reordered by length, shortest first, routes of equal length
/// keeping their order.
pub(crate) fn by_depth(routes: &Vec<Route>) -> (r: Vec<Route>)
    requires
        forall|j: int| 0 <= j < routes@.len() ==> (#[trigger] routes@[j])@.len() >= 1,
    ensures
        forall|a: int, b: int| 0 <= a < b < r@.len() ==> r@[a]@.len() <= r@[b]@.len(),
        forall|a: int| 0 <= a < r@.len() ==> holds_route(routes@, (#[trigger] r@[a])@),
        forall|j: int| 0 <= j < routes@.len() ==> holds_route(r@, (#[trigger] routes@[j])@),
{
    let mut longest: usize = 0;
    let mut i: usize = 0;
    while i < routes.len()
        invariant
            i <= routes@.len(),
            forall|j: int| 0 <= j < i ==> (#[trigger] routes@[j])@.len() <= longest,
        decreases routes@.len() - i,
    {
        if routes[i].points.len() > longest {
            longest = routes[i].points.len();
        }
        i += 1;
    }
    let mut r: Vec<Route> = Vec::new();
    let mut depth: usize = 0;
    while depth < longest
        invariant
            depth <= longest,
            forall|j: int| 0 <= j < routes@.len() ==> (#[trigger] routes@[j])@.len() <= longest,
            forall|j: int| 0 <= j < routes@.len() ==> (#[trigger] routes@[j])@.len() >= 1,
            forall|a: int, b: int| 0 <= a < b < r@.len() ==> r@[a]@.len() <= r@[b]@.len(),
            forall|a: int| 0 <= a < r@.len() ==> (#[trigger] r@[a])@.len() <= depth,
            forall|a: int| 0 <= a < r@.len() ==> holds_route(routes@, (#[trigger] r@[a])@),
            forall|j: int|
                0 <= j < routes@.len() && (#[trigger] routes@[j])@.len() <= depth ==> holds_route(
                    r@,
                    routes@[j]@,
                ),
        decreases longest - depth,
    {
        depth += 1;
        let mut k: usize = 0;
        while k < routes.len()
            invariant
                k <= routes@.len(),
                1 <= depth <= longest,
                forall|a: int, b: int| 0 <= a < b < r@.len() ==> r@[a]@.len() <= r@[b]@.len(),
                forall|a: int| 0 <= a < r@.len() ==> (#[trigger] r@[a])@.len() <= depth,
                forall|a: int| 0 <= a < r@.len() ==> holds_route(routes@, (#[trigger] r@[a])@),
                forall|j: int|
                    0 <= j < routes@.len() && (#[trigger] routes@[j])@.len() < depth ==> holds_route(
                        r@,
                        routes@[j]@,
                    ),
                forall|j: int|
                    0 <= j < k && (#[trigger] routes@[j])@.len() == depth ==> holds_route(
                        r@,
                        routes@[j]@,
                    ),
            decreases routes@.len() - k,
        {
            if routes[k].points.len() == depth {
                let copy = Route { points: copy_points(&routes[k].points) };
                let ghost before = r@;
                r.push(copy);
                proof {
                    lemma_push_route(before, r@, routes@, k as int, depth as int);
                }
            }
            k += 1;
        }
    }
    r
}

} // verus!
