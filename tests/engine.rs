use checkers::{Board, Cell, Checker, Engine, MoveError, Point, Turn};

fn empty_board(turn: Turn) -> Board {
    let mut board = Board::default();
    board.turn = turn;
    board
}

fn put(board: &mut Board, x: i8, y: i8, checker: Checker) {
    board.set_cell(Point::new(x, y), Cell::Checker(checker));
}

fn at(board: &Board, x: i8, y: i8) -> Cell {
    *board.get_cell(Point::new(x, y))
}

fn markers(board: &Board) -> Vec<(i8, i8, Cell)> {
    let mut found = Vec::new();
    for (point, cell) in board.iter() {
        if cell.is_move() {
            found.push((point.x, point.y, cell));
        }
    }
    found
}

#[test]
fn opening_position_has_twelve_men_per_side() {
    let board = Board::new();
    let mut black = 0;
    let mut white = 0;
    for (point, cell) in board.iter() {
        match cell {
            Cell::Checker(Checker::Black) => {
                black += 1;
                assert!(point.y < 3);
                assert_eq!((point.x + point.y) % 2, 1);
            }
            Cell::Checker(Checker::White) => {
                white += 1;
                assert!(point.y > 4);
                assert_eq!((point.x + point.y) % 2, 1);
            }
            Cell::Empty => {}
            other => panic!("unexpected cell {:?}", other),
        }
    }
    assert_eq!(black, 12);
    assert_eq!(white, 12);
    assert_eq!(board.turn, Turn::White);
    assert_eq!(board.size, 8);
}

#[test]
fn man_without_enemies_marks_forward_squares() {
    let mut board = empty_board(Turn::White);
    put(&mut board, 3, 4, Checker::White);
    let result = Engine::with_legal_moves(board, Point::new(3, 4));
    assert_eq!(markers(&result), vec![(2, 3, Cell::Move), (4, 3, Cell::Move)]);
    assert_eq!(result.turn, Turn::White);
    assert_eq!(at(&result, 3, 4), Cell::Checker(Checker::White));
}

#[test]
fn man_at_edge_marks_one_square() {
    let mut board = empty_board(Turn::Black);
    put(&mut board, 0, 1, Checker::Black);
    let result = Engine::with_legal_moves(board, Point::new(0, 1));
    assert_eq!(markers(&result), vec![(1, 2, Cell::Move)]);
}

#[test]
fn man_blocked_by_friends_marks_nothing() {
    let mut board = empty_board(Turn::White);
    put(&mut board, 3, 4, Checker::White);
    put(&mut board, 2, 3, Checker::White);
    put(&mut board, 4, 3, Checker::White);
    let result = Engine::with_legal_moves(board, Point::new(3, 4));
    assert_eq!(markers(&result), vec![]);
}

#[test]
fn man_with_adjacent_enemy_has_capture_landing() {
    let mut board = empty_board(Turn::White);
    put(&mut board, 3, 4, Checker::White);
    put(&mut board, 4, 3, Checker::Black);
    let result = Engine::with_legal_moves(board, Point::new(3, 4));
    assert_eq!(at(&result, 5, 2), Cell::Capture);
    assert_eq!(at(&result, 2, 3), Cell::Move);
    assert_eq!(at(&result, 4, 3), Cell::Checker(Checker::Black));
}

#[test]
fn man_captures_backwards_too() {
    let mut board = empty_board(Turn::White);
    put(&mut board, 3, 4, Checker::White);
    put(&mut board, 4, 5, Checker::Black);
    let result = Engine::with_legal_moves(board, Point::new(3, 4));
    assert_eq!(at(&result, 5, 6), Cell::Capture);
}

#[test]
fn blocked_landing_gives_no_capture() {
    let mut board = empty_board(Turn::White);
    put(&mut board, 3, 4, Checker::White);
    put(&mut board, 4, 3, Checker::Black);
    put(&mut board, 5, 2, Checker::Black);
    let result = Engine::with_legal_moves(board, Point::new(3, 4));
    assert_eq!(markers(&result), vec![(2, 3, Cell::Move)]);
}

fn two_enemy_board() -> Board {
    let mut board = empty_board(Turn::White);
    put(&mut board, 2, 6, Checker::White);
    put(&mut board, 3, 5, Checker::Black);
    put(&mut board, 5, 3, Checker::Black);
    board
}

#[test]
fn two_enemy_chain_gives_route_of_three_points() {
    let board = two_enemy_board();
    let routes = Engine::get_captures(&board, Point::new(2, 6));
    let full: Vec<&checkers::Route> = routes.iter().filter(|r| r.points.len() == 3).collect();
    assert_eq!(full.len(), 1);
    assert_eq!(
        full[0].points,
        vec![Point::new(2, 6), Point::new(4, 4), Point::new(6, 2)]
    );
    assert_eq!(routes.len(), 3);
    assert_eq!(routes[0].points, vec![Point::new(2, 6)]);
}

#[test]
fn two_enemy_chain_marks_middle_and_end() {
    let board = two_enemy_board();
    let result = Engine::with_legal_moves(board, Point::new(2, 6));
    assert_eq!(at(&result, 4, 4), Cell::Capture);
    assert_eq!(at(&result, 6, 2), Cell::Capture);
    assert_eq!(at(&result, 1, 5), Cell::Move);
}

#[test]
fn two_enemy_chain_move_removes_both() {
    let board = two_enemy_board();
    let result = Engine::make_move(board, Point::new(2, 6), Point::new(6, 2));
    assert_eq!(at(&result, 2, 6), Cell::Empty);
    assert_eq!(at(&result, 3, 5), Cell::Empty);
    assert_eq!(at(&result, 4, 4), Cell::Empty);
    assert_eq!(at(&result, 5, 3), Cell::Empty);
    assert_eq!(at(&result, 6, 2), Cell::Checker(Checker::White));
    assert_eq!(result.turn, Turn::Black);
    assert_eq!(markers(&result), vec![]);
}

#[test]
fn zigzag_chain_removes_both() {
    let mut board = empty_board(Turn::Black);
    put(&mut board, 1, 0, Checker::Black);
    put(&mut board, 2, 1, Checker::White);
    put(&mut board, 2, 3, Checker::White);
    let result = Engine::make_move(board, Point::new(1, 0), Point::new(1, 4));
    assert_eq!(at(&result, 1, 0), Cell::Empty);
    assert_eq!(at(&result, 2, 1), Cell::Empty);
    assert_eq!(at(&result, 2, 3), Cell::Empty);
    assert_eq!(at(&result, 1, 4), Cell::Checker(Checker::Black));
    assert_eq!(result.turn, Turn::White);
}

#[test]
fn stopping_mid_chain_captures_one() {
    let board = two_enemy_board();
    let result = Engine::make_move(board, Point::new(2, 6), Point::new(4, 4));
    assert_eq!(at(&result, 3, 5), Cell::Empty);
    assert_eq!(at(&result, 5, 3), Cell::Checker(Checker::Black));
    assert_eq!(at(&result, 4, 4), Cell::Checker(Checker::White));
    assert_eq!(result.turn, Turn::Black);
}

#[test]
fn simple_move_to_last_row_promotes() {
    let mut board = empty_board(Turn::White);
    put(&mut board, 1, 1, Checker::White);
    let result = Engine::make_move(board, Point::new(1, 1), Point::new(0, 0));
    assert_eq!(at(&result, 0, 0), Cell::Checker(Checker::WhiteQueen));
    assert_eq!(at(&result, 1, 1), Cell::Empty);
    assert_eq!(result.turn, Turn::Black);
}

#[test]
fn black_move_to_last_row_promotes() {
    let mut board = empty_board(Turn::Black);
    put(&mut board, 2, 6, Checker::Black);
    let result = Engine::make_move(board, Point::new(2, 6), Point::new(3, 7));
    assert_eq!(at(&result, 3, 7), Cell::Checker(Checker::BlackQueen));
}

#[test]
fn capture_ending_on_last_row_promotes() {
    let mut board = empty_board(Turn::White);
    put(&mut board, 2, 2, Checker::White);
    put(&mut board, 3, 1, Checker::Black);
    let result = Engine::make_move(board, Point::new(2, 2), Point::new(4, 0));
    assert_eq!(at(&result, 4, 0), Cell::Checker(Checker::WhiteQueen));
    assert_eq!(at(&result, 3, 1), Cell::Empty);
}

#[test]
fn promotion_of_a_king_changes_nothing() {
    let mut board = empty_board(Turn::White);
    put(&mut board, 0, 0, Checker::WhiteQueen);
    board.check_promotion(Point::new(0, 0));
    assert_eq!(at(&board, 0, 0), Cell::Checker(Checker::WhiteQueen));
    put(&mut board, 2, 0, Checker::White);
    board.check_promotion(Point::new(2, 0));
    assert_eq!(at(&board, 2, 0), Cell::Checker(Checker::WhiteQueen));
    board.check_promotion(Point::new(2, 0));
    assert_eq!(at(&board, 2, 0), Cell::Checker(Checker::WhiteQueen));
    put(&mut board, 4, 4, Checker::White);
    board.check_promotion(Point::new(4, 4));
    assert_eq!(at(&board, 4, 4), Cell::Checker(Checker::White));
}

#[test]
fn move_to_unmarked_square_changes_nothing() {
    let board = Board::new();
    let before = board.clone();
    let result = Engine::make_move(board, Point::new(0, 5), Point::new(0, 3));
    assert_eq!(result.cells, before.cells);
    assert_eq!(result.turn, Turn::White);
}

#[test]
fn move_backwards_is_refused() {
    let mut board = empty_board(Turn::White);
    put(&mut board, 3, 4, Checker::White);
    let result = Engine::make_move(board, Point::new(3, 4), Point::new(4, 5));
    assert_eq!(at(&result, 3, 4), Cell::Checker(Checker::White));
    assert_eq!(at(&result, 4, 5), Cell::Empty);
    assert_eq!(result.turn, Turn::White);
}

#[test]
fn wrong_turn_marks_and_moves_nothing() {
    let board = Board::new();
    let marked = Engine::with_legal_moves(board.clone(), Point::new(1, 2));
    assert_eq!(markers(&marked), vec![]);
    let result = Engine::make_move(board.clone(), Point::new(1, 2), Point::new(0, 3));
    assert_eq!(result.cells, board.cells);
    assert_eq!(result.turn, Turn::White);
}

#[test]
fn empty_origin_marks_nothing() {
    let board = Board::new();
    let marked = Engine::with_legal_moves(board.clone(), Point::new(0, 3));
    assert_eq!(markers(&marked), vec![]);
    let result = Engine::make_move(board, Point::new(0, 3), Point::new(1, 2));
    assert_eq!(result.turn, Turn::White);
}

#[test]
fn out_of_bounds_points_are_rejected() {
    let board = Board::new();
    let marked = Engine::with_legal_moves(board.clone(), Point::new(8, 0));
    assert_eq!(markers(&marked), vec![]);
    let marked = Engine::with_legal_moves(board.clone(), Point::new(-1, 5));
    assert_eq!(markers(&marked), vec![]);
    let result = Engine::make_move(board.clone(), Point::new(0, 5), Point::new(-1, 4));
    assert_eq!(result.cells, board.cells);
    assert_eq!(result.turn, Turn::White);
}

#[test]
fn opening_move_passes_the_turn() {
    let board = Board::new();
    let marked = Engine::with_legal_moves(board.clone(), Point::new(0, 5));
    assert_eq!(markers(&marked), vec![(1, 4, Cell::Move)]);
    let result = Engine::make_move(board, Point::new(0, 5), Point::new(1, 4));
    assert_eq!(at(&result, 0, 5), Cell::Empty);
    assert_eq!(at(&result, 1, 4), Cell::Checker(Checker::White));
    assert_eq!(result.turn, Turn::Black);
}

#[test]
fn king_may_land_on_any_square_beyond_enemy() {
    let mut board = empty_board(Turn::White);
    put(&mut board, 0, 7, Checker::WhiteQueen);
    put(&mut board, 2, 5, Checker::Black);
    let result = Engine::with_legal_moves(board, Point::new(0, 7));
    assert_eq!(at(&result, 1, 6), Cell::Move);
    assert_eq!(at(&result, 3, 4), Cell::Capture);
    assert_eq!(at(&result, 4, 3), Cell::Capture);
    assert_eq!(at(&result, 5, 2), Cell::Capture);
    assert_eq!(at(&result, 6, 1), Cell::Capture);
    assert_eq!(at(&result, 7, 0), Cell::Capture);
}

#[test]
fn king_slides_until_first_piece() {
    let mut board = empty_board(Turn::Black);
    put(&mut board, 3, 3, Checker::BlackQueen);
    put(&mut board, 5, 5, Checker::Black);
    let result = Engine::with_legal_moves(board, Point::new(3, 3));
    assert_eq!(at(&result, 4, 4), Cell::Move);
    assert_eq!(at(&result, 5, 5), Cell::Checker(Checker::Black));
    assert_eq!(at(&result, 6, 6), Cell::Empty);
    assert_eq!(at(&result, 0, 0), Cell::Move);
    assert_eq!(at(&result, 0, 6), Cell::Move);
    assert_eq!(at(&result, 7, 7), Cell::Empty);
    assert_eq!(markers(&result).len(), 10);
}

#[test]
fn king_capture_far_landing() {
    let mut board = empty_board(Turn::White);
    put(&mut board, 0, 7, Checker::WhiteQueen);
    put(&mut board, 2, 5, Checker::Black);
    let result = Engine::make_move(board, Point::new(0, 7), Point::new(5, 2));
    assert_eq!(at(&result, 0, 7), Cell::Empty);
    assert_eq!(at(&result, 2, 5), Cell::Empty);
    assert_eq!(at(&result, 5, 2), Cell::Checker(Checker::WhiteQueen));
    assert_eq!(result.turn, Turn::Black);
}

#[test]
fn man_is_not_promoted_mid_chain() {
    let mut board = empty_board(Turn::White);
    put(&mut board, 2, 2, Checker::White);
    put(&mut board, 3, 1, Checker::Black);
    put(&mut board, 5, 1, Checker::Black);
    let result = Engine::make_move(board, Point::new(2, 2), Point::new(6, 2));
    assert_eq!(at(&result, 6, 2), Cell::Checker(Checker::White));
    assert_eq!(at(&result, 3, 1), Cell::Empty);
    assert_eq!(at(&result, 5, 1), Cell::Empty);
}

#[test]
fn markers_are_cleared_before_a_move() {
    let mut board = Board::new();
    board.set_cell(Point::new(1, 4), Cell::Move);
    board.set_cell(Point::new(3, 4), Cell::Capture);
    let cleared = board.clear_moves();
    assert_eq!(markers(&cleared), vec![]);
    assert_eq!(at(&cleared, 1, 4), Cell::Empty);
    let result = Engine::make_move(board, Point::new(2, 5), Point::new(3, 4));
    assert_eq!(markers(&result), vec![]);
    assert_eq!(at(&result, 3, 4), Cell::Checker(Checker::White));
}

#[test]
fn route_replay_and_single_jump() {
    let board = two_enemy_board();
    let mut route = checkers::Route::new();
    route = route.add_point(Point::new(2, 6));
    route = route.add_point(Point::new(4, 4));
    let after = Engine::route_capture(&board, &route);
    assert_eq!(at(&after, 3, 5), Cell::Empty);
    assert_eq!(at(&after, 4, 4), Cell::Checker(Checker::White));
    let jumped = Engine::simple_capture(&board, Point::new(2, 6), Point::new(4, 4));
    assert_eq!(jumped.cells, after.cells);
    let captured = Engine::capture(&board, Point::new(2, 6), Point::new(6, 2));
    assert_eq!(at(&captured, 6, 2), Cell::Checker(Checker::White));
    assert_eq!(at(&captured, 5, 3), Cell::Empty);
    let none = Engine::capture(&board, Point::new(2, 6), Point::new(0, 4));
    assert_eq!(none.cells, board.cells);
}

#[test]
fn neighbours_of_man_and_king() {
    let mut board = empty_board(Turn::White);
    put(&mut board, 0, 7, Checker::White);
    let n = Engine::get_neighbours(&board, Point::new(0, 7));
    assert_eq!(n, vec![Point::new(1, 6)]);
    put(&mut board, 4, 4, Checker::WhiteQueen);
    put(&mut board, 6, 6, Checker::Black);
    let n = Engine::get_neighbours(&board, Point::new(4, 4));
    assert!(n.contains(&Point::new(6, 6)));
    assert!(!n.contains(&Point::new(7, 7)));
    assert!(n.contains(&Point::new(0, 0)));
    assert_eq!(n.len(), 12);
    assert!(Engine::is_valid(&board, &Point::new(7, 7)));
    assert!(!Engine::is_valid(&board, &Point::new(8, 7)));
}

#[test]
fn validate_move_reports_each_reason() {
    let board = Board::new();
    assert_eq!(
        Engine::validate_move(&board, Point::new(8, 0), Point::new(1, 4)),
        Err(MoveError::OutOfBounds)
    );
    assert_eq!(
        Engine::validate_move(&board, Point::new(0, 5), Point::new(-1, 4)),
        Err(MoveError::OutOfBounds)
    );
    assert_eq!(
        Engine::validate_move(&board, Point::new(0, 3), Point::new(1, 4)),
        Err(MoveError::NoPieceAtOrigin)
    );
    assert_eq!(
        Engine::validate_move(&board, Point::new(1, 2), Point::new(0, 3)),
        Err(MoveError::WrongTurn)
    );
    assert_eq!(
        Engine::validate_move(&board, Point::new(0, 5), Point::new(0, 4)),
        Err(MoveError::IllegalDestination)
    );
    assert_eq!(
        Engine::validate_move(&board, Point::new(0, 5), Point::new(1, 4)),
        Ok(())
    );
    let two = two_enemy_board();
    assert_eq!(
        Engine::validate_move(&two, Point::new(2, 6), Point::new(6, 2)),
        Ok(())
    );
}
