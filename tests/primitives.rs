use checkers::{Board, Cell, Checker, Point, Route, Turn};

#[test]
fn point_arithmetic() {
    let a = Point::new(5, -3);
    let b = Point::new(2, 4);
    assert_eq!(a.add(&b), Point::new(7, 1));
    assert_eq!(a.subtract(&b), Point::new(3, -7));
    assert_eq!(Point::new(-7, 7).divide(2), Point::new(-3, 3));
    assert_eq!(Point::new(6, -6).divide(-3), Point::new(-2, 2));
    assert_eq!(Point::new(-128, 5).divide(1), Point::new(-128, 5));
    assert_eq!(Point::new(-5, 0).signum(), Point::new(-1, 0));
    assert_eq!(Point::new(9, -2).signum(), Point::new(1, -1));
    assert!(Point::new(0, 7).valid());
    assert!(!Point::new(8, 0).valid());
    assert!(!Point::new(0, -1).valid());
}

#[test]
fn checker_colours_and_promotion() {
    assert!(Checker::Black.is_black());
    assert!(Checker::BlackQueen.is_black());
    assert!(Checker::WhiteQueen.is_white());
    assert!(!Checker::White.is_black());
    assert!(Checker::White.is_enemy(Checker::BlackQueen));
    assert!(!Checker::White.is_enemy(Checker::WhiteQueen));
    assert_eq!(Checker::White.promote(), Checker::WhiteQueen);
    assert_eq!(Checker::Black.promote(), Checker::BlackQueen);
    assert_eq!(Checker::BlackQueen.promote(), Checker::BlackQueen);
    assert!(Checker::BlackQueen.is_queen());
    assert!(!Checker::Black.is_queen());
}

#[test]
fn cell_queries() {
    assert!(Cell::Empty.is_empty());
    assert!(!Cell::Move.is_empty());
    assert!(Cell::Move.is_move());
    assert!(Cell::Capture.is_move());
    assert!(!Cell::Empty.is_move());
    assert!(Cell::Checker(Checker::White).is_checker());
    assert!(!Cell::Capture.is_checker());
    assert!(Cell::Checker(Checker::White).is_enemy(Cell::Checker(Checker::Black)));
    assert!(!Cell::Checker(Checker::White).is_enemy(Cell::Empty));
    assert!(!Cell::Checker(Checker::Black).is_enemy(Cell::Checker(Checker::BlackQueen)));
    assert_eq!(Cell::Checker(Checker::Black).promote(), Cell::Checker(Checker::BlackQueen));
    assert_eq!(Cell::Move.promote(), Cell::Move);
    assert!(Cell::Checker(Checker::WhiteQueen).is_queen());
    assert!(!Cell::Empty.is_queen());
}

#[test]
fn turn_alternates() {
    assert_eq!(Turn::White.next(), Turn::Black);
    assert_eq!(Turn::Black.next(), Turn::White);
    assert!(Turn::White.is_white());
    assert!(Turn::Black.is_black());
    assert!(!Turn::Black.is_white());
    assert!(Turn::Black.is_owner_of(Checker::BlackQueen));
    assert!(!Turn::Black.is_owner_of(Checker::White));
}

#[test]
fn route_operations() {
    let empty = Route::new();
    assert!(empty.is_empty());
    assert_eq!(empty.first(), None);
    assert_eq!(empty.last(), None);
    assert!(empty.get_after_last().is_empty());
    let route = empty
        .add_point(Point::new(1, 1))
        .add_point(Point::new(3, 3))
        .add_point(Point::new(5, 1));
    assert!(empty.is_empty());
    assert_eq!(route.first(), Some(&Point::new(1, 1)));
    assert_eq!(route.last(), Some(&Point::new(5, 1)));
    assert!(route.contains(&Point::new(3, 3)));
    assert!(!route.contains(&Point::new(2, 2)));
    let rest = route.get_after_last();
    assert_eq!(rest.points, vec![Point::new(3, 3), Point::new(5, 1)]);
    let collected: Vec<Point> = route.iter().copied().collect();
    assert_eq!(collected, route.points);
}

#[test]
fn board_iteration_is_row_major() {
    let board = Board::new();
    let all = board.iter();
    assert_eq!(all.len(), 64);
    assert_eq!(all[0], (Point::new(0, 0), Cell::Empty));
    assert_eq!(all[1], (Point::new(1, 0), Cell::Checker(Checker::Black)));
    assert_eq!(all[8], (Point::new(0, 1), Cell::Checker(Checker::Black)));
    assert_eq!(all[63], (Point::new(7, 7), Cell::Empty));
    assert_eq!(all[62], (Point::new(6, 7), Cell::Checker(Checker::White)));
}

#[test]
fn default_board_is_empty() {
    let board = Board::default();
    assert_eq!(board.size, 8);
    assert_eq!(board.turn, Turn::White);
    assert!(board.iter().iter().all(|(_, c)| c.is_empty()));
}

#[test]
fn set_and_get_cell() {
    let mut board = Board::default();
    board.set_cell(Point::new(2, 5), Cell::Checker(Checker::BlackQueen));
    assert_eq!(*board.get_cell(Point::new(2, 5)), Cell::Checker(Checker::BlackQueen));
    assert_eq!(board.cells[5][2], Cell::Checker(Checker::BlackQueen));
}
