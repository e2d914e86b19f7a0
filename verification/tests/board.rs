use conway::{Board, Point};

#[test]
fn new_board_is_empty() {
    let board = Board::new();
    assert_eq!(board.len(), 0);
    assert!(board.live_cells().is_empty());
    assert!(!board.contains(&Point::new(0, 0)));
}

#[test]
fn insert_reports_whether_the_cell_was_dead() {
    let mut board = Board::new();
    assert!(board.insert(Point::new(2, 3)));
    assert!(!board.insert(Point::new(2, 3)));
    assert_eq!(board.len(), 1);
    assert!(board.contains(&Point::new(2, 3)));
    assert!(!board.contains(&Point::new(3, 2)));
}

#[test]
fn remove_reports_whether_the_cell_was_alive() {
    let mut board = Board::new();
    board.insert(Point::new(2, 3));
    assert!(!board.remove(&Point::new(3, 2)));
    assert_eq!(board.len(), 1);
    assert!(board.remove(&Point::new(2, 3)));
    assert!(!board.remove(&Point::new(2, 3)));
    assert_eq!(board.len(), 0);
    assert!(!board.contains(&Point::new(2, 3)));
}

#[test]
fn rows_and_columns_are_kept_apart() {
    let mut board = Board::new();
    board.insert(Point::new(0, 1));
    board.insert(Point::new(-1, 0));
    board.insert(Point::new(1, -1));
    assert_eq!(board.len(), 3);
    assert!(board.contains(&Point::new(0, 1)));
    assert!(board.contains(&Point::new(-1, 0)));
    assert!(board.contains(&Point::new(1, -1)));
    assert!(!board.contains(&Point::new(1, 0)));
    assert!(!board.contains(&Point::new(0, -1)));
    assert!(!board.contains(&Point::new(-1, 1)));
    assert!(!board.contains(&Point::new(0, 0)));
}

#[test]
fn corners_of_the_range_are_distinct_cells() {
    let corners = [
        Point::new(isize::MIN, isize::MIN),
        Point::new(isize::MIN, isize::MAX),
        Point::new(isize::MAX, isize::MIN),
        Point::new(isize::MAX, isize::MAX),
    ];
    let mut board = Board::new();
    for corner in corners {
        assert!(board.insert(corner));
    }
    assert_eq!(board.len(), 4);
    for corner in corners {
        assert!(board.contains(&corner));
    }
    assert!(!board.contains(&Point::new(0, 0)));
    assert!(!board.contains(&Point::new(isize::MIN, 0)));
    assert!(!board.contains(&Point::new(-1, -1)));
    let mut cells = board.live_cells();
    cells.sort_by_key(|p| (p.x(), p.y()));
    assert_eq!(cells, corners.to_vec());
}

#[test]
fn live_cells_lists_each_cell_once() {
    let mut board = Board::new();
    board.insert(Point::new(5, -5));
    board.insert(Point::new(-5, 5));
    board.insert(Point::new(5, -5));
    board.insert(Point::new(0, 0));
    let mut cells = board.live_cells();
    cells.sort_by_key(|p| (p.x(), p.y()));
    assert_eq!(cells, vec![Point::new(-5, 5), Point::new(0, 0), Point::new(5, -5)]);
}
