use conway::Point;

#[test]
fn point_gives_neighbors() {
    let point = Point::new(1, 1);
    let neighbors = point.neighbors();
    let expected = vec![
        Point::new(0, 0),
        Point::new(0, 1),
        Point::new(0, 2),
        Point::new(1, 0),
        Point::new(1, 1),
        Point::new(1, 2),
        Point::new(2, 0),
        Point::new(2, 1),
        Point::new(2, 2),
    ];
    assert_eq!(neighbors, expected);
}

#[test]
fn point_keeps_its_coordinates() {
    let point = Point::new(-7, 12);
    assert_eq!(point.x(), -7);
    assert_eq!(point.y(), 12);
}

#[test]
fn points_are_equal_by_value() {
    assert_eq!(Point::new(3, -4), Point::new(3, -4));
    assert_ne!(Point::new(3, -4), Point::new(-4, 3));
    assert_ne!(Point::new(3, -4), Point::new(3, 4));
}

#[test]
fn neighbors_of_a_negative_point() {
    let neighbors = Point::new(-5, 0).neighbors();
    let expected = vec![
        Point::new(-6, -1),
        Point::new(-6, 0),
        Point::new(-6, 1),
        Point::new(-5, -1),
        Point::new(-5, 0),
        Point::new(-5, 1),
        Point::new(-4, -1),
        Point::new(-4, 0),
        Point::new(-4, 1),
    ];
    assert_eq!(neighbors, expected);
}

#[test]
fn neighbors_hold_the_point_itself_in_the_middle() {
    let point = Point::new(40, -40);
    let neighbors = point.neighbors();
    assert_eq!(neighbors.len(), 9);
    assert_eq!(neighbors[4], point);
}

#[test]
fn neighbors_next_to_the_edge_of_the_range() {
    let low = Point::new(isize::MIN + 1, isize::MIN + 1).neighbors();
    assert_eq!(low[0], Point::new(isize::MIN, isize::MIN));
    assert_eq!(low[8], Point::new(isize::MIN + 2, isize::MIN + 2));
    let high = Point::new(isize::MAX - 1, isize::MAX - 1).neighbors();
    assert_eq!(high[0], Point::new(isize::MAX - 2, isize::MAX - 2));
    assert_eq!(high[8], Point::new(isize::MAX, isize::MAX));
}
