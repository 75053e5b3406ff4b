use minesweeper::pos::Pos;

#[test]
fn test_adjacent() {
    let adjacent = Pos::new(1, 1).adjacent(10, 10);
    assert_eq!(adjacent.len(), 3);
    let adjacent = Pos::new(3, 3).adjacent(10, 10);
    assert_eq!(adjacent.len(), 8);
    let adjacent = Pos::new(2, 1).adjacent(10, 10);
    assert_eq!(adjacent.len(), 5);
}

#[test]
fn adjacent_respects_the_grid_edge() {
    let adjacent = Pos::new(10, 10).adjacent(10, 10);
    assert_eq!(adjacent.len(), 3);
    for p in adjacent.iter() {
        assert!(p.x <= 10 && p.y <= 10 && p.x >= 9 && p.y >= 9);
        assert!(*p != Pos::new(10, 10));
    }
    let adjacent = Pos::new(1, 1).adjacent(1, 1);
    assert!(adjacent.is_empty());
}

#[test]
fn try_new_rejects_zero_coordinates() {
    assert_eq!(Pos::try_new(0, 1), None);
    assert_eq!(Pos::try_new(1, 0), None);
    assert_eq!(Pos::try_new(3, 4), Some(Pos::new(3, 4)));
}
