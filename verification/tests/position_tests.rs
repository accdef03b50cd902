use sokoban::position::Position;

#[test]
fn new_accepts_in_range() {
    let p = Position::new(0, 0).unwrap();
    assert_eq!(p.get_x(), 0);
    assert_eq!(p.get_y(), 0);
    assert!(Position::new(-1, -1).is_some());
    assert!(Position::new(49, 49).is_some());
    assert!(Position::new(14, 9).is_some());
}

#[test]
fn new_rejects_out_of_range() {
    assert!(Position::new(-2, 0).is_none());
    assert!(Position::new(0, -2).is_none());
    assert!(Position::new(50, 0).is_none());
    assert!(Position::new(0, 50).is_none());
    assert!(Position::new(100, 100).is_none());
}

#[test]
fn getters_return_fields() {
    let p = Position::new(7, 3).unwrap();
    assert_eq!(p.get_x(), 7);
    assert_eq!(p.get_y(), 3);
}

#[test]
fn add_x_add_y_shift_one_axis() {
    let mut p = Position::new(5, 5).unwrap();
    p.add_x(3);
    assert_eq!(p.get_x(), 8);
    assert_eq!(p.get_y(), 5);
    p.add_y(-2);
    assert_eq!(p.get_x(), 8);
    assert_eq!(p.get_y(), 3);
}

#[test]
fn add_sums_componentwise() {
    let a = Position::new(2, 3).unwrap();
    let b = Position::new(1, 0).unwrap();
    let c = a.add(b);
    assert_eq!(c.get_x(), 3);
    assert_eq!(c.get_y(), 3);
    let d = a.add(Position::new(-1, -1).unwrap());
    assert_eq!(d.get_x(), 1);
    assert_eq!(d.get_y(), 2);
}
