use stone_stacks::position::{Direction, Position};

#[test]
fn coord_index_round_trip() {
    let p = Position::from_coord(2, 1);
    assert_eq!(p.to_index(), 6);
    assert_eq!(p.x(), 2);
    assert_eq!(p.y(), 1);
    let q = Position::from_index(6);
    assert_eq!(q, p);
}

#[test]
fn corner_positions() {
    assert_eq!(Position::top_left().to_index(), 0);
    assert_eq!(Position::top_right().to_index(), 12);
    assert_eq!(Position::bottom_left().to_index(), 3);
    assert_eq!(Position::bottom_right().to_index(), 15);
}

#[test]
fn next_on_new_row_cases() {
    assert!(Position::from_index(3).next_on_new_row());
    assert!(Position::from_index(7).next_on_new_row());
    assert!(!Position::from_index(5).next_on_new_row());
    assert!(!Position::from_index(15).next_on_new_row());
}

#[test]
fn can_step_from_corner() {
    let tl = Position::top_left();
    assert!(tl.can_step(Direction::Right));
    assert!(tl.can_step(Direction::Down));
    assert!(!tl.can_step(Direction::Left));
    assert!(!tl.can_step(Direction::Up));
    let br = Position::bottom_right();
    assert!(!br.can_step(Direction::Right));
    assert!(!br.can_step(Direction::Down));
    assert!(br.can_step(Direction::Left));
    assert!(br.can_step(Direction::Up));
}

#[test]
fn can_step_from_middle() {
    let mid = Position::from_coord(1, 2);
    assert!(mid.can_step(Direction::Right));
    assert!(mid.can_step(Direction::Down));
    assert!(mid.can_step(Direction::Left));
    assert!(mid.can_step(Direction::Up));
}

#[test]
fn step_moves_one_cell() {
    let p = Position::from_coord(1, 1);
    assert_eq!(p.step(Direction::Right).to_index(), 6);
    assert_eq!(p.step(Direction::Down).to_index(), 9);
    assert_eq!(p.step(Direction::Left).to_index(), 4);
    assert_eq!(p.step(Direction::Up).to_index(), 1);
}

#[test]
fn reverse_pairs() {
    assert_eq!(Direction::Right.reverse(), Direction::Left);
    assert_eq!(Direction::Left.reverse(), Direction::Right);
    assert_eq!(Direction::Down.reverse(), Direction::Up);
    assert_eq!(Direction::Up.reverse(), Direction::Down);
}

#[test]
fn canonical_direction_order() {
    assert_eq!(Direction::Right.canonical_index(), 0);
    assert_eq!(Direction::Down.canonical_index(), 1);
    assert_eq!(Direction::Left.canonical_index(), 2);
    assert_eq!(Direction::Up.canonical_index(), 3);
    for i in 0..4u8 {
        assert_eq!(Direction::from_canonical_index(i).canonical_index(), i);
    }
}
