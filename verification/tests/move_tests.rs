use stone_stacks::board::Board;
use stone_stacks::game_state::{Move, MoveGenerator};
use stone_stacks::position::Direction;
use stone_stacks::stone::Stone;
use stone_stacks::stone_pile::StonePile;

#[test]
fn starting_moves_are_corner_rooted_three_step_paths() {
    let b = Board::starting_board();
    let mut g = MoveGenerator::new(&b);
    let mut count = 0;
    while let Some(p) = g.next() {
        let s = p.start().to_index();
        assert!(s == 0 || s == 3 || s == 12 || s == 15);
        assert_eq!(p.len(), 3);
        count += 1;
    }
    assert_eq!(count, 40);
}

#[test]
fn starting_moves_come_in_ascending_cell_order() {
    let b = Board::starting_board();
    let mut g = MoveGenerator::new(&b);
    let mut last_start = 0;
    while let Some(p) = g.next() {
        let s = p.start().to_index();
        assert!(s >= last_start);
        last_start = s;
    }
    assert_eq!(last_start, 15);
}

#[test]
fn first_starting_move_is_canonical() {
    let b = Board::starting_board();
    let mut g = MoveGenerator::new(&b);
    let p = g.next().expect("the starting board has moves");
    assert_eq!(p.start().to_index(), 0);
    assert_eq!(p.len(), 3);
    assert_eq!(p.get_step(0), Direction::Right);
    assert_eq!(p.get_step(1), Direction::Right);
    assert_eq!(p.get_step(2), Direction::Right);
}

#[test]
fn generated_moves_apply_cleanly() {
    let b = Board::starting_board();
    let mut g = MoveGenerator::new(&b);
    while let Some(p) = g.next() {
        let mut c = b.clone();
        let mv = Move { new_stone: Stone::White, path: p };
        assert!(c.move_fits(&mv));
        c.apply_move(&mv);
    }
}

#[test]
fn empty_board_yields_no_moves() {
    let b = Board::default();
    let mut g = MoveGenerator::new(&b);
    assert!(g.next().is_none());
}

#[test]
fn pile_stack_order_is_bottom_first() {
    let mut pile = StonePile::default();
    assert_eq!(pile.height(), 0);
    pile.add_stone(Stone::Neutral);
    pile.add_stone(Stone::Red);
    pile.add_stone(Stone::White);
    assert_eq!(pile.height(), 3);
    let taken = pile.take_pile();
    assert_eq!(pile.height(), 0);
    assert_eq!(taken.len(), 3);
    assert_eq!(taken[0], Stone::Neutral);
    assert_eq!(taken[1], Stone::Red);
    assert_eq!(taken[2], Stone::White);
}

#[test]
fn exhausted_move_enumerator_stays_exhausted() {
    let b = Board::starting_board();
    let mut g = MoveGenerator::new(&b);
    let mut count = 0;
    while let Some(_) = g.next() {
        count += 1;
    }
    assert_eq!(count, 40);
    // single pass: once None, always None
    assert!(g.next().is_none());
    assert!(g.next().is_none());
}
