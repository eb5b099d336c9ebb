use stone_stacks::board::Board;
use stone_stacks::game_state::Move;
use stone_stacks::path::Path;
use stone_stacks::position::{Direction, Position};
use stone_stacks::stone::Stone;
use stone_stacks::stone_pile::PileTop;
use tinyvec::ArrayVec;

fn dirs(steps: &[Direction]) -> ArrayVec<[Direction; 8]> {
    let mut v: ArrayVec<[Direction; 8]> = ArrayVec::new();
    for &d in steps {
        v.push(d);
    }
    v
}

fn heights(b: &Board) -> Vec<u8> {
    b.iter_piles().iter().map(|(_, p)| p.height()).collect()
}

fn total(b: &Board) -> u32 {
    heights(b).iter().map(|&h| h as u32).sum()
}

#[test]
fn starting_board_layout() {
    let b = Board::starting_board();
    let hs = heights(&b);
    for (i, &h) in hs.iter().enumerate() {
        if i == 0 || i == 3 || i == 12 || i == 15 {
            assert_eq!(h, 2);
        } else {
            assert_eq!(h, 0);
        }
    }
    let top = b.top();
    for (pos, t) in top.iter_piles() {
        let i = pos.to_index();
        if i == 0 || i == 3 || i == 12 || i == 15 {
            assert_eq!(t, PileTop::NeutralStone);
        } else {
            assert_eq!(t, PileTop::Empty);
        }
    }
    assert_eq!(total(&b), 8);
}

#[test]
fn apply_unloads_hand_in_order() {
    let mut b = Board::starting_board();
    let mv = Move {
        new_stone: Stone::Red,
        path: Path::new(
            Position::top_left(),
            dirs(&[Direction::Right, Direction::Right, Direction::Right]),
        ),
    };
    assert!(b.move_fits(&mv));
    b.apply_move(&mv);
    let piles = b.iter_piles();
    // start pile lifted whole
    assert_eq!(piles[0].1.height(), 0);
    assert_eq!(piles[0].1.top(), PileTop::Empty);
    // oldest lifted stone lands on the first stepped-to cell
    assert_eq!(piles[1].1.height(), 1);
    assert_eq!(piles[1].1.top(), PileTop::NeutralStone);
    assert_eq!(piles[2].1.height(), 1);
    assert_eq!(piles[2].1.top(), PileTop::NeutralStone);
    // the new stone lands on top of the final cell, over its old content
    assert_eq!(piles[3].1.height(), 3);
    assert_eq!(piles[3].1.top(), PileTop::RedStone);
    let mut corner = piles[3].1;
    let lifted = corner.take_pile();
    assert_eq!(lifted.len(), 3);
    assert_eq!(lifted[0], Stone::Neutral);
    assert_eq!(lifted[1], Stone::Neutral);
    assert_eq!(lifted[2], Stone::Red);
}

#[test]
fn apply_preserves_stone_count_plus_one() {
    let mut b = Board::starting_board();
    assert_eq!(total(&b), 8);
    let mv = Move {
        new_stone: Stone::White,
        path: Path::new(
            Position::top_left(),
            dirs(&[Direction::Down, Direction::Down, Direction::Down]),
        ),
    };
    assert!(b.move_fits(&mv));
    b.apply_move(&mv);
    assert_eq!(total(&b), 9);
}

#[test]
fn apply_handles_revisited_cells() {
    let mut b = Board::starting_board();
    // R, L, R revisits cell 1: it receives the oldest stone, then the new
    // stone on top; cell 0 receives the second lifted stone back.
    let mv = Move {
        new_stone: Stone::Red,
        path: Path::new(
            Position::top_left(),
            dirs(&[Direction::Right, Direction::Left, Direction::Right]),
        ),
    };
    assert!(b.move_fits(&mv));
    b.apply_move(&mv);
    let piles = b.iter_piles();
    assert_eq!(piles[0].1.height(), 1);
    assert_eq!(piles[0].1.top(), PileTop::NeutralStone);
    assert_eq!(piles[1].1.height(), 2);
    assert_eq!(piles[1].1.top(), PileTop::RedStone);
    assert_eq!(total(&b), 9);
}

#[test]
fn move_fits_rejects_wrong_length_path() {
    let b = Board::starting_board();
    let mv = Move {
        new_stone: Stone::Red,
        path: Path::new(Position::top_left(), dirs(&[Direction::Right, Direction::Right])),
    };
    assert!(!b.move_fits(&mv));
}

#[test]
fn move_fits_rejects_empty_start_pile() {
    let b = Board::starting_board();
    let mv = Move {
        new_stone: Stone::Red,
        path: Path::new(Position::from_index(5), dirs(&[Direction::Right])),
    };
    assert!(!b.move_fits(&mv));
}

#[test]
fn boards_are_independent_values() {
    let b = Board::starting_board();
    let mut c = b.clone();
    let mv = Move {
        new_stone: Stone::Red,
        path: Path::new(
            Position::top_left(),
            dirs(&[Direction::Right, Direction::Right, Direction::Right]),
        ),
    };
    c.apply_move(&mv);
    // the original is untouched
    assert_eq!(total(&b), 8);
    assert_eq!(heights(&b)[0], 2);
    assert_eq!(heights(&c)[0], 0);
}
