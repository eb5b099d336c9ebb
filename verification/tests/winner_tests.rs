use stone_stacks::board::{Board, BoardTop};
use stone_stacks::game_state::PlayerColor;
use stone_stacks::stone::Stone;
use stone_stacks::stone_pile::PileTop;

fn top_with(cells: &[(usize, PileTop)], fill: PileTop) -> BoardTop {
    let mut v = vec![fill; 16];
    for &(i, t) in cells {
        v[i] = t;
    }
    BoardTop::new(v)
}

fn line(cells: [usize; 4], t: PileTop) -> BoardTop {
    top_with(
        &[(cells[0], t), (cells[1], t), (cells[2], t), (cells[3], t)],
        PileTop::Empty,
    )
}

#[test]
fn starting_board_has_no_winner() {
    let b = Board::starting_board();
    assert_eq!(b.top().winner(), None);
}

#[test]
fn all_neutral_tops_no_winner() {
    let t = top_with(&[], PileTop::NeutralStone);
    assert_eq!(t.winner(), None);
}

#[test]
fn all_empty_no_winner() {
    let t = top_with(&[], PileTop::Empty);
    assert_eq!(t.winner(), None);
}

#[test]
fn red_row_wins() {
    let t = line([0, 1, 2, 3], PileTop::RedStone);
    assert_eq!(t.winner(), Some(PlayerColor::Red));
}

#[test]
fn white_third_row_wins() {
    let t = line([8, 9, 10, 11], PileTop::WhiteStone);
    assert_eq!(t.winner(), Some(PlayerColor::White));
}

#[test]
fn red_column_wins() {
    let t = line([1, 5, 9, 13], PileTop::RedStone);
    assert_eq!(t.winner(), Some(PlayerColor::Red));
}

#[test]
fn white_main_diagonal_wins() {
    let t = line([0, 5, 10, 15], PileTop::WhiteStone);
    assert_eq!(t.winner(), Some(PlayerColor::White));
}

#[test]
fn red_anti_diagonal_wins() {
    let t = line([3, 6, 9, 12], PileTop::RedStone);
    assert_eq!(t.winner(), Some(PlayerColor::Red));
}

#[test]
fn broken_line_does_not_win() {
    let t = top_with(
        &[
            (0, PileTop::RedStone),
            (1, PileTop::RedStone),
            (2, PileTop::WhiteStone),
            (3, PileTop::RedStone),
        ],
        PileTop::Empty,
    );
    assert_eq!(t.winner(), None);
}

#[test]
fn neutral_line_does_not_win() {
    let t = line([0, 1, 2, 3], PileTop::NeutralStone);
    assert_eq!(t.winner(), None);
}

#[test]
fn earlier_scanned_row_wins_first() {
    // White owns row 0, Red owns row 1: rows are scanned top to bottom,
    // so White is reported even though Red also holds a full line.
    let t = top_with(
        &[
            (0, PileTop::WhiteStone),
            (1, PileTop::WhiteStone),
            (2, PileTop::WhiteStone),
            (3, PileTop::WhiteStone),
            (4, PileTop::RedStone),
            (5, PileTop::RedStone),
            (6, PileTop::RedStone),
            (7, PileTop::RedStone),
        ],
        PileTop::Empty,
    );
    assert_eq!(t.winner(), Some(PlayerColor::White));
}

#[test]
fn player_of_pile_top() {
    assert_eq!(PlayerColor::from_pile_top(PileTop::Empty), None);
    assert_eq!(PlayerColor::from_pile_top(PileTop::NeutralStone), None);
    assert_eq!(
        PlayerColor::from_pile_top(PileTop::RedStone),
        Some(PlayerColor::Red)
    );
    assert_eq!(
        PlayerColor::from_pile_top(PileTop::WhiteStone),
        Some(PlayerColor::White)
    );
}

#[test]
fn opponent_and_stone_color() {
    assert_eq!(PlayerColor::Red.opponent(), PlayerColor::White);
    assert_eq!(PlayerColor::White.opponent(), PlayerColor::Red);
    assert_eq!(PlayerColor::Red.stone_color(), Stone::Red);
    assert_eq!(PlayerColor::White.stone_color(), Stone::White);
}
