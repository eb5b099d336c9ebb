use stone_stacks::path::{Path, PathGenerator};
use stone_stacks::position::{Direction, Position};
use tinyvec::ArrayVec;

fn dirs(steps: &[Direction]) -> ArrayVec<[Direction; 8]> {
    let mut v: ArrayVec<[Direction; 8]> = ArrayVec::new();
    for &d in steps {
        v.push(d);
    }
    v
}

fn steps_of(p: &Path) -> Vec<Direction> {
    let mut out = Vec::new();
    for i in 0..p.len() {
        out.push(p.get_step(i));
    }
    out
}

#[test]
fn new_path_computes_end() {
    let p = Path::new(Position::from_index(5), dirs(&[Direction::Right, Direction::Down]));
    assert_eq!(p.start().to_index(), 5);
    assert_eq!(p.end().to_index(), 10);
    assert_eq!(p.len(), 2);
}

#[test]
fn empty_path_rests_on_start() {
    let p = Path::new_empty(Position::from_index(7));
    assert_eq!(p.start().to_index(), 7);
    assert_eq!(p.end().to_index(), 7);
    assert_eq!(p.len(), 0);
}

#[test]
fn step_and_pop_restore_path() {
    let mut p = Path::new_empty(Position::from_index(0));
    p.step(Direction::Right);
    p.step(Direction::Down);
    assert_eq!(p.end().to_index(), 5);
    let d = p.pop_step();
    assert_eq!(d, Direction::Down);
    assert_eq!(p.end().to_index(), 1);
    assert_eq!(p.len(), 1);
    let d2 = p.pop_step();
    assert_eq!(d2, Direction::Right);
    assert_eq!(p.end().to_index(), 0);
    assert_eq!(p.len(), 0);
}

#[test]
fn iter_positions_lists_stepped_cells() {
    let p = Path::new(
        Position::from_index(0),
        dirs(&[Direction::Right, Direction::Right, Direction::Down]),
    );
    let cells: Vec<usize> = p.iter_positions().iter().map(|q| q.to_index()).collect();
    assert_eq!(cells, vec![1, 2, 6]);
}

#[test]
fn path_can_step_checks_end_cell() {
    let p = Path::new(Position::from_index(0), dirs(&[Direction::Right, Direction::Right]));
    // end is cell 2: one step short of the right edge
    assert!(p.can_step(Direction::Right));
    let q = Path::new(
        Position::from_index(0),
        dirs(&[Direction::Right, Direction::Right, Direction::Right]),
    );
    // end is cell 3: the right edge
    assert!(!q.can_step(Direction::Right));
    assert!(q.can_step(Direction::Down));
}

#[test]
fn zero_length_enumerator_yields_nothing() {
    let mut g = PathGenerator::new(Position::from_index(0), 0);
    assert!(g.next().is_none());
    let mut g2 = PathGenerator::new(Position::from_index(5), 0);
    assert!(g2.next().is_none());
}

#[test]
fn first_path_from_top_left_is_canonical() {
    let mut g = PathGenerator::new(Position::top_left(), 3);
    let p = g.next().expect("a first path");
    assert_eq!(
        steps_of(&p),
        vec![Direction::Right, Direction::Right, Direction::Right]
    );
    assert_eq!(p.start().to_index(), 0);
    assert_eq!(p.end().to_index(), 3);
}

#[test]
fn corner_three_step_paths_are_ten_distinct_legal_paths() {
    let mut g = PathGenerator::new(Position::top_left(), 3);
    let mut all: Vec<Vec<Direction>> = Vec::new();
    while let Some(p) = g.next() {
        assert_eq!(p.len(), 3);
        assert_eq!(p.start().to_index(), 0);
        // in bounds and no U-turns, recomputed by hand
        let mut pos = p.start();
        let steps = steps_of(&p);
        for (i, &d) in steps.iter().enumerate() {
            assert!(pos.can_step(d));
            if i > 0 {
                assert!(d != steps[i - 1].reverse());
            }
            pos = pos.step(d);
        }
        assert_eq!(pos.to_index(), p.end().to_index());
        all.push(steps);
    }
    assert_eq!(all.len(), 10);
    for i in 0..all.len() {
        for j in (i + 1)..all.len() {
            assert!(all[i] != all[j]);
        }
    }
    assert_eq!(
        all[0],
        vec![Direction::Right, Direction::Right, Direction::Right]
    );
    assert_eq!(all[9], vec![Direction::Down, Direction::Down, Direction::Down]);
}

#[test]
fn one_step_paths_from_centre() {
    let mut g = PathGenerator::new(Position::from_coord(1, 1), 1);
    let mut all: Vec<Vec<Direction>> = Vec::new();
    while let Some(p) = g.next() {
        all.push(steps_of(&p));
    }
    assert_eq!(
        all,
        vec![
            vec![Direction::Right],
            vec![Direction::Down],
            vec![Direction::Left],
            vec![Direction::Up],
        ]
    );
}

#[test]
fn exhausted_enumerator_stays_exhausted() {
    let mut g = PathGenerator::new(Position::top_left(), 3);
    let mut count = 0;
    while let Some(_) = g.next() {
        count += 1;
    }
    assert_eq!(count, 10);
    // single pass: once None, always None
    assert!(g.next().is_none());
    assert!(g.next().is_none());
}
