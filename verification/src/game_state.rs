//! Players, moves, and the enumerator of every legal move on a board.

use vstd::prelude::*;

use crate::board::{corner_cell, starting_spec, Board};
use crate::path::{lex_lt, no_uturns, path_end, valid_path_steps, Path, PathGenerator};
use crate::position::{Direction, Position, NUM_PILES};
use crate::stone::Stone;
use crate::stone_pile::PileTop;

verus! {

/// One of the two players.
#[derive(PartialEq, Eq, Structural, Copy, Clone, Debug, Hash)]
pub enum PlayerColor {
    Red,
    White,
}

/// The player owning a pile top, if any: neutral and empty tops belong to
/// nobody.
pub open spec fn player_of_top(t: PileTop) -> Option<PlayerColor> {
    match t {
        PileTop::Empty => None,
        PileTop::NeutralStone => None,
        PileTop::RedStone => Some(PlayerColor::Red),
        PileTop::WhiteStone => Some(PlayerColor::White),
    }
}

/// The other player.
pub open spec fn opponent_spec(p: PlayerColor) -> PlayerColor {
    match p {
        PlayerColor::Red => PlayerColor::White,
        PlayerColor::White => PlayerColor::Red,
    }
}

/// The stone a player places.
pub open spec fn stone_of(p: PlayerColor) -> Stone {
    match p {
        PlayerColor::Red => Stone::Red,
        PlayerColor::White => Stone::White,
    }
}

impl PlayerColor {
    /// The player owning a pile top, if any.
    pub fn from_pile_top(pile_top: PileTop) -> (r: Option<PlayerColor>)
        ensures
            r == player_of_top(pile_top),
    {
        match pile_top {
            PileTop::Empty => None,
            PileTop::NeutralStone => None,
            PileTop::RedStone => Some(PlayerColor::Red),
            PileTop::WhiteStone => Some(PlayerColor::White),
        }
    }

    /// The other player.
    pub fn opponent(&self) -> (r: PlayerColor)
        ensures
            r == opponent_spec(*self),
            r != *self,
    {
        match self {
            PlayerColor::Red => PlayerColor::White,
            PlayerColor::White => PlayerColor::Red,
        }
    }

    /// The stone this player places.
    pub fn stone_color(&self) -> (r: Stone)
        ensures
            r == stone_of(*self),
    {
        match self {
            PlayerColor::Red => Stone::Red,
            PlayerColor::White => Stone::White,
        }
    }
}

/// A move: the stone the mover introduces, and the path along which the
/// lifted pile (with that stone on top of the hand) is unloaded.
#[derive(PartialEq, Eq, Copy, Clone, Debug, Hash)]
pub struct Move {
    pub new_stone: Stone,
    pub path: Path,
}

/// Enumerates, lazily and in ascending cell order, every legal move on a
/// captured board: for each non-empty pile, every path of exactly that
/// pile's height plus one steps (one step per lifted stone plus the new
/// stone), in the path enumerator's order.
pub struct MoveGenerator {
    piles: Vec<u8>,
    start_index: usize,
    path_generator: PathGenerator,
}

impl MoveGenerator {
    /// Height of each pile of the captured board, by cell index.
    pub closed spec fn heights(&self) -> Seq<u8> {
        self.piles@
    }

    /// Index of the pile the enumerator currently draws paths from.
    pub closed spec fn cursor(&self) -> int {
        self.start_index as int
    }

    /// Target path length of the inner path enumerator (zero once the
    /// enumeration is exhausted).
    pub closed spec fn gen_target(&self) -> int {
        self.path_generator.target()
    }

    /// The inner path enumerator's stored steps: the path yielded last.
    pub closed spec fn cur_steps(&self) -> Seq<Direction> {
        self.path_generator.cur()
    }

    /// The inner path enumerator is well formed and not left exhausted:
    /// once a pile's paths run out, the enumerator for the next pile (or
    /// the degenerate zero-length one, at the end) takes its place.
    pub closed spec fn gen_wf(&self) -> bool {
        self.path_generator.wf() && !self.path_generator.exhausted()
    }

    /// The inner path enumerator either is the exhausted degenerate one,
    /// or draws paths of exactly the right length from the current
    /// non-empty pile.
    pub closed spec fn gen_matches(&self) -> bool {
        self.path_generator.target() == 0 || (self.path_generator.start_i()
            == self.start_index as int && 1 <= self.piles@[self.start_index as int] as int
            && self.path_generator.target() == self.piles@[self.start_index as int] as int + 1)
    }

    pub open spec fn wf(&self) -> bool {
        &&& self.heights().len() == 16
        &&& (forall|i: int| 0 <= i < 16 ==> (#[trigger] self.heights()[i]) as int <= 7)
        &&& 0 <= self.cursor() < 16
        &&& self.gen_wf()
        &&& self.gen_matches()
    }

    /// An enumerator of every legal move on `b`.  A full pile cannot
    /// legally be moved (its path would need more steps than a path can
    /// hold), so a board holding one is a programming error, ruled out
    /// here by precondition.
    #[verifier::loop_isolation(false)]
    pub fn new(b: &Board) -> (r: MoveGenerator)
        requires
            b.wf(),
            forall|i: int| 0 <= i < 16 ==> (#[trigger] b@[i]).len() <= 7,
        ensures
            r.wf(),
            forall|i: int| 0 <= i < 16 ==> (#[trigger] r.heights()[i]) as int == b@[i].len(),
            r.cur_steps().len() == 0,
            forall|i: int| 0 <= i < r.cursor() ==> (#[trigger] r.heights()[i]) as int == 0,
            r.heights()[r.cursor()] as int >= 1 ==> r.gen_target() == r.heights()[r.cursor()]
                as int + 1,
    {
        let pile_list = b.iter_piles();
        let mut piles: Vec<u8> = Vec::new();
        let mut i: usize = 0;
        while i < NUM_PILES
            invariant
                0 <= i <= 16,
                piles@.len() == i,
                forall|j: int| 0 <= j < i ==> (#[trigger] piles@[j]) as int == b@[j].len(),
            decreases 16 - i,
        {
            let pile = &pile_list[i].1;
            piles.push(pile.height());
            i += 1;
        }
        let mut start_index: usize = 0;
        let mut found = false;
        let mut i: usize = 0;
        while i < NUM_PILES
            invariant
                0 <= i <= 16,
                found ==> start_index < 16 && piles@[start_index as int] > 0 && forall|j: int|
                    0 <= j < start_index ==> (#[trigger] piles@[j]) == 0,
                !found ==> start_index == 0 && forall|j: int|
                    0 <= j < i ==> (#[trigger] piles@[j]) == 0,
            decreases 16 - i,
        {
            if !found && piles[i] > 0 {
                start_index = i;
                found = true;
            }
            i += 1;
        }
        let h = piles[start_index];
        let length: u8 = if h > 0 {
            h + 1
        } else {
            0
        };
        let path_generator = PathGenerator::new(Position::from_index(start_index), length);
        MoveGenerator { piles, start_index, path_generator }
    }

    /// Yields the next legal move's path, or `None` once every pile's
    /// paths are exhausted.  Every yielded path is rooted at a non-empty
    /// pile of the captured board and carries exactly one step per stone
    /// of that pile plus one, for the new stone.  The enumeration never
    /// moves back to an earlier pile, skips only empty piles, and within
    /// one pile hands the underlying path enumerator's strictly
    /// increasing, gap-free order through; `None` comes only with every
    /// later pile empty and the current pile's paths exhausted.
    #[verifier::loop_isolation(false)]
    #[verifier::rlimit(100)]
    pub fn next(&mut self) -> (r: Option<Path>)
        requires
            old(self).wf(),
        ensures
            final(self).wf(),
            final(self).heights() == old(self).heights(),
            final(self).cursor() >= old(self).cursor(),
            match r {
                Some(p) => {
                    &&& p.wf()
                    &&& no_uturns(p.dirs())
                    &&& 0 <= p.start_i() < 16
                    &&& 1 <= old(self).heights()[p.start_i()] as int
                    &&& p.dirs().len() == old(self).heights()[p.start_i()] as int + 1
                    &&& p.end_i() == path_end(p.start_i(), p.dirs())
                    &&& p.start_i() == final(self).cursor()
                    &&& p.dirs() == final(self).cur_steps()
                    &&& final(self).gen_target() == p.dirs().len()
                    &&& (forall|i: int|
                        old(self).cursor() < i < final(self).cursor() ==> (
                        #[trigger] old(self).heights()[i]) as int == 0)
                    &&& (final(self).cursor() > old(self).cursor() ==> forall|q: Seq<Direction>|
                        #[trigger] valid_path_steps(p.start_i(), p.dirs().len() as int, q)
                            ==> !lex_lt(q, p.dirs()))
                    &&& (final(self).cursor() > old(self).cursor() && old(self).gen_target() != 0
                        ==> forall|q: Seq<Direction>|
                        #[trigger] valid_path_steps(old(self).cursor(), old(self).gen_target(), q)
                            ==> !lex_lt(old(self).cur_steps(), q))
                    &&& (final(self).cursor() == old(self).cursor() && old(self).cur_steps().len()
                        == 0 ==> forall|q: Seq<Direction>|
                        #[trigger] valid_path_steps(p.start_i(), p.dirs().len() as int, q)
                            ==> !lex_lt(q, p.dirs()))
                    &&& (final(self).cursor() == old(self).cursor() && old(self).cur_steps().len()
                        == old(self).gen_target() ==> lex_lt(old(self).cur_steps(), p.dirs()) && (
                    forall|q: Seq<Direction>|
                        #[trigger] valid_path_steps(p.start_i(), p.dirs().len() as int, q)
                            && lex_lt(old(self).cur_steps(), q) ==> !lex_lt(q, p.dirs())))
                },
                None => {
                    &&& final(self).cursor() == 15
                    &&& final(self).gen_target() == 0
                    &&& (forall|i: int|
                        old(self).cursor() < i < 16 ==> (#[trigger] old(self).heights()[i]) as int
                            == 0)
                    &&& (old(self).gen_target() != 0 ==> forall|q: Seq<Direction>|
                        #[trigger] valid_path_steps(old(self).cursor(), old(self).gen_target(), q)
                            ==> !lex_lt(old(self).cur_steps(), q))
                },
            },
            old(self).gen_target() == 0 && old(self).cursor() == 15 ==> r is None,
    {
        let ghost c0 = self.cursor();
        let mut path = self.path_generator.next();
        proof {
            if path is None && old(self).gen_target() != 0 {
                assert forall|q: Seq<Direction>|
                    #[trigger] valid_path_steps(
                        old(self).cursor(),
                        old(self).gen_target(),
                        q,
                    ) implies !lex_lt(old(self).cur_steps(), q) by {
                    assert(valid_path_steps(
                        old(self).path_generator.start_i(),
                        old(self).path_generator.target(),
                        q,
                    ));
                }
            }
        }
        while path.is_none() && self.start_index < NUM_PILES - 1
            invariant
                path is None ==> (old(self).gen_target() != 0 ==> forall|q: Seq<Direction>|
                    #[trigger] valid_path_steps(old(self).cursor(), old(self).gen_target(), q)
                        ==> !lex_lt(old(self).cur_steps(), q)),
                self.piles@ == old(self).piles@,
                c0 <= self.start_index < 16,
                self.path_generator.wf(),
                path is Some ==> !self.path_generator.exhausted(),
                old(self).gen_target() == 0 && c0 == 15 ==> path is None,
                forall|i: int| c0 < i < self.start_index ==> (#[trigger] self.piles@[i]) as int == 0,
                path is None ==> self.start_index == c0 || self.piles@[self.start_index as int]
                    as int == 0,
                match path {
                    Some(p) => {
                        &&& self.path_generator.start_i() == self.start_index as int
                        &&& 1 <= self.piles@[self.start_index as int] as int
                        &&& self.path_generator.target() == self.piles@[self.start_index as int]
                            as int + 1
                        &&& p.wf()
                        &&& no_uturns(p.dirs())
                        &&& p.start_i() == self.start_index as int
                        &&& p.dirs().len() == self.path_generator.target()
                        &&& p.dirs() == self.path_generator.cur()
                        &&& p.end_i() == path_end(p.start_i(), p.dirs())
                        &&& (self.start_index as int > c0 ==> forall|q: Seq<Direction>|
                            #[trigger] valid_path_steps(p.start_i(), p.dirs().len() as int, q)
                                ==> !lex_lt(q, p.dirs()))
                        &&& (self.start_index as int > c0 && old(self).gen_target() != 0 ==> forall|
                            q: Seq<Direction>,
                        |
                            #[trigger] valid_path_steps(old(self).cursor(), old(self).gen_target(), q)
                                ==> !lex_lt(old(self).cur_steps(), q))
                        &&& (self.start_index as int == c0 && old(self).cur_steps().len() == 0
                            ==> forall|q: Seq<Direction>|
                            #[trigger] valid_path_steps(p.start_i(), p.dirs().len() as int, q)
                                ==> !lex_lt(q, p.dirs()))
                        &&& (self.start_index as int == c0 && old(self).cur_steps().len() == old(
                            self,
                        ).gen_target() ==> lex_lt(old(self).cur_steps(), p.dirs()) && (forall|
                            q: Seq<Direction>,
                        |
                            #[trigger] valid_path_steps(p.start_i(), p.dirs().len() as int, q)
                                && lex_lt(old(self).cur_steps(), q) ==> !lex_lt(q, p.dirs())))
                    },
                    None => true,
                },
            decreases NUM_PILES - self.start_index,
        {
            self.start_index += 1;
            if self.piles[self.start_index] == 0 {
                continue;
            }
            let h = self.piles[self.start_index];
            self.path_generator = PathGenerator::new(
                Position::from_index(self.start_index),
                h + 1,
            );
            path = self.path_generator.next();
        }
        if path.is_none() {
            self.path_generator = PathGenerator::new(Position::from_index(self.start_index), 0);
        }
        path
    }
}

/// Over the starting board every enumerated move is rooted at one of
/// the four corner piles, and its path carries exactly three steps: the
/// corner piles hold two stones each, every other pile none.
pub proof fn lemma_starting_board_moves(h: Seq<u8>, start: int, len: int)
    requires
        h.len() == 16,
        forall|i: int| 0 <= i < 16 ==> (#[trigger] h[i]) as int == starting_spec()[i].len(),
        0 <= start < 16,
        1 <= h[start] as int,
        len == h[start] as int + 1,
    ensures
        corner_cell(start),
        len == 3,
{
    assert(starting_spec()[start].len() == h[start] as int);
    if corner_cell(start) {
        assert(starting_spec()[start].len() == 2);
    } else {
        assert(starting_spec()[start].len() == 0);
    }
}

} // verus!
