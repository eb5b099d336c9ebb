//! The board: one pile per cell, the canonical starting layout, the
//! move-application transition, and win detection on the board-top
//! projection.

use vstd::prelude::*;

use crate::avec::{stone_av_get, stone_av_push, stone_av_seq};
use crate::game_state::{player_of_top, Move, PlayerColor};
use crate::path::{lemma_path_ok_prefix, path_end, path_ok};
use crate::position::{can_step_at, lemma_step_in_bounds, step_at, Direction, Position,
    NUM_PILES};
use crate::stone::Stone;
use crate::stone_pile::{pile_top_spec, PileTop, StonePile};

verus! {

/// The four corner cells of the board.
pub open spec fn corner_cell(i: int) -> bool {
    i == 0 || i == 3 || i == 12 || i == 15
}

/// The canonical starting layout: two neutral stones on each corner cell,
/// every other pile empty.
pub open spec fn starting_spec() -> Seq<Seq<Stone>> {
    Seq::new(
        16,
        |i: int|
            if corner_cell(i) {
                seq![Stone::Neutral, Stone::Neutral]
            } else {
                Seq::<Stone>::empty()
            },
    )
}

/// The top-marker projection of a board.
pub open spec fn board_top_spec(b: Seq<Seq<Stone>>) -> Seq<PileTop> {
    Seq::new(16, |i: int| pile_top_spec(b[i]))
}

/// Total number of stones on a board.
pub open spec fn total_stones(b: Seq<Seq<Stone>>) -> int
    decreases b.len(),
{
    if b.len() == 0 {
        0
    } else {
        total_stones(b.drop_last()) + b.last().len()
    }
}

/// Drops `hand` one stone per step along `steps` walked from `pos`: the
/// first stone of the hand lands on the first stepped-to cell, and so on.
pub open spec fn place_from(
    b: Seq<Seq<Stone>>,
    pos: int,
    steps: Seq<Direction>,
    hand: Seq<Stone>,
) -> Seq<Seq<Stone>>
    decreases steps.len(),
{
    if steps.len() == 0 {
        b
    } else {
        let p2 = step_at(pos, steps[0]);
        place_from(b.update(p2, b[p2].push(hand[0])), p2, steps.drop_first(), hand.drop_first())
    }
}

/// The board after applying a move: the pile at `start` is lifted whole,
/// the new stone `s` goes on top of that hand, and the hand is unloaded
/// along `steps`.
pub open spec fn apply_spec(
    b: Seq<Seq<Stone>>,
    start: int,
    steps: Seq<Direction>,
    s: Stone,
) -> Seq<Seq<Stone>> {
    place_from(b.update(start, Seq::<Stone>::empty()), start, steps, b[start].push(s))
}

/// How many of the cells stepped onto from `pos` along `steps` are cell
/// `c`.
pub open spec fn visit_count(pos: int, steps: Seq<Direction>, c: int) -> int
    decreases steps.len(),
{
    if steps.len() == 0 {
        0
    } else {
        let p2 = step_at(pos, steps[0]);
        (if p2 == c {
            1int
        } else {
            0int
        }) + visit_count(p2, steps.drop_first(), c)
    }
}

/// No pile overflows its capacity when the move is unloaded: the lifted
/// start pile counts as empty, and each cell gains one stone per visit.
pub open spec fn move_fits_spec(b: Seq<Seq<Stone>>, start: int, steps: Seq<Direction>) -> bool {
    forall|c: int|
        0 <= c < 16 ==> (if c == start {
            0
        } else {
            b[c].len() as int
        }) + #[trigger] visit_count(start, steps, c) <= 8
}

/// A legal move application: the start pile is on the board and not
/// empty, the path carries exactly one step per stone of the hand (the
/// lifted pile plus the new stone), and no pile overflows.
pub open spec fn move_ok(b: Seq<Seq<Stone>>, start: int, steps: Seq<Direction>) -> bool {
    &&& 0 <= start < 16
    &&& b[start].len() >= 1
    &&& b[start].len() + 1 == steps.len()
    &&& move_fits_spec(b, start, steps)
}

/// A walk decomposes from the front: its end is the end of the tail walk
/// begun one step in.
pub proof fn lemma_path_end_uncons(pos: int, s: Seq<Direction>)
    requires
        s.len() > 0,
    ensures
        path_end(pos, s) == path_end(step_at(pos, s[0]), s.drop_first()),
    decreases s.len(),
{
    let p2 = step_at(pos, s[0]);
    if s.len() == 1 {
        assert(s.drop_last() =~= Seq::<Direction>::empty());
        assert(s.drop_first() =~= Seq::<Direction>::empty());
        assert(s.last() == s[0]);
        assert(path_end(pos, s.drop_last()) == pos);
        assert(path_end(pos, s) == step_at(pos, s[0]));
        assert(path_end(p2, s.drop_first()) == p2);
    } else {
        lemma_path_end_uncons(pos, s.drop_last());
        assert(s.drop_last()[0] == s[0]);
        assert(s.drop_last().drop_first() =~= s.drop_first().drop_last());
        assert(s.drop_first().last() == s.last());
        assert(path_end(pos, s.drop_last()) == path_end(p2, s.drop_last().drop_first()));
        assert(s.drop_first().len() > 0);
        assert(path_end(p2, s.drop_first()) == step_at(
            path_end(p2, s.drop_first().drop_last()),
            s.drop_first().last(),
        ));
        assert(path_end(pos, s) == step_at(path_end(pos, s.drop_last()), s.last()));
    }
}

/// Staying on the board decomposes from the front likewise.
pub proof fn lemma_path_ok_uncons(pos: int, s: Seq<Direction>)
    requires
        s.len() > 0,
        path_ok(pos, s),
    ensures
        can_step_at(pos, s[0]),
        path_ok(step_at(pos, s[0]), s.drop_first()),
    decreases s.len(),
{
    let p2 = step_at(pos, s[0]);
    if s.len() == 1 {
        assert(s.drop_last() =~= Seq::<Direction>::empty());
        assert(s.drop_first() =~= Seq::<Direction>::empty());
        assert(s.last() == s[0]);
    } else {
        lemma_path_ok_uncons(pos, s.drop_last());
        assert(s.drop_last()[0] == s[0]);
        assert(s.drop_last().drop_first() =~= s.drop_first().drop_last());
        assert(s.drop_first().last() == s.last());
        lemma_path_end_uncons(pos, s.drop_last());
    }
}

/// A cell is never visited a negative number of times.
pub proof fn lemma_visit_count_nonneg(pos: int, steps: Seq<Direction>, c: int)
    ensures
        visit_count(pos, steps, c) >= 0,
    decreases steps.len(),
{
    if steps.len() > 0 {
        lemma_visit_count_nonneg(step_at(pos, steps[0]), steps.drop_first(), c);
    }
}

/// A cell is visited at most once per step.
pub proof fn lemma_visit_count_le(pos: int, steps: Seq<Direction>, c: int)
    ensures
        visit_count(pos, steps, c) <= steps.len(),
    decreases steps.len(),
{
    if steps.len() > 0 {
        lemma_visit_count_le(step_at(pos, steps[0]), steps.drop_first(), c);
    }
}

/// The board: one pile of stones per cell.
#[derive(PartialEq, Eq, Clone, Debug)]
pub struct Board {
    piles: Vec<StonePile>,
}

impl View for Board {
    type V = Seq<Seq<Stone>>;

    /// One stone sequence per cell, bottom of the pile first.
    closed spec fn view(&self) -> Seq<Seq<Stone>> {
        Seq::new(self.piles@.len() as nat, |i: int| self.piles@[i]@)
    }
}

impl Default for Board {
    /// A board of sixteen empty piles.
    fn default() -> (r: Board)
        ensures
            r.wf(),
            r@.len() == 16,
            forall|i: int| 0 <= i < 16 ==> r@[i] == Seq::<Stone>::empty(),
    {
        let mut piles: Vec<StonePile> = Vec::new();
        let mut i: usize = 0;
        while i < NUM_PILES
            invariant
                0 <= i <= 16,
                piles@.len() == i,
                forall|j: int| 0 <= j < i ==> (#[trigger] piles@[j])@ == Seq::<Stone>::empty(),
            decreases 16 - i,
        {
            piles.push(StonePile::default());
            i += 1;
        }
        Board { piles }
    }
}

impl Board {
    /// Every pile respects the capacity, and there is one per cell.
    pub open spec fn wf(&self) -> bool {
        &&& self@.len() == 16
        &&& forall|i: int| 0 <= i < 16 ==> (#[trigger] self@[i]).len() <= 8
    }

    /// The canonical starting board: two neutral stones on each corner
    /// pile, all other piles empty.
    pub fn starting_board() -> (r: Board)
        ensures
            r.wf(),
            r@ == starting_spec(),
    {
        let mut b = Board::default();
        let corners: [Position; 4] = [
            Position::top_left(),
            Position::top_right(),
            Position::bottom_left(),
            Position::bottom_right(),
        ];
        let mut k: usize = 0;
        while k < 4
            invariant
                0 <= k <= 4,
                b@.len() == 16,
                corners@.len() == 4,
                corners@[0].idx() == 0 && corners@[1].idx() == 12 && corners@[2].idx() == 3
                    && corners@[3].idx() == 15,
                forall|i: int|
                    0 <= i < 16 ==> #[trigger] b@[i] == (if exists|j: int|
                        0 <= j < k && corners@[j].idx() == i {
                        seq![Stone::Neutral, Stone::Neutral]
                    } else {
                        Seq::<Stone>::empty()
                    }),
            decreases 4 - k,
        {
            let pos = corners[k];
            let idx = pos.to_index();
            proof {
                assert(corners@[k as int].idx() == 0 || corners@[k as int].idx() == 12
                    || corners@[k as int].idx() == 3 || corners@[k as int].idx() == 15);
                assert(!(exists|j: int| 0 <= j < k && corners@[j].idx() == idx as int));
                assert(b@[idx as int] == Seq::<Stone>::empty());
            }
            let ghost bv = b@;
            let mut pile = self_pile(&b, idx);
            pile.add_stone(Stone::Neutral);
            pile.add_stone(Stone::Neutral);
            b.piles.set(idx, pile);
            proof {
                assert(b@ =~= bv.update(idx as int, pile@));
                assert(pile@ =~= seq![Stone::Neutral, Stone::Neutral]);
                assert forall|i: int| 0 <= i < 16 implies #[trigger] b@[i] == (if exists|j: int|
                    0 <= j < k + 1 && corners@[j].idx() == i {
                    seq![Stone::Neutral, Stone::Neutral]
                } else {
                    Seq::<Stone>::empty()
                }) by {
                    if i == idx as int {
                        assert(0 <= k < k + 1 && corners@[k as int].idx() == i);
                        assert(b@[i] == pile@);
                    } else {
                        assert(b@[i] == bv[i]);
                        assert((exists|j: int| 0 <= j < k + 1 && corners@[j].idx() == i)
                            == (exists|j: int| 0 <= j < k && corners@[j].idx() == i));
                    }
                }
            }
            k += 1;
        }
        proof {
            assert forall|i: int| 0 <= i < 16 implies b@[i] == starting_spec()[i] by {
                if corner_cell(i) {
                    if i == 0 {
                        assert(corners@[0].idx() == i);
                    } else if i == 12 {
                        assert(corners@[1].idx() == i);
                    } else if i == 3 {
                        assert(corners@[2].idx() == i);
                    } else {
                        assert(corners@[3].idx() == i);
                    }
                } else {
                    assert(!(exists|j: int| 0 <= j < 4 && corners@[j].idx() == i));
                }
            }
            assert(b@ =~= starting_spec());
        }
        b
    }

    /// The board-top projection: the topmost stone of each pile.
    pub fn top(&self) -> (r: BoardTop)
        requires
            self.wf(),
        ensures
            r.wf(),
            r@ == board_top_spec(self@),
    {
        let mut tops: Vec<PileTop> = Vec::new();
        let mut i: usize = 0;
        while i < NUM_PILES
            invariant
                self.wf(),
                0 <= i <= 16,
                tops@.len() == i,
                forall|j: int| 0 <= j < i ==> tops@[j] == pile_top_spec(self@[j]),
            decreases 16 - i,
        {
            let pile = self_pile(self, i);
            tops.push(pile.top());
            i += 1;
        }
        proof {
            assert(tops@ =~= board_top_spec(self@));
        }
        BoardTop::new(tops)
    }

    /// Each cell of the board with its pile, in cell-index order.
    pub fn iter_piles(&self) -> (r: Vec<(Position, StonePile)>)
        requires
            self.wf(),
        ensures
            r@.len() == 16,
            forall|i: int|
                0 <= i < 16 ==> (#[trigger] r@[i]).0.wf() && r@[i].0.idx() == i && r@[i].1@
                    == self@[i],
    {
        let mut out: Vec<(Position, StonePile)> = Vec::new();
        let mut i: usize = 0;
        while i < NUM_PILES
            invariant
                self.wf(),
                0 <= i <= 16,
                out@.len() == i,
                forall|j: int|
                    0 <= j < i ==> (#[trigger] out@[j]).0.wf() && out@[j].0.idx() == j
                        && out@[j].1@ == self@[j],
            decreases 16 - i,
        {
            let pile = self_pile(self, i);
            out.push((Position::from_index(i), pile));
            i += 1;
        }
        out
    }

    /// Whether `mv` may legally be applied to this board: its start pile
    /// is not empty, its path carries exactly one step per stone of the
    /// lifted hand plus the new stone, and no pile would overflow.
    #[verifier::loop_isolation(false)]
    #[verifier::rlimit(50)]
    pub fn move_fits(&self, mv: &Move) -> (r: bool)
        requires
            self.wf(),
            mv.path.wf(),
        ensures
            r == move_ok(self@, mv.path.start_i(), mv.path.dirs()),
    {
        let ghost steps = mv.path.dirs();
        let ghost s0 = mv.path.start_i();
        let start = mv.path.start();
        let si = start.to_index();
        let h = self_pile(self, si).height();
        if h == 0 {
            return false;
        }
        let n = mv.path.len();
        if (h as usize) + 1 != n {
            return false;
        }
        let mut counts: Vec<u8> = Vec::new();
        let mut i: usize = 0;
        while i < NUM_PILES
            invariant
                0 <= i <= 16,
                counts@.len() == i,
                forall|c: int|
                    0 <= c < i ==> (#[trigger] counts@[c]) as int == (if c == s0 {
                        0int
                    } else {
                        self@[c].len() as int
                    }),
            decreases 16 - i,
        {
            if i == si {
                counts.push(0);
            } else {
                counts.push(self_pile(self, i).height());
            }
            i += 1;
        }
        proof {
            assert(steps.skip(0) =~= steps);
            assert(steps.take(0) =~= Seq::<Direction>::empty());
        }
        let mut pos = start;
        let mut i: usize = 0;
        while i < n
            invariant
                0 <= i <= n,
                counts@.len() == 16,
                pos.wf(),
                pos.idx() == path_end(s0, steps.take(i as int)),
                forall|c: int|
                    0 <= c < 16 ==> (#[trigger] counts@[c]) as int + visit_count(
                        pos.idx(),
                        steps.skip(i as int),
                        c,
                    ) == (if c == s0 {
                        0int
                    } else {
                        self@[c].len() as int
                    }) + visit_count(s0, steps, c),
            decreases n - i,
        {
            let ghost oldpos = pos.idx();
            let d = mv.path.get_step(i);
            proof {
                lemma_path_ok_prefix(s0, steps, i + 1);
                assert(steps.take(i + 1).drop_last() =~= steps.take(i as int));
                assert(steps.take(i + 1).last() == steps[i as int]);
            }
            pos = pos.step(d);
            let idx = pos.to_index();
            proof {
                assert(steps.skip(i as int)[0] == steps[i as int]);
                assert(steps.skip(i as int).drop_first() =~= steps.skip(i + 1));
                lemma_visit_count_nonneg(pos.idx(), steps.skip(i + 1), idx as int);
                lemma_visit_count_le(pos.idx(), steps.skip(i + 1), idx as int);
                lemma_visit_count_le(s0, steps, idx as int);
            }
            let cur = counts[idx];
            counts.set(idx, cur + 1);
            proof {
                assert forall|c: int|
                    0 <= c < 16 implies (#[trigger] counts@[c]) as int + visit_count(
                        pos.idx(),
                        steps.skip(i + 1),
                        c,
                    ) == (if c == s0 {
                        0int
                    } else {
                        self@[c].len() as int
                    }) + visit_count(s0, steps, c) by {
                    assert(visit_count(oldpos, steps.skip(i as int), c) == (if idx as int == c {
                        1int
                    } else {
                        0int
                    }) + visit_count(pos.idx(), steps.skip(i + 1), c));
                }
            }
            i += 1;
        }
        proof {
            assert(steps.skip(n as int) =~= Seq::<Direction>::empty());
        }
        let mut c: usize = 0;
        while c < 16
            invariant
                0 <= c <= 16,
                counts@.len() == 16,
                forall|c2: int|
                    0 <= c2 < c ==> (if c2 == s0 {
                        0int
                    } else {
                        self@[c2].len() as int
                    }) + #[trigger] visit_count(s0, steps, c2) <= 8,
                forall|c2: int|
                    0 <= c2 < 16 ==> (#[trigger] counts@[c2]) as int == (if c2 == s0 {
                        0int
                    } else {
                        self@[c2].len() as int
                    }) + visit_count(s0, steps, c2),
            decreases 16 - c,
        {
            if counts[c] > 8 {
                return false;
            }
            c += 1;
        }
        true
    }

    /// Applies `mv`: lifts the start pile whole, puts the new stone on
    /// top of that hand, and unloads the hand one stone per step along
    /// the path, the oldest lifted stone first and the new stone last.
    /// An illegal move is a caller contract violation, ruled out here by
    /// precondition (`move_fits` tests exactly this precondition).
    #[verifier::loop_isolation(false)]
    #[verifier::rlimit(50)]
    pub fn apply_move(&mut self, mv: &Move)
        requires
            old(self).wf(),
            mv.path.wf(),
            move_ok(old(self)@, mv.path.start_i(), mv.path.dirs()),
        ensures
            final(self).wf(),
            final(self)@ == apply_spec(
                old(self)@,
                mv.path.start_i(),
                mv.path.dirs(),
                mv.new_stone,
            ),
    {
        let ghost b0 = self@;
        let ghost steps = mv.path.dirs();
        let ghost s0 = mv.path.start_i();
        let start = mv.path.start();
        let si = start.to_index();
        let mut spile = self_pile(self, si);
        let mut hand = spile.take_pile();
        self.piles.set(si, spile);
        proof {
            assert(self@ =~= b0.update(s0, Seq::<Stone>::empty()));
        }
        stone_av_push(&mut hand, mv.new_stone);
        let ghost hseq = stone_av_seq(hand);
        let ghost bb = self@;
        proof {
            assert(hseq == b0[s0].push(mv.new_stone));
        }
        let n = mv.path.len();
        proof {
            assert(steps.skip(0) =~= steps);
            assert(hseq.skip(0) =~= hseq);
            assert(steps.take(0) =~= Seq::<Direction>::empty());
            assert forall|c: int|
                0 <= c < 16 implies (#[trigger] bb[c]).len() + visit_count(s0, steps, c) <= 8 by {
                assert((if c == s0 {
                    0int
                } else {
                    b0[c].len() as int
                }) + visit_count(s0, steps, c) <= 8);
            }
        }
        let mut pos = start;
        let mut i: usize = 0;
        while i < n
            invariant
                0 <= i <= n,
                self@.len() == 16,
                pos.wf(),
                pos.idx() == path_end(s0, steps.take(i as int)),
                stone_av_seq(hand) == hseq,
                place_from(bb, s0, steps, hseq) == place_from(
                    self@,
                    pos.idx(),
                    steps.skip(i as int),
                    hseq.skip(i as int),
                ),
                forall|c: int|
                    0 <= c < 16 ==> (#[trigger] self@[c]).len() + visit_count(
                        pos.idx(),
                        steps.skip(i as int),
                        c,
                    ) <= 8,
            decreases n - i,
        {
            let ghost oldpos = pos.idx();
            let d = mv.path.get_step(i);
            proof {
                lemma_path_ok_prefix(s0, steps, i + 1);
                assert(steps.take(i + 1).drop_last() =~= steps.take(i as int));
                assert(steps.take(i + 1).last() == steps[i as int]);
            }
            pos = pos.step(d);
            let idx = pos.to_index();
            let ghost prev = self@;
            proof {
                assert(steps.skip(i as int)[0] == steps[i as int]);
                assert(hseq.skip(i as int)[0] == hseq[i as int]);
                assert(steps.skip(i as int).drop_first() =~= steps.skip(i + 1));
                assert(hseq.skip(i as int).drop_first() =~= hseq.skip(i + 1));
                lemma_visit_count_nonneg(pos.idx(), steps.skip(i + 1), idx as int);
                assert(visit_count(oldpos, steps.skip(i as int), idx as int) == 1int
                    + visit_count(pos.idx(), steps.skip(i + 1), idx as int));
                assert(prev[idx as int].len() < 8);
            }
            let mut pile = self_pile(self, idx);
            pile.add_stone(stone_av_get(&hand, i));
            self.piles.set(idx, pile);
            proof {
                assert(self@ =~= prev.update(idx as int, prev[idx as int].push(hseq[i as int])));
                assert(place_from(prev, oldpos, steps.skip(i as int), hseq.skip(i as int))
                    == place_from(self@, pos.idx(), steps.skip(i + 1), hseq.skip(i + 1)));
                assert forall|c: int|
                    0 <= c < 16 implies (#[trigger] self@[c]).len() + visit_count(
                        pos.idx(),
                        steps.skip(i + 1),
                        c,
                    ) <= 8 by {
                    assert(visit_count(oldpos, steps.skip(i as int), c) == (if idx as int == c {
                        1int
                    } else {
                        0int
                    }) + visit_count(pos.idx(), steps.skip(i + 1), c));
                }
            }
            i += 1;
        }
        proof {
            assert(steps.skip(n as int) =~= Seq::<Direction>::empty());
            assert(hseq.skip(n as int) =~= Seq::<Stone>::empty());
            assert forall|c: int| 0 <= c < 16 implies (#[trigger] self@[c]).len() <= 8 by {
                assert(self@[c].len() + visit_count(pos.idx(), steps.skip(n as int), c) <= 8);
            }
        }
    }
}

/// The pile at cell index `i`, as a value (piles are plain copies).
fn self_pile(b: &Board, i: usize) -> (r: StonePile)
    requires
        b@.len() == 16,
        i < 16,
    ensures
        r@ == b@[i as int],
{
    b.piles[i]
}

/// The board-top projection: only the topmost stone of each pile, used
/// for win detection.
#[derive(PartialEq, Eq, Clone, Debug, Hash)]
pub struct BoardTop(Vec<PileTop>);

impl View for BoardTop {
    type V = Seq<PileTop>;

    closed spec fn view(&self) -> Seq<PileTop> {
        self.0@
    }
}

impl BoardTop {
    /// One top per cell.
    pub open spec fn wf(&self) -> bool {
        self@.len() == 16
    }

    /// A projection from one top value per cell, in cell-index order.
    pub fn new(piles: Vec<PileTop>) -> (r: BoardTop)
        requires
            piles@.len() == 16,
        ensures
            r.wf(),
            r@ == piles@,
    {
        BoardTop(piles)
    }

    /// Each cell with its top value, in cell-index order.
    pub fn iter_piles(&self) -> (r: Vec<(Position, PileTop)>)
        requires
            self.wf(),
        ensures
            r@.len() == 16,
            forall|i: int|
                0 <= i < 16 ==> (#[trigger] r@[i]).0.wf() && r@[i].0.idx() == i && r@[i].1
                    == self@[i],
    {
        let mut out: Vec<(Position, PileTop)> = Vec::new();
        let mut i: usize = 0;
        while i < NUM_PILES
            invariant
                self.wf(),
                0 <= i <= 16,
                out@.len() == i,
                forall|j: int|
                    0 <= j < i ==> (#[trigger] out@[j]).0.wf() && out@[j].0.idx() == j && out@[j].1
                        == self@[j],
            decreases 16 - i,
        {
            out.push((Position::from_index(i), self.0[i]));
            i += 1;
        }
        out
    }

    /// The owner of scan line `k`, if its four cells hold one player's
    /// top value.
    fn line_winner(&self, k: usize) -> (r: Option<PlayerColor>)
        requires
            self.wf(),
            k < 10,
        ensures
            r == line_winner_spec(self@, k as int),
    {
        proof {
            lemma_line_cells_in_bounds(k as int);
        }
        let first = self.0[line_cell_at(k, 0)];
        let mut j: usize = 1;
        while j < 4
            invariant
                self.wf(),
                k < 10,
                1 <= j <= 4,
                first == self@[line_cell(k as int, 0)],
                forall|j2: int|
                    0 <= j2 < j ==> self@[#[trigger] line_cell(k as int, j2)] == self@[line_cell(
                        k as int,
                        0,
                    )],
            decreases 4 - j,
        {
            proof {
                lemma_line_cells_in_bounds(k as int);
            }
            if self.0[line_cell_at(k, j)] != first {
                proof {
                    assert(self@[line_cell(k as int, j as int)] != self@[line_cell(k as int, 0)]);
                    assert(!line_uniform(self@, k as int));
                }
                return None;
            }
            j += 1;
        }
        proof {
            assert(line_uniform(self@, k as int));
        }
        PlayerColor::from_pile_top(first)
    }

    /// The winning player, if any: the first line in scan order — rows,
    /// then columns, then the two diagonals — whose four cells all hold
    /// that player's top value.
    pub fn winner(&self) -> (r: Option<PlayerColor>)
        requires
            self.wf(),
        ensures
            r == winner_spec(self@),
    {
        let mut k: usize = 0;
        while k < 10
            invariant
                self.wf(),
                0 <= k <= 10,
                winner_spec(self@) == winner_from(self@, k as int),
            decreases 10 - k,
        {
            let lw = self.line_winner(k);
            if lw.is_some() {
                proof {
                    assert(winner_from(self@, k as int) == lw);
                }
                return lw;
            }
            proof {
                assert(winner_from(self@, k as int) == winner_from(self@, k as int + 1));
            }
            k += 1;
        }
        proof {
            assert(winner_from(self@, 10) is None);
        }
        None
    }
}

/// Cell `j` of scan line `k`, as an index.
fn line_cell_at(k: usize, j: usize) -> (r: usize)
    requires
        k < 10,
        j < 4,
    ensures
        r as int == line_cell(k as int, j as int),
        r < 16,
{
    if k < 4 {
        4 * k + j
    } else if k < 8 {
        (k - 4) + 4 * j
    } else if k == 8 {
        5 * j
    } else {
        12 - 3 * j
    }
}

/// Cell `j` (0..4) of scan line `k` (0..10): the four rows top to
/// bottom, then the four columns, then the two diagonals, in the order
/// the win detector scans them.
pub open spec fn line_cell(k: int, j: int) -> int {
    if k < 4 {
        4 * k + j
    } else if k < 8 {
        (k - 4) + 4 * j
    } else if k == 8 {
        5 * j
    } else {
        12 - 3 * j
    }
}

/// All four cells of line `k` hold the same top value.
pub open spec fn line_uniform(t: Seq<PileTop>, k: int) -> bool {
    forall|j: int| 0 <= j < 4 ==> t[#[trigger] line_cell(k, j)] == t[line_cell(k, 0)]
}

/// The player owning line `k` outright, if any: the line is uniform and
/// its top value belongs to a player.
pub open spec fn line_winner_spec(t: Seq<PileTop>, k: int) -> Option<PlayerColor> {
    if line_uniform(t, k) {
        player_of_top(t[line_cell(k, 0)])
    } else {
        None
    }
}

/// The winner found scanning lines `k`, `k + 1`, ... in order: the owner
/// of the first player-owned uniform line.
pub open spec fn winner_from(t: Seq<PileTop>, k: int) -> Option<PlayerColor>
    decreases 10 - k,
{
    if k >= 10 {
        None
    } else if line_winner_spec(t, k) is Some {
        line_winner_spec(t, k)
    } else {
        winner_from(t, k + 1)
    }
}

/// The winner a board-top projection reports: rows before columns before
/// diagonals, first owned line found.
pub open spec fn winner_spec(t: Seq<PileTop>) -> Option<PlayerColor> {
    winner_from(t, 0)
}

/// Every cell of every scan line is on the board.
pub proof fn lemma_line_cells_in_bounds(k: int)
    requires
        0 <= k < 10,
    ensures
        forall|j: int| 0 <= j < 4 ==> 0 <= #[trigger] line_cell(k, j) < 16,
{
}

proof fn lemma_winner_from_char(t: Seq<PileTop>, k: int)
    requires
        0 <= k <= 10,
    ensures
        (winner_from(t, k) is Some) <==> exists|k2: int|
            k <= k2 < 10 && (#[trigger] line_winner_spec(t, k2)) is Some,
        winner_from(t, k) is Some ==> exists|k2: int|
            k <= k2 < 10 && #[trigger] line_winner_spec(t, k2) == winner_from(t, k),
    decreases 10 - k,
{
    if k < 10 {
        lemma_winner_from_char(t, k + 1);
        if line_winner_spec(t, k) is Some {
            assert(k <= k < 10 && line_winner_spec(t, k) is Some);
            assert(line_winner_spec(t, k) == winner_from(t, k));
        } else {
            assert(winner_from(t, k) == winner_from(t, k + 1));
            if exists|k2: int| k <= k2 < 10 && (#[trigger] line_winner_spec(t, k2)) is Some {
                let w = choose|k2: int|
                    k <= k2 < 10 && (#[trigger] line_winner_spec(t, k2)) is Some;
                assert(w != k);
                assert(k + 1 <= w < 10 && line_winner_spec(t, w) is Some);
            }
            if winner_from(t, k + 1) is Some {
                let w2 = choose|k2: int|
                    k + 1 <= k2 < 10 && #[trigger] line_winner_spec(t, k2) == winner_from(
                        t,
                        k + 1,
                    );
                assert(k <= w2 < 10 && line_winner_spec(t, w2) == winner_from(t, k));
            }
        }
    }
}

/// A projection reports a winner exactly when some line is uniformly
/// owned by a player, and the reported winner owns such a line.
pub proof fn lemma_winner_characterisation(t: Seq<PileTop>)
    ensures
        (winner_spec(t) is Some) <==> exists|k: int|
            0 <= k < 10 && (#[trigger] line_winner_spec(t, k)) is Some,
        winner_spec(t) is Some ==> exists|k: int|
            0 <= k < 10 && #[trigger] line_winner_spec(t, k) == winner_spec(t),
{
    lemma_winner_from_char(t, 0);
}

/// When every player-owned line belongs to `p` — in particular, when a
/// full line of `p`'s stones exists and the opponent owns no line — the
/// projection reports `p` as the winner.
pub proof fn lemma_one_player_line_wins(t: Seq<PileTop>, p: PlayerColor)
    requires
        exists|k: int| 0 <= k < 10 && #[trigger] line_winner_spec(t, k) == Some(p),
        forall|k: int|
            0 <= k < 10 && (#[trigger] line_winner_spec(t, k)) is Some ==> line_winner_spec(t, k)
                == Some(p),
    ensures
        winner_spec(t) == Some(p),
{
    lemma_winner_characterisation(t);
}

/// A projection with no player-owned top anywhere — a full board of
/// neutral tops, say — reports no winner.
pub proof fn lemma_no_player_top_no_winner(t: Seq<PileTop>)
    requires
        t.len() == 16,
        forall|i: int| 0 <= i < 16 ==> player_of_top(#[trigger] t[i]) is None,
    ensures
        winner_spec(t) is None,
{
    lemma_winner_characterisation(t);
    if winner_spec(t) is Some {
        let k = choose|k: int| 0 <= k < 10 && (#[trigger] line_winner_spec(t, k)) is Some;
        lemma_line_cells_in_bounds(k);
        assert(player_of_top(t[line_cell(k, 0)]) is Some);
        assert(false);
    }
}

proof fn lemma_total_update(b: Seq<Seq<Stone>>, c: int, v: Seq<Stone>)
    requires
        0 <= c < b.len(),
    ensures
        total_stones(b.update(c, v)) == total_stones(b) - b[c].len() + v.len(),
    decreases b.len(),
{
    let b2 = b.update(c, v);
    if c == b.len() - 1 {
        assert(b2.drop_last() =~= b.drop_last());
        assert(b2.last() == v);
    } else {
        assert(b2.drop_last() =~= b.drop_last().update(c, v));
        assert(b2.last() == b.last());
        lemma_total_update(b.drop_last(), c, v);
        assert(b.drop_last()[c] == b[c]);
    }
}

proof fn lemma_place_from_total(
    b: Seq<Seq<Stone>>,
    pos: int,
    steps: Seq<Direction>,
    hand: Seq<Stone>,
)
    requires
        b.len() == 16,
        0 <= pos < 16,
        path_ok(pos, steps),
        hand.len() == steps.len(),
    ensures
        total_stones(place_from(b, pos, steps, hand)) == total_stones(b) + steps.len(),
    decreases steps.len(),
{
    if steps.len() > 0 {
        lemma_path_ok_uncons(pos, steps);
        lemma_step_in_bounds(pos, steps[0]);
        let p2 = step_at(pos, steps[0]);
        let b2 = b.update(p2, b[p2].push(hand[0]));
        lemma_total_update(b, p2, b[p2].push(hand[0]));
        lemma_place_from_total(b2, p2, steps.drop_first(), hand.drop_first());
    }
}

/// Applying a legal move raises the total stone count by exactly one:
/// every lifted stone is conserved, and the one new stone is introduced.
pub proof fn lemma_apply_adds_one_stone(
    b: Seq<Seq<Stone>>,
    start: int,
    steps: Seq<Direction>,
    s: Stone,
)
    requires
        b.len() == 16,
        0 <= start < 16,
        path_ok(start, steps),
        b[start].len() + 1 == steps.len(),
    ensures
        total_stones(apply_spec(b, start, steps, s)) == total_stones(b) + 1,
{
    lemma_total_update(b, start, Seq::<Stone>::empty());
    lemma_place_from_total(
        b.update(start, Seq::<Stone>::empty()),
        start,
        steps,
        b[start].push(s),
    );
}

proof fn lemma_place_from_frame(
    b: Seq<Seq<Stone>>,
    pos: int,
    steps: Seq<Direction>,
    hand: Seq<Stone>,
    c: int,
)
    requires
        b.len() == 16,
        0 <= pos < 16,
        path_ok(pos, steps),
        0 <= c < 16,
        forall|m: int| 1 <= m <= steps.len() ==> path_end(pos, #[trigger] steps.take(m)) != c,
    ensures
        place_from(b, pos, steps, hand)[c] == b[c],
    decreases steps.len(),
{
    if steps.len() > 0 {
        let p2 = step_at(pos, steps[0]);
        lemma_path_ok_uncons(pos, steps);
        lemma_step_in_bounds(pos, steps[0]);
        assert(steps.take(1).drop_last() =~= Seq::<Direction>::empty());
        assert(steps.take(1).last() == steps[0]);
        assert(path_end(pos, steps.take(1).drop_last()) == pos);
        assert(path_end(pos, steps.take(1)) == p2);
        assert(p2 != c);
        let b2 = b.update(p2, b[p2].push(hand[0]));
        assert(b2[c] == b[c]);
        assert forall|m: int|
            1 <= m <= steps.drop_first().len() implies path_end(
            p2,
            #[trigger] steps.drop_first().take(m),
        ) != c by {
            lemma_path_end_uncons(pos, steps.take(m + 1));
            assert(steps.take(m + 1)[0] == steps[0]);
            assert(steps.take(m + 1).drop_first() =~= steps.drop_first().take(m));
            assert(path_end(pos, steps.take(m + 1)) != c);
        }
        lemma_place_from_frame(b2, p2, steps.drop_first(), hand.drop_first(), c);
    }
}

proof fn lemma_place_from_tops(
    b: Seq<Seq<Stone>>,
    pos: int,
    steps: Seq<Direction>,
    hand: Seq<Stone>,
    i: int,
)
    requires
        b.len() == 16,
        0 <= pos < 16,
        path_ok(pos, steps),
        hand.len() == steps.len(),
        0 <= i < steps.len(),
        forall|m: int|
            i + 1 < m <= steps.len() ==> path_end(pos, #[trigger] steps.take(m)) != path_end(
                pos,
                steps.take(i + 1),
            ),
    ensures
        ({
            let c = path_end(pos, steps.take(i + 1));
            let r = place_from(b, pos, steps, hand);
            r[c].len() > 0 && r[c].last() == hand[i]
        }),
    decreases steps.len(),
{
    let p2 = step_at(pos, steps[0]);
    let c = path_end(pos, steps.take(i + 1));
    lemma_path_ok_uncons(pos, steps);
    lemma_step_in_bounds(pos, steps[0]);
    assert(steps.take(1).drop_last() =~= Seq::<Direction>::empty());
    assert(steps.take(1).last() == steps[0]);
    assert(path_end(pos, steps.take(1).drop_last()) == pos);
    assert(path_end(pos, steps.take(1)) == p2);
    let b2 = b.update(p2, b[p2].push(hand[0]));
    if i == 0 {
        assert(c == p2);
        assert forall|m: int|
            1 <= m <= steps.drop_first().len() implies path_end(
            p2,
            #[trigger] steps.drop_first().take(m),
        ) != c by {
            lemma_path_end_uncons(pos, steps.take(m + 1));
            assert(steps.take(m + 1)[0] == steps[0]);
            assert(steps.take(m + 1).drop_first() =~= steps.drop_first().take(m));
            assert(path_end(pos, steps.take(m + 1)) != c);
        }
        lemma_place_from_frame(b2, p2, steps.drop_first(), hand.drop_first(), c);
        assert(b2[c] == b[c].push(hand[0]));
    } else {
        lemma_path_end_uncons(pos, steps.take(i + 1));
        assert(steps.take(i + 1)[0] == steps[0]);
        assert(steps.take(i + 1).drop_first() =~= steps.drop_first().take(i));
        assert(path_end(p2, steps.drop_first().take(i)) == c);
        assert forall|m: int|
            i < m <= steps.drop_first().len() implies path_end(
            p2,
            #[trigger] steps.drop_first().take(m),
        ) != path_end(p2, steps.drop_first().take(i)) by {
            lemma_path_end_uncons(pos, steps.take(m + 1));
            assert(steps.take(m + 1)[0] == steps[0]);
            assert(steps.take(m + 1).drop_first() =~= steps.drop_first().take(m));
            assert(path_end(pos, steps.take(m + 1)) != path_end(pos, steps.take(i + 1)));
        }
        lemma_place_from_tops(b2, p2, steps.drop_first(), hand.drop_first(), i - 1);
        assert(hand.drop_first()[i - 1] == hand[i]);
    }
}

/// After a legal move, each path cell not stepped onto again later holds
/// on top the hand stone placed there: the stone whose position in the
/// lifted hand matches the cell's position along the path.
pub proof fn lemma_apply_tops(
    b: Seq<Seq<Stone>>,
    start: int,
    steps: Seq<Direction>,
    s: Stone,
    i: int,
)
    requires
        b.len() == 16,
        0 <= start < 16,
        path_ok(start, steps),
        b[start].len() + 1 == steps.len(),
        0 <= i < steps.len(),
        forall|m: int|
            i + 1 < m <= steps.len() ==> path_end(start, #[trigger] steps.take(m)) != path_end(
                start,
                steps.take(i + 1),
            ),
    ensures
        ({
            let c = path_end(start, steps.take(i + 1));
            let r = apply_spec(b, start, steps, s);
            let hand = b[start].push(s);
            r[c].len() > 0 && r[c].last() == hand[i]
        }),
{
    lemma_place_from_tops(
        b.update(start, Seq::<Stone>::empty()),
        start,
        steps,
        b[start].push(s),
        i,
    );
}

/// The newly introduced stone always ends on top of the final cell of
/// the path.
pub proof fn lemma_apply_new_stone_on_top(
    b: Seq<Seq<Stone>>,
    start: int,
    steps: Seq<Direction>,
    s: Stone,
)
    requires
        b.len() == 16,
        0 <= start < 16,
        path_ok(start, steps),
        b[start].len() + 1 == steps.len(),
    ensures
        ({
            let c = path_end(start, steps);
            let r = apply_spec(b, start, steps, s);
            r[c].len() > 0 && r[c].last() == s
        }),
{
    let i = steps.len() - 1;
    assert(steps.take(i + 1) =~= steps);
    lemma_apply_tops(b, start, steps, s, i);
    assert(b[start].push(s)[i] == s);
}

} // verus!
