//! A bounded stack of stones sitting on one cell of the board.

use vstd::prelude::*;

use crate::avec::{stone_av_last, stone_av_len, stone_av_new, stone_av_push, stone_av_seq,
    stone_av_take};
use crate::stone::Stone;

verus! {

/// Most stones one pile can hold.
pub const PILE_CAPACITY: usize = 8;

/// What the topmost stone of a pile is, with `Empty` for a pile that holds
/// none.
#[derive(PartialEq, Eq, Structural, Copy, Clone, Debug, Hash, Default)]
pub enum PileTop {
    #[default]
    Empty,
    RedStone,
    WhiteStone,
    NeutralStone,
}

/// The top view of a pile holding the stones `s`, bottom first.
pub open spec fn pile_top_spec(s: Seq<Stone>) -> PileTop {
    if s.len() == 0 {
        PileTop::Empty
    } else {
        match s.last() {
            Stone::Neutral => PileTop::NeutralStone,
            Stone::Red => PileTop::RedStone,
            Stone::White => PileTop::WhiteStone,
        }
    }
}

/// An ordered stack of stones, bottom first, holding at most
/// `PILE_CAPACITY` stones.
#[derive(PartialEq, Eq, Copy, Clone, Debug, Hash)]
pub struct StonePile(pub(crate) tinyvec::ArrayVec<[Stone; 8]>);

impl View for StonePile {
    type V = Seq<Stone>;

    closed spec fn view(&self) -> Seq<Stone> {
        stone_av_seq(self.0)
    }
}

impl Default for StonePile {
    /// An empty pile.
    fn default() -> (r: Self)
        ensures
            r@ == Seq::<Stone>::empty(),
    {
        StonePile(stone_av_new())
    }
}

impl StonePile {
    /// The pile holds no more stones than its capacity.
    pub open spec fn wf(&self) -> bool {
        self@.len() <= PILE_CAPACITY
    }

    /// The identity of the topmost stone, or `Empty`.
    pub fn top(&self) -> (r: PileTop)
        ensures
            r == pile_top_spec(self@),
    {
        match stone_av_last(&self.0) {
            None => PileTop::Empty,
            Some(Stone::Red) => PileTop::RedStone,
            Some(Stone::White) => PileTop::WhiteStone,
            Some(Stone::Neutral) => PileTop::NeutralStone,
        }
    }

    /// How many stones the pile holds.
    pub fn height(&self) -> (r: u8)
        requires
            self.wf(),
        ensures
            r as int == self@.len(),
    {
        stone_av_len(&self.0) as u8
    }

    /// Pushes a stone on top.  Overflowing the capacity is a programming
    /// error, ruled out here by precondition.
    pub fn add_stone(&mut self, s: Stone)
        requires
            old(self)@.len() < PILE_CAPACITY,
        ensures
            final(self)@ == old(self)@.push(s),
    {
        stone_av_push(&mut self.0, s)
    }

    /// Empties the pile and hands its whole former content out, bottom
    /// first.
    pub fn take_pile(&mut self) -> (r: tinyvec::ArrayVec<[Stone; 8]>)
        ensures
            stone_av_seq(r) == old(self)@,
            final(self)@ == Seq::<Stone>::empty(),
    {
        stone_av_take(&mut self.0)
    }
}

} // verus!
