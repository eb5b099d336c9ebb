//! Paths across the board and the enumerator that produces every legal
//! path of a required length from a given start cell.

use vstd::prelude::*;

use crate::avec::{dir_av_get, dir_av_last, dir_av_len, dir_av_new, dir_av_pop, dir_av_push,
    dir_av_seq};
use crate::position::{can_step_at, dir_order, dir_valid, lemma_exists_step, lemma_step_back,
    lemma_step_in_bounds, rev_dir, step_at, Direction, Position};

verus! {

/// The cell reached by walking `steps` in order from the cell with index
/// `start`.
pub open spec fn path_end(start: int, steps: Seq<Direction>) -> int
    decreases steps.len(),
{
    if steps.len() == 0 {
        start
    } else {
        step_at(path_end(start, steps.drop_last()), steps.last())
    }
}

/// Every step of the walk stays on the board.
pub open spec fn path_ok(start: int, steps: Seq<Direction>) -> bool
    decreases steps.len(),
{
    if steps.len() == 0 {
        true
    } else {
        path_ok(start, steps.drop_last()) && can_step_at(
            path_end(start, steps.drop_last()),
            steps.last(),
        )
    }
}

/// No step is the exact reverse of the step before it.
pub open spec fn no_uturns(steps: Seq<Direction>) -> bool {
    forall|i: int, j: int|
        #![trigger steps[i], steps[j]]
        0 <= i && i + 1 == j && j < steps.len() ==> steps[j] != rev_dir(steps[i])
}

/// The last direction of a step sequence, if any.
pub open spec fn last_dir(steps: Seq<Direction>) -> Option<Direction> {
    if steps.len() == 0 {
        None
    } else {
        Some(steps.last())
    }
}

/// Appending one step extends the walk by one legal step.
pub proof fn lemma_path_push(start: int, s: Seq<Direction>, d: Direction)
    ensures
        path_end(start, s.push(d)) == step_at(path_end(start, s), d),
        path_ok(start, s.push(d)) == (path_ok(start, s) && can_step_at(path_end(start, s), d)),
{
    assert(s.push(d).drop_last() =~= s);
}

/// A walk that stays on the board ends on the board.
pub proof fn lemma_path_end_in_bounds(start: int, steps: Seq<Direction>)
    requires
        0 <= start < 16,
        path_ok(start, steps),
    ensures
        0 <= path_end(start, steps) < 16,
    decreases steps.len(),
{
    if steps.len() > 0 {
        lemma_path_end_in_bounds(start, steps.drop_last());
        lemma_step_in_bounds(path_end(start, steps.drop_last()), steps.last());
    }
}

/// Every prefix of a walk that stays on the board stays on the board.
pub proof fn lemma_path_ok_prefix(start: int, s: Seq<Direction>, k: int)
    requires
        path_ok(start, s),
        0 <= k <= s.len(),
    ensures
        path_ok(start, s.take(k)),
    decreases s.len() - k,
{
    if k == s.len() {
        assert(s.take(k) =~= s);
    } else {
        lemma_path_ok_prefix(start, s, k + 1);
        assert(s.take(k + 1).drop_last() =~= s.take(k));
    }
}

/// Appending a step that is not the reverse of the last keeps a step
/// sequence free of U-turns.
pub proof fn lemma_no_uturns_push(s: Seq<Direction>, d: Direction)
    requires
        no_uturns(s),
        s.len() == 0 || d != rev_dir(s.last()),
    ensures
        no_uturns(s.push(d)),
{
    let t = s.push(d);
    assert forall|i: int, j: int|
        #![trigger t[i], t[j]]
        0 <= i && i + 1 == j && j < t.len() implies t[j] != rev_dir(t[i]) by {
        if j < s.len() {
            assert(t[i] == s[i]);
            assert(t[j] == s[j]);
        } else {
            assert(j == s.len());
            assert(t[j] == d);
            assert(t[i] == s[i]);
            assert(s[i] == s.last());
        }
    }
}

/// Dropping the last step keeps a step sequence free of U-turns.
pub proof fn lemma_no_uturns_drop_last(s: Seq<Direction>)
    requires
        s.len() > 0,
        no_uturns(s),
    ensures
        no_uturns(s.drop_last()),
{
    let t = s.drop_last();
    assert forall|i: int, j: int|
        #![trigger t[i], t[j]]
        0 <= i && i + 1 == j && j < t.len() implies t[j] != rev_dir(t[i]) by {
        assert(t[i] == s[i]);
        assert(t[j] == s[j]);
    }
}

/// Strict lexicographic order on step sequences, by the canonical
/// direction order position by position, a proper prefix counting as
/// smaller.  The path enumerator yields paths in strictly increasing
/// order under it.
pub open spec fn lex_lt(a: Seq<Direction>, b: Seq<Direction>) -> bool
    decreases a.len(),
{
    &&& b.len() > 0
    &&& (a.len() == 0 || dir_order(a[0]) < dir_order(b[0]) || (a[0] == b[0] && lex_lt(
        a.drop_first(),
        b.drop_first(),
    )))
}

/// Two sequences that agree before position `k` and differ there in the
/// canonical order are lexicographically ordered.
pub proof fn lemma_lex_lt_diff(a: Seq<Direction>, b: Seq<Direction>, k: int)
    requires
        0 <= k < a.len(),
        k < b.len(),
        forall|j: int| 0 <= j < k ==> a[j] == b[j],
        dir_order(a[k]) < dir_order(b[k]),
    ensures
        lex_lt(a, b),
    decreases k,
{
    if k > 0 {
        let a2 = a.drop_first();
        let b2 = b.drop_first();
        assert(a[0] == b[0]);
        assert forall|j: int| 0 <= j < k - 1 implies a2[j] == b2[j] by {
            assert(a2[j] == a[j + 1]);
            assert(b2[j] == b[j + 1]);
        }
        assert(a2[k - 1] == a[k]);
        assert(b2[k - 1] == b[k]);
        lemma_lex_lt_diff(a2, b2, k - 1);
    }
}

/// The order is irreflexive: no sequence is below itself.  With
/// transitivity below, everything a single enumerator yields after a path
/// is distinct from it: the enumerator never repeats a path.
pub proof fn lemma_lex_lt_irrefl(a: Seq<Direction>)
    ensures
        !lex_lt(a, a),
    decreases a.len(),
{
    if a.len() > 0 {
        lemma_lex_lt_irrefl(a.drop_first());
    }
}

/// The order is transitive.
pub proof fn lemma_lex_lt_trans(a: Seq<Direction>, b: Seq<Direction>, c: Seq<Direction>)
    requires
        lex_lt(a, b),
        lex_lt(b, c),
    ensures
        lex_lt(a, c),
    decreases a.len(),
{
    if a.len() > 0 {
        if dir_order(a[0]) < dir_order(b[0]) {
            if !(dir_order(b[0]) < dir_order(c[0])) {
                assert(b[0] == c[0]);
            }
        } else {
            assert(a[0] == b[0] && lex_lt(a.drop_first(), b.drop_first()));
            if !(dir_order(b[0]) < dir_order(c[0])) {
                assert(b[0] == c[0] && lex_lt(b.drop_first(), c.drop_first()));
                lemma_lex_lt_trans(a.drop_first(), b.drop_first(), c.drop_first());
            }
        }
    }
}

/// Sequences related by the order differ.
pub proof fn lemma_lex_lt_ne(a: Seq<Direction>, b: Seq<Direction>)
    requires
        lex_lt(a, b),
    ensures
        a != b,
{
    lemma_lex_lt_irrefl(a);
}

/// A legal enumerable path: exactly `len` steps from cell `start`, each
/// staying on the board, with no U-turns.
pub open spec fn valid_path_steps(start: int, len: int, q: Seq<Direction>) -> bool {
    q.len() == len && path_ok(start, q) && no_uturns(q)
}

/// Lexicographic order on equal-length sequences holds at a first
/// difference: some position where both agree before it and the left is
/// earlier in the canonical order at it.
pub proof fn lemma_lex_lt_first_diff(a: Seq<Direction>, b: Seq<Direction>)
    requires
        a.len() == b.len(),
        lex_lt(a, b),
    ensures
        exists|m: int|
            0 <= m < a.len() && (forall|j: int| 0 <= j < m ==> a[j] == b[j]) && dir_order(
                #[trigger] a[m],
            ) < dir_order(b[m]),
    decreases a.len(),
{
    if dir_order(a[0]) < dir_order(b[0]) {
        let m = 0int;
        assert(0 <= m < a.len() && (forall|j: int| 0 <= j < m ==> a[j] == b[j]) && dir_order(
            a[m],
        ) < dir_order(b[m]));
    } else {
        assert(a[0] == b[0] && lex_lt(a.drop_first(), b.drop_first()));
        lemma_lex_lt_first_diff(a.drop_first(), b.drop_first());
        let m2 = choose|m2: int|
            0 <= m2 < a.drop_first().len() && (forall|j: int|
                0 <= j < m2 ==> a.drop_first()[j] == b.drop_first()[j]) && dir_order(
                #[trigger] a.drop_first()[m2],
            ) < dir_order(b.drop_first()[m2]);
        let m = m2 + 1;
        assert(a.drop_first()[m2] == a[m]);
        assert(b.drop_first()[m2] == b[m]);
        assert forall|j: int| 0 <= j < m implies a[j] == b[j] by {
            if j >= 1 {
                assert(a.drop_first()[j - 1] == a[j]);
                assert(b.drop_first()[j - 1] == b[j]);
            }
        }
        assert(0 <= m < a.len() && (forall|j: int| 0 <= j < m ==> a[j] == b[j]) && dir_order(
            a[m],
        ) < dir_order(b[m]));
    }
}

/// Along a legal path that agrees with a partial path `c` on all of
/// `c`'s steps, the next step is a legal continuation of `c`.
proof fn lemma_valid_step_at(start: int, q: Seq<Direction>, c: Seq<Direction>, k: int)
    requires
        path_ok(start, q),
        no_uturns(q),
        0 <= k < q.len(),
        c.len() == k,
        forall|j: int| 0 <= j < k ==> q[j] == c[j],
    ensures
        dir_valid(path_end(start, c), last_dir(c), q[k]),
{
    lemma_path_ok_prefix(start, q, k + 1);
    assert(q.take(k + 1).drop_last() =~= q.take(k));
    assert(q.take(k + 1).last() == q[k]);
    assert(q.take(k) =~= c);
    assert(can_step_at(path_end(start, c), q[k]));
    if k >= 1 {
        assert(c.last() == c[k - 1]);
        assert(q[k - 1] == c[k - 1]);
        assert(q[k] != rev_dir(q[k - 1]));
    }
}

/// A start cell, a bounded sequence of steps, each staying on the board,
/// and the cell the walk ends on.
#[derive(PartialEq, Eq, Copy, Clone, Debug, Hash)]
pub struct Path {
    start: Position,
    steps: tinyvec::ArrayVec<[Direction; 8]>,
    end: Position,
}

impl Path {
    /// Index of the start cell.
    pub closed spec fn start_i(&self) -> int {
        self.start.idx()
    }

    /// The steps of the path, first step first.
    pub closed spec fn dirs(&self) -> Seq<Direction> {
        dir_av_seq(self.steps)
    }

    /// Index of the end cell.
    pub closed spec fn end_i(&self) -> int {
        self.end.idx()
    }

    /// The path starts on the board, holds at most as many steps as a pile
    /// can hold stones, stays on the board, and records its own end cell.
    pub open spec fn wf(&self) -> bool {
        &&& 0 <= self.start_i() < 16
        &&& self.dirs().len() <= 8
        &&& path_ok(self.start_i(), self.dirs())
        &&& self.end_i() == path_end(self.start_i(), self.dirs())
    }

    /// A path from `start` along the given steps.  Walking off the board
    /// is a programming error, ruled out here by precondition.
    pub fn new(start: Position, steps: tinyvec::ArrayVec<[Direction; 8]>) -> (r: Path)
        requires
            start.wf(),
            path_ok(start.idx(), dir_av_seq(steps)),
            dir_av_seq(steps).len() <= 8,
        ensures
            r.wf(),
            r.start_i() == start.idx(),
            r.dirs() == dir_av_seq(steps),
    {
        let ghost s = dir_av_seq(steps);
        let n = dir_av_len(&steps);
        let mut end = start;
        let mut i: usize = 0;
        while i < n
            invariant
                n as int == s.len(),
                s.len() <= 8,
                0 <= i <= n,
                start.wf(),
                path_ok(start.idx(), s),
                end.wf(),
                end.idx() == path_end(start.idx(), s.take(i as int)),
                s == dir_av_seq(steps),
            decreases n - i,
        {
            let d = dir_av_get(&steps, i);
            proof {
                lemma_path_ok_prefix(start.idx(), s, i + 1);
                assert(s.take(i + 1).drop_last() =~= s.take(i as int));
                assert(s.take(i + 1).last() == s[i as int]);
            }
            end = end.step(d);
            i += 1;
        }
        proof {
            assert(s.take(n as int) =~= s);
        }
        Path { start, steps, end }
    }

    /// The empty path resting on `start`.
    pub fn new_empty(start: Position) -> (r: Path)
        requires
            start.wf(),
        ensures
            r.wf(),
            r.start_i() == start.idx(),
            r.dirs() == Seq::<Direction>::empty(),
            r.end_i() == start.idx(),
    {
        Path { start, steps: dir_av_new(), end: start }
    }

    /// The start cell.
    pub fn start(&self) -> (r: Position)
        ensures
            r.idx() == self.start_i(),
    {
        self.start
    }

    /// The steps of the path.
    pub fn steps(&self) -> (r: &tinyvec::ArrayVec<[Direction; 8]>)
        ensures
            dir_av_seq(*r) == self.dirs(),
    {
        &self.steps
    }

    /// The end cell.
    pub fn end(&self) -> (r: Position)
        ensures
            r.idx() == self.end_i(),
    {
        self.end
    }

    /// Whether the path can be extended by a step in direction `dir`
    /// without leaving the board.
    pub fn can_step(&self, dir: Direction) -> (r: bool)
        requires
            self.wf(),
        ensures
            r == can_step_at(self.end_i(), dir),
    {
        proof {
            lemma_path_end_in_bounds(self.start_i(), self.dirs());
        }
        self.end.can_step(dir)
    }

    /// Extends the path by one step.  Leaving the board or overflowing the
    /// step capacity is a programming error, ruled out here by
    /// precondition.
    pub fn step(&mut self, dir: Direction)
        requires
            old(self).wf(),
            can_step_at(old(self).end_i(), dir),
            old(self).dirs().len() < 8,
        ensures
            final(self).wf(),
            final(self).start_i() == old(self).start_i(),
            final(self).dirs() == old(self).dirs().push(dir),
            final(self).end_i() == step_at(old(self).end_i(), dir),
    {
        proof {
            lemma_path_end_in_bounds(self.start_i(), self.dirs());
            lemma_path_push(self.start_i(), self.dirs(), dir);
        }
        self.end = self.end.step(dir);
        dir_av_push(&mut self.steps, dir);
    }

    /// Removes and returns the last step, moving the end cell back along
    /// its reverse.  Popping an empty path is a programming error, ruled
    /// out here by precondition.
    pub fn pop_step(&mut self) -> (r: Direction)
        requires
            old(self).wf(),
            old(self).dirs().len() >= 1,
        ensures
            final(self).wf(),
            final(self).start_i() == old(self).start_i(),
            final(self).dirs() == old(self).dirs().drop_last(),
            r == old(self).dirs().last(),
            final(self).end_i() == path_end(final(self).start_i(), final(self).dirs()),
    {
        proof {
            lemma_path_end_in_bounds(self.start_i(), self.dirs().drop_last());
            lemma_step_back(path_end(self.start_i(), self.dirs().drop_last()), self.dirs().last());
        }
        let dir = dir_av_pop(&mut self.steps).unwrap();
        self.end = self.end.step(dir.reverse());
        dir
    }

    /// How many steps the path holds.
    pub fn len(&self) -> (r: usize)
        ensures
            r as int == self.dirs().len(),
    {
        dir_av_len(&self.steps)
    }

    /// The step at index `i`, counted from the first.
    pub fn get_step(&self, i: usize) -> (r: Direction)
        requires
            i < self.dirs().len(),
        ensures
            r == self.dirs()[i as int],
    {
        dir_av_get(&self.steps, i)
    }

    /// The last step, if any.
    pub fn last_step(&self) -> (r: Option<Direction>)
        ensures
            r == last_dir(self.dirs()),
    {
        dir_av_last(&self.steps)
    }

    /// The cells the path visits after its start cell, in step order: one
    /// cell per step, the last being the end cell.
    pub fn iter_positions(&self) -> (r: Vec<Position>)
        requires
            self.wf(),
        ensures
            r@.len() == self.dirs().len(),
            forall|i: int|
                0 <= i < r@.len() ==> (#[trigger] r@[i]).wf() && r@[i].idx() == path_end(
                    self.start_i(),
                    self.dirs().take(i + 1),
                ),
    {
        let ghost s = self.dirs();
        let n = self.len();
        let mut out: Vec<Position> = Vec::new();
        let mut pos = self.start;
        let mut i: usize = 0;
        while i < n
            invariant
                n as int == s.len(),
                s == self.dirs(),
                self.wf(),
                0 <= i <= n,
                pos.wf(),
                pos.idx() == path_end(self.start_i(), s.take(i as int)),
                out@.len() == i,
                forall|j: int|
                    0 <= j < i ==> (#[trigger] out@[j]).wf() && out@[j].idx() == path_end(
                        self.start_i(),
                        s.take(j + 1),
                    ),
            decreases n - i,
        {
            let d = self.get_step(i);
            proof {
                lemma_path_ok_prefix(self.start_i(), s, i + 1);
                assert(s.take(i + 1).drop_last() =~= s.take(i as int));
                assert(s.take(i + 1).last() == s[i as int]);
            }
            pos = pos.step(d);
            out.push(pos);
            i += 1;
        }
        out
    }
}

/// The first direction of canonical rank at least `from` that legally
/// continues the path `p` (in bounds, no U-turn), if any.
fn first_valid_dir(p: &Path, from: u8) -> (r: Option<Direction>)
    requires
        p.wf(),
        from <= 4,
    ensures
        match r {
            Some(d) => {
                &&& from <= dir_order(d) < 4
                &&& dir_valid(p.end_i(), last_dir(p.dirs()), d)
                &&& forall|d2: Direction|
                    from <= dir_order(d2) < dir_order(d) ==> !dir_valid(
                        p.end_i(),
                        last_dir(p.dirs()),
                        d2,
                    )
            },
            None => forall|d2: Direction|
                from <= dir_order(d2) ==> !dir_valid(p.end_i(), last_dir(p.dirs()), d2),
        },
{
    let mut i: u8 = from;
    while i < 4
        invariant
            p.wf(),
            from <= i <= 4,
            forall|d2: Direction|
                from <= dir_order(d2) < i ==> !dir_valid(p.end_i(), last_dir(p.dirs()), d2),
        decreases 4 - i,
    {
        let d = Direction::from_canonical_index(i);
        if p.can_step(d) {
            let ok = match p.last_step() {
                None => true,
                Some(l) => !(d == l.reverse()),
            };
            if ok {
                return Some(d);
            }
        }
        proof {
            assert forall|d2: Direction|
                from <= dir_order(d2) < i + 1 implies !dir_valid(
                p.end_i(),
                last_dir(p.dirs()),
                d2,
            ) by {
                if dir_order(d2) == i as int {
                    assert(d2 == d);
                }
            }
        }
        i += 1;
    }
    None
}

/// Enumerates, lazily and in strictly increasing lexicographic order,
/// every path of exactly `length` steps from a fixed start cell that stays
/// on the board and never makes a U-turn.  The search is an incremental
/// depth-first backtrack: the stored path is the one yielded last, and
/// each call to `next` advances it in place.
#[derive(PartialEq, Eq, Copy, Clone, Debug, Hash)]
pub struct PathGenerator {
    length: usize,
    path: Path,
    done: bool,
}

impl PathGenerator {
    /// The required step count of every yielded path.
    pub closed spec fn target(&self) -> int {
        self.length as int
    }

    /// Index of the start cell of every yielded path.
    pub closed spec fn start_i(&self) -> int {
        self.path.start_i()
    }

    /// The steps of the stored partial path: empty before the first yield
    /// and after exhaustion, the last yielded path between yields.
    pub closed spec fn cur(&self) -> Seq<Direction> {
        self.path.dirs()
    }

    /// Whether the enumeration is over: set once `next` has returned
    /// `None`, never cleared.  The enumerator is single pass — an
    /// exhausted one yields nothing, ever.
    pub closed spec fn exhausted(&self) -> bool {
        self.done
    }

    /// The stored partial path is itself well formed.
    pub closed spec fn stored_path_wf(&self) -> bool {
        self.path.wf()
    }

    /// Between calls the stored path is well formed, free of U-turns, and
    /// either empty or of exactly the target length; once exhausted it
    /// stays empty.
    pub open spec fn wf(&self) -> bool {
        &&& self.stored_path_wf()
        &&& no_uturns(self.cur())
        &&& 0 <= self.target() <= 8
        &&& (self.cur().len() == 0 || self.cur().len() == self.target())
        &&& (self.exhausted() ==> self.cur().len() == 0)
    }

    /// An enumerator of all paths of exactly `length` steps from `start`.
    /// A length beyond a path's step capacity is a programming error,
    /// ruled out here by precondition.
    pub fn new(start: Position, length: u8) -> (r: PathGenerator)
        requires
            start.wf(),
            length <= 8,
        ensures
            r.wf(),
            r.target() == length as int,
            r.start_i() == start.idx(),
            r.cur().len() == 0,
            !r.exhausted(),
    {
        PathGenerator { length: length as usize, path: Path::new_empty(start), done: false }
    }

    /// Greedily extends the stored path to the target length, taking at
    /// each depth the first legal direction in canonical order: the
    /// result is the lexicographically least legal path extending the
    /// stored prefix.
    #[verifier::loop_isolation(false)]
    #[verifier::rlimit(60)]
    fn complete_path(&mut self)
        requires
            old(self).path.wf(),
            no_uturns(old(self).cur()),
            old(self).cur().len() <= old(self).target() <= 8,
        ensures
            final(self).path.wf(),
            no_uturns(final(self).cur()),
            final(self).cur().len() == final(self).target(),
            final(self).target() == old(self).target(),
            final(self).start_i() == old(self).start_i(),
            final(self).exhausted() == old(self).exhausted(),
            forall|j: int|
                0 <= j < old(self).cur().len() ==> final(self).cur()[j] == old(self).cur()[j],
            forall|q: Seq<Direction>|
                #[trigger] valid_path_steps(old(self).start_i(), old(self).target(), q) && (
                forall|j: int| 0 <= j < old(self).cur().len() ==> q[j] == old(self).cur()[j])
                    ==> !lex_lt(q, final(self).cur()),
    {
        let ghost g0 = self.cur();
        let ghost t0 = self.target();
        let ghost st0 = self.start_i();
        proof {
            assert forall|q: Seq<Direction>|
                #[trigger] valid_path_steps(st0, t0, q) && (forall|j: int|
                    0 <= j < g0.len() ==> q[j] == g0[j]) implies !lex_lt(
                q.take(self.cur().len() as int),
                self.cur(),
            ) by {
                lemma_lex_lt_irrefl(g0);
                assert(q.take(g0.len() as int) =~= g0);
            }
        }
        while self.path.len() < self.length
            invariant
                self.path.wf(),
                no_uturns(self.cur()),
                self.cur().len() <= t0 <= 8,
                self.target() == t0,
                self.start_i() == st0,
                self.exhausted() == old(self).exhausted(),
                g0.len() <= self.cur().len(),
                forall|j: int| 0 <= j < g0.len() ==> self.cur()[j] == g0[j],
                forall|q: Seq<Direction>|
                    #[trigger] valid_path_steps(st0, t0, q) && (forall|j: int|
                        0 <= j < g0.len() ==> q[j] == g0[j]) ==> !lex_lt(
                        q.take(self.cur().len() as int),
                        self.cur(),
                    ),
            decreases t0 - self.cur().len(),
        {
            proof {
                lemma_path_end_in_bounds(self.path.start_i(), self.path.dirs());
                lemma_exists_step(self.path.end_i(), last_dir(self.path.dirs()));
            }
            let d = match first_valid_dir(&self.path, 0) {
                Some(d) => d,
                None => {
                    proof {
                        let w = choose|d2: Direction|
                            dir_valid(self.path.end_i(), last_dir(self.path.dirs()), d2);
                        assert(dir_order(w) >= 0);
                        assert(false);
                    }
                    Direction::Right
                },
            };
            let ghost cpre = self.cur();
            proof {
                lemma_no_uturns_push(self.cur(), d);
            }
            self.path.step(d);
            proof {
                let k = cpre.len() as int;
                assert forall|q: Seq<Direction>|
                    #[trigger] valid_path_steps(st0, t0, q) && (forall|j: int|
                        0 <= j < g0.len() ==> q[j] == g0[j]) implies !lex_lt(
                    q.take(k + 1),
                    self.cur(),
                ) by {
                    if lex_lt(q.take(k + 1), self.cur()) {
                        let a = q.take(k + 1);
                        let bs = self.cur();
                        assert(bs == cpre.push(d));
                        assert(a.len() == k + 1);
                        lemma_lex_lt_first_diff(a, bs);
                        let m = choose|m: int|
                            0 <= m < a.len() && (forall|j: int| 0 <= j < m ==> a[j] == bs[j])
                                && dir_order(#[trigger] a[m]) < dir_order(bs[m]);
                        if m < k {
                            assert forall|j: int| 0 <= j < m implies q.take(k)[j] == cpre[j] by {
                                assert(a[j] == q[j]);
                                assert(bs[j] == cpre[j]);
                            }
                            assert(q.take(k)[m] == q[m] && a[m] == q[m]);
                            assert(bs[m] == cpre[m]);
                            lemma_lex_lt_diff(q.take(k), cpre, m);
                            assert(false);
                        } else {
                            assert(m == k);
                            assert(bs[m] == d);
                            assert forall|j: int| 0 <= j < k implies q[j] == cpre[j] by {
                                assert(a[j] == q[j]);
                                assert(bs[j] == cpre[j]);
                            }
                            lemma_valid_step_at(st0, q, cpre, k);
                            assert(a[m] == q[k]);
                            assert(0 <= dir_order(q[k]) < dir_order(d));
                            assert(false);
                        }
                    }
                }
            }
        }
        proof {
            assert forall|q: Seq<Direction>|
                #[trigger] valid_path_steps(st0, t0, q) && (forall|j: int|
                    0 <= j < g0.len() ==> q[j] == g0[j]) implies !lex_lt(q, self.cur()) by {
                assert(q.take(self.cur().len() as int) =~= q);
            }
        }
    }

    /// Yields the next path, or `None` when the enumeration is exhausted.
    ///
    /// The enumeration is single pass: a fresh enumerator with a target
    /// length of at least one always yields — the lexicographically least
    /// legal path, since on this board every cell has a legal
    /// continuation at every depth — while an exhausted one yields
    /// nothing, ever.  A target length of zero also yields nothing, ever:
    /// that enumerator is degenerate by design, and the zero-step path is
    /// never produced.  Each yielded path is the least legal path
    /// strictly above the one yielded before, and `None` comes only when
    /// no legal path above it is left: the enumerator yields every legal
    /// path exactly once, in strictly increasing lexicographic order,
    /// and then stays exhausted.
    #[verifier::loop_isolation(false)]
    #[verifier::rlimit(100)]
    pub fn next(&mut self) -> (r: Option<Path>)
        requires
            old(self).wf(),
        ensures
            final(self).wf(),
            final(self).target() == old(self).target(),
            final(self).start_i() == old(self).start_i(),
            final(self).exhausted() == (r is None),
            match r {
                Some(p) => {
                    &&& p.wf()
                    &&& p.start_i() == old(self).start_i()
                    &&& p.dirs().len() == old(self).target()
                    &&& no_uturns(p.dirs())
                    &&& p.dirs() == final(self).cur()
                    &&& p.end_i() == path_end(p.start_i(), p.dirs())
                    &&& (old(self).cur().len() == 0 ==> forall|q: Seq<Direction>|
                        #[trigger] valid_path_steps(old(self).start_i(), old(self).target(), q)
                            ==> !lex_lt(q, p.dirs()))
                    &&& (old(self).cur().len() == old(self).target() ==> lex_lt(
                        old(self).cur(),
                        p.dirs(),
                    ) && (forall|q: Seq<Direction>|
                        #[trigger] valid_path_steps(old(self).start_i(), old(self).target(), q)
                            && lex_lt(old(self).cur(), q) ==> !lex_lt(q, p.dirs())))
                },
                None => final(self).cur().len() == 0 && (!old(self).exhausted()
                    ==> forall|q: Seq<Direction>|
                    #[trigger] valid_path_steps(old(self).start_i(), old(self).target(), q)
                        ==> !lex_lt(old(self).cur(), q)),
            },
            old(self).target() == 0 ==> r is None,
            old(self).exhausted() ==> r is None,
            old(self).cur().len() == 0 && old(self).target() >= 1 && !old(self).exhausted()
                ==> r is Some,
    {
        if self.done {
            return None;
        }
        let ghost p0 = self.path.dirs();
        let ghost t0 = self.target();
        let ghost st0 = self.start_i();
        if self.length == 0 {
            proof {
                assert forall|q: Seq<Direction>|
                    #[trigger] valid_path_steps(st0, t0, q) implies !lex_lt(p0, q) by {
                    assert(q.len() == 0);
                }
            }
            self.done = true;
            return None;
        }
        if self.path.len() == 0 {
            self.complete_path();
            return Some(self.path);
        }
        let mut last = self.path.pop_step();
        proof {
            lemma_no_uturns_drop_last(p0);
            assert forall|q: Seq<Direction>|
                #[trigger] valid_path_steps(st0, t0, q) && lex_lt(p0, q) implies exists|j: int|
                0 <= j <= self.cur().len() && q[j] != p0[j] by {
                lemma_lex_lt_first_diff(p0, q);
                let m = choose|m: int|
                    0 <= m < p0.len() && (forall|j: int| 0 <= j < m ==> p0[j] == q[j])
                        && dir_order(#[trigger] p0[m]) < dir_order(q[m]);
                assert(0 <= m <= self.cur().len() && q[m] != p0[m]);
            }
        }
        loop
            invariant
                self.path.wf(),
                no_uturns(self.cur()),
                self.target() == t0,
                1 <= t0 <= 8,
                self.start_i() == st0,
                self.cur().len() < t0,
                p0.len() == t0,
                !self.exhausted(),
                forall|j: int| 0 <= j < self.cur().len() ==> self.cur()[j] == p0[j],
                last == p0[self.cur().len() as int],
                forall|q: Seq<Direction>|
                    #[trigger] valid_path_steps(st0, t0, q) && lex_lt(p0, q) ==> exists|j: int|
                        0 <= j <= self.cur().len() && q[j] != p0[j],
            decreases self.cur().len(),
        {
            let from = last.canonical_index() + 1;
            let ghost k = self.cur().len() as int;
            let ghost pre = self.cur();
            match first_valid_dir(&self.path, from) {
                None => {
                    proof {
                        assert forall|q: Seq<Direction>|
                            #[trigger] valid_path_steps(st0, t0, q) && lex_lt(p0, q) implies
                            exists|j: int| 0 <= j <= k - 1 && q[j] != p0[j] by {
                            lemma_lex_lt_first_diff(p0, q);
                            let m = choose|m: int|
                                0 <= m < p0.len() && (forall|j: int| 0 <= j < m ==> p0[j] == q[j])
                                    && dir_order(#[trigger] p0[m]) < dir_order(q[m]);
                            if m <= k - 1 {
                                assert(q[m] != p0[m]);
                            } else {
                                let j0 = choose|j: int| 0 <= j <= k && q[j] != p0[j];
                                assert(j0 == k);
                                assert(m == k);
                                lemma_valid_step_at(st0, q, pre, k);
                                assert(dir_order(q[k]) >= from as int);
                                assert(false);
                            }
                        }
                    }
                    if self.path.len() == 0 {
                        proof {
                            assert forall|q: Seq<Direction>|
                                #[trigger] valid_path_steps(st0, t0, q) implies !lex_lt(
                                p0,
                                q,
                            ) by {
                                if lex_lt(p0, q) {
                                    assert(exists|j: int| 0 <= j <= k - 1 && q[j] != p0[j]);
                                    let j0 = choose|j: int| 0 <= j <= k - 1 && q[j] != p0[j];
                                    assert(false);
                                }
                            }
                        }
                        self.done = true;
                        return None;
                    }
                    proof {
                        lemma_no_uturns_drop_last(self.cur());
                    }
                    last = self.path.pop_step();
                },
                Some(d) => {
                    proof {
                        lemma_no_uturns_push(self.cur(), d);
                    }
                    self.path.step(d);
                    let ghost mid = self.cur();
                    if self.path.len() < self.length {
                        self.complete_path();
                    }
                    proof {
                        let f = self.path.dirs();
                        assert(f.len() == t0);
                        assert forall|j: int| 0 <= j < k implies f[j] == p0[j] by {
                            assert(mid[j] == pre[j]);
                        }
                        assert(mid[k] == d);
                        assert(f[k] == d);
                        assert(dir_order(p0[k]) < dir_order(f[k]));
                        lemma_lex_lt_diff(p0, f, k);
                        assert forall|q: Seq<Direction>|
                            #[trigger] valid_path_steps(st0, t0, q) && (forall|j: int|
                                0 <= j < k + 1 ==> q[j] == mid[j]) implies !lex_lt(q, f) by {
                            if mid.len() == t0 {
                                assert(f == mid);
                                assert(q =~= mid);
                                lemma_lex_lt_irrefl(mid);
                            }
                        }
                        assert forall|q: Seq<Direction>|
                            #[trigger] valid_path_steps(st0, t0, q) && lex_lt(p0, q) implies
                            !lex_lt(q, f) by {
                            if lex_lt(q, f) {
                                lemma_lex_lt_first_diff(q, f);
                                let m = choose|m: int|
                                    0 <= m < q.len() && (forall|j: int|
                                        0 <= j < m ==> q[j] == f[j]) && dir_order(
                                        #[trigger] q[m],
                                    ) < dir_order(f[m]);
                                if m > k {
                                    assert forall|j: int|
                                        0 <= j < k + 1 implies q[j] == mid[j] by {
                                        assert(q[j] == f[j]);
                                    }
                                    assert(!lex_lt(q, f));
                                    assert(false);
                                } else if m == k {
                                    let j0 = choose|j: int| 0 <= j <= k && q[j] != p0[j];
                                    assert forall|j: int| 0 <= j < k implies q[j] == p0[j] by {
                                        assert(q[j] == f[j]);
                                    }
                                    assert(j0 == k);
                                    lemma_lex_lt_first_diff(p0, q);
                                    let m2 = choose|m2: int|
                                        0 <= m2 < p0.len() && (forall|j: int|
                                            0 <= j < m2 ==> p0[j] == q[j]) && dir_order(
                                            #[trigger] p0[m2],
                                        ) < dir_order(q[m2]);
                                    assert(m2 == k);
                                    lemma_valid_step_at(st0, q, pre, k);
                                    assert(dir_order(q[k]) >= from as int);
                                    assert(dir_order(q[k]) < dir_order(d));
                                    assert(false);
                                } else {
                                    lemma_lex_lt_first_diff(p0, q);
                                    let m2 = choose|m2: int|
                                        0 <= m2 < p0.len() && (forall|j: int|
                                            0 <= j < m2 ==> p0[j] == q[j]) && dir_order(
                                            #[trigger] p0[m2],
                                        ) < dir_order(q[m2]);
                                    assert(q[m] != f[m]);
                                    assert(f[m] == p0[m]);
                                    if m2 < m {
                                        assert(q[m2] == f[m2]);
                                        assert(false);
                                    } else if m2 == m {
                                        assert(false);
                                    } else {
                                        assert(p0[m] == q[m]);
                                        assert(false);
                                    }
                                }
                            }
                        }
                    }
                    return Some(self.path);
                },
            }
        }
    }
}

} // verus!