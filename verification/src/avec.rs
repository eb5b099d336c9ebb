//! Trusted wrappers around `tinyvec::ArrayVec`, the bounded inline vector
//! that backs both a pile's stones and a path's steps.
//!
//! The two `uninterp` functions name the sequence of elements such a vector
//! holds; every wrapper below states what the wrapped `tinyvec` call does to
//! that sequence, and nothing else in the crate is trusted about it.

use vstd::prelude::*;

use crate::position::Direction;
use crate::stone::Stone;

verus! {

#[verifier::external_type_specification]
#[verifier::external_body]
#[verifier::reject_recursive_types(A)]
pub struct ExArrayVec<A>(tinyvec::ArrayVec<A>);

/// The stones a bounded stone vector holds, bottom first.
pub uninterp spec fn stone_av_seq(v: tinyvec::ArrayVec<[Stone; 8]>) -> Seq<Stone>;

/// The directions a bounded direction vector holds, first step first.
pub uninterp spec fn dir_av_seq(v: tinyvec::ArrayVec<[Direction; 8]>) -> Seq<Direction>;

/// Relies on tinyvec::ArrayVec::new: a fresh vector is empty.
#[verifier::external_body]
pub(crate) fn stone_av_new() -> (r: tinyvec::ArrayVec<[Stone; 8]>)
    ensures
        stone_av_seq(r) == Seq::<Stone>::empty(),
{
    tinyvec::ArrayVec::new()
}

/// Relies on tinyvec::ArrayVec::len: the number of elements held.
#[verifier::external_body]
pub(crate) fn stone_av_len(v: &tinyvec::ArrayVec<[Stone; 8]>) -> (r: usize)
    ensures
        r as int == stone_av_seq(*v).len(),
{
    v.len()
}

/// Relies on tinyvec::ArrayVec::push: appends at the end; panics at
/// capacity, which the precondition rules out.
#[verifier::external_body]
pub(crate) fn stone_av_push(v: &mut tinyvec::ArrayVec<[Stone; 8]>, s: Stone)
    requires
        stone_av_seq(*old(v)).len() < 8,
    ensures
        stone_av_seq(*final(v)) == stone_av_seq(*old(v)).push(s),
{
    v.push(s)
}

/// Relies on tinyvec::ArrayVec's Index impl: element `i`, counted from the
/// bottom; panics out of bounds, which the precondition rules out.
#[verifier::external_body]
pub(crate) fn stone_av_get(v: &tinyvec::ArrayVec<[Stone; 8]>, i: usize) -> (r: Stone)
    requires
        i < stone_av_seq(*v).len(),
    ensures
        r == stone_av_seq(*v)[i as int],
{
    v[i]
}

/// Relies on the slice `last` reached through tinyvec::ArrayVec's Deref:
/// the last element, if any.
#[verifier::external_body]
pub(crate) fn stone_av_last(v: &tinyvec::ArrayVec<[Stone; 8]>) -> (r: Option<Stone>)
    ensures
        match r {
            Some(s) => stone_av_seq(*v).len() > 0 && s == stone_av_seq(*v).last(),
            None => stone_av_seq(*v).len() == 0,
        },
{
    v.last().copied()
}

/// Relies on tinyvec::ArrayVec::new and the type being Copy: hands the
/// whole content out and leaves the vector empty.
#[verifier::external_body]
pub(crate) fn stone_av_take(v: &mut tinyvec::ArrayVec<[Stone; 8]>) -> (r: tinyvec::ArrayVec<
    [Stone; 8],
>)
    ensures
        stone_av_seq(*final(v)) == Seq::<Stone>::empty(),
        stone_av_seq(r) == stone_av_seq(*old(v)),
{
    let r = *v;
    *v = tinyvec::ArrayVec::new();
    r
}

/// Relies on tinyvec::ArrayVec::new: a fresh vector is empty.
#[verifier::external_body]
pub(crate) fn dir_av_new() -> (r: tinyvec::ArrayVec<[Direction; 8]>)
    ensures
        dir_av_seq(r) == Seq::<Direction>::empty(),
{
    tinyvec::ArrayVec::new()
}

/// Relies on tinyvec::ArrayVec::len: the number of elements held.
#[verifier::external_body]
pub(crate) fn dir_av_len(v: &tinyvec::ArrayVec<[Direction; 8]>) -> (r: usize)
    ensures
        r as int == dir_av_seq(*v).len(),
{
    v.len()
}

/// Relies on tinyvec::ArrayVec::push: appends at the end; panics at
/// capacity, which the precondition rules out.
#[verifier::external_body]
pub(crate) fn dir_av_push(v: &mut tinyvec::ArrayVec<[Direction; 8]>, d: Direction)
    requires
        dir_av_seq(*old(v)).len() < 8,
    ensures
        dir_av_seq(*final(v)) == dir_av_seq(*old(v)).push(d),
{
    v.push(d)
}

/// Relies on tinyvec::ArrayVec::pop: removes and returns the last element,
/// or returns None and leaves the vector as it is.
#[verifier::external_body]
pub(crate) fn dir_av_pop(v: &mut tinyvec::ArrayVec<[Direction; 8]>) -> (r: Option<Direction>)
    ensures
        match r {
            Some(d) => dir_av_seq(*old(v)).len() > 0 && d == dir_av_seq(*old(v)).last()
                && dir_av_seq(*final(v)) == dir_av_seq(*old(v)).drop_last(),
            None => dir_av_seq(*old(v)).len() == 0 && dir_av_seq(*final(v)) == dir_av_seq(
                *old(v),
            ),
        },
{
    v.pop()
}

/// Relies on tinyvec::ArrayVec's Index impl: element `i`, counted from the
/// first step; panics out of bounds, which the precondition rules out.
#[verifier::external_body]
pub(crate) fn dir_av_get(v: &tinyvec::ArrayVec<[Direction; 8]>, i: usize) -> (r: Direction)
    requires
        i < dir_av_seq(*v).len(),
    ensures
        r == dir_av_seq(*v)[i as int],
{
    v[i]
}

/// Relies on the slice `last` reached through tinyvec::ArrayVec's Deref:
/// the last element, if any.
#[verifier::external_body]
pub(crate) fn dir_av_last(v: &tinyvec::ArrayVec<[Direction; 8]>) -> (r: Option<Direction>)
    ensures
        match r {
            Some(d) => dir_av_seq(*v).len() > 0 && d == dir_av_seq(*v).last(),
            None => dir_av_seq(*v).len() == 0,
        },
{
    v.last().copied()
}

} // verus!
