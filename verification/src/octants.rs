//! Going round a circle octant by octant.
//!
//! A shape that runs from a start angle to an end angle is made up of what
//! it holds in each octant on the way. It is whole in every octant that it
//! passes through, and cut at an edge in the octant where it starts and in
//! the one where it ends. When both edges fall in one octant and the end
//! does not lie ahead of the start, the shape goes all the way round and
//! comes back to that octant.

use vstd::prelude::*;
use crate::translate::is_octant;

verus! {

/// The octant that follows `oct` counter-clockwise.
pub open spec fn next_octant(oct: int) -> int {
    oct % 8 + 1
}

/// How many octants a shape that is in octant `oct` has yet to enter.
/// `revisit` says that it comes back to this octant after a full turn.
pub open spec fn visits_left(oct: int, end_oct: int, revisit: bool) -> nat {
    if revisit {
        8
    } else {
        ((end_oct - oct) % 8) as nat
    }
}

/// What of a shape lies in the octants that it has yet to enter, when it is
/// in octant `oct`. `part(k, last)` is what it holds in octant `k`, `last`
/// saying that it ends there.
pub open spec fn tail_of(
    part: spec_fn(int, bool) -> Set<(int, int)>,
    oct: int,
    end_oct: int,
    revisit: bool,
) -> Set<(int, int)>
    decreases visits_left(oct, end_oct, revisit),
{
    if !is_octant(oct) || !is_octant(end_oct) || (oct == end_oct && !revisit) {
        Set::empty()
    } else {
        let next = next_octant(oct);
        part(next, next == end_oct).union(tail_of(part, next, end_oct, false))
    }
}

/// Whether a shape that is in octant `oct` and ends in octant `end_oct` has
/// yet to enter octant `k`.
#[verifier::opaque]
pub open spec fn enters_later(k: int, oct: int, end_oct: int) -> bool {
    is_octant(k) && 1 <= (k - oct) % 8 <= (end_oct - oct) % 8
}

/// The octants yet to enter are the next one and those yet to enter from
/// there.
pub proof fn lemma_enters_later(k: int, oct: int, end_oct: int)
    requires
        is_octant(oct),
        is_octant(end_oct),
    ensures
        oct == end_oct ==> !enters_later(k, oct, end_oct),
        enters_later(k, oct, end_oct) ==> is_octant(k) && k != oct,
        oct != end_oct ==> (enters_later(k, oct, end_oct) <==> k == next_octant(oct)
            || enters_later(k, next_octant(oct), end_oct)),
        oct != end_oct ==> visits_left(next_octant(oct), end_oct, false) < visits_left(
            oct,
            end_oct,
            false,
        ),
{
    reveal(enters_later);
}

/// Whether octant `k` lies on the way from octant `from` counter-clockwise
/// to octant `to`, the two included.
#[verifier::opaque]
pub open spec fn on_the_way(k: int, from: int, to: int) -> bool {
    is_octant(k) && (k - from) % 8 <= (to - from) % 8
}

/// An octant is on the way when it is the first or is entered later; and
/// after a full turn every octant has been entered.
pub proof fn lemma_on_the_way(k: int, from: int, to: int)
    requires
        is_octant(from),
        is_octant(to),
    ensures
        on_the_way(k, from, to) <==> is_octant(k) && (k == from || enters_later(k, from, to)),
        is_octant(k) ==> k == next_octant(from) || enters_later(k, next_octant(from), from),
        next_octant(from) != from,
        is_octant(next_octant(from)),
        next_octant(to) == from ==> (on_the_way(k, from, to) <==> is_octant(k)),
{
    reveal(enters_later);
    reveal(on_the_way);
}

/// The octants that a shape has yet to enter are those between the one it
/// is in and the one it ends in; it holds in each what it holds there, and
/// in the last what it holds up to its end.
pub proof fn lemma_tail_of(
    part: spec_fn(int, bool) -> Set<(int, int)>,
    oct: int,
    end_oct: int,
    p: (int, int),
)
    requires
        is_octant(oct),
        is_octant(end_oct),
    ensures
        tail_of(part, oct, end_oct, false).contains(p) <==> exists|k: int|
            #[trigger] enters_later(k, oct, end_oct) && part(k, k == end_oct).contains(p),
    decreases visits_left(oct, end_oct, false),
{
    let e = end_oct;
    if oct == e {
        assert forall|k: int| !#[trigger] enters_later(k, oct, e) by {
            lemma_enters_later(k, oct, e);
        }
    } else {
        let next = next_octant(oct);
        lemma_enters_later(next, oct, e);
        lemma_tail_of(part, next, e, p);
        assert(tail_of(part, oct, e, false) == part(next, next == e).union(
            tail_of(part, next, e, false),
        ));
        if tail_of(part, oct, e, false).contains(p) {
            if part(next, next == e).contains(p) {
                assert(enters_later(next, oct, e));
            } else {
                let k = choose|k: int|
                    #[trigger] enters_later(k, next, e) && part(k, k == e).contains(p);
                lemma_enters_later(k, oct, e);
                assert(enters_later(k, oct, e));
            }
        }
        if exists|k: int| #[trigger] enters_later(k, oct, e) && part(k, k == e).contains(p) {
            let k = choose|k: int| #[trigger] enters_later(k, oct, e) && part(k, k == e).contains(p);
            lemma_enters_later(k, oct, e);
            if k != next {
                assert(enters_later(k, next, e));
            }
        }
    }
}

/// A shape that comes back to the octant it is in enters every other octant
/// whole, and then this one up to its end.
pub proof fn lemma_tail_of_full_turn(
    part: spec_fn(int, bool) -> Set<(int, int)>,
    oct: int,
    p: (int, int),
)
    requires
        is_octant(oct),
    ensures
        tail_of(part, oct, oct, true).contains(p) <==> exists|k: int|
            #[trigger] is_octant(k) && part(k, k == oct).contains(p),
{
    let next = next_octant(oct);
    lemma_on_the_way(next, oct, oct);
    lemma_tail_of(part, next, oct, p);
    assert(tail_of(part, oct, oct, true) == part(next, false).union(
        tail_of(part, next, oct, false),
    ));
    if tail_of(part, oct, oct, true).contains(p) {
        if part(next, false).contains(p) {
            assert(part(next, next == oct).contains(p));
        } else {
            let k = choose|k: int|
                #[trigger] enters_later(k, next, oct) && part(k, k == oct).contains(p);
            lemma_enters_later(k, next, oct);
            assert(is_octant(k) && part(k, k == oct).contains(p));
        }
    }
    if exists|k: int| #[trigger] is_octant(k) && part(k, k == oct).contains(p) {
        let k = choose|k: int| #[trigger] is_octant(k) && part(k, k == oct).contains(p);
        lemma_on_the_way(k, oct, oct);
        if k != next {
            assert(enters_later(k, next, oct));
        }
    }
}

} // verus!
