//! The intersection protocol shared by every primitive: a query reports
//! either no hit or a hit at some parametric distance along the ray, and a
//! scene answers with the nearest hit that any of its objects reports.
//!
//! Distances are order keys: integers whose order is the order of the
//! parametric distances they stand for.

use vstd::prelude::*;

verus! {

/// A hit at distance `t` along the ray, with whatever the primitive records
/// about it (point, normal, surface coordinates, material).
#[derive(Debug)]
pub struct Hit<H> {
    pub t: i64,
    pub record: H,
}

impl<H> Hit<H> {
    pub fn new(t: i64, record: H) -> (h: Hit<H>)
        ensures
            h.t == t && h.record == record,
    {
        Hit { t, record }
    }
}

/// A query that, asked twice about one object, answers the same.
pub open spec fn deterministic<T, H, F: Fn(&T) -> Option<Hit<H>>>(query: F) -> bool {
    forall|o: T, r1: Option<Hit<H>>, r2: Option<Hit<H>>|
        #[trigger] query.ensures((&o,), r1) && #[trigger] query.ensures((&o,), r2) ==> r1 == r2
}

/// `r` is no hit, or a hit that `query` can report for one of `objects`.
pub open spec fn reported_by<T, H, F: Fn(&T) -> Option<Hit<H>>>(
    objects: Seq<T>,
    query: F,
    r: Option<Hit<H>>,
) -> bool {
    r is Some ==> exists|i: int|
        0 <= i < objects.len() && #[trigger] query.ensures((&objects[i],), r)
}

/// No hit that `query` can report for any of `objects` is nearer than `r`,
/// and `r` is a hit if any of them can be hit.
pub open spec fn none_nearer<T, H, F: Fn(&T) -> Option<Hit<H>>>(
    objects: Seq<T>,
    query: F,
    r: Option<Hit<H>>,
) -> bool {
    forall|i: int, h: Hit<H>|
        0 <= i < objects.len() && #[trigger] query.ensures((&objects[i],), Some(h)) ==> r is Some
            && r->Some_0.t <= h.t
}

/// `r` is no hit, or what `query` reports for some object of `objects`
/// before which every object that can be hit is hit strictly farther: of
/// several nearest hits, the first.
pub open spec fn first_of_nearest<T, H, F: Fn(&T) -> Option<Hit<H>>>(
    objects: Seq<T>,
    query: F,
    r: Option<Hit<H>>,
) -> bool {
    r is Some ==> exists|i: int|
        0 <= i < objects.len() && #[trigger] query.ensures((&objects[i],), r) && forall|
            j: int,
            h: Hit<H>,
        | 0 <= j < i && #[trigger] query.ensures((&objects[j],), Some(h)) ==> h.t > r->Some_0.t
}

/// `r` is no hit, or what `query` reports for some object of `objects`
/// after which every object that can be hit is hit strictly farther: of
/// several nearest hits, the last.
pub open spec fn last_of_nearest<T, H, F: Fn(&T) -> Option<Hit<H>>>(
    objects: Seq<T>,
    query: F,
    r: Option<Hit<H>>,
) -> bool {
    r is Some ==> exists|i: int|
        0 <= i < objects.len() && #[trigger] query.ensures((&objects[i],), r) && forall|
            j: int,
            h: Hit<H>,
        | i < j < objects.len() && #[trigger] query.ensures((&objects[j],), Some(h)) ==> h.t
            > r->Some_0.t
}

/// Of two answers, the nearer hit; a hit beats no hit, and of two hits at the
/// same distance the second wins.
pub fn nearer<H>(a: Option<Hit<H>>, b: Option<Hit<H>>) -> (r: Option<Hit<H>>)
    ensures
        a is None ==> r == b,
        a is Some && b is None ==> r == a,
        a is Some && b is Some ==> r == if a->Some_0.t < b->Some_0.t {
            a
        } else {
            b
        },
{
    match (a, b) {
        (Some(x), Some(y)) => {
            if x.t < y.t {
                Some(x)
            } else {
                Some(y)
            }
        },
        (h, None) => h,
        (None, h) => h,
    }
}

} // verus!
