use vstd::prelude::*;

use crate::geometry::{clamp, in_box};

verus! {

/// The distance function can be called on any two points.
pub open spec fn total<F: Fn(&[i64], &[i64]) -> u64>(f: &F) -> bool {
    forall|a: &[i64], b: &[i64]| #[trigger] call_requires(*f, (a, b))
}

/// `d` is a value that the distance function returns for the points `a` and `b`.
pub open spec fn measures<F: Fn(&[i64], &[i64]) -> u64>(f: &F, a: Seq<i64>, b: Seq<i64>, d: u64) -> bool {
    exists|x: &[i64], y: &[i64]| x@ == a && y@ == b && #[trigger] call_ensures(*f, (x, y), d)
}

/// The distance function returns one value for each pair of points.
pub open spec fn deterministic<F: Fn(&[i64], &[i64]) -> u64>(f: &F) -> bool {
    forall|a: Seq<i64>, b: Seq<i64>, d1: u64, d2: u64|
        #![trigger measures(f, a, b, d1), measures(f, a, b, d2)]
        measures(f, a, b, d1) && measures(f, a, b, d2) ==> d1 == d2
}

/// From a point, the closest point of a box (on the first `dims`
/// coordinates) is no farther than any point in the box.
pub open spec fn box_bounded<F: Fn(&[i64], &[i64]) -> u64>(f: &F, dims: nat) -> bool {
    forall|x: Seq<i64>, lo: Seq<i64>, hi: Seq<i64>, q: Seq<i64>, dc: u64, dq: u64|
        #![trigger measures(f, x, clamp(x, lo, hi, dims), dc), measures(f, x, q, dq), in_box(q, lo, hi, dims)]
        x.len() >= dims && in_box(q, lo, hi, dims) && measures(f, x, clamp(x, lo, hi, dims), dc)
            && measures(f, x, q, dq) ==> dc <= dq
}

/// A distance function under which pruning a subtree by the distance to its
/// bounding box loses no entry: a squared Euclidean or Manhattan distance, for
/// instance.
pub open spec fn metric<F: Fn(&[i64], &[i64]) -> u64>(f: &F, dims: nat) -> bool {
    deterministic(f) && box_bounded(f, dims)
}

/// A call's result is a value the function returns for its arguments.
pub proof fn lemma_call_measures<F: Fn(&[i64], &[i64]) -> u64>(f: &F, x: &[i64], y: &[i64], d: u64)
    requires
        call_ensures(*f, (x, y), d),
    ensures
        measures(f, x@, y@, d),
{
}

/// Under a metric, an entry in a box is no closer than the box.
pub proof fn lemma_box_bound<F: Fn(&[i64], &[i64]) -> u64>(
    f: &F,
    dims: nat,
    x: Seq<i64>,
    lo: Seq<i64>,
    hi: Seq<i64>,
    q: Seq<i64>,
    dc: u64,
    dq: u64,
)
    requires
        metric(f, dims),
        x.len() >= dims,
        in_box(q, lo, hi, dims),
        measures(f, x, clamp(x, lo, hi, dims), dc),
        measures(f, x, q, dq),
    ensures
        dc <= dq,
{
}

/// Under a metric, two values measured for the same points agree.
pub proof fn lemma_measure_unique<F: Fn(&[i64], &[i64]) -> u64>(
    f: &F,
    dims: nat,
    a: Seq<i64>,
    b: Seq<i64>,
    d1: u64,
    d2: u64,
)
    requires
        metric(f, dims),
        measures(f, a, b, d1),
        measures(f, a, b, d2),
    ensures
        d1 == d2,
{
}

/// The distance from `point` to the box `[min_bounds, max_bounds]`: the
/// distance to the point of the box closest to it on every coordinate.
pub fn distance_to_space<F: Fn(&[i64], &[i64]) -> u64>(
    point: &[i64],
    min_bounds: &[i64],
    max_bounds: &[i64],
    distance: &F,
    dimensions: usize,
) -> (d: u64)
    requires
        total(distance),
        point@.len() >= dimensions,
        min_bounds@.len() >= dimensions,
        max_bounds@.len() >= dimensions,
    ensures
        measures(distance, point@, clamp(point@, min_bounds@, max_bounds@, dimensions as nat), d),
{
    let mut p2: Vec<i64> = Vec::new();
    while p2.len() < dimensions
        invariant
            p2@.len() <= dimensions,
            point@.len() >= dimensions,
            min_bounds@.len() >= dimensions,
            max_bounds@.len() >= dimensions,
            p2@ =~= clamp(point@, min_bounds@, max_bounds@, dimensions as nat).take(p2@.len() as int),
        decreases dimensions - p2@.len(),
    {
        let i = p2.len();
        let c = if point[i] > max_bounds[i] {
            max_bounds[i]
        } else if point[i] < min_bounds[i] {
            min_bounds[i]
        } else {
            point[i]
        };
        p2.push(c);
    }
    assert(p2@ =~= clamp(point@, min_bounds@, max_bounds@, dimensions as nat));
    let s = p2.as_slice();
    let d = distance(point, s);
    proof {
        lemma_call_measures(distance, point, s, d);
    }
    d
}

/// As `distance_to_space`, building the closest point of the box in `scratch`
/// in place of a fresh vector.
pub fn distance_to_space_noalloc<F: Fn(&[i64], &[i64]) -> u64>(
    point: &[i64],
    min_bounds: &[i64],
    max_bounds: &[i64],
    distance: &F,
    dimensions: usize,
    scratch: &mut Vec<i64>,
) -> (d: u64)
    requires
        total(distance),
        point@.len() >= dimensions,
        min_bounds@.len() >= dimensions,
        max_bounds@.len() >= dimensions,
        old(scratch)@.len() == dimensions,
    ensures
        final(scratch)@ == clamp(point@, min_bounds@, max_bounds@, dimensions as nat),
        measures(distance, point@, clamp(point@, min_bounds@, max_bounds@, dimensions as nat), d),
{
    let mut i: usize = 0;
    while i < dimensions
        invariant
            i <= dimensions,
            scratch@.len() == dimensions,
            point@.len() >= dimensions,
            min_bounds@.len() >= dimensions,
            max_bounds@.len() >= dimensions,
            forall|j: int| 0 <= j < i ==> #[trigger] scratch@[j] == clamp(point@, min_bounds@, max_bounds@, dimensions as nat)[j],
        decreases dimensions - i,
    {
        let c = if point[i] > max_bounds[i] {
            max_bounds[i]
        } else if point[i] < min_bounds[i] {
            min_bounds[i]
        } else {
            point[i]
        };
        scratch.set(i, c);
        i += 1;
    }
    assert(scratch@ =~= clamp(point@, min_bounds@, max_bounds@, dimensions as nat));
    let s = scratch.as_slice();
    let d = distance(point, s);
    proof {
        lemma_call_measures(distance, point, s, d);
    }
    d
}

} // verus!
