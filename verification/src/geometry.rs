use vstd::prelude::*;

verus! {

/// Errors reported by the tree's operations.
#[derive(Debug, Clone, Copy, PartialEq, Eq, Structural)]
pub enum ErrorKind {
    WrongDimension,
    /// A coordinate that is not a finite number; integer coordinates always
    /// are, so no operation of the tree reports it.
    NonFiniteCoordinate,
    ZeroCapacity,
}

/// The error that a point is refused with, or `None` when it is accepted by a
/// tree with `dims` dimensions.
pub open spec fn point_error(dims: nat, p: Seq<i64>) -> Option<ErrorKind> {
    if dims > p.len() {
        Some(ErrorKind::WrongDimension)
    } else {
        None
    }
}

/// `p` lies in the box `[lo, hi]` on its first `dims` coordinates.
pub open spec fn in_box(p: Seq<i64>, lo: Seq<i64>, hi: Seq<i64>, dims: nat) -> bool {
    &&& p.len() >= dims
    &&& forall|i: int| 0 <= i < dims ==> lo[i] <= #[trigger] p[i] <= hi[i]
}

/// The point of the box `[lo, hi]` closest to `p` coordinate by coordinate.
pub open spec fn clamp(p: Seq<i64>, lo: Seq<i64>, hi: Seq<i64>, dims: nat) -> Seq<i64> {
    Seq::new(
        dims,
        |i: int|
            if p[i] > hi[i] {
                hi[i]
            } else if p[i] < lo[i] {
                lo[i]
            } else {
                p[i]
            },
    )
}

/// The gap between two coordinates.
pub open spec fn gap(a: i64, b: i64) -> int {
    if a <= b {
        b - a
    } else {
        a - b
    }
}

/// `clamp` gives the point of the box `[lo, hi]` nearest to `p`: on each of
/// the first `dims` coordinates it keeps `p`'s coordinate when that lies
/// within the box, it lies within the box whenever the box is not empty
/// there, and no point `q` of the box is nearer to `p` on any coordinate.
pub proof fn law_clamp_is_nearest(p: Seq<i64>, lo: Seq<i64>, hi: Seq<i64>, dims: nat, q: Seq<i64>)
    ensures
        clamp(p, lo, hi, dims).len() == dims,
        forall|i: int| 0 <= i < dims && lo[i] <= p[i] <= hi[i] ==> #[trigger] clamp(p, lo, hi, dims)[i] == p[i],
        forall|i: int| 0 <= i < dims && lo[i] <= hi[i] ==> lo[i] <= #[trigger] clamp(p, lo, hi, dims)[i] <= hi[i],
        in_box(p, lo, hi, dims) ==> clamp(p, lo, hi, dims) == p.take(dims as int),
        (forall|i: int| 0 <= i < dims ==> #[trigger] lo[i] <= hi[i]) ==> in_box(clamp(p, lo, hi, dims), lo, hi, dims),
        in_box(q, lo, hi, dims) ==> forall|i: int|
            0 <= i < dims ==> gap(p[i], #[trigger] clamp(p, lo, hi, dims)[i]) <= gap(p[i], q[i]),
{
    let c = clamp(p, lo, hi, dims);
    if in_box(p, lo, hi, dims) {
        assert(c =~= p.take(dims as int));
    }
}

} // verus!

verus! {

/// The extent of the interval `[lo, hi]`, zero when it is empty.
pub open spec fn span(lo: i64, hi: i64) -> nat {
    if lo <= hi {
        (hi - lo) as nat
    } else {
        0
    }
}

/// The sum of the extents of the box `[lo, hi]` over its first `k` coordinates.
pub open spec fn width(lo: Seq<i64>, hi: Seq<i64>, k: nat) -> nat
    decreases k,
{
    if k == 0 {
        0
    } else {
        width(lo, hi, (k - 1) as nat) + span(lo[k - 1], hi[k - 1])
    }
}

/// A box inside another is no wider; strictly narrower on one coordinate, it is
/// strictly less wide.
pub proof fn lemma_width_shrinks(
    lo: Seq<i64>,
    hi: Seq<i64>,
    lo2: Seq<i64>,
    hi2: Seq<i64>,
    k: nat,
    d: int,
)
    requires
        forall|i: int| 0 <= i < k ==> span(lo2[i], hi2[i]) <= span(lo[i], hi[i]),
        0 <= d < k,
        span(lo2[d], hi2[d]) < span(lo[d], hi[d]),
    ensures
        width(lo2, hi2, k) < width(lo, hi, k),
    decreases k,
{
    if k - 1 == d {
        lemma_width_monotone(lo, hi, lo2, hi2, (k - 1) as nat);
    } else {
        lemma_width_shrinks(lo, hi, lo2, hi2, (k - 1) as nat, d);
    }
}

proof fn lemma_width_monotone(lo: Seq<i64>, hi: Seq<i64>, lo2: Seq<i64>, hi2: Seq<i64>, k: nat)
    requires
        forall|i: int| 0 <= i < k ==> span(lo2[i], hi2[i]) <= span(lo[i], hi[i]),
    ensures
        width(lo2, hi2, k) <= width(lo, hi, k),
    decreases k,
{
    if k > 0 {
        lemma_width_monotone(lo, hi, lo2, hi2, (k - 1) as nat);
    }
}

} // verus!

verus! {

impl ErrorKind {
    /// A short description of the error.
    pub fn description(&self) -> (s: &'static str)
        ensures
            s@ == match *self {
                ErrorKind::WrongDimension => "wrong dimension"@,
                ErrorKind::NonFiniteCoordinate => "non-finite coordinate"@,
                ErrorKind::ZeroCapacity => "zero capacity"@,
            },
    {
        match *self {
            ErrorKind::WrongDimension => "wrong dimension",
            ErrorKind::NonFiniteCoordinate => "non-finite coordinate",
            ErrorKind::ZeroCapacity => "zero capacity",
        }
    }
}

} // verus!

verus! {

/// The lower corner of the box `lo` grown to hold `p`.
pub open spec fn lower_with(lo: Seq<i64>, p: Seq<i64>, dims: nat) -> Seq<i64> {
    Seq::new(dims, |i: int| if p[i] < lo[i] { p[i] } else { lo[i] })
}

/// The upper corner of the box `hi` grown to hold `p`.
pub open spec fn upper_with(hi: Seq<i64>, p: Seq<i64>, dims: nat) -> Seq<i64> {
    Seq::new(dims, |i: int| if p[i] > hi[i] { p[i] } else { hi[i] })
}

/// A box has no width exactly when it has no extent along any coordinate.
pub proof fn lemma_width_zero(lo: Seq<i64>, hi: Seq<i64>, k: nat)
    ensures
        width(lo, hi, k) == 0 <==> forall|i: int| 0 <= i < k ==> hi[i] <= lo[i],
    decreases k,
{
    if k > 0 {
        lemma_width_zero(lo, hi, (k - 1) as nat);
        if width(lo, hi, k) == 0 {
            assert forall|i: int| 0 <= i < k implies hi[i] <= lo[i] by {
                if i < k - 1 {
                } else {
                    assert(span(lo[k - 1], hi[k - 1]) == 0);
                }
            }
        }
    }
}

} // verus!

verus! {

/// The first of the first `k` coordinates along which the box `[lo, hi]` is
/// widest, or `-1` when it has no extent along any of them.
pub open spec fn widest(lo: Seq<i64>, hi: Seq<i64>, k: nat) -> int
    decreases k,
{
    if k == 0 {
        -1
    } else {
        let w = widest(lo, hi, (k - 1) as nat);
        let best = if w < 0 {
            0
        } else {
            hi[w] - lo[w]
        };
        if hi[k - 1] - lo[k - 1] > best {
            k - 1
        } else {
            w
        }
    }
}

/// The value at which a box spanning `[low, high]` on the split coordinate is
/// cut: the upper middle, so that `low` and `high` fall on different sides.
pub open spec fn split_point(low: i64, high: i64) -> int {
    low + (high - low + 1) / 2
}

/// The widest coordinate, when there is one, is a coordinate of positive
/// extent, and none is wider.
pub proof fn lemma_widest(lo: Seq<i64>, hi: Seq<i64>, k: nat)
    ensures
        -1 <= widest(lo, hi, k) < k,
        widest(lo, hi, k) >= 0 ==> hi[widest(lo, hi, k)] - lo[widest(lo, hi, k)] > 0,
        widest(lo, hi, k) >= 0 ==> forall|i: int|
            0 <= i < k ==> #[trigger] hi[i] - lo[i] <= hi[widest(lo, hi, k)] - lo[widest(lo, hi, k)],
        widest(lo, hi, k) < 0 <==> forall|i: int| 0 <= i < k ==> #[trigger] hi[i] <= lo[i],
    decreases k,
{
    if k > 0 {
        lemma_widest(lo, hi, (k - 1) as nat);
    }
}

} // verus!
