use vstd::prelude::*;
use vstd::multiset::Multiset;

use crate::geometry::{point_error, ErrorKind};
use crate::kdtree::query::{
    lemma_pending_push, lemma_pending_remove, lemma_queued_push, lemma_suffix_multiset, pending_entries, pending_nodes,
    pending_values, queued, step_queue,
};
use crate::geometry::clamp;
use crate::kdtree::{filled, zip_entries, KdTree};
use crate::metric::{distance_to_space_noalloc, lemma_box_bound, lemma_call_measures, lemma_measure_unique, measures, metric, total};
use crate::order::{ordered, precedes};

verus! {

broadcast use vstd::seq_lib::group_to_multiset_ensures, vstd::multiset::group_multiset_axioms,
    vstd::slice::group_slice_axioms;

/// Some distance measured from `x` to `p` is at most `r`.
pub open spec fn within_radius<F: Fn(&[i64], &[i64]) -> u64>(f: &F, x: Seq<i64>, p: Seq<i64>, r: u64) -> bool {
    exists|d: u64| #[trigger] measures(f, x, p, d) && d <= r
}

/// Every distance measured from `x` to each entry of `m` exceeds `r`.
pub open spec fn none_within<T, F: Fn(&[i64], &[i64]) -> u64>(
    m: Multiset<(Seq<i64>, T)>,
    f: &F,
    x: Seq<i64>,
    r: u64,
) -> bool {
    forall|e: (Seq<i64>, T), d: u64|
        #![trigger m.count(e), measures(f, x, e.0, d)]
        m.count(e) > 0 && measures(f, x, e.0, d) ==> r < d
}

/// `sel` lists distinct entries of `m` within `radius`, one for each result,
/// which is the entry's data.
pub open spec fn picked_within<T, F: Fn(&[i64], &[i64]) -> u64>(
    m: Multiset<(Seq<i64>, T)>,
    f: &F,
    x: Seq<i64>,
    radius: u64,
    v: Seq<T>,
    sel: Seq<(Seq<i64>, T)>,
) -> bool {
    &&& sel.len() == v.len()
    &&& sel.to_multiset().subset_of(m)
    &&& forall|i: int|
        0 <= i < v.len() ==> (#[trigger] sel[i]).1 == v[i] && within_radius(f, x, sel[i].0, radius)
}

/// An entry within `radius` left out means `max_qty` results were kept, none
/// of which comes after it in the order of the data.
pub open spec fn rest_not_better<T: PartialOrd, F: Fn(&[i64], &[i64]) -> u64>(
    rest: Multiset<(Seq<i64>, T)>,
    f: &F,
    x: Seq<i64>,
    radius: u64,
    max_qty: nat,
    v: Seq<T>,
) -> bool {
    forall|e: (Seq<i64>, T)|
        #![trigger rest.count(e), within_radius(f, x, e.0, radius)]
        rest.count(e) > 0 && within_radius(f, x, e.0, radius) ==> v.len() == max_qty && (ordered::<T>()
            ==> forall|j: int| 0 <= j < v.len() ==> !precedes(e.1, #[trigger] v[j]))
}

/// What `best_n_within` returns: at most `max_qty` data of entries within
/// `radius` of `x`, the first ones in the order of the data.
pub open spec fn best_result<T: PartialOrd, F: Fn(&[i64], &[i64]) -> u64>(
    m: Multiset<(Seq<i64>, T)>,
    f: &F,
    x: Seq<i64>,
    radius: u64,
    max_qty: nat,
    dims: nat,
    v: Seq<T>,
) -> bool {
    &&& v.len() <= max_qty
    &&& exists|sel: Seq<(Seq<i64>, T)>|
        #[trigger] picked_within(m, f, x, radius, v, sel) && (metric(f, dims) ==> rest_not_better(
            m.sub(sel.to_multiset()),
            f,
            x,
            radius,
            max_qty,
            v,
        ))
}

/// An entry set aside is beyond `radius`, or was passed over by `max_qty`
/// results none of which comes after it.
pub open spec fn passed_over<T: PartialOrd, F: Fn(&[i64], &[i64]) -> u64>(
    gone: Multiset<(Seq<i64>, T)>,
    f: &F,
    x: Seq<i64>,
    radius: u64,
    dims: nat,
    max_qty: nat,
    ev: Seq<T>,
) -> bool {
    forall|e: (Seq<i64>, T)|
        #[trigger] gone.count(e) > 0 ==> (metric(f, dims) ==> (forall|d: u64|
            #[trigger] measures(f, x, e.0, d) ==> radius < d)) || (ev.len() == max_qty && (ordered::<T>()
            ==> forall|j: int| 0 <= j < ev.len() ==> !precedes(e.1, #[trigger] ev[j])))
}

/// Setting aside an entry beyond `radius`, or one that no result held
/// comes after once `max_qty` are held, keeps what was set aside passed over.
proof fn lemma_passed_over_insert<T: PartialOrd, F: Fn(&[i64], &[i64]) -> u64>(
    gone: Multiset<(Seq<i64>, T)>,
    f: &F,
    x: Seq<i64>,
    radius: u64,
    dims: nat,
    max_qty: nat,
    ev: Seq<T>,
    e: (Seq<i64>, T),
)
    requires
        passed_over(gone, f, x, radius, dims, max_qty, ev),
        (metric(f, dims) ==> (forall|d: u64| #[trigger] measures(f, x, e.0, d) ==> radius < d)) || (ev.len()
            == max_qty && (ordered::<T>() ==> forall|j: int| 0 <= j < ev.len() ==> !precedes(e.1, #[trigger] ev[j]))),
    ensures
        passed_over(gone.insert(e), f, x, radius, dims, max_qty, ev),
{
    let g1 = gone.insert(e);
    assert forall|e2: (Seq<i64>, T)| #[trigger] g1.count(e2) > 0 implies (metric(f, dims) ==> (forall|d: u64|
        #[trigger] measures(f, x, e2.0, d) ==> radius < d)) || (ev.len() == max_qty && (ordered::<T>()
        ==> forall|j: int| 0 <= j < ev.len() ==> !precedes(e2.1, #[trigger] ev[j]))) by {
        if gone.count(e2) == 0 {
            assert(e2 == e);
        }
    }
}

/// The state of a search for the best entries within `radius`.
pub open spec fn best_inv<'b, T: PartialOrd, F: Fn(&[i64], &[i64]) -> u64>(
    root: KdTree<T>,
    f: &F,
    x: Seq<i64>,
    radius: u64,
    max_qty: nat,
    pending: Seq<(u64, &'b KdTree<T>)>,
    ev: Seq<T>,
    sel: Seq<(Seq<i64>, T)>,
    gone: Multiset<(Seq<i64>, T)>,
) -> bool {
    &&& root@ == pending_entries(pending).add(sel.to_multiset()).add(gone)
    &&& forall|i: int|
        0 <= i < pending.len() ==> (#[trigger] pending[i]).1.wf() && pending[i].1.spec_dimensions()
            == root.spec_dimensions() && (root.spec_is_leaf() ==> pending[i].1.spec_is_leaf())
    &&& sel.len() == ev.len()
    &&& ev.len() <= max_qty
    &&& forall|i: int|
        0 <= i < ev.len() ==> (#[trigger] sel[i]).1 == ev[i] && within_radius(f, x, sel[i].0, radius)
    &&& passed_over(gone, f, x, radius, root.spec_dimensions(), max_qty, ev)
}

/// The data of the entries among the first `k` of `le`, with their distances
/// `dl`, that lie within `bound`.
pub open spec fn offered<T>(le: Seq<(Seq<i64>, T)>, dl: Seq<u64>, bound: u64, k: nat) -> Multiset<T>
    decreases k,
{
    if k == 0 {
        Multiset::empty()
    } else {
        let rest = offered(le, dl, bound, (k - 1) as nat);
        if dl[k - 1] <= bound {
            rest.insert(le[k - 1].1)
        } else {
            rest
        }
    }
}

/// The data `ev` are `max_qty` (all, if fewer) of the candidates `cand`; the
/// others were set aside in `dropped`, and, where `T` is ordered, none of
/// them comes before a kept one.
pub open spec fn best_tally<T: PartialOrd>(cand: Multiset<T>, ev: Seq<T>, dropped: Multiset<T>, max_qty: nat) -> bool {
    &&& ev.to_multiset().add(dropped) == cand
    &&& ordered::<T>() ==> forall|a: T, j: int|
        #![trigger dropped.count(a), ev[j]]
        dropped.count(a) > 0 && 0 <= j < ev.len() ==> !precedes(a, ev[j])
    &&& ev.len() == if max_qty < cand.len() {
        max_qty
    } else {
        cand.len()
    }
}

/// The data `ev1` are the first `max_qty` (all, if fewer), in the order of
/// `T`, of the data `ev0` and those of the entries of the leaf below `node`
/// on `x`'s side within `max_dist`, measured `dl`.
pub open spec fn step_offer<T: PartialOrd, F: Fn(&[i64], &[i64]) -> u64>(
    node: KdTree<T>,
    f: &F,
    x: Seq<i64>,
    dl: Seq<u64>,
    max_dist: u64,
    max_qty: nat,
    ev0: Seq<T>,
    ev1: Seq<T>,
) -> bool {
    let le = node.landing(x).entries();
    let cand = ev0.to_multiset().add(offered(le, dl, max_dist, le.len()));
    &&& dl.len() == le.len()
    &&& forall|k: int| 0 <= k < le.len() ==> measures(f, x, (#[trigger] le[k]).0, dl[k])
    &&& ev1.to_multiset().subset_of(cand)
    &&& ev1.len() == if max_qty < cand.len() {
        max_qty
    } else {
        cand.len()
    }
    &&& ordered::<T>() ==> forall|a: T, j: int|
        #![trigger cand.sub(ev1.to_multiset()).count(a), ev1[j]]
        cand.sub(ev1.to_multiset()).count(a) > 0 && 0 <= j < ev1.len() ==> !precedes(a, ev1[j])
}

proof fn lemma_best_tally_push<T: PartialOrd>(cand: Multiset<T>, ev: Seq<T>, dropped: Multiset<T>, max_qty: nat, a: T)
    requires
        best_tally(cand, ev, dropped, max_qty),
        ev.len() < max_qty,
    ensures
        best_tally(cand.insert(a), ev.push(a), dropped, max_qty),
{
    assert(dropped.len() == 0);
    assert(dropped =~= Multiset::empty());
    assert(ev.push(a).to_multiset().add(dropped) =~= cand.insert(a));
}

proof fn lemma_best_tally_replace<T: PartialOrd>(
    cand: Multiset<T>,
    ev: Seq<T>,
    dropped: Multiset<T>,
    max_qty: nat,
    top: int,
    a: T,
)
    requires
        best_tally(cand, ev, dropped, max_qty),
        ev.len() == max_qty,
        0 <= top < ev.len(),
        ordered::<T>() ==> forall|j: int| 0 <= j < ev.len() ==> !precedes(ev[top], #[trigger] ev[j]),
        ordered::<T>() ==> precedes(a, ev[top]),
    ensures
        best_tally(cand.insert(a), ev.update(top, a), dropped.insert(ev[top]), max_qty),
{
    let old_top = ev[top];
    let ev1 = ev.update(top, a);
    let d1 = dropped.insert(old_top);
    assert(ev1.to_multiset() == ev.to_multiset().insert(a).remove(old_top));
    assert(ev.contains(old_top));
    assert(ev1.to_multiset().add(d1) =~= cand.insert(a));
    if ordered::<T>() {
        assert forall|b: T, j: int| d1.count(b) > 0 && 0 <= j < ev1.len() implies !precedes(b, ev1[j]) by {
            if j != top {
                assert(ev1[j] == ev[j]);
                if dropped.count(b) == 0 {
                    assert(b == old_top);
                }
            } else if dropped.count(b) > 0 {
                assert(!precedes(b, old_top));
            } else {
                assert(b == old_top);
            }
        }
    }
}

proof fn lemma_best_tally_reject<T: PartialOrd>(
    cand: Multiset<T>,
    ev: Seq<T>,
    dropped: Multiset<T>,
    max_qty: nat,
    top: int,
    a: T,
)
    requires
        best_tally(cand, ev, dropped, max_qty),
        ev.len() == max_qty,
        0 <= top < ev.len(),
        ordered::<T>() ==> forall|j: int| 0 <= j < ev.len() ==> !precedes(ev[top], #[trigger] ev[j]),
        ordered::<T>() ==> !precedes(a, ev[top]),
    ensures
        best_tally(cand.insert(a), ev, dropped.insert(a), max_qty),
{
    assert(ev.to_multiset().add(dropped.insert(a)) =~= cand.insert(a));
    if ordered::<T>() {
        assert forall|b: T, j: int| dropped.insert(a).count(b) > 0 && 0 <= j < ev.len() implies !precedes(b, ev[j]) by {
            if dropped.count(b) == 0 {
                assert(b == a);
                assert(!precedes(ev[top], ev[j]));
            }
        }
    }
}

proof fn lemma_best_tally_done<T: PartialOrd>(cand: Multiset<T>, ev: Seq<T>, dropped: Multiset<T>, max_qty: nat)
    requires
        best_tally(cand, ev, dropped, max_qty),
    ensures
        ev.to_multiset().subset_of(cand),
        cand.sub(ev.to_multiset()) == dropped,
{
    assert(cand.sub(ev.to_multiset()) =~= dropped);
}

/// The data offered depend only on the distances measured so far.
proof fn lemma_offered_prefix<T>(le: Seq<(Seq<i64>, T)>, dl1: Seq<u64>, dl2: Seq<u64>, b: u64, k: nat)
    requires
        forall|i: int| 0 <= i < k ==> dl1[i] == dl2[i],
    ensures
        offered(le, dl1, b, k) == offered(le, dl2, b, k),
    decreases k,
{
    if k > 0 {
        lemma_offered_prefix(le, dl1, dl2, b, (k - 1) as nat);
        assert(dl1[k - 1] == dl2[k - 1]);
    }
}

/// The position of an element that no other element comes after.
fn max_index_by_order<T: PartialOrd>(v: &Vec<T>) -> (i: usize)
    requires
        v@.len() > 0,
    ensures
        i < v@.len(),
        ordered::<T>() ==> forall|j: int| 0 <= j < v@.len() ==> !precedes(v@[i as int], #[trigger] v@[j]),
{
    let mut best: usize = 0;
    let mut k: usize = 1;
    while k < v.len()
        invariant
            1 <= k <= v@.len(),
            best < k,
            ordered::<T>() ==> forall|j: int| 0 <= j < k ==> !precedes(v@[best as int], #[trigger] v@[j]),
        decreases v@.len() - k,
    {
        if v[best] < v[k] {
            proof {
                if ordered::<T>() {
                    assert forall|j: int| 0 <= j < k + 1 implies !precedes(v@[k as int], #[trigger] v@[j]) by {
                        if j < k && precedes(v@[k as int], v@[j]) {
                            assert(precedes(v@[best as int], v@[k as int]));
                        }
                    }
                }
            }
            best = k;
        }
        k += 1;
    }
    best
}

} // verus!

verus! {

impl<T: Copy + Ord> KdTree<T> {
    /// Searches the subtree on top of the stack: walks down to the leaf on
    /// `point`'s side, stacking each sibling subtree whose box lies within
    /// `max_dist`, then offers each entry of the leaf within `max_dist`, keeping
    /// at most `max_qty` data, the first in their order. Besides the search
    /// state, it gives back the distances measured to the boxes passed over
    /// and those measured to the leaf's points.
    #[verifier::loop_isolation(false)]
    fn best_n_within_step<'b, F: Fn(&[i64], &[i64]) -> u64>(
        &self,
        point: &[i64],
        max_qty: usize,
        max_dist: u64,
        distance: &F,
        pending: &mut Vec<(u64, &'b KdTree<T>)>,
        evaluated: &mut Vec<T>,
        scratch: &mut Vec<i64>,
        Ghost(sel0): Ghost<Seq<(Seq<i64>, T)>>,
        Ghost(gone0): Ghost<Multiset<(Seq<i64>, T)>>,
    ) -> (out: Ghost<(Seq<(Seq<i64>, T)>, Multiset<(Seq<i64>, T)>, Seq<u64>, Seq<u64>)>)
        requires
            self.wf(),
            total(distance),
            point@.len() >= self.spec_dimensions() || self.spec_is_leaf(),
            old(scratch)@.len() == self.spec_dimensions(),
            max_qty > 0 || none_within(self@, distance, point@, max_dist),
            old(pending)@.len() > 0,
            best_inv(
                *self,
                distance,
                point@,
                max_dist,
                max_qty as nat,
                old(pending)@,
                old(evaluated)@,
                sel0,
                gone0,
            ),
        ensures
            best_inv(
                *self,
                distance,
                point@,
                max_dist,
                max_qty as nat,
                final(pending)@,
                final(evaluated)@,
                out@.0,
                out@.1,
            ),
            final(scratch)@.len() == self.spec_dimensions(),
            pending_nodes(final(pending)@) < pending_nodes(old(pending)@),
            step_queue(
                *old(pending)@.last().1,
                distance,
                point@,
                out@.2,
                max_dist,
                old(pending)@.drop_last(),
                final(pending)@,
            ),
            step_offer(
                *old(pending)@.last().1,
                distance,
                point@,
                out@.3,
                max_dist,
                max_qty as nat,
                old(evaluated)@,
                final(evaluated)@,
            ),
    {
        let ghost root = *self;
        let ghost dims = self.spec_dimensions();
        let ghost x = point@;
        let ghost pending0 = pending@;
        let ghost mut sel = sel0;
        let ghost mut gone = gone0;
        proof {
            lemma_pending_remove(pending@, pending@.len() - 1);
            assert(pending@.remove(pending@.len() - 1) =~= pending@.drop_last());
        }
        let popped = pending.pop().unwrap();
        let mut curr: &'b KdTree<T> = popped.1;
        let ghost ev_in = evaluated@;
        let ghost node = *popped.1;
        let ghost base = pending@;
        let ghost mut sofar: Seq<KdTree<T>> = Seq::empty();
        let ghost mut ds: Seq<u64> = Seq::empty();
        proof {
            assert(pending0[pending0.len() - 1] == popped);
            assert(base =~= pending0.drop_last());
            assert(sofar + curr.siblings(x) =~= curr.siblings(x));
            assert(pending_values(base) + queued(sofar, ds, max_dist) =~= pending_values(base));
        }
        while !curr.is_leaf()
            invariant
                curr.wf(),
                curr.spec_dimensions() == dims,
                root.spec_is_leaf() ==> curr.spec_is_leaf(),
                scratch@.len() == dims,
                root@ == pending_entries(pending@).add(curr@).add(sel.to_multiset()).add(gone),
                forall|i: int|
                    0 <= i < pending@.len() ==> (#[trigger] pending@[i]).1.wf()
                        && pending@[i].1.spec_dimensions() == dims && (root.spec_is_leaf()
                        ==> pending@[i].1.spec_is_leaf()),
                passed_over(gone, distance, x, max_dist, dims, max_qty as nat, evaluated@),
                pending_nodes(pending@) + curr.node_count() <= pending_nodes(pending0),
                node.siblings(x) == sofar + curr.siblings(x),
                node.landing(x) == curr.landing(x),
                ds.len() == sofar.len(),
                forall|i: int|
                    0 <= i < sofar.len() ==> measures(
                        distance,
                        x,
                        clamp(x, (#[trigger] sofar[i]).lower(), sofar[i].upper(), dims),
                        ds[i],
                    ),
                pending_values(pending@) == pending_values(base) + queued(sofar, ds, max_dist),
            decreases curr.node_count(),
        {
            proof {
                curr.lemma_children_view();
            }
            let goes_left = curr.belongs_in_left(point);
            let l: &'b KdTree<T> = curr.left.as_ref().unwrap();
            let r: &'b KdTree<T> = curr.right.as_ref().unwrap();
            let (next, candidate) = if goes_left {
                (l, r)
            } else {
                (r, l)
            };
            let ghost before = *curr;
            let candidate_to_space = distance_to_space_noalloc(
                point,
                candidate.min_bounds.as_slice(),
                candidate.max_bounds.as_slice(),
                distance,
                self.dimensions,
                scratch,
            );
            proof {
                assert(before@ == next@.add(candidate@));
                assert(before.node_count() == 1 + next.node_count() + candidate.node_count());
            }
            let ghost pv0 = pending@;
            if candidate_to_space <= max_dist {
                let ghost pb = pending@;
                pending.push((candidate_to_space, candidate));
                proof {
                    lemma_pending_push(pb, (candidate_to_space, candidate));
                    assert forall|i: int| 0 <= i < pending@.len() implies (#[trigger] pending@[i]).1.wf()
                        && pending@[i].1.spec_dimensions() == dims && (root.spec_is_leaf()
                        ==> pending@[i].1.spec_is_leaf()) by {
                        if i < pb.len() {
                            assert(pending@[i] == pb[i]);
                        }
                    }
                    assert(root@ =~= pending_entries(pending@).add(next@).add(sel.to_multiset()).add(
                        gone,
                    ));
                }
            } else {
                proof {
                    let g0 = gone;
                    gone = gone.add(candidate@);
                    assert forall|e: (Seq<i64>, T)| #[trigger] gone.count(e) > 0 implies (metric(distance, dims)
                        ==> (forall|d: u64| #[trigger] measures(distance, x, e.0, d) ==> max_dist < d))
                        || (evaluated@.len() == max_qty && (ordered::<T>() ==> forall|j: int|
                        0 <= j < evaluated@.len() ==> !precedes(e.1, #[trigger] evaluated@[j]))) by {
                        if g0.count(e) == 0 {
                            if metric(distance, dims) {
                                assert forall|d: u64| #[trigger] measures(distance, x, e.0, d) implies max_dist
                                    < d by {
                                    candidate.lemma_entry_in_box(e);
                                    lemma_box_bound(
                                        distance,
                                        dims,
                                        x,
                                        candidate.lower(),
                                        candidate.upper(),
                                        e.0,
                                        candidate_to_space,
                                        d,
                                    );
                                }
                            }
                        }
                    }
                    assert(root@ =~= pending_entries(pending@).add(next@).add(sel.to_multiset()).add(
                        gone,
                    ));
                }
            }
            proof {
                let s0 = sofar;
                let d0 = ds;
                lemma_queued_push(s0, d0, *candidate, candidate_to_space, max_dist);
                sofar = s0.push(*candidate);
                ds = d0.push(candidate_to_space);
                assert(before.siblings(x) == seq![*candidate] + next.siblings(x));
                assert(sofar + next.siblings(x) =~= s0 + before.siblings(x));
                assert(before.landing(x) == next.landing(x));
                assert forall|i: int| 0 <= i < sofar.len() implies measures(
                    distance,
                    x,
                    clamp(x, (#[trigger] sofar[i]).lower(), sofar[i].upper(), dims),
                    ds[i],
                ) by {
                    if i < s0.len() {
                        assert(sofar[i] == s0[i]);
                        assert(ds[i] == d0[i]);
                    }
                }
                if candidate_to_space <= max_dist {
                    assert(pending@ == pv0.push((candidate_to_space, candidate)));
                    assert(pending_values(pending@) =~= pending_values(pv0).push((candidate_to_space, *candidate)));
                    assert(pending_values(pending@) =~= pending_values(base) + queued(sofar, ds, max_dist));
                } else {
                    assert(pending@ == pv0);
                }
            }
            curr = next;
        }
        proof {
            curr.lemma_leaf_entries();
            assert(sofar + curr.siblings(x) =~= sofar);
        }
        let points: &'b Vec<Vec<i64>> = curr.points.as_ref().unwrap();
        let bucket: &'b Vec<T> = curr.bucket.as_ref().unwrap();
        let ghost z = zip_entries(points@, bucket@);
        let ghost n = points@.len() as int;
        proof {
            assert(z.subrange(0, n) =~= z);
            assert(curr@ == z.to_multiset());
        }
        let ghost mut dl: Seq<u64> = Seq::empty();
        let ghost mut dropped: Multiset<T> = Multiset::empty();
        proof {
            assert(ev_in.to_multiset().add(offered(z, dl, max_dist, 0)) =~= ev_in.to_multiset());
        }
        let mut k: usize = 0;
        while k < points.len()
            invariant
                k <= points@.len(),
                dl.len() == k,
                forall|i: int| 0 <= i < k ==> measures(distance, x, (#[trigger] z[i]).0, dl[i]),
                best_tally(
                    ev_in.to_multiset().add(offered(z, dl, max_dist, k as nat)),
                    evaluated@,
                    dropped,
                    max_qty as nat,
                ),
                z.len() == n,
                n == points@.len(),
                points@.len() == bucket@.len(),
                scratch@.len() == dims,
                root@ == pending_entries(pending@).add(z.subrange(k as int, n).to_multiset()).add(
                    sel.to_multiset(),
                ).add(gone),
                forall|i: int|
                    0 <= i < pending@.len() ==> (#[trigger] pending@[i]).1.wf()
                        && pending@[i].1.spec_dimensions() == dims && (root.spec_is_leaf()
                        ==> pending@[i].1.spec_is_leaf()),
                sel.len() == evaluated@.len(),
                evaluated@.len() <= max_qty,
                forall|i: int|
                    0 <= i < evaluated@.len() ==> (#[trigger] sel[i]).1 == evaluated@[i] && within_radius(
                        distance,
                        x,
                        sel[i].0,
                        max_dist,
                    ),
                passed_over(gone, distance, x, max_dist, dims, max_qty as nat, evaluated@),
            decreases points@.len() - k,
        {
            let p = points[k].as_slice();
            let d = distance(point, p);
            let ghost e = z[k as int];
            proof {
                lemma_call_measures(distance, point, p, d);
                assert(e == (points@[k as int]@, bucket@[k as int]));
                lemma_suffix_multiset(z, k as int);
            }
            let ghost dl0 = dl;
            let ghost cand0 = ev_in.to_multiset().add(offered(z, dl0, max_dist, k as nat));
            proof {
                dl = dl0.push(d);
                lemma_offered_prefix(z, dl0, dl, max_dist, k as nat);
                assert(dl[k as int] == d);
                if d <= max_dist {
                    assert(ev_in.to_multiset().add(offered(z, dl, max_dist, (k + 1) as nat)) =~= cand0.insert(e.1));
                } else {
                    assert(ev_in.to_multiset().add(offered(z, dl, max_dist, (k + 1) as nat)) == cand0);
                }
                assert forall|i: int| 0 <= i < k + 1 implies measures(distance, x, (#[trigger] z[i]).0, dl[i]) by {
                    if i < k {
                        assert(dl[i] == dl0[i]);
                    }
                }
            }
            if d <= max_dist {
                if evaluated.len() < max_qty {
                    let ghost ev0 = evaluated@;
                    let ghost sel_before = sel;
                    evaluated.push(bucket[k]);
                    proof {
                        lemma_best_tally_push(cand0, ev0, dropped, max_qty as nat, e.1);
                        sel = sel.push(e);
                        assert(within_radius(distance, x, e.0, max_dist));
                        assert forall|i: int| 0 <= i < evaluated@.len() implies (#[trigger] sel[i]).1
                            == evaluated@[i] && within_radius(distance, x, sel[i].0, max_dist) by {
                            if i < ev0.len() {
                                assert(sel[i] == sel_before[i]);
                                assert(evaluated@[i] == ev0[i]);
                            }
                        }
                        assert forall|e2: (Seq<i64>, T)| #[trigger] gone.count(e2) > 0 implies (metric(
                            distance,
                            dims,
                        ) ==> (forall|d2: u64| #[trigger] measures(distance, x, e2.0, d2) ==> max_dist < d2))
                            || (evaluated@.len() == max_qty && (ordered::<T>() ==> forall|j: int|
                            0 <= j < evaluated@.len() ==> !precedes(e2.1, #[trigger] evaluated@[j]))) by {
                            assert((metric(distance, dims) ==> (forall|d2: u64|
                                #[trigger] measures(distance, x, e2.0, d2) ==> max_dist < d2))
                                || (ev0.len() == max_qty && (ordered::<T>() ==> forall|j: int|
                                0 <= j < ev0.len() ==> !precedes(e2.1, #[trigger] ev0[j]))));
                        }
                        assert(root@ =~= pending_entries(pending@).add(
                            z.subrange(k + 1, n).to_multiset(),
                        ).add(sel.to_multiset()).add(gone));
                    }
                } else {
                    proof {
                        if max_qty == 0 {
                            assert(z.subrange(k as int, n).to_multiset().count(e) > 0);
                            assert(root@.count(e) > 0);
                            assert(measures(distance, x, e.0, d));
                            assert(self@.count(e) > 0);
                            assert(false);
                        }
                    }
                    let top = max_index_by_order(evaluated);
                    if bucket[k] < evaluated[top] {
                        let ghost ev0 = evaluated@;
                        let ghost sel_before = sel;
                        let ghost g0 = gone;
                        let ghost old_top = sel[top as int];
                        proof {
                            gone = gone.insert(old_top);
                            sel = sel.update(top as int, e);
                        }
                        evaluated.set(top, bucket[k]);
                        proof {
                            if ordered::<T>() {
                                assert(precedes(e.1, ev0[top as int]));
                            }
                            lemma_best_tally_replace(cand0, ev0, dropped, max_qty as nat, top as int, e.1);
                            dropped = dropped.insert(ev0[top as int]);
                            assert(within_radius(distance, x, e.0, max_dist));
                            assert forall|i: int| 0 <= i < evaluated@.len() implies (#[trigger] sel[i]).1
                                == evaluated@[i] && within_radius(distance, x, sel[i].0, max_dist) by {
                                if i != top {
                                    assert(sel[i] == sel_before[i]);
                                    assert(evaluated@[i] == ev0[i]);
                                }
                            }
                            assert forall|e2: (Seq<i64>, T)| #[trigger] gone.count(e2) > 0 implies (metric(
                                distance,
                                dims,
                            ) ==> (forall|d2: u64| #[trigger] measures(distance, x, e2.0, d2) ==> max_dist
                                < d2)) || (evaluated@.len() == max_qty && (ordered::<T>() ==> forall|j: int|
                                0 <= j < evaluated@.len() ==> !precedes(e2.1, #[trigger] evaluated@[j]))) by {
                                if g0.count(e2) > 0 {
                                    assert((metric(distance, dims) ==> (forall|d2: u64|
                                        #[trigger] measures(distance, x, e2.0, d2) ==> max_dist < d2))
                                        || (ev0.len() == max_qty && (ordered::<T>() ==> forall|j: int|
                                        0 <= j < ev0.len() ==> !precedes(e2.1, #[trigger] ev0[j]))));
                                    if ordered::<T>() && ev0.len() == max_qty && (forall|j: int|
                                        0 <= j < ev0.len() ==> !precedes(e2.1, #[trigger] ev0[j])) {
                                        assert forall|j: int| 0 <= j < evaluated@.len() implies !precedes(
                                            e2.1,
                                            #[trigger] evaluated@[j],
                                        ) by {
                                            if j == top {
                                                assert(!precedes(e2.1, ev0[top as int]));
                                                assert(precedes(evaluated@[j], ev0[top as int]));
                                            } else {
                                                assert(evaluated@[j] == ev0[j]);
                                            }
                                        }
                                    }
                                } else {
                                    assert(e2 == old_top);
                                    if ordered::<T>() {
                                        assert forall|j: int| 0 <= j < evaluated@.len() implies !precedes(
                                            e2.1,
                                            #[trigger] evaluated@[j],
                                        ) by {
                                            if j == top {
                                                assert(precedes(evaluated@[j], ev0[top as int]));
                                            } else {
                                                assert(evaluated@[j] == ev0[j]);
                                                assert(!precedes(ev0[top as int], ev0[j]));
                                            }
                                        }
                                    }
                                }
                            }
                            assert(sel.to_multiset() == sel_before.to_multiset().insert(e).remove(old_top));
                            assert(sel_before.contains(old_top));
                            assert(root@ =~= pending_entries(pending@).add(
                                z.subrange(k + 1, n).to_multiset(),
                            ).add(sel.to_multiset()).add(gone));
                        }
                    } else {
                        proof {
                            if ordered::<T>() {
                                assert(!precedes(e.1, evaluated@[top as int]));
                            }
                            lemma_best_tally_reject(cand0, evaluated@, dropped, max_qty as nat, top as int, e.1);
                            dropped = dropped.insert(e.1);
                            if ordered::<T>() {
                                assert forall|j: int| 0 <= j < evaluated@.len() implies !precedes(
                                    e.1,
                                    #[trigger] evaluated@[j],
                                ) by {
                                    assert(!precedes(evaluated@[top as int], evaluated@[j]));
                                }
                            }
                            lemma_passed_over_insert(gone, distance, x, max_dist, dims, max_qty as nat, evaluated@, e);
                            gone = gone.insert(e);
                            assert(root@ =~= pending_entries(pending@).add(
                                z.subrange(k + 1, n).to_multiset(),
                            ).add(sel.to_multiset()).add(gone));
                        }
                    }
                }
            } else {
                proof {
                    if metric(distance, dims) {
                        assert forall|d2: u64| #[trigger] measures(distance, x, e.0, d2) implies max_dist < d2 by {
                            lemma_measure_unique(distance, dims, x, e.0, d2, d);
                        }
                    }
                    lemma_passed_over_insert(gone, distance, x, max_dist, dims, max_qty as nat, evaluated@, e);
                    gone = gone.insert(e);
                    assert(root@ =~= pending_entries(pending@).add(z.subrange(k + 1, n).to_multiset()).add(
                        sel.to_multiset(),
                    ).add(gone));
                }
            }
            k += 1;
        }
        proof {
            assert(z.subrange(n, n).to_multiset() =~= Multiset::empty());
            assert(root@ =~= pending_entries(pending@).add(sel.to_multiset()).add(gone));
            lemma_best_tally_done(ev_in.to_multiset().add(offered(z, dl, max_dist, n as nat)), evaluated@, dropped, max_qty as nat);
            assert(node.landing(x) == *curr);
            assert(node.landing(x).entries() == z);
        }
        Ghost((sel, gone, ds, dl))
    }
}

} // verus!

verus! {

impl<T: Copy + Ord> KdTree<T> {
    /// Runs the search for the best entries within `radius` until no subtree
    /// is left to search.
    fn best_n_within_search<F: Fn(&[i64], &[i64]) -> u64>(
        &self,
        point: &[i64],
        radius: u64,
        max_qty: usize,
        distance: &F,
    ) -> (res: Vec<T>)
        requires
            self.wf(),
            total(distance),
            point@.len() >= self.spec_dimensions() || self.spec_is_leaf(),
            max_qty > 0 || none_within(self@, distance, point@, radius),
        ensures
            best_result(self@, distance, point@, radius, max_qty as nat, self.spec_dimensions(), res@),
    {
        let ghost x = point@;
        let ghost dims = self.spec_dimensions();
        let mut pending: Vec<(u64, &KdTree<T>)> = Vec::new();
        let mut evaluated: Vec<T> = Vec::new();
        pending.push((0, self));
        let mut scratch = match &self.distance_to_space_scratch_vec {
            Some(s) if s.len() == self.dimensions => s.clone(),
            _ => filled(self.dimensions, 0),
        };
        let ghost mut sel: Seq<(Seq<i64>, T)> = Seq::empty();
        let ghost mut gone: Multiset<(Seq<i64>, T)> = Multiset::empty();
        proof {
            lemma_pending_push(Seq::empty(), (0u64, self));
            assert(pending@ =~= Seq::empty().push((0u64, self)));
            assert(sel.to_multiset() =~= Multiset::empty());
            assert(self@ =~= pending_entries(pending@).add(sel.to_multiset()).add(gone));
        }
        while pending.len() > 0
            invariant
                self.wf(),
                total(distance),
                x == point@,
                dims == self.spec_dimensions(),
                point@.len() >= dims || self.spec_is_leaf(),
                scratch@.len() == dims,
                max_qty > 0 || none_within(self@, distance, point@, radius),
                best_inv(*self, distance, x, radius, max_qty as nat, pending@, evaluated@, sel, gone),
            decreases pending_nodes(pending@),
        {
            let Ghost(step) = self.best_n_within_step(
                point,
                max_qty,
                radius,
                distance,
                &mut pending,
                &mut evaluated,
                &mut scratch,
                Ghost(sel),
                Ghost(gone),
            );
            proof {
                sel = step.0;
                gone = step.1;
            }
        }
        proof {
            let m = self@;
            assert(pending_entries(pending@) =~= Multiset::empty());
            assert(m.sub(sel.to_multiset()) =~= gone);
            assert(picked_within(m, distance, x, radius, evaluated@, sel));
            if metric(distance, dims) {
                assert forall|e: (Seq<i64>, T)|
                    #![trigger m.sub(sel.to_multiset()).count(e), within_radius(distance, x, e.0, radius)]
                    m.sub(sel.to_multiset()).count(e) > 0 && within_radius(distance, x, e.0, radius)
                    implies evaluated@.len() == max_qty && (ordered::<T>() ==> forall|j: int|
                    0 <= j < evaluated@.len() ==> !precedes(e.1, #[trigger] evaluated@[j])) by {
                    assert(gone.count(e) > 0);
                    let d = choose|d: u64| #[trigger] measures(distance, x, e.0, d) && d <= radius;
                }
            }
        }
        evaluated
    }

    /// The data of at most `max_qty` entries within `radius` of `point` under
    /// `distance`: the first ones in the order of the data, in no particular
    /// order.
    ///
    /// With `max_qty` zero, some entry within `radius` would leave the search
    /// no result to compare it with.
    pub fn best_n_within<F: Fn(&[i64], &[i64]) -> u64>(
        &self,
        point: &[i64],
        radius: u64,
        max_qty: usize,
        distance: &F,
    ) -> (res: Result<Vec<T>, ErrorKind>)
        requires
            self.wf(),
            total(distance),
            point_error(self.spec_dimensions(), point@) is Some || max_qty > 0 || none_within(
                self@,
                distance,
                point@,
                radius,
            ),
        ensures
            match point_error(self.spec_dimensions(), point@) {
                Some(e) => res == Err::<Vec<T>, ErrorKind>(e),
                None => res is Ok,
            },
            res matches Ok(v) ==> best_result(
                self@,
                distance,
                point@,
                radius,
                max_qty as nat,
                self.spec_dimensions(),
                v@,
            ),
    {
        if let Err(err) = self.check_point(point) {
            return Err(err);
        }
        proof {
            self.lemma_view_len();
        }
        if self.size == 0 {
            let v: Vec<T> = Vec::new();
            proof {
                let sel: Seq<(Seq<i64>, T)> = Seq::empty();
                assert(sel.to_multiset() =~= Multiset::empty());
                assert(self@ =~= Multiset::empty());
                assert(self@.sub(sel.to_multiset()) =~= Multiset::empty());
                assert(picked_within(self@, distance, point@, radius, v@, sel));
            }
            return Ok(v);
        }
        Ok(self.best_n_within_search(point, radius, max_qty, distance))
    }

    /// As `best_n_within`, without checking the point; the data come as a
    /// vector, in no particular order.
    pub fn best_n_within_into_iter<F: Fn(&[i64], &[i64]) -> u64>(
        &self,
        point: &[i64],
        radius: u64,
        max_qty: usize,
        distance: &F,
    ) -> (res: Vec<T>)
        requires
            self.wf(),
            total(distance),
            point@.len() >= self.spec_dimensions() || self.spec_is_leaf(),
            max_qty > 0 || none_within(self@, distance, point@, radius),
        ensures
            best_result(self@, distance, point@, radius, max_qty as nat, self.spec_dimensions(), res@),
    {
        self.best_n_within_search(point, radius, max_qty, distance)
    }
}

impl<T> KdTree<T> {
    /// Gives the tree a buffer for computing distances to bounding boxes.
    pub fn allocate_dist_scratch(&mut self)
        requires
            old(self).wf(),
        ensures
            final(self).wf(),
            final(self)@ == old(self)@,
            final(self).spec_dimensions() == old(self).spec_dimensions(),
            final(self).spec_capacity() == old(self).spec_capacity(),
            final(self).spec_is_leaf() == old(self).spec_is_leaf(),
            final(self).lower() == old(self).lower(),
            final(self).upper() == old(self).upper(),
            final(self).dist_scratch() == Some(Seq::new(old(self).spec_dimensions(), |i: int| 0i64)),
            final(self).leaves_fit() == old(self).leaves_fit(),
    {
        self.distance_to_space_scratch_vec = Some(filled(self.dimensions, 0));
    }
}

} // verus!
