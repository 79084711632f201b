use vstd::prelude::*;
use vstd::multiset::Multiset;

use crate::geometry::{clamp, in_box, point_error, ErrorKind};
use crate::kdtree::{zip_entries, KdTree};
use crate::metric::{
    distance_to_space, lemma_box_bound, lemma_call_measures, lemma_measure_unique, measures, metric,
    total,
};

verus! {

broadcast use vstd::seq_lib::group_to_multiset_ensures, vstd::multiset::group_multiset_axioms,
    vstd::slice::group_slice_axioms;

/// The entries of all subtrees waiting to be searched.
pub open spec fn pending_entries<'b, T>(s: Seq<(u64, &'b KdTree<T>)>) -> Multiset<(Seq<i64>, T)>
    decreases s.len(),
{
    if s.len() == 0 {
        Multiset::empty()
    } else {
        pending_entries(s.drop_last()).add(s.last().1@)
    }
}

/// The number of nodes in all subtrees waiting to be searched.
pub open spec fn pending_nodes<'b, T>(s: Seq<(u64, &'b KdTree<T>)>) -> nat
    decreases s.len(),
{
    if s.len() == 0 {
        0
    } else {
        pending_nodes(s.drop_last()) + s.last().1.node_count()
    }
}

/// No entry of `m` is measured closer to `x` than `b`.
pub open spec fn no_closer_than<T, F: Fn(&[i64], &[i64]) -> u64>(
    m: Multiset<(Seq<i64>, T)>,
    f: &F,
    x: Seq<i64>,
    b: u64,
) -> bool {
    forall|e: (Seq<i64>, T), d: u64|
        #![trigger m.count(e), measures(f, x, e.0, d)]
        m.count(e) > 0 && measures(f, x, e.0, d) ==> b <= d
}

/// Every entry of `m` is measured farther from `x` than `r`.
pub open spec fn all_beyond<T, F: Fn(&[i64], &[i64]) -> u64>(
    m: Multiset<(Seq<i64>, T)>,
    f: &F,
    x: Seq<i64>,
    r: u64,
) -> bool {
    forall|e: (Seq<i64>, T), d: u64|
        #![trigger m.count(e), measures(f, x, e.0, d)]
        m.count(e) > 0 && measures(f, x, e.0, d) ==> r < d
}

/// The results are in order of distance.
pub open spec fn sorted_by_distance<'a, T>(v: Seq<(u64, &'a T)>) -> bool {
    forall|i: int, j: int| 0 <= i < j < v.len() ==> v[i].0 <= v[j].0
}

/// `sel` lists distinct entries of `m`, one for each result: the result
/// carries the entry's data and a distance the function measures for its point.
pub open spec fn chosen<'a, T, F: Fn(&[i64], &[i64]) -> u64>(
    m: Multiset<(Seq<i64>, T)>,
    f: &F,
    x: Seq<i64>,
    v: Seq<(u64, &'a T)>,
    sel: Seq<(Seq<i64>, T)>,
) -> bool {
    &&& sel.len() == v.len()
    &&& sel.to_multiset().subset_of(m)
    &&& forall|i: int|
        0 <= i < v.len() ==> (#[trigger] sel[i]).1 == *v[i].1 && measures(f, x, sel[i].0, v[i].0)
}

/// No entry left out of the results is closer than any result.
pub open spec fn rest_no_closer<'a, T, F: Fn(&[i64], &[i64]) -> u64>(
    m: Multiset<(Seq<i64>, T)>,
    f: &F,
    x: Seq<i64>,
    v: Seq<(u64, &'a T)>,
    sel: Seq<(Seq<i64>, T)>,
) -> bool {
    forall|i: int| 0 <= i < v.len() ==> no_closer_than(m.sub(sel.to_multiset()), f, x, #[trigger] v[i].0)
}

/// What `nearest` returns: the `min(num, m.len())` entries of `m` nearest to
/// `x`, nearest first.
pub open spec fn nearest_result<'a, T, F: Fn(&[i64], &[i64]) -> u64>(
    m: Multiset<(Seq<i64>, T)>,
    f: &F,
    x: Seq<i64>,
    num: nat,
    dims: nat,
    v: Seq<(u64, &'a T)>,
) -> bool {
    &&& v.len() == if num < m.len() {
        num
    } else {
        m.len()
    }
    &&& sorted_by_distance(v)
    &&& exists|sel: Seq<(Seq<i64>, T)>|
        #[trigger] chosen(m, f, x, v, sel) && (metric(f, dims) ==> rest_no_closer(m, f, x, v, sel))
}

/// What `within` returns: the entries of `m` within `radius` of `x`, nearest
/// first.
pub open spec fn within_result<'a, T, F: Fn(&[i64], &[i64]) -> u64>(
    m: Multiset<(Seq<i64>, T)>,
    f: &F,
    x: Seq<i64>,
    radius: u64,
    dims: nat,
    v: Seq<(u64, &'a T)>,
) -> bool {
    &&& sorted_by_distance(v)
    &&& forall|i: int| 0 <= i < v.len() ==> (#[trigger] v[i]).0 <= radius
    &&& exists|sel: Seq<(Seq<i64>, T)>|
        #[trigger] chosen(m, f, x, v, sel) && (metric(f, dims) ==> all_beyond(
            m.sub(sel.to_multiset()),
            f,
            x,
            radius,
        ))
}

pub(crate) proof fn lemma_pending_remove<'b, T>(s: Seq<(u64, &'b KdTree<T>)>, i: int)
    requires
        0 <= i < s.len(),
    ensures
        pending_entries(s) == pending_entries(s.remove(i)).add(s[i].1@),
        pending_nodes(s) == pending_nodes(s.remove(i)) + s[i].1.node_count(),
    decreases s.len(),
{
    if i == s.len() - 1 {
        assert(s.remove(i) =~= s.drop_last());
    } else {
        lemma_pending_remove(s.drop_last(), i);
        assert(s.remove(i).drop_last() =~= s.drop_last().remove(i));
        assert(s.remove(i).last() == s.last());
        assert(pending_entries(s) =~= pending_entries(s.remove(i)).add(s[i].1@));
    }
}

pub(crate) proof fn lemma_pending_push<'b, T>(s: Seq<(u64, &'b KdTree<T>)>, p: (u64, &'b KdTree<T>))
    ensures
        pending_entries(s.push(p)) == pending_entries(s).add(p.1@),
        pending_nodes(s.push(p)) == pending_nodes(s) + p.1.node_count(),
{
    assert(s.push(p).drop_last() =~= s);
}

/// An entry waiting to be searched lies in one of the pending subtrees.
pub(crate) proof fn lemma_pending_member<'b, T>(s: Seq<(u64, &'b KdTree<T>)>, e: (Seq<i64>, T)) -> (i: int)
    requires
        pending_entries(s).count(e) > 0,
    ensures
        0 <= i < s.len(),
        s[i].1@.count(e) > 0,
    decreases s.len(),
{
    if s.last().1@.count(e) > 0 {
        s.len() - 1
    } else {
        let j = lemma_pending_member(s.drop_last(), e);
        j
    }
}

/// The multiset of the elements from `k` on gains the element at `k`.
pub(crate) proof fn lemma_suffix_multiset<A>(s: Seq<A>, k: int)
    requires
        0 <= k < s.len(),
    ensures
        s.subrange(k, s.len() as int).to_multiset() =~= s.subrange(k + 1, s.len() as int).to_multiset().insert(
            s[k],
        ),
{
    let t = s.subrange(k, s.len() as int);
    assert(t.remove(0) =~= s.subrange(k + 1, s.len() as int));
    assert(t.remove(0).to_multiset() == t.to_multiset().remove(t[0]));
    assert(t.contains(t[0]));
}

} // verus!

verus! {

/// The position of a least distance.
pub(crate) fn min_index<X>(v: &Vec<(u64, X)>) -> (i: usize)
    requires
        v@.len() > 0,
    ensures
        i < v@.len(),
        forall|j: int| 0 <= j < v@.len() ==> v@[i as int].0 <= (#[trigger] v@[j]).0,
{
    let mut best: usize = 0;
    let mut k: usize = 1;
    while k < v.len()
        invariant
            1 <= k <= v@.len(),
            best < k,
            forall|j: int| 0 <= j < k ==> v@[best as int].0 <= (#[trigger] v@[j]).0,
        decreases v@.len() - k,
    {
        if v[k].0 < v[best].0 {
            best = k;
        }
        k += 1;
    }
    best
}

/// The position of a greatest distance.
fn max_index<X>(v: &Vec<(u64, X)>) -> (i: usize)
    requires
        v@.len() > 0,
    ensures
        i < v@.len(),
        forall|j: int| 0 <= j < v@.len() ==> (#[trigger] v@[j]).0 <= v@[i as int].0,
{
    let mut best: usize = 0;
    let mut k: usize = 1;
    while k < v.len()
        invariant
            1 <= k <= v@.len(),
            best < k,
            forall|j: int| 0 <= j < k ==> (#[trigger] v@[j]).0 <= v@[best as int].0,
        decreases v@.len() - k,
    {
        if v[k].0 > v[best].0 {
            best = k;
        }
        k += 1;
    }
    best
}

impl<T> KdTree<T> {
    /// Every entry of a well-formed subtree lies in its bounding box.
    pub(crate) proof fn lemma_entry_in_box(&self, e: (Seq<i64>, T))
        requires
            self.wf(),
            self@.count(e) > 0,
        ensures
            in_box(e.0, self.lower(), self.upper(), self.spec_dimensions()),
    {
        assert(self.entries().to_multiset().count(e) > 0);
        assert(self.entries().contains(e));
        let k = choose|k: int| 0 <= k < self.entries().len() && self.entries()[k] == e;
        assert(in_box(self.entries()[k].0, self.lower(), self.upper(), self.spec_dimensions()));
    }
}

/// The entries set aside are no closer than allowed: beyond `max_dist`, or,
/// once `num` results are held, no closer than any of them.
pub open spec fn set_aside_ok<'b, T, F: Fn(&[i64], &[i64]) -> u64>(
    gone: Multiset<(Seq<i64>, T)>,
    f: &F,
    x: Seq<i64>,
    max_dist: u64,
    num: nat,
    ev: Seq<(u64, &'b T)>,
) -> bool {
    forall|e: (Seq<i64>, T), d: u64|
        #![trigger gone.count(e), measures(f, x, e.0, d)]
        gone.count(e) > 0 && measures(f, x, e.0, d) ==> max_dist < d || (ev.len() == num && forall|j: int|
            0 <= j < ev.len() ==> (#[trigger] ev[j]).0 <= d)
}

/// Setting aside an entry measured beyond `max_dist`, or no closer than any
/// of `num` results held, keeps the entries set aside no closer than allowed.
proof fn lemma_set_aside_insert<'b, T, F: Fn(&[i64], &[i64]) -> u64>(
    gone: Multiset<(Seq<i64>, T)>,
    f: &F,
    x: Seq<i64>,
    dims: nat,
    max_dist: u64,
    num: nat,
    ev: Seq<(u64, &'b T)>,
    e: (Seq<i64>, T),
    d: u64,
)
    requires
        metric(f, dims) ==> set_aside_ok(gone, f, x, max_dist, num, ev),
        measures(f, x, e.0, d),
        max_dist < d || (ev.len() == num && forall|j: int| 0 <= j < ev.len() ==> (#[trigger] ev[j]).0 <= d),
    ensures
        metric(f, dims) ==> set_aside_ok(gone.insert(e), f, x, max_dist, num, ev),
{
    if metric(f, dims) {
        let g1 = gone.insert(e);
        assert forall|e2: (Seq<i64>, T), d2: u64|
            #![trigger g1.count(e2), measures(f, x, e2.0, d2)]
            g1.count(e2) > 0 && measures(f, x, e2.0, d2) implies max_dist < d2 || (ev.len() == num && forall|j: int|
            0 <= j < ev.len() ==> (#[trigger] ev[j]).0 <= d2) by {
            if gone.count(e2) == 0 {
                assert(e2 == e);
                lemma_measure_unique(f, dims, x, e2.0, d2, d);
            }
        }
    }
}

/// The state of a search from `root`: each entry of the tree is in a pending
/// subtree, among the results held, or set aside.
pub open spec fn search_inv<'b, T, F: Fn(&[i64], &[i64]) -> u64>(
    root: KdTree<T>,
    f: &F,
    x: Seq<i64>,
    num: nat,
    max_dist: u64,
    pending: Seq<(u64, &'b KdTree<T>)>,
    ev: Seq<(u64, &'b T)>,
    sel: Seq<(Seq<i64>, T)>,
    gone: Multiset<(Seq<i64>, T)>,
) -> bool {
    &&& root@ == pending_entries(pending).add(sel.to_multiset()).add(gone)
    &&& forall|i: int|
        0 <= i < pending.len() ==> (#[trigger] pending[i]).1.wf() && pending[i].1.spec_dimensions()
            == root.spec_dimensions() && (metric(f, root.spec_dimensions()) ==> no_closer_than(
            pending[i].1@,
            f,
            x,
            pending[i].0,
        ))
    &&& sel.len() == ev.len()
    &&& ev.len() <= num
    &&& forall|i: int|
        0 <= i < ev.len() ==> (#[trigger] sel[i]).1 == *ev[i].1 && measures(f, x, sel[i].0, ev[i].0)
            && ev[i].0 <= max_dist
    &&& (max_dist == u64::MAX && ev.len() < num ==> gone.len() == 0)
    &&& (metric(f, root.spec_dimensions()) ==> set_aside_ok(gone, f, x, max_dist, num, ev))
}

} // verus!

verus! {

impl<T> KdTree<T> {
    /// Searches the pending subtree nearest to `point`: walks down to the
    /// leaf on `point`'s side, queueing each sibling subtree that may hold a
    /// result, then weighs the leaf's entries, keeping at most `num` within
    /// `max_dist`, the nearest so far. Besides the search state, it gives back
    /// the position of the subtree taken, the distances measured to the boxes
    /// passed over and those measured to the leaf's points.
    #[verifier::loop_isolation(false)]
    fn nearest_step<'b, F: Fn(&[i64], &[i64]) -> u64>(
        &self,
        point: &[i64],
        num: usize,
        max_dist: u64,
        distance: &F,
        pending: &mut Vec<(u64, &'b KdTree<T>)>,
        evaluated: &mut Vec<(u64, &'b T)>,
        Ghost(sel0): Ghost<Seq<(Seq<i64>, T)>>,
        Ghost(gone0): Ghost<Multiset<(Seq<i64>, T)>>,
    ) -> (out: Ghost<(Seq<(Seq<i64>, T)>, Multiset<(Seq<i64>, T)>, int, Seq<u64>, Seq<u64>)>)
        requires
            self.wf(),
            total(distance),
            point@.len() >= self.spec_dimensions(),
            num > 0,
            old(pending)@.len() > 0,
            search_inv(
                *self,
                distance,
                point@,
                num as nat,
                max_dist,
                old(pending)@,
                old(evaluated)@,
                sel0,
                gone0,
            ),
        ensures
            search_inv(
                *self,
                distance,
                point@,
                num as nat,
                max_dist,
                final(pending)@,
                final(evaluated)@,
                out@.0,
                out@.1,
            ),
            pending_nodes(final(pending)@) < pending_nodes(old(pending)@),
            0 <= out@.2 < old(pending)@.len(),
            forall|j: int|
                0 <= j < old(pending)@.len() ==> old(pending)@[out@.2].0 <= (#[trigger] old(pending)@[j]).0,
            step_queue(
                *old(pending)@[out@.2].1,
                distance,
                point@,
                out@.3,
                eval_bound(old(evaluated)@, num as nat, max_dist),
                old(pending)@.remove(out@.2),
                final(pending)@,
            ),
            step_weigh(
                *old(pending)@[out@.2].1,
                distance,
                point@,
                out@.4,
                max_dist,
                num as nat,
                old(evaluated)@,
                final(evaluated)@,
            ),
    {
        let ghost root = *self;
        let ghost dims = self.spec_dimensions();
        let ghost x = point@;
        let ghost pending0 = pending@;
        let ghost mut sel = sel0;
        let ghost mut gone = gone0;
        let mi = min_index(pending);
        proof {
            lemma_pending_remove(pending@, mi as int);
        }
        let popped = pending.remove(mi);
        let mut curr: &'b KdTree<T> = popped.1;
        let ghost ev_in = evaluated@;
        let ghost node = *popped.1;
        let ghost base = pending@;
        let ghost mut sofar: Seq<KdTree<T>> = Seq::empty();
        let ghost mut ds: Seq<u64> = Seq::empty();
        let evaluated_dist = if evaluated.len() == num {
            let top = max_index(evaluated);
            let t = evaluated[top].0;
            proof {
                lemma_greatest(evaluated@, top as int);
            }
            if max_dist < t {
                max_dist
            } else {
                t
            }
        } else {
            max_dist
        };
        assert(evaluated_dist == eval_bound(ev_in, num as nat, max_dist));
        assert(evaluated_dist == max_dist || (evaluated@.len() == num && forall|j: int|
            0 <= j < evaluated@.len() ==> (#[trigger] evaluated@[j]).0 <= evaluated_dist));
        proof {
            assert(pending0[mi as int] == popped);
            assert(sofar + curr.siblings(x) =~= curr.siblings(x));
            assert(pending_values(base) + queued(sofar, ds, evaluated_dist) =~= pending_values(base));
            assert forall|i: int| 0 <= i < pending@.len() implies (#[trigger] pending@[i]).1.wf()
                && pending@[i].1.spec_dimensions() == dims && (metric(distance, dims)
                ==> no_closer_than(pending@[i].1@, distance, x, pending@[i].0)) by {
                if i < mi {
                    assert(pending@[i] == pending0[i]);
                } else {
                    assert(pending@[i] == pending0[i + 1]);
                }
            }
        }
        while !curr.is_leaf()
            invariant
                curr.wf(),
                curr.spec_dimensions() == dims,
                root@ == pending_entries(pending@).add(curr@).add(sel.to_multiset()).add(gone),
                forall|i: int|
                    0 <= i < pending@.len() ==> (#[trigger] pending@[i]).1.wf()
                        && pending@[i].1.spec_dimensions() == dims && (metric(distance, dims)
                        ==> no_closer_than(pending@[i].1@, distance, x, pending@[i].0)),
                (max_dist == u64::MAX && evaluated@.len() < num ==> gone.len() == 0),
                (metric(distance, dims) ==> set_aside_ok(gone, distance, x, max_dist, num as nat, evaluated@)),
                pending_nodes(pending@) + curr.node_count() <= pending_nodes(pending0),
                node.siblings(x) == sofar + curr.siblings(x),
                node.landing(x) == curr.landing(x),
                ds.len() == sofar.len(),
                forall|i: int|
                    0 <= i < sofar.len() ==> measures(
                        distance,
                        x,
                        clamp(x, (#[trigger] sofar[i]).lower(), sofar[i].upper(), dims),
                        ds[i],
                    ),
                pending_values(pending@) == pending_values(base) + queued(sofar, ds, evaluated_dist),
            decreases curr.node_count(),
        {
            proof {
                curr.lemma_children_view();
            }
            let goes_left = curr.belongs_in_left(point);
            let l: &'b KdTree<T> = curr.left.as_ref().unwrap();
            let r: &'b KdTree<T> = curr.right.as_ref().unwrap();
            let (next, candidate) = if goes_left {
                (l, r)
            } else {
                (r, l)
            };
            let ghost before = *curr;
            let candidate_to_space = distance_to_space(
                point,
                candidate.min_bounds.as_slice(),
                candidate.max_bounds.as_slice(),
                distance,
                self.dimensions,
            );
            proof {
                assert(before@ == next@.add(candidate@));
                assert(before.node_count() == 1 + next.node_count() + candidate.node_count());
            }
            let ghost pv0 = pending@;
            if candidate_to_space <= evaluated_dist {
                let ghost pb = pending@;
                pending.push((candidate_to_space, candidate));
                proof {
                    lemma_pending_push(pb, (candidate_to_space, candidate));
                    if metric(distance, dims) {
                        assert forall|e: (Seq<i64>, T), d: u64|
                            #![trigger candidate@.count(e), measures(distance, x, e.0, d)]
                            candidate@.count(e) > 0 && measures(distance, x, e.0, d)
                            implies candidate_to_space <= d by {
                            candidate.lemma_entry_in_box(e);
                            lemma_box_bound(
                                distance,
                                dims,
                                x,
                                candidate.lower(),
                                candidate.upper(),
                                e.0,
                                candidate_to_space,
                                d,
                            );
                        }
                    }
                    assert forall|i: int| 0 <= i < pending@.len() implies (#[trigger] pending@[i]).1.wf()
                        && pending@[i].1.spec_dimensions() == dims && (metric(distance, dims)
                        ==> no_closer_than(pending@[i].1@, distance, x, pending@[i].0)) by {
                        if i < pb.len() {
                            assert(pending@[i] == pb[i]);
                        }
                    }
                    assert(root@ =~= pending_entries(pending@).add(next@).add(sel.to_multiset()).add(
                        gone,
                    ));
                }
            } else {
                proof {
                    let g0 = gone;
                    gone = gone.add(candidate@);
                    if metric(distance, dims) {
                        assert forall|e: (Seq<i64>, T), d: u64|
                            #![trigger gone.count(e), measures(distance, x, e.0, d)]
                            gone.count(e) > 0 && measures(distance, x, e.0, d)
                            implies max_dist < d || (evaluated@.len() == num && forall|j: int|
                            0 <= j < evaluated@.len() ==> (#[trigger] evaluated@[j]).0 <= d) by {
                            if candidate@.count(e) > 0 {
                                candidate.lemma_entry_in_box(e);
                                lemma_box_bound(
                                    distance,
                                    dims,
                                    x,
                                    candidate.lower(),
                                    candidate.upper(),
                                    e.0,
                                    candidate_to_space,
                                    d,
                                );
                            } else {
                                assert(g0.count(e) > 0);
                            }
                        }
                    }
                    assert(root@ =~= pending_entries(pending@).add(next@).add(sel.to_multiset()).add(
                        gone,
                    ));
                }
            }
            proof {
                let s0 = sofar;
                let d0 = ds;
                lemma_queued_push(s0, d0, *candidate, candidate_to_space, evaluated_dist);
                sofar = s0.push(*candidate);
                ds = d0.push(candidate_to_space);
                assert(before.siblings(x) == seq![*candidate] + next.siblings(x));
                assert(sofar + next.siblings(x) =~= s0 + before.siblings(x));
                assert(before.landing(x) == next.landing(x));
                assert forall|i: int| 0 <= i < sofar.len() implies measures(
                    distance,
                    x,
                    clamp(x, (#[trigger] sofar[i]).lower(), sofar[i].upper(), dims),
                    ds[i],
                ) by {
                    if i < s0.len() {
                        assert(sofar[i] == s0[i]);
                        assert(ds[i] == d0[i]);
                    }
                }
                if candidate_to_space <= evaluated_dist {
                    assert(pending@ == pv0.push((candidate_to_space, candidate)));
                    assert(pending_values(pending@) =~= pending_values(pv0).push((candidate_to_space, *candidate)));
                    assert(pending_values(pending@) =~= pending_values(base) + queued(sofar, ds, evaluated_dist));
                } else {
                    assert(pending@ == pv0);
                }
            }
            curr = next;
        }
        proof {
            curr.lemma_leaf_entries();
            assert(sofar + curr.siblings(x) =~= sofar);
        }
        let points: &'b Vec<Vec<i64>> = curr.points.as_ref().unwrap();
        let bucket: &'b Vec<T> = curr.bucket.as_ref().unwrap();
        let ghost z = zip_entries(points@, bucket@);
        let ghost n = points@.len() as int;
        proof {
            assert(z.subrange(0, n) =~= z);
            assert(curr@ == z.to_multiset());
            assert forall|i: int| 0 <= i < evaluated@.len() implies (#[trigger] evaluated@[i]).0 <= max_dist by {
                assert(sel[i].1 == *evaluated@[i].1);
            }
        }
        let ghost mut dl: Seq<u64> = Seq::empty();
        let ghost mut dropped: Multiset<(u64, T)> = Multiset::empty();
        proof {
            assert(weighed(ev_in).to_multiset().add(kept(z, dl, max_dist, 0)) =~= weighed(ev_in).to_multiset());
        }
        let mut k: usize = 0;
        while k < points.len()
            invariant
                k <= points@.len(),
                dl.len() == k,
                forall|i: int| 0 <= i < k ==> measures(distance, x, (#[trigger] z[i]).0, dl[i]),
                tally(
                    weighed(ev_in).to_multiset().add(kept(z, dl, max_dist, k as nat)),
                    evaluated@,
                    dropped,
                    num as nat,
                ),
                z.len() == n,
                n == points@.len(),
                points@.len() == bucket@.len(),
                root@ == pending_entries(pending@).add(z.subrange(k as int, n).to_multiset()).add(
                    sel.to_multiset(),
                ).add(gone),
                forall|i: int|
                    0 <= i < pending@.len() ==> (#[trigger] pending@[i]).1.wf()
                        && pending@[i].1.spec_dimensions() == dims && (metric(distance, dims)
                        ==> no_closer_than(pending@[i].1@, distance, x, pending@[i].0)),
                sel.len() == evaluated@.len(),
                evaluated@.len() <= num,
                forall|i: int| 0 <= i < evaluated@.len() ==> (#[trigger] sel[i]).1 == *evaluated@[i].1,
                forall|i: int| 0 <= i < evaluated@.len() ==> measures(distance, x, (#[trigger] sel[i]).0, evaluated@[i].0),
                forall|i: int| 0 <= i < evaluated@.len() ==> (#[trigger] evaluated@[i]).0 <= max_dist,
                (max_dist == u64::MAX && evaluated@.len() < num ==> gone.len() == 0),
                (metric(distance, dims) ==> set_aside_ok(gone, distance, x, max_dist, num as nat, evaluated@)),
            decreases points@.len() - k,
        {
            let p = points[k].as_slice();
            let d = distance(point, p);
            let ghost e = z[k as int];
            proof {
                lemma_call_measures(distance, point, p, d);
                assert(e == (points@[k as int]@, bucket@[k as int]));
                lemma_suffix_multiset(z, k as int);
            }
            let ghost dl0 = dl;
            let ghost cand0 = weighed(ev_in).to_multiset().add(kept(z, dl0, max_dist, k as nat));
            proof {
                dl = dl0.push(d);
                lemma_kept_prefix(z, dl0, dl, max_dist, k as nat);
                assert(dl[k as int] == d);
                if d <= max_dist {
                    assert(weighed(ev_in).to_multiset().add(kept(z, dl, max_dist, (k + 1) as nat)) =~= cand0.insert(
                        (d, e.1),
                    ));
                } else {
                    assert(weighed(ev_in).to_multiset().add(kept(z, dl, max_dist, (k + 1) as nat)) == cand0);
                }
                assert forall|i: int| 0 <= i < k + 1 implies measures(distance, x, (#[trigger] z[i]).0, dl[i]) by {
                    if i < k {
                        assert(dl[i] == dl0[i]);
                    }
                }
            }
            if d <= max_dist {
                if evaluated.len() < num {
                    let ghost ev0 = evaluated@;
                    let ghost sel_before = sel;
                    let bk: &'b T = &bucket[k];
                    assert(*bk == bucket@[k as int]);
                    evaluated.push((d, bk));
                    proof {
                        lemma_tally_push(cand0, ev0, dropped, num as nat, (d, bk));
                        sel = sel.push(e);
                        assert(sel[ev0.len() as int] == e);
                        assert(measures(distance, x, e.0, d));
                        assert forall|i: int| 0 <= i < evaluated@.len() implies (#[trigger] sel[i]).1
                            == *evaluated@[i].1 && measures(distance, x, sel[i].0, evaluated@[i].0)
                            && evaluated@[i].0 <= max_dist by {
                            if i < ev0.len() {
                                assert(sel[i] == sel_before[i]);
                                assert(evaluated@[i] == ev0[i]);
                            }
                        }
                        if metric(distance, dims) {
                            assert forall|e2: (Seq<i64>, T), d2: u64|
                                #![trigger gone.count(e2), measures(distance, x, e2.0, d2)]
                                gone.count(e2) > 0 && measures(distance, x, e2.0, d2)
                                implies max_dist < d2 || (evaluated@.len() == num && forall|j: int|
                                0 <= j < evaluated@.len() ==> (#[trigger] evaluated@[j]).0 <= d2) by {
                                assert(max_dist < d2 || (ev0.len() == num && forall|j: int|
                                    0 <= j < ev0.len() ==> (#[trigger] ev0[j]).0 <= d2));
                            }
                        }
                        assert(root@ =~= pending_entries(pending@).add(
                            z.subrange(k + 1, n).to_multiset(),
                        ).add(sel.to_multiset()).add(gone));
                    }
                } else {
                    let top = max_index(evaluated);
                    if d < evaluated[top].0 {
                        let ghost ev0 = evaluated@;
                        let ghost sel_before = sel;
                        let ghost g0 = gone;
                        let ghost old_top = sel[top as int];
                        proof {
                            gone = gone.insert(old_top);
                            sel = sel.update(top as int, e);
                        }
                        let bk: &'b T = &bucket[k];
                        assert(*bk == bucket@[k as int]);
                        evaluated.set(top, (d, bk));
                        proof {
                            lemma_tally_replace(cand0, ev0, dropped, num as nat, top as int, (d, bk));
                            dropped = dropped.insert((ev0[top as int].0, *ev0[top as int].1));
                            assert(sel[top as int] == e);
                            assert(evaluated@[top as int] == (d, bk));
                            assert(measures(distance, x, e.0, d));
                            assert forall|i: int| 0 <= i < evaluated@.len() implies (#[trigger] sel[i]).1
                                == *evaluated@[i].1 && measures(distance, x, sel[i].0, evaluated@[i].0)
                                && evaluated@[i].0 <= max_dist by {
                                if i != top {
                                    assert(sel[i] == sel_before[i]);
                                    assert(evaluated@[i] == ev0[i]);
                                }
                            }
                            if metric(distance, dims) {
                                assert forall|e2: (Seq<i64>, T), d2: u64|
                                    #![trigger gone.count(e2), measures(distance, x, e2.0, d2)]
                                    gone.count(e2) > 0 && measures(distance, x, e2.0, d2)
                                    implies max_dist < d2 || (evaluated@.len() == num && forall|j: int|
                                    0 <= j < evaluated@.len() ==> (#[trigger] evaluated@[j]).0 <= d2) by {
                                    if g0.count(e2) > 0 {
                                        assert(max_dist < d2 || (ev0.len() == num && forall|j: int|
                                            0 <= j < ev0.len() ==> (#[trigger] ev0[j]).0 <= d2));
                                        if !(max_dist < d2) {
                                            assert(ev0[top as int].0 <= d2);
                                            assert forall|j: int| 0 <= j < evaluated@.len() implies (
                                            #[trigger] evaluated@[j]).0 <= d2 by {
                                                if j != top {
                                                    assert(evaluated@[j] == ev0[j]);
                                                    assert(ev0[j].0 <= d2);
                                                }
                                            }
                                        }
                                    } else {
                                        assert(e2 == old_top);
                                        lemma_measure_unique(
                                            distance,
                                            dims,
                                            x,
                                            e2.0,
                                            d2,
                                            ev0[top as int].0,
                                        );
                                        assert forall|j: int| 0 <= j < evaluated@.len() implies (
                                        #[trigger] evaluated@[j]).0 <= d2 by {
                                            if j != top {
                                                assert(evaluated@[j] == ev0[j]);
                                                assert(ev0[j].0 <= ev0[top as int].0);
                                            }
                                        }
                                    }
                                }
                            }
                            assert(sel.to_multiset() == sel_before.to_multiset().insert(e).remove(old_top));
                            assert(sel_before.contains(old_top));
                            assert(root@ =~= pending_entries(pending@).add(
                                z.subrange(k + 1, n).to_multiset(),
                            ).add(sel.to_multiset()).add(gone));
                        }
                    } else {
                        proof {
                            assert forall|j: int| 0 <= j < evaluated@.len() implies (#[trigger] evaluated@[j]).0 <= d by {
                                assert(evaluated@[j].0 <= evaluated@[top as int].0);
                            }
                            lemma_tally_reject(cand0, evaluated@, dropped, num as nat, (d, e.1));
                            dropped = dropped.insert((d, e.1));
                            lemma_set_aside_insert(gone, distance, x, dims, max_dist, num as nat, evaluated@, e, d);
                            gone = gone.insert(e);
                            assert(root@ =~= pending_entries(pending@).add(
                                z.subrange(k + 1, n).to_multiset(),
                            ).add(sel.to_multiset()).add(gone));
                        }
                    }
                }
            } else {
                proof {
                    lemma_set_aside_insert(gone, distance, x, dims, max_dist, num as nat, evaluated@, e, d);
                    gone = gone.insert(e);
                    assert(root@ =~= pending_entries(pending@).add(z.subrange(k + 1, n).to_multiset()).add(
                        sel.to_multiset(),
                    ).add(gone));
                }
            }
            k += 1;
        }
        proof {
            assert(z.subrange(n, n).to_multiset() =~= Multiset::empty());
            assert(root@ =~= pending_entries(pending@).add(sel.to_multiset()).add(gone));
            assert forall|i: int| 0 <= i < evaluated@.len() implies (#[trigger] sel[i]).1 == *evaluated@[i].1
                && measures(distance, x, sel[i].0, evaluated@[i].0) && evaluated@[i].0 <= max_dist by {
                assert(evaluated@[i].0 <= max_dist);
            }
            lemma_tally_done(weighed(ev_in).to_multiset().add(kept(z, dl, max_dist, n as nat)), evaluated@, dropped, num as nat);
            assert(node.landing(x) == *curr);
            assert(node.landing(x).entries() == z);
        }
        Ghost((sel, gone, mi as int, ds, dl))
    }
}

} // verus!

verus! {

/// Puts results in order of distance, nearest first, carrying along the
/// entries they stand for.
fn sort_by_distance<'b, T, F: Fn(&[i64], &[i64]) -> u64>(
    v: Vec<(u64, &'b T)>,
    Ghost(sel): Ghost<Seq<(Seq<i64>, T)>>,
    Ghost(f): Ghost<&F>,
    Ghost(x): Ghost<Seq<i64>>,
) -> (out: (Vec<(u64, &'b T)>, Ghost<Seq<(Seq<i64>, T)>>))
    requires
        sel.len() == v@.len(),
        forall|i: int|
            0 <= i < v@.len() ==> (#[trigger] sel[i]).1 == *v@[i].1 && measures(f, x, sel[i].0, v@[i].0),
    ensures
        out.0@.len() == v@.len(),
        sorted_by_distance(out.0@),
        out.1@.len() == out.0@.len(),
        out.1@.to_multiset() == sel.to_multiset(),
        forall|i: int|
            0 <= i < out.0@.len() ==> (#[trigger] out.1@[i]).1 == *out.0@[i].1 && measures(
                f,
                x,
                out.1@[i].0,
                out.0@[i].0,
            ),
        out.0@.to_multiset() == v@.to_multiset(),
{
    let mut src = v;
    let ghost v0 = src@;
    let ghost mut ssel = sel;
    let mut res: Vec<(u64, &'b T)> = Vec::new();
    let ghost mut rsel: Seq<(Seq<i64>, T)> = Seq::empty();
    proof {
        assert(rsel.to_multiset().add(ssel.to_multiset()) =~= sel.to_multiset());
        assert(res@.to_multiset().add(src@.to_multiset()) =~= v0.to_multiset());
    }
    while src.len() > 0
        invariant
            ssel.len() == src@.len(),
            rsel.len() == res@.len(),
            res@.len() + src@.len() == v0.len(),
            rsel.to_multiset().add(ssel.to_multiset()) == sel.to_multiset(),
            forall|i: int|
                0 <= i < src@.len() ==> (#[trigger] ssel[i]).1 == *src@[i].1 && measures(
                    f,
                    x,
                    ssel[i].0,
                    src@[i].0,
                ),
            forall|i: int|
                0 <= i < res@.len() ==> (#[trigger] rsel[i]).1 == *res@[i].1 && measures(
                    f,
                    x,
                    rsel[i].0,
                    res@[i].0,
                ),
            sorted_by_distance(res@),
            forall|i: int, j: int| 0 <= i < res@.len() && 0 <= j < src@.len() ==> res@[i].0 <= src@[j].0,
            res@.to_multiset().add(src@.to_multiset()) == v0.to_multiset(),
        decreases src@.len(),
    {
        let i = min_index(&src);
        let ghost s0 = src@;
        let ghost ss0 = ssel;
        let ghost r0 = res@;
        let ghost rs0 = rsel;
        let e = src.remove(i);
        res.push(e);
        proof {
            rsel = rsel.push(ssel[i as int]);
            ssel = ssel.remove(i as int);
            assert(rsel.to_multiset().add(ssel.to_multiset()) =~= sel.to_multiset());
            assert forall|k: int| 0 <= k < src@.len() implies (#[trigger] ssel[k]).1 == *src@[k].1
                && measures(f, x, ssel[k].0, src@[k].0) by {
                if k < i {
                    assert(ssel[k] == ss0[k] && src@[k] == s0[k]);
                } else {
                    assert(ssel[k] == ss0[k + 1] && src@[k] == s0[k + 1]);
                }
            }
            assert forall|k: int| 0 <= k < res@.len() implies (#[trigger] rsel[k]).1 == *res@[k].1
                && measures(f, x, rsel[k].0, res@[k].0) by {
                if k < r0.len() {
                    assert(rsel[k] == rs0[k] && res@[k] == r0[k]);
                }
            }
            assert forall|a: int, b: int| 0 <= a < res@.len() && 0 <= b < src@.len() implies res@[a].0
                <= src@[b].0 by {
                let bb = if b < i { b } else { b + 1 };
                assert(src@[b] == s0[bb]);
                if a < r0.len() {
                    assert(res@[a] == r0[a]);
                }
            }
            assert forall|a: int, b: int| 0 <= a < b < res@.len() implies res@[a].0 <= res@[b].0 by {
                if b < r0.len() {
                    assert(res@[a] == r0[a] && res@[b] == r0[b]);
                } else {
                    assert(res@[a] == r0[a]);
                }
            }
            assert(src@.to_multiset() == s0.to_multiset().remove(s0[i as int]));
            assert(s0.contains(s0[i as int]));
            assert(res@.to_multiset().add(src@.to_multiset()) =~= v0.to_multiset());
        }
    }
    proof {
        assert(ssel.to_multiset() =~= Multiset::empty());
        assert(rsel.to_multiset() =~= sel.to_multiset());
        assert(src@.to_multiset() =~= Multiset::empty());
        assert(res@.to_multiset() =~= v0.to_multiset());
    }
    (res, Ghost(rsel))
}

impl<T> KdTree<T> {
    /// The `num` entries nearest to `point` under `distance`, nearest first,
    /// each with its distance; all entries when there are fewer.
    ///
    /// The search skips every subtree whose bounding box lies farther than the
    /// results already held; under a distance for which no point of a box is
    /// closer than the box itself (see `metric`) no entry left out is closer
    /// than one returned.
    pub fn nearest<F: Fn(&[i64], &[i64]) -> u64>(&self, point: &[i64], num: usize, distance: &F) -> (res:
        Result<Vec<(u64, &T)>, ErrorKind>)
        requires
            self.wf(),
            total(distance),
        ensures
            match point_error(self.spec_dimensions(), point@) {
                Some(e) => res == Err::<Vec<(u64, &T)>, ErrorKind>(e),
                None => res is Ok,
            },
            res matches Ok(v) ==> nearest_result(
                self@,
                distance,
                point@,
                num as nat,
                self.spec_dimensions(),
                v@,
            ),
    {
        if let Err(err) = self.check_point(point) {
            return Err(err);
        }
        proof {
            self.lemma_view_len();
        }
        let num = if num < self.size {
            num
        } else {
            self.size
        };
        if num == 0 {
            let v: Vec<(u64, &T)> = Vec::new();
            proof {
                let sel: Seq<(Seq<i64>, T)> = Seq::empty();
                assert(sel.to_multiset() =~= Multiset::empty());
                assert(chosen(self@, distance, point@, v@, sel));
            }
            return Ok(v);
        }
        let ghost x = point@;
        let ghost dims = self.spec_dimensions();
        let mut pending: Vec<(u64, &KdTree<T>)> = Vec::new();
        let mut evaluated: Vec<(u64, &T)> = Vec::new();
        pending.push((0, self));
        let ghost mut sel: Seq<(Seq<i64>, T)> = Seq::empty();
        let ghost mut gone: Multiset<(Seq<i64>, T)> = Multiset::empty();
        proof {
            lemma_pending_push(Seq::empty(), (0u64, self));
            assert(pending@ =~= Seq::empty().push((0u64, self)));
            assert(sel.to_multiset() =~= Multiset::empty());
            assert(self@ =~= pending_entries(pending@).add(sel.to_multiset()).add(gone));
        }
        loop
            invariant
                self.wf(),
                total(distance),
                x == point@,
                dims == self.spec_dimensions(),
                point@.len() >= dims,
                0 < num <= self@.len(),
                search_inv(*self, distance, x, num as nat, u64::MAX, pending@, evaluated@, sel, gone),
            ensures
                search_inv(*self, distance, x, num as nat, u64::MAX, pending@, evaluated@, sel, gone),
                pending@.len() == 0 || (evaluated@.len() == num && forall|i: int, j: int|
                    0 <= i < pending@.len() && 0 <= j < evaluated@.len() ==> #[trigger] pending@[i].0
                        > #[trigger] evaluated@[j].0),
            decreases pending_nodes(pending@),
        {
            if pending.len() == 0 {
                break ;
            }
            if evaluated.len() >= num {
                let mi = min_index(&pending);
                let ma = max_index(&evaluated);
                if pending[mi].0 > evaluated[ma].0 {
                    assert forall|i: int, j: int|
                        0 <= i < pending@.len() && 0 <= j < evaluated@.len() implies #[trigger] pending@[i].0
                        > #[trigger] evaluated@[j].0 by {
                        assert(pending@[mi as int].0 <= pending@[i].0);
                        assert(evaluated@[j].0 <= evaluated@[ma as int].0);
                    }
                    break ;
                }
            }
            let Ghost(step) = self.nearest_step(
                point,
                num,
                u64::MAX,
                distance,
                &mut pending,
                &mut evaluated,
                Ghost(sel),
                Ghost(gone),
            );
            proof {
                sel = step.0;
                gone = step.1;
            }
        }
        let (sorted, Ghost(sel2)) = sort_by_distance::<T, F>(evaluated, Ghost(sel), Ghost(distance), Ghost(x));
        proof {
            let m = self@;
            assert(evaluated@.len() == num) by {
                if pending@.len() == 0 {
                    assert(pending_entries(pending@) =~= Multiset::empty());
                    if evaluated@.len() < num {
                        assert(m.len() == sel.len());
                    }
                }
            }
            assert(sel2.to_multiset().subset_of(m));
            assert(chosen(m, distance, x, sorted@, sel2));
            if metric(distance, dims) {
                assert forall|i: int| 0 <= i < sorted@.len() implies no_closer_than(
                    m.sub(sel2.to_multiset()),
                    distance,
                    x,
                    #[trigger] sorted@[i].0,
                ) by {
                    crate::kdtree::lemma_same_elements(sorted@, evaluated@, i);
                    let j = choose|j: int| 0 <= j < evaluated@.len() && evaluated@[j] == sorted@[i];
                    assert forall|e: (Seq<i64>, T), d: u64|
                        #![trigger m.sub(sel2.to_multiset()).count(e), measures(distance, x, e.0, d)]
                        m.sub(sel2.to_multiset()).count(e) > 0 && measures(distance, x, e.0, d)
                        implies sorted@[i].0 <= d by {
                        if gone.count(e) > 0 {
                            assert(evaluated@[j].0 <= d);
                        } else {
                            assert(pending_entries(pending@).count(e) > 0);
                            let p = lemma_pending_member(pending@, e);
                            assert(no_closer_than(pending@[p].1@, distance, x, pending@[p].0));
                            assert(pending@[p].0 <= d);
                            assert(pending@[p].0 > evaluated@[j].0);
                        }
                    }
                }
                assert(rest_no_closer(m, distance, x, sorted@, sel2));
            }
        }
        Ok(sorted)
    }

    /// Every entry within `radius` of `point` under `distance`, nearest first,
    /// each with its distance.
    ///
    /// Under a distance for which no point of a box is closer than the box
    /// itself (see `metric`), no entry within `radius` is left out.
    pub fn within<F: Fn(&[i64], &[i64]) -> u64>(&self, point: &[i64], radius: u64, distance: &F) -> (res:
        Result<Vec<(u64, &T)>, ErrorKind>)
        requires
            self.wf(),
            total(distance),
        ensures
            match point_error(self.spec_dimensions(), point@) {
                Some(e) => res == Err::<Vec<(u64, &T)>, ErrorKind>(e),
                None => res is Ok,
            },
            res matches Ok(v) ==> within_result(
                self@,
                distance,
                point@,
                radius,
                self.spec_dimensions(),
                v@,
            ),
    {
        if let Err(err) = self.check_point(point) {
            return Err(err);
        }
        proof {
            self.lemma_view_len();
        }
        if self.size == 0 {
            let v: Vec<(u64, &T)> = Vec::new();
            proof {
                let sel: Seq<(Seq<i64>, T)> = Seq::empty();
                assert(sel.to_multiset() =~= Multiset::empty());
                assert(self@ =~= Multiset::empty());
                assert(chosen(self@, distance, point@, v@, sel));
                assert(self@.sub(sel.to_multiset()) =~= Multiset::empty());
            }
            return Ok(v);
        }
        let ghost x = point@;
        let ghost dims = self.spec_dimensions();
        let num = self.size;
        let mut pending: Vec<(u64, &KdTree<T>)> = Vec::new();
        let mut evaluated: Vec<(u64, &T)> = Vec::new();
        pending.push((0, self));
        let ghost mut sel: Seq<(Seq<i64>, T)> = Seq::empty();
        let ghost mut gone: Multiset<(Seq<i64>, T)> = Multiset::empty();
        proof {
            lemma_pending_push(Seq::empty(), (0u64, self));
            assert(pending@ =~= Seq::empty().push((0u64, self)));
            assert(sel.to_multiset() =~= Multiset::empty());
            assert(self@ =~= pending_entries(pending@).add(sel.to_multiset()).add(gone));
        }
        loop
            invariant
                self.wf(),
                total(distance),
                x == point@,
                dims == self.spec_dimensions(),
                point@.len() >= dims,
                0 < num == self@.len(),
                search_inv(*self, distance, x, num as nat, radius, pending@, evaluated@, sel, gone),
            ensures
                search_inv(*self, distance, x, num as nat, radius, pending@, evaluated@, sel, gone),
                forall|i: int| 0 <= i < pending@.len() ==> radius < #[trigger] pending@[i].0,
            decreases pending_nodes(pending@),
        {
            if pending.len() == 0 {
                break ;
            }
            let mi = min_index(&pending);
            if pending[mi].0 > radius {
                assert forall|i: int| 0 <= i < pending@.len() implies radius < #[trigger] pending@[i].0 by {
                    assert(pending@[mi as int].0 <= pending@[i].0);
                }
                break ;
            }
            let Ghost(step) = self.nearest_step(
                point,
                num,
                radius,
                distance,
                &mut pending,
                &mut evaluated,
                Ghost(sel),
                Ghost(gone),
            );
            proof {
                sel = step.0;
                gone = step.1;
            }
        }
        let (sorted, Ghost(sel2)) = sort_by_distance::<T, F>(evaluated, Ghost(sel), Ghost(distance), Ghost(x));
        proof {
            let m = self@;
            assert(sel2.to_multiset().subset_of(m));
            assert(chosen(m, distance, x, sorted@, sel2));
            assert forall|i: int| 0 <= i < sorted@.len() implies (#[trigger] sorted@[i]).0 <= radius by {
                crate::kdtree::lemma_same_elements(sorted@, evaluated@, i);
                let j = choose|j: int| 0 <= j < evaluated@.len() && evaluated@[j] == sorted@[i];
                assert(sel[j].1 == *evaluated@[j].1);
            }
            if metric(distance, dims) {
                assert forall|e: (Seq<i64>, T), d: u64|
                    #![trigger m.sub(sel2.to_multiset()).count(e), measures(distance, x, e.0, d)]
                    m.sub(sel2.to_multiset()).count(e) > 0 && measures(distance, x, e.0, d) implies radius
                    < d by {
                    if gone.count(e) > 0 {
                        if evaluated@.len() == num {
                            assert(m.len() == sel.len() + pending_entries(pending@).len() + gone.len());
                            assert(gone.len() > 0);
                            assert(false);
                        }
                    } else {
                        assert(pending_entries(pending@).count(e) > 0);
                        let p = lemma_pending_member(pending@, e);
                        assert(no_closer_than(pending@[p].1@, distance, x, pending@[p].0));
                        assert(pending@[p].0 <= d);
                    }
                }
            }
        }
        Ok(sorted)
    }
}

} // verus!

verus! {

/// The pending subtrees with their distances, as values.
pub open spec fn pending_values<'b, T>(s: Seq<(u64, &'b KdTree<T>)>) -> Seq<(u64, KdTree<T>)> {
    s.map_values(|p: (u64, &'b KdTree<T>)| (p.0, *p.1))
}

/// The results with their distances, as values.
pub open spec fn weighed<'b, T>(s: Seq<(u64, &'b T)>) -> Seq<(u64, T)> {
    s.map_values(|p: (u64, &'b T)| (p.0, *p.1))
}

/// The subtrees `sibs` with their distances `ds` that are no farther than
/// `bound`, in order.
pub open spec fn queued<T>(sibs: Seq<KdTree<T>>, ds: Seq<u64>, bound: u64) -> Seq<(u64, KdTree<T>)>
    decreases sibs.len(),
{
    if sibs.len() == 0 {
        Seq::empty()
    } else {
        let rest = queued(sibs.drop_last(), ds.drop_last(), bound);
        if ds.last() <= bound {
            rest.push((ds.last(), sibs.last()))
        } else {
            rest
        }
    }
}

/// The greatest distance among the results, zero when there are none.
pub open spec fn greatest<'b, T>(ev: Seq<(u64, &'b T)>) -> u64
    decreases ev.len(),
{
    if ev.len() == 0 {
        0
    } else {
        let g = greatest(ev.drop_last());
        if ev.last().0 > g {
            ev.last().0
        } else {
            g
        }
    }
}

/// The bound on the distance of a subtree worth searching: `max_dist`, or,
/// once `num` results are held, the greatest of them if it is less.
pub open spec fn eval_bound<'b, T>(ev: Seq<(u64, &'b T)>, num: nat, max_dist: u64) -> u64 {
    if ev.len() == num && greatest(ev) < max_dist {
        greatest(ev)
    } else {
        max_dist
    }
}

/// The entries among the first `k` of `le`, with their distances `dl`, that
/// lie within `bound`.
pub open spec fn kept<T>(le: Seq<(Seq<i64>, T)>, dl: Seq<u64>, bound: u64, k: nat) -> Multiset<(u64, T)>
    decreases k,
{
    if k == 0 {
        Multiset::empty()
    } else {
        let rest = kept(le, dl, bound, (k - 1) as nat);
        if dl[k - 1] <= bound {
            rest.insert((dl[k - 1], le[k - 1].1))
        } else {
            rest
        }
    }
}

/// The pending subtrees `fin` are `base` followed by the subtrees passed over
/// below `node` on `x`'s side whose boxes are measured within `bound`.
pub open spec fn step_queue<'b, T, F: Fn(&[i64], &[i64]) -> u64>(
    node: KdTree<T>,
    f: &F,
    x: Seq<i64>,
    ds: Seq<u64>,
    bound: u64,
    base: Seq<(u64, &'b KdTree<T>)>,
    fin: Seq<(u64, &'b KdTree<T>)>,
) -> bool {
    let sibs = node.siblings(x);
    &&& ds.len() == sibs.len()
    &&& forall|i: int|
        0 <= i < sibs.len() ==> measures(
            f,
            x,
            clamp(x, (#[trigger] sibs[i]).lower(), sibs[i].upper(), node.spec_dimensions()),
            ds[i],
        )
    &&& pending_values(fin) == pending_values(base) + queued(sibs, ds, bound)
}

/// The results `ev1` are the `num` nearest (all, if fewer) of the results
/// `ev0` and the entries of the leaf below `node` on `x`'s side within
/// `max_dist`, measured `dl`.
pub open spec fn step_weigh<'b, T, F: Fn(&[i64], &[i64]) -> u64>(
    node: KdTree<T>,
    f: &F,
    x: Seq<i64>,
    dl: Seq<u64>,
    max_dist: u64,
    num: nat,
    ev0: Seq<(u64, &'b T)>,
    ev1: Seq<(u64, &'b T)>,
) -> bool {
    let le = node.landing(x).entries();
    let cand = weighed(ev0).to_multiset().add(kept(le, dl, max_dist, le.len()));
    &&& dl.len() == le.len()
    &&& forall|k: int| 0 <= k < le.len() ==> measures(f, x, (#[trigger] le[k]).0, dl[k])
    &&& weighed(ev1).to_multiset().subset_of(cand)
    &&& ev1.len() == if num < cand.len() {
        num
    } else {
        cand.len()
    }
    &&& forall|a: (u64, T), j: int|
        #![trigger cand.sub(weighed(ev1).to_multiset()).count(a), ev1[j]]
        cand.sub(weighed(ev1).to_multiset()).count(a) > 0 && 0 <= j < ev1.len() ==> ev1[j].0 <= a.0
}

/// The greatest distance is that of an element no other exceeds.
proof fn lemma_greatest<'b, T>(ev: Seq<(u64, &'b T)>, i: int)
    requires
        0 <= i < ev.len(),
        forall|j: int| 0 <= j < ev.len() ==> (#[trigger] ev[j]).0 <= ev[i].0,
    ensures
        greatest(ev) == ev[i].0,
    decreases ev.len(),
{
    if i < ev.len() - 1 {
        let s = ev.drop_last();
        assert forall|j: int| 0 <= j < s.len() implies (#[trigger] s[j]).0 <= s[i].0 by {
            assert(s[j] == ev[j]);
        }
        lemma_greatest(s, i);
        assert(s[i] == ev[i]);
        assert(ev[ev.len() - 1].0 <= ev[i].0);
        assert(ev.last() == ev[ev.len() - 1]);
    } else {
        lemma_greatest_bound(ev.drop_last(), ev[i].0);
        assert(ev.last() == ev[i]);
    }
}

proof fn lemma_greatest_bound<'b, T>(ev: Seq<(u64, &'b T)>, b: u64)
    requires
        forall|j: int| 0 <= j < ev.len() ==> (#[trigger] ev[j]).0 <= b,
    ensures
        greatest(ev) <= b,
    decreases ev.len(),
{
    if ev.len() > 0 {
        assert(ev.last() == ev[ev.len() - 1]);
        let s = ev.drop_last();
        assert forall|j: int| 0 <= j < s.len() implies (#[trigger] s[j]).0 <= b by {
            assert(s[j] == ev[j]);
        }
        lemma_greatest_bound(s, b);
    }
}

} // verus!

verus! {

/// The results `ev` are the `num` nearest (all, if fewer) of the candidates
/// `cand`; the others were set aside in `dropped`, none nearer than a result.
pub open spec fn tally<'b, T>(
    cand: Multiset<(u64, T)>,
    ev: Seq<(u64, &'b T)>,
    dropped: Multiset<(u64, T)>,
    num: nat,
) -> bool {
    &&& weighed(ev).to_multiset().add(dropped) == cand
    &&& forall|a: (u64, T), j: int|
        #![trigger dropped.count(a), ev[j]]
        dropped.count(a) > 0 && 0 <= j < ev.len() ==> ev[j].0 <= a.0
    &&& ev.len() == if num < cand.len() {
        num
    } else {
        cand.len()
    }
}

pub(crate) proof fn lemma_tally_push<'b, T>(
    cand: Multiset<(u64, T)>,
    ev: Seq<(u64, &'b T)>,
    dropped: Multiset<(u64, T)>,
    num: nat,
    p: (u64, &'b T),
)
    requires
        tally(cand, ev, dropped, num),
        ev.len() < num,
    ensures
        tally(cand.insert((p.0, *p.1)), ev.push(p), dropped, num),
{
    assert(weighed(ev.push(p)) =~= weighed(ev).push((p.0, *p.1)));
    assert(dropped.len() == 0);
    assert(dropped =~= Multiset::empty());
    assert(weighed(ev.push(p)).to_multiset().add(dropped) =~= cand.insert((p.0, *p.1)));
}

pub(crate) proof fn lemma_tally_replace<'b, T>(
    cand: Multiset<(u64, T)>,
    ev: Seq<(u64, &'b T)>,
    dropped: Multiset<(u64, T)>,
    num: nat,
    top: int,
    p: (u64, &'b T),
)
    requires
        tally(cand, ev, dropped, num),
        ev.len() == num,
        0 <= top < ev.len(),
        forall|j: int| 0 <= j < ev.len() ==> (#[trigger] ev[j]).0 <= ev[top].0,
        p.0 < ev[top].0,
    ensures
        tally(cand.insert((p.0, *p.1)), ev.update(top, p), dropped.insert((ev[top].0, *ev[top].1)), num),
{
    let w = weighed(ev);
    let old_top = (ev[top].0, *ev[top].1);
    assert(weighed(ev.update(top, p)) =~= w.update(top, (p.0, *p.1)));
    assert(w[top] == old_top);
    assert(w.update(top, (p.0, *p.1)).to_multiset() == w.to_multiset().insert((p.0, *p.1)).remove(old_top));
    assert(w.contains(old_top));
    assert(weighed(ev.update(top, p)).to_multiset().add(dropped.insert(old_top)) =~= cand.insert(
        (p.0, *p.1),
    ));
    let ev1 = ev.update(top, p);
    let d1 = dropped.insert(old_top);
    assert forall|a: (u64, T), j: int| d1.count(a) > 0 && 0 <= j < ev1.len() implies ev1[j].0 <= a.0 by {
        if dropped.count(a) > 0 {
            assert(ev[top].0 <= a.0);
            if j != top {
                assert(ev1[j] == ev[j]);
            }
        } else {
            assert(a == old_top);
            if j != top {
                assert(ev1[j] == ev[j]);
            }
        }
    }
}

pub(crate) proof fn lemma_tally_reject<'b, T>(
    cand: Multiset<(u64, T)>,
    ev: Seq<(u64, &'b T)>,
    dropped: Multiset<(u64, T)>,
    num: nat,
    a: (u64, T),
)
    requires
        tally(cand, ev, dropped, num),
        ev.len() == num,
        forall|j: int| 0 <= j < ev.len() ==> (#[trigger] ev[j]).0 <= a.0,
    ensures
        tally(cand.insert(a), ev, dropped.insert(a), num),
{
    assert(weighed(ev).to_multiset().add(dropped.insert(a)) =~= cand.insert(a));
}

/// A tally gives the step's account of the results.
pub(crate) proof fn lemma_tally_done<'b, T>(
    cand: Multiset<(u64, T)>,
    ev: Seq<(u64, &'b T)>,
    dropped: Multiset<(u64, T)>,
    num: nat,
)
    requires
        tally(cand, ev, dropped, num),
    ensures
        weighed(ev).to_multiset().subset_of(cand),
        cand.sub(weighed(ev).to_multiset()) == dropped,
{
    assert(cand.sub(weighed(ev).to_multiset()) =~= dropped);
}

/// The entries kept depend only on the distances measured so far.
pub(crate) proof fn lemma_kept_prefix<T>(le: Seq<(Seq<i64>, T)>, dl1: Seq<u64>, dl2: Seq<u64>, b: u64, k: nat)
    requires
        forall|i: int| 0 <= i < k ==> dl1[i] == dl2[i],
    ensures
        kept(le, dl1, b, k) == kept(le, dl2, b, k),
    decreases k,
{
    if k > 0 {
        lemma_kept_prefix(le, dl1, dl2, b, (k - 1) as nat);
        assert(dl1[k - 1] == dl2[k - 1]);
    }
}

pub(crate) proof fn lemma_queued_push<T>(sibs: Seq<KdTree<T>>, ds: Seq<u64>, c: KdTree<T>, d: u64, b: u64)
    requires
        sibs.len() == ds.len(),
    ensures
        queued(sibs.push(c), ds.push(d), b) == if d <= b {
            queued(sibs, ds, b).push((d, c))
        } else {
            queued(sibs, ds, b)
        },
{
    assert(sibs.push(c).drop_last() =~= sibs);
    assert(ds.push(d).drop_last() =~= ds);
}

} // verus!
