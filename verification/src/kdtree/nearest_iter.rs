use vstd::prelude::*;
use vstd::multiset::Multiset;

use crate::geometry::{point_error, ErrorKind};
use crate::kdtree::query::{
    lemma_pending_member, lemma_pending_push, lemma_pending_remove, lemma_suffix_multiset,
    no_closer_than, pending_entries, pending_nodes,
};
use crate::kdtree::{zip_entries, KdTree};
use crate::metric::{distance_to_space, lemma_box_bound, lemma_call_measures, measures, metric, total};

verus! {

broadcast use vstd::seq_lib::group_to_multiset_ensures, vstd::multiset::group_multiset_axioms,
    vstd::slice::group_slice_axioms;

/// The entries of a tree in order of distance from a point, found lazily:
/// subtrees are searched only when they may hold the next nearest entry.
pub struct NearestIter<'a, 'b, T, F: Fn(&[i64], &[i64]) -> u64> {
    point: &'a [i64],
    pending: Vec<(u64, &'b KdTree<T>)>,
    evaluated: Vec<(u64, &'b T)>,
    distance: &'a F,
    dimensions: usize,
    weighed: Ghost<Seq<(Seq<i64>, T)>>,
}

impl<'a, 'b, T, F: Fn(&[i64], &[i64]) -> u64> NearestIter<'a, 'b, T, F> {
    /// The entries not yet returned.
    pub closed spec fn remaining(&self) -> Multiset<(Seq<i64>, T)> {
        pending_entries(self.pending@).add(self.weighed@.to_multiset())
    }

    pub closed spec fn spec_point(&self) -> Seq<i64> {
        self.point@
    }

    pub closed spec fn spec_distance(&self) -> &'a F {
        self.distance
    }

    pub closed spec fn spec_dimensions(&self) -> nat {
        self.dimensions as nat
    }

    /// The invariant of the iterator.
    pub closed spec fn wf(&self) -> bool {
        &&& total(self.distance)
        &&& self.point@.len() >= self.dimensions
        &&& forall|i: int|
            0 <= i < self.pending@.len() ==> (#[trigger] self.pending@[i]).1.wf()
                && self.pending@[i].1.spec_dimensions() == self.dimensions && (metric(
                self.distance,
                self.dimensions as nat,
            ) ==> no_closer_than(self.pending@[i].1@, self.distance, self.point@, self.pending@[i].0))
        &&& self.weighed@.len() == self.evaluated@.len()
        &&& forall|i: int|
            0 <= i < self.evaluated@.len() ==> (#[trigger] self.weighed@[i]).1 == *self.evaluated@[i].1
                && measures(self.distance, self.point@, self.weighed@[i].0, self.evaluated@[i].0)
    }

    /// Searches the pending subtree nearest to the point, down to a leaf,
    /// queueing every sibling subtree with its distance and weighing every
    /// entry of the leaf.
    #[verifier::loop_isolation(false)]
    fn expand(&mut self)
        requires
            old(self).wf(),
            old(self).pending@.len() > 0,
        ensures
            final(self).wf(),
            final(self).remaining() == old(self).remaining(),
            final(self).point == old(self).point,
            final(self).distance == old(self).distance,
            final(self).dimensions == old(self).dimensions,
            pending_nodes(final(self).pending@) < pending_nodes(old(self).pending@),
    {
        let ghost x = self.point@;
        let ghost f = self.distance;
        let ghost dims = self.dimensions as nat;
        let ghost rem = self.remaining();
        let ghost pending0 = self.pending@;
        let mi = crate::kdtree::query::min_index(&self.pending);
        proof {
            lemma_pending_remove(self.pending@, mi as int);
        }
        let popped = self.pending.remove(mi);
        let mut curr: &'b KdTree<T> = popped.1;
        proof {
            assert(pending0[mi as int] == popped);
            assert forall|i: int| 0 <= i < self.pending@.len() implies (#[trigger] self.pending@[i]).1.wf()
                && self.pending@[i].1.spec_dimensions() == dims && (metric(f, dims)
                ==> no_closer_than(self.pending@[i].1@, f, x, self.pending@[i].0)) by {
                if i < mi {
                    assert(self.pending@[i] == pending0[i]);
                } else {
                    assert(self.pending@[i] == pending0[i + 1]);
                }
            }
        }
        while !curr.is_leaf()
            invariant
                curr.wf(),
                curr.spec_dimensions() == dims,
                self.point@ == x,
                self.distance == f,
                self.dimensions == dims,
                self.weighed@.len() == self.evaluated@.len(),
                forall|i: int|
                    0 <= i < self.evaluated@.len() ==> (#[trigger] self.weighed@[i]).1
                        == *self.evaluated@[i].1 && measures(f, x, self.weighed@[i].0, self.evaluated@[i].0),
                rem == pending_entries(self.pending@).add(curr@).add(self.weighed@.to_multiset()),
                forall|i: int|
                    0 <= i < self.pending@.len() ==> (#[trigger] self.pending@[i]).1.wf()
                        && self.pending@[i].1.spec_dimensions() == dims && (metric(f, dims)
                        ==> no_closer_than(self.pending@[i].1@, f, x, self.pending@[i].0)),
                pending_nodes(self.pending@) + curr.node_count() <= pending_nodes(pending0),
            decreases curr.node_count(),
        {
            proof {
                curr.lemma_children_view();
            }
            let goes_left = curr.belongs_in_left(self.point);
            let l: &'b KdTree<T> = curr.left.as_ref().unwrap();
            let r: &'b KdTree<T> = curr.right.as_ref().unwrap();
            let (next, candidate) = if goes_left {
                (l, r)
            } else {
                (r, l)
            };
            let ghost before = *curr;
            let candidate_to_space = distance_to_space(
                self.point,
                candidate.min_bounds.as_slice(),
                candidate.max_bounds.as_slice(),
                self.distance,
                self.dimensions,
            );
            let ghost pb = self.pending@;
            self.pending.push((candidate_to_space, candidate));
            proof {
                assert(before@ == next@.add(candidate@));
                assert(before.node_count() == 1 + next.node_count() + candidate.node_count());
                lemma_pending_push(pb, (candidate_to_space, candidate));
                if metric(f, dims) {
                    assert forall|e: (Seq<i64>, T), d: u64|
                        #![trigger candidate@.count(e), measures(f, x, e.0, d)]
                        candidate@.count(e) > 0 && measures(f, x, e.0, d) implies candidate_to_space
                        <= d by {
                        candidate.lemma_entry_in_box(e);
                        lemma_box_bound(f, dims, x, candidate.lower(), candidate.upper(), e.0, candidate_to_space, d);
                    }
                }
                assert forall|i: int| 0 <= i < self.pending@.len() implies (#[trigger] self.pending@[i]).1.wf()
                    && self.pending@[i].1.spec_dimensions() == dims && (metric(f, dims)
                    ==> no_closer_than(self.pending@[i].1@, f, x, self.pending@[i].0)) by {
                    if i < pb.len() {
                        assert(self.pending@[i] == pb[i]);
                    }
                }
                assert(rem =~= pending_entries(self.pending@).add(next@).add(self.weighed@.to_multiset()));
            }
            curr = next;
        }
        proof {
            curr.lemma_leaf_entries();
        }
        let points: &'b Vec<Vec<i64>> = curr.points.as_ref().unwrap();
        let bucket: &'b Vec<T> = curr.bucket.as_ref().unwrap();
        let ghost z = zip_entries(points@, bucket@);
        let ghost n = points@.len() as int;
        proof {
            assert(z.subrange(0, n) =~= z);
            assert(curr@ == z.to_multiset());
            assert(curr.node_count() >= 1);
        }
        let mut k: usize = 0;
        while k < points.len()
            invariant
                k <= points@.len(),
                z.len() == n,
                n == points@.len(),
                points@.len() == bucket@.len(),
                self.point@ == x,
                self.distance == f,
                self.dimensions == dims,
                self.weighed@.len() == self.evaluated@.len(),
                forall|i: int|
                    0 <= i < self.evaluated@.len() ==> (#[trigger] self.weighed@[i]).1
                        == *self.evaluated@[i].1 && measures(f, x, self.weighed@[i].0, self.evaluated@[i].0),
                pending_nodes(self.pending@) < pending_nodes(pending0),
                rem == pending_entries(self.pending@).add(z.subrange(k as int, n).to_multiset()).add(
                    self.weighed@.to_multiset(),
                ),
                forall|i: int|
                    0 <= i < self.pending@.len() ==> (#[trigger] self.pending@[i]).1.wf()
                        && self.pending@[i].1.spec_dimensions() == dims && (metric(f, dims)
                        ==> no_closer_than(self.pending@[i].1@, f, x, self.pending@[i].0)),
            decreases points@.len() - k,
        {
            let p = points[k].as_slice();
            let d = (self.distance)(self.point, p);
            let ghost e = z[k as int];
            let ghost ev0 = self.evaluated@;
            let ghost w0 = self.weighed@;
            proof {
                lemma_call_measures(self.distance, self.point, p, d);
                assert(e == (points@[k as int]@, bucket@[k as int]));
                lemma_suffix_multiset(z, k as int);
            }
            let bk: &'b T = &bucket[k];
            self.evaluated.push((d, bk));
            proof {
                self.weighed@ = self.weighed@.push(e);
                assert forall|i: int| 0 <= i < self.evaluated@.len() implies (#[trigger] self.weighed@[i]).1
                    == *self.evaluated@[i].1 && measures(f, x, self.weighed@[i].0, self.evaluated@[i].0) by {
                    if i < ev0.len() {
                        assert(self.weighed@[i] == w0[i]);
                        assert(self.evaluated@[i] == ev0[i]);
                    }
                }
                assert(rem =~= pending_entries(self.pending@).add(z.subrange(k + 1, n).to_multiset()).add(
                    self.weighed@.to_multiset(),
                ));
            }
            k += 1;
        }
        proof {
            assert(z.subrange(n, n).to_multiset() =~= Multiset::empty());
            assert(rem =~= self.remaining());
        }
    }

    /// The nearest entry not yet returned, with its distance; `None` once all
    /// are returned.
    ///
    /// Under a distance for which no point of a box is closer than the box
    /// itself (see `metric`), no entry left is closer than the one returned.
    pub fn next(&mut self) -> (res: Option<(u64, &'b T)>)
        requires
            old(self).wf(),
        ensures
            final(self).wf(),
            final(self).spec_point() == old(self).spec_point(),
            final(self).spec_distance() == old(self).spec_distance(),
            final(self).spec_dimensions() == old(self).spec_dimensions(),
            match res {
                None => old(self).remaining().len() == 0 && final(self).remaining() == old(self).remaining(),
                Some((d, t)) => exists|e: (Seq<i64>, T)|
                    #[trigger] old(self).remaining().count(e) > 0 && e.1 == *t && measures(
                        old(self).spec_distance(),
                        old(self).spec_point(),
                        e.0,
                        d,
                    ) && final(self).remaining() == old(self).remaining().remove(e) && (metric(
                        old(self).spec_distance(),
                        old(self).spec_dimensions(),
                    ) ==> no_closer_than(
                        final(self).remaining(),
                        old(self).spec_distance(),
                        old(self).spec_point(),
                        d,
                    )),
            },
    {
        let ghost rem = self.remaining();
        let ghost x = self.point@;
        let ghost f = self.distance;
        let ghost dims = self.dimensions as nat;
        loop
            invariant
                self.wf(),
                self.remaining() == rem,
                self.point@ == x,
                self.distance == f,
                self.dimensions == dims,
            ensures
                self.wf(),
                self.remaining() == rem,
                self.point@ == x,
                self.distance == f,
                self.dimensions == dims,
                self.pending@.len() == 0 || (self.evaluated@.len() > 0 && forall|i: int, j: int|
                    0 <= i < self.pending@.len() && 0 <= j < self.evaluated@.len()
                        ==> #[trigger] self.evaluated@[j].0 < #[trigger] self.pending@[i].0 || exists|k: int|
                        0 <= k < self.evaluated@.len() && #[trigger] self.evaluated@[k].0 < self.pending@[i].0),
            decreases pending_nodes(self.pending@),
        {
            if self.pending.len() == 0 {
                break ;
            }
            let pi = crate::kdtree::query::min_index(&self.pending);
            let pm = self.pending[pi].0;
            if self.evaluated.len() > 0 {
                let ei = crate::kdtree::query::min_index(&self.evaluated);
                if self.evaluated[ei].0 < pm {
                    assert forall|i: int, j: int|
                        0 <= i < self.pending@.len() && 0 <= j < self.evaluated@.len()
                        implies #[trigger] self.evaluated@[j].0 < #[trigger] self.pending@[i].0 || exists|k: int|
                        0 <= k < self.evaluated@.len() && #[trigger] self.evaluated@[k].0 < self.pending@[i].0 by {
                        assert(self.pending@[pi as int].0 <= self.pending@[i].0);
                        assert(self.evaluated@[ei as int].0 < self.pending@[i].0);
                    }
                    break ;
                }
            }
            self.expand();
        }
        if self.evaluated.len() == 0 {
            proof {
                assert(pending_entries(self.pending@) =~= Multiset::empty());
                assert(self.weighed@.to_multiset() =~= Multiset::empty());
            }
            return None;
        }
        let i = crate::kdtree::query::min_index(&self.evaluated);
        let ghost ev0 = self.evaluated@;
        let ghost w0 = self.weighed@;
        let ghost e = w0[i as int];
        let (d, t) = self.evaluated.remove(i);
        proof {
            self.weighed@ = w0.remove(i as int);
            assert forall|k: int| 0 <= k < self.evaluated@.len() implies (#[trigger] self.weighed@[k]).1
                == *self.evaluated@[k].1 && measures(f, x, self.weighed@[k].0, self.evaluated@[k].0) by {
                if k < i {
                    assert(self.weighed@[k] == w0[k] && self.evaluated@[k] == ev0[k]);
                } else {
                    assert(self.weighed@[k] == w0[k + 1] && self.evaluated@[k] == ev0[k + 1]);
                }
            }
            assert(w0.contains(e));
            assert(rem.count(e) > 0);
            assert(self.remaining() =~= rem.remove(e));
            if metric(f, dims) {
                assert forall|e2: (Seq<i64>, T), d2: u64|
                    #![trigger self.remaining().count(e2), measures(f, x, e2.0, d2)]
                    self.remaining().count(e2) > 0 && measures(f, x, e2.0, d2) implies d <= d2 by {
                    if self.weighed@.to_multiset().count(e2) > 0 {
                        assert(self.weighed@.contains(e2));
                        let k = choose|k: int| 0 <= k < self.weighed@.len() && self.weighed@[k] == e2;
                        let kk = if k < i { k } else { k + 1 };
                        assert(self.evaluated@[k] == ev0[kk]);
                        assert(ev0[i as int].0 <= ev0[kk].0);
                        crate::metric::lemma_measure_unique(f, dims, x, e2.0, d2, ev0[kk].0);
                    } else {
                        assert(pending_entries(self.pending@).count(e2) > 0);
                        let p = lemma_pending_member(self.pending@, e2);
                        assert(no_closer_than(self.pending@[p].1@, f, x, self.pending@[p].0));
                        assert(self.pending@[p].0 <= d2);
                        if !(ev0[i as int].0 < self.pending@[p].0) {
                            let k = choose|k: int|
                                0 <= k < ev0.len() && #[trigger] ev0[k].0 < self.pending@[p].0;
                            assert(ev0[i as int].0 <= ev0[k].0);
                        }
                    }
                }
            }
        }
        Some((d, t))
    }
}

impl<T> KdTree<T> {
    /// An iterator over the entries in order of distance from `point` under
    /// `distance`, nearest first.
    pub fn iter_nearest<'a, 'b, F: Fn(&[i64], &[i64]) -> u64>(
        &'b self,
        point: &'a [i64],
        distance: &'a F,
    ) -> (res: Result<NearestIter<'a, 'b, T, F>, ErrorKind>)
        requires
            self.wf(),
            total(distance),
        ensures
            match point_error(self.spec_dimensions(), point@) {
                Some(e) => res is Err && res->Err_0 == e,
                None => res is Ok,
            },
            res matches Ok(it) ==> {
                &&& it.wf()
                &&& it.remaining() == self@
                &&& it.spec_point() == point@
                &&& it.spec_distance() == distance
                &&& it.spec_dimensions() == self.spec_dimensions()
            },
    {
        if let Err(err) = self.check_point(point) {
            return Err(err);
        }
        let mut pending: Vec<(u64, &'b KdTree<T>)> = Vec::new();
        let evaluated: Vec<(u64, &'b T)> = Vec::new();
        pending.push((0, self));
        proof {
            lemma_pending_push(Seq::empty(), (0u64, self));
            assert(pending@ =~= Seq::empty().push((0u64, self)));
        }
        let it = NearestIter {
            point,
            pending,
            evaluated,
            distance,
            dimensions: self.dimensions,
            weighed: Ghost(Seq::empty()),
        };
        proof {
            assert(it.weighed@.to_multiset() =~= Multiset::empty());
            assert(it.remaining() =~= self@);
        }
        Ok(it)
    }
}

} // verus!
