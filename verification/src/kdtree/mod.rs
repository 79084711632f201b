use vstd::prelude::*;
use vstd::multiset::Multiset;
use vstd::std_specs::cmp::PartialEqSpec;

pub mod best;
pub mod nearest_iter;
pub mod nearest_iter_mut;
pub mod query;

use crate::geometry::{
    in_box, lemma_widest, lemma_width_shrinks, lemma_width_zero, lower_with, point_error, span, split_point,
    upper_with, widest, width, ErrorKind,
};

verus! {

broadcast use vstd::seq_lib::group_to_multiset_ensures, vstd::multiset::group_multiset_axioms,
    vstd::slice::group_slice_axioms;

/// The capacity of a bucket when none is given.
pub const DEFAULT_CAPACITY: usize = 16;

/// A node of a k-d tree: a leaf holds up to `capacity` points with their data
/// in a bucket; a stem splits its points between two children on one
/// coordinate.
#[derive(Debug)]
pub struct KdTree<T> {
    left: Option<Box<KdTree<T>>>,
    right: Option<Box<KdTree<T>>>,
    dimensions: usize,
    capacity: usize,
    size: usize,
    min_bounds: Vec<i64>,
    max_bounds: Vec<i64>,
    split_value: Option<i64>,
    split_dimension: Option<usize>,
    points: Option<Vec<Vec<i64>>>,
    bucket: Option<Vec<T>>,
    distance_to_space_scratch_vec: Option<Vec<i64>>,
}

/// The entries `(point, data)` held by parallel vectors of points and data.
pub open spec fn zip_entries<T>(ps: Seq<Vec<i64>>, bs: Seq<T>) -> Seq<(Seq<i64>, T)> {
    Seq::new(ps.len(), |i: int| (ps[i]@, bs[i]))
}

impl<T> KdTree<T> {
    /// The entries held in this node's own bucket.
    pub closed spec fn bucket_entries(self) -> Seq<(Seq<i64>, T)> {
        match (self.points, self.bucket) {
            (Some(ps), Some(bs)) => zip_entries(ps@, bs@),
            _ => Seq::empty(),
        }
    }

    /// Every entry of the subtree: the bucket's, then the left child's, then
    /// the right child's.
    pub closed spec fn entries(self) -> Seq<(Seq<i64>, T)>
        decreases self,
    {
        self.bucket_entries() + match self.left {
            Some(l) => l.entries(),
            None => Seq::empty(),
        } + match self.right {
            Some(r) => r.entries(),
            None => Seq::empty(),
        }
    }

    pub closed spec fn spec_dimensions(self) -> nat {
        self.dimensions as nat
    }

    pub closed spec fn spec_capacity(self) -> nat {
        self.capacity as nat
    }

    pub closed spec fn spec_is_leaf(self) -> bool {
        self.split_dimension is None
    }

    pub closed spec fn lower(self) -> Seq<i64> {
        self.min_bounds@
    }

    pub closed spec fn upper(self) -> Seq<i64> {
        self.max_bounds@
    }

    /// The subtrees passed over on the way from this node down to the leaf
    /// on `x`'s side, from the top down.
    pub closed spec fn siblings(self, x: Seq<i64>) -> Seq<KdTree<T>>
        decreases self,
    {
        match self.split_dimension {
            None => Seq::empty(),
            Some(d) => match self.left {
                Some(l) => match self.right {
                    Some(r) => if x[d as int] < self.split_value->0 {
                        seq![*r] + l.siblings(x)
                    } else {
                        seq![*l] + r.siblings(x)
                    },
                    None => Seq::empty(),
                },
                None => Seq::empty(),
            },
        }
    }

    /// The leaf on `x`'s side below this node.
    pub closed spec fn landing(self, x: Seq<i64>) -> KdTree<T>
        decreases self,
    {
        match self.split_dimension {
            None => self,
            Some(d) => match self.left {
                Some(l) => match self.right {
                    Some(r) => if x[d as int] < self.split_value->0 {
                        l.landing(x)
                    } else {
                        r.landing(x)
                    },
                    None => self,
                },
                None => self,
            },
        }
    }

    /// No leaf below holds more entries than the capacity unless its box has
    /// no extent: then all its points agree on every coordinate, and no split
    /// could part them.
    pub closed spec fn leaves_fit(self) -> bool
        decreases self,
    {
        match self.split_dimension {
            None => self.size > self.capacity ==> width(self.min_bounds@, self.max_bounds@, self.dimensions as nat)
                == 0,
            Some(_) => match self.left {
                Some(l) => match self.right {
                    Some(r) => l.leaves_fit() && r.leaves_fit(),
                    None => true,
                },
                None => true,
            },
        }
    }

    /// The buffer kept for computing distances to bounding boxes, if any.
    pub closed spec fn dist_scratch(self) -> Option<Seq<i64>> {
        match self.distance_to_space_scratch_vec {
            Some(v) => Some(v@),
            None => None,
        }
    }

    /// The structural invariant that every operation keeps.
    pub closed spec fn wf(self) -> bool
        decreases self,
    {
        &&& self.min_bounds@.len() == self.dimensions
        &&& self.max_bounds@.len() == self.dimensions
        &&& self.size == self.entries().len()
        &&& forall|i: int|
            0 <= i < self.entries().len() ==> in_box(
                #[trigger] self.entries()[i].0,
                self.min_bounds@,
                self.max_bounds@,
                self.dimensions as nat,
            )
        &&& match self.split_dimension {
            None => {
                &&& self.left is None
                &&& self.right is None
                &&& self.split_value is None
                &&& self.points is Some
                &&& self.bucket is Some
                &&& self.points->0@.len() == self.bucket->0@.len()
            },
            Some(d) => {
                &&& d < self.dimensions
                &&& self.split_value is Some
                &&& self.points is None
                &&& self.bucket is None
                &&& self.left is Some
                &&& self.right is Some
                &&& self.left->0.wf()
                &&& self.right->0.wf()
                &&& self.left->0.dimensions == self.dimensions
                &&& self.right->0.dimensions == self.dimensions
                &&& self.left->0.capacity == self.capacity
                &&& self.right->0.capacity == self.capacity
                &&& forall|i: int|
                    0 <= i < self.left->0.entries().len() ==> (#[trigger] self.left->0.entries()[i]).0[d as int]
                        < self.split_value->0
                &&& forall|i: int|
                    0 <= i < self.right->0.entries().len() ==> (#[trigger] self.right->0.entries()[i]).0[d as int]
                        >= self.split_value->0
            },
        }
    }
}

impl<T> KdTree<T> {
    /// The number of nodes of the subtree.
    pub closed spec fn node_count(self) -> nat
        decreases self,
    {
        1 + match self.left {
            Some(l) => l.node_count(),
            None => 0,
        } + match self.right {
            Some(r) => r.node_count(),
            None => 0,
        }
    }
}

impl<T> View for KdTree<T> {
    type V = Multiset<(Seq<i64>, T)>;

    /// A tree is the multiset of its `(point, data)` entries.
    closed spec fn view(&self) -> Multiset<(Seq<i64>, T)> {
        self.entries().to_multiset()
    }
}

/// A vector of `n` copies of `v`.
pub(crate) fn filled(n: usize, v: i64) -> (res: Vec<i64>)
    ensures
        res@ == Seq::new(n as nat, |i: int| v),
{
    let mut res: Vec<i64> = Vec::new();
    let mut i: usize = 0;
    while i < n
        invariant
            i <= n,
            res@ == Seq::new(i as nat, |j: int| v),
        decreases n - i,
    {
        res.push(v);
        i += 1;
        assert(res@ =~= Seq::new(i as nat, |j: int| v));
    }
    res
}

impl<T> KdTree<T> {
    proof fn lemma_view_len(&self)
        ensures
            self@.len() == self.entries().len(),
    {
    }

    /// An empty tree with buckets of the default capacity.
    pub fn new(dims: usize) -> (tree: Self)
        ensures
            tree.wf(),
            tree@ =~= Multiset::empty(),
            tree.spec_dimensions() == dims,
            tree.spec_capacity() == DEFAULT_CAPACITY,
            tree.spec_is_leaf(),
            tree.lower() == Seq::new(dims as nat, |i: int| i64::MAX),
            tree.upper() == Seq::new(dims as nat, |i: int| i64::MIN),
            tree.dist_scratch() == Some(Seq::new(dims as nat, |i: int| 0i64)),
            tree.leaves_fit(),
    {
        KdTree::with_capacity(dims, DEFAULT_CAPACITY)
    }

    /// An empty tree whose leaves split once they hold more than `capacity`
    /// entries.
    pub fn with_capacity(dimensions: usize, capacity: usize) -> (tree: Self)
        ensures
            tree.wf(),
            tree@ =~= Multiset::empty(),
            tree.spec_dimensions() == dimensions,
            tree.spec_capacity() == capacity,
            tree.spec_is_leaf(),
            tree.lower() == Seq::new(dimensions as nat, |i: int| i64::MAX),
            tree.upper() == Seq::new(dimensions as nat, |i: int| i64::MIN),
            tree.dist_scratch() == Some(Seq::new(dimensions as nat, |i: int| 0i64)),
            tree.leaves_fit(),
    {
        let min_bounds = filled(dimensions, i64::MAX);
        let max_bounds = filled(dimensions, i64::MIN);
        let tree = KdTree {
            left: None,
            right: None,
            dimensions,
            capacity,
            size: 0,
            min_bounds,
            max_bounds,
            split_value: None,
            split_dimension: None,
            points: Some(Vec::new()),
            bucket: Some(Vec::new()),
            distance_to_space_scratch_vec: Some(filled(dimensions, 0)),
        };
        assert(tree.bucket_entries() =~= Seq::empty());
        assert(tree.entries() =~= Seq::empty());
        tree
    }

    /// The number of entries in the tree.
    pub fn size(&self) -> (n: usize)
        requires
            self.wf(),
        ensures
            n == self@.len(),
    {
        self.size
    }

    /// The number of entries a leaf holds before it splits.
    pub fn capacity(&self) -> (c: usize)
        ensures
            c == self.spec_capacity(),
    {
        self.capacity
    }

    /// Whether this node is a leaf, holding its entries itself.
    pub fn is_leaf(&self) -> (b: bool)
        ensures
            b == self.spec_is_leaf(),
    {
        self.split_dimension.is_none()
    }

    /// Refuses a point that is shorter than the tree's dimension. Every
    /// integer coordinate is finite, so no other point is refused.
    fn check_point(&self, point: &[i64]) -> (res: Result<(), ErrorKind>)
        ensures
            res matches Err(e) ==> point_error(self.dimensions as nat, point@) == Some(e),
            res is Ok ==> point_error(self.dimensions as nat, point@) is None,
    {
        if self.dimensions > point.len() {
            return Err(ErrorKind::WrongDimension);
        }
        Ok(())
    }
}

} // verus!

verus! {

/// A leaf whose bucket has been taken out to be refilled or split: every field
/// but the bucket is that of a leaf.
spec fn detached<T>(t: KdTree<T>, ps: Seq<Vec<i64>>, bs: Seq<T>) -> bool {
    &&& t.split_dimension is None
    &&& t.split_value is None
    &&& t.left is None
    &&& t.right is None
    &&& t.points is None
    &&& t.bucket is None
    &&& t.min_bounds@.len() == t.dimensions
    &&& t.max_bounds@.len() == t.dimensions
    &&& ps.len() == bs.len()
    &&& t.size == ps.len()
    &&& forall|i: int|
        0 <= i < ps.len() ==> in_box(
            (#[trigger] ps[i])@,
            t.min_bounds@,
            t.max_bounds@,
            t.dimensions as nat,
        )
}

impl<T> KdTree<T> {
    proof fn lemma_leaf_entries(&self)
        requires
            self.split_dimension is None,
            self.left is None,
            self.right is None,
        ensures
            self.entries() == self.bucket_entries(),
    {
        assert(self.entries() =~= self.bucket_entries());
    }

    proof fn lemma_stem_entries(&self)
        requires
            self.points is None,
            self.left is Some,
            self.right is Some,
        ensures
            self.entries() == self.left->0.entries() + self.right->0.entries(),
    {
        assert(self.bucket_entries() =~= Seq::empty());
        assert(self.entries() =~= self.left->0.entries() + self.right->0.entries());
    }

    /// Grows the bounding box so that it holds `point`.
    fn extend(&mut self, point: &[i64])
        requires
            old(self).wf(),
        ensures
            final(self).wf(),
            final(self).left == old(self).left,
            final(self).right == old(self).right,
            final(self).points == old(self).points,
            final(self).bucket == old(self).bucket,
            final(self).split_value == old(self).split_value,
            final(self).split_dimension == old(self).split_dimension,
            final(self).size == old(self).size,
            final(self).dimensions == old(self).dimensions,
            final(self).capacity == old(self).capacity,
            final(self).distance_to_space_scratch_vec == old(self).distance_to_space_scratch_vec,
            final(self).entries() == old(self).entries(),
            final(self).min_bounds@.len() == old(self).dimensions,
            final(self).max_bounds@.len() == old(self).dimensions,
            forall|i: int|
                0 <= i < old(self).dimensions && i < point@.len() ==> #[trigger] final(self).min_bounds@[i] == if point@[i]
                    < old(self).min_bounds@[i] {
                    point@[i]
                } else {
                    old(self).min_bounds@[i]
                },
            forall|i: int|
                0 <= i < old(self).dimensions && i < point@.len() ==> #[trigger] final(self).max_bounds@[i] == if point@[i]
                    > old(self).max_bounds@[i] {
                    point@[i]
                } else {
                    old(self).max_bounds@[i]
                },
            forall|i: int|
                point@.len() <= i < old(self).dimensions ==> #[trigger] final(self).min_bounds@[i]
                    == old(self).min_bounds@[i] && final(self).max_bounds@[i] == old(self).max_bounds@[i],
            point@.len() >= old(self).dimensions ==> in_box(
                point@,
                final(self).min_bounds@,
                final(self).max_bounds@,
                final(self).dimensions as nat,
            ),
    {
        let ghost old_self = *self;
        let n = if point.len() < self.dimensions {
            point.len()
        } else {
            self.dimensions
        };
        let mut i: usize = 0;
        while i < n
            invariant
                i <= n,
                n <= self.dimensions,
                n <= point@.len(),
                n == point@.len() || n == self.dimensions,
                self.dimensions == old_self.dimensions,
                self.distance_to_space_scratch_vec == old_self.distance_to_space_scratch_vec,
                self.min_bounds@.len() == self.dimensions,
                self.max_bounds@.len() == self.dimensions,
                self.left == old_self.left,
                self.right == old_self.right,
                self.points == old_self.points,
                self.bucket == old_self.bucket,
                self.split_value == old_self.split_value,
                self.split_dimension == old_self.split_dimension,
                self.size == old_self.size,
                self.capacity == old_self.capacity,
                old_self.min_bounds@.len() == self.dimensions,
                old_self.max_bounds@.len() == self.dimensions,
                forall|j: int|
                    0 <= j < i ==> #[trigger] self.min_bounds@[j] == if point@[j]
                        < old_self.min_bounds@[j] {
                        point@[j]
                    } else {
                        old_self.min_bounds@[j]
                    },
                forall|j: int|
                    0 <= j < i ==> #[trigger] self.max_bounds@[j] == if point@[j]
                        > old_self.max_bounds@[j] {
                        point@[j]
                    } else {
                        old_self.max_bounds@[j]
                    },
                forall|j: int| i <= j < self.dimensions ==> #[trigger] self.min_bounds@[j] == old_self.min_bounds@[j],
                forall|j: int| i <= j < self.dimensions ==> #[trigger] self.max_bounds@[j] == old_self.max_bounds@[j],
            decreases n - i,
        {
            let v = point[i];
            if v < self.min_bounds[i] {
                self.min_bounds.set(i, v);
            }
            if v > self.max_bounds[i] {
                self.max_bounds.set(i, v);
            }
            i += 1;
        }
        assert(self.entries() == old_self.entries());
        assert forall|k: int| 0 <= k < self.entries().len() implies in_box(
            #[trigger] self.entries()[k].0,
            self.min_bounds@,
            self.max_bounds@,
            self.dimensions as nat,
        ) by {
            let p = self.entries()[k].0;
            assert(in_box(p, old_self.min_bounds@, old_self.max_bounds@, self.dimensions as nat));
            assert forall|j: int| 0 <= j < self.dimensions implies self.min_bounds@[j] <= #[trigger] p[j]
                <= self.max_bounds@[j] by {
                assert(old_self.min_bounds@[j] <= p[j] <= old_self.max_bounds@[j]);
            }
        }
    }

    /// Whether `point` goes to the left child of this stem.
    fn belongs_in_left(&self, point: &[i64]) -> (b: bool)
        requires
            self.split_dimension is Some,
            self.split_value is Some,
            self.split_dimension->0 < point@.len(),
        ensures
            b == (point@[self.split_dimension->0 as int] < self.split_value->0),
    {
        let d = *self.split_dimension.as_ref().unwrap();
        let v = *self.split_value.as_ref().unwrap();
        point[d] < v
    }

    /// Appends an entry to this leaf's bucket, without splitting.
    fn fill_bucket(&mut self, point: Vec<i64>, data: T)
        requires
            old(self).wf(),
            old(self).split_dimension is None,
            point@.len() >= old(self).dimensions,
            old(self).size < usize::MAX,
        ensures
            final(self).wf(),
            final(self).split_dimension is None,
            final(self).dimensions == old(self).dimensions,
            final(self).capacity == old(self).capacity,
            final(self).entries() == old(self).entries().push((point@, data)),
            forall|i: int|
                0 <= i < old(self).dimensions ==> #[trigger] final(self).min_bounds@[i] == if point@[i]
                    < old(self).min_bounds@[i] {
                    point@[i]
                } else {
                    old(self).min_bounds@[i]
                },
            forall|i: int|
                0 <= i < old(self).dimensions ==> #[trigger] final(self).max_bounds@[i] == if point@[i]
                    > old(self).max_bounds@[i] {
                    point@[i]
                } else {
                    old(self).max_bounds@[i]
                },
    {
        proof {
            self.lemma_leaf_entries();
        }
        self.extend(point.as_slice());
        let ghost mid = *self;
        let mut points = self.points.take().unwrap();
        let mut bucket = self.bucket.take().unwrap();
        let ghost p = point@;
        points.push(point);
        bucket.push(data);
        self.size = self.size + 1;
        self.points = Some(points);
        self.bucket = Some(bucket);
        proof {
            assert(zip_entries(points@, bucket@) =~= zip_entries(mid.points->0@, mid.bucket->0@).push(
                (p, data),
            ));
            self.lemma_leaf_entries();
            mid.lemma_leaf_entries();
            assert(self.entries() == mid.entries().push((p, data)));
            assert forall|k: int| 0 <= k < self.entries().len() implies in_box(
                #[trigger] self.entries()[k].0,
                self.min_bounds@,
                self.max_bounds@,
                self.dimensions as nat,
            ) by {
                if k < mid.entries().len() {
                    assert(self.entries()[k] == mid.entries()[k]);
                }
            }
        }
    }
}

} // verus!

verus! {

/// Taking out the first element by `swap_remove(0)` leaves the multiset
/// without that element.
proof fn lemma_swap_remove_first<A>(s: Seq<A>)
    requires
        s.len() > 0,
    ensures
        s.update(0, s.last()).drop_last().to_multiset() =~= s.to_multiset().remove(s[0]),
{
    let s1 = s.update(0, s.last());
    assert(s1.drop_last() =~= s1.remove(s1.len() - 1));
    assert(s1[s1.len() - 1] == s.last());
    assert(s1.to_multiset() == s.to_multiset().insert(s.last()).remove(s[0]));
    assert(s1.remove(s1.len() - 1).to_multiset() == s1.to_multiset().remove(s1[s1.len() - 1]));
}

/// Sequences with the same multiset hold the same elements.
pub(crate) proof fn lemma_same_elements<A>(s1: Seq<A>, s2: Seq<A>, k: int)
    requires
        s1.to_multiset() == s2.to_multiset(),
        0 <= k < s1.len(),
    ensures
        s2.contains(s1[k]),
{
    assert(s1.contains(s1[k]));
    assert(s1.to_multiset().count(s1[k]) > 0);
}

proof fn lemma_zip_swap_remove_first<T>(ps: Seq<Vec<i64>>, bs: Seq<T>)
    requires
        ps.len() == bs.len(),
        ps.len() > 0,
    ensures
        zip_entries(ps.update(0, ps.last()).drop_last(), bs.update(0, bs.last()).drop_last())
            =~= zip_entries(ps, bs).update(0, zip_entries(ps, bs).last()).drop_last(),
{
}

/// The node `t` became `u` by adding `(p, data)` below it: `u` holds one
/// entry more and its box grew to take in `p`; below a stem, the split is as
/// before, the child on `p`'s side became its counterpart in the same way,
/// and the other child is unchanged.
spec fn path_insert<T>(t: KdTree<T>, u: KdTree<T>, p: Seq<i64>, data: T) -> bool
    decreases t,
{
    &&& u@ == t@.insert((p, data))
    &&& u.size == t.size + 1
    &&& u.lower() == lower_with(t.lower(), p, t.dimensions as nat)
    &&& u.upper() == upper_with(t.upper(), p, t.dimensions as nat)
    &&& match t.split_dimension {
        None => true,
        Some(d) => match t.left {
            None => true,
            Some(l) => match t.right {
                None => true,
                Some(r) => {
                    &&& u.split_dimension == t.split_dimension
                    &&& u.split_value == t.split_value
                    &&& u.left is Some
                    &&& u.right is Some
                    &&& if p[d as int] < t.split_value->0 {
                        &&& path_insert(*l, *u.left->0, p, data)
                        &&& u.right == t.right
                    } else {
                        &&& path_insert(*r, *u.right->0, p, data)
                        &&& u.left == t.left
                    }
                },
            },
        },
    }
}

/// `t` is a stem that splits the entries `all` at `v` along coordinate `d`:
/// those below `v` there go to the left child, the others to the right one,
/// and a child that holds no more than the capacity is a leaf.
spec fn split_as<T>(t: KdTree<T>, all: Multiset<(Seq<i64>, T)>, d: int, v: int) -> bool {
    &&& t.split_dimension == Some(d as usize)
    &&& t.split_value == Some(v as i64)
    &&& t.left is Some
    &&& t.right is Some
    &&& t.left->0@ == all.filter(|e: (Seq<i64>, T)| e.0[d] < v)
    &&& t.right->0@ == all.filter(|e: (Seq<i64>, T)| e.0[d] >= v)
    &&& t.left->0@.len() <= t.capacity ==> t.left->0.spec_is_leaf()
    &&& t.right->0@.len() <= t.capacity ==> t.right->0.spec_is_leaf()
}

impl<T> KdTree<T> {
    /// Turns a leaf holding `points` and `bucket` into a stem whose children
    /// share them, split at the middle of the coordinate along which the
    /// bounding box is widest; a box of no extent stays a leaf.
    fn split(&mut self, mut points: Vec<Vec<i64>>, mut bucket: Vec<T>)
        requires
            detached(*old(self), points@, bucket@),
        ensures
            final(self).wf(),
            final(self).dimensions == old(self).dimensions,
            final(self).capacity == old(self).capacity,
            final(self).min_bounds == old(self).min_bounds,
            final(self).max_bounds == old(self).max_bounds,
            final(self).size == old(self).size,
            final(self).distance_to_space_scratch_vec == old(self).distance_to_space_scratch_vec,
            final(self).leaves_fit(),
            final(self)@ == zip_entries(points@, bucket@).to_multiset(),
            final(self).spec_is_leaf() <==> width(
                old(self).min_bounds@,
                old(self).max_bounds@,
                old(self).dimensions as nat,
            ) == 0,
            final(self).spec_is_leaf() ==> final(self).points == Some(points) && final(self).bucket == Some(
                bucket,
            ),
            !final(self).spec_is_leaf() ==> split_as(
                *final(self),
                zip_entries(points@, bucket@).to_multiset(),
                widest(old(self).min_bounds@, old(self).max_bounds@, old(self).dimensions as nat),
                split_point(
                    old(self).min_bounds@[widest(
                        old(self).min_bounds@,
                        old(self).max_bounds@,
                        old(self).dimensions as nat,
                    )],
                    old(self).max_bounds@[widest(
                        old(self).min_bounds@,
                        old(self).max_bounds@,
                        old(self).dimensions as nat,
                    )],
                ),
            ),
        decreases width(old(self).min_bounds@, old(self).max_bounds@, old(self).dimensions as nat),
    {
        let ghost all = zip_entries(points@, bucket@);
        let ghost lo = self.min_bounds@;
        let ghost hi = self.max_bounds@;
        let dims = self.dimensions;
        let mut max: i128 = 0;
        let mut chosen: Option<usize> = None;
        let mut dim: usize = 0;
        while dim < dims
            invariant
                dim <= dims,
                dims == self.dimensions,
                self.min_bounds@ == lo,
                self.max_bounds@ == hi,
                lo.len() == dims,
                hi.len() == dims,
                chosen is None ==> max == 0,
                chosen is None ==> widest(lo, hi, dim as nat) == -1,
                chosen matches Some(d) ==> widest(lo, hi, dim as nat) == d,
                chosen is None ==> forall|j: int| 0 <= j < dim ==> #[trigger] hi[j] <= lo[j],
                chosen matches Some(d) ==> d < dims && max == hi[d as int] - lo[d as int] && max > 0,
            decreases dims - dim,
        {
            let diff = self.max_bounds[dim] as i128 - self.min_bounds[dim] as i128;
            if diff > max {
                max = diff;
                chosen = Some(dim);
            }
            dim += 1;
        }
        let d = match chosen {
            None => {
                self.points = Some(points);
                self.bucket = Some(bucket);
                proof {
                    self.lemma_leaf_entries();
                    lemma_width_zero(lo, hi, dims as nat);
                }
                return ;
            },
            Some(d) => d,
        };
        proof {
            lemma_width_zero(lo, hi, dims as nat);
            lemma_widest(lo, hi, dims as nat);
        }
        let low = self.min_bounds[d];
        let high = self.max_bounds[d];
        // The upper middle, so that both ends of the box fall on different sides.
        let v = (low as i128 + (high as i128 - low as i128 + 1) / 2) as i64;
        assert(low < v <= high);
        assert(v == split_point(low, high));
        self.split_dimension = Some(d);
        self.split_value = Some(v);
        let cap = self.capacity;
        let mut left: KdTree<T> = KdTree::with_capacity(dims, cap);
        let mut right: KdTree<T> = KdTree::with_capacity(dims, cap);
        let ghost n = points@.len();
        proof {
            assert(left.entries().len() == left@.len());
            assert(right.entries().len() == right@.len());
        }
        while points.len() > 0
            invariant
                points@.len() == bucket@.len(),
                lo.len() == dims,
                hi.len() == dims,
                d < dims,
                lo[d as int] < v <= hi[d as int],
                left.wf(),
                right.wf(),
                left.split_dimension is None,
                right.split_dimension is None,
                left.dimensions == dims,
                right.dimensions == dims,
                left.capacity == cap,
                right.capacity == cap,
                left.size + right.size + points@.len() == n,
                n <= usize::MAX,
                left@.add(right@).add(zip_entries(points@, bucket@).to_multiset()) == all.to_multiset(),
                forall|k: int|
                    0 <= k < points@.len() ==> in_box((#[trigger] points@[k])@, lo, hi, dims as nat),
                forall|k: int|
                    0 <= k < left.entries().len() ==> (#[trigger] left.entries()[k]).0[d as int] < v,
                forall|k: int|
                    0 <= k < right.entries().len() ==> (#[trigger] right.entries()[k]).0[d as int] >= v,
                forall|i: int|
                    0 <= i < dims ==> lo[i] <= #[trigger] left.min_bounds@[i] && left.max_bounds@[i]
                        <= hi[i],
                forall|i: int|
                    0 <= i < dims ==> lo[i] <= #[trigger] right.min_bounds@[i] && right.max_bounds@[i]
                        <= hi[i],
                left.max_bounds@[d as int] < v,
                v <= right.min_bounds@[d as int],
            decreases points@.len(),
        {
            let ghost ps = points@;
            let ghost bs = bucket@;
            let point = points.swap_remove(0);
            let data = bucket.swap_remove(0);
            proof {
                lemma_zip_swap_remove_first(ps, bs);
                lemma_swap_remove_first(zip_entries(ps, bs));
                assert(zip_entries(ps, bs)[0] == (point@, data));
                assert forall|k: int| 0 <= k < points@.len() implies in_box(
                    (#[trigger] points@[k])@,
                    lo,
                    hi,
                    dims as nat,
                ) by {
                    if k == 0 {
                        assert(points@[0] == ps[ps.len() - 1]);
                    } else {
                        assert(points@[k] == ps[k]);
                    }
                }
                assert(in_box(ps[0]@, lo, hi, dims as nat));
            }
            if point[d] < v {
                let ghost before = left;
                left.fill_bucket(point, data);
                proof {
                    assert(left@ == before@.insert((ps[0]@, data)));
                    assert forall|k: int| 0 <= k < left.entries().len() implies (
                    #[trigger] left.entries()[k]).0[d as int] < v by {
                        if k < before.entries().len() {
                            assert(left.entries()[k] == before.entries()[k]);
                        }
                    }
                }
            } else {
                let ghost before = right;
                right.fill_bucket(point, data);
                proof {
                    assert(right@ == before@.insert((ps[0]@, data)));
                    assert forall|k: int| 0 <= k < right.entries().len() implies (
                    #[trigger] right.entries()[k]).0[d as int] >= v by {
                        if k < before.entries().len() {
                            assert(right.entries()[k] == before.entries()[k]);
                        }
                    }
                }
            }
        }
        let ghost lm = left@;
        let ghost rm = right@;
        let ghost dd = d as int;
        let ghost vv = v as int;
        proof {
            assert(zip_entries(points@, bucket@) =~= Seq::empty());
            let allm = all.to_multiset();
            assert(lm.add(rm) =~= allm);
            assert forall|e: (Seq<i64>, T)| #[trigger] lm.count(e) > 0 implies e.0[dd] < vv by {
                assert(left.entries().to_multiset().count(e) > 0);
                assert(left.entries().contains(e));
            }
            assert forall|e: (Seq<i64>, T)| #[trigger] rm.count(e) > 0 implies e.0[dd] >= vv by {
                assert(right.entries().to_multiset().count(e) > 0);
                assert(right.entries().contains(e));
            }
            assert(lm =~= allm.filter(|e: (Seq<i64>, T)| e.0[dd] < vv));
            assert(rm =~= allm.filter(|e: (Seq<i64>, T)| e.0[dd] >= vv));
            assert(left.size == lm.len()) by {
                left.lemma_view_len();
            }
            assert(right.size == rm.len()) by {
                right.lemma_view_len();
            }
        }
        if left.size > left.capacity {
            let ghost before = left;
            let lp = left.points.take().unwrap();
            let lb = left.bucket.take().unwrap();
            proof {
                before.lemma_leaf_entries();
                assert forall|i: int| 0 <= i < dims implies span(
                    #[trigger] left.min_bounds@[i],
                    left.max_bounds@[i],
                ) <= span(lo[i], hi[i]) by {}
                assert(span(left.min_bounds@[d as int], left.max_bounds@[d as int]) < span(
                    lo[d as int],
                    hi[d as int],
                ));
                lemma_width_shrinks(
                    lo,
                    hi,
                    left.min_bounds@,
                    left.max_bounds@,
                    dims as nat,
                    d as int,
                );
                assert forall|k: int| 0 <= k < lp@.len() implies in_box(
                    (#[trigger] lp@[k])@,
                    left.min_bounds@,
                    left.max_bounds@,
                    dims as nat,
                ) by {
                    assert(before.entries()[k].0 == lp@[k]@);
                }
            }
            left.split(lp, lb);
            proof {
                assert(left@ == before@);
                assert(left.entries().len() == left@.len());
                assert(before.entries().len() == before@.len());
                assert forall|k: int| 0 <= k < left.entries().len() implies (
                #[trigger] left.entries()[k]).0[d as int] < v by {
                    lemma_same_elements(left.entries(), before.entries(), k);
                }
            }
        }
        if right.size > right.capacity {
            let ghost before = right;
            let rp = right.points.take().unwrap();
            let rb = right.bucket.take().unwrap();
            proof {
                before.lemma_leaf_entries();
                assert forall|i: int| 0 <= i < dims implies span(
                    #[trigger] right.min_bounds@[i],
                    right.max_bounds@[i],
                ) <= span(lo[i], hi[i]) by {}
                assert(span(right.min_bounds@[d as int], right.max_bounds@[d as int]) < span(
                    lo[d as int],
                    hi[d as int],
                ));
                lemma_width_shrinks(
                    lo,
                    hi,
                    right.min_bounds@,
                    right.max_bounds@,
                    dims as nat,
                    d as int,
                );
                assert forall|k: int| 0 <= k < rp@.len() implies in_box(
                    (#[trigger] rp@[k])@,
                    right.min_bounds@,
                    right.max_bounds@,
                    dims as nat,
                ) by {
                    assert(before.entries()[k].0 == rp@[k]@);
                }
            }
            right.split(rp, rb);
            proof {
                assert(right@ == before@);
                assert(right.entries().len() == right@.len());
                assert(before.entries().len() == before@.len());
                assert forall|k: int| 0 <= k < right.entries().len() implies (
                #[trigger] right.entries()[k]).0[d as int] >= v by {
                    lemma_same_elements(right.entries(), before.entries(), k);
                }
            }
        }
        assert(left.leaves_fit());
        assert(right.leaves_fit());
        self.left = Some(Box::new(left));
        self.right = Some(Box::new(right));
        proof {
            self.lemma_stem_entries();
            vstd::seq_lib::lemma_multiset_commutative(left.entries(), right.entries());
            assert(self@ == all.to_multiset());
            assert(left@ == lm);
            assert(right@ == rm);
            assert(lm.len() <= cap ==> left.spec_is_leaf());
            assert(rm.len() <= cap ==> right.spec_is_leaf());
            assert(dd == widest(lo, hi, dims as nat));
            assert(split_as(*self, all.to_multiset(), dd, vv));
            assert(self.size == self.entries().len());
            let ln = left.entries().len();
            assert forall|k: int| 0 <= k < self.entries().len() implies in_box(
                #[trigger] self.entries()[k].0,
                self.min_bounds@,
                self.max_bounds@,
                self.dimensions as nat,
            ) by {
                if k < ln {
                    assert(self.entries()[k] == left.entries()[k]);
                    assert(in_box(left.entries()[k].0, left.min_bounds@, left.max_bounds@, dims as nat));
                } else {
                    assert(self.entries()[k] == right.entries()[k - ln]);
                    assert(in_box(right.entries()[k - ln].0, right.min_bounds@, right.max_bounds@, dims as nat));
                }
            }
        }
    }
}

} // verus!

verus! {

/// An element of a sequence whose multiset gained `e` is `e` or was there
/// before.
proof fn lemma_inserted_elements<A>(s1: Seq<A>, s2: Seq<A>, e: A, k: int)
    requires
        s1.to_multiset() == s2.to_multiset().insert(e),
        0 <= k < s1.len(),
    ensures
        s1[k] == e || s2.contains(s1[k]),
{
    assert(s1.contains(s1[k]));
    assert(s1.to_multiset().count(s1[k]) > 0);
    if s1[k] != e {
        assert(s2.to_multiset().count(s1[k]) > 0);
    }
}

impl<T> KdTree<T> {
    /// Adds an entry to this leaf, splitting it once it holds more than its
    /// capacity.
    fn add_to_bucket(&mut self, point: Vec<i64>, data: T)
        requires
            old(self).wf(),
            old(self).split_dimension is None,
            point@.len() >= old(self).dimensions,
            old(self).size < usize::MAX,
        ensures
            final(self).wf(),
            final(self).dimensions == old(self).dimensions,
            final(self).capacity == old(self).capacity,
            final(self)@ == old(self)@.insert((point@, data)),
            final(self).lower() == lower_with(old(self).lower(), point@, old(self).dimensions as nat),
            final(self).upper() == upper_with(old(self).upper(), point@, old(self).dimensions as nat),
            final(self).spec_is_leaf() <==> (old(self).size + 1 <= old(self).capacity || width(
                final(self).lower(),
                final(self).upper(),
                old(self).dimensions as nat,
            ) == 0),
            final(self).size == old(self).size + 1,
            final(self).distance_to_space_scratch_vec == old(self).distance_to_space_scratch_vec,
            final(self).leaves_fit(),
            !final(self).spec_is_leaf() ==> split_as(
                *final(self),
                final(self)@,
                widest(final(self).lower(), final(self).upper(), old(self).dimensions as nat),
                split_point(
                    final(self).lower()[widest(final(self).lower(), final(self).upper(), old(self).dimensions as nat)],
                    final(self).upper()[widest(final(self).lower(), final(self).upper(), old(self).dimensions as nat)],
                ),
            ),
            final(self).spec_is_leaf() ==> final(self).entries() == old(self).entries().push((point@, data)),
    {
        proof {
            self.lemma_leaf_entries();
        }
        let ghost old_self = *self;
        let ghost e = (point@, data);
        self.extend(point.as_slice());
        let ghost mid = *self;
        let mut points = self.points.take().unwrap();
        let mut bucket = self.bucket.take().unwrap();
        points.push(point);
        bucket.push(data);
        self.size = self.size + 1;
        proof {
            assert(mid.min_bounds@ =~= lower_with(old_self.min_bounds@, e.0, old_self.dimensions as nat));
            assert(mid.max_bounds@ =~= upper_with(old_self.max_bounds@, e.0, old_self.dimensions as nat));
            mid.lemma_leaf_entries();
            assert(zip_entries(points@, bucket@) =~= mid.entries().push(e));
            assert(mid.entries() == old_self.entries());
            assert forall|k: int| 0 <= k < points@.len() implies in_box(
                (#[trigger] points@[k])@,
                self.min_bounds@,
                self.max_bounds@,
                self.dimensions as nat,
            ) by {
                assert(zip_entries(points@, bucket@)[k].0 == points@[k]@);
                if k < mid.entries().len() {
                    assert(mid.entries()[k] == zip_entries(points@, bucket@)[k]);
                }
            }
        }
        if self.size > self.capacity {
            self.split(points, bucket);
        } else {
            self.points = Some(points);
            self.bucket = Some(bucket);
            proof {
                self.lemma_leaf_entries();
            }
        }
    }

    /// Adds an entry to the subtree, descending to the leaf it belongs in and
    /// growing the bounds of every node on the way.
    fn add_unchecked(&mut self, point: Vec<i64>, data: T) -> (res: Result<(), ErrorKind>)
        requires
            old(self).wf(),
            point@.len() >= old(self).dimensions,
            old(self).size < usize::MAX,
        ensures
            final(self).wf(),
            final(self).dimensions == old(self).dimensions,
            final(self).capacity == old(self).capacity,
            final(self)@ == old(self)@.insert((point@, data)),
            final(self).lower() == lower_with(old(self).lower(), point@, old(self).dimensions as nat),
            final(self).upper() == upper_with(old(self).upper(), point@, old(self).dimensions as nat),
            old(self).spec_is_leaf() ==> (final(self).spec_is_leaf() <==> (old(self).size + 1
                <= old(self).capacity || width(final(self).lower(), final(self).upper(), old(self).dimensions as nat)
                == 0)),
            !old(self).spec_is_leaf() ==> !final(self).spec_is_leaf(),
            final(self).size == old(self).size + 1,
            final(self).distance_to_space_scratch_vec == old(self).distance_to_space_scratch_vec,
            old(self).spec_is_leaf() && !final(self).spec_is_leaf() ==> split_as(
                *final(self),
                final(self)@,
                widest(final(self).lower(), final(self).upper(), old(self).dimensions as nat),
                split_point(
                    final(self).lower()[widest(final(self).lower(), final(self).upper(), old(self).dimensions as nat)],
                    final(self).upper()[widest(final(self).lower(), final(self).upper(), old(self).dimensions as nat)],
                ),
            ),
            old(self).spec_is_leaf() && final(self).spec_is_leaf() ==> final(self).entries()
                == old(self).entries().push((point@, data)),
            path_insert(*old(self), *final(self), point@, data),
            old(self).leaves_fit() ==> final(self).leaves_fit(),
            res is Ok,
        decreases *old(self),
    {
        if self.is_leaf() {
            self.add_to_bucket(point, data);
            return Ok(());
        }
        let ghost old_self = *self;
        let ghost e = (point@, data);
        proof {
            old_self.lemma_stem_entries();
        }
        self.extend(point.as_slice());
        let ghost mid = *self;
        proof {
            mid.lemma_stem_entries();
            assert(mid.min_bounds@ =~= lower_with(old_self.min_bounds@, e.0, old_self.dimensions as nat));
            assert(mid.max_bounds@ =~= upper_with(old_self.max_bounds@, e.0, old_self.dimensions as nat));
        }
        self.size = self.size + 1;
        let goes_left = self.belongs_in_left(point.as_slice());
        let ghost d = self.split_dimension->0;
        let ghost v = self.split_value->0;
        if goes_left {
            let mut child = self.left.take().unwrap();
            let ghost c0 = *child;
            assert(c0.wf());
            assert(c0.size == c0.entries().len());
            assert(c0.size <= mid.size);
            let r = child.add_unchecked(point, data);
            let ghost c1 = *child;
            self.left = Some(child);
            proof {
                self.lemma_stem_entries();
                assert forall|k: int| 0 <= k < c1.entries().len() implies (
                #[trigger] c1.entries()[k]).0[d as int] < v by {
                    lemma_inserted_elements(c1.entries(), c0.entries(), e, k);
                }
                vstd::seq_lib::lemma_multiset_commutative(c0.entries(), mid.right->0.entries());
                vstd::seq_lib::lemma_multiset_commutative(c1.entries(), mid.right->0.entries());
                assert(self.entries().to_multiset() =~= mid.entries().to_multiset().insert(e));
                self.lemma_after_child_insert(mid, e);
            }
            r
        } else {
            let mut child = self.right.take().unwrap();
            let ghost c0 = *child;
            assert(c0.wf());
            assert(c0.size == c0.entries().len());
            assert(c0.size <= mid.size);
            let r = child.add_unchecked(point, data);
            let ghost c1 = *child;
            self.right = Some(child);
            proof {
                self.lemma_stem_entries();
                assert forall|k: int| 0 <= k < c1.entries().len() implies (
                #[trigger] c1.entries()[k]).0[d as int] >= v by {
                    lemma_inserted_elements(c1.entries(), c0.entries(), e, k);
                }
                vstd::seq_lib::lemma_multiset_commutative(mid.left->0.entries(), c0.entries());
                vstd::seq_lib::lemma_multiset_commutative(mid.left->0.entries(), c1.entries());
                assert(self.entries().to_multiset() =~= mid.entries().to_multiset().insert(e));
                self.lemma_after_child_insert(mid, e);
            }
            r
        }
    }

    /// A stem whose entries gained `e` within its (grown) box, and whose
    /// children keep the invariant, keeps the invariant.
    proof fn lemma_after_child_insert(&self, mid: KdTree<T>, e: (Seq<i64>, T))
        requires
            mid.wf(),
            mid.split_dimension is Some,
            self.split_dimension == mid.split_dimension,
            self.split_value == mid.split_value,
            self.min_bounds == mid.min_bounds,
            self.max_bounds == mid.max_bounds,
            self.dimensions == mid.dimensions,
            self.capacity == mid.capacity,
            self.points is None,
            self.bucket is None,
            self.left is Some,
            self.right is Some,
            self.left->0.wf(),
            self.right->0.wf(),
            self.left->0.dimensions == self.dimensions,
            self.right->0.dimensions == self.dimensions,
            self.left->0.capacity == self.capacity,
            self.right->0.capacity == self.capacity,
            forall|i: int|
                0 <= i < self.left->0.entries().len() ==> (#[trigger] self.left->0.entries()[i]).0[self.split_dimension->0 as int]
                    < self.split_value->0,
            forall|i: int|
                0 <= i < self.right->0.entries().len() ==> (#[trigger] self.right->0.entries()[i]).0[self.split_dimension->0 as int]
                    >= self.split_value->0,
            in_box(e.0, self.min_bounds@, self.max_bounds@, self.dimensions as nat),
            self.entries().to_multiset() == mid.entries().to_multiset().insert(e),
            self.size == mid.size + 1,
        ensures
            self.wf(),
            self@ == mid@.insert(e),
    {
        assert(self.entries().len() == self@.len());
        assert(mid.entries().len() == mid@.len());
        assert forall|k: int| 0 <= k < self.entries().len() implies in_box(
            #[trigger] self.entries()[k].0,
            self.min_bounds@,
            self.max_bounds@,
            self.dimensions as nat,
        ) by {
            lemma_inserted_elements(self.entries(), mid.entries(), e, k);
            if self.entries()[k] != e {
                let j = choose|j: int| 0 <= j < mid.entries().len() && mid.entries()[j] == self.entries()[k];
                assert(in_box(mid.entries()[j].0, mid.min_bounds@, mid.max_bounds@, mid.dimensions as nat));
            }
        }
    }

    /// Adds `data` at `point`.
    ///
    /// A tree of capacity zero refuses every entry; so does any tree a point
    /// that is too short.
    pub fn add(&mut self, point: Vec<i64>, data: T) -> (res: Result<(), ErrorKind>)
        requires
            old(self).wf(),
            old(self)@.len() < usize::MAX,
        ensures
            final(self).wf(),
            final(self).spec_dimensions() == old(self).spec_dimensions(),
            final(self).spec_capacity() == old(self).spec_capacity(),
            old(self).spec_capacity() == 0 ==> res == Err::<(), ErrorKind>(ErrorKind::ZeroCapacity),
            old(self).spec_capacity() > 0 ==> match point_error(old(self).spec_dimensions(), point@) {
                Some(e) => res == Err::<(), ErrorKind>(e),
                None => res is Ok,
            },
            res is Ok ==> final(self)@ == old(self)@.insert((point@, data)),
            res is Ok ==> final(self).lower() == lower_with(old(self).lower(), point@, old(self).spec_dimensions()),
            res is Ok ==> final(self).upper() == upper_with(old(self).upper(), point@, old(self).spec_dimensions()),
            res is Ok && old(self).spec_is_leaf() ==> (final(self).spec_is_leaf() <==> (old(self)@.len() + 1
                <= old(self).spec_capacity() || width(final(self).lower(), final(self).upper(), old(self).spec_dimensions())
                == 0)),
            !old(self).spec_is_leaf() ==> !final(self).spec_is_leaf(),
            old(self).leaves_fit() ==> final(self).leaves_fit(),
            res is Err ==> *final(self) == *old(self),
    {
        if self.capacity == 0 {
            return Err(ErrorKind::ZeroCapacity);
        }
        if let Err(err) = self.check_point(point.as_slice()) {
            return Err(err);
        }
        proof {
            self.lemma_view_len();
        }
        self.add_unchecked(point, data)
    }
}

} // verus!

verus! {

/// The entries of `m` that are not at `point`.
pub open spec fn without_point<T>(m: Multiset<(Seq<i64>, T)>, point: Seq<i64>) -> Multiset<(Seq<i64>, T)> {
    m.filter(|e: (Seq<i64>, T)| e.0 != point)
}

/// The index of the first point equal to `point`.
fn position(points: &Vec<Vec<i64>>, point: &Vec<i64>) -> (r: Option<usize>)
    ensures
        match r {
            Some(i) => i < points@.len() && points@[i as int]@ == point@,
            None => forall|j: int| 0 <= j < points@.len() ==> (#[trigger] points@[j])@ != point@,
        },
{
    let mut i: usize = 0;
    while i < points.len()
        invariant
            i <= points@.len(),
            forall|j: int| 0 <= j < i ==> (#[trigger] points@[j])@ != point@,
        decreases points@.len() - i,
    {
        if points[i] == *point {
            assert(points@[i as int]@ =~= point@);
            return Some(i);
        }
        i += 1;
    }
    None
}

impl<T: PartialEq> KdTree<T> {
    /// Removes every entry at `point`, returning how many there were.
    ///
    /// Every entry at `point` must carry data equal to `data`: the search does
    /// not pass over an entry at `point` with other data.
    pub fn remove(&mut self, point: &Vec<i64>, data: &T) -> (res: Result<usize, ErrorKind>)
        requires
            old(self).wf(),
            T::obeys_eq_spec(),
            forall|e: (Seq<i64>, T)| #[trigger]
                old(self)@.count(e) > 0 && e.0 == point@ ==> e.1.eq_spec(data),
        ensures
            final(self).wf(),
            final(self).spec_dimensions() == old(self).spec_dimensions(),
            final(self).spec_capacity() == old(self).spec_capacity(),
            match point_error(old(self).spec_dimensions(), point@) {
                Some(e) => res == Err::<usize, ErrorKind>(e) && *final(self) == *old(self),
                None => res is Ok,
            },
            res matches Ok(n) ==> final(self)@ == without_point(old(self)@, point@) && n + final(self)@.len()
                == old(self)@.len(),
            final(self).spec_is_leaf() == old(self).spec_is_leaf(),
            final(self).lower() == old(self).lower(),
            final(self).upper() == old(self).upper(),
            old(self).leaves_fit() ==> final(self).leaves_fit(),
        decreases *old(self),
    {
        let mut removed: usize = 0;
        if let Err(err) = self.check_point(point.as_slice()) {
            return Err(err);
        }
        let ghost old_self = *self;
        proof {
            old_self.lemma_view_len();
        }
        if self.is_leaf() {
            proof {
                old_self.lemma_leaf_entries();
            }
            let mut points = self.points.take().unwrap();
            let mut bucket = self.bucket.take().unwrap();
            let ghost all = zip_entries(points@, bucket@);
            let ghost gone: Multiset<(Seq<i64>, T)> = Multiset::empty();
            proof {
                assert forall|k: int| 0 <= k < points@.len() implies in_box(
                    (#[trigger] points@[k])@,
                    self.min_bounds@,
                    self.max_bounds@,
                    self.dimensions as nat,
                ) by {
                    assert(old_self.entries()[k].0 == points@[k]@);
                }
                assert(zip_entries(points@, bucket@).to_multiset().add(gone) =~= all.to_multiset());
            }
            loop
                invariant
                    points@.len() == bucket@.len(),
                    removed + points@.len() == all.len(),
                    all.len() <= usize::MAX,
                    all.to_multiset() == old_self@,
                    zip_entries(points@, bucket@).to_multiset().add(gone) == all.to_multiset(),
                    forall|e: (Seq<i64>, T)| #[trigger] gone.count(e) > 0 ==> e.0 == point@,
                    gone.len() == removed,
                    self.size == points@.len(),
                    T::obeys_eq_spec(),
                    forall|e: (Seq<i64>, T)| #[trigger]
                        old_self@.count(e) > 0 && e.0 == point@ ==> e.1.eq_spec(data),
                    forall|k: int|
                        0 <= k < points@.len() ==> in_box(
                            (#[trigger] points@[k])@,
                            self.min_bounds@,
                            self.max_bounds@,
                            self.dimensions as nat,
                        ),
                    self.min_bounds == old_self.min_bounds,
                    self.max_bounds == old_self.max_bounds,
                    self.dimensions == old_self.dimensions,
                    self.capacity == old_self.capacity,
                    self.left is None,
                    self.right is None,
                    self.split_dimension is None,
                    self.split_value is None,
                ensures
                    points@.len() == bucket@.len(),
                    removed + points@.len() == all.len(),
                    zip_entries(points@, bucket@).to_multiset().add(gone) == all.to_multiset(),
                    forall|e: (Seq<i64>, T)| #[trigger] gone.count(e) > 0 ==> e.0 == point@,
                    gone.len() == removed,
                    self.size == points@.len(),
                    forall|j: int| 0 <= j < points@.len() ==> (#[trigger] points@[j])@ != point@,
                    forall|k: int|
                        0 <= k < points@.len() ==> in_box(
                            (#[trigger] points@[k])@,
                            self.min_bounds@,
                            self.max_bounds@,
                            self.dimensions as nat,
                        ),
                    self.min_bounds == old_self.min_bounds,
                    self.max_bounds == old_self.max_bounds,
                    self.dimensions == old_self.dimensions,
                    self.capacity == old_self.capacity,
                    self.left is None,
                    self.right is None,
                    self.split_dimension is None,
                    self.split_value is None,
                decreases points@.len(),
            {
                match position(&points, point) {
                    None => break,
                    Some(i) => {
                        let ghost z = zip_entries(points@, bucket@);
                        proof {
                            assert(z[i as int] == (points@[i as int]@, bucket@[i as int]));
                            assert(z.to_multiset().count(z[i as int]) > 0) by {
                                assert(z.contains(z[i as int]));
                            }
                            assert(old_self@.count(z[i as int]) > 0);
                        }
                        if &bucket[i] == data {
                            let ghost ps = points@;
                            let ghost bs = bucket@;
                            points.remove(i);
                            bucket.remove(i);
                            removed = removed + 1;
                            self.size = self.size - 1;
                            proof {
                                assert(zip_entries(points@, bucket@) =~= z.remove(i as int));
                                gone = gone.insert(z[i as int]);
                                assert(zip_entries(points@, bucket@).to_multiset().add(gone)
                                    =~= all.to_multiset());
                                assert forall|k: int| 0 <= k < points@.len() implies in_box(
                                    (#[trigger] points@[k])@,
                                    self.min_bounds@,
                                    self.max_bounds@,
                                    self.dimensions as nat,
                                ) by {
                                    if k < i {
                                        assert(points@[k] == ps[k]);
                                    } else {
                                        assert(points@[k] == ps[k + 1]);
                                    }
                                }
                            }
                        }
                    },
                }
            }
            self.points = Some(points);
            self.bucket = Some(bucket);
            proof {
                self.lemma_leaf_entries();
                let z = zip_entries(points@, bucket@);
                assert forall|e: (Seq<i64>, T)| #[trigger] z.to_multiset().count(e) == without_point(old_self@, point@).count(e) by {
                    if e.0 == point@ && z.to_multiset().count(e) > 0 {
                        assert(z.contains(e));
                        let j = choose|j: int| 0 <= j < z.len() && z[j] == e;
                        assert(points@[j]@ == e.0);
                    }
                }
                assert(self@ =~= without_point(old_self@, point@));
                assert(self.entries().len() == self@.len());
                assert forall|k: int| 0 <= k < self.entries().len() implies in_box(
                    #[trigger] self.entries()[k].0,
                    self.min_bounds@,
                    self.max_bounds@,
                    self.dimensions as nat,
                ) by {
                    assert(self.entries()[k].0 == points@[k]@);
                }
            }
        } else {
            proof {
                old_self.lemma_stem_entries();
                vstd::seq_lib::lemma_multiset_commutative(
                    old_self.left->0.entries(),
                    old_self.right->0.entries(),
                );
                self.lemma_children_view();
            }
            let mut right = self.right.take().unwrap();
            let ghost r0 = *right;
            proof {
                assert forall|e: (Seq<i64>, T)| #[trigger]
                    r0@.count(e) > 0 && e.0 == point@ implies e.1.eq_spec(data) by {
                    assert(old_self@.count(e) > 0);
                }
            }
            let right_removed = match right.remove(point, data) {
                Ok(n) => n,
                Err(e) => {
                    self.right = Some(right);
                    return Err(e);
                },
            };
            if right_removed > 0 {
                self.size = self.size - right_removed;
                removed = removed + right_removed;
            }
            self.right = Some(right);
            let mut left = self.left.take().unwrap();
            let ghost l0 = *left;
            proof {
                assert forall|e: (Seq<i64>, T)| #[trigger]
                    l0@.count(e) > 0 && e.0 == point@ implies e.1.eq_spec(data) by {
                    assert(old_self@.count(e) > 0);
                }
            }
            let left_removed = match left.remove(point, data) {
                Ok(n) => n,
                Err(e) => {
                    self.left = Some(left);
                    return Err(e);
                },
            };
            if left_removed > 0 {
                self.size = self.size - left_removed;
                removed = removed + left_removed;
            }
            self.left = Some(left);
            proof {
                self.lemma_stem_entries();
                vstd::seq_lib::lemma_multiset_commutative(left.entries(), right.entries());
                self.lemma_after_child_removals(old_self, l0, r0, point@);
            }
        }
        Ok(removed)
    }
}

impl<T> KdTree<T> {
    /// The entries of a stem are those of its children.
    proof fn lemma_children_view(&self)
        requires
            self.wf(),
            self.split_dimension is Some,
        ensures
            self@ == self.left->0@.add(self.right->0@),
            self.left->0.wf(),
            self.right->0.wf(),
            self.left->0.size == self.left->0@.len(),
            self.right->0.size == self.right->0@.len(),
            self.size == self@.len(),
    {
        self.lemma_stem_entries();
        vstd::seq_lib::lemma_multiset_commutative(self.left->0.entries(), self.right->0.entries());
        assert(self.left->0.wf());
        assert(self.right->0.wf());
        self.left->0.lemma_view_len();
        self.right->0.lemma_view_len();
        self.lemma_view_len();
    }

    proof fn lemma_after_child_removals(&self, old_self: KdTree<T>, l0: KdTree<T>, r0: KdTree<T>, point: Seq<i64>)
        requires
            old_self.wf(),
            old_self.split_dimension is Some,
            l0 == *old_self.left->0,
            r0 == *old_self.right->0,
            self.split_dimension == old_self.split_dimension,
            self.split_value == old_self.split_value,
            self.min_bounds == old_self.min_bounds,
            self.max_bounds == old_self.max_bounds,
            self.dimensions == old_self.dimensions,
            self.capacity == old_self.capacity,
            self.points is None,
            self.bucket is None,
            self.left is Some,
            self.right is Some,
            self.left->0.wf(),
            self.right->0.wf(),
            self.left->0.dimensions == self.dimensions,
            self.right->0.dimensions == self.dimensions,
            self.left->0.capacity == self.capacity,
            self.right->0.capacity == self.capacity,
            self.left->0@ == without_point(l0@, point),
            self.right->0@ == without_point(r0@, point),
            self.entries().to_multiset() == self.left->0@.add(self.right->0@),
            self.size == self.entries().len(),
        ensures
            self.wf(),
            self@ == without_point(old_self@, point),
    {
        old_self.lemma_children_view();
        let d = self.split_dimension->0;
        let v = self.split_value->0;
        assert(self@ =~= without_point(old_self@, point));
        assert forall|k: int| 0 <= k < self.left->0.entries().len() implies (
        #[trigger] self.left->0.entries()[k]).0[d as int] < v by {
            let e = self.left->0.entries()[k];
            assert(self.left->0.entries().contains(e));
            assert(self.left->0@.count(e) > 0);
            assert(l0.entries().to_multiset().count(e) > 0);
            assert(l0.entries().contains(e));
        }
        assert forall|k: int| 0 <= k < self.right->0.entries().len() implies (
        #[trigger] self.right->0.entries()[k]).0[d as int] >= v by {
            let e = self.right->0.entries()[k];
            assert(self.right->0.entries().contains(e));
            assert(self.right->0@.count(e) > 0);
            assert(r0.entries().to_multiset().count(e) > 0);
            assert(r0.entries().contains(e));
        }
        assert forall|k: int| 0 <= k < self.entries().len() implies in_box(
            #[trigger] self.entries()[k].0,
            self.min_bounds@,
            self.max_bounds@,
            self.dimensions as nat,
        ) by {
            let e = self.entries()[k];
            assert(self.entries().contains(e));
            assert(self@.count(e) > 0);
            assert(old_self.entries().to_multiset().count(e) > 0);
            assert(old_self.entries().contains(e));
        }
    }
}

} // verus!

verus! {

/// `b` holds the entries of `a`, at the same points, with cloned data.
pub open spec fn clone_of<T: Clone>(a: Seq<(Seq<i64>, T)>, b: Seq<(Seq<i64>, T)>) -> bool {
    &&& a.len() == b.len()
    &&& forall|i: int| 0 <= i < a.len() ==> (#[trigger] b[i]).0 == a[i].0 && cloned::<T>(a[i].1, b[i].1)
}

proof fn lemma_clone_of_concat<T: Clone>(
    a1: Seq<(Seq<i64>, T)>,
    b1: Seq<(Seq<i64>, T)>,
    a2: Seq<(Seq<i64>, T)>,
    b2: Seq<(Seq<i64>, T)>,
)
    requires
        clone_of(a1, b1),
        clone_of(a2, b2),
    ensures
        clone_of(a1 + a2, b1 + b2),
{
    assert forall|i: int| 0 <= i < (a1 + a2).len() implies (#[trigger] (b1 + b2)[i]).0 == (a1 + a2)[i].0
        && cloned::<T>((a1 + a2)[i].1, (b1 + b2)[i].1) by {
        if i < a1.len() {
            assert(b1[i].0 == a1[i].0);
        } else {
            assert(b2[i - a1.len()].0 == a2[i - a1.len()].0);
        }
    }
}

/// A copy of a point.
fn copy_point(p: &Vec<i64>) -> (r: Vec<i64>)
    ensures
        r@ == p@,
{
    let mut r: Vec<i64> = Vec::new();
    let mut i: usize = 0;
    while i < p.len()
        invariant
            i <= p@.len(),
            r@ == p@.take(i as int),
        decreases p@.len() - i,
    {
        r.push(p[i]);
        i += 1;
        assert(r@ =~= p@.take(i as int));
    }
    assert(p@.take(p@.len() as int) =~= p@);
    r
}

/// A copy of a list of points.
fn copy_points(ps: &Vec<Vec<i64>>) -> (r: Vec<Vec<i64>>)
    ensures
        r@.len() == ps@.len(),
        forall|i: int| 0 <= i < ps@.len() ==> (#[trigger] r@[i])@ == ps@[i]@,
{
    let mut r: Vec<Vec<i64>> = Vec::new();
    let mut i: usize = 0;
    while i < ps.len()
        invariant
            i <= ps@.len(),
            r@.len() == i,
            forall|j: int| 0 <= j < i ==> (#[trigger] r@[j])@ == ps@[j]@,
        decreases ps@.len() - i,
    {
        r.push(copy_point(&ps[i]));
        i += 1;
    }
    r
}

/// A list of clones of the data.
fn clone_bucket<T: Clone>(bs: &Vec<T>) -> (r: Vec<T>)
    ensures
        r@.len() == bs@.len(),
        forall|i: int| 0 <= i < bs@.len() ==> cloned::<T>(bs@[i], #[trigger] r@[i]),
{
    let mut r: Vec<T> = Vec::new();
    let mut i: usize = 0;
    while i < bs.len()
        invariant
            i <= bs@.len(),
            r@.len() == i,
            forall|j: int| 0 <= j < i ==> cloned::<T>(bs@[j], #[trigger] r@[j]),
        decreases bs@.len() - i,
    {
        r.push(bs[i].clone());
        i += 1;
    }
    r
}

impl<T: Clone> KdTree<T> {
    /// A copy of the subtree, with cloned data.
    fn duplicate(&self) -> (res: Self)
        ensures
            res.dimensions == self.dimensions,
            res.capacity == self.capacity,
            res.size == self.size,
            res.min_bounds@ == self.min_bounds@,
            res.max_bounds@ == self.max_bounds@,
            res.split_dimension == self.split_dimension,
            res.split_value == self.split_value,
            res.dist_scratch() == self.dist_scratch(),
            res.points is Some == self.points is Some,
            res.bucket is Some == self.bucket is Some,
            (self.points is Some && self.bucket is Some) ==> res.points->0@.len() == self.points->0@.len()
                && res.bucket->0@.len() == self.bucket->0@.len(),
            res.left is Some == self.left is Some,
            res.right is Some == self.right is Some,
            self.wf() ==> clone_of(self.entries(), res.entries()) && res.wf(),
            self.leaves_fit() ==> res.leaves_fit(),
        decreases self,
    {
        let left = match &self.left {
            Some(l) => Some(Box::new((&**l).duplicate())),
            None => None,
        };
        let right = match &self.right {
            Some(r) => Some(Box::new((&**r).duplicate())),
            None => None,
        };
        let points = match &self.points {
            Some(ps) => Some(copy_points(ps)),
            None => None,
        };
        let bucket = match &self.bucket {
            Some(bs) => Some(clone_bucket(bs)),
            None => None,
        };
        let scratch = match &self.distance_to_space_scratch_vec {
            Some(s) => Some(copy_point(s)),
            None => None,
        };
        let res = KdTree {
            left,
            right,
            dimensions: self.dimensions,
            capacity: self.capacity,
            size: self.size,
            min_bounds: copy_point(&self.min_bounds),
            max_bounds: copy_point(&self.max_bounds),
            split_value: self.split_value,
            split_dimension: self.split_dimension,
            points,
            bucket,
            distance_to_space_scratch_vec: scratch,
        };
        proof {
            if self.wf() {
                assert(clone_of(self.bucket_entries(), res.bucket_entries())) by {
                    if self.points is Some && self.bucket is Some {
                        let a = self.bucket_entries();
                        let b = res.bucket_entries();
                        assert forall|i: int| 0 <= i < a.len() implies (#[trigger] b[i]).0 == a[i].0
                            && cloned::<T>(a[i].1, b[i].1) by {
                            assert(res.points->0@[i]@ == self.points->0@[i]@);
                        }
                    } else {
                        assert(self.bucket_entries() =~= Seq::empty());
                        assert(res.bucket_entries() =~= Seq::empty());
                    }
                }
                let le = match &self.left {
                    Some(l) => l.entries(),
                    None => Seq::empty(),
                };
                let lr = match &res.left {
                    Some(l) => l.entries(),
                    None => Seq::empty(),
                };
                let re = match &self.right {
                    Some(r) => r.entries(),
                    None => Seq::empty(),
                };
                let rr = match &res.right {
                    Some(r) => r.entries(),
                    None => Seq::empty(),
                };
                assert(clone_of(le, lr));
                assert(clone_of(re, rr));
                lemma_clone_of_concat(self.bucket_entries(), res.bucket_entries(), le, lr);
                lemma_clone_of_concat(self.bucket_entries() + le, res.bucket_entries() + lr, re, rr);
                assert(self.entries() == self.bucket_entries() + le + re);
                assert(res.entries() == res.bucket_entries() + lr + rr);
                assert forall|i: int| 0 <= i < res.entries().len() implies in_box(
                    #[trigger] res.entries()[i].0,
                    res.min_bounds@,
                    res.max_bounds@,
                    res.dimensions as nat,
                ) by {
                    assert(res.entries()[i].0 == self.entries()[i].0);
                    assert(in_box(self.entries()[i].0, self.min_bounds@, self.max_bounds@, self.dimensions as nat));
                }
                if self.split_dimension is Some {
                    let d = self.split_dimension->0;
                    assert forall|i: int| 0 <= i < lr.len() implies (#[trigger] lr[i]).0[d as int]
                        < res.split_value->0 by {
                        assert(lr[i].0 == le[i].0);
                    }
                    assert forall|i: int| 0 <= i < rr.len() implies (#[trigger] rr[i]).0[d as int]
                        >= res.split_value->0 by {
                        assert(rr[i].0 == re[i].0);
                    }
                }
            }
        }
        res
    }
}

impl<T: Clone> Clone for KdTree<T> {
    /// A copy of the tree whose entries are at the same points with cloned
    /// data; each changes independently of the other.
    fn clone(&self) -> (res: Self)
        ensures
            res.spec_dimensions() == self.spec_dimensions(),
            res.spec_capacity() == self.spec_capacity(),
            self.wf() ==> clone_of(self.entries(), res.entries()) && res.wf(),
            self.wf() ==> res@.len() == self@.len(),
            self.wf() && (forall|a: T, b: T| #[trigger] cloned::<T>(a, b) ==> a == b) ==> res@ == self@,
            res.spec_is_leaf() == self.spec_is_leaf(),
            res.lower() == self.lower(),
            res.upper() == self.upper(),
            res.dist_scratch() == self.dist_scratch(),
            self.leaves_fit() ==> res.leaves_fit(),
    {
        let res = self.duplicate();
        proof {
            if self.wf() {
                assert(res.entries().len() == self.entries().len());
                self.lemma_view_len();
                res.lemma_view_len();
                if forall|a: T, b: T| #[trigger] cloned::<T>(a, b) ==> a == b {
                    assert forall|i: int| 0 <= i < res.entries().len() implies res.entries()[i]
                        == self.entries()[i] by {
                        assert(cloned::<T>(self.entries()[i].1, res.entries()[i].1));
                    }
                    assert(res.entries() =~= self.entries());
                }
            }
        }
        res
    }
}

} // verus!
