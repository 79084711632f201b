use vstd::prelude::*;
use vstd::multiset::Multiset;

use crate::geometry::{in_box, point_error, ErrorKind};
use crate::kdtree::query::{lemma_suffix_multiset, no_closer_than};
use crate::kdtree::{zip_entries, KdTree};
use crate::metric::{distance_to_space, lemma_box_bound, lemma_call_measures, measures, metric, total};

verus! {

broadcast use vstd::seq_lib::group_to_multiset_ensures, vstd::multiset::group_multiset_axioms,
    vstd::slice::group_slice_axioms;

/// The entries of all subtrees waiting to be searched, by mutable reference.
pub open spec fn open_entries<'b, T>(s: Seq<(u64, &'b mut KdTree<T>)>) -> Multiset<(Seq<i64>, T)>
    decreases s.len(),
{
    if s.len() == 0 {
        Multiset::empty()
    } else {
        open_entries(s.drop_last()).add((*s.last().1)@)
    }
}

/// The number of nodes in all subtrees waiting to be searched, by mutable
/// reference.
pub open spec fn open_nodes<'b, T>(s: Seq<(u64, &'b mut KdTree<T>)>) -> nat
    decreases s.len(),
{
    if s.len() == 0 {
        0
    } else {
        open_nodes(s.drop_last()) + (*s.last().1).node_count()
    }
}

proof fn lemma_open_remove<'b, T>(s: Seq<(u64, &'b mut KdTree<T>)>, i: int)
    requires
        0 <= i < s.len(),
    ensures
        open_entries(s) == open_entries(s.remove(i)).add((*s[i].1)@),
        open_nodes(s) == open_nodes(s.remove(i)) + (*s[i].1).node_count(),
    decreases s.len(),
{
    if i == s.len() - 1 {
        assert(s.remove(i) =~= s.drop_last());
    } else {
        lemma_open_remove(s.drop_last(), i);
        assert(s.remove(i).drop_last() =~= s.drop_last().remove(i));
        assert(s.remove(i).last() == s.last());
        assert(open_entries(s) =~= open_entries(s.remove(i)).add((*s[i].1)@));
    }
}

proof fn lemma_open_last<'b, T>(t: Seq<(u64, &'b mut KdTree<T>)>)
    requires
        t.len() > 0,
    ensures
        open_entries(t) == open_entries(t.drop_last()).add((*t.last().1)@),
        open_nodes(t) == open_nodes(t.drop_last()) + (*t.last().1).node_count(),
{
}

/// An entry waiting to be searched lies in one of the pending subtrees.
proof fn lemma_open_member<'b, T>(s: Seq<(u64, &'b mut KdTree<T>)>, e: (Seq<i64>, T)) -> (i: int)
    requires
        open_entries(s).count(e) > 0,
    ensures
        0 <= i < s.len(),
        (*s[i].1)@.count(e) > 0,
    decreases s.len(),
{
    if (*s.last().1)@.count(e) > 0 {
        s.len() - 1
    } else {
        let j = lemma_open_member(s.drop_last(), e);
        j
    }
}


/// `p` is a prefix of `q`: the node at `q` lies below (or is) the one at `p`.
pub open spec fn leads_to(p: Seq<bool>, q: Seq<bool>) -> bool {
    p.len() <= q.len() && q.subrange(0, p.len() as int) == p
}

/// Neither of the nodes at `p` and `q` lies below the other.
pub open spec fn apart(p: Seq<bool>, q: Seq<bool>) -> bool {
    !leads_to(p, q) && !leads_to(q, p)
}

/// The subtree of `t` at `path`, read from the root: `false` goes left,
/// `true` goes right.
pub closed spec fn subtree_at<T>(t: KdTree<T>, path: Seq<bool>) -> KdTree<T>
    decreases path.len(),
{
    if path.len() == 0 {
        t
    } else {
        match if path[0] {
            t.right
        } else {
            t.left
        } {
            Some(c) => subtree_at(*c, path.drop_first()),
            None => t,
        }
    }
}

/// The fields of two nodes agree, but for their children and their buckets.
pub closed spec fn same_frame<T>(a: KdTree<T>, b: KdTree<T>) -> bool {
    &&& a.dimensions == b.dimensions
    &&& a.capacity == b.capacity
    &&& a.size == b.size
    &&& a.min_bounds == b.min_bounds
    &&& a.max_bounds == b.max_bounds
    &&& a.split_value == b.split_value
    &&& a.split_dimension == b.split_dimension
    &&& a.points == b.points
    &&& a.distance_to_space_scratch_vec == b.distance_to_space_scratch_vec
}

/// `tree` is what `t`, the subtree at `at`, becomes when each subtree at a
/// path of `subs` is replaced by the tree given there and each data slot
/// `(path, k)` of `data`, the `k`-th of the leaf at `path`, takes the value
/// given there; all else stays as in `t`.
pub closed spec fn settled<T>(
    tree: KdTree<T>,
    t: KdTree<T>,
    at: Seq<bool>,
    subs: Map<Seq<bool>, KdTree<T>>,
    data: Map<(Seq<bool>, int), T>,
) -> bool
    decreases t,
{
    if subs.contains_key(at) {
        tree == subs[at]
    } else {
        &&& same_frame(tree, t)
        &&& match t.split_dimension {
            None => {
                &&& tree.left == t.left
                &&& tree.right == t.right
                &&& match t.bucket {
                    None => tree.bucket is None,
                    Some(b) => {
                        &&& tree.bucket is Some
                        &&& tree.bucket->0@.len() == b@.len()
                        &&& forall|k: int|
                            0 <= k < b@.len() ==> #[trigger] tree.bucket->0@[k] == if data.contains_key((at, k)) {
                                data[(at, k)]
                            } else {
                                b@[k]
                            }
                    },
                }
            },
            Some(_) => match t.left {
                None => tree == t,
                Some(l) => match t.right {
                    None => tree == t,
                    Some(r) => {
                        &&& tree.bucket == t.bucket
                        &&& tree.left is Some
                        &&& tree.right is Some
                        &&& settled(*tree.left->0, *l, at.push(false), subs, data)
                        &&& settled(*tree.right->0, *r, at.push(true), subs, data)
                    },
                },
            },
        }
    }
}

/// A path that leads on from a child leads on from its parent.
proof fn lemma_leads_push(at: Seq<bool>, b: bool, q: Seq<bool>)
    requires
        leads_to(at.push(b), q),
    ensures
        leads_to(at, q),
{
    let ab = at.push(b);
    assert(q.subrange(0, at.len() as int) =~= q.subrange(0, ab.len() as int).subrange(0, at.len() as int));
    assert(ab.subrange(0, at.len() as int) =~= at);
}

/// Holes below `at` decide alone what `t` becomes.
proof fn lemma_settled_agree<T>(
    tree: KdTree<T>,
    t: KdTree<T>,
    at: Seq<bool>,
    s1: Map<Seq<bool>, KdTree<T>>,
    d1: Map<(Seq<bool>, int), T>,
    s2: Map<Seq<bool>, KdTree<T>>,
    d2: Map<(Seq<bool>, int), T>,
)
    requires
        forall|q: Seq<bool>| #[trigger] leads_to(at, q) ==> (s1.contains_key(q) <==> s2.contains_key(q)) && (
        s1.contains_key(q) ==> s1[q] == s2[q]),
        forall|q: Seq<bool>, k: int|
            #![trigger d1.contains_key((q, k))]
            #![trigger d2.contains_key((q, k))]
            leads_to(at, q) ==> (d1.contains_key((q, k)) <==> d2.contains_key((q, k))) && (d1.contains_key(
                (q, k),
            ) ==> d1[(q, k)] == d2[(q, k)]),
    ensures
        settled(tree, t, at, s1, d1) == settled(tree, t, at, s2, d2),
    decreases t,
{
    assert(leads_to(at, at)) by {
        assert(at.subrange(0, at.len() as int) =~= at);
    }
    if !s1.contains_key(at) {
        match t.split_dimension {
            None => {
                match t.bucket {
                    None => {},
                    Some(b) => {
                        assert forall|k: int| 0 <= k < b@.len() implies (if d1.contains_key((at, k)) {
                            d1[(at, k)]
                        } else {
                            b@[k]
                        }) == (if d2.contains_key((at, k)) {
                            d2[(at, k)]
                        } else {
                            b@[k]
                        }) by {
                            assert(d1.contains_key((at, k)) <==> d2.contains_key((at, k)));
                        }
                    },
                }
            },
            Some(_) => match t.left {
                None => {},
                Some(l) => match t.right {
                    None => {},
                    Some(r) => {
                        if tree.left is Some && tree.right is Some {
                            let af = at.push(false);
                            let at_ = at.push(true);
                            assert forall|q: Seq<bool>| #[trigger] leads_to(af, q) implies leads_to(at, q) by {
                                lemma_leads_push(at, false, q);
                            }
                            assert forall|q: Seq<bool>| #[trigger] leads_to(at_, q) implies leads_to(at, q) by {
                                lemma_leads_push(at, true, q);
                            }
                            lemma_settled_agree(*tree.left->0, *l, af, s1, d1, s2, d2);
                            lemma_settled_agree(*tree.right->0, *r, at_, s1, d1, s2, d2);
                        }
                    },
                },
            },
        }
    }
}


/// A path that leads on from one child does not lead on from the other.
proof fn lemma_leads_sides(at: Seq<bool>, b: bool, q: Seq<bool>)
    requires
        leads_to(at.push(b), q),
    ensures
        !leads_to(at.push(!b), q),
{
    assert(q[at.len() as int] == q.subrange(0, at.len() as int + 1)[at.len() as int]);
    assert(at.push(b)[at.len() as int] == b);
}

/// The node of `t` at `rest`, seen from the child of `t` on `rest[0]`'s side.
proof fn lemma_subtree_step<T>(t: KdTree<T>, rest: Seq<bool>)
    requires
        t.wf(),
        rest.len() > 0,
        t.split_dimension is Some,
    ensures
        t.left is Some,
        t.right is Some,
        subtree_at(t, rest) == subtree_at(*(if rest[0] { t.right->0 } else { t.left->0 }), rest.drop_first()),
{
}

/// Opening the hole at `at + rest`, which holds a stem `x` over the node of
/// `t` there, into holes at the stem's two children changes nothing.
proof fn lemma_open_stem<T>(
    tree: KdTree<T>,
    t: KdTree<T>,
    at: Seq<bool>,
    rest: Seq<bool>,
    subs: Map<Seq<bool>, KdTree<T>>,
    data: Map<(Seq<bool>, int), T>,
    x: KdTree<T>,
)
    requires
        t.wf(),
        subs.contains_key(at + rest),
        subs[at + rest] == x,
        forall|q: Seq<bool>| #[trigger] subs.contains_key(q) && q != at + rest ==> apart(q, at + rest),
        forall|q: Seq<bool>, k: int| #[trigger] data.contains_key((q, k)) ==> apart(q, at + rest),
        subtree_at(t, rest).split_dimension is Some,
        same_frame(x, subtree_at(t, rest)),
        x.bucket == subtree_at(t, rest).bucket,
        x.left is Some,
        x.right is Some,
        settled(tree, t, at, subs, data),
    ensures
        settled(
            tree,
            t,
            at,
            subs.remove(at + rest).insert((at + rest).push(false), *x.left->0).insert(
                (at + rest).push(true),
                *x.right->0,
            ),
            data,
        ),
    decreases rest.len(),
{
    let p = at + rest;
    let s2 = subs.remove(p).insert(p.push(false), *x.left->0).insert(p.push(true), *x.right->0);
    if rest.len() == 0 {
        assert(p =~= at);
        assert(t.split_dimension is Some);
        assert(at.push(false) != at.push(true)) by {
            assert(at.push(false)[at.len() as int] != at.push(true)[at.len() as int]);
        }
        assert(t.left is Some && t.right is Some);
        assert(s2.contains_key(at.push(false)) && s2[at.push(false)] == *x.left->0);
        assert(s2.contains_key(at.push(true)) && s2[at.push(true)] == *x.right->0);
        assert(!s2.contains_key(at)) by {
            assert(at.push(false) != at && at.push(true) != at) by {
                assert(at.push(false).len() != at.len());
                assert(at.push(true).len() != at.len());
            }
        }
        assert(tree == x);
        assert(same_frame(tree, t));
        assert(settled(*x.left->0, *t.left->0, at.push(false), s2, data));
        assert(settled(*x.right->0, *t.right->0, at.push(true), s2, data));
        assert(settled(tree, t, at, s2, data));
    } else {
        assert(leads_to(at, p)) by {
            assert(p.subrange(0, at.len() as int) =~= at);
        }
        assert(at != p) by {
            assert(at.len() != p.len());
        }
        assert(!subs.contains_key(at));
        assert(!s2.contains_key(at)) by {
            assert(p.push(false).len() != at.len());
            assert(p.push(true).len() != at.len());
        }
        if t.split_dimension is None {
            assert(t.left is None);
            assert(subtree_at(t, rest) == t);
        }
        lemma_subtree_step(t, rest);
        let b = rest[0];
        let ab = at.push(b);
        let rest2 = rest.drop_first();
        assert(ab + rest2 =~= p);
        let l = *t.left->0;
        let r = *t.right->0;
        let (child, other, tchild, tother) = if b {
            (r, l, *tree.right->0, *tree.left->0)
        } else {
            (l, r, *tree.left->0, *tree.right->0)
        };
        lemma_open_stem(tchild, child, ab, rest2, subs, data, x);
        let ao = at.push(!b);
        assert forall|q: Seq<bool>| #[trigger] leads_to(ao, q) implies (subs.contains_key(q) <==> s2.contains_key(
            q,
        )) && (subs.contains_key(q) ==> subs[q] == s2[q]) by {
            assert(leads_to(ab, p)) by {
                assert(p.subrange(0, ab.len() as int) =~= ab);
            }
            assert(leads_to(ab, p.push(false))) by {
                assert(p.push(false).subrange(0, ab.len() as int) =~= ab);
            }
            assert(leads_to(ab, p.push(true))) by {
                assert(p.push(true).subrange(0, ab.len() as int) =~= ab);
            }
            lemma_leads_sides(at, b, p);
            lemma_leads_sides(at, b, p.push(false));
            lemma_leads_sides(at, b, p.push(true));
            assert(!b == !b);
            assert(q != p && q != p.push(false) && q != p.push(true));
        }
        lemma_settled_agree(tother, other, ao, subs, data, s2, data);
        if b {
            assert(ao =~= at.push(false));
        } else {
            assert(ao =~= at.push(true));
        }
        assert(settled(tchild, child, ab, s2, data));
        assert(settled(tother, other, ao, s2, data));
        assert(settled(tree, t, at, s2, data));
    }
}


/// Opening the hole at `at + rest`, which holds a leaf `x` over the leaf of
/// `t` there, into one data slot for each entry of its bucket, holding the
/// data of `x`, changes nothing.
proof fn lemma_open_leaf<T>(
    tree: KdTree<T>,
    t: KdTree<T>,
    at: Seq<bool>,
    rest: Seq<bool>,
    subs: Map<Seq<bool>, KdTree<T>>,
    data: Map<(Seq<bool>, int), T>,
    data2: Map<(Seq<bool>, int), T>,
    x: KdTree<T>,
)
    requires
        t.wf(),
        subs.contains_key(at + rest),
        subs[at + rest] == x,
        forall|q: Seq<bool>| #[trigger] subs.contains_key(q) && q != at + rest ==> apart(q, at + rest),
        subtree_at(t, rest).split_dimension is None,
        same_frame(x, subtree_at(t, rest)),
        x.left == subtree_at(t, rest).left,
        x.right == subtree_at(t, rest).right,
        subtree_at(t, rest).bucket is Some,
        x.bucket is Some,
        x.bucket->0@.len() == subtree_at(t, rest).bucket->0@.len(),
        forall|q: Seq<bool>, k: int|
            #![trigger data2.contains_key((q, k))]
            #![trigger data.contains_key((q, k))]
            q != at + rest ==> (data2.contains_key((q, k)) <==> data.contains_key((q, k))) && (data.contains_key(
                (q, k),
            ) ==> data2[(q, k)] == data[(q, k)]),
        forall|k: int|
            0 <= k < x.bucket->0@.len() ==> #[trigger] data2.contains_key((at + rest, k)) && data2[(at + rest, k)]
                == x.bucket->0@[k],
        settled(tree, t, at, subs, data),
    ensures
        settled(tree, t, at, subs.remove(at + rest), data2),
    decreases rest.len(),
{
    let p = at + rest;
    let s2 = subs.remove(p);
    if rest.len() == 0 {
        assert(p =~= at);
        assert(tree == x);
        assert(settled(tree, t, at, s2, data2));
    } else {
        assert(leads_to(at, p)) by {
            assert(p.subrange(0, at.len() as int) =~= at);
        }
        assert(at != p) by {
            assert(at.len() != p.len());
        }
        assert(!subs.contains_key(at));
        if t.split_dimension is None {
            assert(t.left is None);
            assert(subtree_at(t, rest) == t);
            match t.bucket {
                None => {},
                Some(b) => {
                    assert forall|k: int| 0 <= k < b@.len() implies #[trigger] tree.bucket->0@[k] == if data2.contains_key(
                        (at, k),
                    ) {
                        data2[(at, k)]
                    } else {
                        b@[k]
                    } by {
                        assert(data2.contains_key((at, k)) <==> data.contains_key((at, k)));
                    }
                },
            }
            assert(settled(tree, t, at, s2, data2));
        } else {
            lemma_subtree_step(t, rest);
            let b = rest[0];
            let ab = at.push(b);
            let rest2 = rest.drop_first();
            assert(ab + rest2 =~= p);
            let l = *t.left->0;
            let r = *t.right->0;
            let (child, other, tchild, tother) = if b {
                (r, l, *tree.right->0, *tree.left->0)
            } else {
                (l, r, *tree.left->0, *tree.right->0)
            };
            lemma_open_leaf(tchild, child, ab, rest2, subs, data, data2, x);
            let ao = at.push(!b);
            assert(leads_to(ab, p)) by {
                assert(p.subrange(0, ab.len() as int) =~= ab);
            }
            lemma_leads_sides(at, b, p);
            assert forall|q: Seq<bool>| #[trigger] leads_to(ao, q) implies (subs.contains_key(q) <==> s2.contains_key(
                q,
            )) && (subs.contains_key(q) ==> subs[q] == s2[q]) by {
                assert(q != p);
            }
            assert forall|q: Seq<bool>, k: int| leads_to(ao, q) implies (data.contains_key((q, k))
                <==> data2.contains_key((q, k))) && (data.contains_key((q, k)) ==> data[(q, k)] == data2[(q, k)]) by {
                assert(q != p);
            }
            lemma_settled_agree(tother, other, ao, subs, data, s2, data2);
            if b {
                assert(ao =~= at.push(false));
            } else {
                assert(ao =~= at.push(true));
            }
            assert(settled(tchild, child, ab, s2, data2));
            assert(settled(tother, other, ao, s2, data2));
            assert(settled(tree, t, at, s2, data2));
        }
    }
}

/// The node below a stem at `p`, on `b`'s side, is at `p` followed by `b`.
proof fn lemma_subtree_push<T>(t: KdTree<T>, p: Seq<bool>, b: bool)
    requires
        t.wf(),
        subtree_at(t, p).split_dimension is Some,
    ensures
        subtree_at(t, p).wf(),
        subtree_at(t, p).left is Some,
        subtree_at(t, p).right is Some,
        subtree_at(t, p.push(b)) == *(if b { subtree_at(t, p).right->0 } else { subtree_at(t, p).left->0 }),
    decreases p.len(),
{
    if p.len() == 0 {
        assert(subtree_at(t, p) == t);
        assert(t.left is Some && t.right is Some);
        assert(p.push(b).drop_first() =~= Seq::<bool>::empty());
        assert(p.push(b)[0] == b);
        let c = *(if b { t.right->0 } else { t.left->0 });
        assert(subtree_at(c, Seq::<bool>::empty()) == c);
        assert(subtree_at(t, p.push(b)) == subtree_at(c, p.push(b).drop_first()));
    } else {
        if t.split_dimension is None {
            assert(t.left is None);
            assert(subtree_at(t, p) == t);
        }
        assert(t.left is Some && t.right is Some);
        assert(p.push(b).drop_first() =~= p.drop_first().push(b));
        assert(p.push(b)[0] == p[0]);
        let c = *(if p[0] { t.right->0 } else { t.left->0 });
        assert(c.wf());
        assert(subtree_at(t, p) == subtree_at(c, p.drop_first()));
        assert(subtree_at(t, p.push(b)) == subtree_at(c, p.push(b).drop_first()));
        lemma_subtree_push(c, p.drop_first(), b);
    }
}

/// Nodes apart are at different paths.
proof fn lemma_apart_ne(a: Seq<bool>, b: Seq<bool>)
    requires
        apart(a, b),
    ensures
        a != b,
{
    assert(a.subrange(0, a.len() as int) =~= a);
}

/// A node apart from one at `p` is apart from every node below it.
proof fn lemma_apart_push(q: Seq<bool>, p: Seq<bool>, b: bool)
    requires
        apart(q, p),
    ensures
        apart(q, p.push(b)),
{
    let pb = p.push(b);
    if leads_to(pb, q) {
        lemma_leads_push(p, b, q);
    }
    if leads_to(q, pb) {
        if q.len() == pb.len() {
            assert(q =~= pb);
            assert(leads_to(p, q)) by {
                assert(q.subrange(0, p.len() as int) =~= p);
            }
        } else {
            assert(leads_to(q, p)) by {
                assert(p.subrange(0, q.len() as int) =~= pb.subrange(0, q.len() as int));
            }
        }
    }
}

/// Adding a held subtree adds its final value to the final values held.
proof fn lemma_finals_insert<'b, T>(m: Map<Seq<bool>, &'b mut KdTree<T>>, k: Seq<bool>, r: &'b mut KdTree<T>)
    ensures
        m.insert(k, r).map_values(|r: &'b mut KdTree<T>| *final(r)) == m.map_values(
            |r: &'b mut KdTree<T>| *final(r),
        ).insert(k, *final(r)),
{
    assert(m.insert(k, r).map_values(|r: &'b mut KdTree<T>| *final(r)) =~= m.map_values(
        |r: &'b mut KdTree<T>| *final(r),
    ).insert(k, *final(r)));
}

/// The point of the `slot.1`-th entry of the leaf of `t` at `slot.0`.
pub closed spec fn point_at<T>(t: KdTree<T>, slot: (Seq<bool>, int)) -> Seq<i64> {
    subtree_at(t, slot.0).points->0@[slot.1]@
}


/// The entries of `t`, the subtree at `at`, in order, each data slot
/// `(path, k)` of `data` taking the value given there.
pub closed spec fn relabeled<T>(t: KdTree<T>, at: Seq<bool>, data: Map<(Seq<bool>, int), T>) -> Seq<(Seq<i64>, T)>
    decreases t,
{
    match t.split_dimension {
        None => match t.points {
            Some(ps) => match t.bucket {
                Some(bs) => Seq::new(
                    ps@.len(),
                    |k: int|
                        (ps@[k]@, if data.contains_key((at, k)) {
                            data[(at, k)]
                        } else {
                            bs@[k]
                        }),
                ),
                None => Seq::empty(),
            },
            None => Seq::empty(),
        },
        Some(_) => match t.left {
            Some(l) => match t.right {
                Some(r) => relabeled(*l, at.push(false), data) + relabeled(*r, at.push(true), data),
                None => Seq::empty(),
            },
            None => Seq::empty(),
        },
    }
}

/// Once no subtree is left held, the tree that `t` became is well formed,
/// with the same shape, bounds and points as `t`, and the entries of `t`
/// with the data of each slot of `data` replaced by the value given there.
pub proof fn lemma_settled_entries<T>(tree: KdTree<T>, t: KdTree<T>, at: Seq<bool>, data: Map<(Seq<bool>, int), T>)
    requires
        t.wf(),
        settled(tree, t, at, Map::empty(), data),
    ensures
        tree.wf(),
        tree.entries() == relabeled(t, at, data),
        tree.entries().len() == t.entries().len(),
        forall|i: int| 0 <= i < t.entries().len() ==> (#[trigger] tree.entries()[i]).0 == t.entries()[i].0,
        tree.spec_dimensions() == t.spec_dimensions(),
        tree.spec_capacity() == t.spec_capacity(),
        tree.lower() == t.lower(),
        tree.upper() == t.upper(),
        tree.spec_is_leaf() == t.spec_is_leaf(),
        tree@.len() == t@.len(),
    decreases t,
{
    let e: Map<Seq<bool>, KdTree<T>> = Map::empty();
    assert(!e.contains_key(at));
    match t.split_dimension {
        None => {
            t.lemma_leaf_entries();
            let ps = t.points->0;
            let bs = t.bucket->0;
            assert(tree.left is None && tree.right is None);
            tree.lemma_leaf_entries();
            let fb = tree.bucket->0;
            assert(tree.entries() =~= relabeled(t, at, data)) by {
                assert forall|k: int| 0 <= k < ps@.len() implies #[trigger] tree.entries()[k] == relabeled(
                    t,
                    at,
                    data,
                )[k] by {
                    assert(fb@[k] == if data.contains_key((at, k)) {
                        data[(at, k)]
                    } else {
                        bs@[k]
                    });
                }
            }
            assert forall|i: int| 0 <= i < tree.entries().len() implies in_box(
                #[trigger] tree.entries()[i].0,
                tree.min_bounds@,
                tree.max_bounds@,
                tree.dimensions as nat,
            ) by {
                assert(tree.entries()[i].0 == t.entries()[i].0);
            }
            tree.lemma_view_len();
            t.lemma_view_len();
        },
        Some(_) => {
            let l = *t.left->0;
            let r = *t.right->0;
            let tl = *tree.left->0;
            let tr = *tree.right->0;
            lemma_settled_entries(tl, l, at.push(false), data);
            lemma_settled_entries(tr, r, at.push(true), data);
            t.lemma_stem_entries();
            tree.lemma_stem_entries();
            let ln = l.entries().len();
            assert(tree.entries().len() == t.entries().len());
            assert forall|i: int| 0 <= i < t.entries().len() implies (#[trigger] tree.entries()[i]).0
                == t.entries()[i].0 by {
                if i < ln {
                    assert(tree.entries()[i] == tl.entries()[i]);
                    assert(t.entries()[i] == l.entries()[i]);
                } else {
                    assert(tree.entries()[i] == tr.entries()[i - ln]);
                    assert(t.entries()[i] == r.entries()[i - ln]);
                }
            }
            assert forall|i: int| 0 <= i < tree.entries().len() implies in_box(
                #[trigger] tree.entries()[i].0,
                tree.min_bounds@,
                tree.max_bounds@,
                tree.dimensions as nat,
            ) by {
                assert(tree.entries()[i].0 == t.entries()[i].0);
            }
            let d = t.split_dimension->0;
            assert forall|i: int| 0 <= i < tl.entries().len() implies (#[trigger] tl.entries()[i]).0[d as int]
                < tree.split_value->0 by {
                assert(tl.entries()[i].0 == l.entries()[i].0);
            }
            assert forall|i: int| 0 <= i < tr.entries().len() implies (#[trigger] tr.entries()[i]).0[d as int]
                >= tree.split_value->0 by {
                assert(tr.entries()[i].0 == r.entries()[i].0);
            }
            tree.lemma_view_len();
            t.lemma_view_len();
        },
    }
}

/// The entries of a tree in order of distance from a point, each handed out
/// with a mutable reference to its data: every entry at most once.
pub struct NearestIterMut<'a, 'b, T, F: Fn(&[i64], &[i64]) -> u64> {
    point: &'a [i64],
    pending: Vec<(u64, &'b mut KdTree<T>)>,
    evaluated: Vec<(u64, &'b mut T)>,
    distance: &'a F,
    dimensions: usize,
    weighed: Ghost<Seq<(Seq<i64>, T)>>,
    root: Ghost<&'b mut KdTree<T>>,
    origin: Ghost<KdTree<T>>,
    paths: Ghost<Seq<Seq<bool>>>,
    trees: Ghost<Map<Seq<bool>, &'b mut KdTree<T>>>,
    slots: Ghost<Seq<(Seq<bool>, int)>>,
    data: Ghost<Map<(Seq<bool>, int), &'b mut T>>,
}

impl<'a, 'b, T, F: Fn(&[i64], &[i64]) -> u64> NearestIterMut<'a, 'b, T, F> {
    /// The reference to the whole tree that the iterator was made from.
    pub closed spec fn root(&self) -> &'b mut KdTree<T> {
        self.root@
    }

    /// The tree as it was when the iterator was made.
    pub closed spec fn origin(&self) -> KdTree<T> {
        self.origin@
    }

    /// The subtrees the iterator still holds, by their paths from the root.
    pub closed spec fn held_trees(&self) -> Map<Seq<bool>, &'b mut KdTree<T>> {
        self.trees@
    }

    /// The references to data the iterator holds or has handed out, by their
    /// slots: the path of the leaf and the position in its bucket.
    pub closed spec fn held_data(&self) -> Map<(Seq<bool>, int), &'b mut T> {
        self.data@
    }

    /// Where the references held come from in the tree.
    pub closed spec fn holes_ok(&self) -> bool {
        &&& self.origin@.wf()
        &&& self.paths@.len() == self.pending@.len()
        &&& self.slots@.len() == self.evaluated@.len()
        &&& forall|q: Seq<bool>|
            #[trigger] self.trees@.contains_key(q) ==> exists|i: int| 0 <= i < self.paths@.len() && self.paths@[i] == q
        &&& forall|i: int|
            0 <= i < self.paths@.len() ==> #[trigger] self.trees@.contains_key(self.paths@[i])
                && self.trees@[self.paths@[i]] == self.pending@[i].1 && *self.pending@[i].1 == subtree_at(
                self.origin@,
                self.paths@[i],
            )
        &&& forall|i: int, j: int|
            0 <= i < self.paths@.len() && 0 <= j < self.paths@.len() && i != j ==> apart(
                #[trigger] self.paths@[i],
                #[trigger] self.paths@[j],
            )
        &&& forall|j: int|
            0 <= j < self.slots@.len() ==> #[trigger] self.data@.contains_key(self.slots@[j])
                && self.data@[self.slots@[j]] == self.evaluated@[j].1 && point_at(self.origin@, self.slots@[j])
                == self.weighed@[j].0
        &&& forall|i: int, q: Seq<bool>, k: int|
            #![trigger self.paths@[i], self.data@.contains_key((q, k))]
            0 <= i < self.paths@.len() && self.data@.contains_key((q, k)) ==> apart(self.paths@[i], q)
    }

    /// The entries not yet handed out, with their data as they were when
    /// the iterator was made.
    pub closed spec fn remaining(&self) -> Multiset<(Seq<i64>, T)> {
        open_entries(self.pending@).add(self.weighed@.to_multiset())
    }

    pub closed spec fn spec_point(&self) -> Seq<i64> {
        self.point@
    }

    pub closed spec fn spec_distance(&self) -> &'a F {
        self.distance
    }

    pub closed spec fn spec_dimensions(&self) -> nat {
        self.dimensions as nat
    }

    /// The invariant of the iterator.
    pub closed spec fn wf(&self) -> bool {
        &&& total(self.distance)
        &&& self.point@.len() >= self.dimensions
        &&& forall|i: int|
            0 <= i < self.pending@.len() ==> (*(#[trigger] self.pending@[i]).1).wf()
                && (*self.pending@[i].1).spec_dimensions() == self.dimensions && (metric(
                self.distance,
                self.dimensions as nat,
            ) ==> no_closer_than((*self.pending@[i].1)@, self.distance, self.point@, self.pending@[i].0))
        &&& self.weighed@.len() == self.evaluated@.len()
        &&& forall|i: int|
            0 <= i < self.evaluated@.len() ==> (#[trigger] self.weighed@[i]).1 == *self.evaluated@[i].1
                && measures(self.distance, self.point@, self.weighed@[i].0, self.evaluated@[i].0)
        &&& self.holes_ok()
    }

    /// Searches the pending subtree nearest to the point, down to a leaf,
    /// queueing every sibling subtree with its distance and weighing every
    /// entry of the leaf.
    #[verifier::loop_isolation(false)]
    #[verifier::rlimit(60)]
    fn expand(&mut self)
        requires
            old(self).wf(),
            old(self).pending@.len() > 0,
            settled(*final(old(self).root@), old(self).origin@, Seq::empty(), old(self).trees@.map_values(|r: &'b mut KdTree<T>| *final(r)), old(self).data@.map_values(|r: &'b mut T| *final(r))),
        ensures
            final(self).wf(),
            final(self).remaining() == old(self).remaining(),
            final(self).point == old(self).point,
            final(self).distance == old(self).distance,
            final(self).dimensions == old(self).dimensions,
            final(self).origin@ == old(self).origin@,
            open_nodes(final(self).pending@) < open_nodes(old(self).pending@),
            final(self).root@ == old(self).root@,
            settled(*final(final(self).root@), final(self).origin@, Seq::empty(), final(self).trees@.map_values(|r: &'b mut KdTree<T>| *final(r)), final(self).data@.map_values(|r: &'b mut T| *final(r))),
    {
        let ghost o = self.origin@;
        let ghost data0 = self.data@;
        let ghost root0 = self.root@;
        let ghost x = self.point@;
        let ghost f = self.distance;
        let ghost dims = self.dimensions as nat;
        let ghost rem = self.remaining();
        let ghost pending0 = self.pending@;
        let mi = crate::kdtree::query::min_index(&self.pending);
        proof {
            lemma_open_remove(self.pending@, mi as int);
        }
        let ghost paths0 = self.paths@;
        let ghost trees0 = self.trees@;
        proof {
            assert(trees0.contains_key(paths0[mi as int]));
        }
        let popped = self.pending.remove(mi);
        let ghost p0 = paths0[mi as int];
        let ghost mut cp: Seq<bool> = p0;
        proof {
            self.paths@ = paths0.remove(mi as int);
            self.trees@ = self.trees@.remove(p0);
            assert forall|i: int| 0 <= i < self.paths@.len() implies #[trigger] self.trees@.contains_key(self.paths@[i])
                && self.trees@[self.paths@[i]] == self.pending@[i].1 && *self.pending@[i].1 == subtree_at(
                o,
                self.paths@[i],
            ) && apart(self.paths@[i], cp) by {
                let j = if i < mi { i } else { i + 1 };
                assert(self.paths@[i] == paths0[j]);
                assert(self.pending@[i] == pending0[j]);
                assert(apart(paths0[j], paths0[mi as int]));
                lemma_apart_ne(paths0[j], p0);
                assert(trees0.contains_key(paths0[j]));
            }
            assert forall|q: Seq<bool>| #[trigger] self.trees@.contains_key(q) implies exists|i: int|
                0 <= i < self.paths@.len() && self.paths@[i] == q by {
                let j = choose|j: int| 0 <= j < paths0.len() && paths0[j] == q;
                assert(j != mi);
                let i = if j < mi { j } else { j - 1 };
                assert(self.paths@[i] == q);
            }
            assert forall|i: int, j: int|
                0 <= i < self.paths@.len() && 0 <= j < self.paths@.len() && i != j implies apart(
                #[trigger] self.paths@[i],
                #[trigger] self.paths@[j],
            ) by {
                let i2 = if i < mi { i } else { i + 1 };
                let j2 = if j < mi { j } else { j + 1 };
                assert(self.paths@[i] == paths0[i2]);
                assert(self.paths@[j] == paths0[j2]);
            }
            assert forall|q: Seq<bool>, k: int| #[trigger] self.data@.contains_key((q, k)) implies apart(q, cp) by {
                assert(paths0[mi as int] == cp);
                assert(apart(paths0[mi as int], q));
            }
            assert forall|i: int, q: Seq<bool>, k: int|
                0 <= i < self.paths@.len() && #[trigger] self.data@.contains_key((q, k)) implies apart(
                #[trigger] self.paths@[i],
                q,
            ) by {
                let j = if i < mi { i } else { i + 1 };
                assert(self.paths@[i] == paths0[j]);
            }
            assert(pending0[mi as int] == popped);
            assert forall|i: int| 0 <= i < self.pending@.len() implies (*(#[trigger] self.pending@[i]).1).wf()
                && (*self.pending@[i].1).spec_dimensions() == dims && (metric(f, dims) ==> no_closer_than(
                (*self.pending@[i].1)@,
                f,
                x,
                self.pending@[i].0,
            )) by {
                if i < mi {
                    assert(self.pending@[i] == pending0[i]);
                } else {
                    assert(self.pending@[i] == pending0[i + 1]);
                }
            }
        }
        let ghost popped_ref = popped.1;
        let mut curr = popped.1;
        assert forall|i: int| 0 <= i < self.paths@.len() implies *(#[trigger] self.pending@[i]).1 == subtree_at(
            self.origin@,
            self.paths@[i],
        ) by {
            assert(self.trees@.contains_key(self.paths@[i]));
        }
        assert forall|i: int|
            0 <= i < self.paths@.len() implies #[trigger] self.trees@.contains_key(self.paths@[i])
                && self.trees@[self.paths@[i]] == self.pending@[i].1 && *self.pending@[i].1 == subtree_at(
                o,
                self.paths@[i],
            ) && apart(self.paths@[i], cp) by {
            assert(self.trees@.contains_key(self.paths@[i]));
            assert(self.trees@[self.paths@[i]] == self.pending@[i].1);
            assert(*self.pending@[i].1 == subtree_at(o, self.paths@[i]));
            assert(apart(self.paths@[i], cp));
        }
        proof {
            assert(trees0[p0] == popped_ref);
            assert(curr == popped_ref);
            assert(self.trees@.map_values(|r: &'b mut KdTree<T>| *final(r)).insert(cp, *final(curr)) =~= trees0.map_values(|r: &'b mut KdTree<T>| *final(r)));
        }
        while !curr.is_leaf()
            invariant
                (*curr).wf(),
                (*curr).spec_dimensions() == dims,
                self.point@ == x,
                self.distance == f,
                self.dimensions == dims,
                self.weighed@.len() == self.evaluated@.len(),
                forall|i: int|
                    0 <= i < self.evaluated@.len() ==> (#[trigger] self.weighed@[i]).1
                        == *self.evaluated@[i].1 && measures(f, x, self.weighed@[i].0, self.evaluated@[i].0),
                rem == open_entries(self.pending@).add((*curr)@).add(self.weighed@.to_multiset()),
                forall|i: int|
                    0 <= i < self.pending@.len() ==> (*(#[trigger] self.pending@[i]).1).wf()
                        && (*self.pending@[i].1).spec_dimensions() == dims && (metric(f, dims)
                        ==> no_closer_than((*self.pending@[i].1)@, f, x, self.pending@[i].0)),
                open_nodes(self.pending@) + (*curr).node_count() <= open_nodes(pending0),
                self.data@ == data0,
                self.root@ == root0,
                settled(*final(root0), o, Seq::empty(), self.trees@.map_values(|r: &'b mut KdTree<T>| *final(r)).insert(cp, *final(curr)), data0.map_values(|r: &'b mut T| *final(r))),
                self.origin@ == o,
                o.wf(),
                *curr == subtree_at(o, cp),
                self.paths@.len() == self.pending@.len(),
                self.slots@.len() == self.evaluated@.len(),
                forall|q: Seq<bool>|
                    #[trigger] self.trees@.contains_key(q) ==> exists|i: int|
                        0 <= i < self.paths@.len() && self.paths@[i] == q,
                forall|i: int|
                    0 <= i < self.paths@.len() ==> #[trigger] self.trees@.contains_key(self.paths@[i])
                        && self.trees@[self.paths@[i]] == self.pending@[i].1,
                forall|i: int|
                    0 <= i < self.paths@.len() ==> *(#[trigger] self.pending@[i]).1 == subtree_at(
                        self.origin@,
                        self.paths@[i],
                    ),
                forall|i: int| 0 <= i < self.paths@.len() ==> apart(#[trigger] self.paths@[i], cp),
                forall|i: int, j: int|
                    0 <= i < self.paths@.len() && 0 <= j < self.paths@.len() && i != j ==> apart(
                        #[trigger] self.paths@[i],
                        #[trigger] self.paths@[j],
                    ),
                forall|j: int|
                    0 <= j < self.slots@.len() ==> #[trigger] self.data@.contains_key(self.slots@[j])
                        && self.data@[self.slots@[j]] == self.evaluated@[j].1 && point_at(o, self.slots@[j])
                        == self.weighed@[j].0,
                forall|q: Seq<bool>, k: int| #[trigger] self.data@.contains_key((q, k)) ==> apart(q, cp),
                forall|i: int, q: Seq<bool>, k: int|
                    #![trigger self.paths@[i], self.data@.contains_key((q, k))]
                    0 <= i < self.paths@.len() && self.data@.contains_key((q, k)) ==> apart(self.paths@[i], q),
            decreases (*curr).node_count(),
        {
            let ghost before = *curr;
            let ghost cur_ref = curr;
            let ghost cp_b = cp;
            let ghost trees_b = self.trees@;
            let ghost paths_b = self.paths@;
            proof {
                before.lemma_children_view();
            }
            let goes_left = curr.belongs_in_left(self.point);
            let (next, candidate): (&'b mut KdTree<T>, &'b mut KdTree<T>) = if goes_left {
                (curr.left.as_mut().unwrap(), curr.right.as_mut().unwrap())
            } else {
                (curr.right.as_mut().unwrap(), curr.left.as_mut().unwrap())
            };
            let candidate_to_space = distance_to_space(
                self.point,
                candidate.min_bounds.as_slice(),
                candidate.max_bounds.as_slice(),
                self.distance,
                self.dimensions,
            );
            let ghost cand = *candidate;
            let ghost nxt = *next;
            let ghost pb = self.pending@;
            let ghost pathsb = self.paths@;
            self.pending.push((candidate_to_space, candidate));
            proof {
                let nd = goes_left;
                let np = cp.push(nd);
                let ncp = cp.push(goes_left == false);
                lemma_subtree_push(o, cp, nd);
                lemma_subtree_push(o, cp, goes_left == false);
                assert(cand == subtree_at(o, np));
                assert(nxt == subtree_at(o, ncp));
                assert(ncp == cp.push(!nd));
                assert(apart(np, ncp)) by {
                    assert(np[cp.len() as int] != ncp[cp.len() as int]);
                    if leads_to(np, ncp) {
                        assert(ncp.subrange(0, np.len() as int) =~= ncp);
                    }
                    if leads_to(ncp, np) {
                        assert(np.subrange(0, ncp.len() as int) =~= np);
                    }
                }
                self.paths@ = pathsb.push(np);
                self.trees@ = self.trees@.insert(np, self.pending@.last().1);
                assert forall|i: int| 0 <= i < pathsb.len() implies apart(#[trigger] pathsb[i], np) && apart(
                    pathsb[i],
                    ncp,
                ) && pathsb[i] != np by {
                    lemma_apart_push(pathsb[i], cp, nd);
                    lemma_apart_push(pathsb[i], cp, !nd);
                    assert(leads_to(np, np)) by {
                        assert(np.subrange(0, np.len() as int) =~= np);
                    }
                }
                assert forall|i: int| 0 <= i < self.paths@.len() implies #[trigger] self.trees@.contains_key(
                    self.paths@[i],
                ) && self.trees@[self.paths@[i]] == self.pending@[i].1 && *self.pending@[i].1 == subtree_at(
                    o,
                    self.paths@[i],
                ) && apart(self.paths@[i], ncp) by {
                    if i < pathsb.len() {
                        assert(self.paths@[i] == pathsb[i]);
                        assert(self.pending@[i] == pb[i]);
                    }
                }
                assert forall|q: Seq<bool>| #[trigger] self.trees@.contains_key(q) implies exists|i: int|
                    0 <= i < self.paths@.len() && self.paths@[i] == q by {
                    if q == np {
                        assert(self.paths@[pathsb.len() as int] == q);
                    } else {
                        let j = choose|j: int| 0 <= j < pathsb.len() && pathsb[j] == q;
                        assert(self.paths@[j] == q);
                    }
                }
                assert forall|i: int, j: int|
                    0 <= i < self.paths@.len() && 0 <= j < self.paths@.len() && i != j implies apart(
                    #[trigger] self.paths@[i],
                    #[trigger] self.paths@[j],
                ) by {
                    if i < pathsb.len() {
                        assert(self.paths@[i] == pathsb[i]);
                    }
                    if j < pathsb.len() {
                        assert(self.paths@[j] == pathsb[j]);
                    }
                    if i < pathsb.len() && j == pathsb.len() {
                        assert(apart(pathsb[i], np));
                    }
                    if j < pathsb.len() && i == pathsb.len() {
                        assert(apart(pathsb[j], np));
                    }
                }
                assert forall|q: Seq<bool>, k: int| #[trigger] self.data@.contains_key((q, k)) implies apart(
                    q,
                    ncp,
                ) by {
                    assert(apart(q, cp));
                    lemma_apart_push(q, cp, !nd);
                }
                assert forall|i: int, q: Seq<bool>, k: int|
                    0 <= i < self.paths@.len() && #[trigger] self.data@.contains_key((q, k)) implies apart(
                    #[trigger] self.paths@[i],
                    q,
                ) by {
                    if i < pathsb.len() {
                        assert(self.paths@[i] == pathsb[i]);
                    } else {
                        assert(apart(q, cp));
                        lemma_apart_push(q, cp, nd);
                    }
                }
                cp = ncp;
                assert(trees_b.contains_key(cp_b) == false) by {
                    if trees_b.contains_key(cp_b) {
                        let j = choose|j: int| 0 <= j < paths_b.len() && paths_b[j] == cp_b;
                        assert(apart(paths_b[j], cp_b));
                        lemma_apart_ne(paths_b[j], cp_b);
                    }
                }
                assert(before@ == nxt@.add(cand@));
                assert(before.node_count() == 1 + nxt.node_count() + cand.node_count());
                lemma_open_last(self.pending@);
                assert(self.pending@.drop_last() =~= pb);
                assert(*self.pending@.last().1 == cand);
                if metric(f, dims) {
                    assert forall|e: (Seq<i64>, T), d: u64|
                        #![trigger cand@.count(e), measures(f, x, e.0, d)]
                        cand@.count(e) > 0 && measures(f, x, e.0, d) implies candidate_to_space <= d by {
                        cand.lemma_entry_in_box(e);
                        lemma_box_bound(f, dims, x, cand.lower(), cand.upper(), e.0, candidate_to_space, d);
                    }
                }
                assert forall|i: int| 0 <= i < self.pending@.len() implies (*(
                #[trigger] self.pending@[i]).1).wf() && (*self.pending@[i].1).spec_dimensions() == dims && (
                metric(f, dims) ==> no_closer_than((*self.pending@[i].1)@, f, x, self.pending@[i].0)) by {
                    if i < pb.len() {
                        assert(self.pending@[i] == pb[i]);
                    }
                }
                assert(rem =~= open_entries(self.pending@).add(nxt@).add(self.weighed@.to_multiset()));
            }
            curr = next;
            proof {
                let xv = *final(cur_ref);
                let mm = trees_b.map_values(|r: &'b mut KdTree<T>| *final(r)).insert(cp_b, xv);
                let dd = data0.map_values(|r: &'b mut T| *final(r));
                let e: Seq<bool> = Seq::empty();
                assert(e + cp_b =~= cp_b);
                assert(subtree_at(o, cp_b) == before);
                assert(same_frame(xv, before));
                assert(xv.bucket == before.bucket);
                assert(xv.left is Some && xv.right is Some);
                assert forall|q: Seq<bool>| #[trigger] mm.contains_key(q) && q != e + cp_b implies apart(q, e + cp_b) by {
                    if q != cp_b {
                        assert(trees_b.contains_key(q));
                        let j = choose|j: int| 0 <= j < paths_b.len() && paths_b[j] == q;
                        assert(apart(paths_b[j], cp_b));
                    }
                }
                assert forall|q: Seq<bool>, kk: int| #[trigger] dd.contains_key((q, kk)) implies apart(q, e + cp_b) by {
                    assert(data0.contains_key((q, kk)));
                }
                if goes_left {
                    assert(*xv.left->0 == *final(curr));
                    assert(*xv.right->0 == *final(self.pending@.last().1));
                } else {
                    assert(*xv.right->0 == *final(curr));
                    assert(*xv.left->0 == *final(self.pending@.last().1));
                }
                assert(!trees_b.contains_key(cp_b));
                assert(self.trees@ == trees_b.insert(cp_b.push(goes_left), self.pending@.last().1));
                assert(cp == cp_b.push(!goes_left));
                lemma_finals_insert(trees_b, cp_b.push(goes_left), self.pending@.last().1);
                assert(mm.remove(cp_b) =~= trees_b.map_values(|r: &'b mut KdTree<T>| *final(r)));
                assert(e + cp_b == cp_b);
                let bb = trees_b.map_values(|r: &'b mut KdTree<T>| *final(r));
                let fcand = *final(self.pending@.last().1);
                let fnext = *final(curr);
                assert(cp_b.push(false) != cp_b.push(true)) by {
                    assert(cp_b.push(false)[cp_b.len() as int] != cp_b.push(true)[cp_b.len() as int]);
                }
                if goes_left {
                    assert(bb.insert(cp_b.push(false), *xv.left->0).insert(cp_b.push(true), *xv.right->0)
                        =~= bb.insert(cp_b.push(true), fcand).insert(cp_b.push(false), fnext));
                } else {
                    assert(bb.insert(cp_b.push(false), *xv.left->0).insert(cp_b.push(true), *xv.right->0)
                        =~= bb.insert(cp_b.push(false), fcand).insert(cp_b.push(true), fnext));
                }
                assert(mm.remove(e + cp_b).insert((e + cp_b).push(false), *xv.left->0).insert(
                    (e + cp_b).push(true),
                    *xv.right->0,
                ) =~= self.trees@.map_values(|r: &'b mut KdTree<T>| *final(r)).insert(cp, *final(curr)));
                lemma_open_stem(*final(root0), o, e, cp_b, mm, dd, xv);
            }
        }
        let ghost leaf = *curr;
        let ghost leaf_ref = curr;
        proof {
            leaf.lemma_leaf_entries();
        }
        let points: &'b Vec<Vec<i64>> = curr.points.as_ref().unwrap();
        let bucket: &'b mut Vec<T> = curr.bucket.as_mut().unwrap();
        let ghost bs = bucket@;
        let ghost z = zip_entries(points@, bs);
        let ghost n = points@.len() as int;
        proof {
            assert(z.subrange(0, n) =~= z);
            assert(leaf@ == z.to_multiset());
            assert(leaf.node_count() >= 1);
        }
        let mut rest: &'b mut [T] = bucket.as_mut_slice();
        let ghost slice0 = rest;
        let ghost e0 = self.evaluated@.len();
        let ghost ev_l = self.evaluated@;
        let ghost w_l = self.weighed@;
        let ghost data_l = self.data@;
        let ghost slots_l = self.slots@;
        let ghost paths_l = self.paths@;
        let ghost trees_l = self.trees@;
        let ghost pend_l = self.pending@;
        proof {
            assert(leaf == subtree_at(o, cp));
            assert(forall|j: int| 0 <= j < slots_l.len() ==> #[trigger] data_l.contains_key(slots_l[j])
                && data_l[slots_l[j]] == ev_l[j].1 && point_at(o, slots_l[j]) == w_l[j].0);
            assert forall|kk: int| !#[trigger] data_l.contains_key((cp, kk)) by {
                if data_l.contains_key((cp, kk)) {
                    assert(apart(cp, cp));
                    lemma_apart_ne(cp, cp);
                }
            }
        }
        let mut k: usize = 0;
        while k < points.len()
            invariant
                k <= points@.len(),
                self.origin@ == o,
                self.root@ == root0,
                final(slice0)@ == Seq::new(k as nat, |i: int| *final(self.evaluated@[e0 + i].1)) + final(rest)@,
                self.paths@ == paths_l,
                self.trees@ == trees_l,
                self.pending@ == pend_l,
                self.evaluated@.len() == e0 + k,
                self.slots@.len() == self.evaluated@.len(),
                forall|j: int| 0 <= j < e0 ==> #[trigger] self.slots@[j] == slots_l[j],
                forall|j: int| 0 <= j < e0 ==> #[trigger] self.evaluated@[j] == ev_l[j],
                forall|j: int| 0 <= j < e0 ==> #[trigger] self.weighed@[j] == w_l[j],
                forall|i: int| 0 <= i < k ==> #[trigger] self.slots@[e0 + i] == (cp, i),
                forall|q: Seq<bool>, kk: int|
                    #![trigger self.data@.contains_key((q, kk))]
                    #![trigger data_l.contains_key((q, kk))]
                    q != cp ==> (self.data@.contains_key((q, kk)) <==> data_l.contains_key((q, kk))) && (
                    data_l.contains_key((q, kk)) ==> self.data@[(q, kk)] == data_l[(q, kk)]),
                forall|kk: int| #[trigger] self.data@.contains_key((cp, kk)) <==> 0 <= kk < k,
                forall|i: int| 0 <= i < k ==> #[trigger] self.data@[(cp, i)] == self.evaluated@[e0 + i].1,
                forall|i: int| 0 <= i < k ==> #[trigger] self.weighed@[e0 + i] == z[i],
                z.len() == n,
                n == points@.len(),
                points@.len() == bs.len(),
                rest@ == bs.subrange(k as int, n),
                self.point@ == x,
                self.distance == f,
                self.dimensions == dims,
                self.weighed@.len() == self.evaluated@.len(),
                forall|i: int|
                    0 <= i < self.evaluated@.len() ==> (#[trigger] self.weighed@[i]).1
                        == *self.evaluated@[i].1 && measures(f, x, self.weighed@[i].0, self.evaluated@[i].0),
                open_nodes(self.pending@) < open_nodes(pending0),
                rem == open_entries(self.pending@).add(z.subrange(k as int, n).to_multiset()).add(
                    self.weighed@.to_multiset(),
                ),
                forall|i: int|
                    0 <= i < self.pending@.len() ==> (*(#[trigger] self.pending@[i]).1).wf()
                        && (*self.pending@[i].1).spec_dimensions() == dims && (metric(f, dims)
                        ==> no_closer_than((*self.pending@[i].1)@, f, x, self.pending@[i].0)),
            decreases points@.len() - k,
        {
            let p = points[k].as_slice();
            let d = (self.distance)(self.point, p);
            let ghost e = z[k as int];
            let ghost ev0 = self.evaluated@;
            let ghost w0 = self.weighed@;
            proof {
                lemma_call_measures(self.distance, self.point, p, d);
                assert(e == (points@[k as int]@, bs[k as int]));
                lemma_suffix_multiset(z, k as int);
            }
            let ghost rest_b = rest;
            let ghost fin_b = Seq::new(k as nat, |i: int| *final(self.evaluated@[e0 + i].1));
            let (head, tail) = rest.split_at_mut(1);
            let ghost head_ref = head;
            let bk: &'b mut T = head.first_mut().unwrap();
            rest = tail;
            proof {
                assert(*bk == bs[k as int]);
                assert(rest@ =~= bs.subrange(k + 1, n));
            }
            let ghost bk_ref = bk;
            let pair = (d, bk);
            self.evaluated.push(pair);
            proof {
                let sl0 = self.slots@;
                let dt0 = self.data@;
                self.slots@ = sl0.push((cp, k as int));
                self.data@ = dt0.insert((cp, k as int), self.evaluated@.last().1);
                assert(final(rest_b)@ == final(head_ref)@ + final(rest)@);
                assert(final(head_ref)@ =~= seq![*final(bk_ref)]);
                assert(self.evaluated@[e0 + k].1 == bk_ref);
                assert(Seq::new((k + 1) as nat, |i: int| *final(self.evaluated@[e0 + i].1)) =~= fin_b.push(
                    *final(bk_ref),
                )) by {
                    assert forall|i: int| 0 <= i < k implies #[trigger] self.evaluated@[e0 + i] == ev0[e0 + i] by {}
                }
                assert(final(slice0)@ =~= Seq::new((k + 1) as nat, |i: int| *final(self.evaluated@[e0 + i].1))
                    + final(rest)@);
                assert forall|j: int| 0 <= j < e0 implies #[trigger] self.slots@[j] == slots_l[j] by {
                    assert(self.slots@[j] == sl0[j]);
                }
                assert forall|j: int| 0 <= j < e0 implies #[trigger] self.evaluated@[j] == ev_l[j] by {
                    assert(self.evaluated@[j] == ev0[j]);
                }
                assert forall|i: int| 0 <= i < k + 1 implies #[trigger] self.slots@[e0 + i] == (cp, i) by {
                    if i < k {
                        assert(self.slots@[e0 + i] == sl0[e0 + i]);
                    }
                }
                assert forall|i: int| 0 <= i < k + 1 implies #[trigger] self.data@[(cp, i)]
                    == self.evaluated@[e0 + i].1 by {
                    if i < k {
                        assert(self.evaluated@[e0 + i] == ev0[e0 + i]);
                        assert(dt0.contains_key((cp, i)));
                    }
                }
                self.weighed@ = self.weighed@.push(e);
                assert forall|i: int| 0 <= i < self.evaluated@.len() implies (#[trigger] self.weighed@[i]).1
                    == *self.evaluated@[i].1 && measures(f, x, self.weighed@[i].0, self.evaluated@[i].0) by {
                    if i < ev0.len() {
                        assert(self.weighed@[i] == w0[i]);
                        assert(self.evaluated@[i] == ev0[i]);
                    }
                }
                assert(rem =~= open_entries(self.pending@).add(z.subrange(k + 1, n).to_multiset()).add(
                    self.weighed@.to_multiset(),
                ));
                assert forall|j: int| 0 <= j < e0 implies #[trigger] self.weighed@[j] == w_l[j] by {
                    assert(self.weighed@[j] == w0[j]);
                }
                assert forall|i: int| 0 <= i < k + 1 implies #[trigger] self.weighed@[e0 + i] == z[i] by {
                    if i < k {
                        assert(self.weighed@[e0 + i] == w0[e0 + i]);
                    }
                }
            }
            k += 1;
        }
        proof {
            assert(z.subrange(n, n).to_multiset() =~= Multiset::empty());
            assert(rem =~= self.remaining());
            assert forall|j: int| 0 <= j < self.slots@.len() implies #[trigger] self.data@.contains_key(self.slots@[j])
                && self.data@[self.slots@[j]] == self.evaluated@[j].1 && point_at(o, self.slots@[j])
                == self.weighed@[j].0 by {
                if j < e0 {
                    assert(self.slots@[j] == slots_l[j]);
                    assert(data_l.contains_key(slots_l[j]));
                    assert(apart(slots_l[j].0, cp));
                    lemma_apart_ne(slots_l[j].0, cp);
                } else {
                    let i = j - e0;
                    assert(self.slots@[e0 + i] == (cp, i));
                    assert(self.weighed@[e0 + i] == z[i]);
                    assert(point_at(o, (cp, i)) == leaf.points->0@[i]@);
                }
            }
            assert forall|i: int, q: Seq<bool>, kk: int|
                #![trigger self.paths@[i], self.data@.contains_key((q, kk))]
                0 <= i < self.paths@.len() && self.data@.contains_key((q, kk)) implies apart(self.paths@[i], q) by {
                assert(apart(paths_l[i], cp));
                if q != cp {
                    assert(data_l.contains_key((q, kk)));
                }
            }
            assert(self.holes_ok());
        }
        proof {
            let xv = *final(leaf_ref);
            let e: Seq<bool> = Seq::empty();
            assert(e + cp =~= cp);
            assert(final(rest)@.len() == 0);
            assert(xv.bucket is Some);
            assert(xv.bucket->0@ == final(slice0)@);
            assert(same_frame(xv, leaf));
            assert(xv.left == leaf.left && xv.right == leaf.right);
            let mm = trees_l.map_values(|r: &'b mut KdTree<T>| *final(r)).insert(cp, xv);
            let d1 = data_l.map_values(|r: &'b mut T| *final(r));
            let d2 = self.data@.map_values(|r: &'b mut T| *final(r));
            assert forall|q: Seq<bool>| #[trigger] mm.contains_key(q) && q != e + cp implies apart(q, e + cp) by {
                if q != cp {
                    assert(trees_l.contains_key(q));
                    let j = choose|j: int| 0 <= j < paths_l.len() && paths_l[j] == q;
                    assert(apart(paths_l[j], cp));
                }
            }
            assert forall|q: Seq<bool>, kk: int|
                #![trigger d2.contains_key((q, kk))]
                #![trigger d1.contains_key((q, kk))]
                q != e + cp implies (d2.contains_key((q, kk)) <==> d1.contains_key((q, kk))) && (d1.contains_key(
                (q, kk),
            ) ==> d2[(q, kk)] == d1[(q, kk)]) by {
                assert(self.data@.contains_key((q, kk)) <==> data_l.contains_key((q, kk)));
            }
            assert forall|kk: int| 0 <= kk < xv.bucket->0@.len() implies #[trigger] d2.contains_key((e + cp, kk))
                && d2[(e + cp, kk)] == xv.bucket->0@[kk] by {
                assert(self.data@.contains_key((cp, kk)));
                assert(self.data@[(cp, kk)] == self.evaluated@[e0 + kk].1);
            }
            assert(data0 == data_l);
            lemma_open_leaf(*final(root0), o, e, cp, mm, d1, d2, xv);
            assert(!trees_l.contains_key(cp)) by {
                if trees_l.contains_key(cp) {
                    let j = choose|j: int| 0 <= j < paths_l.len() && paths_l[j] == cp;
                    assert(apart(paths_l[j], cp));
                    lemma_apart_ne(paths_l[j], cp);
                }
            }
            assert(mm.remove(e + cp) =~= self.trees@.map_values(|r: &'b mut KdTree<T>| *final(r)));
        }
    }

    /// The nearest entry not yet handed out, with its distance and a mutable
    /// reference to its data; `None` once all are handed out. No entry is
    /// handed out twice.
    ///
    /// Under a distance for which no point of a box is closer than the box
    /// itself (see `metric`), no entry left is closer than the one returned.
    ///
    /// The reference handed out is the one held for the entry's slot, so
    /// what is written through it is what the tree holds there once the
    /// borrow ends (`settled`); once `None` is returned no subtree is held,
    /// and `lemma_settled_entries` gives the whole tree.
    #[verifier::rlimit(40)]
    pub fn next(&mut self) -> (res: Option<(u64, &'b mut T)>)
        requires
            old(self).wf(),
            settled(
                *final(old(self).root()),
                old(self).origin(),
                Seq::empty(),
                old(self).held_trees().map_values(|r: &'b mut KdTree<T>| *final(r)),
                old(self).held_data().map_values(|r: &'b mut T| *final(r)),
            ),
        ensures
            final(self).wf(),
            final(self).root() == old(self).root(),
            final(self).origin() == old(self).origin(),
            settled(
                *final(final(self).root()),
                final(self).origin(),
                Seq::empty(),
                final(self).held_trees().map_values(|r: &'b mut KdTree<T>| *final(r)),
                final(self).held_data().map_values(|r: &'b mut T| *final(r)),
            ),
            res is None ==> final(self).held_trees() == Map::<Seq<bool>, &'b mut KdTree<T>>::empty(),
            res matches Some((d, t)) ==> exists|slot: (Seq<bool>, int)|
                #[trigger] final(self).held_data().contains_key(slot) && final(self).held_data()[slot] == t && (
                old(self).remaining().count((point_at(old(self).origin(), slot), *t)) > 0),
            final(self).spec_point() == old(self).spec_point(),
            final(self).spec_distance() == old(self).spec_distance(),
            final(self).spec_dimensions() == old(self).spec_dimensions(),
            match res {
                None => old(self).remaining().len() == 0 && final(self).remaining() == old(self).remaining(),
                Some((d, t)) => exists|e: (Seq<i64>, T)|
                    #[trigger] old(self).remaining().count(e) > 0 && e.1 == *t && measures(
                        old(self).spec_distance(),
                        old(self).spec_point(),
                        e.0,
                        d,
                    ) && final(self).remaining() == old(self).remaining().remove(e) && (metric(
                        old(self).spec_distance(),
                        old(self).spec_dimensions(),
                    ) ==> no_closer_than(
                        final(self).remaining(),
                        old(self).spec_distance(),
                        old(self).spec_point(),
                        d,
                    )),
            },
    {
        let ghost rem = self.remaining();
        let ghost x = self.point@;
        let ghost f = self.distance;
        let ghost dims = self.dimensions as nat;
        let ghost r0 = self.root@;
        let ghost o = self.origin@;
        loop
            invariant
                self.wf(),
                self.root@ == r0,
                self.origin@ == o,
                settled(*final(r0), o, Seq::empty(), self.trees@.map_values(|r: &'b mut KdTree<T>| *final(r)), self.data@.map_values(|r: &'b mut T| *final(r))),
                self.remaining() == rem,
                self.point@ == x,
                self.distance == f,
                self.dimensions == dims,
            ensures
                self.wf(),
                self.root@ == r0,
                self.origin@ == o,
                settled(*final(r0), o, Seq::empty(), self.trees@.map_values(|r: &'b mut KdTree<T>| *final(r)), self.data@.map_values(|r: &'b mut T| *final(r))),
                self.remaining() == rem,
                self.point@ == x,
                self.distance == f,
                self.dimensions == dims,
                self.pending@.len() == 0 || (self.evaluated@.len() > 0 && forall|i: int, j: int|
                    0 <= i < self.pending@.len() && 0 <= j < self.evaluated@.len()
                        ==> #[trigger] self.evaluated@[j].0 < #[trigger] self.pending@[i].0 || exists|k: int|
                        0 <= k < self.evaluated@.len() && #[trigger] self.evaluated@[k].0 < self.pending@[i].0),
            decreases open_nodes(self.pending@),
        {
            if self.pending.len() == 0 {
                break ;
            }
            let pi = crate::kdtree::query::min_index(&self.pending);
            let pm = self.pending[pi].0;
            if self.evaluated.len() > 0 {
                let ei = crate::kdtree::query::min_index(&self.evaluated);
                if self.evaluated[ei].0 < pm {
                    assert forall|i: int, j: int|
                        0 <= i < self.pending@.len() && 0 <= j < self.evaluated@.len()
                        implies #[trigger] self.evaluated@[j].0 < #[trigger] self.pending@[i].0 || exists|k: int|
                        0 <= k < self.evaluated@.len() && #[trigger] self.evaluated@[k].0 < self.pending@[i].0 by {
                        assert(self.pending@[pi as int].0 <= self.pending@[i].0);
                        assert(self.evaluated@[ei as int].0 < self.pending@[i].0);
                    }
                    break ;
                }
            }
            self.expand();
        }
        if self.evaluated.len() == 0 {
            proof {
                assert(self.paths@.len() == 0);
                assert(self.trees@ =~= Map::<Seq<bool>, &'b mut KdTree<T>>::empty()) by {
                    assert forall|q: Seq<bool>| !#[trigger] self.trees@.contains_key(q) by {
                        if self.trees@.contains_key(q) {
                            let i = choose|i: int| 0 <= i < self.paths@.len() && self.paths@[i] == q;
                        }
                    }
                }
                assert(open_entries(self.pending@) =~= Multiset::empty());
                assert(self.weighed@.to_multiset() =~= Multiset::empty());
            }
            return None;
        }
        let i = crate::kdtree::query::min_index(&self.evaluated);
        let ghost ev0 = self.evaluated@;
        let ghost w0 = self.weighed@;
        let ghost e = w0[i as int];
        let ghost sl0 = self.slots@;
        proof {
            assert(sl0.len() == ev0.len());
            assert(forall|j: int| 0 <= j < sl0.len() ==> #[trigger] self.data@.contains_key(sl0[j])
                && self.data@[sl0[j]] == ev0[j].1 && point_at(self.origin@, sl0[j]) == w0[j].0);
        }
        let pair = self.evaluated.remove(i);
        let d = pair.0;
        proof {
            self.slots@ = sl0.remove(i as int);
            assert forall|j: int| 0 <= j < self.slots@.len() implies #[trigger] self.data@.contains_key(
                self.slots@[j],
            ) && self.data@[self.slots@[j]] == self.evaluated@[j].1 && point_at(self.origin@, self.slots@[j])
                == w0.remove(i as int)[j].0 by {
                let jj = if j < i { j } else { j + 1 };
                assert(self.slots@[j] == sl0[jj]);
                assert(self.evaluated@[j] == ev0[jj]);
                assert(w0.remove(i as int)[j] == w0[jj]);
                assert(self.data@.contains_key(sl0[jj]));
            }
            self.weighed@ = w0.remove(i as int);
            assert forall|k: int| 0 <= k < self.evaluated@.len() implies (#[trigger] self.weighed@[k]).1
                == *self.evaluated@[k].1 && measures(f, x, self.weighed@[k].0, self.evaluated@[k].0) by {
                if k < i {
                    assert(self.weighed@[k] == w0[k] && self.evaluated@[k] == ev0[k]);
                } else {
                    assert(self.weighed@[k] == w0[k + 1] && self.evaluated@[k] == ev0[k + 1]);
                }
            }
            assert(w0.contains(e));
            assert(rem.count(e) > 0);
            assert(self.remaining() =~= rem.remove(e));
            if metric(f, dims) {
                assert forall|e2: (Seq<i64>, T), d2: u64|
                    #![trigger self.remaining().count(e2), measures(f, x, e2.0, d2)]
                    self.remaining().count(e2) > 0 && measures(f, x, e2.0, d2) implies d <= d2 by {
                    if self.weighed@.to_multiset().count(e2) > 0 {
                        assert(self.weighed@.contains(e2));
                        let k = choose|k: int| 0 <= k < self.weighed@.len() && self.weighed@[k] == e2;
                        let kk = if k < i {
                            k
                        } else {
                            k + 1
                        };
                        assert(self.evaluated@[k] == ev0[kk]);
                        assert(ev0[i as int].0 <= ev0[kk].0);
                        crate::metric::lemma_measure_unique(f, dims, x, e2.0, d2, ev0[kk].0);
                    } else {
                        assert(open_entries(self.pending@).count(e2) > 0);
                        let p = lemma_open_member(self.pending@, e2);
                        assert(no_closer_than((*self.pending@[p].1)@, f, x, self.pending@[p].0));
                        assert(self.pending@[p].0 <= d2);
                        if !(ev0[i as int].0 < self.pending@[p].0) {
                            let k = choose|k: int|
                                0 <= k < ev0.len() && #[trigger] ev0[k].0 < self.pending@[p].0;
                            assert(ev0[i as int].0 <= ev0[k].0);
                        }
                    }
                }
            }
        }
        proof {
            let slot = sl0[i as int];
            assert(self.held_data().contains_key(slot) && self.held_data()[slot] == ev0[i as int].1);
            assert(point_at(o, slot) == e.0);
            assert(e.1 == *ev0[i as int].1);
            assert(rem.count((point_at(o, slot), *ev0[i as int].1)) > 0);
        }
        Some(pair)
    }
}

impl<T> KdTree<T> {
    /// An iterator over the entries in order of distance from `point` under
    /// `distance`, nearest first, handing out mutable references to the data.
    /// A refused point leaves the tree as it was; otherwise the tree, once
    /// the borrow ends, is what `settled` makes of it from the references
    /// the iterator holds and hands out.
    pub fn iter_nearest_mut<'a, 'b, F: Fn(&[i64], &[i64]) -> u64>(
        &'b mut self,
        point: &'a [i64],
        distance: &'a F,
    ) -> (res: Result<NearestIterMut<'a, 'b, T, F>, ErrorKind>)
        requires
            old(self).wf(),
            total(distance),
        ensures
            match point_error(old(self).spec_dimensions(), point@) {
                Some(e) => res is Err && res->Err_0 == e,
                None => res is Ok,
            },
            res is Err ==> *final(self) == *old(self),
            res matches Ok(it) ==> {
                &&& it.wf()
                &&& it.remaining() == old(self)@
                &&& it.spec_point() == point@
                &&& it.spec_distance() == distance
                &&& it.spec_dimensions() == old(self).spec_dimensions()
                &&& it.origin() == *old(self)
                &&& *final(it.root()) == *final(self)
                &&& settled(*final(it.root()), it.origin(), Seq::empty(), it.held_trees().map_values(|r: &'b mut KdTree<T>| *final(r)), it.held_data().map_values(|r: &'b mut T| *final(r)))
            },
    {
        if let Err(err) = self.check_point(point) {
            return Err(err);
        }
        let ghost t0 = *self;
        let dimensions = self.dimensions;
        let mut pending: Vec<(u64, &'b mut KdTree<T>)> = Vec::new();
        let evaluated: Vec<(u64, &'b mut T)> = Vec::new();
        pending.push((0, self));
        proof {
            lemma_open_last(pending@);
            assert(pending@.drop_last() =~= Seq::empty());
            assert(*pending@[0].1 == t0);
        }
        let ghost r0 = pending@[0].1;
        let mut it = NearestIterMut {
            point,
            pending,
            evaluated,
            distance,
            dimensions,
            weighed: Ghost(Seq::empty()),
            root: Ghost(r0),
            origin: Ghost(t0),
            paths: Ghost(Seq::empty().push(Seq::empty())),
            trees: Ghost(Map::empty()),
            slots: Ghost(Seq::empty()),
            data: Ghost(Map::empty()),
        };
        proof {
            it.trees@ = Map::empty().insert(Seq::<bool>::empty(), it.pending@[0].1);
            assert(it.weighed@.to_multiset() =~= Multiset::empty());
            assert(it.remaining() =~= t0@);
            assert(subtree_at(t0, Seq::<bool>::empty()) == t0);
            assert(it.paths@[0] == Seq::<bool>::empty());
            assert forall|q: Seq<bool>| #[trigger] it.trees@.contains_key(q) implies exists|i: int|
                0 <= i < it.paths@.len() && it.paths@[i] == q by {
                assert(it.paths@[0] == q);
            }
            assert(it.holes_ok());
            assert(it.trees@.map_values(|r: &'b mut KdTree<T>| *final(r)) =~= Map::empty().insert(Seq::<bool>::empty(), *final(r0)));
        }
        Ok(it)
    }
}

} // verus!
