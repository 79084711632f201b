use vstd::prelude::*;
use vstd::multiset::Multiset;

use crate::kdtree::best::{best_result, picked_within, rest_not_better, within_radius};
use crate::kdtree::query::{
    all_beyond, chosen, nearest_result, no_closer_than, rest_no_closer, sorted_by_distance, within_result,
};
use crate::kdtree::without_point;
use crate::metric::{lemma_measure_unique, measures, metric};
use crate::order::{ordered, precedes};

verus! {

broadcast use vstd::multiset::group_multiset_axioms, vstd::seq_lib::group_to_multiset_ensures;

/// Removing the entries at a point undoes adding an entry there, when the
/// tree held none: the tree is as before and one entry is reported removed.
pub proof fn law_remove_undoes_add<T>(m: Multiset<(Seq<i64>, T)>, p: Seq<i64>, d: T)
    requires
        forall|e: (Seq<i64>, T)| #[trigger] m.count(e) > 0 ==> e.0 != p,
    ensures
        without_point(m.insert((p, d)), p) == m,
        m.insert((p, d)).len() - without_point(m.insert((p, d)), p).len() == 1,
{
    assert(without_point(m.insert((p, d)), p) =~= m);
}

/// Removing the entries at a point a second time removes nothing.
pub proof fn law_remove_idempotent<T>(m: Multiset<(Seq<i64>, T)>, p: Seq<i64>)
    ensures
        without_point(without_point(m, p), p) == without_point(m, p),
{
    assert(without_point(without_point(m, p), p) =~= without_point(m, p));
}

/// A sub-multiset as large as the multiset is the multiset.
proof fn lemma_subset_same_len<A>(s: Multiset<A>, m: Multiset<A>)
    requires
        s.subset_of(m),
        s.len() == m.len(),
    ensures
        s == m,
{
    let r = m.sub(s);
    assert(m =~= s.add(r));
    assert(r.len() == 0);
    assert(s =~= m) by {
        assert forall|a: A| s.count(a) == m.count(a) by {
            if r.count(a) > 0 {
                assert(r.len() > 0);
            }
        }
    }
}

/// Asking `nearest` for at least as many entries as the tree holds returns
/// every entry of the tree.
pub proof fn law_nearest_returns_all<'a, T, F: Fn(&[i64], &[i64]) -> u64>(
    m: Multiset<(Seq<i64>, T)>,
    f: &F,
    x: Seq<i64>,
    num: nat,
    dims: nat,
    v: Seq<(u64, &'a T)>,
)
    requires
        nearest_result(m, f, x, num, dims, v),
        num >= m.len(),
    ensures
        v.len() == m.len(),
        forall|sel: Seq<(Seq<i64>, T)>| #[trigger] chosen(m, f, x, v, sel) ==> sel.to_multiset() == m,
{
    assert forall|sel: Seq<(Seq<i64>, T)>| #[trigger] chosen(m, f, x, v, sel) implies sel.to_multiset()
        == m by {
        lemma_subset_same_len(sel.to_multiset(), m);
    }
}

/// A sub-multiset is no larger than the multiset.
proof fn lemma_subset_len<A>(s: Multiset<A>, m: Multiset<A>)
    requires
        s.subset_of(m),
    ensures
        s.len() <= m.len(),
{
    let r = m.sub(s);
    assert(m =~= s.add(r));
}

/// Under a metric, the distance at position `i` of one answer is at least
/// that of another answer, sorted, whose left-out entries are no closer than
/// any of its results.
proof fn lemma_rank_bound<'a, 'b, T, F: Fn(&[i64], &[i64]) -> u64>(
    m: Multiset<(Seq<i64>, T)>,
    f: &F,
    x: Seq<i64>,
    dims: nat,
    va: Seq<(u64, &'a T)>,
    sela: Seq<(Seq<i64>, T)>,
    vb: Seq<(u64, &'b T)>,
    selb: Seq<(Seq<i64>, T)>,
    i: int,
)
    requires
        metric(f, dims),
        chosen(m, f, x, va, sela),
        sorted_by_distance(va),
        chosen(m, f, x, vb, selb),
        sorted_by_distance(vb),
        rest_no_closer(m, f, x, vb, selb),
        0 <= i < va.len(),
        i < vb.len(),
    ensures
        vb[i].0 <= va[i].0,
{
    if va[i].0 < vb[i].0 {
        let a = va[i].0;
        let b = vb[i].0;
        let s1 = sela.subrange(0, i + 1).to_multiset();
        let bi = selb.subrange(0, i).to_multiset();
        let rest_b = selb.subrange(i, selb.len() as int).to_multiset();
        let rest_a = sela.subrange(i + 1, sela.len() as int).to_multiset();
        assert(selb =~= selb.subrange(0, i) + selb.subrange(i, selb.len() as int));
        vstd::seq_lib::lemma_multiset_commutative(selb.subrange(0, i), selb.subrange(i, selb.len() as int));
        assert(sela =~= sela.subrange(0, i + 1) + sela.subrange(i + 1, sela.len() as int));
        vstd::seq_lib::lemma_multiset_commutative(sela.subrange(0, i + 1), sela.subrange(i + 1, sela.len() as int));
        if s1.subset_of(bi) {
            lemma_subset_len(s1, bi);
            assert(false);
        }
        let e = choose|e: (Seq<i64>, T)| s1.count(e) > bi.count(e);
        assert(s1.count(e) > bi.count(e));
        assert(sela.subrange(0, i + 1).contains(e));
        let k = choose|k: int| 0 <= k < i + 1 && #[trigger] sela.subrange(0, i + 1)[k] == e;
        assert(sela[k] == e);
        let dk = va[k].0;
        assert(measures(f, x, e.0, dk));
        assert(dk <= a);
        if rest_b.count(e) > 0 {
            assert(selb.subrange(i, selb.len() as int).contains(e));
            let j = choose|j: int| 0 <= j < selb.len() - i && #[trigger] selb.subrange(i, selb.len() as int)[j] == e;
            assert(selb[i + j] == e);
            assert(measures(f, x, e.0, vb[i + j].0));
            lemma_measure_unique(f, dims, x, e.0, dk, vb[i + j].0);
            assert(b <= vb[i + j].0);
            assert(false);
        }
        assert(selb.to_multiset().count(e) == bi.count(e));
        assert(sela.to_multiset().count(e) >= s1.count(e));
        assert(m.count(e) >= sela.to_multiset().count(e));
        assert(m.sub(selb.to_multiset()).count(e) > 0);
        assert(no_closer_than(m.sub(selb.to_multiset()), f, x, vb[i].0));
        assert(b <= dk);
    }
}

/// Asking `nearest` for fewer entries gives a prefix of a larger answer,
/// by distance: under a metric, the distance of the `i`-th nearest result
/// does not depend on how many results are asked for.
pub proof fn law_nearest_prefix<'a, 'b, T, F: Fn(&[i64], &[i64]) -> u64>(
    m: Multiset<(Seq<i64>, T)>,
    f: &F,
    x: Seq<i64>,
    n1: nat,
    n2: nat,
    dims: nat,
    v1: Seq<(u64, &'a T)>,
    v2: Seq<(u64, &'b T)>,
)
    requires
        nearest_result(m, f, x, n1, dims, v1),
        nearest_result(m, f, x, n2, dims, v2),
        n1 <= n2,
        metric(f, dims),
    ensures
        v1.len() <= v2.len(),
        forall|i: int| 0 <= i < v1.len() ==> (#[trigger] v1[i]).0 == v2[i].0,
{
    let sel1 = choose|sel: Seq<(Seq<i64>, T)>|
        #[trigger] chosen(m, f, x, v1, sel) && (metric(f, dims) ==> rest_no_closer(m, f, x, v1, sel));
    let sel2 = choose|sel: Seq<(Seq<i64>, T)>|
        #[trigger] chosen(m, f, x, v2, sel) && (metric(f, dims) ==> rest_no_closer(m, f, x, v2, sel));
    assert forall|i: int| 0 <= i < v1.len() implies (#[trigger] v1[i]).0 == v2[i].0 by {
        lemma_rank_bound(m, f, x, dims, v1, sel1, v2, sel2, i);
        lemma_rank_bound(m, f, x, dims, v2, sel2, v1, sel1, i);
    }
}

/// Of the first `n + 1` entries of `sela`, drawn from `m`, one is left out
/// of `m` by `selb` when `selb` has no more than `n` entries.
proof fn lemma_one_escapes<T>(m: Multiset<(Seq<i64>, T)>, sela: Seq<(Seq<i64>, T)>, selb: Seq<(Seq<i64>, T)>, n: int) -> (k: int)
    requires
        sela.to_multiset().subset_of(m),
        0 <= n < sela.len(),
        selb.len() <= n,
    ensures
        0 <= k <= n,
        m.sub(selb.to_multiset()).count(sela[k]) > 0,
{
    let s1 = sela.subrange(0, n + 1).to_multiset();
    let sb = selb.to_multiset();
    assert(sela =~= sela.subrange(0, n + 1) + sela.subrange(n + 1, sela.len() as int));
    vstd::seq_lib::lemma_multiset_commutative(sela.subrange(0, n + 1), sela.subrange(n + 1, sela.len() as int));
    if s1.subset_of(sb) {
        lemma_subset_len(s1, sb);
        assert(false);
    }
    let e = choose|e: (Seq<i64>, T)| s1.count(e) > sb.count(e);
    assert(s1.count(e) > sb.count(e));
    assert(sela.subrange(0, n + 1).contains(e));
    let k = choose|k: int| 0 <= k < n + 1 && #[trigger] sela.subrange(0, n + 1)[k] == e;
    assert(sela[k] == e);
    assert(sela.to_multiset().count(e) >= s1.count(e));
    k
}

/// The entries left out of an answer of `within` are no closer than any of
/// its results.
proof fn lemma_within_rest<'a, T, F: Fn(&[i64], &[i64]) -> u64>(
    m: Multiset<(Seq<i64>, T)>,
    f: &F,
    x: Seq<i64>,
    radius: u64,
    v: Seq<(u64, &'a T)>,
    sel: Seq<(Seq<i64>, T)>,
)
    requires
        forall|i: int| 0 <= i < v.len() ==> (#[trigger] v[i]).0 <= radius,
        all_beyond(m.sub(sel.to_multiset()), f, x, radius),
    ensures
        rest_no_closer(m, f, x, v, sel),
{
    assert forall|i: int| 0 <= i < v.len() implies no_closer_than(m.sub(sel.to_multiset()), f, x, #[trigger] v[i].0) by {
        assert(v[i].0 <= radius);
    }
}

/// Widening the radius of `within` keeps every result: under a metric, the
/// answer for the smaller radius is, by distance, a prefix of that for the
/// larger one.
pub proof fn law_within_monotone<'a, 'b, T, F: Fn(&[i64], &[i64]) -> u64>(
    m: Multiset<(Seq<i64>, T)>,
    f: &F,
    x: Seq<i64>,
    r1: u64,
    r2: u64,
    dims: nat,
    v1: Seq<(u64, &'a T)>,
    v2: Seq<(u64, &'b T)>,
)
    requires
        within_result(m, f, x, r1, dims, v1),
        within_result(m, f, x, r2, dims, v2),
        r1 <= r2,
        metric(f, dims),
    ensures
        v1.len() <= v2.len(),
        forall|i: int| 0 <= i < v1.len() ==> (#[trigger] v1[i]).0 == v2[i].0,
{
    let sel1 = choose|sel: Seq<(Seq<i64>, T)>|
        #[trigger] chosen(m, f, x, v1, sel) && (metric(f, dims) ==> all_beyond(m.sub(sel.to_multiset()), f, x, r1));
    let sel2 = choose|sel: Seq<(Seq<i64>, T)>|
        #[trigger] chosen(m, f, x, v2, sel) && (metric(f, dims) ==> all_beyond(m.sub(sel.to_multiset()), f, x, r2));
    if v1.len() > v2.len() {
        let k = lemma_one_escapes(m, sel1, sel2, v2.len() as int);
        assert(measures(f, x, sel1[k].0, v1[k].0));
        assert(v1[k].0 <= r1);
    }
    lemma_within_rest(m, f, x, r1, v1, sel1);
    lemma_within_rest(m, f, x, r2, v2, sel2);
    assert forall|i: int| 0 <= i < v1.len() implies (#[trigger] v1[i]).0 == v2[i].0 by {
        lemma_rank_bound(m, f, x, dims, v1, sel1, v2, sel2, i);
        lemma_rank_bound(m, f, x, dims, v2, sel2, v1, sel1, i);
    }
}

/// `within` answers what `nearest` does when asked for every entry, cut at
/// the radius: under a metric, its distances are the first ones of that
/// answer, and the next one, if any, lies beyond the radius.
pub proof fn law_within_is_nearest_cut<'a, 'b, T, F: Fn(&[i64], &[i64]) -> u64>(
    m: Multiset<(Seq<i64>, T)>,
    f: &F,
    x: Seq<i64>,
    radius: u64,
    dims: nat,
    v1: Seq<(u64, &'a T)>,
    v2: Seq<(u64, &'b T)>,
)
    requires
        within_result(m, f, x, radius, dims, v1),
        nearest_result(m, f, x, m.len(), dims, v2),
        metric(f, dims),
    ensures
        v1.len() <= v2.len(),
        forall|i: int| 0 <= i < v1.len() ==> (#[trigger] v1[i]).0 == v2[i].0,
        v1.len() < v2.len() ==> radius < v2[v1.len() as int].0,
{
    let sel1 = choose|sel: Seq<(Seq<i64>, T)>|
        #[trigger] chosen(m, f, x, v1, sel) && (metric(f, dims) ==> all_beyond(m.sub(sel.to_multiset()), f, x, radius));
    let sel2 = choose|sel: Seq<(Seq<i64>, T)>|
        #[trigger] chosen(m, f, x, v2, sel) && (metric(f, dims) ==> rest_no_closer(m, f, x, v2, sel));
    lemma_subset_len(sel1.to_multiset(), m);
    lemma_within_rest(m, f, x, radius, v1, sel1);
    assert forall|i: int| 0 <= i < v1.len() implies (#[trigger] v1[i]).0 == v2[i].0 by {
        lemma_rank_bound(m, f, x, dims, v1, sel1, v2, sel2, i);
        lemma_rank_bound(m, f, x, dims, v2, sel2, v1, sel1, i);
    }
    let n = v1.len() as int;
    if n < v2.len() && v2[n].0 <= radius {
        let k = lemma_one_escapes(m, sel2, sel1, n);
        assert(measures(f, x, sel2[k].0, v2[k].0));
        assert(v2[k].0 <= v2[n].0);
    }
}

/// Entries taken one at a time, each measured no farther than every entry
/// left after it (what each step of `iter_nearest` promises), make up an
/// answer of `nearest` for as many entries: under a metric, `k` steps of the
/// iterator give the `k` nearest entries, nearest first.
pub proof fn law_iterator_steps_are_nearest<'a, T, F: Fn(&[i64], &[i64]) -> u64>(
    m: Multiset<(Seq<i64>, T)>,
    f: &F,
    x: Seq<i64>,
    dims: nat,
    v: Seq<(u64, &'a T)>,
    sel: Seq<(Seq<i64>, T)>,
)
    requires
        metric(f, dims),
        sel.len() == v.len(),
        sel.to_multiset().subset_of(m),
        forall|i: int| 0 <= i < v.len() ==> (#[trigger] sel[i]).1 == *v[i].1 && measures(f, x, sel[i].0, v[i].0),
        forall|i: int|
            0 <= i < v.len() ==> no_closer_than(m.sub(sel.take(i + 1).to_multiset()), f, x, #[trigger] v[i].0),
    ensures
        nearest_result(m, f, x, v.len(), dims, v),
        v.len() == m.len() ==> sel.to_multiset() == m,
{
    let ds = Seq::new(v.len(), |i: int| v[i].0);
    assert forall|i: int| 0 <= i < ds.len() implies no_closer_than(
        m.sub(sel.take(i + 1).to_multiset()),
        f,
        x,
        #[trigger] ds[i],
    ) by {
        assert(no_closer_than(m.sub(sel.take(i + 1).to_multiset()), f, x, v[i].0));
    }
    law_steps_in_order(m, f, x, dims, ds, sel);
    assert forall|i: int, j: int| 0 <= i < j < v.len() implies v[i].0 <= v[j].0 by {
        assert(ds[i] <= ds[j]);
    }
    assert forall|i: int| 0 <= i < v.len() implies no_closer_than(m.sub(sel.to_multiset()), f, x, #[trigger] v[i].0) by {
        let t = sel.take(i + 1);
        assert(sel =~= t + sel.subrange(i + 1, sel.len() as int));
        vstd::seq_lib::lemma_multiset_commutative(t, sel.subrange(i + 1, sel.len() as int));
        assert(no_closer_than(m.sub(t.to_multiset()), f, x, v[i].0));
        assert forall|e: (Seq<i64>, T), d: u64|
            #![trigger m.sub(sel.to_multiset()).count(e), measures(f, x, e.0, d)]
            m.sub(sel.to_multiset()).count(e) > 0 && measures(f, x, e.0, d) implies v[i].0 <= d by {
            assert(m.sub(t.to_multiset()).count(e) > 0);
        }
    }
    assert(rest_no_closer(m, f, x, v, sel));
    assert(chosen(m, f, x, v, sel));
}

/// Entries taken one at a time from `m`, each measured no farther than every
/// entry left after it (what each step of `iter_nearest` and of
/// `iter_nearest_mut` promises), come in order of distance, each entry at
/// most once; once as many are taken as `m` holds, every entry of `m` was
/// taken exactly once.
pub proof fn law_steps_in_order<T, F: Fn(&[i64], &[i64]) -> u64>(
    m: Multiset<(Seq<i64>, T)>,
    f: &F,
    x: Seq<i64>,
    dims: nat,
    ds: Seq<u64>,
    sel: Seq<(Seq<i64>, T)>,
)
    requires
        metric(f, dims),
        sel.len() == ds.len(),
        sel.to_multiset().subset_of(m),
        forall|i: int| 0 <= i < ds.len() ==> measures(f, x, (#[trigger] sel[i]).0, ds[i]),
        forall|i: int|
            0 <= i < ds.len() ==> no_closer_than(m.sub(sel.take(i + 1).to_multiset()), f, x, #[trigger] ds[i]),
    ensures
        forall|i: int, j: int| 0 <= i < j < ds.len() ==> ds[i] <= ds[j],
        ds.len() <= m.len(),
        ds.len() == m.len() ==> sel.to_multiset() == m,
{
    lemma_subset_len(sel.to_multiset(), m);
    if ds.len() == m.len() {
        lemma_subset_same_len(sel.to_multiset(), m);
    }
    assert forall|i: int, j: int| 0 <= i < j < ds.len() implies ds[i] <= ds[j] by {
        let t = sel.take(i + 1);
        let u = sel.subrange(i + 1, j + 1);
        assert(sel.take(j + 1) =~= t + u);
        vstd::seq_lib::lemma_multiset_commutative(t, u);
        assert(sel =~= sel.take(j + 1) + sel.subrange(j + 1, sel.len() as int));
        vstd::seq_lib::lemma_multiset_commutative(sel.take(j + 1), sel.subrange(j + 1, sel.len() as int));
        assert(u[j - i - 1] == sel[j]);
        assert(u.contains(sel[j]));
        assert(m.sub(t.to_multiset()).count(sel[j]) > 0);
        assert(no_closer_than(m.sub(sel.take(i + 1).to_multiset()), f, x, ds[i]));
        assert(measures(f, x, sel[j].0, ds[j]));
    }
}

/// Under a metric, the entries behind an answer of `within` are exactly the
/// entries of `m` within the radius.
proof fn lemma_within_entries<'a, T, F: Fn(&[i64], &[i64]) -> u64>(
    m: Multiset<(Seq<i64>, T)>,
    f: &F,
    x: Seq<i64>,
    radius: u64,
    dims: nat,
    v: Seq<(u64, &'a T)>,
    sel: Seq<(Seq<i64>, T)>,
)
    requires
        metric(f, dims),
        chosen(m, f, x, v, sel),
        forall|i: int| 0 <= i < v.len() ==> (#[trigger] v[i]).0 <= radius,
        all_beyond(m.sub(sel.to_multiset()), f, x, radius),
    ensures
        sel.to_multiset() == m.filter(|e: (Seq<i64>, T)| within_radius(f, x, e.0, radius)),
{
    let w = m.filter(|e: (Seq<i64>, T)| within_radius(f, x, e.0, radius));
    assert forall|e: (Seq<i64>, T)| sel.to_multiset().count(e) == w.count(e) by {
        if within_radius(f, x, e.0, radius) {
            let d0 = choose|d: u64| #[trigger] measures(f, x, e.0, d) && d <= radius;
            if m.sub(sel.to_multiset()).count(e) > 0 {
                assert(radius < d0);
            }
        } else if sel.to_multiset().count(e) > 0 {
            assert(sel.contains(e));
            let i = choose|i: int| 0 <= i < sel.len() && sel[i] == e;
            assert(measures(f, x, sel[i].0, v[i].0));
            assert(within_radius(f, x, e.0, radius));
        }
    }
    assert(sel.to_multiset() =~= w);
}

/// Under a metric, the entries behind an answer of `within` for a smaller
/// radius are those behind an answer for a larger one that lie within the
/// smaller radius.
pub proof fn law_within_entries_nest<'a, 'b, T, F: Fn(&[i64], &[i64]) -> u64>(
    m: Multiset<(Seq<i64>, T)>,
    f: &F,
    x: Seq<i64>,
    r1: u64,
    r2: u64,
    dims: nat,
    v1: Seq<(u64, &'a T)>,
    sel1: Seq<(Seq<i64>, T)>,
    v2: Seq<(u64, &'b T)>,
    sel2: Seq<(Seq<i64>, T)>,
)
    requires
        metric(f, dims),
        r1 <= r2,
        within_result(m, f, x, r1, dims, v1),
        chosen(m, f, x, v1, sel1),
        all_beyond(m.sub(sel1.to_multiset()), f, x, r1),
        within_result(m, f, x, r2, dims, v2),
        chosen(m, f, x, v2, sel2),
        all_beyond(m.sub(sel2.to_multiset()), f, x, r2),
    ensures
        sel1.to_multiset() == sel2.to_multiset().filter(|e: (Seq<i64>, T)| within_radius(f, x, e.0, r1)),
{
    lemma_within_entries(m, f, x, r1, dims, v1, sel1);
    lemma_within_entries(m, f, x, r2, dims, v2, sel2);
    assert forall|e: (Seq<i64>, T)| within_radius(f, x, e.0, r1) implies within_radius(f, x, e.0, r2) by {
        let d0 = choose|d: u64| #[trigger] measures(f, x, e.0, d) && d <= r1;
        assert(measures(f, x, e.0, d0) && d0 <= r2);
    }
    assert(sel1.to_multiset() =~= sel2.to_multiset().filter(|e: (Seq<i64>, T)| within_radius(f, x, e.0, r1)));
}

/// Under a metric, the entries behind an answer of `within` are those behind
/// an answer of `nearest` for every entry that lie within the radius.
pub proof fn law_within_entries_of_nearest<'a, 'b, T, F: Fn(&[i64], &[i64]) -> u64>(
    m: Multiset<(Seq<i64>, T)>,
    f: &F,
    x: Seq<i64>,
    radius: u64,
    dims: nat,
    v1: Seq<(u64, &'a T)>,
    sel1: Seq<(Seq<i64>, T)>,
    v2: Seq<(u64, &'b T)>,
    sel2: Seq<(Seq<i64>, T)>,
)
    requires
        metric(f, dims),
        within_result(m, f, x, radius, dims, v1),
        chosen(m, f, x, v1, sel1),
        all_beyond(m.sub(sel1.to_multiset()), f, x, radius),
        nearest_result(m, f, x, m.len(), dims, v2),
        chosen(m, f, x, v2, sel2),
    ensures
        sel1.to_multiset() == sel2.to_multiset().filter(|e: (Seq<i64>, T)| within_radius(f, x, e.0, radius)),
{
    lemma_within_entries(m, f, x, radius, dims, v1, sel1);
    lemma_subset_same_len(sel2.to_multiset(), m);
}


/// The data of the entries of `s` equal to `a` are as many as the entries of
/// `s` whose data is `a`.
proof fn lemma_data_count<T>(s: Seq<(Seq<i64>, T)>, a: T)
    ensures
        s.map_values(|e: (Seq<i64>, T)| e.1).to_multiset().count(a) == s.to_multiset().filter(
            |e: (Seq<i64>, T)| e.1 == a,
        ).len(),
    decreases s.len(),
{
    let pf = |e: (Seq<i64>, T)| e.1 == a;
    if s.len() == 0 {
        assert(s.map_values(|e: (Seq<i64>, T)| e.1) =~= Seq::<T>::empty());
        assert(s.to_multiset().filter(pf) =~= Multiset::empty());
    } else {
        let t = s.drop_last();
        let x = s.last();
        lemma_data_count(t, a);
        assert(s =~= t.push(x));
        assert(s.map_values(|e: (Seq<i64>, T)| e.1) =~= t.map_values(|e: (Seq<i64>, T)| e.1).push(x.1));
        vstd::seq_lib::lemma_multiset_commutative(t, seq![x]);
        vstd::seq_lib::lemma_multiset_commutative(t.map_values(|e: (Seq<i64>, T)| e.1), seq![x.1]);
        assert(seq![x].to_multiset() =~= Multiset::singleton(x)) by {
            assert(seq![x] =~= Seq::<(Seq<i64>, T)>::empty().push(x));
        }
        assert(seq![x.1].to_multiset() =~= Multiset::singleton(x.1)) by {
            assert(seq![x.1] =~= Seq::<T>::empty().push(x.1));
        }
        assert(t + seq![x] =~= s);
        assert(t.map_values(|e: (Seq<i64>, T)| e.1) + seq![x.1] =~= s.map_values(|e: (Seq<i64>, T)| e.1));
        if x.1 == a {
            assert(s.to_multiset().filter(pf) =~= t.to_multiset().filter(pf).insert(x));
        } else {
            assert(s.to_multiset().filter(pf) =~= t.to_multiset().filter(pf));
        }
    }
}

/// When `sa` holds more entries with data `a` than `sb`, some entry with
/// data `a` is held more often by `sa` than by `sb`.
proof fn lemma_more_data<T>(sa: Seq<(Seq<i64>, T)>, sb: Seq<(Seq<i64>, T)>, a: T) -> (e: (Seq<i64>, T))
    requires
        sa.map_values(|e: (Seq<i64>, T)| e.1).to_multiset().count(a) > sb.map_values(|e: (Seq<i64>, T)| e.1).to_multiset().count(
            a,
        ),
    ensures
        e.1 == a,
        sa.to_multiset().count(e) > sb.to_multiset().count(e),
{
    lemma_data_count(sa, a);
    lemma_data_count(sb, a);
    let pf = |e: (Seq<i64>, T)| e.1 == a;
    let fa = sa.to_multiset().filter(pf);
    let fb = sb.to_multiset().filter(pf);
    if fa.subset_of(fb) {
        lemma_subset_len(fa, fb);
        assert(false);
    }
    let e = choose|e: (Seq<i64>, T)| fa.count(e) > fb.count(e);
    assert(fa.count(e) > fb.count(e));
    e
}

/// Under a metric, with data whose order leaves no two different values
/// tied (as for the integers), any two answers of `best_n_within` for the
/// same tree, point, radius and count hold the same data: so
/// `best_n_within_into_iter` gives what `best_n_within` does.
pub proof fn law_best_answers_agree<T: PartialOrd, F: Fn(&[i64], &[i64]) -> u64>(
    m: Multiset<(Seq<i64>, T)>,
    f: &F,
    x: Seq<i64>,
    radius: u64,
    max_qty: nat,
    dims: nat,
    v1: Seq<T>,
    sel1: Seq<(Seq<i64>, T)>,
    v2: Seq<T>,
    sel2: Seq<(Seq<i64>, T)>,
)
    requires
        metric(f, dims),
        ordered::<T>(),
        forall|a: T, b: T| !#[trigger] precedes(a, b) && !#[trigger] precedes(b, a) ==> a == b,
        best_result(m, f, x, radius, max_qty, dims, v1),
        picked_within(m, f, x, radius, v1, sel1),
        rest_not_better(m.sub(sel1.to_multiset()), f, x, radius, max_qty, v1),
        best_result(m, f, x, radius, max_qty, dims, v2),
        picked_within(m, f, x, radius, v2, sel2),
        rest_not_better(m.sub(sel2.to_multiset()), f, x, radius, max_qty, v2),
    ensures
        v1.len() == v2.len(),
        v1.to_multiset() == v2.to_multiset(),
{
    if v1.len() < v2.len() {
        let k = lemma_one_escapes(m, sel2, sel1, v1.len() as int);
        assert(within_radius(f, x, sel2[k].0, radius));
        assert(m.sub(sel1.to_multiset()).count(sel2[k]) > 0);
    }
    if v2.len() < v1.len() {
        let k = lemma_one_escapes(m, sel1, sel2, v2.len() as int);
        assert(within_radius(f, x, sel1[k].0, radius));
        assert(m.sub(sel2.to_multiset()).count(sel1[k]) > 0);
    }
    let d1 = v1.to_multiset();
    let d2 = v2.to_multiset();
    assert(sel1.map_values(|e: (Seq<i64>, T)| e.1) =~= v1);
    assert(sel2.map_values(|e: (Seq<i64>, T)| e.1) =~= v2);
    if d1 != d2 {
        if d1.subset_of(d2) {
            lemma_subset_same_len(d1, d2);
        }
        if d2.subset_of(d1) {
            lemma_subset_same_len(d2, d1);
        }
        let a = choose|a: T| d1.count(a) > d2.count(a);
        let b = choose|b: T| d2.count(b) > d1.count(b);
        let ea = lemma_more_data(sel1, sel2, a);
        let eb = lemma_more_data(sel2, sel1, b);
        assert(sel1.contains(ea));
        let ia = choose|i: int| 0 <= i < sel1.len() && sel1[i] == ea;
        assert(within_radius(f, x, ea.0, radius));
        assert(m.sub(sel2.to_multiset()).count(ea) > 0);
        assert(sel2.contains(eb));
        let ib = choose|i: int| 0 <= i < sel2.len() && sel2[i] == eb;
        assert(within_radius(f, x, eb.0, radius));
        assert(m.sub(sel1.to_multiset()).count(eb) > 0);
        assert(v1[ia] == a);
        assert(v2[ib] == b);
        assert(!precedes(a, v2[ib]));
        assert(!precedes(b, v1[ia]));
        assert(a == b);
    }
}


/// The sum of the changes `steps`.
pub open spec fn net(steps: Seq<int>) -> int
    decreases steps.len(),
{
    if steps.len() == 0 {
        0
    } else {
        net(steps.drop_last()) + steps.last()
    }
}

/// Over a run of calls from an empty tree, where each call changes the
/// number of entries by its step (one for an `add` that returned `Ok`, minus
/// `n` for a `remove` that returned `Ok(n)`, nothing for a refused call, as
/// their contracts state), the tree holds the sum of the steps.
pub proof fn law_size_tracks_history<T>(views: Seq<Multiset<(Seq<i64>, T)>>, steps: Seq<int>)
    requires
        views.len() == steps.len() + 1,
        views[0].len() == 0,
        forall|i: int| 0 <= i < steps.len() ==> #[trigger] views[i + 1].len() == views[i].len() + steps[i],
    ensures
        views.last().len() == net(steps),
    decreases steps.len(),
{
    if steps.len() > 0 {
        let vs = views.drop_last();
        let ss = steps.drop_last();
        assert forall|i: int| 0 <= i < ss.len() implies #[trigger] vs[i + 1].len() == vs[i].len() + ss[i] by {
            assert(views[i + 1].len() == views[i].len() + steps[i]);
        }
        law_size_tracks_history(vs, ss);
        assert(views[steps.len() as int].len() == views[steps.len() - 1].len() + steps[steps.len() - 1]);
    }
}

/// Allowing `best_n_within` more results than the tree has entries leaves
/// out no entry within the radius.
pub proof fn law_best_returns_all_within<T: PartialOrd, F: Fn(&[i64], &[i64]) -> u64>(
    m: Multiset<(Seq<i64>, T)>,
    f: &F,
    x: Seq<i64>,
    radius: u64,
    max_qty: nat,
    dims: nat,
    v: Seq<T>,
    sel: Seq<(Seq<i64>, T)>,
)
    requires
        best_result(m, f, x, radius, max_qty, dims, v),
        picked_within(m, f, x, radius, v, sel),
        metric(f, dims) ==> rest_not_better(m.sub(sel.to_multiset()), f, x, radius, max_qty, v),
        metric(f, dims),
        max_qty > m.len(),
    ensures
        forall|e: (Seq<i64>, T)|
            #![trigger m.count(e), within_radius(f, x, e.0, radius)]
            m.count(e) > 0 && within_radius(f, x, e.0, radius) ==> sel.to_multiset().count(e) >= m.count(e),
{
    assert(sel.to_multiset().len() <= m.len()) by {
        let r = m.sub(sel.to_multiset());
        assert(m =~= sel.to_multiset().add(r));
    }
    assert forall|e: (Seq<i64>, T)|
        #![trigger m.count(e), within_radius(f, x, e.0, radius)]
        m.count(e) > 0 && within_radius(f, x, e.0, radius) implies sel.to_multiset().count(e) >= m.count(e) by {
        if sel.to_multiset().count(e) < m.count(e) {
            assert(m.sub(sel.to_multiset()).count(e) > 0);
            assert(v.len() == max_qty);
        }
    }
}

} // verus!
