use vstd::prelude::*;
use vstd::multiset::Multiset;
use crate::candidates::{
    Candidate, insert_all, insert_bounded, keeps_best, lemma_keeps_best_all, lemma_keeps_best_compose, lemma_keeps_best_none,
    lemma_keeps_best_prune, min_nat, sorted_by_dist, worst,
};
use crate::metric::{
    box_dist_upto, distance_to_space, lemma_box_dist_lower, lemma_sq_dist_bound, sq_dist, squared_euclidean,
};

verus! {

/// Why an insertion or a query was refused.
#[derive(Debug, Clone, Copy, PartialEq, Eq, Structural)]
pub enum ErrorKind {
    /// The point does not have the tree's number of coordinates.
    WrongDimension,
    /// A coordinate is not a finite number. Coordinates of this tree are
    /// integers, so none of its operations returns this kind.
    NonFiniteCoordinate,
    /// The tree was made with leaves of capacity zero and takes no point.
    ZeroCapacity,
}

/// Lower bound of an empty box: no point yet.
pub const EMPTY_MIN: i64 = 0x7fff_ffff_ffff_ffff;

/// Upper bound of an empty box: no point yet.
pub const EMPTY_MAX: i64 = -0x8000_0000_0000_0000;

/// The two shapes of a node: a bucket of points, or a split into two halves.
pub enum Node<T> {
    Leaf { points: Vec<Vec<i32>>, bucket: Vec<T> },
    /// Points `p` with `2 * p[split_dimension] < split_sum` live on the left.
    Stem { split_dimension: usize, split_sum: i64, left: Box<KdTree<T>>, right: Box<KdTree<T>> },
}

/// A k-d tree node: its dimensionality and leaf capacity (shared by the
/// whole tree), the number of points below it, the exact bounding box of
/// those points, and its shape.
pub struct KdTree<T> {
    dimensions: usize,
    capacity: usize,
    size: usize,
    min_bounds: Vec<i64>,
    max_bounds: Vec<i64>,
    node: Node<T>,
}

/// The candidates that a query at `q` makes of the entries `es`: each
/// entry's squared distance from `q`, with its payload.
pub open spec fn cands_of<'a, T>(es: Seq<Entry<T>>, q: Seq<i32>) -> Seq<Candidate<'a, T>> {
    Seq::new(es.len(), |i: int| (sq_dist(q, es[i].0) as u128, &es[i].1))
}

/// Adding one entry to a collection adds one to its count.
pub proof fn lemma_insert_count<T>(before: Seq<Entry<T>>, after: Seq<Entry<T>>, e: Entry<T>)
    requires
        after.to_multiset() == before.to_multiset().insert(e),
    ensures
        after.len() == before.len() + 1,
{
    broadcast use vstd::seq_lib::group_to_multiset_ensures, vstd::multiset::group_multiset_axioms;
    before.to_multiset_ensures();
    after.to_multiset_ensures();
}

/// The number of `true`s in `s`.
pub open spec fn count_true(s: Seq<bool>) -> nat
    decreases s.len(),
{
    if s.len() == 0 {
        0
    } else {
        count_true(s.drop_last()) + if s.last() { 1nat } else { 0nat }
    }
}

/// After a run of insertions into an empty tree, where each insertion either
/// succeeded and added one point or failed and left the tree as it was, the
/// tree holds as many points as insertions succeeded.
pub proof fn lemma_size_counts_successes<T>(trees: Seq<KdTree<T>>, ok: Seq<bool>)
    requires
        trees.len() == ok.len() + 1,
        trees[0].entries().len() == 0,
        forall|i: int|
            0 <= i < ok.len() ==> (#[trigger] ok[i] ==> trees[i + 1].entries().len() == trees[i].entries().len() + 1)
                && (!ok[i] ==> trees[i + 1] == trees[i]),
    ensures
        trees.last().entries().len() == count_true(ok),
    decreases ok.len(),
{
    if ok.len() > 0 {
        let n = ok.len() - 1;
        assert(ok[n] ==> trees[n + 1].entries().len() == trees[n].entries().len() + 1);
        lemma_size_counts_successes(trees.drop_last(), ok.drop_last());
    }
}

/// An entry of the tree: a point and its payload.
pub type Entry<T> = (Seq<i32>, T);

/// The entries of a leaf: its points paired index for index with its payloads.
pub open spec fn leaf_entries<T>(points: Seq<Vec<i32>>, bucket: Seq<T>) -> Seq<Entry<T>> {
    Seq::new(points.len(), |i: int| (points[i]@, bucket[i]))
}

/// A property that holds of every entry of `es` and of `e` holds of every
/// entry of a sequence with the same entries as `es` plus `e`.
proof fn lemma_all_insert<T>(es: Seq<Entry<T>>, e: Entry<T>, es2: Seq<Entry<T>>, p: spec_fn(Entry<T>) -> bool)
    requires
        forall|i: int| 0 <= i < es.len() ==> p(#[trigger] es[i]),
        p(e),
        es2.to_multiset() == es.to_multiset().insert(e),
    ensures
        forall|i: int| 0 <= i < es2.len() ==> p(#[trigger] es2[i]),
{
    broadcast use vstd::seq_lib::group_to_multiset_ensures;
    assert forall|i: int| 0 <= i < es2.len() implies p(#[trigger] es2[i]) by {
        assert(es2.contains(es2[i]));
        assert(es2.to_multiset().count(es2[i]) > 0);
        if es2[i] != e {
            assert(es.to_multiset().count(es2[i]) > 0);
            assert(es.contains(es2[i]));
        }
    }
}

/// Where all points but the last coincide, and the box is wider than a point on
/// axis `d`, every point is one of the two that touch the faces on that axis.
proof fn lemma_two_points<T>(es: Seq<Entry<T>>, d: int, wl: int, wh: int, i: int)
    requires
        all_coincide(es.drop_last()),
        0 <= wl < es.len(),
        0 <= wh < es.len(),
        0 <= i < es.len(),
        es[wl].0[d] < es[wh].0[d],
    ensures
        es[i].0 == es[wl].0 || es[i].0 == es[wh].0,
{
    let n = es.len() - 1;
    let dl = es.drop_last();
    if wl < n && wh < n {
        assert(dl[wl].0 == dl[wh].0);
    }
    if i < n {
        if wl < n {
            assert(dl[wl].0 == dl[i].0);
        } else {
            assert(dl[wh].0 == dl[i].0);
        }
    }
}

/// The first axis among the first `n` whose side `hi - lo` is longest, if
/// that side is longer than zero; -1 where every side is zero or empty.
pub open spec fn first_widest(lo: Seq<i64>, hi: Seq<i64>, n: int) -> int
    decreases n,
{
    if n <= 0 {
        -1
    } else {
        let w = first_widest(lo, hi, n - 1);
        let longest = if w < 0 { 0 } else { hi[w] - lo[w] };
        if hi[n - 1] - lo[n - 1] > longest { n - 1 } else { w }
    }
}

/// An entry belongs left of a split on axis `d` at half of `sum`.
pub open spec fn left_of<T>(d: int, sum: int) -> spec_fn(Entry<T>) -> bool {
    |e: Entry<T>| 2 * e.0[d] < sum
}

/// An entry belongs right of a split on axis `d` at half of `sum`.
pub open spec fn right_of<T>(d: int, sum: int) -> spec_fn(Entry<T>) -> bool {
    |e: Entry<T>| 2 * e.0[d] >= sum
}

/// Every point of `es` lies inside the box `[lo, hi]` on each of the `dims` axes.
pub open spec fn box_covers<T>(es: Seq<Entry<T>>, lo: Seq<i64>, hi: Seq<i64>, dims: int) -> bool {
    forall|i: int, d: int|
        0 <= i < es.len() && 0 <= d < dims ==> lo[d] <= #[trigger] es[i].0[d] <= hi[d]
}

/// Some point of `es` has coordinate `v` on axis `d`.
pub open spec fn touches<T>(es: Seq<Entry<T>>, d: int, v: i64) -> bool {
    exists|i: int| 0 <= i < es.len() && #[trigger] es[i].0[d] == v
}

/// On each axis both faces of the box are touched by some point of `es`.
pub open spec fn box_tight<T>(es: Seq<Entry<T>>, lo: Seq<i64>, hi: Seq<i64>, dims: int) -> bool {
    forall|d: int| 0 <= d < dims ==> #[trigger] faces_touched(es, lo, hi, d)
}

/// Both faces of the box on axis `d` are touched by some point of `es`.
pub open spec fn faces_touched<T>(es: Seq<Entry<T>>, lo: Seq<i64>, hi: Seq<i64>, d: int) -> bool {
    touches(es, d, lo[d]) && touches(es, d, hi[d])
}

/// The box `[lo, hi]` is the coordinate-wise extent of the points of `es`;
/// no entries give the empty box.
pub open spec fn box_exact<T>(es: Seq<Entry<T>>, lo: Seq<i64>, hi: Seq<i64>, dims: int) -> bool {
    &&& lo.len() == dims
    &&& hi.len() == dims
    &&& if es.len() == 0 {
        forall|d: int| 0 <= d < dims ==> lo[d] == EMPTY_MIN && hi[d] == EMPTY_MAX
    } else {
        box_covers(es, lo, hi, dims) && box_tight(es, lo, hi, dims)
    }
}

/// Every point of `es` has `dims` coordinates.
pub open spec fn all_have_dims<T>(es: Seq<Entry<T>>, dims: int) -> bool {
    forall|i: int| 0 <= i < es.len() ==> (#[trigger] es[i]).0.len() == dims
}

/// All points of `es` are the same point.
pub open spec fn all_coincide<T>(es: Seq<Entry<T>>) -> bool {
    forall|i: int, j: int| 0 <= i < es.len() && 0 <= j < es.len() ==> #[trigger] es[i].0 == #[trigger] es[j].0
}

pub open spec fn min_i64(a: i64, b: i64) -> i64 {
    if a <= b { a } else { b }
}

pub open spec fn max_i64(a: i64, b: i64) -> i64 {
    if a >= b { a } else { b }
}

/// Adding a point to a set of entries widens the exact box by that point.
proof fn lemma_box_push<T>(es: Seq<Entry<T>>, lo: Seq<i64>, hi: Seq<i64>, dims: int, e: Entry<T>, lo2: Seq<i64>, hi2: Seq<i64>)
    requires
        box_exact(es, lo, hi, dims),
        e.0.len() == dims,
        lo2.len() == dims,
        hi2.len() == dims,
        forall|d: int| 0 <= d < dims ==> lo2[d] == min_i64(#[trigger] lo[d], e.0[d] as i64) && hi2[d] == max_i64(hi[d], e.0[d] as i64),
    ensures
        box_exact(es.push(e), lo2, hi2, dims),
{
    let es2 = es.push(e);
    let n = es.len() as int;
    assert forall|i: int, d: int| 0 <= i < es2.len() && 0 <= d < dims implies lo2[d] <= #[trigger] es2[i].0[d] <= hi2[d] by {
        if i < n {
            assert(es2[i] == es[i]);
            assert(lo[d] <= es[i].0[d] <= hi[d]) by {
                if n == 0 {} else { assert(box_covers(es, lo, hi, dims)); }
            }
        }
    }
    assert forall|d: int| 0 <= d < dims implies #[trigger] faces_touched(es2, lo2, hi2, d) by {
        assert(es2[n] == e);
        if n == 0 {
            assert(es2[n].0[d] == lo2[d]);
            assert(es2[n].0[d] == hi2[d]);
        } else {
            assert(faces_touched(es, lo, hi, d));
            if e.0[d] < lo[d] {
                assert(es2[n].0[d] == lo2[d]);
            } else {
                let i = choose|i: int| 0 <= i < es.len() && #[trigger] es[i].0[d] == lo[d];
                assert(es2[i] == es[i]);
                assert(es2[i].0[d] == lo2[d]);
            }
            if e.0[d] > hi[d] {
                assert(es2[n].0[d] == hi2[d]);
            } else {
                let i = choose|i: int| 0 <= i < es.len() && #[trigger] es[i].0[d] == hi[d];
                assert(es2[i] == es[i]);
                assert(es2[i].0[d] == hi2[d]);
            }
        }
    }
}

/// Coordinate `d` of entry `i` lies between the box's faces.
pub open spec fn lo_le<T>(es: Seq<Entry<T>>, lo: Seq<i64>, hi: Seq<i64>, i: int, d: int) -> bool {
    lo[d] <= es[i].0[d] <= hi[d]
}

/// A non-empty exact box lies within the range of coordinates on every axis.
proof fn lemma_box_in_range_all<T>(es: Seq<Entry<T>>, lo: Seq<i64>, hi: Seq<i64>, dims: int)
    requires
        box_exact(es, lo, hi, dims),
        es.len() > 0,
    ensures
        forall|d: int| 0 <= d < dims ==> i32::MIN <= #[trigger] lo[d] <= hi[d] <= i32::MAX,
{
    assert forall|d: int| 0 <= d < dims implies i32::MIN <= #[trigger] lo[d] <= hi[d] <= i32::MAX by {
        lemma_box_in_range(es, lo, hi, dims, d);
    }
}

/// The exact box depends only on which entries there are, not on their order.
proof fn lemma_box_same_entries<T>(es: Seq<Entry<T>>, es2: Seq<Entry<T>>, lo: Seq<i64>, hi: Seq<i64>, dims: int)
    requires
        box_exact(es, lo, hi, dims),
        es.to_multiset() == es2.to_multiset(),
    ensures
        box_exact(es2, lo, hi, dims),
{
    broadcast use vstd::seq_lib::group_to_multiset_ensures;
    es.to_multiset_ensures();
    es2.to_multiset_ensures();
    assert(es.len() == es2.len());
    if es.len() > 0 {
        assert forall|i: int, d: int| 0 <= i < es2.len() && 0 <= d < dims implies lo[d] <= #[trigger] es2[i].0[d] <= hi[d] by {
            assert(es2.contains(es2[i]));
            assert(es2.to_multiset().count(es2[i]) > 0);
            assert(es.to_multiset().count(es2[i]) > 0);
            assert(es.contains(es2[i]));
            let j = choose|j: int| 0 <= j < es.len() && es[j] == es2[i];
            assert(box_covers(es, lo, hi, dims));
            assert(lo[d] <= es[j].0[d] <= hi[d]);
        }
        assert forall|d: int| 0 <= d < dims implies #[trigger] faces_touched(es2, lo, hi, d) by {
            assert(faces_touched(es, lo, hi, d));
            let i = choose|i: int| 0 <= i < es.len() && #[trigger] es[i].0[d] == lo[d];
            assert(es.contains(es[i]));
            assert(es.to_multiset().count(es[i]) > 0);
            assert(es2.to_multiset().count(es[i]) > 0);
            assert(es2.contains(es[i]));
            let j = choose|j: int| 0 <= j < es2.len() && es2[j] == es[i];
            assert(es2[j].0[d] == lo[d]);
            let i2 = choose|i: int| 0 <= i < es.len() && #[trigger] es[i].0[d] == hi[d];
            assert(es.contains(es[i2]));
            assert(es.to_multiset().count(es[i2]) > 0);
            assert(es2.to_multiset().count(es[i2]) > 0);
            assert(es2.contains(es[i2]));
            let j2 = choose|j: int| 0 <= j < es2.len() && es2[j] == es[i2];
            assert(es2[j2].0[d] == hi[d]);
        }
    }
}

/// A non-empty exact box has both faces at coordinates of points.
proof fn lemma_box_in_range<T>(es: Seq<Entry<T>>, lo: Seq<i64>, hi: Seq<i64>, dims: int, d: int)
    requires
        box_exact(es, lo, hi, dims),
        es.len() > 0,
        0 <= d < dims,
    ensures
        i32::MIN <= lo[d] <= hi[d] <= i32::MAX,
{
    assert(faces_touched(es, lo, hi, d));
    let i = choose|i: int| 0 <= i < es.len() && #[trigger] es[i].0[d] == lo[d];
    let j = choose|i: int| 0 <= i < es.len() && #[trigger] es[i].0[d] == hi[d];
    assert(box_covers(es, lo, hi, dims));
    assert(lo[d] <= es[i].0[d] <= hi[d]);
}

/// A subtree waiting to be searched, with a lower bound of the squared
/// distance from the query to any of its points.
pub type Pending<'a, T> = (u128, &'a KdTree<T>);

/// `r` is the first waiting subtree with the smallest bound.
pub open spec fn is_first_lowest<'a, T>(s: Seq<Pending<'a, T>>, r: int) -> bool {
    &&& 0 <= r < s.len()
    &&& forall|j: int| 0 <= j < s.len() ==> s[r].0 <= (#[trigger] s[j]).0
    &&& forall|j: int| 0 <= j < r ==> s[r].0 < (#[trigger] s[j]).0
}

/// The first waiting subtree with the smallest bound.
pub open spec fn first_lowest<'a, T>(s: Seq<Pending<'a, T>>) -> int {
    choose|r: int| #[trigger] is_first_lowest(s, r)
}

/// A search goes on while subtrees wait and either fewer than `num`
/// candidates are kept or the nearest waiting bound is nearer than the
/// farthest candidate kept.
pub open spec fn search_goes_on<'a, T>(pending: Seq<Pending<'a, T>>, best: Seq<Candidate<'a, T>>, num: nat) -> bool {
    pending.len() > 0 && (best.len() < num || pending[first_lowest(pending)].0 < worst(best))
}

/// What a search from the waiting subtrees `pending` and kept candidates
/// `best` returns, taking at most `fuel` steps: each step takes the first
/// waiting subtree with the smallest bound, queues the far halves met on the
/// way down toward `q` whose bound is within the farthest candidate kept,
/// and puts in the reached leaf's candidates in order.
pub open spec fn search_from<'a, T>(
    pending: Seq<Pending<'a, T>>,
    best: Seq<Candidate<'a, T>>,
    num: nat,
    q: Seq<i32>,
    fuel: nat,
) -> Seq<Candidate<'a, T>>
    decreases fuel,
{
    if fuel == 0 || !search_goes_on(pending, best, num) {
        best
    } else {
        let r = first_lowest(pending);
        let top = pending[r].1;
        let w = if best.len() < num { u128::MAX } else { worst(best) };
        search_from(
            pending.remove(r) + top.descent_pushes(q, w),
            insert_all(best, cands_of(top.leaf_for(q).entries(), q), num),
            num,
            q,
            (fuel - 1) as nat,
        )
    }
}

/// The first smallest bound is the one a left-to-right scan finds.
proof fn lemma_first_lowest<'a, T>(s: Seq<Pending<'a, T>>, r: int)
    requires
        0 <= r < s.len(),
        forall|j: int| 0 <= j < s.len() ==> s[r].0 <= (#[trigger] s[j]).0,
        forall|j: int| 0 <= j < r ==> s[r].0 < (#[trigger] s[j]).0,
    ensures
        first_lowest(s) == r,
{
    assert(is_first_lowest(s, r));
    let f = first_lowest(s);
    assert(is_first_lowest(s, f));
    assert(s[f].0 <= s[r].0);
    if f < r {
        assert(s[r].0 < s[f].0);
    } else if f > r {
        assert(s[f].0 < s[r].0);
    }
}

/// The candidates of all subtrees waiting in `s`.
pub open spec fn pending_cands<'a, T>(s: Seq<Pending<'a, T>>, q: Seq<i32>) -> Multiset<Candidate<'a, T>>
    decreases s.len(),
{
    if s.len() == 0 {
        Multiset::empty()
    } else {
        pending_cands(s.drop_last(), q).add(cands_of::<'a, T>(s.last().1.entries(), q).to_multiset())
    }
}

/// The number of leaves of all subtrees waiting in `s`.
pub open spec fn pending_leaves<'a, T>(s: Seq<Pending<'a, T>>) -> nat
    decreases s.len(),
{
    if s.len() == 0 {
        0
    } else {
        pending_leaves(s.drop_last()) + s.last().1.leaf_count()
    }
}

/// `lb` is at most the distance of every candidate that `t` makes for `q`.
pub open spec fn bounds_below<'a, T>(lb: u128, t: KdTree<T>, q: Seq<i32>) -> bool {
    forall|x: Candidate<'a, T>| #[trigger] cands_of::<'a, T>(t.entries(), q).to_multiset().count(x) > 0 ==> lb <= x.0
}

/// A subtree that a search step put to wait: its bound is the squared
/// distance from `q` to its box, and it was put there only if `best` was not
/// yet full or the bound is within the farthest candidate kept.
pub open spec fn pushed_ok<'a, T>(p: Pending<'a, T>, q: Seq<i32>, best: Seq<Candidate<'a, T>>, num: nat) -> bool {
    &&& p.0 == box_dist_upto(q, p.1.lo(), p.1.hi(), q.len() as int)
    &&& (best.len() < num || p.0 <= worst(best))
}

/// Every waiting subtree keeps the invariant, has `dims` axes, and its
/// recorded bound is a true lower bound.
pub open spec fn pending_ok<'a, T>(s: Seq<Pending<'a, T>>, q: Seq<i32>, dims: nat) -> bool {
    forall|j: int|
        0 <= j < s.len() ==> (#[trigger] s[j]).1.wf() && s[j].1.dims() == dims && bounds_below(
            s[j].0,
            *s[j].1,
            q,
        )
}

/// Taking one subtree out of the waiting list takes out its candidates and leaves.
proof fn lemma_pending_remove<'a, T>(s: Seq<Pending<'a, T>>, i: int, q: Seq<i32>)
    requires
        0 <= i < s.len(),
    ensures
        pending_cands(s, q) == pending_cands(s.remove(i), q).add(cands_of::<'a, T>(s[i].1.entries(), q).to_multiset()),
        pending_leaves(s) == pending_leaves(s.remove(i)) + s[i].1.leaf_count(),
    decreases s.len(),
{
    broadcast use vstd::multiset::group_multiset_axioms;
    let n = s.len() - 1;
    if i == n {
        assert(s.remove(i) =~= s.drop_last());
    } else {
        lemma_pending_remove(s.drop_last(), i, q);
        assert(s.remove(i).drop_last() =~= s.drop_last().remove(i));
        assert(s.remove(i).last() == s.last());
        let a = pending_cands(s.drop_last().remove(i), q);
        let x = cands_of::<'a, T>(s[i].1.entries(), q).to_multiset();
        let y = cands_of::<'a, T>(s.last().1.entries(), q).to_multiset();
        assert(a.add(x).add(y) =~= a.add(y).add(x));
    }
}

/// Where every waiting subtree's bound is at least `m`, so is every candidate.
proof fn lemma_pending_lower<'a, T>(s: Seq<Pending<'a, T>>, q: Seq<i32>, dims: nat, m: u128)
    requires
        pending_ok(s, q, dims),
        forall|j: int| 0 <= j < s.len() ==> (#[trigger] s[j]).0 >= m,
    ensures
        forall|x: Candidate<'a, T>| #[trigger] pending_cands(s, q).count(x) > 0 ==> x.0 >= m,
    decreases s.len(),
{
    broadcast use vstd::multiset::group_multiset_axioms;
    if s.len() > 0 {
        let d = s.drop_last();
        assert forall|j: int| 0 <= j < d.len() implies (#[trigger] d[j]).0 >= m && d[j].1.wf() by {
            assert(d[j] == s[j]);
        }
        assert(pending_ok(d, q, dims)) by {
            assert forall|j: int| 0 <= j < d.len() implies (#[trigger] d[j]).1.wf() && d[j].1.dims() == dims
                && bounds_below(d[j].0, *d[j].1, q) by {
                assert(d[j] == s[j]);
            }
        }
        lemma_pending_lower(d, q, dims, m);
        let last = s[s.len() - 1];
        assert(last == s.last());
        assert(bounds_below(last.0, *last.1, q));
        assert forall|x: Candidate<'a, T>| #[trigger] pending_cands(s, q).count(x) > 0 implies x.0 >= m by {
            let c = cands_of::<'a, T>(last.1.entries(), q).to_multiset();
            assert(pending_cands(s, q) == pending_cands(d, q).add(c));
            if pending_cands(d, q).count(x) == 0 {
                assert(c.count(x) > 0);
                assert(last.0 <= x.0);
            }
        }
    }
}

/// What is left of `p0` after `p1` is taken back out is `h`.
proof fn lemma_sub_add<V>(h: Multiset<V>, p1: Multiset<V>, p0: Multiset<V>)
    requires
        h.add(p1) == p0,
    ensures
        p1.subset_of(p0),
        p0.sub(p1) == h,
{
    broadcast use vstd::multiset::group_multiset_axioms;
    assert(p0.sub(p1) =~= h);
}

impl<T> KdTree<T> {
    /// The (point, payload) pairs of the subtree, left half before right half.
    pub closed spec fn entries(self) -> Seq<Entry<T>>
        decreases self,
    {
        match self.node {
            Node::Leaf { points, bucket } => leaf_entries(points@, bucket@),
            Node::Stem { left, right, .. } => left.entries() + right.entries(),
        }
    }

    pub closed spec fn dims(self) -> nat {
        self.dimensions as nat
    }

    pub closed spec fn cap(self) -> nat {
        self.capacity as nat
    }

    pub closed spec fn lo(self) -> Seq<i64> {
        self.min_bounds@
    }

    pub closed spec fn hi(self) -> Seq<i64> {
        self.max_bounds@
    }

    /// Whether this node holds its points directly.
    pub closed spec fn is_leaf_node(self) -> bool {
        self.node is Leaf
    }

    /// The number of points held directly at this node, if it is a leaf.
    pub closed spec fn leaf_len(self) -> nat {
        match self.node {
            Node::Leaf { points, .. } => points.len() as nat,
            Node::Stem { .. } => 0,
        }
    }

    /// The invariants shared by both shapes: size, dimensions and the exact box.
    pub closed spec fn common_ok(self) -> bool {
        &&& self.size == self.entries().len()
        &&& all_have_dims(self.entries(), self.dimensions as int)
        &&& box_exact(self.entries(), self.lo(), self.hi(), self.dimensions as int)
    }

    /// The tree's invariant, at this node and below.
    pub closed spec fn wf(self) -> bool
        decreases self,
    {
        &&& self.common_ok()
        &&& match self.node {
            Node::Leaf { points, bucket } => {
                &&& points.len() == bucket.len()
                &&& (points.len() <= self.capacity || all_coincide(self.entries()))
            },
            Node::Stem { split_dimension, split_sum, left, right } => {
                &&& split_dimension < self.dimensions
                &&& left.dimensions == self.dimensions
                &&& right.dimensions == self.dimensions
                &&& left.capacity == self.capacity
                &&& right.capacity == self.capacity
                &&& left.wf()
                &&& right.wf()
                &&& left.entries().len() > 0
                &&& right.entries().len() > 0
                &&& forall|i: int|
                    0 <= i < left.entries().len() ==> 2 * #[trigger] left.entries()[i].0[split_dimension as int]
                        < split_sum
                &&& forall|i: int|
                    0 <= i < right.entries().len() ==> 2 * #[trigger] right.entries()[i].0[split_dimension as int]
                        >= split_sum
            },
        }
    }

    /// Every leaf of the subtree holds at most `capacity` points, unless all of
    /// that leaf's points coincide.
    pub open spec fn leaves_within_capacity(self) -> bool
        decreases self.height(),
    {
        if self.is_leaf_node() {
            self.entries().len() <= self.cap() || all_coincide(self.entries())
        } else if self.left_tree().height() >= self.height() || self.right_tree().height() >= self.height() {
            true
        } else {
            self.left_tree().leaves_within_capacity() && self.right_tree().leaves_within_capacity()
        }
    }

    /// An empty tree of the given dimensionality and leaf capacity.
    pub fn new_with_capacity(dimensions: usize, capacity: usize) -> (r: Self)
        ensures
            r.wf(),
            r.dims() == dimensions,
            r.cap() == capacity,
            r.entries().len() == 0,
            r.common_ok(),
            r.is_leaf_node(),
            r.leaf_shape_ok(),
            r.leaf_len() == 0,
    {
        let mut min_bounds: Vec<i64> = Vec::new();
        let mut max_bounds: Vec<i64> = Vec::new();
        let mut i: usize = 0;
        while i < dimensions
            invariant
                i <= dimensions,
                min_bounds@.len() == i,
                max_bounds@.len() == i,
                forall|d: int| 0 <= d < i ==> min_bounds@[d] == EMPTY_MIN && max_bounds@[d] == EMPTY_MAX,
            decreases dimensions - i,
        {
            min_bounds.push(EMPTY_MIN);
            max_bounds.push(EMPTY_MAX);
            i = i + 1;
        }
        let r = KdTree {
            dimensions,
            capacity,
            size: 0,
            min_bounds,
            max_bounds,
            node: Node::Leaf { points: Vec::new(), bucket: Vec::new() },
        };
        assert(r.entries() =~= Seq::<Entry<T>>::empty());
        r
    }

    /// An empty tree with leaves of 16 points.
    pub fn new(dims: usize) -> (r: Self)
        ensures
            r.wf(),
            r.dims() == dims,
            r.cap() == 16,
            r.entries().len() == 0,
            r.is_leaf_node(),
            r.leaf_len() == 0,
    {
        KdTree::new_with_capacity(dims, 16)
    }

    /// The number of points stored.
    pub fn size(&self) -> (r: usize)
        requires
            self.wf(),
        ensures
            r == self.entries().len(),
    {
        self.size
    }
    /// Whether this node holds its points directly.
    fn is_leaf(&self) -> (r: bool)
        ensures
            r == self.is_leaf_node(),
    {
        match &self.node {
            Node::Leaf { .. } => true,
            Node::Stem { .. } => false,
        }
    }

    /// Whether `point` belongs to the left half of this internal node.
    fn belongs_in_left(&self, point: &Vec<i32>) -> (r: bool)
        requires
            self.wf(),
            !self.is_leaf_node(),
            point@.len() == self.dims(),
        ensures
            r == (2 * point@[self.split_dim() as int] < self.split_at()),
    {
        match &self.node {
            Node::Stem { split_dimension, split_sum, .. } => 2 * (point[*split_dimension] as i64) < *split_sum,
            Node::Leaf { .. } => false,
        }
    }

    /// The dimension an internal node splits on.
    pub closed spec fn split_dim(self) -> nat {
        match self.node {
            Node::Stem { split_dimension, .. } => split_dimension as nat,
            Node::Leaf { .. } => 0,
        }
    }

    /// Twice the value an internal node splits at.
    pub closed spec fn split_at(self) -> int {
        match self.node {
            Node::Stem { split_sum, .. } => split_sum as int,
            Node::Leaf { .. } => 0,
        }
    }

    /// Widens the bounding box to take in `point`.
    fn extend(&mut self, point: &Vec<i32>)
        requires
            old(self).min_bounds@.len() == old(self).dimensions,
            old(self).max_bounds@.len() == old(self).dimensions,
            point@.len() == old(self).dimensions,
        ensures
            final(self).dimensions == old(self).dimensions,
            final(self).capacity == old(self).capacity,
            final(self).size == old(self).size,
            final(self).node == old(self).node,
            final(self).min_bounds@.len() == old(self).dimensions,
            final(self).max_bounds@.len() == old(self).dimensions,
            forall|d: int|
                0 <= d < old(self).dimensions ==> final(self).min_bounds@[d] == min_i64(
                    #[trigger] old(self).min_bounds@[d],
                    point@[d] as i64,
                ),
            forall|d: int|
                0 <= d < old(self).dimensions ==> final(self).max_bounds@[d] == max_i64(
                    #[trigger] old(self).max_bounds@[d],
                    point@[d] as i64,
                ),
    {
        let mut d: usize = 0;
        while d < self.dimensions
            invariant
                d <= self.dimensions,
                self.dimensions == old(self).dimensions,
                self.capacity == old(self).capacity,
                self.size == old(self).size,
                self.node == old(self).node,
                point@.len() == self.dimensions,
                self.min_bounds@.len() == self.dimensions,
                self.max_bounds@.len() == self.dimensions,
                forall|e: int|
                    0 <= e < d ==> #[trigger] self.min_bounds@[e] == min_i64(old(self).min_bounds@[e], point@[e] as i64),
                forall|e: int|
                    0 <= e < d ==> #[trigger] self.max_bounds@[e] == max_i64(old(self).max_bounds@[e], point@[e] as i64),
                forall|e: int|
                    d <= e < self.dimensions ==> #[trigger] self.min_bounds@[e] == old(self).min_bounds@[e],
                forall|e: int|
                    d <= e < self.dimensions ==> #[trigger] self.max_bounds@[e] == old(self).max_bounds@[e],
            decreases self.dimensions - d,
        {
            let v = point[d] as i64;
            assert(self.min_bounds@[d as int] == old(self).min_bounds@[d as int]);
            assert(self.max_bounds@[d as int] == old(self).max_bounds@[d as int]);
            if v < self.min_bounds[d] {
                self.min_bounds.set(d, v);
            }
            if v > self.max_bounds[d] {
                self.max_bounds.set(d, v);
            }
            assert(self.min_bounds@[d as int] == min_i64(old(self).min_bounds@[d as int], point@[d as int] as i64));
            assert(self.max_bounds@[d as int] == max_i64(old(self).max_bounds@[d as int], point@[d as int] as i64));
            d = d + 1;
        }
    }

    /// Checks that `point` has the tree's number of coordinates.
    fn check_point(&self, point: &Vec<i32>) -> (r: Result<(), ErrorKind>)
        ensures
            r == (if point@.len() == self.dims() {
                Ok::<(), ErrorKind>(())
            } else {
                Err(ErrorKind::WrongDimension)
            }),
    {
        if self.dimensions != point.len() {
            return Err(ErrorKind::WrongDimension);
        }
        Ok(())
    }
    /// Appends a pair to this leaf, widening the box; no split is considered.
    fn push_entry(&mut self, point: Vec<i32>, data: T)
        requires
            old(self).common_ok(),
            old(self).is_leaf_node(),
            old(self).leaf_shape_ok(),
            point@.len() == old(self).dimensions,
            old(self).size < usize::MAX,
        ensures
            final(self).common_ok(),
            final(self).is_leaf_node(),
            final(self).leaf_shape_ok(),
            final(self).dimensions == old(self).dimensions,
            final(self).capacity == old(self).capacity,
            final(self).entries() == old(self).entries().push((point@, data)),
            final(self).leaf_len() == old(self).leaf_len() + 1,
            final(self).size == old(self).size + 1,
            forall|d: int|
                0 <= d < old(self).dimensions ==> #[trigger] final(self).lo()[d] == min_i64(old(self).lo()[d], point@[d] as i64),
            forall|d: int|
                0 <= d < old(self).dimensions ==> #[trigger] final(self).hi()[d] == max_i64(old(self).hi()[d], point@[d] as i64),
    {
        let ghost es = self.entries();
        let ghost e = (point@, data);
        self.extend(&point);
        let ghost lo1 = self.lo();
        let ghost hi1 = self.hi();
        assert forall|d: int| 0 <= d < old(self).dimensions implies #[trigger] lo1[d] == min_i64(
            old(self).lo()[d],
            point@[d] as i64,
        ) by {
            assert(old(self).lo()[d] == old(self).min_bounds@[d]);
        }
        assert forall|d: int| 0 <= d < old(self).dimensions implies #[trigger] hi1[d] == max_i64(
            old(self).hi()[d],
            point@[d] as i64,
        ) by {
            assert(old(self).hi()[d] == old(self).max_bounds@[d]);
        }
        proof {
            lemma_box_push(es, old(self).lo(), old(self).hi(), self.dimensions as int, e, self.lo(), self.hi());
        }
        match &mut self.node {
            Node::Leaf { points, bucket } => {
                points.push(point);
                bucket.push(data);
            },
            Node::Stem { .. } => {},
        }
        self.size = self.size + 1;
        assert(self.entries() =~= es.push(e));
        assert(self.lo() == lo1 && self.hi() == hi1);
    }

    /// The leaf's two vectors have one length.
    pub closed spec fn leaf_shape_ok(self) -> bool {
        match self.node {
            Node::Leaf { points, bucket } => points.len() == bucket.len(),
            Node::Stem { .. } => true,
        }
    }

    /// Turns an over-full leaf into an internal node with two leaves, split at
    /// the middle of the widest side of its box. A leaf whose points all
    /// coincide has no side to split and stays as it is.
    fn split(&mut self)
        requires
            old(self).common_ok(),
            old(self).is_leaf_node(),
            old(self).leaf_shape_ok(),
            old(self).size > old(self).capacity,
            old(self).size == old(self).capacity + 1 || all_coincide(old(self).entries().drop_last()),
        ensures
            final(self).wf(),
            final(self).dimensions == old(self).dimensions,
            final(self).capacity == old(self).capacity,
            final(self).entries().to_multiset() == old(self).entries().to_multiset(),
            ({
                let sd = first_widest(old(self).lo(), old(self).hi(), old(self).dimensions as int);
                let sum = old(self).lo()[sd] + old(self).hi()[sd];
                &&& sd < 0 ==> *final(self) == *old(self)
                &&& sd >= 0 ==> {
                    &&& !final(self).is_leaf_node()
                    &&& final(self).split_dim() == sd
                    &&& final(self).split_at() == sum
                    &&& final(self).size == old(self).size
                    &&& final(self).lo() == old(self).lo()
                    &&& final(self).hi() == old(self).hi()
                    &&& final(self).left_tree().is_leaf_node()
                    &&& final(self).right_tree().is_leaf_node()
                    &&& final(self).left_entries() == old(self).entries().filter(left_of::<T>(sd, sum))
                    &&& final(self).right_entries() == old(self).entries().filter(right_of::<T>(sd, sum))
                }
            }),
    {
        broadcast use vstd::multiset::group_multiset_axioms, vstd::multiset::lemma_multiset_empty_len;
        let ghost es = self.entries();
        let ghost n = es.len();
        let ghost dims = self.dimensions as int;
        let mut max: i64 = 0;
        let mut chosen: Option<usize> = None;
        let mut dim: usize = 0;
        while dim < self.dimensions
            invariant
                *self == *old(self),
                dim <= self.dimensions,
                self.common_ok(),
                n > 0,
                es == self.entries(),
                dims == self.dimensions,
                n == es.len(),
                chosen is None <==> first_widest(self.lo(), self.hi(), dim as int) < 0,
                chosen is Some ==> first_widest(self.lo(), self.hi(), dim as int) == chosen->0,
                chosen is None ==> max == 0,
                chosen is Some ==> chosen->0 < dim && max > 0 && max == self.hi()[chosen->0 as int]
                    - self.lo()[chosen->0 as int],
                forall|e: int| 0 <= e < dim ==> #[trigger] self.hi()[e] - self.lo()[e] <= max,
            decreases self.dimensions - dim,
        {
            assert(box_exact(es, self.lo(), self.hi(), dims));
            assert(es.len() > 0);
            proof {
                lemma_box_in_range(es, self.lo(), self.hi(), dims, dim as int);
            }
            let diff = self.max_bounds[dim] - self.min_bounds[dim];
            if diff > max {
                max = diff;
                chosen = Some(dim);
            }
            dim = dim + 1;
        }
        match chosen {
            None => {
                assert forall|i: int, j: int| 0 <= i < n && 0 <= j < n implies #[trigger] es[i].0 == #[trigger] es[j].0 by {
                    assert(box_covers(es, self.lo(), self.hi(), dims));
                    assert forall|d: int| 0 <= d < dims implies es[i].0[d] == es[j].0[d] by {
                        assert(self.hi()[d] - self.lo()[d] <= 0);
                        assert(self.lo()[d] <= es[i].0[d] <= self.hi()[d]);
                        assert(self.lo()[d] <= es[j].0[d] <= self.hi()[d]);
                    }
                    assert(es[i].0 =~= es[j].0);
                }
            },
            Some(sd) => {
                let lo = self.min_bounds[sd];
                let hi = self.max_bounds[sd];
                proof {
                    lemma_box_in_range(es, self.lo(), self.hi(), dims, sd as int);
                }
                let split_sum: i64 = lo + hi;
                let mut points: Vec<Vec<i32>> = Vec::new();
                let mut bucket: Vec<T> = Vec::new();
                match &mut self.node {
                    Node::Leaf { points: p, bucket: b } => {
                        core::mem::swap(p, &mut points);
                        core::mem::swap(b, &mut bucket);
                    },
                    Node::Stem { .. } => {},
                }
                assert(leaf_entries(points@, bucket@) == es);
                let mut left: KdTree<T> = KdTree::new_with_capacity(self.dimensions, self.capacity);
                let mut right: KdTree<T> = KdTree::new_with_capacity(self.dimensions, self.capacity);
                assert(touches(es, sd as int, lo as i64) && touches(es, sd as int, hi as i64)) by {
                    assert(faces_touched(es, self.lo(), self.hi(), sd as int));
                }
                let ghost wl = choose|i: int| 0 <= i < n && #[trigger] es[i].0[sd as int] == lo;
                let ghost wh = choose|i: int| 0 <= i < n && #[trigger] es[i].0[sd as int] == hi;
                assert(es.subrange(0, 0) =~= Seq::<Entry<T>>::empty());
                assert(left.entries() =~= Seq::<Entry<T>>::empty());
                assert(right.entries() =~= Seq::<Entry<T>>::empty());
                proof {
                    let m = es.subrange(0, 0).to_multiset();
                    es.subrange(0, 0).to_multiset_ensures();
                    assert(m.len() == 0);
                    assert(m =~= vstd::multiset::Multiset::empty());
                    assert(left.entries() == es.subrange(0, 0));
                    assert(right.entries() == es.subrange(0, 0));
                }
                assert(left.entries().to_multiset().add(right.entries().to_multiset()) =~= es.subrange(0, 0).to_multiset());
                let ghost mut i: int = 0;
                while points.len() > 0
                    invariant
                        0 <= i <= n,
                        n == es.len(),
                        n <= usize::MAX,
                        dims == self.dimensions,
                        0 <= sd < dims,
                        lo < hi,
                        split_sum == lo + hi,
                        all_have_dims(es, dims),
                        0 <= wl < n && es[wl].0[sd as int] == lo,
                        0 <= wh < n && es[wh].0[sd as int] == hi,
                        points@.len() == bucket@.len(),
                        leaf_entries(points@, bucket@) == es.subrange(i, n as int),
                        left.common_ok(),
                        right.common_ok(),
                        left.is_leaf_node() && right.is_leaf_node(),
                        left.leaf_shape_ok() && right.leaf_shape_ok(),
                        left.dimensions == self.dimensions && right.dimensions == self.dimensions,
                        left.capacity == self.capacity && right.capacity == self.capacity,
                        left.leaf_len() == left.entries().len(),
                        right.leaf_len() == right.entries().len(),
                        left.entries().len() + right.entries().len() == i,
                        left.entries().to_multiset().add(right.entries().to_multiset()) == es.subrange(0, i).to_multiset(),
                        forall|k: int|
                            0 <= k < left.entries().len() ==> 2 * #[trigger] left.entries()[k].0[sd as int] < split_sum,
                        forall|k: int|
                            0 <= k < right.entries().len() ==> 2 * #[trigger] right.entries()[k].0[sd as int] >= split_sum,
                        wl < i ==> left.entries().len() > 0,
                        wh < i ==> right.entries().len() > 0,
                        left.entries() == es.subrange(0, i).filter(left_of::<T>(sd as int, split_sum as int)),
                        right.entries() == es.subrange(0, i).filter(right_of::<T>(sd as int, split_sum as int)),
                        n == self.capacity + 1 || all_coincide(es.drop_last()),
                        all_coincide(es.drop_last()) ==> forall|k: int|
                            0 <= k < left.entries().len() ==> #[trigger] left.entries()[k].0 == es[wl].0,
                        all_coincide(es.drop_last()) ==> forall|k: int|
                            0 <= k < right.entries().len() ==> #[trigger] right.entries()[k].0 == es[wh].0,
                    decreases points@.len(),
                {
                    let ghost e = es[i];
                    assert(leaf_entries(points@, bucket@).len() == points@.len());
                    assert(i < n);
                    assert(es.subrange(i, n as int)[0] == es[i]);
                    assert(leaf_entries(points@, bucket@)[0] == e);
                    let ghost old_le = leaf_entries(points@, bucket@);
                    let point = points.remove(0);
                    let data = bucket.remove(0);
                    assert(leaf_entries(points@, bucket@).len() == points@.len());
                    assert(points@.len() == n - i - 1);
                    assert forall|k: int| 0 <= k < points@.len() implies #[trigger] leaf_entries(points@, bucket@)[k] == old_le[k + 1] by {}
                    assert(leaf_entries(points@, bucket@) =~= es.subrange(i + 1, n as int));
                    assert(es.subrange(0, i + 1) =~= es.subrange(0, i).push(e));
                    proof {
                        es.subrange(0, i).lemma_filter_push(e, left_of::<T>(sd as int, split_sum as int));
                        es.subrange(0, i).lemma_filter_push(e, right_of::<T>(sd as int, split_sum as int));
                        es.subrange(0, i).to_multiset_ensures();
                        left.entries().to_multiset_ensures();
                        right.entries().to_multiset_ensures();
                    }
                    proof {
                        if all_coincide(es.drop_last()) {
                            lemma_two_points(es, sd as int, wl, wh, i);
                        }
                    }
                    if 2 * (point[sd] as i64) < split_sum {
                        left.push_entry(point, data);
                        assert(left.entries().to_multiset().add(right.entries().to_multiset()) =~= es.subrange(0, i + 1).to_multiset());
                    } else {
                        right.push_entry(point, data);
                        assert(left.entries().to_multiset().add(right.entries().to_multiset()) =~= es.subrange(0, i + 1).to_multiset());
                    }
                    proof {
                        i = i + 1;
                    }
                }
                assert(es.subrange(0, i) =~= es);
                proof {
                    if n == self.capacity + 1 {
                        assert(left.entries().len() <= self.capacity);
                        assert(right.entries().len() <= self.capacity);
                    } else {
                        assert(all_coincide(left.entries()));
                        assert(all_coincide(right.entries()));
                    }
                }
                self.node = Node::Stem {
                    split_dimension: sd,
                    split_sum,
                    left: Box::new(left),
                    right: Box::new(right),
                };
                assert(left.wf());
                assert(right.wf());
                proof {
                    vstd::seq_lib::lemma_multiset_commutative(left.entries(), right.entries());
                    lemma_box_same_entries(es, self.entries(), self.lo(), self.hi(), dims);
                    es.to_multiset_ensures();
                    self.entries().to_multiset_ensures();
                }
                assert(all_have_dims(self.entries(), dims)) by {
                    assert forall|k: int| 0 <= k < self.entries().len() implies (#[trigger] self.entries()[k]).0.len() == dims by {
                        if k < left.entries().len() {
                            assert(self.entries()[k] == left.entries()[k]);
                        } else {
                            assert(self.entries()[k] == right.entries()[k - left.entries().len()]);
                        }
                    }
                }
            },
        }
    }

    /// Appends a pair to this leaf, then splits it if it has grown past its capacity.
    fn add_to_bucket(&mut self, point: Vec<i32>, data: T)
        requires
            old(self).wf(),
            old(self).is_leaf_node(),
            point@.len() == old(self).dimensions,
            old(self).size < usize::MAX,
        ensures
            final(self).wf(),
            final(self).dimensions == old(self).dimensions,
            final(self).capacity == old(self).capacity,
            final(self).entries().to_multiset() == old(self).entries().to_multiset().insert((point@, data)),
            final(self).size == old(self).size + 1,
            final(self).box_widened(*old(self), point@),
            final(self).leaf_grown(*old(self), (point@, data)),
    {
        let ghost es = self.entries();
        let ghost e = (point@, data);
        self.push_entry(point, data);
        proof {
            es.to_multiset_ensures();
        }
        if self.size > self.capacity {
            assert(self.entries().drop_last() =~= es);
            self.split();
        } else {
            assert(self.leaf_len() == self.entries().len());
        }
    }

    /// The number of levels below this node.
    pub closed spec fn height(self) -> nat
        decreases self,
    {
        match self.node {
            Node::Leaf { .. } => 0,
            Node::Stem { left, right, .. } => 1 + vstd::math::max(left.height() as int, right.height() as int) as nat,
        }
    }

    /// Descends to the leaf where `point` belongs, widening boxes and counts on the way.
    fn add_unchecked(&mut self, point: Vec<i32>, data: T)
        requires
            old(self).wf(),
            point@.len() == old(self).dimensions,
            old(self).size < usize::MAX,
        ensures
            final(self).wf(),
            final(self).dimensions == old(self).dimensions,
            final(self).capacity == old(self).capacity,
            final(self).entries().to_multiset() == old(self).entries().to_multiset().insert((point@, data)),
            final(self).grows_from(*old(self)),
            final(self).box_widened(*old(self), point@),
            final(self).changed_only_toward(*old(self), point@),
            old(self).is_leaf_node() ==> final(self).leaf_grown(*old(self), (point@, data)),
            !old(self).is_leaf_node() && 2 * point@[old(self).split_dim() as int] < old(self).split_at()
                ==> final(self).right_tree() == old(self).right_tree(),
            !old(self).is_leaf_node() && 2 * point@[old(self).split_dim() as int] >= old(self).split_at()
                ==> final(self).left_tree() == old(self).left_tree(),
        decreases old(self).height(),
    {
        if self.is_leaf() {
            self.add_to_bucket(point, data);
            return;
        }
        let ghost es = self.entries();
        let ghost e = (point@, data);
        let goes_left = self.belongs_in_left(&point);
        self.extend(&point);
        let ghost lo1 = self.lo();
        let ghost hi1 = self.hi();
        assert forall|d: int| 0 <= d < old(self).dimensions implies #[trigger] lo1[d] == min_i64(
            old(self).lo()[d],
            point@[d] as i64,
        ) by {
            assert(old(self).lo()[d] == old(self).min_bounds@[d]);
        }
        assert forall|d: int| 0 <= d < old(self).dimensions implies #[trigger] hi1[d] == max_i64(
            old(self).hi()[d],
            point@[d] as i64,
        ) by {
            assert(old(self).hi()[d] == old(self).max_bounds@[d]);
        }
        self.size = self.size + 1;
        match &mut self.node {
            Node::Stem { split_dimension, split_sum, left, right } => {
                let ghost sd = *split_dimension as int;
                let ghost ss = *split_sum as int;
                proof {
                    left.entries().to_multiset_ensures();
                    right.entries().to_multiset_ensures();
                }
                assert(es == left.entries() + right.entries());
                if goes_left {
                    assert(left.wf());
                    assert(left.size < usize::MAX);
                    assert(point@.len() == left.dimensions);
                    left.add_unchecked(point, data);
                    proof {
                        lemma_all_insert(old(self).left_entries(), e, left.entries(), |x: Entry<T>| 2 * x.0[sd] < ss);
                    }
                } else {
                    assert(right.wf());
                    assert(right.size < usize::MAX);
                    assert(point@.len() == right.dimensions);
                    right.add_unchecked(point, data);
                    proof {
                        lemma_all_insert(old(self).right_entries(), e, right.entries(), |x: Entry<T>| 2 * x.0[sd] >= ss);
                    }
                }
            },
            Node::Leaf { .. } => {},
        }
        proof {
            let l = self.left_entries();
            let r = self.right_entries();
            assert(self.children_wf());
            assert(all_have_dims(l, self.dimensions as int));
            assert(all_have_dims(r, self.dimensions as int));
            vstd::seq_lib::lemma_multiset_commutative(l, r);
            vstd::seq_lib::lemma_multiset_commutative(old(self).left_entries(), old(self).right_entries());
            es.to_multiset_ensures();
            assert(self.entries() == l + r);
            assert(self.entries().to_multiset() =~= es.to_multiset().insert(e));
            self.entries().to_multiset_ensures();
            assert(self.entries().len() == es.len() + 1);
            lemma_box_push(es, old(self).lo(), old(self).hi(), self.dimensions as int, e, self.lo(), self.hi());
            lemma_box_same_entries(es.push(e), self.entries(), self.lo(), self.hi(), self.dimensions as int);
            assert forall|k: int| 0 <= k < self.entries().len() implies (#[trigger] self.entries()[k]).0.len() == self.dimensions by {
                if k < l.len() {
                    assert(self.entries()[k] == l[k]);
                } else {
                    assert(self.entries()[k] == r[k - l.len()]);
                }
            }
            assert(self.lo() == lo1 && self.hi() == hi1);
            assert(self.common_ok());
            if goes_left {
                old(self).right_tree().lemma_grows_from_self();
            } else {
                old(self).left_tree().lemma_grows_from_self();
            }
            assert(old(self).left_tree().height() < old(self).height());
            assert(old(self).right_tree().height() < old(self).height());
        }
    }

    /// Both halves of an internal node keep the invariant.
    pub closed spec fn children_wf(self) -> bool {
        match self.node {
            Node::Stem { left, right, .. } => left.wf() && right.wf() && left.dimensions == self.dimensions
                && right.dimensions == self.dimensions && left.capacity == self.capacity && right.capacity
                == self.capacity,
            Node::Leaf { .. } => true,
        }
    }

    /// This tree is `old` grown by insertions: every internal node of `old`
    /// is internal here at the same place with the same split, and every leaf
    /// of `old` is a leaf here or an internal node over two leaves.
    pub open spec fn grows_from(self, old: KdTree<T>) -> bool
        decreases old.height(),
    {
        if old.is_leaf_node() {
            self.is_leaf_node() || (self.left_tree().is_leaf_node() && self.right_tree().is_leaf_node())
        } else if old.left_tree().height() >= old.height() || old.right_tree().height() >= old.height() {
            true
        } else {
            &&& !self.is_leaf_node()
            &&& self.split_dim() == old.split_dim()
            &&& self.split_at() == old.split_at()
            &&& self.left_tree().grows_from(old.left_tree())
            &&& self.right_tree().grows_from(old.right_tree())
        }
    }

    /// A tree has grown from itself.
    proof fn lemma_grows_from_self(&self)
        ensures
            self.grows_from(*self),
        decreases self,
    {
        match self.node {
            Node::Leaf { .. } => {},
            Node::Stem { left, right, .. } => {
                left.lemma_grows_from_self();
                right.lemma_grows_from_self();
                assert(self.left_tree().height() < self.height());
                assert(self.right_tree().height() < self.height());
            },
        }
    }

    /// What inserting `e` into the leaf `old` leaves. Below capacity, the
    /// leaf with `e` appended. At or over capacity, the same if the widened
    /// box has no side longer than zero; otherwise an internal node split on
    /// the first longest side at its middle, over two leaves that hold the
    /// entries of each side in order.
    pub open spec fn leaf_grown(self, old: KdTree<T>, e: Entry<T>) -> bool {
        let sd = first_widest(self.lo(), self.hi(), old.dims() as int);
        let sum = self.lo()[sd] + self.hi()[sd];
        let all = old.entries().push(e);
        &&& old.entries().len() < old.cap() ==> self.is_leaf_node()
        &&& old.entries().len() >= old.cap() ==> (self.is_leaf_node() <==> sd < 0)
        &&& self.is_leaf_node() ==> self.entries() == all
        &&& !self.is_leaf_node() ==> {
            &&& self.split_dim() == sd
            &&& self.split_at() == sum
            &&& self.left_tree().is_leaf_node()
            &&& self.right_tree().is_leaf_node()
            &&& self.left_entries() == all.filter(left_of::<T>(sd, sum))
            &&& self.right_entries() == all.filter(right_of::<T>(sd, sum))
        }
    }

    /// This tree's box is `old`'s widened to take in `p`.
    pub open spec fn box_widened(self, old: KdTree<T>, p: Seq<i32>) -> bool {
        &&& forall|d: int| 0 <= d < old.dims() ==> #[trigger] self.lo()[d] == min_i64(old.lo()[d], p[d] as i64)
        &&& forall|d: int| 0 <= d < old.dims() ==> #[trigger] self.hi()[d] == max_i64(old.hi()[d], p[d] as i64)
    }

    /// An internal node's left half; the node itself for a leaf.
    pub closed spec fn left_tree(self) -> KdTree<T> {
        match self.node {
            Node::Stem { left, .. } => *left,
            Node::Leaf { .. } => self,
        }
    }

    /// An internal node's right half; the node itself for a leaf.
    pub closed spec fn right_tree(self) -> KdTree<T> {
        match self.node {
            Node::Stem { right, .. } => *right,
            Node::Leaf { .. } => self,
        }
    }

    /// The entries of an internal node's left half.
    pub closed spec fn left_entries(self) -> Seq<Entry<T>> {
        match self.node {
            Node::Stem { left, .. } => left.entries(),
            Node::Leaf { .. } => Seq::empty(),
        }
    }

    /// The entries of an internal node's right half.
    pub closed spec fn right_entries(self) -> Seq<Entry<T>> {
        match self.node {
            Node::Stem { right, .. } => right.entries(),
            Node::Leaf { .. } => Seq::empty(),
        }
    }

    /// Inserts `point` with its payload. A tree of capacity zero refuses every
    /// point, and so does a tree whose dimensionality the point does not have;
    /// then the tree is left as it was.
    pub fn add(&mut self, point: Vec<i32>, data: T) -> (r: Result<(), ErrorKind>)
        requires
            old(self).wf(),
            old(self).entries().len() < usize::MAX,
        ensures
            final(self).wf(),
            final(self).dims() == old(self).dims(),
            final(self).cap() == old(self).cap(),
            old(self).cap() == 0 ==> r == Err::<(), ErrorKind>(ErrorKind::ZeroCapacity),
            old(self).cap() != 0 && point@.len() != old(self).dims() ==> r == Err::<(), ErrorKind>(ErrorKind::WrongDimension),
            old(self).cap() != 0 && point@.len() == old(self).dims() ==> r is Ok,
            r is Ok ==> final(self).entries().to_multiset() == old(self).entries().to_multiset().insert((point@, data)),
            r is Ok ==> final(self).entries().len() == old(self).entries().len() + 1,
            r is Err ==> *final(self) == *old(self),
            r is Ok ==> final(self).grows_from(*old(self)),
            r is Ok ==> final(self).changed_only_toward(*old(self), point@),
            r is Ok ==> final(self).box_widened(*old(self), point@),
            r is Ok && old(self).is_leaf_node() ==> final(self).leaf_grown(*old(self), (point@, data)),
    {
        if self.capacity == 0 {
            return Err(ErrorKind::ZeroCapacity);
        }
        if let Err(err) = self.check_point(&point) {
            return Err(err);
        }
        self.add_unchecked(point, data);
        proof {
            lemma_insert_count(old(self).entries(), self.entries(), (point@, data));
        }
        Ok(())
    }

    /// Scores every point of this leaf against `point` and offers it to the
    /// sorted candidates `best`, of which at most `num` are kept.
    fn score_leaf<'a>(&'a self, point: &Vec<i32>, num: usize, best: &mut Vec<Candidate<'a, T>>)
        requires
            self.wf(),
            self.is_leaf_node(),
            point@.len() == self.dims(),
            num > 0,
            old(best)@.len() <= num,
            sorted_by_dist(old(best)@),
        ensures
            keeps_best(old(best)@, cands_of(self.entries(), point@).to_multiset(), final(best)@, num as nat),
            old(best)@.len() == num && (forall|j: int|
                0 <= j < self.entries().len() ==> (#[trigger] cands_of::<'a, T>(self.entries(), point@)[j]).0
                    >= worst(old(best)@)) ==> final(best)@ == old(best)@,
            final(best)@ == insert_all(old(best)@, cands_of(self.entries(), point@), num as nat),
    {
        broadcast use vstd::seq_lib::group_to_multiset_ensures, vstd::multiset::group_multiset_axioms;
        let ghost q = point@;
        match &self.node {
            Node::Leaf { points, bucket } => {
                let ghost es = self.entries();
                let ghost b0 = best@;
                proof {
                    lemma_keeps_best_none(b0, num as nat);
                    assert(cands_of::<'a, T>(es, q).take(0) =~= Seq::<Candidate<'a, T>>::empty());
                    assert(insert_all(b0, cands_of::<'a, T>(es, q).take(0), num as nat) == b0);
                    vstd::multiset::lemma_multiset_empty_len(cands_of::<'a, T>(es, q).take(0).to_multiset());
                    assert(cands_of::<'a, T>(es, q).take(0).to_multiset() =~= Multiset::empty());
                }
                let mut i: usize = 0;
                while i < points.len()
                    invariant
                        i <= points@.len(),
                        points@.len() == bucket@.len(),
                        es == leaf_entries(points@, bucket@),
                        all_have_dims(es, self.dimensions as int),
                        point@ == q,
                        q.len() == self.dimensions,
                        num > 0,
                        b0.len() <= num,
                        best@.len() <= num,
                        keeps_best(b0, cands_of::<'a, T>(es, q).take(i as int).to_multiset(), best@, num as nat),
                        es == self.entries(),
                        b0 == old(best)@,
                        b0.len() == num && (forall|j: int|
                            0 <= j < es.len() ==> (#[trigger] cands_of::<'a, T>(es, q)[j]).0 >= worst(b0)) ==> best@ == b0,
                        best@ == insert_all(b0, cands_of::<'a, T>(es, q).take(i as int), num as nat),
                    decreases points@.len() - i,
                {
                    assert(es[i as int].0.len() == self.dimensions);
                    let d = squared_euclidean(point, &points[i]);
                    let c: Candidate<'a, T> = (d, &bucket[i]);
                    let ghost b1 = best@;
                    proof {
                        assert(c == cands_of::<'a, T>(es, q)[i as int]);
                        assert(b1.len() <= num);
                    }
                    insert_bounded(best, c, num);
                    proof {
                        let cs = cands_of::<'a, T>(es, q);
                        lemma_keeps_best_compose(b0, cs.take(i as int).to_multiset(), b1, Multiset::singleton(c), best@, num as nat);
                        assert(cs.take(i + 1) =~= cs.take(i as int).push(c));
                        assert(cs.take(i + 1).drop_last() =~= cs.take(i as int));
                        assert(Multiset::singleton(c) =~= Multiset::empty().insert(c));
                        vstd::seq_lib::to_multiset_build(cs.take(i as int), c);
                        assert(cs.take(i as int).to_multiset().add(Multiset::singleton(c)) =~= cs.take(i + 1).to_multiset());
                    }
                    i = i + 1;
                }
                proof {
                    assert(cands_of::<'a, T>(es, q).take(i as int) =~= cands_of::<'a, T>(es, q));
                }
            },
            Node::Stem { .. } => {},
        }
    }

    /// The number of leaves of the subtree.
    pub closed spec fn leaf_count(self) -> nat
        decreases self,
    {
        match self.node {
            Node::Leaf { .. } => 1,
            Node::Stem { left, right, .. } => left.leaf_count() + right.leaf_count(),
        }
    }

    /// The half of an internal node that `q` belongs to.
    pub open spec fn near_child(self, q: Seq<i32>) -> KdTree<T> {
        if 2 * q[self.split_dim() as int] < self.split_at() { self.left_tree() } else { self.right_tree() }
    }

    /// The half of an internal node that `q` does not belong to.
    pub open spec fn far_child(self, q: Seq<i32>) -> KdTree<T> {
        if 2 * q[self.split_dim() as int] < self.split_at() { self.right_tree() } else { self.left_tree() }
    }

    /// The squared distance from `q` to this node's box.
    pub open spec fn bound_for(self, q: Seq<i32>) -> int {
        box_dist_upto(q, self.lo(), self.hi(), q.len() as int)
    }

    /// This tree is `old` with a point added along the path toward `p`: each
    /// internal node on that path keeps its split, and every subtree hanging
    /// off the path is unchanged.
    pub open spec fn changed_only_toward(self, old: KdTree<T>, p: Seq<i32>) -> bool
        decreases old.height(),
    {
        if old.is_leaf_node() || old.near_child(p).height() >= old.height() {
            true
        } else {
            &&& !self.is_leaf_node()
            &&& self.split_dim() == old.split_dim()
            &&& self.split_at() == old.split_at()
            &&& self.far_child(p) == old.far_child(p)
            &&& self.near_child(p).changed_only_toward(old.near_child(p), p)
        }
    }

    /// The leaf reached by descending from this node toward `q`.
    pub open spec fn leaf_for(self, q: Seq<i32>) -> KdTree<T>
        decreases self.height(),
    {
        if self.is_leaf_node() || self.near_child(q).height() >= self.height() {
            self
        } else {
            self.near_child(q).leaf_for(q)
        }
    }

    /// The far halves met while descending from this node toward `q`, in
    /// order, each with its bound, keeping only those whose bound is at most `w`.
    pub open spec fn descent_pushes<'a>(self, q: Seq<i32>, w: u128) -> Seq<Pending<'a, T>>
        decreases self.height(),
    {
        if self.is_leaf_node() || self.near_child(q).height() >= self.height() {
            Seq::empty()
        } else {
            let f = self.far_child(q);
            let lb = f.bound_for(q);
            (if lb <= w { seq![(lb as u128, &f)] } else { Seq::empty() }) + self.near_child(q).descent_pushes(q, w)
        }
    }

    /// The candidates of the far halves met while descending from this node
    /// toward `q` whose bound exceeds `w`: those a search step drops.
    pub open spec fn pruned_cands<'a>(self, q: Seq<i32>, w: u128) -> Multiset<Candidate<'a, T>>
        decreases self.height(),
    {
        if self.is_leaf_node() || self.near_child(q).height() >= self.height() {
            Multiset::empty()
        } else {
            let f = self.far_child(q);
            (if f.bound_for(q) > w { cands_of::<'a, T>(f.entries(), q).to_multiset() } else { Multiset::empty() }).add(
                self.near_child(q).pruned_cands(q, w),
            )
        }
    }

    /// The squared distance from `point` to this subtree's box bounds the
    /// squared distance to each of its points from below.
    proof fn lemma_far_bound<'a>(&self, q: Seq<i32>, lb: u128)
        requires
            self.wf(),
            self.entries().len() > 0,
            q.len() == self.dims(),
            lb == box_dist_upto(q, self.lo(), self.hi(), q.len() as int),
        ensures
            bounds_below(lb, *self, q),
    {
        broadcast use vstd::seq_lib::group_to_multiset_ensures;
        let cf = cands_of::<'a, T>(self.entries(), q);
        assert forall|x: Candidate<'a, T>| #[trigger] cf.to_multiset().count(x) > 0 implies lb <= x.0 by {
            assert(cf.contains(x));
            let j = choose|j: int| 0 <= j < cf.len() && cf[j] == x;
            let p = self.entries()[j].0;
            assert(box_covers(self.entries(), self.lo(), self.hi(), self.dimensions as int));
            assert forall|d: int| 0 <= d < q.len() implies self.lo()[d] <= #[trigger] p[d] <= self.hi()[d] by {
                assert(lo_le(self.entries(), self.lo(), self.hi(), j, d));
            }
            lemma_box_dist_lower(q, p, self.lo(), self.hi(), q.len() as int);
            lemma_sq_dist_bound(q, p, q.len() as int);
            assert(q.len() < 0x1_0000_0000_0000_0000);
            assert(q.len() * 0x1_0000_0000_0000_0000 <= u128::MAX) by (nonlinear_arith)
                requires
                    q.len() < 0x1_0000_0000_0000_0000,
            ;
        }
    }

    /// Takes the waiting subtree with the smallest bound, descends it to a
    /// leaf, and scores that leaf. At each internal node on the way the half
    /// that holds the query is followed; the other half waits, unless `best`
    /// was full when the step began and its box is farther than the farthest
    /// candidate kept then. The step takes at least one leaf out of the
    /// waiting subtrees, so a search makes at most as many steps as the tree
    /// has leaves.
    fn nearest_step<'a>(
        &self,
        point: &Vec<i32>,
        num: usize,
        pending: &mut Vec<Pending<'a, T>>,
        best: &mut Vec<Candidate<'a, T>>,
    ) -> (r: usize)
        requires
            old(pending)@.len() > 0,
            pending_ok(old(pending)@, point@, self.dims()),
            point@.len() == self.dims(),
            num > 0,
            old(best)@.len() <= num,
            sorted_by_dist(old(best)@),
        ensures
            pending_ok(final(pending)@, point@, self.dims()),
            pending_leaves(final(pending)@) < pending_leaves(old(pending)@),
            pending_cands(final(pending)@, point@).subset_of(pending_cands(old(pending)@, point@)),
            keeps_best(
                old(best)@,
                pending_cands(old(pending)@, point@).sub(pending_cands(final(pending)@, point@)),
                final(best)@,
                num as nat,
            ),
            r < old(pending)@.len(),
            forall|j: int| 0 <= j < old(pending)@.len() ==> old(pending)@[r as int].0 <= (#[trigger] old(pending)@[j]).0,
            forall|j: int| 0 <= j < r ==> old(pending)@[r as int].0 < (#[trigger] old(pending)@[j]).0,
            final(pending)@.len() >= old(pending)@.len() - 1,
            final(pending)@.subrange(0, old(pending)@.len() - 1) == old(pending)@.remove(r as int),
            final(pending)@.len() - (old(pending)@.len() - 1) <= old(pending)@[r as int].1.height(),
            forall|j: int|
                old(pending)@.len() - 1 <= j < final(pending)@.len() ==> pushed_ok(
                    #[trigger] final(pending)@[j],
                    point@,
                    old(best)@,
                    num as nat,
                ),
            ({
                let w = if old(best)@.len() < num { u128::MAX } else { worst(old(best)@) };
                let top = old(pending)@[r as int].1;
                let leaf = top.leaf_for(point@);
                &&& final(pending)@ == old(pending)@.remove(r as int) + top.descent_pushes(point@, w)
                &&& forall|x: Candidate<'a, T>| #[trigger] top.pruned_cands(point@, w).count(x) > 0 ==> x.0 > w
                &&& keeps_best(old(best)@, cands_of(leaf.entries(), point@).to_multiset(), final(best)@, num as nat)
                &&& final(best)@ == insert_all(old(best)@, cands_of(leaf.entries(), point@), num as nat)
                &&& old(best)@.len() == num && (forall|j: int|
                    0 <= j < leaf.entries().len() ==> (#[trigger] cands_of::<'a, T>(leaf.entries(), point@)[j]).0
                        >= worst(old(best)@)) ==> final(best)@ == old(best)@
            }),
    {
        broadcast use vstd::seq_lib::group_to_multiset_ensures, vstd::multiset::group_multiset_axioms;
        let ghost q = point@;
        let ghost dims = self.dims();
        let ghost p0 = pending@;
        let ghost b0 = best@;
        let idx = lowest(pending);
        let top = pending.remove(idx);
        let mut curr: &'a KdTree<T> = top.1;
        proof {
            assert(pending@.subrange(0, p0.len() - 1) =~= pending@);
            lemma_pending_remove(p0, idx as int, q);
            assert(p0[idx as int] == top);
            assert(pending_ok(pending@, q, dims)) by {
                assert forall|j: int| 0 <= j < pending@.len() implies (#[trigger] pending@[j]).1.wf()
                    && pending@[j].1.dims() == dims && bounds_below(pending@[j].0, *pending@[j].1, q) by {
                    if j < idx {
                        assert(pending@[j] == p0[j]);
                    } else {
                        assert(pending@[j] == p0[j + 1]);
                    }
                }
            }
            lemma_keeps_best_none(b0, num as nat);
        }
        let evaluated_dist: u128 = if best.len() < num {
            u128::MAX
        } else {
            best[best.len() - 1].0
        };
        let ghost mut h: Multiset<Candidate<'a, T>> = Multiset::empty();
        let ghost mut pruned: Multiset<Candidate<'a, T>> = Multiset::empty();
        proof {
            assert(pending@.subrange(p0.len() - 1, pending@.len() as int) =~= Seq::<Pending<'a, T>>::empty());
            assert(Seq::<Pending<'a, T>>::empty() + top.1.descent_pushes(q, evaluated_dist) =~= top.1.descent_pushes(q, evaluated_dist));
            assert(pruned.add(top.1.pruned_cands(q, evaluated_dist)) =~= top.1.pruned_cands(q, evaluated_dist));
            assert(h.add(cands_of::<'a, T>(curr.entries(), q).to_multiset()).add(pending_cands(pending@, q))
                =~= pending_cands(p0, q));
        }
        while !curr.is_leaf()
            invariant
                curr.wf(),
                curr.dims() == dims,
                dims == self.dims(),
                point@ == q,
                q.len() == dims,
                num > 0,
                b0.len() <= num,
                best@ == b0,
                sorted_by_dist(b0),
                pending_ok(pending@, q, dims),
                h.add(cands_of::<'a, T>(curr.entries(), q).to_multiset()).add(pending_cands(pending@, q))
                    == pending_cands(p0, q),
                pending_leaves(pending@) + curr.leaf_count() <= pending_leaves(p0),
                keeps_best(b0, h, b0, num as nat),
                evaluated_dist == (if b0.len() < num { u128::MAX } else { worst(b0) }),
                p0.len() > 0,
                idx < p0.len(),
                pending@.len() >= p0.len() - 1,
                pending@.subrange(0, p0.len() - 1) == p0.remove(idx as int),
                pending@.len() - (p0.len() - 1) + curr.height() <= top.1.height(),
                forall|j: int| p0.len() - 1 <= j < pending@.len() ==> pushed_ok(#[trigger] pending@[j], q, b0, num as nat),
                pending@.subrange(p0.len() - 1, pending@.len() as int) + curr.descent_pushes(q, evaluated_dist)
                    == top.1.descent_pushes(q, evaluated_dist),
                curr.leaf_for(q) == top.1.leaf_for(q),
                pruned.add(curr.pruned_cands(q, evaluated_dist)) == top.1.pruned_cands(q, evaluated_dist),
                forall|x: Candidate<'a, T>| #[trigger] pruned.count(x) > 0 ==> x.0 > evaluated_dist,
            decreases curr.height(),
        {
            let goes_left = curr.belongs_in_left(point);
            let ghost c0 = *curr;
            let ghost pend0 = pending@;
            let (near, far): (&'a KdTree<T>, &'a KdTree<T>) = match &curr.node {
                Node::Stem { left, right, .. } => if goes_left {
                    (&**left, &**right)
                } else {
                    (&**right, &**left)
                },
                Node::Leaf { .. } => (curr, curr),
            };
            let ghost cn = cands_of::<'a, T>(near.entries(), q).to_multiset();
            let ghost cf = cands_of::<'a, T>(far.entries(), q).to_multiset();
            proof {
                let cl = cands_of::<'a, T>(c0.left_entries(), q);
                let cr = cands_of::<'a, T>(c0.right_entries(), q);
                assert(cands_of::<'a, T>(c0.entries(), q) =~= cl + cr);
                vstd::seq_lib::lemma_multiset_commutative(cl, cr);
                assert(cands_of::<'a, T>(c0.entries(), q).to_multiset() =~= cn.add(cf));
                assert(far.wf() && far.entries().len() > 0 && far.dimensions == self.dimensions);
                lemma_box_in_range_all(far.entries(), far.lo(), far.hi(), far.dimensions as int);
            }
            let lb = distance_to_space(point, &far.min_bounds, &far.max_bounds);
            proof {
                far.lemma_far_bound(q, lb);
            }
            proof {
                assert(near.height() < c0.height() && far.height() < c0.height());
                assert(near == c0.near_child(q) && far == c0.far_child(q));
                assert(far.bound_for(q) == lb);
                assert(c0.leaf_for(q) == near.leaf_for(q));
            }
            if lb <= evaluated_dist {
                pending.push((lb, far));
                proof {
                    assert(pending@.subrange(0, p0.len() - 1) =~= pend0.subrange(0, p0.len() - 1));
                    assert(pending@[pending@.len() - 1] == (lb, far));
                    let pushes = near.descent_pushes(q, evaluated_dist);
                    assert(c0.descent_pushes(q, evaluated_dist) == seq![(lb, far)] + pushes);
                    assert(pending@.subrange(p0.len() - 1, pending@.len() as int) =~= pend0.subrange(
                        p0.len() - 1,
                        pend0.len() as int,
                    ).push((lb, far)));
                    assert(pending@.subrange(p0.len() - 1, pending@.len() as int) + pushes =~= pend0.subrange(
                        p0.len() - 1,
                        pend0.len() as int,
                    ) + (seq![(lb, far)] + pushes));
                    assert(c0.pruned_cands(q, evaluated_dist) =~= near.pruned_cands(q, evaluated_dist));
                    assert(pending@.drop_last() =~= pend0);
                    assert(pending_cands(pending@, q) =~= pending_cands(pend0, q).add(cf));
                    assert(h.add(cn).add(pending_cands(pending@, q)) =~= h.add(cn.add(cf)).add(pending_cands(pend0, q)));
                    assert(pending_ok(pending@, q, dims)) by {
                        assert forall|j: int| 0 <= j < pending@.len() implies (#[trigger] pending@[j]).1.wf()
                            && pending@[j].1.dims() == dims && bounds_below(pending@[j].0, *pending@[j].1, q) by {
                            if j < pend0.len() {
                                assert(pending@[j] == pend0[j]);
                            }
                        }
                    }
                }
            } else {
                proof {
                    assert forall|x: Candidate<'a, T>| #[trigger] cf.count(x) > 0 implies x.0 >= worst(b0) by {}
                    lemma_keeps_best_prune(b0, cf, num as nat);
                    lemma_keeps_best_compose(b0, h, b0, cf, b0, num as nat);
                    assert(h.add(cf).add(cn).add(pending_cands(pend0, q)) =~= h.add(cn.add(cf)).add(pending_cands(pend0, q)));
                    h = h.add(cf);
                    assert(c0.descent_pushes(q, evaluated_dist) =~= near.descent_pushes(q, evaluated_dist));
                    assert(c0.pruned_cands(q, evaluated_dist) == cf.add(near.pruned_cands(q, evaluated_dist)));
                    assert(pruned.add(cf).add(near.pruned_cands(q, evaluated_dist)) =~= pruned.add(
                        c0.pruned_cands(q, evaluated_dist),
                    ));
                    assert forall|x: Candidate<'a, T>| #[trigger] cf.count(x) > 0 implies x.0 > evaluated_dist by {}
                    pruned = pruned.add(cf);
                }
            }
            curr = near;
        }
        let ghost cc = cands_of::<'a, T>(curr.entries(), q).to_multiset();
        curr.score_leaf(point, num, best);
        proof {
            lemma_keeps_best_compose(b0, h, b0, cc, best@, num as nat);
            assert(h.add(cc).add(pending_cands(pending@, q)) == pending_cands(p0, q));
            lemma_sub_add(h.add(cc), pending_cands(pending@, q), pending_cands(p0, q));
            curr.lemma_leaf_count_positive();
        }
        idx
    }

    /// A subtree has at least one leaf.
    proof fn lemma_leaf_count_positive(&self)
        ensures
            self.leaf_count() >= 1,
        decreases self,
    {
        match self.node {
            Node::Leaf { .. } => {},
            Node::Stem { left, right, .. } => {
                left.lemma_leaf_count_positive();
            },
        }
    }

    /// The `num` payloads nearest to `point`, with their squared Euclidean
    /// distances, nearest first; `num` is cut down to the number of points.
    /// A query of the wrong dimensionality is refused. The result is the one
    /// best-first search from the root gives, so equal distances always come
    /// in the same order.
    pub fn nearest<'a>(&'a self, point: &Vec<i32>, num: usize) -> (r: Result<Vec<Candidate<'a, T>>, ErrorKind>)
        requires
            self.wf(),
        ensures
            point@.len() != self.dims() ==> r == Err::<Vec<Candidate<'a, T>>, ErrorKind>(ErrorKind::WrongDimension),
            point@.len() == self.dims() ==> r is Ok,
            r is Ok ==> keeps_best(
                Seq::empty(),
                cands_of(self.entries(), point@).to_multiset(),
                r->Ok_0@,
                min_nat(num as nat, self.entries().len()),
            ),
            r is Ok && min_nat(num as nat, self.entries().len()) > 0 ==> r->Ok_0@ == search_from(
                seq![(0u128, self)],
                Seq::empty(),
                min_nat(num as nat, self.entries().len()),
                point@,
                self.leaf_count(),
            ),
    {
        broadcast use vstd::seq_lib::group_to_multiset_ensures, vstd::multiset::group_multiset_axioms;
        if let Err(err) = self.check_point(point) {
            return Err(err);
        }
        let num = if num < self.size { num } else { self.size };
        let ghost q = point@;
        let ghost all = cands_of::<'a, T>(self.entries(), point@).to_multiset();
        let mut best: Vec<Candidate<'a, T>> = Vec::new();
        proof {
            best@.to_multiset_ensures();
            vstd::multiset::lemma_multiset_empty_len(best@.to_multiset());
            vstd::multiset::lemma_multiset_empty_len(all);
        }
        if num == 0 {
            proof {
                if all.len() == 0 {
                    assert(best@.to_multiset().add(all) =~= best@.to_multiset());
                }
            }
            return Ok(best);
        }
        let mut pending: Vec<Pending<'a, T>> = Vec::new();
        pending.push((0, self));
        let ghost mut handled: Multiset<Candidate<'a, T>> = Multiset::empty();
        proof {
            assert(pending@.drop_last() =~= Seq::<Pending<'a, T>>::empty());
            assert(pending_cands(pending@.drop_last(), q) == Multiset::<Candidate<'a, T>>::empty());
            assert(pending@.last().1 == self);
            assert(pending_cands(pending@, q) == pending_cands(pending@.drop_last(), q).add(all));
            assert(pending_cands(pending@, q) =~= all);
            assert(handled.add(all) =~= all);
            lemma_keeps_best_none(best@, num as nat);
            assert(best@.to_multiset() =~= Multiset::empty());
            assert(pending@[0] == (0u128, self));
        }
        let ghost mut fuel: nat = self.leaf_count();
        let ghost result = search_from(pending@, best@, num as nat, q, fuel);
        proof {
            assert(pending@ == seq![(0u128, self)]);
            assert(pending@.drop_last() =~= Seq::<Pending<'a, T>>::empty());
            assert(pending_leaves(pending@) == pending_leaves(pending@.drop_last()) + self.leaf_count());
        }
        let mut go = true;
        while go
            invariant
                point@ == q,
                q.len() == self.dims(),
                num > 0,
                num as nat == min_nat(num as nat, self.entries().len()),
                all == cands_of::<'a, T>(self.entries(), point@).to_multiset(),
                go ==> pending@.len() > 0,
                pending_ok(pending@, q, self.dims()),
                handled.add(pending_cands(pending@, q)) == all,
                keeps_best(Seq::empty(), handled, best@, num as nat),
                best@.len() <= num,
                !go ==> pending@.len() == 0 || (best@.len() == num && forall|j: int|
                    0 <= j < pending@.len() ==> (#[trigger] pending@[j]).0 >= worst(best@)),
                go == search_goes_on(pending@, best@, num as nat),
                pending_leaves(pending@) <= fuel,
                search_from(pending@, best@, num as nat, q, fuel) == result,
            decreases pending_leaves(pending@) + (if go { 1nat } else { 0nat }),
        {
            let ghost p0 = pending@;
            let ghost b0 = best@;
            let step = self.nearest_step(point, num, &mut pending, &mut best);
            proof {
                lemma_first_lowest(p0, step as int);
                fuel = (fuel - 1) as nat;
                lemma_keeps_best_compose(Seq::empty(), handled, b0, pending_cands(p0, q).sub(pending_cands(pending@, q)), best@, num as nat);
                assert(handled.add(pending_cands(p0, q).sub(pending_cands(pending@, q))).add(pending_cands(pending@, q)) =~= all);
                handled = handled.add(pending_cands(p0, q).sub(pending_cands(pending@, q)));
            }
            go = if pending.len() == 0 {
                false
            } else if best.len() < num {
                true
            } else {
                let i = lowest(&pending);
                proof {
                    lemma_first_lowest(pending@, i as int);
                }
                pending[i].0 < best[best.len() - 1].0
            };
        }
        assert(best@ == result);
        proof {
            let rest = pending_cands(pending@, q);
            if pending@.len() == 0 {
                assert(rest =~= Multiset::empty());
                assert(handled.add(rest) =~= handled);
            } else {
                lemma_pending_lower(pending@, q, self.dims(), worst(best@));
                lemma_keeps_best_prune(best@, rest, num as nat);
                lemma_keeps_best_compose(Seq::empty(), handled, best@, rest, best@, num as nat);
            }
        }
        Ok(best)
    }

    /// A node's box is exactly the coordinate-wise extent of the points
    /// below it, every such point has the tree's number of coordinates, and a
    /// box holding a point has each lower face at or below its upper face.
    /// Both halves of an internal node keep the invariant, so this holds at
    /// every node.
    pub proof fn lemma_bounds_exact(&self)
        requires
            self.wf(),
        ensures
            box_exact(self.entries(), self.lo(), self.hi(), self.dims() as int),
            all_have_dims(self.entries(), self.dims() as int),
            !self.is_leaf_node() ==> self.left_tree().wf() && self.right_tree().wf(),
            self.entries().len() > 0 ==> forall|d: int| 0 <= d < self.dims() ==> #[trigger] self.lo()[d] <= self.hi()[d],
    {
        if self.entries().len() > 0 {
            lemma_box_in_range_all(self.entries(), self.lo(), self.hi(), self.dims() as int);
        }
    }

    /// Asking for as many neighbours as there are points gives back every
    /// point's squared distance with its payload: what a linear scan over all
    /// points gives, as a multiset.
    pub proof fn lemma_nearest_all<'a>(&self, q: Seq<i32>, r: Seq<Candidate<'a, T>>)
        requires
            keeps_best(Seq::empty(), cands_of(self.entries(), q).to_multiset(), r, self.entries().len()),
        ensures
            r.to_multiset() == cands_of::<'a, T>(self.entries(), q).to_multiset(),
    {
        cands_of::<'a, T>(self.entries(), q).to_multiset_ensures();
        lemma_keeps_best_all(r, cands_of::<'a, T>(self.entries(), q).to_multiset());
    }

    /// After any sequence of insertions every leaf holds at most `capacity`
    /// points, unless all of its points are one point.
    pub proof fn lemma_leaves_within_capacity(&self)
        requires
            self.wf(),
        ensures
            self.leaves_within_capacity(),
        decreases self.height(),
    {
        match self.node {
            Node::Leaf { .. } => {},
            Node::Stem { left, right, .. } => {
                left.lemma_leaves_within_capacity();
                right.lemma_leaves_within_capacity();
                assert(self.left_tree().height() < self.height());
                assert(self.right_tree().height() < self.height());
            },
        }
    }
}


/// The index of a waiting subtree with the smallest bound.
fn lowest<'a, T>(pending: &Vec<Pending<'a, T>>) -> (r: usize)
    requires
        pending@.len() > 0,
    ensures
        r < pending@.len(),
        forall|j: int| 0 <= j < pending@.len() ==> pending@[r as int].0 <= (#[trigger] pending@[j]).0,
        forall|j: int| 0 <= j < r ==> pending@[r as int].0 < (#[trigger] pending@[j]).0,
{
    let mut r: usize = 0;
    let mut i: usize = 1;
    while i < pending.len()
        invariant
            1 <= i <= pending@.len(),
            r < i,
            forall|j: int| 0 <= j < i ==> pending@[r as int].0 <= (#[trigger] pending@[j]).0,
            forall|j: int| 0 <= j < r ==> pending@[r as int].0 < (#[trigger] pending@[j]).0,
        decreases pending@.len() - i,
    {
        if pending[i].0 < pending[r].0 {
            r = i;
        }
        i = i + 1;
    }
    r
}

} // verus!
