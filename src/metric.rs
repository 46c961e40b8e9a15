use vstd::prelude::*;

verus! {

/// Sum of squared coordinate differences over the first `n` axes.
pub open spec fn sq_dist_upto(a: Seq<i32>, b: Seq<i32>, n: int) -> int
    decreases n,
{
    if n <= 0 {
        0
    } else {
        sq_dist_upto(a, b, n - 1) + (a[n - 1] - b[n - 1]) * (a[n - 1] - b[n - 1])
    }
}

/// The squared Euclidean distance between two points of one dimensionality.
pub open spec fn sq_dist(a: Seq<i32>, b: Seq<i32>) -> int {
    sq_dist_upto(a, b, a.len() as int)
}

/// How far `q` lies outside the interval `[lo, hi]`; zero inside it.
pub open spec fn gap(q: int, lo: int, hi: int) -> int {
    if q < lo {
        lo - q
    } else if q > hi {
        q - hi
    } else {
        0
    }
}

/// Squared distance from `q` to the box `[lo, hi]` over the first `n` axes.
pub open spec fn box_dist_upto(q: Seq<i32>, lo: Seq<i64>, hi: Seq<i64>, n: int) -> int
    decreases n,
{
    if n <= 0 {
        0
    } else {
        box_dist_upto(q, lo, hi, n - 1) + gap(q[n - 1] as int, lo[n - 1] as int, hi[n - 1] as int) * gap(
            q[n - 1] as int,
            lo[n - 1] as int,
            hi[n - 1] as int,
        )
    }
}

/// The squared distance from `q` to a box is a lower bound of the squared
/// distance from `q` to any point inside the box.
pub proof fn lemma_box_dist_lower(q: Seq<i32>, p: Seq<i32>, lo: Seq<i64>, hi: Seq<i64>, n: int)
    requires
        0 <= n <= q.len(),
        n <= p.len(),
        n <= lo.len(),
        n <= hi.len(),
        forall|d: int| 0 <= d < n ==> lo[d] <= #[trigger] p[d] <= hi[d],
    ensures
        box_dist_upto(q, lo, hi, n) <= sq_dist_upto(q, p, n),
    decreases n,
{
    if n > 0 {
        lemma_box_dist_lower(q, p, lo, hi, n - 1);
        let d = n - 1;
        let g = gap(q[d] as int, lo[d] as int, hi[d] as int);
        let x = q[d] - p[d];
        assert(lo[d] <= p[d] <= hi[d]);
        assert(0 <= g);
        assert(g <= x || g <= -x);
        assert(g * g <= x * x) by (nonlinear_arith)
            requires
                0 <= g,
                g <= x || g <= -x,
        ;
    }
}

/// Each axis adds less than 2^64 to a squared distance.
pub proof fn lemma_sq_dist_bound(a: Seq<i32>, b: Seq<i32>, n: int)
    requires
        0 <= n <= a.len(),
        n <= b.len(),
    ensures
        0 <= sq_dist_upto(a, b, n) <= n * 0x1_0000_0000_0000_0000,
    decreases n,
{
    if n > 0 {
        lemma_sq_dist_bound(a, b, n - 1);
        let x = a[n - 1] - b[n - 1];
        assert(0 <= x * x <= 0x1_0000_0000_0000_0000) by (nonlinear_arith)
            requires
                -0x1_0000_0000 < x < 0x1_0000_0000,
        ;
    }
}

/// The squared Euclidean distance between two points of one dimensionality.
pub fn squared_euclidean(a: &Vec<i32>, b: &Vec<i32>) -> (r: u128)
    requires
        a@.len() == b@.len(),
    ensures
        r == sq_dist(a@, b@),
{
    let mut acc: u128 = 0;
    let mut i: usize = 0;
    while i < a.len()
        invariant
            i <= a@.len(),
            a@.len() == b@.len(),
            acc == sq_dist_upto(a@, b@, i as int),
            acc <= i * 0x1_0000_0000_0000_0000,
        decreases a@.len() - i,
    {
        let x = a[i] as i64;
        let y = b[i] as i64;
        let diff: u64 = if x >= y {
            (x - y) as u64
        } else {
            (y - x) as u64
        };
        assert(diff < 0x1_0000_0000);
        assert((diff as u128) * (diff as u128) < 0x1_0000_0000_0000_0000) by (nonlinear_arith)
            requires
                diff < 0x1_0000_0000,
        ;
        let sq: u128 = (diff as u128) * (diff as u128);
        assert(sq == (a@[i as int] - b@[i as int]) * (a@[i as int] - b@[i as int])) by (nonlinear_arith)
            requires
                diff == x - y || diff == y - x,
                x == a@[i as int],
                y == b@[i as int],
                sq == diff * diff,
        ;
        assert(sq < 0x1_0000_0000_0000_0000) by (nonlinear_arith)
            requires
                diff < 0x1_0000_0000,
                sq == diff * diff,
        ;
        assert(i < 0x1_0000_0000_0000_0000);
        assert(acc + sq < (i + 1) * 0x1_0000_0000_0000_0000) by (nonlinear_arith)
            requires
                acc <= i * 0x1_0000_0000_0000_0000,
                sq < 0x1_0000_0000_0000_0000,
        ;
        assert(acc + sq <= u128::MAX) by (nonlinear_arith)
            requires
                acc + sq < (i + 1) * 0x1_0000_0000_0000_0000,
                i < 0x1_0000_0000_0000_0000,
        ;
        acc = acc + sq;
        i = i + 1;
    }
    acc
}

/// The squared distance from `point` to the nearest point of the box
/// `[min_bounds, max_bounds]`; zero when `point` lies in the box.
pub fn distance_to_space(point: &Vec<i32>, min_bounds: &Vec<i64>, max_bounds: &Vec<i64>) -> (r: u128)
    requires
        min_bounds@.len() == point@.len(),
        max_bounds@.len() == point@.len(),
        forall|d: int|
            0 <= d < point@.len() ==> i32::MIN <= #[trigger] min_bounds@[d] <= max_bounds@[d] <= i32::MAX,
    ensures
        r == box_dist_upto(point@, min_bounds@, max_bounds@, point@.len() as int),
{
    let mut acc: u128 = 0;
    let mut i: usize = 0;
    while i < point.len()
        invariant
            i <= point@.len(),
            min_bounds@.len() == point@.len(),
            max_bounds@.len() == point@.len(),
            forall|d: int|
                0 <= d < point@.len() ==> i32::MIN <= #[trigger] min_bounds@[d] <= max_bounds@[d] <= i32::MAX,
            acc == box_dist_upto(point@, min_bounds@, max_bounds@, i as int),
            acc <= i * 0x1_0000_0000_0000_0000,
        decreases point@.len() - i,
    {
        let q = point[i] as i64;
        let lo = min_bounds[i];
        let hi = max_bounds[i];
        assert(i32::MIN <= lo <= hi <= i32::MAX);
        let g: u64 = if q < lo {
            (lo - q) as u64
        } else if q > hi {
            (q - hi) as u64
        } else {
            0
        };
        assert(g == gap(q as int, lo as int, hi as int));
        assert(g < 0x1_0000_0000);
        assert((g as u128) * (g as u128) < 0x1_0000_0000_0000_0000) by (nonlinear_arith)
            requires
                g < 0x1_0000_0000,
        ;
        let sq: u128 = (g as u128) * (g as u128);
        assert(sq < 0x1_0000_0000_0000_0000) by (nonlinear_arith)
            requires
                g < 0x1_0000_0000,
                sq == g * g,
        ;
        assert(i < 0x1_0000_0000_0000_0000);
        assert(acc + sq < (i + 1) * 0x1_0000_0000_0000_0000) by (nonlinear_arith)
            requires
                acc <= i * 0x1_0000_0000_0000_0000,
                sq < 0x1_0000_0000_0000_0000,
        ;
        assert(acc + sq <= u128::MAX) by (nonlinear_arith)
            requires
                acc + sq < (i + 1) * 0x1_0000_0000_0000_0000,
                i < 0x1_0000_0000_0000_0000,
        ;
        acc = acc + sq;
        i = i + 1;
    }
    acc
}

} // verus!
