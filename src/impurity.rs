use vstd::prelude::*;
use crate::Metrics;
use crate::freq::{freq, freq_table, is_freq_table, sum_of, uniform, lemma_uniform_table};

verus! {

/// Largest row count that the exact cost arithmetic accepts.
pub const MAX_ROWS: u64 = 0x100_0000;

/// Largest entry of an entropy table.
pub const MAX_XLOGX: u64 = 0xffff_ffff_ffff_ffff;

/// A cost or an impurity as the exact fraction `num / den`.
#[derive(Debug, Clone, Copy, PartialEq, Eq, Structural)]
pub struct Cost {
    pub num: i128,
    pub den: i128,
}

pub open spec fn sum_sq(c: Seq<usize>) -> int
    decreases c.len(),
{
    if c.len() == 0 { 0 } else { sum_sq(c.drop_last()) + c.last() * c.last() }
}

/// Sum of `xlogx[c]` over the positive counts `c`; a zero count adds
/// nothing, as `0 * ln(0)` is taken to be 0.
pub open spec fn sum_xlogx(c: Seq<usize>, xlogx: Seq<u64>) -> int
    decreases c.len(),
{
    if c.len() == 0 {
        0
    } else {
        sum_xlogx(c.drop_last(), xlogx) + if c.last() == 0 { 0 } else { xlogx[c.last() as int] as int }
    }
}

/// `xlogx[k]` stands for `k * ln(k)` in fixed point, for every count up to `n`.
pub open spec fn table_covers(xlogx: Seq<u64>, n: int) -> bool {
    n < xlogx.len()
}

/// What the criterion needs to score class counts whose total is `n`.
pub open spec fn criterion_ready(m: Metrics, xlogx: Seq<u64>, n: int) -> bool {
    &&& 0 <= n <= MAX_ROWS
    &&& (m == Metrics::Entropy ==> table_covers(xlogx, n))
}

/// Counts of at most `n` each, at most `n` of them.
pub open spec fn counts_bounded(c: Seq<usize>, n: int) -> bool {
    &&& c.len() <= n
    &&& forall|i: int| 0 <= i < c.len() ==> c[i] <= n
}

/// Impurity of a class distribution given by its counts: for Gini
/// `1 - sum (c / n)^2`, for entropy `-sum (c / n) ln (c / n)` in table units,
/// as `(numerator, denominator)`.
pub open spec fn impurity_of(m: Metrics, c: Seq<usize>, xlogx: Seq<u64>) -> (int, int) {
    let n = sum_of(c);
    if n == 0 {
        (0, 1)
    } else if m == Metrics::Gini {
        (n * n - sum_sq(c), n * n)
    } else {
        (xlogx[n] - sum_xlogx(c, xlogx), n)
    }
}

/// Impurity times the number of rows: the cost of a node, summable over
/// children.
pub open spec fn weighted_of(m: Metrics, c: Seq<usize>, xlogx: Seq<u64>) -> (int, int) {
    let n = sum_of(c);
    if n == 0 {
        (0, 1)
    } else if m == Metrics::Gini {
        (n * n - sum_sq(c), n)
    } else {
        (xlogx[n] - sum_xlogx(c, xlogx), 1)
    }
}

proof fn lemma_sums_bounded(c: Seq<usize>, n: int)
    requires
        forall|i: int| 0 <= i < c.len() ==> c[i] <= n,
        0 <= n,
    ensures
        0 <= sum_of(c) <= c.len() * n,
        0 <= sum_sq(c) <= sum_of(c) * n,
    decreases c.len(),
{
    if c.len() > 0 {
        let d = c.drop_last();
        lemma_sums_bounded(d, n);
        let x = c.last() as int;
        assert(x * x <= x * n) by (nonlinear_arith)
            requires 0 <= x <= n;
        assert(sum_of(d) <= d.len() * n);
        assert(c.len() * n == d.len() * n + n) by (nonlinear_arith)
            requires c.len() == d.len() + 1;
        assert(sum_of(d) * n + x * n == (sum_of(d) + x) * n) by (nonlinear_arith);
    }
}

proof fn lemma_xlogx_bounded(c: Seq<usize>, xlogx: Seq<u64>)
    requires
        forall|k: int| 0 <= k < xlogx.len() ==> xlogx[k] <= MAX_XLOGX,
        forall|i: int| 0 <= i < c.len() ==> c[i] < xlogx.len(),
    ensures
        0 <= sum_xlogx(c, xlogx) <= c.len() * MAX_XLOGX,
    decreases c.len(),
{
    if c.len() > 0 {
        lemma_xlogx_bounded(c.drop_last(), xlogx);
    }
}

/// Weighted impurity of the class distribution of `labels`.
pub open spec fn weighted_cost(m: Metrics, labels: Seq<usize>, xlogx: Seq<u64>) -> (int, int) {
    weighted_of(m, freq_table(labels).1, xlogx)
}

/// Evaluates `impurity_of` (`weighted == false`) or `weighted_of`
/// (`weighted == true`).
fn score_counts(m: Metrics, counts: &Vec<usize>, xlogx: &Vec<u64>, weighted: bool) -> (r: Cost)
    requires
        criterion_ready(m, xlogx@, sum_of(counts@)),
        counts_bounded(counts@, MAX_ROWS as int),
    ensures
        weighted ==> (r.num as int, r.den as int) == weighted_of(m, counts@, xlogx@),
        !weighted ==> (r.num as int, r.den as int) == impurity_of(m, counts@, xlogx@),
        r.den > 0,
        -(2 * MAX_ROWS * MAX_XLOGX) <= r.num <= 2 * MAX_ROWS * MAX_XLOGX,
        weighted ==> cost_shape(m, r, false),
{
    let k = counts.len();
    proof {
        assert forall|j: int| 0 <= j < k implies counts@[j] <= sum_of(counts@) by {
            lemma_sum_ge_item(counts@, j);
        }
    }
    let mut s: u64 = 0;
    let mut sq: u128 = 0;
    let mut sx: i128 = 0;
    let mut i: usize = 0;
    while i < k
        invariant
            k == counts.len(),
            i <= k,
            counts_bounded(counts@, MAX_ROWS as int),
            criterion_ready(m, xlogx@, sum_of(counts@)),
            s as int == sum_of(counts@.take(i as int)),
            sq as int == sum_sq(counts@.take(i as int)),
            m == Metrics::Entropy ==> sx as int == sum_xlogx(counts@.take(i as int), xlogx@),
            forall|j: int| 0 <= j < k ==> counts@[j] <= sum_of(counts@),
        decreases k - i,
    {
        let c = counts[i];
        let ghost pre = counts@.take(i as int);
        assert(counts@.take(i as int + 1).drop_last() =~= pre);
        proof {
            lemma_sums_bounded(counts@.take(i as int + 1), MAX_ROWS as int);
            lemma_sums_bounded(counts@, MAX_ROWS as int);
        }
        assert((c as int) * (c as int) <= MAX_ROWS * MAX_ROWS) by (nonlinear_arith)
            requires c <= MAX_ROWS;
        s = s + c as u64;
        sq = sq + (c as u128) * (c as u128);
        if m == Metrics::Entropy {
            proof {
                lemma_xlogx_bounded(counts@.take(i as int + 1), xlogx@);
                assert((i + 1) * MAX_XLOGX <= MAX_ROWS * MAX_XLOGX) by (nonlinear_arith)
                    requires i + 1 <= MAX_ROWS;
            }
            if c > 0 {
                sx = sx + xlogx[c] as i128;
            }
        }
        i = i + 1;
    }
    assert(counts@.take(k as int) =~= counts@);
    proof {
        lemma_sums_bounded(counts@, MAX_ROWS as int);
    }
    if s == 0 {
        return Cost { num: 0, den: 1 };
    }
    let n = s as i128;
    if m == Metrics::Entropy {
        proof {
            lemma_xlogx_bounded(counts@, xlogx@);
            assert(k * MAX_XLOGX <= MAX_ROWS * MAX_XLOGX) by (nonlinear_arith)
                requires k <= MAX_ROWS;
        }
    }
    assert(n * n > 0) by (nonlinear_arith)
        requires n > 0;
    assert(sq as int <= s * MAX_ROWS);
    assert((s as int) * (MAX_ROWS as int) <= MAX_ROWS * MAX_ROWS) by (nonlinear_arith)
        requires s <= MAX_ROWS;
    assert(n * n <= MAX_ROWS * MAX_ROWS) by (nonlinear_arith)
        requires 0 < n <= MAX_ROWS;
    match m {
        Metrics::Gini => {
            let num = n * n - sq as i128;
            if weighted {
                Cost { num, den: n }
            } else {
                Cost { num, den: n * n }
            }
        },
        Metrics::Entropy => {
            let num = xlogx[s as usize] as i128 - sx;
            if weighted {
                Cost { num, den: 1 }
            } else {
                Cost { num, den: n }
            }
        },
    }
}

impl Metrics {
    /// Impurity of a class distribution whose probabilities are given as
    /// integer weights: class `i` has probability `counts[i] / sum(counts)`.
    /// For entropy, `xlogx[k]` holds `k * ln(k)` in fixed point.
    pub fn from_probas(&self, counts: &Vec<usize>, xlogx: &Vec<u64>) -> (r: Cost)
        requires
            criterion_ready(*self, xlogx@, sum_of(counts@)),
            counts_bounded(counts@, MAX_ROWS as int),
        ensures
            (r.num as int, r.den as int) == impurity_of(*self, counts@, xlogx@),
            r.den > 0,
    {
        score_counts(*self, counts, xlogx, false)
    }

    /// Impurity of the class distribution of `labels`.
    pub fn from_labels(&self, labels: &Vec<usize>, xlogx: &Vec<u64>) -> (r: Cost)
        requires
            criterion_ready(*self, xlogx@, labels@.len() as int),
        ensures
            (r.num as int, r.den as int) == impurity_of(*self, freq_table(labels@).1, xlogx@),
            r.den > 0,
            (exists|x: usize| uniform(labels@, x)) ==> r.num == 0,
    {
        let (uniques, counts) = freq(labels);
        proof {
            lemma_table_total(labels@, uniques@, counts@);
            if exists|x: usize| uniform(labels@, x) {
                let x = choose|x: usize| uniform(labels@, x);
                lemma_uniform_table(labels@, uniques@, counts@, x);
                let c = counts@;
                assert(c.drop_last() =~= Seq::<usize>::empty());
                assert(sum_of(c.drop_last()) == 0);
                assert(sum_sq(c.drop_last()) == 0);
                assert(sum_xlogx(c.drop_last(), xlogx@) == 0);
                assert(sum_of(c) == c[0]);
                assert(sum_sq(c) == c[0] * c[0]);
            }
        }
        score_counts(*self, &counts, xlogx, false)
    }

    /// Impurity times the number of labels: the cost of a node.
    pub fn weighted(&self, labels: &Vec<usize>, xlogx: &Vec<u64>) -> (r: Cost)
        requires
            criterion_ready(*self, xlogx@, labels@.len() as int),
        ensures
            (r.num as int, r.den as int) == weighted_cost(*self, labels@, xlogx@),
            r.den > 0,
            labels@.len() == 0 ==> r.num == 0,
            cost_shape(*self, r, false),
            cost_shape(*self, r, true),
    {
        let (uniques, counts) = freq(labels);
        proof {
            lemma_table_total(labels@, uniques@, counts@);
        }
        score_counts(*self, &counts, xlogx, true)
    }
}

/// Bounds of a node cost (`summed == false`) or of the cost of two children
/// added together (`summed == true`), under criterion `m`.
pub open spec fn cost_shape(m: Metrics, c: Cost, summed: bool) -> bool {
    if m == Metrics::Gini {
        if summed {
            -0x400_0000_0000_0000_0000 <= c.num <= 0x400_0000_0000_0000_0000 && 0 < c.den <= 0x1_0000_0000_0000
        } else {
            -0x1_0000_0000_0000 <= c.num <= 0x1_0000_0000_0000 && 0 < c.den <= MAX_ROWS
        }
    } else {
        if summed {
            -0x400_0000_0000_0000_0000_0000 <= c.num <= 0x400_0000_0000_0000_0000_0000 && c.den == 1
        } else {
            -0x200_0000_0000_0000_0000_0000 <= c.num <= 0x200_0000_0000_0000_0000_0000 && c.den == 1
        }
    }
}

/// `a` is a strictly smaller cost than `b`.
pub open spec fn cost_lt(a: Cost, b: Cost) -> bool {
    a.num * b.den < b.num * a.den
}

/// The sum of two node costs.
pub fn add_costs(m: Metrics, a: Cost, b: Cost) -> (r: Cost)
    requires
        cost_shape(m, a, false),
        cost_shape(m, b, false),
    ensures
        r.num == a.num * b.den + b.num * a.den,
        r.den == a.den * b.den,
        cost_shape(m, r, true),
{
    if m == Metrics::Entropy {
        assert(a.num * b.den == a.num && b.num * a.den == b.num && a.den * b.den == 1) by (nonlinear_arith)
            requires a.den == 1, b.den == 1;
    }
    if m == Metrics::Gini {
        assert(-0x100_0000_0000_0000_0000 <= a.num * b.den <= 0x100_0000_0000_0000_0000) by (nonlinear_arith)
            requires -0x1_0000_0000_0000 <= a.num <= 0x1_0000_0000_0000, 0 < b.den <= 0x100_0000;
        assert(-0x100_0000_0000_0000_0000 <= b.num * a.den <= 0x100_0000_0000_0000_0000) by (nonlinear_arith)
            requires -0x1_0000_0000_0000 <= b.num <= 0x1_0000_0000_0000, 0 < a.den <= 0x100_0000;
        assert(0 < a.den * b.den <= 0x1_0000_0000_0000) by (nonlinear_arith)
            requires 0 < a.den <= 0x100_0000, 0 < b.den <= 0x100_0000;
    }
    Cost { num: a.num * b.den + b.num * a.den, den: a.den * b.den }
}

/// Whether cost `a` is strictly below cost `b`.
pub fn cost_less(m: Metrics, a: Cost, b: Cost) -> (r: bool)
    requires
        cost_shape(m, a, true),
        cost_shape(m, b, true),
    ensures
        r == cost_lt(a, b),
{
    if m == Metrics::Entropy {
        assert(a.num * b.den == a.num && b.num * a.den == b.num) by (nonlinear_arith)
            requires a.den == 1, b.den == 1;
    }
    if m == Metrics::Gini {
        assert(-0x400_0000_0000_0000_0000_0000_0000_0000 <= a.num * b.den <= 0x400_0000_0000_0000_0000_0000_0000_0000) by (nonlinear_arith)
            requires -0x400_0000_0000_0000_0000 <= a.num <= 0x400_0000_0000_0000_0000, 0 < b.den <= 0x1_0000_0000_0000;
        assert(-0x400_0000_0000_0000_0000_0000_0000_0000 <= b.num * a.den <= 0x400_0000_0000_0000_0000_0000_0000_0000) by (nonlinear_arith)
            requires -0x400_0000_0000_0000_0000 <= b.num <= 0x400_0000_0000_0000_0000, 0 < a.den <= 0x1_0000_0000_0000;
    }
    a.num * b.den < b.num * a.den
}

/// Fraction `a.0 / a.1` is strictly below `b.0 / b.1` (positive denominators).
pub open spec fn frac_lt(a: (int, int), b: (int, int)) -> bool {
    a.0 * b.1 < b.0 * a.1
}

/// `a < b <= c` gives `a < c`.
pub proof fn lemma_frac_lt_le(a: (int, int), b: (int, int), c: (int, int))
    requires
        a.1 > 0,
        b.1 > 0,
        c.1 > 0,
        frac_lt(a, b),
        !frac_lt(c, b),
    ensures
        frac_lt(a, c),
{
    let (a0, a1) = a;
    let (b0, b1) = b;
    let (c0, c1) = c;
    assert(a0 * c1 < c0 * a1) by (nonlinear_arith)
        requires a1 > 0, b1 > 0, c1 > 0, a0 * b1 < b0 * a1, c0 * b1 >= b0 * c1;
}

/// `a < b` rules out `b < a`.
pub proof fn lemma_frac_asym(a: (int, int), b: (int, int))
    requires
        frac_lt(a, b),
    ensures
        !frac_lt(b, a),
{
    assert(a.0 * b.1 < b.0 * a.1);
}

/// Node costs have a positive denominator.
pub proof fn lemma_weighted_den_pos(m: Metrics, labels: Seq<usize>, xlogx: Seq<u64>)
    ensures
        weighted_cost(m, labels, xlogx).1 > 0,
{
    lemma_sum_nonneg(freq_table(labels).1);
}

/// A frequency table of `labels` has counts that sum to the number of labels,
/// each at most that number, and at most that many entries.
pub proof fn lemma_table_total(labels: Seq<usize>, u: Seq<usize>, c: Seq<usize>)
    requires
        is_freq_table(labels, u, c),
        labels.len() <= MAX_ROWS,
    ensures
        sum_of(c) == labels.len(),
        counts_bounded(c, MAX_ROWS as int),
{
    assert forall|i: int| 0 <= i < c.len() implies c[i] <= MAX_ROWS by {
        lemma_sum_ge_item(c, i);
    }
    lemma_len_le_sum(c);
}

proof fn lemma_len_le_sum(c: Seq<usize>)
    requires
        forall|i: int| 0 <= i < c.len() ==> c[i] > 0,
    ensures
        c.len() <= sum_of(c),
    decreases c.len(),
{
    if c.len() > 0 {
        lemma_len_le_sum(c.drop_last());
    }
}

/// How many of the counts are positive.
pub open spec fn classes_present(c: Seq<usize>) -> nat
    decreases c.len(),
{
    if c.len() == 0 {
        0
    } else {
        classes_present(c.drop_last()) + if c.last() > 0 { 1nat } else { 0nat }
    }
}

/// `xlogx` is zero at zero and strictly superadditive up to `n`, as
/// `k * ln(k)` is.
pub open spec fn strictly_superadditive(xlogx: Seq<u64>, n: int) -> bool {
    &&& n < xlogx.len()
    &&& xlogx[0] == 0
    &&& forall|a: int, b: int|
        1 <= a && 1 <= b && a + b <= n ==> #[trigger] xlogx[a + b] > xlogx[a] + #[trigger] xlogx[b]
}

proof fn lemma_gini_gap(c: Seq<usize>)
    ensures
        sum_of(c) * sum_of(c) - sum_sq(c) >= 0,
        sum_of(c) * sum_of(c) - sum_sq(c) == 0 <==> classes_present(c) <= 1,
        sum_of(c) == 0 <==> classes_present(c) == 0,
        sum_of(c) >= 0,
    decreases c.len(),
{
    if c.len() > 0 {
        let d = c.drop_last();
        let x = c.last() as int;
        let s = sum_of(d);
        lemma_gini_gap(d);
        let q = sum_sq(d);
        assert(sum_of(c) == s + x);
        assert(sum_sq(c) == q + x * x);
        assert((s + x) * (s + x) - (q + x * x) == (s * s - q) + 2 * (x * s)) by (nonlinear_arith);
        assert(x * s >= 0) by (nonlinear_arith)
            requires x >= 0, s >= 0;
        if x == 0 {
            assert(x * s == 0);
            assert(classes_present(c) == classes_present(d));
        } else {
            assert(classes_present(c) == classes_present(d) + 1);
            if s > 0 {
                assert(x * s > 0) by (nonlinear_arith)
                    requires x > 0, s > 0;
            } else {
                assert(x * s == 0) by (nonlinear_arith)
                    requires s == 0;
            }
        }
    }
}

proof fn lemma_entropy_gap(c: Seq<usize>, xlogx: Seq<u64>, n: int)
    requires
        strictly_superadditive(xlogx, n),
        sum_of(c) <= n,
    ensures
        xlogx[sum_of(c)] - sum_xlogx(c, xlogx) >= 0,
        xlogx[sum_of(c)] - sum_xlogx(c, xlogx) == 0 <==> classes_present(c) <= 1,
        sum_of(c) == 0 <==> classes_present(c) == 0,
        sum_of(c) >= 0,
    decreases c.len(),
{
    if c.len() > 0 {
        let d = c.drop_last();
        let x = c.last() as int;
        lemma_sum_nonneg(d);
        lemma_entropy_gap(d, xlogx, n);
        let s = sum_of(d);
        if x > 0 && s > 0 {
            assert(xlogx[s + x] > xlogx[s] + xlogx[x]);
        }
    }
}

/// Impurity is never negative, and it is zero exactly when one class holds
/// all the probability. For entropy this rests on the table behaving as
/// `k * ln(k)` does.
pub proof fn lemma_impurity_zero_iff_pure(m: Metrics, c: Seq<usize>, xlogx: Seq<u64>)
    requires
        sum_of(c) > 0,
        m == Metrics::Entropy ==> strictly_superadditive(xlogx, sum_of(c)),
    ensures
        impurity_of(m, c, xlogx).0 >= 0,
        impurity_of(m, c, xlogx).1 > 0,
        impurity_of(m, c, xlogx).0 == 0 <==> classes_present(c) == 1,
{
    let n = sum_of(c);
    if m == Metrics::Gini {
        lemma_gini_gap(c);
        assert(n * n > 0) by (nonlinear_arith)
            requires n > 0;
    } else {
        lemma_entropy_gap(c, xlogx, n);
    }
}

pub proof fn lemma_sum_ge_item(c: Seq<usize>, i: int)
    requires
        0 <= i < c.len(),
    ensures
        c[i] <= sum_of(c),
    decreases c.len(),
{
    if i < c.len() - 1 {
        lemma_sum_ge_item(c.drop_last(), i);
    } else {
        lemma_sum_nonneg(c.drop_last());
    }
}

proof fn lemma_sum_nonneg(c: Seq<usize>)
    ensures
        sum_of(c) >= 0,
    decreases c.len(),
{
    if c.len() > 0 {
        lemma_sum_nonneg(c.drop_last());
    }
}

} // verus!
