use vstd::prelude::*;
use crate::order::{ascending_by, first_at_least, lemma_first_at_least, lemma_ascending_unique};

verus! {

/// `u` holds exactly the values of `values`, each once, in ascending order.
pub open spec fn is_sorted_set_of(values: Seq<i64>, u: Seq<i64>) -> bool {
    &&& forall|i: int, j: int| 0 <= i < j < u.len() ==> u[i] < u[j]
    &&& forall|x: i64| values.contains(x) <==> u.contains(x)
}

/// Candidate thresholds over the sorted distinct values `u`, each written as
/// twice the midpoint of two neighbours: `u[i] + u[i + 1]`.
pub open spec fn doubled_midpoints(u: Seq<i64>) -> Seq<i128> {
    Seq::new(
        if u.len() == 0 { 0 } else { (u.len() - 1) as nat },
        |i: int| (u[i] + u[i + 1]) as i128,
    )
}

/// The sorted distinct values of `values` (there is exactly one such
/// sequence: see `uniquify`).
pub open spec fn sorted_set(values: Seq<i64>) -> Seq<i64> {
    choose|u: Seq<i64>| is_sorted_set_of(values, u)
}

/// The candidate thresholds of a feature whose values over a node are
/// `values`, doubled, in ascending order.
pub open spec fn candidates(values: Seq<i64>) -> Seq<i128> {
    doubled_midpoints(sorted_set(values))
}

/// Every sequence has its sorted distinct values.
pub proof fn lemma_sorted_set_exists(values: Seq<i64>)
    ensures
        is_sorted_set_of(values, sorted_set(values)),
    decreases values.len(),
{
    if values.len() == 0 {
        let w = Seq::<i64>::empty();
        assert(is_sorted_set_of(values, w));
    } else {
        let d = values.drop_last();
        let v = values.last();
        lemma_sorted_set_exists(d);
        let u = sorted_set(d);
        assert(values =~= d.push(v));
        if u.contains(v) {
            assert forall|x: i64| values.contains(x) <==> u.contains(x) by {
                if values.contains(x) && x != v {
                    let k = choose|k: int| 0 <= k < values.len() && values[k] == x;
                    assert(d[k] == x);
                }
                if d.contains(x) {
                    let k = choose|k: int| 0 <= k < d.len() && d[k] == x;
                    assert(values[k] == x);
                }
            }
            assert(is_sorted_set_of(values, u));
        } else {
            let key = |x: i64| x as int;
            lemma_first_at_least(u, key, v as int, 0);
            let p = first_at_least(u, key, v as int, 0);
            let u2 = u.insert(p, v);
            assert forall|i: int, j: int| 0 <= i < j < u2.len() implies u2[i] < u2[j] by {
                if i < p && j > p {
                    assert(u2[j] == u[j - 1]);
                    if j - 1 > p {
                        assert(u[p] < u[j - 1]);
                    }
                    if p < u.len() {
                        assert(u[p] != v);
                    }
                } else if j == p {
                    assert(u[i] < v);
                } else if i == p {
                    assert(u2[j] == u[j - 1]);
                    if j - 1 > p {
                        assert(u[p] < u[j - 1]);
                    }
                    assert(u[p] != v);
                }
            }
            assert forall|x: i64| values.contains(x) <==> u2.contains(x) by {
                if values.contains(x) {
                    if x == v {
                        assert(u2[p] == v);
                    } else {
                        let k = choose|k: int| 0 <= k < values.len() && values[k] == x;
                        assert(d[k] == x);
                        assert(d.contains(x));
                        let m = choose|m: int| 0 <= m < u.len() && u[m] == x;
                        if m < p {
                            assert(u2[m] == x);
                        } else {
                            assert(u2[m + 1] == x);
                        }
                    }
                }
                if u2.contains(x) {
                    let m = choose|m: int| 0 <= m < u2.len() && u2[m] == x;
                    if m == p {
                        assert(values[values.len() - 1] == x);
                    } else {
                        if m < p {
                            assert(u[m] == x);
                        } else {
                            assert(u[m - 1] == x);
                        }
                        assert(u.contains(x));
                        let k = choose|k: int| 0 <= k < d.len() && d[k] == x;
                        assert(values[k] == x);
                    }
                }
            }
            assert(is_sorted_set_of(values, u2));
        }
    }
}

/// Doubled threshold `t` lies strictly between two values of `values`: some
/// value goes left of it and some goes right.
pub open spec fn separates(values: Seq<i64>, t: i128) -> bool {
    exists|a: i64, b: i64|
        #![trigger values.contains(a), values.contains(b)]
        values.contains(a) && values.contains(b) && a < b && t == a + b
}

/// The sorted, deduplicated values of `values`.
pub fn uniquify(values: &Vec<i64>) -> (r: Vec<i64>)
    ensures
        is_sorted_set_of(values@, r@),
{
    let mut u: Vec<i64> = Vec::new();
    let n = values.len();
    let mut j: usize = 0;
    while j < n
        invariant
            n == values.len(),
            j <= n,
            is_sorted_set_of(values@.take(j as int), u@),
        decreases n - j,
    {
        let v = values[j];
        let ghost prev = values@.take(j as int);
        assert(values@.take(j as int + 1) =~= prev.push(v));
        let mut p: usize = 0;
        while p < u.len() && u[p] < v
            invariant
                p <= u.len(),
                forall|i: int| 0 <= i < p ==> u@[i] < v,
            decreases u.len() - p,
        {
            p = p + 1;
        }
        let ghost old_u = u@;
        if p < u.len() && u[p] == v {
            proof {
                let cur = values@.take(j as int + 1);
                assert forall|x: i64| cur.contains(x) <==> u@.contains(x) by {
                    if cur.contains(x) && x != v {
                        let k = choose|k: int| 0 <= k < cur.len() && cur[k] == x;
                        assert(prev[k] == x);
                    }
                    if u@.contains(x) && !prev.contains(x) {
                        assert(x == v);
                        assert(cur[j as int] == v);
                    }
                    if prev.contains(x) {
                        let k = choose|k: int| 0 <= k < prev.len() && prev[k] == x;
                        assert(cur[k] == x);
                    }
                }
            }
        } else {
            proof {
                assert forall|i: int| p <= i < u.len() implies u@[i] > v by {
                    if i > p {
                        assert(u@[p as int] < u@[i]);
                    }
                }
            }
            u.insert(p, v);
            proof {
                let cur = values@.take(j as int + 1);
                assert(u@ == old_u.insert(p as int, v));
                assert forall|x: i64| cur.contains(x) <==> u@.contains(x) by {
                    if cur.contains(x) {
                        if x == v {
                            assert(u@[p as int] == v);
                        } else {
                            let k = choose|k: int| 0 <= k < cur.len() && cur[k] == x;
                            assert(prev[k] == x);
                            assert(prev.contains(x));
                            assert(old_u.contains(x));
                            let m = choose|m: int| 0 <= m < old_u.len() && old_u[m] == x;
                            if m < p {
                                assert(u@[m] == x);
                            } else {
                                assert(u@[m + 1] == x);
                            }
                        }
                    }
                    if u@.contains(x) {
                        let m = choose|m: int| 0 <= m < u@.len() && u@[m] == x;
                        if x == v {
                            assert(cur[j as int] == v);
                        } else {
                            if m < p {
                                assert(old_u[m] == x);
                            } else {
                                assert(old_u[m - 1] == x);
                            }
                            assert(old_u.contains(x));
                            let k = choose|k: int| 0 <= k < prev.len() && prev[k] == x;
                            assert(cur[k] == x);
                        }
                    }
                }
            }
        }
        j = j + 1;
    }
    assert(values@.take(n as int) =~= values@);
    u
}

/// Candidate split thresholds of one feature: the midpoints between
/// consecutive distinct values, in ascending order, each given doubled so
/// that it stays an integer. A row goes left of threshold `t` when
/// `2 * x < t`.
pub fn get_splits(values: &Vec<i64>) -> (r: Vec<i128>)
    ensures
        r@ == candidates(values@),
        forall|i: int, j: int| 0 <= i < j < r@.len() ==> r@[i] < r@[j],
        forall|k: int| 0 <= k < r@.len() ==> #[trigger] separates(values@, r@[k]),
{
    let uniques = uniquify(values);
    let mut r: Vec<i128> = Vec::new();
    let mut i: usize = 1;
    while i < uniques.len()
        invariant
            1 <= i,
            i <= uniques.len() || (uniques.len() == 0 && i == 1),
            r@.len() == i - 1,
            forall|k: int| 0 <= k < r@.len() ==> r@[k] == uniques@[k] + uniques@[k + 1],
        decreases uniques.len() - i,
    {
        let m = uniques[i - 1] as i128 + uniques[i] as i128;
        r.push(m);
        i = i + 1;
    }
    proof {
        let d = doubled_midpoints(uniques@);
        if uniques@.len() > 0 {
            assert(i == uniques@.len());
            assert(d.len() == uniques@.len() - 1);
        }
        assert(r@.len() == d.len());
        assert forall|k: int| 0 <= k < r@.len() implies r@[k] == d[k] by {
            assert(r@[k] == uniques@[k] + uniques@[k + 1]);
        }
        assert(r@ =~= d);
        let w = sorted_set(values@);
        assert(is_sorted_set_of(values@, w));
        let key = |x: i64| x as int;
        assert(ascending_by(uniques@, key));
        assert(ascending_by(w, key));
        lemma_ascending_unique(uniques@, w, key);
        assert forall|i: int, j: int| 0 <= i < j < r@.len() implies r@[i] < r@[j] by {
            assert(uniques@[i] < uniques@[j]);
            if j > i + 1 {
                assert(uniques@[i + 1] < uniques@[j + 1]);
            }
        }
        assert forall|k: int| 0 <= k < r@.len() implies #[trigger] separates(values@, r@[k]) by {
            let a = uniques@[k];
            let b = uniques@[k + 1];
            assert(uniques@.contains(a));
            assert(uniques@.contains(b));
        }
    }
    r
}

/// The items of `values` whose mask flag equals `side`, in order; items past
/// the end of the mask are not taken.
pub open spec fn pick<T>(values: Seq<T>, mask: Seq<bool>, side: bool) -> Seq<T>
    decreases values.len() + mask.len(),
{
    if values.len() == 0 || mask.len() == 0 {
        Seq::empty()
    } else if values.len() > mask.len() {
        pick(values.take(mask.len() as int), mask, side)
    } else if mask.len() > values.len() {
        pick(values, mask.take(values.len() as int), side)
    } else {
        let rest = pick(values.drop_last(), mask.drop_last(), side);
        if mask.last() == side {
            rest.push(values.last())
        } else {
            rest
        }
    }
}

/// Splits `values` into those whose mask flag is set (left) and the others
/// (right), keeping their order.
pub fn split_slice<T: Copy>(values: &Vec<T>, bindexer: &Vec<bool>) -> (r: (Vec<T>, Vec<T>))
    ensures
        r.0@ == pick(values@, bindexer@, true),
        r.1@ == pick(values@, bindexer@, false),
{
    let mut left: Vec<T> = Vec::new();
    let mut right: Vec<T> = Vec::new();
    let n: usize = if values.len() < bindexer.len() { values.len() } else { bindexer.len() };
    let ghost vs = values@.take(n as int);
    let ghost ms = bindexer@.take(n as int);
    proof {
        lemma_pick_trim(values@, bindexer@, true);
        lemma_pick_trim(values@, bindexer@, false);
    }
    let mut i: usize = 0;
    while i < n
        invariant
            n <= values.len(),
            n <= bindexer.len(),
            vs == values@.take(n as int),
            ms == bindexer@.take(n as int),
            i <= n,
            left@ == pick(vs.take(i as int), ms.take(i as int), true),
            right@ == pick(vs.take(i as int), ms.take(i as int), false),
        decreases n - i,
    {
        let v = values[i];
        let flag = bindexer[i];
        assert(vs.take(i as int + 1).drop_last() =~= vs.take(i as int));
        assert(ms.take(i as int + 1).drop_last() =~= ms.take(i as int));
        if flag {
            left.push(v);
        } else {
            right.push(v);
        }
        i = i + 1;
    }
    assert(vs.take(n as int) =~= vs);
    assert(ms.take(n as int) =~= ms);
    (left, right)
}

/// Trimming both sequences to their common length does not change `pick`.
pub proof fn lemma_pick_trim<T>(values: Seq<T>, mask: Seq<bool>, side: bool)
    ensures
        ({
            let n = if values.len() < mask.len() { values.len() } else { mask.len() };
            pick(values, mask, side) == pick(values.take(n as int), mask.take(n as int), side)
        }),
{
    let n = if values.len() < mask.len() { values.len() } else { mask.len() };
    if values.len() > mask.len() {
        assert(mask.take(n as int) =~= mask);
    } else if mask.len() > values.len() {
        assert(values.take(n as int) =~= values);
    } else {
        assert(mask.take(n as int) =~= mask);
        assert(values.take(n as int) =~= values);
    }
}

} // verus!
