use vstd::prelude::*;
use crate::order::{ascending_by, first_at_least, lemma_first_at_least, lemma_ascending_unique};

verus! {

/// Number of occurrences of `x` in `s`.
pub open spec fn count_of(s: Seq<usize>, x: usize) -> nat
    decreases s.len(),
{
    if s.len() == 0 {
        0
    } else {
        count_of(s.drop_last(), x) + if s.last() == x { 1nat } else { 0nat }
    }
}

/// Sum of the counts `c`.
pub open spec fn sum_of(c: Seq<usize>) -> int
    decreases c.len(),
{
    if c.len() == 0 { 0 } else { sum_of(c.drop_last()) + c.last() }
}

proof fn lemma_sum_update(c: Seq<usize>, p: int, v: usize)
    requires
        0 <= p < c.len(),
    ensures
        sum_of(c.update(p, v)) == sum_of(c) - c[p] + v,
    decreases c.len(),
{
    let d = c.update(p, v);
    if p == c.len() - 1 {
        assert(d.drop_last() =~= c.drop_last());
    } else {
        assert(d.drop_last() =~= c.drop_last().update(p, v));
        lemma_sum_update(c.drop_last(), p, v);
    }
}

proof fn lemma_sum_insert(c: Seq<usize>, p: int, v: usize)
    requires
        0 <= p <= c.len(),
    ensures
        sum_of(c.insert(p, v)) == sum_of(c) + v,
    decreases c.len(),
{
    let d = c.insert(p, v);
    if p == c.len() {
        assert(d.drop_last() =~= c);
    } else {
        assert(d.drop_last() =~= c.drop_last().insert(p, v));
        lemma_sum_insert(c.drop_last(), p, v);
    }
}

/// `s` is sorted in strictly ascending order.
pub open spec fn strictly_ascending(s: Seq<usize>) -> bool {
    forall|i: int, j: int| 0 <= i < j < s.len() ==> s[i] < s[j]
}

/// `(uniques, counts)` is the frequency table of `labels`: every distinct label
/// once, ascending, beside its number of occurrences.
pub open spec fn is_freq_table(labels: Seq<usize>, uniques: Seq<usize>, counts: Seq<usize>) -> bool {
    &&& uniques.len() == counts.len()
    &&& sum_of(counts) == labels.len()
    &&& strictly_ascending(uniques)
    &&& forall|i: int| 0 <= i < uniques.len() ==> counts[i] == count_of(labels, #[trigger] uniques[i])
    &&& forall|i: int| 0 <= i < uniques.len() ==> counts[i] > 0
    &&& forall|x: usize| labels.contains(x) ==> uniques.contains(x)
}

proof fn lemma_count_push(s: Seq<usize>, v: usize, x: usize)
    ensures
        count_of(s.push(v), x) == count_of(s, x) + if v == x { 1nat } else { 0nat },
{
    assert(s.push(v).drop_last() =~= s);
}

/// A label that occurs is counted at least once; one that does not, never.
pub proof fn lemma_count_contains(s: Seq<usize>, x: usize)
    ensures
        count_of(s, x) > 0 <==> s.contains(x),
    decreases s.len(),
{
    if s.len() > 0 {
        lemma_count_contains(s.drop_last(), x);
        if s.drop_last().contains(x) {
            let k = choose|k: int| 0 <= k < s.drop_last().len() && s.drop_last()[k] == x;
            assert(s[k] == x);
        }
        if s.contains(x) && s.last() != x {
            let k = choose|k: int| 0 <= k < s.len() && s[k] == x;
            assert(s.drop_last()[k] == x);
        }
    }
}

/// All of `labels` equal `x`, and there is at least one.
pub open spec fn uniform(labels: Seq<usize>, x: usize) -> bool {
    labels.len() > 0 && forall|k: int| 0 <= k < labels.len() ==> labels[k] == x
}

/// Labels that all equal `x` have the one-entry frequency table `[x]`.
pub proof fn lemma_uniform_table(labels: Seq<usize>, u: Seq<usize>, c: Seq<usize>, x: usize)
    requires
        is_freq_table(labels, u, c),
        uniform(labels, x),
    ensures
        u.len() == 1,
        u[0] == x,
{
    assert(labels.contains(labels[0]));
    let k = choose|k: int| 0 <= k < u.len() && u[k] == x;
    assert forall|i: int| 0 <= i < u.len() implies u[i] == x by {
        lemma_count_contains(labels, u[i]);
        let j = choose|j: int| 0 <= j < labels.len() && labels[j] == u[i];
    }
    if u.len() > 1 {
        assert(u[0] < u[1]);
    }
}

/// The frequency table of `labels` (there is exactly one: see `freq`).
pub open spec fn freq_table(labels: Seq<usize>) -> (Seq<usize>, Seq<usize>) {
    choose|p: (Seq<usize>, Seq<usize>)| is_freq_table(labels, p.0, p.1)
}

/// A frequency table is determined by its labels.
pub proof fn lemma_freq_table_unique(labels: Seq<usize>, u: Seq<usize>, c: Seq<usize>)
    requires
        is_freq_table(labels, u, c),
    ensures
        freq_table(labels) == (u, c),
{
    let w = (u, c);
    assert(is_freq_table(labels, w.0, w.1));
    let p = freq_table(labels);
    assert(is_freq_table(labels, p.0, p.1));
    assert forall|u2: Seq<usize>, c2: Seq<usize>| is_freq_table(labels, u2, c2) implies
        (forall|x: usize| u2.contains(x) <==> labels.contains(x)) by {
        assert forall|x: usize| u2.contains(x) implies labels.contains(x) by {
            let i = choose|i: int| 0 <= i < u2.len() && u2[i] == x;
            assert(c2[i] == count_of(labels, u2[i]));
            lemma_count_contains(labels, x);
        }
    }
    let key = |x: usize| x as int;
    assert(ascending_by(u, key));
    assert(ascending_by(p.0, key));
    lemma_ascending_unique(u, p.0, key);
    assert(c =~= p.1) by {
        assert forall|i: int| 0 <= i < c.len() implies c[i] == p.1[i] by {
            assert(c[i] == count_of(labels, u[i]));
            assert(p.1[i] == count_of(labels, p.0[i]));
        }
    }
}

/// Extends a frequency table of `labels` by one more label `l`.
proof fn lemma_freq_push(labels: Seq<usize>, l: usize, u: Seq<usize>, c: Seq<usize>) -> (r: (Seq<usize>, Seq<usize>))
    requires
        is_freq_table(labels, u, c),
        labels.len() < usize::MAX,
    ensures
        is_freq_table(labels.push(l), r.0, r.1),
{
    let cur = labels.push(l);
    assert forall|x: usize| #[trigger] count_of(cur, x) == count_of(labels, x) + if l == x { 1nat } else { 0nat } by {
        lemma_count_push(labels, l, x);
    }
    let key = |x: usize| x as int;
    lemma_first_at_least(u, key, l as int, 0);
    let p = first_at_least(u, key, l as int, 0);
    if p < u.len() && u[p] == l {
        crate::impurity::lemma_sum_ge_item(c, p);
        lemma_sum_update(c, p, (c[p] + 1) as usize);
        let c2 = c.update(p, (c[p] + 1) as usize);
        assert forall|x: usize| cur.contains(x) implies u.contains(x) by {
            if x != l {
                let k = choose|k: int| 0 <= k < cur.len() && cur[k] == x;
                assert(labels[k] == x);
                assert(labels.contains(x));
            } else {
                assert(u[p] == l);
            }
        }
        assert forall|i: int| 0 <= i < u.len() implies c2[i] == count_of(cur, #[trigger] u[i]) by {
            if i != p {
                if i < p {
                    assert(u[i] < u[p]);
                } else {
                    assert(u[p] < u[i]);
                }
            }
        }
        assert(is_freq_table(cur, u, c2));
        (u, c2)
    } else {
        assert forall|i: int| p <= i < u.len() implies u[i] > l by {
            if i > p {
                assert(u[p] < u[i]);
            }
        }
        lemma_count_contains(labels, l);
        if labels.contains(l) {
            let k = choose|i: int| 0 <= i < u.len() && u[i] == l;
        }
        lemma_sum_insert(c, p, 1);
        let u2 = u.insert(p, l);
        let c2 = c.insert(p, 1usize);
        assert forall|i: int| 0 <= i < u2.len() implies c2[i] == count_of(cur, #[trigger] u2[i]) by {
            if i < p {
                assert(u2[i] == u[i]);
            } else if i > p {
                assert(u2[i] == u[i - 1]);
            } else {
                lemma_count_contains(labels, l);
            }
        }
        assert forall|x: usize| cur.contains(x) implies u2.contains(x) by {
            if x != l {
                let k = choose|k: int| 0 <= k < cur.len() && cur[k] == x;
                assert(labels[k] == x);
                assert(labels.contains(x));
                let m = choose|m: int| 0 <= m < u.len() && u[m] == x;
                if m < p {
                    assert(u2[m] == x);
                } else {
                    assert(u2[m + 1] == x);
                }
            } else {
                assert(u2[p] == l);
            }
        }
        (u2, c2)
    }
}

/// Every label sequence has a frequency table.
pub proof fn lemma_freq_table_exists(labels: Seq<usize>)
    requires
        labels.len() <= usize::MAX,
    ensures
        is_freq_table(labels, freq_table(labels).0, freq_table(labels).1),
    decreases labels.len(),
{
    if labels.len() == 0 {
        let w = (Seq::<usize>::empty(), Seq::<usize>::empty());
        assert(is_freq_table(labels, w.0, w.1));
    } else {
        let d = labels.drop_last();
        lemma_freq_table_exists(d);
        let w = lemma_freq_push(d, labels.last(), freq_table(d).0, freq_table(d).1);
        assert(d.push(labels.last()) =~= labels);
        assert(is_freq_table(labels, w.0, w.1));
    }
}

/// Counts the label frequencies of `labels`: the distinct labels in ascending
/// order, and how often each occurs.
pub fn freq(labels: &Vec<usize>) -> (r: (Vec<usize>, Vec<usize>))
    ensures
        is_freq_table(labels@, r.0@, r.1@),
        (r.0@, r.1@) == freq_table(labels@),
{
    let mut uniques: Vec<usize> = Vec::new();
    let mut counts: Vec<usize> = Vec::new();
    let n = labels.len();
    let mut j: usize = 0;
    while j < n
        invariant
            n == labels.len(),
            j <= n,
            is_freq_table(labels@.take(j as int), uniques@, counts@),
            forall|i: int| 0 <= i < counts.len() ==> counts[i] <= j,
        decreases n - j,
    {
        let l = labels[j];
        let ghost prev = labels@.take(j as int);
        assert(labels@.take(j as int + 1) =~= prev.push(l));
        proof {
            assert forall|x: usize| #[trigger] count_of(labels@.take(j as int + 1), x)
                == count_of(prev, x) + if l == x { 1nat } else { 0nat } by {
                lemma_count_push(prev, l, x);
            }
        }
        let mut p: usize = 0;
        while p < uniques.len() && uniques[p] < l
            invariant
                p <= uniques.len(),
                forall|i: int| 0 <= i < p ==> uniques@[i] < l,
            decreases uniques.len() - p,
        {
            p = p + 1;
        }
        if p < uniques.len() && uniques[p] == l {
            let c = counts[p];
            proof {
                lemma_sum_update(counts@, p as int, (c + 1) as usize);
            }
            counts.set(p, c + 1);
            proof {
                let cur = labels@.take(j as int + 1);
                assert forall|x: usize| cur.contains(x) implies uniques@.contains(x) by {
                    if x != l {
                        let k = choose|k: int| 0 <= k < cur.len() && cur[k] == x;
                        assert(prev[k] == x);
                        assert(prev.contains(x));
                    } else {
                        assert(uniques@[p as int] == l);
                    }
                }
            }
        } else {
            proof {
                assert forall|i: int| p <= i < uniques.len() implies uniques@[i] > l by {
                    if i > p {
                        assert(uniques@[p as int] < uniques@[i]);
                    }
                }
                lemma_count_contains(prev, l);
                if prev.contains(l) {
                    let k = choose|i: int| 0 <= i < uniques.len() && uniques@[i] == l;
                    assert(uniques@.contains(l));
                }
            }
            let ghost old_u = uniques@;
            let ghost old_c = counts@;
            proof {
                lemma_sum_insert(counts@, p as int, 1);
            }
            uniques.insert(p, l);
            counts.insert(p, 1);
            proof {
                let cur = labels@.take(j as int + 1);
                assert(uniques@ == old_u.insert(p as int, l));
                assert(counts@ == old_c.insert(p as int, 1usize));
                assert forall|i: int| 0 <= i < uniques@.len() implies counts@[i] == count_of(cur, #[trigger] uniques@[i]) by {
                    if i < p {
                        assert(uniques@[i] == old_u[i]);
                    } else if i > p {
                        assert(uniques@[i] == old_u[i - 1]);
                    } else {
                        lemma_count_contains(prev, l);
                    }
                }
                assert forall|x: usize| cur.contains(x) implies uniques@.contains(x) by {
                    if x != l {
                        let k = choose|k: int| 0 <= k < cur.len() && cur[k] == x;
                        assert(prev[k] == x);
                        assert(prev.contains(x));
                        let m = choose|m: int| 0 <= m < old_u.len() && old_u[m] == x;
                        if m < p {
                            assert(uniques@[m] == x);
                        } else {
                            assert(uniques@[m + 1] == x);
                        }
                    } else {
                        assert(uniques@[p as int] == l);
                    }
                }
            }
        }
        j = j + 1;
    }
    assert(labels@.take(n as int) =~= labels@);
    proof {
        lemma_freq_table_unique(labels@, uniques@, counts@);
    }
    (uniques, counts)
}

} // verus!
