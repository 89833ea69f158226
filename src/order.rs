use vstd::prelude::*;

verus! {

/// `s` is strictly ascending when each item is measured by `key`.
pub open spec fn ascending_by<T>(s: Seq<T>, key: spec_fn(T) -> int) -> bool {
    forall|i: int, j: int| 0 <= i < j < s.len() ==> key(s[i]) < key(s[j])
}

/// Index of the first item of `u`, from `i` on, whose key is at least `v`
/// (`u.len()` when there is none).
pub open spec fn first_at_least<T>(u: Seq<T>, key: spec_fn(T) -> int, v: int, i: int) -> int
    decreases u.len() - i,
{
    if i >= u.len() || key(u[i]) >= v {
        i
    } else {
        first_at_least(u, key, v, i + 1)
    }
}

pub proof fn lemma_first_at_least<T>(u: Seq<T>, key: spec_fn(T) -> int, v: int, i: int)
    requires
        0 <= i <= u.len(),
        forall|k: int| 0 <= k < i ==> key(u[k]) < v,
    ensures
        i <= first_at_least(u, key, v, i) <= u.len(),
        forall|k: int| 0 <= k < first_at_least(u, key, v, i) ==> key(u[k]) < v,
        first_at_least(u, key, v, i) < u.len() ==> key(u[first_at_least(u, key, v, i)]) >= v,
    decreases u.len() - i,
{
    if i < u.len() && key(u[i]) < v {
        lemma_first_at_least(u, key, v, i + 1);
    }
}

proof fn lemma_ascending_last<T>(s: Seq<T>, key: spec_fn(T) -> int)
    requires
        ascending_by(s, key),
        s.len() > 0,
    ensures
        forall|x: T| s.contains(x) ==> key(x) <= key(s.last()),
        forall|x: T| s.contains(x) && key(x) == key(s.last()) ==> x == s.last(),
        forall|x: T| s.drop_last().contains(x) <==> (s.contains(x) && key(x) < key(s.last())),
{
    assert forall|x: T| s.contains(x) implies key(x) <= key(s.last()) && (key(x) == key(s.last()) ==> x == s.last()) by {
        let i = choose|i: int| 0 <= i < s.len() && s[i] == x;
        if i < s.len() - 1 {
            assert(key(s[i]) < key(s[s.len() - 1]));
        }
    }
    assert forall|x: T| s.drop_last().contains(x) <==> (s.contains(x) && key(x) < key(s.last())) by {
        if s.drop_last().contains(x) {
            let i = choose|i: int| 0 <= i < s.drop_last().len() && s.drop_last()[i] == x;
            assert(s[i] == x);
            assert(key(s[i]) < key(s[s.len() - 1]));
        }
        if s.contains(x) && key(x) < key(s.last()) {
            let i = choose|i: int| 0 <= i < s.len() && s[i] == x;
            assert(s.drop_last()[i] == x);
        }
    }
}

/// Two sequences that are strictly ascending by the same key and hold the
/// same items are equal.
pub proof fn lemma_ascending_unique<T>(a: Seq<T>, b: Seq<T>, key: spec_fn(T) -> int)
    requires
        ascending_by(a, key),
        ascending_by(b, key),
        forall|x: T| a.contains(x) <==> b.contains(x),
    ensures
        a == b,
    decreases a.len(),
{
    if a.len() == 0 {
        if b.len() > 0 {
            assert(b.contains(b[0]));
        }
        assert(b =~= a);
    } else {
        assert(a.contains(a.last()));
        assert(b.len() > 0);
        assert(b.contains(b.last()));
        lemma_ascending_last(a, key);
        lemma_ascending_last(b, key);
        assert(a.last() == b.last());
        assert forall|x: T| a.drop_last().contains(x) <==> b.drop_last().contains(x) by {
            assert(a.drop_last().contains(x) <==> (a.contains(x) && key(x) < key(a.last())));
            assert(b.drop_last().contains(x) <==> (b.contains(x) && key(x) < key(b.last())));
        }
        lemma_ascending_unique(a.drop_last(), b.drop_last(), key);
        assert(a =~= a.drop_last().push(a.last()));
        assert(b =~= b.drop_last().push(b.last()));
    }
}

} // verus!
