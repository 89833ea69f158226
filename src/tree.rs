use vstd::prelude::*;
use crate::order::{first_at_least, lemma_first_at_least};
use crate::Metrics;
use crate::freq::{freq, count_of, is_freq_table, lemma_count_contains, uniform, lemma_uniform_table, freq_table, lemma_freq_table_exists, sum_of};
use crate::impurity::{Cost, MAX_ROWS, criterion_ready, cost_shape, add_costs, cost_less, weighted_cost, frac_lt, lemma_frac_lt_le, lemma_frac_asym, lemma_weighted_den_pos, strictly_superadditive, impurity_of, classes_present, lemma_impurity_zero_iff_pure, sum_sq, sum_xlogx};
use crate::splits::{get_splits, separates, split_slice, pick, candidates, sorted_set, is_sorted_set_of, doubled_midpoints, lemma_sorted_set_exists};

verus! {

/// Failures reported by training and prediction.
#[derive(Debug, Clone, Copy, PartialEq, Eq, Structural)]
pub enum Error {
    /// Prediction was asked of a classifier that was never trained.
    Untrained,
    /// The data do not have the shape or size that the call needs.
    InvalidData,
}

/// A dense matrix of integer features, one row per sample.
#[derive(Debug)]
pub struct FeatureMatrix {
    pub cols: usize,
    pub rows: Vec<Vec<i64>>,
}

impl FeatureMatrix {
    /// Every row has `cols` entries.
    pub open spec fn wf(&self) -> bool {
        forall|i: int| 0 <= i < self.rows@.len() ==> (#[trigger] self.rows@[i])@.len() == self.cols
    }

    /// Builds a matrix of `cols` columns from `rows`; fails when a row has
    /// another length.
    pub fn new(cols: usize, rows: Vec<Vec<i64>>) -> (r: Result<FeatureMatrix, Error>)
        ensures
            (forall|i: int| 0 <= i < rows@.len() ==> (#[trigger] rows@[i])@.len() == cols) <==> r is Ok,
            r matches Ok(m) ==> m.cols == cols && m.rows@ == rows@ && m.wf(),
            r matches Err(e) ==> e == Error::InvalidData,
    {
        let mut i: usize = 0;
        while i < rows.len()
            invariant
                i <= rows@.len(),
                forall|k: int| 0 <= k < i ==> (#[trigger] rows@[k])@.len() == cols,
            decreases rows.len() - i,
        {
            if rows[i].len() != cols {
                return Err(Error::InvalidData);
            }
            i = i + 1;
        }
        Ok(FeatureMatrix { cols, rows })
    }
}

/// A branch of the tree: rows whose feature value `x` has `2 * x < threshold`
/// go left, the others right. The threshold is kept doubled so that a
/// midpoint of two integers stays an integer.
#[derive(Debug)]
pub struct Node {
    pub feature_index: usize,
    pub threshold: i128,
    pub left: Link,
    pub right: Link,
}

/// A subtree: a leaf with the label it predicts, or a branch.
#[derive(Debug)]
pub enum Link {
    Leaf(usize),
    Branch(Box<Node>),
}

impl Link {
    /// Every branch tests a feature below `n_features`.
    pub open spec fn wf(self, n_features: nat) -> bool
        decreases self,
    {
        match self {
            Link::Leaf(_) => true,
            Link::Branch(n) => n.feature_index < n_features && n.left.wf(n_features) && n.right.wf(
                n_features,
            ),
        }
    }

    /// The label that the tree gives to `row`.
    pub open spec fn route(self, row: Seq<i64>) -> usize
        decreases self,
    {
        match self {
            Link::Leaf(l) => l,
            Link::Branch(n) => if 2 * row[n.feature_index as int] < n.threshold {
                n.left.route(row)
            } else {
                n.right.route(row)
            },
        }
    }
}

/// The labels of the rows `remains`, in that order.
pub open spec fn selected(target: Seq<usize>, remains: Seq<usize>) -> Seq<usize> {
    Seq::new(remains.len(), |k: int| target[remains[k] as int])
}

/// The values of feature `f` at the rows `remains`, in that order.
pub open spec fn column(inputs: FeatureMatrix, remains: Seq<usize>, f: int) -> Seq<i64> {
    Seq::new(remains.len(), |k: int| inputs.rows@[remains[k] as int]@[f])
}

/// For each value, whether it goes left of the doubled threshold `t`.
pub open spec fn below_mask(values: Seq<i64>, t: i128) -> Seq<bool> {
    Seq::new(values.len(), |k: int| 2 * values[k] < t)
}

/// `l` occurs most often in `labels`, and no smaller label occurs as often.
pub open spec fn is_majority(labels: Seq<usize>, l: usize) -> bool {
    &&& labels.contains(l)
    &&& forall|y: usize| #[trigger] count_of(labels, y) <= count_of(labels, l)
    &&& forall|y: usize| y < l ==> #[trigger] count_of(labels, y) < count_of(labels, l)
}

/// Whether the limits let a node of `n` rows at `depth` be split.
pub open spec fn limits_allow(max_depth: Option<usize>, min_samples_split: Option<usize>, n: int, depth: int) -> bool {
    &&& (max_depth matches Some(md) ==> depth < md)
    &&& (min_samples_split matches Some(ms) ==> n > ms)
}

/// Cost of splitting the rows `remains` on feature `f` at doubled
/// threshold `t`: the weighted impurities of both sides added.
pub open spec fn split_cost(
    m: Metrics,
    xlogx: Seq<u64>,
    inputs: FeatureMatrix,
    target: Seq<usize>,
    remains: Seq<usize>,
    f: int,
    t: i128,
) -> (int, int) {
    let labels = selected(target, remains);
    let mask = below_mask(column(inputs, remains, f), t);
    let a = weighted_cost(m, pick(labels, mask, true), xlogx);
    let b = weighted_cost(m, pick(labels, mask, false), xlogx);
    (a.0 * b.1 + b.0 * a.1, a.1 * b.1)
}

/// `(f, t)` is a candidate split of the rows `remains`.
pub open spec fn is_candidate(inputs: FeatureMatrix, remains: Seq<usize>, f: int, t: i128) -> bool {
    0 <= f < inputs.cols && candidates(column(inputs, remains, f)).contains(t)
}

/// Candidate `(f2, t2)` comes before `(f, t)` in search order: by feature,
/// then by threshold.
pub open spec fn before(f2: int, t2: i128, f: int, t: i128) -> bool {
    f2 < f || (f2 == f && t2 < t)
}

/// `link` is the tree grown for the rows `remains` at `depth`. A node
/// becomes a leaf holding the majority label of its rows unless the limits
/// allow a split, its labels are mixed and some candidate split costs
/// strictly less than the node itself. Otherwise it is a branch on the
/// cheapest candidate, the first in search order among equally cheap ones,
/// with children grown for the rows on either side.
pub open spec fn grown_from(
    link: Link,
    m: Metrics,
    xlogx: Seq<u64>,
    inputs: FeatureMatrix,
    target: Seq<usize>,
    remains: Seq<usize>,
    depth: int,
    max_depth: Option<usize>,
    min_samples_split: Option<usize>,
) -> bool
    decreases link,
{
    let labels = selected(target, remains);
    let base = weighted_cost(m, labels, xlogx);
    let splittable = limits_allow(max_depth, min_samples_split, remains.len() as int, depth) && !(exists|x: usize| uniform(labels, x));
    match link {
        Link::Leaf(l) => {
            &&& is_majority(labels, l)
            &&& splittable ==> forall|f2: int, t2: i128|
                is_candidate(inputs, remains, f2, t2) ==> !frac_lt(#[trigger] split_cost(m, xlogx, inputs, target, remains, f2, t2), base)
        },
        Link::Branch(n) => {
            let f = n.feature_index as int;
            let t = n.threshold;
            let mask = below_mask(column(inputs, remains, f), t);
            let cost = split_cost(m, xlogx, inputs, target, remains, f, t);
            &&& splittable
            &&& is_candidate(inputs, remains, f, t)
            &&& separates(column(inputs, remains, f), t)
            &&& frac_lt(cost, base)
            &&& forall|f2: int, t2: i128| is_candidate(inputs, remains, f2, t2) ==> !frac_lt(
                #[trigger] split_cost(m, xlogx, inputs, target, remains, f2, t2),
                cost,
            )
            &&& forall|f2: int, t2: i128| is_candidate(inputs, remains, f2, t2) && before(f2, t2, f, t) ==> frac_lt(
                cost,
                #[trigger] split_cost(m, xlogx, inputs, target, remains, f2, t2),
            )
            &&& grown_from(n.left, m, xlogx, inputs, target, pick(remains, mask, true), depth + 1, max_depth, min_samples_split)
            &&& grown_from(n.right, m, xlogx, inputs, target, pick(remains, mask, false), depth + 1, max_depth, min_samples_split)
        },
    }
}

/// The row indices `0, 1, ..., n - 1`.
pub open spec fn all_rows(n: nat) -> Seq<usize> {
    Seq::new(n, |i: int| i as usize)
}

fn select(target: &Vec<usize>, remains: &Vec<usize>) -> (r: Vec<usize>)
    requires
        forall|k: int| 0 <= k < remains@.len() ==> remains@[k] < target@.len(),
    ensures
        r@ == selected(target@, remains@),
{
    let mut r: Vec<usize> = Vec::new();
    let mut k: usize = 0;
    while k < remains.len()
        invariant
            k <= remains@.len(),
            forall|j: int| 0 <= j < remains@.len() ==> remains@[j] < target@.len(),
            r@ =~= selected(target@, remains@.take(k as int)),
        decreases remains.len() - k,
    {
        r.push(target[remains[k]]);
        k = k + 1;
    }
    assert(remains@.take(k as int) =~= remains@);
    r
}

fn column_values(inputs: &FeatureMatrix, remains: &Vec<usize>, f: usize) -> (r: Vec<i64>)
    requires
        inputs.wf(),
        f < inputs.cols,
        forall|k: int| 0 <= k < remains@.len() ==> remains@[k] < inputs.rows@.len(),
    ensures
        r@ == column(*inputs, remains@, f as int),
{
    let mut r: Vec<i64> = Vec::new();
    let mut k: usize = 0;
    while k < remains.len()
        invariant
            k <= remains@.len(),
            inputs.wf(),
            f < inputs.cols,
            forall|j: int| 0 <= j < remains@.len() ==> remains@[j] < inputs.rows@.len(),
            r@ =~= column(*inputs, remains@.take(k as int), f as int),
        decreases remains.len() - k,
    {
        let row = &inputs.rows[remains[k]];
        assert(row@.len() == inputs.cols);
        r.push(row[f]);
        k = k + 1;
    }
    assert(remains@.take(k as int) =~= remains@);
    r
}

fn mask_below(values: &Vec<i64>, t: i128) -> (r: Vec<bool>)
    ensures
        r@ == below_mask(values@, t),
{
    let mut r: Vec<bool> = Vec::new();
    let mut k: usize = 0;
    while k < values.len()
        invariant
            k <= values@.len(),
            r@ =~= below_mask(values@.take(k as int), t),
        decreases values.len() - k,
    {
        r.push(2 * (values[k] as i128) < t);
        k = k + 1;
    }
    assert(values@.take(k as int) =~= values@);
    r
}

/// The label with the highest count, the smallest such on ties.
fn majority_label(uniques: &Vec<usize>, counts: &Vec<usize>, Ghost(labels): Ghost<Seq<usize>>) -> (r: usize)
    requires
        is_freq_table(labels, uniques@, counts@),
        labels.len() > 0,
    ensures
        is_majority(labels, r),
{
    assert(labels.contains(labels[0]));
    let mut best: usize = 0;
    let mut i: usize = 1;
    while i < counts.len()
        invariant
            uniques@.len() == counts@.len(),
            counts@.len() > 0,
            best < i <= counts@.len(),
            forall|j: int| 0 <= j < i ==> counts@[j] <= counts@[best as int],
            forall|j: int| 0 <= j < best ==> counts@[j] < counts@[best as int],
        decreases counts.len() - i,
    {
        if counts[i] > counts[best] {
            best = i;
        }
        i = i + 1;
    }
    let l = uniques[best];
    proof {
        lemma_count_contains(labels, l);
        assert forall|y: usize| #[trigger] count_of(labels, y) <= count_of(labels, l) by {
            lemma_count_contains(labels, y);
            if labels.contains(y) {
                let j = choose|j: int| 0 <= j < uniques@.len() && uniques@[j] == y;
                assert(counts@[j] == count_of(labels, uniques@[j]));
            }
        }
        assert forall|y: usize| y < l implies #[trigger] count_of(labels, y) < count_of(labels, l) by {
            lemma_count_contains(labels, y);
            if labels.contains(y) {
                let j = choose|j: int| 0 <= j < uniques@.len() && uniques@[j] == y;
                assert(counts@[j] == count_of(labels, uniques@[j]));
                if j >= best {
                    if j > best {
                        assert(uniques@[best as int] < uniques@[j]);
                    }
                }
            }
        }
    }
    l
}

proof fn lemma_pick_len<T>(values: Seq<T>, mask: Seq<bool>)
    requires
        values.len() == mask.len(),
    ensures
        pick(values, mask, true).len() + pick(values, mask, false).len() == values.len(),
    decreases values.len(),
{
    if values.len() > 0 {
        lemma_pick_len(values.drop_last(), mask.drop_last());
    }
}

proof fn lemma_pick_hit<T>(values: Seq<T>, mask: Seq<bool>, side: bool, i: int)
    requires
        values.len() == mask.len(),
        0 <= i < mask.len(),
        mask[i] == side,
    ensures
        pick(values, mask, side).len() > 0,
    decreases values.len(),
{
    if i < values.len() - 1 {
        lemma_pick_hit(values.drop_last(), mask.drop_last(), side, i);
    }
}

proof fn lemma_pick_from<T>(values: Seq<T>, mask: Seq<bool>, side: bool)
    requires
        values.len() == mask.len(),
    ensures
        forall|k: int| 0 <= k < pick(values, mask, side).len() ==> values.contains(#[trigger] pick(values, mask, side)[k]),
    decreases values.len(),
{
    if values.len() > 0 {
        let d = values.drop_last();
        lemma_pick_from(d, mask.drop_last(), side);
        let p = pick(values, mask, side);
        assert forall|k: int| 0 <= k < p.len() implies values.contains(#[trigger] p[k]) by {
            if k < pick(d, mask.drop_last(), side).len() {
                let j = choose|j: int| 0 <= j < d.len() && d[j] == p[k];
                assert(values[j] == p[k]);
            } else {
                assert(values[values.len() - 1] == p[k]);
            }
        }
    }
}

/// Decision tree classifier.
#[derive(Debug)]
pub struct DecisionTreeClassifier {
    criterion: Metrics,
    max_depth: Option<usize>,
    min_samples_split: Option<usize>,
    xlogx: Vec<u64>,
    n_classes: usize,
    n_features: usize,
    root: Option<Link>,
}

impl DecisionTreeClassifier {
    pub closed spec fn criterion(&self) -> Metrics {
        self.criterion
    }

    pub closed spec fn max_depth(&self) -> Option<usize> {
        self.max_depth
    }

    pub closed spec fn min_samples_split(&self) -> Option<usize> {
        self.min_samples_split
    }

    /// The fixed-point `k * ln(k)` table that entropy scores with.
    pub closed spec fn xlogx(&self) -> Seq<u64> {
        self.xlogx@
    }

    pub closed spec fn n_classes(&self) -> usize {
        self.n_classes
    }

    pub closed spec fn n_features(&self) -> usize {
        self.n_features
    }

    pub closed spec fn root(&self) -> Option<Link> {
        self.root
    }

    /// A trained tree tests only features that training saw.
    pub closed spec fn wf(&self) -> bool {
        self.root matches Some(t) ==> t.wf(self.n_features as nat)
    }

    /// An untrained tree with the given criterion and limits.
    pub fn new(criterion: Metrics, max_depth: usize, min_samples_split: usize) -> (r: Self)
        ensures
            r.criterion() == criterion,
            r.max_depth() == Some(max_depth),
            r.min_samples_split() == Some(min_samples_split),
            r.xlogx().len() == 0,
            r.root() is None,
            r.n_features() == 0,
            r.n_classes() == 0,
            r.wf(),
    {
        DecisionTreeClassifier {
            criterion,
            max_depth: Some(max_depth),
            min_samples_split: Some(min_samples_split),
            xlogx: Vec::new(),
            n_classes: 0,
            n_features: 0,
            root: None,
        }
    }

    /// The same classifier, scoring entropy with `xlogx[k]` as `k * ln(k)`
    /// in fixed point.
    pub fn with_xlogx(self, xlogx: Vec<u64>) -> (r: Self)
        ensures
            r.criterion() == self.criterion(),
            r.max_depth() == self.max_depth(),
            r.min_samples_split() == self.min_samples_split(),
            r.xlogx() == xlogx@,
            r.root() == self.root(),
            r.n_features() == self.n_features(),
            r.n_classes() == self.n_classes(),
            self.wf() ==> r.wf(),
    {
        DecisionTreeClassifier { xlogx, ..self }
    }

    /// Number of distinct labels seen by the last training.
    pub fn n_classes_seen(&self) -> (r: usize)
        ensures
            r == self.n_classes(),
    {
        self.n_classes
    }

    /// Whether the limits let a node of `n` rows at `depth` be split.
    fn can_split(&self, n: usize, depth: usize) -> (r: bool)
        ensures
            r == limits_allow(self.max_depth, self.min_samples_split, n as int, depth as int),
    {
        match self.max_depth {
            None => {},
            Some(max_depth) => {
                if depth >= max_depth {
                    return false;
                }
            },
        }
        match self.min_samples_split {
            None => {},
            Some(min_samples_split) => {
                if n <= min_samples_split {
                    return false;
                }
            },
        }
        true
    }

    /// Grows the subtree for the rows `remains` at `depth`.
    fn split(&self, inputs: &FeatureMatrix, target: &Vec<usize>, remains: &Vec<usize>, depth: usize) -> (r: Link)
        requires
            inputs.wf(),
            target@.len() == inputs.rows@.len(),
            remains@.len() > 0,
            depth + remains@.len() <= MAX_ROWS,
            forall|k: int| 0 <= k < remains@.len() ==> remains@[k] < inputs.rows@.len(),
            criterion_ready(self.criterion, self.xlogx@, remains@.len() as int),
        ensures
            r.wf(inputs.cols as nat),
            grown_from(r, self.criterion, self.xlogx@, *inputs, target@, remains@, depth as int, self.max_depth, self.min_samples_split),
        decreases remains@.len(),
    {
        let current_target = select(target, remains);
        let (labels, counts) = freq(&current_target);
        let ghost lab = current_target@;
        let ghost m = self.criterion;
        let ghost tab = self.xlogx@;
        let ghost rem = remains@;
        if counts.len() == 1 || !self.can_split(current_target.len(), depth) {
            proof {
                if counts.len() == 1 {
                    lemma_uniform_of_single(lab, labels@, counts@);
                }
            }
            let label = majority_label(&labels, &counts, Ghost(lab));
            return Link::Leaf(label);
        }
        proof {
            if exists|x: usize| uniform(lab, x) {
                let x = choose|x: usize| uniform(lab, x);
                lemma_uniform_table(lab, labels@, counts@, x);
            }
        }
        let n = remains.len();
        let mut found = false;
        let mut split_col: usize = 0;
        let mut split_val: i128 = 0;
        let baseline: Cost = self.criterion.weighted(&current_target, &self.xlogx);
        let ghost base = weighted_cost(m, lab, tab);
        let mut criteria: Cost = baseline;
        let mut split_indexer: Vec<bool> = Vec::new();
        let mut i: usize = 0;
        while i < inputs.cols
            invariant
                inputs.wf(),
                n == remains@.len(),
                rem == remains@,
                m == self.criterion,
                tab == self.xlogx@,
                lab == current_target@,
                lab == selected(target@, rem),
                lab.len() == n,
                base == weighted_cost(m, lab, tab),
                (baseline.num as int, baseline.den as int) == base,
                forall|k: int| 0 <= k < remains@.len() ==> remains@[k] < inputs.rows@.len(),
                criterion_ready(self.criterion, self.xlogx@, n as int),
                i <= inputs.cols,
                cost_shape(self.criterion, criteria, true),
                criteria.den > 0,
                !found ==> criteria == baseline,
                found ==> split_col < i,
                found ==> is_candidate(*inputs, rem, split_col as int, split_val),
                found ==> separates(column(*inputs, rem, split_col as int), split_val),
                found ==> split_indexer@ == below_mask(column(*inputs, rem, split_col as int), split_val),
                found ==> (criteria.num as int, criteria.den as int) == split_cost(m, tab, *inputs, target@, rem, split_col as int, split_val),
                found ==> frac_lt((criteria.num as int, criteria.den as int), base),
                forall|f2: int, t2: i128| f2 < i && is_candidate(*inputs, rem, f2, t2) ==> !frac_lt(
                    #[trigger] split_cost(m, tab, *inputs, target@, rem, f2, t2),
                    (criteria.num as int, criteria.den as int),
                ),
                found ==> forall|f2: int, t2: i128| f2 < i && is_candidate(*inputs, rem, f2, t2) && before(f2, t2, split_col as int, split_val) ==> frac_lt(
                    (criteria.num as int, criteria.den as int),
                    #[trigger] split_cost(m, tab, *inputs, target@, rem, f2, t2),
                ),
            decreases inputs.cols - i,
        {
            let current_feature = column_values(inputs, remains, i);
            let splits = get_splits(&current_feature);
            let mut k: usize = 0;
            while k < splits.len()
                invariant
                    inputs.wf(),
                    n == remains@.len(),
                    rem == remains@,
                    m == self.criterion,
                    tab == self.xlogx@,
                    lab == current_target@,
                    lab == selected(target@, rem),
                    lab.len() == n,
                    base == weighted_cost(m, lab, tab),
                    (baseline.num as int, baseline.den as int) == base,
                    criterion_ready(self.criterion, self.xlogx@, n as int),
                    i < inputs.cols,
                    current_feature@ == column(*inputs, rem, i as int),
                    splits@ == candidates(current_feature@),
                    forall|a: int, b: int| 0 <= a < b < splits@.len() ==> splits@[a] < splits@[b],
                    forall|j: int| 0 <= j < splits@.len() ==> #[trigger] separates(current_feature@, splits@[j]),
                    k <= splits@.len(),
                    cost_shape(self.criterion, criteria, true),
                    criteria.den > 0,
                    !found ==> criteria == baseline,
                    found ==> split_col < i || (split_col == i && splits@.take(k as int).contains(split_val)),
                    found ==> is_candidate(*inputs, rem, split_col as int, split_val),
                    found ==> separates(column(*inputs, rem, split_col as int), split_val),
                    found ==> split_indexer@ == below_mask(column(*inputs, rem, split_col as int), split_val),
                    found ==> (criteria.num as int, criteria.den as int) == split_cost(m, tab, *inputs, target@, rem, split_col as int, split_val),
                    found ==> frac_lt((criteria.num as int, criteria.den as int), base),
                    forall|f2: int, t2: i128| (f2 < i || (f2 == i && splits@.take(k as int).contains(t2))) && is_candidate(*inputs, rem, f2, t2) ==> !frac_lt(
                        #[trigger] split_cost(m, tab, *inputs, target@, rem, f2, t2),
                        (criteria.num as int, criteria.den as int),
                    ),
                    found ==> forall|f2: int, t2: i128| (f2 < i || (f2 == i && splits@.take(k as int).contains(t2))) && is_candidate(*inputs, rem, f2, t2) && before(f2, t2, split_col as int, split_val) ==> frac_lt(
                        (criteria.num as int, criteria.den as int),
                        #[trigger] split_cost(m, tab, *inputs, target@, rem, f2, t2),
                    ),
                decreases splits.len() - k,
            {
                let v = splits[k];
                let bindexer = mask_below(&current_feature, v);
                let (l, r) = split_slice(&current_target, &bindexer);
                proof {
                    lemma_pick_len(lab, bindexer@);
                }
                let lc = self.criterion.weighted(&l, &self.xlogx);
                let rc = self.criterion.weighted(&r, &self.xlogx);
                let cr = add_costs(self.criterion, lc, rc);
                let ghost crv = (cr.num as int, cr.den as int);
                let ghost old_crit = (criteria.num as int, criteria.den as int);
                proof {
                    assert(splits@.contains(v));
                    assert(is_candidate(*inputs, rem, i as int, v));
                    assert(crv == split_cost(m, tab, *inputs, target@, rem, i as int, v));
                    assert(cr.den > 0) by (nonlinear_arith)
                        requires cr.den == lc.den * rc.den, lc.den > 0, rc.den > 0;
                    assert(splits@.take(k as int + 1) =~= splits@.take(k as int).push(v));
                    assert forall|t2: i128| splits@.take(k as int).contains(t2) implies t2 < v by {
                        let j = choose|j: int| 0 <= j < k && splits@.take(k as int)[j] == t2;
                        assert(splits@[j] < splits@[k as int]);
                    }
                }
                if cost_less(self.criterion, cr, criteria) {
                    proof {
                        lemma_weighted_den_pos(m, lab, tab);
                        if found {
                            lemma_frac_asym(old_crit, base);
                            lemma_frac_lt_le(crv, old_crit, base);
                        } else {
                            assert(old_crit == base);
                        }
                        assert forall|f2: int, t2: i128| (f2 < i || (f2 == i && splits@.take(k as int + 1).contains(t2))) && is_candidate(*inputs, rem, f2, t2) implies !frac_lt(
                            #[trigger] split_cost(m, tab, *inputs, target@, rem, f2, t2),
                            crv,
                        ) by {
                            let c2 = split_cost(m, tab, *inputs, target@, rem, f2, t2);
                            if f2 == i && t2 == v {
                            } else {
                                assert(f2 < i || (f2 == i && splits@.take(k as int).contains(t2)));
                                assert(!frac_lt(c2, old_crit));
                                if frac_lt(c2, crv) {
                                    lemma_frac_asym(crv, old_crit);
                                    lemma_weighted_den_pos(m, pick(lab, below_mask(column(*inputs, rem, f2), t2), true), tab);
                                    lemma_weighted_den_pos(m, pick(lab, below_mask(column(*inputs, rem, f2), t2), false), tab);
                                    lemma_den_product(c2, m, tab, *inputs, target@, rem, f2, t2);
                                    lemma_frac_lt_le(c2, crv, old_crit);
                                }
                            }
                        }
                        assert forall|f2: int, t2: i128| (f2 < i || (f2 == i && splits@.take(k as int + 1).contains(t2))) && is_candidate(*inputs, rem, f2, t2) && before(f2, t2, i as int, v) implies frac_lt(
                            crv,
                            #[trigger] split_cost(m, tab, *inputs, target@, rem, f2, t2),
                        ) by {
                            let c2 = split_cost(m, tab, *inputs, target@, rem, f2, t2);
                            assert(f2 < i || (f2 == i && splits@.take(k as int).contains(t2)));
                            assert(!frac_lt(c2, old_crit));
                            lemma_den_product(c2, m, tab, *inputs, target@, rem, f2, t2);
                            lemma_frac_lt_le(crv, old_crit, c2);
                        }
                        assert(splits@.take(k as int + 1)[k as int] == v);
                        assert(splits@.take(k as int + 1).contains(v));
                    }
                    found = true;
                    split_col = i;
                    split_val = v;
                    criteria = cr;
                    split_indexer = bindexer;
                } else {
                    proof {
                        assert forall|f2: int, t2: i128| found && (f2 < i || (f2 == i && splits@.take(k as int + 1).contains(t2))) && is_candidate(*inputs, rem, f2, t2) && before(f2, t2, split_col as int, split_val) implies frac_lt(
                            old_crit,
                            #[trigger] split_cost(m, tab, *inputs, target@, rem, f2, t2),
                        ) by {
                            if f2 == i && t2 == v {
                                if split_col == i {
                                    assert(split_val < v);
                                }
                            }
                        }
                    }
                }
                k = k + 1;
            }
            proof {
                assert(splits@.take(splits@.len() as int) =~= splits@);
                assert forall|t2: i128| is_candidate(*inputs, rem, i as int, t2) implies splits@.contains(t2) by {}
            }
            i = i + 1;
        }
        if !found {
            let label = majority_label(&labels, &counts, Ghost(lab));
            return Link::Leaf(label);
        }
        let ghost col = column(*inputs, remains@, split_col as int);
        let (li, ri) = split_slice(remains, &split_indexer);
        proof {
            lemma_pick_len(remains@, split_indexer@);
            lemma_pick_from(remains@, split_indexer@, true);
            lemma_pick_from(remains@, split_indexer@, false);
            let (a, b) = choose|a: i64, b: i64|
                #![trigger col.contains(a), col.contains(b)]
                col.contains(a) && col.contains(b) && a < b && split_val == a + b;
            let ja = choose|j: int| 0 <= j < col.len() && col[j] == a;
            let jb = choose|j: int| 0 <= j < col.len() && col[j] == b;
            lemma_pick_hit(remains@, split_indexer@, true, ja);
            lemma_pick_hit(remains@, split_indexer@, false, jb);
            assert forall|k: int| 0 <= k < li@.len() implies li@[k] < inputs.rows@.len() by {
                assert(remains@.contains(li@[k]));
            }
            assert forall|k: int| 0 <= k < ri@.len() implies ri@[k] < inputs.rows@.len() by {
                assert(remains@.contains(ri@[k]));
            }
        }
        let ln = self.split(inputs, target, &li, depth + 1);
        let rn = self.split(inputs, target, &ri, depth + 1);
        Link::Branch(Box::new(Node { feature_index: split_col, threshold: split_val, left: ln, right: rn }))
    }
}

/// The majority label of a sequence is unique.
proof fn lemma_majority_unique(labels: Seq<usize>, a: usize, b: usize)
    requires
        is_majority(labels, a),
        is_majority(labels, b),
    ensures
        a == b,
{
    assert(count_of(labels, a) <= count_of(labels, b));
    assert(count_of(labels, b) <= count_of(labels, a));
    if a < b {
        assert(count_of(labels, a) < count_of(labels, b));
    }
    if b < a {
        assert(count_of(labels, b) < count_of(labels, a));
    }
}

/// Growing a tree is deterministic: two trees grown for the same rows, data,
/// criterion and limits are the same tree.
pub proof fn lemma_grown_unique(
    t1: Link,
    t2: Link,
    m: Metrics,
    xlogx: Seq<u64>,
    inputs: FeatureMatrix,
    target: Seq<usize>,
    remains: Seq<usize>,
    depth: int,
    max_depth: Option<usize>,
    min_samples_split: Option<usize>,
)
    requires
        grown_from(t1, m, xlogx, inputs, target, remains, depth, max_depth, min_samples_split),
        grown_from(t2, m, xlogx, inputs, target, remains, depth, max_depth, min_samples_split),
    ensures
        t1 == t2,
    decreases t1,
{
    let labels = selected(target, remains);
    match t1 {
        Link::Leaf(l1) => {
            match t2 {
                Link::Leaf(l2) => {
                    lemma_majority_unique(labels, l1, l2);
                },
                Link::Branch(n2) => {
                    let c = split_cost(m, xlogx, inputs, target, remains, n2.feature_index as int, n2.threshold);
                    assert(!frac_lt(c, weighted_cost(m, labels, xlogx)));
                },
            }
        },
        Link::Branch(n1) => {
            match t2 {
                Link::Leaf(l2) => {
                    let c = split_cost(m, xlogx, inputs, target, remains, n1.feature_index as int, n1.threshold);
                    assert(!frac_lt(c, weighted_cost(m, labels, xlogx)));
                },
                Link::Branch(n2) => {
                    let f1 = n1.feature_index as int;
                    let f2 = n2.feature_index as int;
                    let c1 = split_cost(m, xlogx, inputs, target, remains, f1, n1.threshold);
                    let c2 = split_cost(m, xlogx, inputs, target, remains, f2, n2.threshold);
                    if before(f1, n1.threshold, f2, n2.threshold) {
                        assert(frac_lt(c2, c1));
                        assert(!frac_lt(c2, c1));
                    }
                    if before(f2, n2.threshold, f1, n1.threshold) {
                        assert(frac_lt(c1, c2));
                        assert(!frac_lt(c1, c2));
                    }
                    assert(n1.feature_index == n2.feature_index);
                    assert(n1.threshold == n2.threshold);
                    let mask = below_mask(column(inputs, remains, f1), n1.threshold);
                    lemma_grown_unique(
                        n1.left,
                        n2.left,
                        m,
                        xlogx,
                        inputs,
                        target,
                        pick(remains, mask, true),
                        depth + 1,
                        max_depth,
                        min_samples_split,
                    );
                    lemma_grown_unique(
                        n1.right,
                        n2.right,
                        m,
                        xlogx,
                        inputs,
                        target,
                        pick(remains, mask, false),
                        depth + 1,
                        max_depth,
                        min_samples_split,
                    );
                    assert(*n1 == *n2);
                },
            }
        },
    }
}

/// An item of `values` whose flag equals `side` is picked.
proof fn lemma_pick_contains<T>(values: Seq<T>, mask: Seq<bool>, side: bool, j: int)
    requires
        values.len() == mask.len(),
        0 <= j < values.len(),
        mask[j] == side,
    ensures
        pick(values, mask, side).contains(values[j]),
    decreases values.len(),
{
    let p = pick(values, mask, side);
    if j == values.len() - 1 {
        assert(p[p.len() - 1] == values[j]);
    } else {
        let d = values.drop_last();
        lemma_pick_contains(d, mask.drop_last(), side, j);
        let q = pick(d, mask.drop_last(), side);
        let k = choose|k: int| 0 <= k < q.len() && q[k] == d[j];
        assert(p[k] == values[j]);
    }
}

/// Every picked item sits at a position whose flag equals `side`.
proof fn lemma_pick_flagged<T>(values: Seq<T>, mask: Seq<bool>, side: bool)
    requires
        values.len() == mask.len(),
    ensures
        forall|k: int| 0 <= k < pick(values, mask, side).len() ==> exists|j: int|
            0 <= j < values.len() && mask[j] == side && values[j] == #[trigger] pick(values, mask, side)[k],
    decreases values.len(),
{
    if values.len() > 0 {
        let d = values.drop_last();
        lemma_pick_flagged(d, mask.drop_last(), side);
        let p = pick(values, mask, side);
        let q = pick(d, mask.drop_last(), side);
        assert(p == if mask.last() == side { q.push(values.last()) } else { q });
        assert forall|k: int| 0 <= k < p.len() implies exists|j: int|
            0 <= j < values.len() && mask[j] == side && values[j] == #[trigger] p[k] by {
            if k < q.len() {
                let j = choose|j: int| 0 <= j < d.len() && mask.drop_last()[j] == side && d[j] == #[trigger] q[k];
                assert(values[j] == p[k]);
                assert(mask[j] == side);
            } else {
                let j = values.len() - 1;
                assert(mask[j] == side);
                assert(values[j] == p[k]);
            }
        }
    }
}

/// Labels that are all `x` (or none) cost nothing.
proof fn lemma_constant_cost_zero(m: Metrics, labels: Seq<usize>, xlogx: Seq<u64>, x: usize)
    requires
        forall|k: int| 0 <= k < labels.len() ==> labels[k] == x,
        labels.len() <= usize::MAX,
        m == Metrics::Entropy ==> labels.len() < xlogx.len(),
    ensures
        weighted_cost(m, labels, xlogx).0 == 0,
        weighted_cost(m, labels, xlogx).1 > 0,
{
    lemma_freq_table_exists(labels);
    lemma_weighted_den_pos(m, labels, xlogx);
    let (u, c) = freq_table(labels);
    if labels.len() > 0 {
        lemma_uniform_table(labels, u, c, x);
        assert(c.drop_last() =~= Seq::<usize>::empty());
        assert(sum_of(c.drop_last()) == 0);
        assert(sum_sq(c.drop_last()) == 0);
        assert(sum_xlogx(c.drop_last(), xlogx) == 0);
        assert(sum_of(c) == c[0]);
    }
}

proof fn lemma_present_all(c: Seq<usize>)
    requires
        forall|i: int| 0 <= i < c.len() ==> c[i] > 0,
    ensures
        classes_present(c) == c.len(),
    decreases c.len(),
{
    if c.len() > 0 {
        lemma_present_all(c.drop_last());
    }
}

/// Mixed labels cost something.
proof fn lemma_mixed_cost_positive(m: Metrics, labels: Seq<usize>, xlogx: Seq<u64>)
    requires
        labels.len() > 0,
        labels.len() <= usize::MAX,
        !(exists|x: usize| uniform(labels, x)),
        m == Metrics::Entropy ==> strictly_superadditive(xlogx, labels.len() as int),
    ensures
        weighted_cost(m, labels, xlogx).0 > 0,
        weighted_cost(m, labels, xlogx).1 > 0,
{
    lemma_freq_table_exists(labels);
    lemma_weighted_den_pos(m, labels, xlogx);
    let (u, c) = freq_table(labels);
    lemma_present_all(c);
    assert(labels.contains(labels[0]));
    if c.len() == 1 {
        lemma_uniform_of_single(labels, u, c);
    }
    assert(c.len() >= 2);
    lemma_impurity_zero_iff_pure(m, c, xlogx);
}

/// Label `a` on every row whose feature `f` is below `cut`, label `b` on
/// every other row.
pub open spec fn separated_by(inputs: FeatureMatrix, target: Seq<usize>, f: int, cut: i64, a: usize, b: usize) -> bool {
    forall|i: int| 0 <= i < target.len() ==> #[trigger] target[i] == if inputs.rows@[i]@[f] < cut { a } else { b }
}

/// A tree grown without depth or sample limits for rows whose classes are
/// separated by a cut on one feature gives every one of those rows its own
/// label.
pub proof fn lemma_separable_fit(
    t: Link,
    m: Metrics,
    xlogx: Seq<u64>,
    inputs: FeatureMatrix,
    target: Seq<usize>,
    remains: Seq<usize>,
    depth: int,
    f: int,
    cut: i64,
    a: usize,
    b: usize,
)
    requires
        inputs.wf(),
        target.len() == inputs.rows@.len(),
        0 <= f < inputs.cols,
        forall|k: int| 0 <= k < remains.len() ==> remains[k] < inputs.rows@.len(),
        remains.len() <= usize::MAX,
        separated_by(inputs, target, f, cut, a, b),
        m == Metrics::Entropy ==> strictly_superadditive(xlogx, remains.len() as int),
        grown_from(t, m, xlogx, inputs, target, remains, depth, None, None),
    ensures
        forall|k: int|
            0 <= k < remains.len() ==> (#[trigger] t.route(inputs.rows@[remains[k] as int]@)) == target[remains[k] as int],
    decreases t,
{
    let labels = selected(target, remains);
    match t {
        Link::Leaf(l) => {
            if remains.len() > 0 {
                if exists|x: usize| uniform(labels, x) {
                    let x = choose|x: usize| uniform(labels, x);
                    let j = choose|j: int| 0 <= j < labels.len() && labels[j] == l;
                    assert forall|k: int| 0 <= k < remains.len() implies (#[trigger] t.route(
                        inputs.rows@[remains[k] as int]@,
                    )) == target[remains[k] as int] by {
                        assert(labels[k] == x);
                    }
                } else {
                    lemma_cut_improves(m, xlogx, inputs, target, remains, f, cut, a, b);
                    let t2 = choose|t2: i128|
                        is_candidate(inputs, remains, f, t2) && frac_lt(
                            #[trigger] split_cost(m, xlogx, inputs, target, remains, f, t2),
                            weighted_cost(m, labels, xlogx),
                        );
                    assert(!frac_lt(split_cost(m, xlogx, inputs, target, remains, f, t2), weighted_cost(m, labels, xlogx)));
                }
            }
        },
        Link::Branch(n) => {
            let col = column(inputs, remains, n.feature_index as int);
            let mask = below_mask(col, n.threshold);
            let lr = pick(remains, mask, true);
            let rr = pick(remains, mask, false);
            lemma_pick_len(remains, mask);
            lemma_pick_from(remains, mask, true);
            lemma_pick_from(remains, mask, false);
            assert forall|k: int| 0 <= k < lr.len() implies lr[k] < inputs.rows@.len() by {
                assert(remains.contains(lr[k]));
            }
            assert forall|k: int| 0 <= k < rr.len() implies rr[k] < inputs.rows@.len() by {
                assert(remains.contains(rr[k]));
            }
            lemma_separable_fit(n.left, m, xlogx, inputs, target, lr, depth + 1, f, cut, a, b);
            lemma_separable_fit(n.right, m, xlogx, inputs, target, rr, depth + 1, f, cut, a, b);
            assert forall|k: int| 0 <= k < remains.len() implies (#[trigger] t.route(
                inputs.rows@[remains[k] as int]@,
            )) == target[remains[k] as int] by {
                let r = remains[k];
                let row = inputs.rows@[r as int]@;
                if mask[k] {
                    lemma_pick_contains(remains, mask, true, k);
                    let k2 = choose|k2: int| 0 <= k2 < lr.len() && lr[k2] == r;
                    assert(n.left.route(inputs.rows@[lr[k2] as int]@) == target[lr[k2] as int]);
                } else {
                    lemma_pick_contains(remains, mask, false, k);
                    let k2 = choose|k2: int| 0 <= k2 < rr.len() && rr[k2] == r;
                    assert(n.right.route(inputs.rows@[rr[k2] as int]@) == target[rr[k2] as int]);
                }
            }
        },
    }
}

/// Training without depth or sample limits on data whose two classes are
/// separated by a cut on one feature fits the training set exactly: the tree
/// that `train` grows gives every training row its label.
pub proof fn lemma_training_fits_separable(
    t: Link,
    m: Metrics,
    xlogx: Seq<u64>,
    inputs: FeatureMatrix,
    target: Seq<usize>,
    f: int,
    cut: i64,
    a: usize,
    b: usize,
)
    requires
        inputs.wf(),
        target.len() == inputs.rows@.len(),
        0 <= f < inputs.cols,
        separated_by(inputs, target, f, cut, a, b),
        m == Metrics::Entropy ==> strictly_superadditive(xlogx, target.len() as int),
        grown_from(t, m, xlogx, inputs, target, all_rows(target.len()), 0, None, None),
    ensures
        forall|i: int| 0 <= i < target.len() ==> (#[trigger] t.route(inputs.rows@[i]@)) == target[i],
{
    let remains = all_rows(target.len());
    assert(inputs.rows.len() == inputs.rows@.len());
    lemma_separable_fit(t, m, xlogx, inputs, target, remains, 0, f, cut, a, b);
    assert forall|i: int| 0 <= i < target.len() implies (#[trigger] t.route(inputs.rows@[i]@)) == target[i] by {
        assert(remains[i] == i);
    }
}

/// At rows with mixed labels separated by a cut on feature `f`, the
/// candidate next to the cut costs nothing, strictly less than the rows
/// left whole.
proof fn lemma_cut_improves(
    m: Metrics,
    xlogx: Seq<u64>,
    inputs: FeatureMatrix,
    target: Seq<usize>,
    remains: Seq<usize>,
    f: int,
    cut: i64,
    a: usize,
    b: usize,
)
    requires
        inputs.wf(),
        target.len() == inputs.rows@.len(),
        0 <= f < inputs.cols,
        forall|k: int| 0 <= k < remains.len() ==> remains[k] < inputs.rows@.len(),
        remains.len() > 0,
        remains.len() <= usize::MAX,
        separated_by(inputs, target, f, cut, a, b),
        m == Metrics::Entropy ==> strictly_superadditive(xlogx, remains.len() as int),
        !(exists|x: usize| uniform(selected(target, remains), x)),
    ensures
        exists|t: i128|
            is_candidate(inputs, remains, f, t) && frac_lt(
                #[trigger] split_cost(m, xlogx, inputs, target, remains, f, t),
                weighted_cost(m, selected(target, remains), xlogx),
            ),
{
    let labels = selected(target, remains);
    let col = column(inputs, remains, f);
    let base = weighted_cost(m, labels, xlogx);
    lemma_mixed_cost_positive(m, labels, xlogx);
    // some row of each side
    assert(!uniform(labels, labels[0]));
    let k1 = choose|k1: int| 0 <= k1 < labels.len() && #[trigger] labels[k1] != labels[0];
    assert(target[remains[0] as int] == labels[0]);
    assert(target[remains[k1] as int] == labels[k1]);
    let (klo, khi) = if col[0] < cut { (0int, k1) } else { (k1, 0int) };
    assert(col[klo] < cut && col[khi] >= cut);
    // the neighbours around the cut among the sorted values
    let w = sorted_set(col);
    lemma_sorted_set_exists(col);
    assert(col.contains(col[klo]));
    assert(col.contains(col[khi]));
    let key = |x: i64| x as int;
    lemma_first_at_least(w, key, cut as int, 0);
    let j = first_at_least(w, key, cut as int, 0);
    let ilo = choose|i: int| 0 <= i < w.len() && w[i] == col[klo];
    let ihi = choose|i: int| 0 <= i < w.len() && w[i] == col[khi];
    assert(ilo < j);
    assert(j <= ihi);
    let p = w[j - 1];
    let q = w[j];
    let t = (p + q) as i128;
    assert(doubled_midpoints(w)[j - 1] == t);
    assert(candidates(col).contains(t));
    assert(is_candidate(inputs, remains, f, t));
    // both sides of that candidate are pure
    let mask = below_mask(col, t);
    assert forall|k: int| 0 <= k < col.len() implies mask[k] == (col[k] < cut) by {
        assert(col.contains(col[k]));
        let i = choose|i: int| 0 <= i < w.len() && w[i] == col[k];
        if col[k] < cut {
            assert(i < j);
            if i < j - 1 {
                assert(w[i] < w[j - 1]);
            }
        } else {
            assert(i >= j);
            if i > j {
                assert(w[j] < w[i]);
            }
        }
    }
    let left = pick(labels, mask, true);
    let right = pick(labels, mask, false);
    lemma_pick_flagged(labels, mask, true);
    lemma_pick_flagged(labels, mask, false);
    lemma_pick_len(labels, mask);
    assert forall|k: int| 0 <= k < left.len() implies left[k] == a by {
        let i = choose|i: int| 0 <= i < labels.len() && mask[i] == true && labels[i] == #[trigger] left[k];
        assert(target[remains[i] as int] == labels[i]);
    }
    assert forall|k: int| 0 <= k < right.len() implies right[k] == b by {
        let i = choose|i: int| 0 <= i < labels.len() && mask[i] == false && labels[i] == #[trigger] right[k];
        assert(target[remains[i] as int] == labels[i]);
    }
    lemma_constant_cost_zero(m, left, xlogx, a);
    lemma_constant_cost_zero(m, right, xlogx, b);
    let lc = weighted_cost(m, left, xlogx);
    let rc = weighted_cost(m, right, xlogx);
    let cost = split_cost(m, xlogx, inputs, target, remains, f, t);
    assert(cost == (lc.0 * rc.1 + rc.0 * lc.1, lc.1 * rc.1));
    assert(lc.1 * rc.1 > 0) by (nonlinear_arith)
        requires lc.1 > 0, rc.1 > 0;
    assert(cost.0 == 0);
    assert(0 * base.1 < base.0 * cost.1) by (nonlinear_arith)
        requires base.0 > 0, cost.1 > 0;
    assert(frac_lt(cost, base));
}

/// A split cost has a positive denominator.
proof fn lemma_den_product(
    c: (int, int),
    m: Metrics,
    xlogx: Seq<u64>,
    inputs: FeatureMatrix,
    target: Seq<usize>,
    remains: Seq<usize>,
    f: int,
    t: i128,
)
    requires
        c == split_cost(m, xlogx, inputs, target, remains, f, t),
    ensures
        c.1 > 0,
{
    let labels = selected(target, remains);
    let mask = below_mask(column(inputs, remains, f), t);
    let a = weighted_cost(m, pick(labels, mask, true), xlogx);
    let b = weighted_cost(m, pick(labels, mask, false), xlogx);
    lemma_weighted_den_pos(m, pick(labels, mask, true), xlogx);
    lemma_weighted_den_pos(m, pick(labels, mask, false), xlogx);
    assert(a.1 * b.1 > 0) by (nonlinear_arith)
        requires a.1 > 0, b.1 > 0;
}

/// A one-entry frequency table means that all labels are equal.
proof fn lemma_uniform_of_single(labels: Seq<usize>, u: Seq<usize>, c: Seq<usize>)
    requires
        is_freq_table(labels, u, c),
        c.len() == 1,
    ensures
        uniform(labels, u[0]),
{
    assert forall|k: int| 0 <= k < labels.len() implies labels[k] == u[0] by {
        assert(labels.contains(labels[k]));
    }
    assert(c[0] > 0);
    crate::freq::lemma_count_contains(labels, u[0]);
}

/// The label that the tree under `current` gives to `row`.
fn predict_row(current: &Link, row: &Vec<i64>) -> (r: usize)
    requires
        current.wf(row@.len()),
    ensures
        r == current.route(row@),
    decreases current,
{
    match current {
        Link::Leaf(label) => *label,
        Link::Branch(n) => {
            if 2 * (row[n.feature_index] as i128) < n.threshold {
                predict_row(&n.left, row)
            } else {
                predict_row(&n.right, row)
            }
        },
    }
}

/// Training refuses data with a row count other than the label count, with
/// no rows, with more rows than the exact arithmetic takes, or, for entropy,
/// with a `k * ln(k)` table that does not cover the row count.
pub open spec fn training_rejects(m: Metrics, xlogx: Seq<u64>, data: FeatureMatrix, target: Seq<usize>) -> bool {
    let n = data.rows@.len();
    target.len() != n || n == 0 || !criterion_ready(m, xlogx, n as int)
}

impl DecisionTreeClassifier {
    /// Predicts a label for each row of `inputs`.
    pub fn predict(&self, inputs: &FeatureMatrix) -> (r: Result<Vec<usize>, Error>)
        requires
            self.wf(),
            inputs.wf(),
        ensures
            self.root() is None ==> r == Err::<Vec<usize>, Error>(Error::Untrained),
            self.root() is Some ==> (inputs.cols != self.n_features() <==> r == Err::<Vec<usize>, Error>(
                Error::InvalidData,
            )),
            self.root() is Some && inputs.cols == self.n_features() ==> r is Ok,
            r matches Ok(v) ==> {
                &&& self.root() is Some
                &&& v@.len() == inputs.rows@.len()
                &&& forall|i: int|
                    0 <= i < v@.len() ==> v@[i] == self.root()->Some_0.route(#[trigger] inputs.rows@[i]@)
            },
    {
        match &self.root {
            None => Err(Error::Untrained),
            Some(root) => {
                if self.n_features != inputs.cols {
                    Err(Error::InvalidData)
                } else {
                    let mut results: Vec<usize> = Vec::new();
                    let mut i: usize = 0;
                    while i < inputs.rows.len()
                        invariant
                            inputs.wf(),
                            root.wf(inputs.cols as nat),
                            i <= inputs.rows@.len(),
                            results@.len() == i,
                            forall|j: int| 0 <= j < i ==> results@[j] == root.route(#[trigger] inputs.rows@[j]@),
                        decreases inputs.rows.len() - i,
                    {
                        let row = &inputs.rows[i];
                        assert(row@.len() == inputs.cols);
                        let label = predict_row(root, row);
                        results.push(label);
                        i = i + 1;
                    }
                    Ok(results)
                }
            },
        }
    }

    /// Grows a new tree on `data` and `target`, replacing any earlier one.
    pub fn train(&mut self, data: &FeatureMatrix, target: &Vec<usize>) -> (r: Result<(), Error>)
        requires
            data.wf(),
        ensures
            final(self).criterion() == old(self).criterion(),
            final(self).max_depth() == old(self).max_depth(),
            final(self).min_samples_split() == old(self).min_samples_split(),
            final(self).xlogx() == old(self).xlogx(),
            r is Err <==> training_rejects(old(self).criterion(), old(self).xlogx(), *data, target@),
            r is Err ==> r == Err::<(), Error>(Error::InvalidData) && *final(self) == *old(self),
            r is Ok ==> {
                &&& final(self).wf()
                &&& final(self).n_features() == data.cols
                &&& final(self).root() matches Some(t) && grown_from(
                    t,
                    old(self).criterion(),
                    old(self).xlogx(),
                    *data,
                    target@,
                    all_rows(target@.len()),
                    0,
                    old(self).max_depth(),
                    old(self).min_samples_split(),
                )
                &&& exists|u: Seq<usize>, c: Seq<usize>|
                    is_freq_table(target@, u, c) && u.len() == final(self).n_classes()
            },
    {
        let n = data.rows.len();
        if target.len() != n || n == 0 || n as u64 > MAX_ROWS {
            return Err(Error::InvalidData);
        }
        if let Metrics::Entropy = self.criterion {
            if self.xlogx.len() <= n {
                return Err(Error::InvalidData);
            }
        }
        let (uniques, _) = freq(target);
        let mut all: Vec<usize> = Vec::new();
        let mut k: usize = 0;
        while k < n
            invariant
                k <= n,
                all@ =~= all_rows(k as nat),
            decreases n - k,
        {
            all.push(k);
            k = k + 1;
        }
        let root = self.split(data, target, &all, 0);
        self.n_classes = uniques.len();
        self.n_features = data.cols;
        self.root = Some(root);
        Ok(())
    }
}

impl Default for DecisionTreeClassifier {
    /// An untrained Gini tree without depth or sample limits.
    fn default() -> (r: Self)
        ensures
            r.criterion() == Metrics::Gini,
            r.max_depth() is None,
            r.min_samples_split() is None,
            r.xlogx().len() == 0,
            r.root() is None,
            r.n_features() == 0,
            r.n_classes() == 0,
            r.wf(),
    {
        DecisionTreeClassifier {
            criterion: Metrics::Gini,
            max_depth: None,
            min_samples_split: None,
            xlogx: Vec::new(),
            n_classes: 0,
            n_features: 0,
            root: None,
        }
    }
}

} // verus!
