//! The QUBO objective `x^T Q x`, its lower-triangular form, and base-`b` digits.
use vstd::prelude::*;

verus! {

pub open spec fn ints(v: Seq<i32>) -> Seq<int> {
    v.map_values(|e: i32| e as int)
}

/// `q` is an `n x n` matrix.
pub open spec fn square(q: Seq<Seq<i32>>) -> bool {
    forall|i: int| 0 <= i < q.len() ==> (#[trigger] q[i]).len() == q.len()
}

/// The term `q[i][j] x_i x_j`.
pub open spec fn term(q: Seq<Seq<i32>>, x: Seq<bool>, i: int, j: int) -> int {
    if x[i] && x[j] { q[i][j] as int } else { 0 }
}

/// `sum_{j < c} q[i][j] x_i x_j`
pub open spec fn row_sum(q: Seq<Seq<i32>>, x: Seq<bool>, i: int, c: int) -> int
    decreases c,
{
    if c <= 0 { 0 } else { row_sum(q, x, i, c - 1) + term(q, x, i, c - 1) }
}

/// `sum_{i < r} q[i][j] x_i x_j`
pub open spec fn col_sum(q: Seq<Seq<i32>>, x: Seq<bool>, j: int, r: int) -> int
    decreases r,
{
    if r <= 0 { 0 } else { col_sum(q, x, j, r - 1) + term(q, x, r - 1, j) }
}

/// `sum_{i < r} sum_{j < c} q[i][j] x_i x_j`
pub open spec fn mat_sum(q: Seq<Seq<i32>>, x: Seq<bool>, r: int, c: int) -> int
    decreases r,
{
    if r <= 0 { 0 } else { mat_sum(q, x, r - 1, c) + row_sum(q, x, r - 1, c) }
}

/// The QUBO objective `x^T Q x` for a square matrix `q` and `x` of its size.
pub open spec fn qubo_value(q: Seq<Seq<i32>>, x: Seq<bool>) -> int {
    mat_sum(q, x, q.len() as int, q.len() as int)
}

/// The pairs `(i, j)` with `j <= i < m`, row by row.
pub open spec fn tri_pairs(m: int) -> Seq<(int, int)>
    decreases m,
{
    if m <= 0 {
        seq![]
    } else {
        tri_pairs(m - 1) + Seq::new(m as nat, |j: int| (m - 1, j))
    }
}

/// `m (m + 1) / 2`, the number of pairs of the first `m` rows.
pub open spec fn tri(m: int) -> int
    decreases m,
{
    if m <= 0 { 0 } else { tri(m - 1) + m }
}

/// The coefficient of `x_i x_j` (`j <= i`) once `q` is folded onto its lower triangle.
pub open spec fn coef(q: Seq<Seq<i32>>, i: int, j: int) -> int {
    if i == j { q[i][i] as int } else { q[i][j] + q[j][i] }
}

/// The folded coefficients, row by row.
pub open spec fn tri_coefs(q: Seq<Seq<i32>>) -> Seq<int> {
    tri_pairs(q.len() as int).map_values(|p: (int, int)| coef_pair(q, p))
}

pub open spec fn coef_pair(q: Seq<Seq<i32>>, p: (int, int)) -> int {
    coef(q, p.0, p.1)
}

pub proof fn lemma_tri_coefs_index(q: Seq<Seq<i32>>, idx: int)
    requires
        0 <= idx < tri_pairs(q.len() as int).len(),
    ensures
        tri_coefs(q).len() == tri_pairs(q.len() as int).len(),
        tri_coefs(q)[idx] == coef_pair(q, tri_pairs(q.len() as int)[idx]),
{
    let ps = tri_pairs(q.len() as int);
    let f = |p: (int, int)| coef_pair(q, p);
    assert(ps.map_values(f)[idx] == f(ps[idx]));
}

/// `sum_{k < K} w[k] x_{i_k} x_{j_k}` over the pairs `ps`.
pub open spec fn pair_sum(w: Seq<int>, ps: Seq<(int, int)>, x: Seq<bool>, k: int) -> int
    decreases k,
{
    if k <= 0 {
        0
    } else {
        pair_sum(w, ps, x, k - 1) + if x[ps[k - 1].0] && x[ps[k - 1].1] { w[k - 1] } else { 0 }
    }
}

/// The objective over the folded coefficients `w` of an `n x n` matrix.
pub open spec fn tri_value(w: Seq<int>, x: Seq<bool>, n: int) -> int {
    pair_sum(w, tri_pairs(n), x, tri(n))
}

/// Sum of the absolute values.
pub open spec fn abs_sum(w: Seq<int>) -> int
    decreases w.len(),
{
    if w.len() == 0 {
        0
    } else {
        abs_sum(w.drop_last()) + if w.last() < 0 { -w.last() } else { w.last() }
    }
}

/// Sum of the magnitudes of the negative entries.
pub open spec fn neg_sum(w: Seq<int>) -> int
    decreases w.len(),
{
    if w.len() == 0 {
        0
    } else {
        neg_sum(w.drop_last()) + if w.last() < 0 { -w.last() } else { 0 }
    }
}

/// A matrix the solvers take: square, not empty, and small enough that the sum of the
/// magnitudes of its folded coefficients fits in an `i32`.
pub open spec fn qubo_ok(q: Seq<Seq<i32>>) -> bool {
    &&& square(q)
    &&& q.len() >= 1
    &&& abs_sum(tri_coefs(q)) <= i32::MAX
}

// ---------------------------------------------------------------------------
// Triangular indexing
pub proof fn lemma_tri_pairs_len(m: int)
    requires
        m >= 0,
    ensures
        tri_pairs(m).len() == tri(m),
        tri(m) >= 0,
    decreases m,
{
    if m > 0 {
        lemma_tri_pairs_len(m - 1);
    }
}

pub proof fn lemma_tri_mono(i: int, m: int)
    requires
        0 <= i <= m,
    ensures
        tri(i) + i <= tri(m) || i == m,
        tri(i) <= tri(m),
    decreases m,
{
    if i < m {
        lemma_tri_mono(i, m - 1);
    }
}

pub proof fn lemma_tri_closed(i: int)
    requires
        i >= 0,
    ensures
        i * (i + 1) == 2 * tri(i),
        tri(i) == i * (i + 1) / 2,
    decreases i,
{
    if i > 0 {
        lemma_tri_closed(i - 1);
        assert(i * (i + 1) == (i - 1) * (i - 1 + 1) + 2 * i) by (nonlinear_arith);
    } else {
        assert(i * (i + 1) == 0) by (nonlinear_arith)
            requires
                i == 0,
        ;
    }
}

/// Pair `(i, j)` stands at index `tri(i) + j`.
pub proof fn lemma_tri_pairs_index(m: int, i: int, j: int)
    requires
        0 <= j <= i < m,
    ensures
        tri(i) + j < tri(m),
        tri_pairs(m)[tri(i) + j] == (i, j),
    decreases m,
{
    lemma_tri_pairs_len(m - 1);
    lemma_tri_pairs_len(i);
    if i < m - 1 {
        lemma_tri_pairs_index(m - 1, i, j);
    } else {
        assert(tri(i) == tri(m - 1));
    }
}

pub proof fn lemma_tri_pairs_prefix(i: int, m: int)
    requires
        0 <= i <= m,
    ensures
        tri_pairs(m).take(tri(i)) == tri_pairs(i),
    decreases m,
{
    lemma_tri_pairs_len(i);
    lemma_tri_pairs_len(m);
    if i < m {
        lemma_tri_pairs_prefix(i, m - 1);
        lemma_tri_pairs_len(m - 1);
        lemma_tri_mono(i, m - 1);
        assert(tri_pairs(m).take(tri(i)) =~= tri_pairs(m - 1).take(tri(i)));
    } else {
        assert(tri_pairs(m).take(tri(i)) =~= tri_pairs(i));
    }
}

// ---------------------------------------------------------------------------
// Sums
pub proof fn lemma_abs_sum_prefix(w: Seq<int>, k: int)
    requires
        0 <= k < w.len(),
    ensures
        abs_sum(w.take(k + 1)) == abs_sum(w.take(k)) + if w[k] < 0 { -w[k] } else { w[k] },
        abs_sum(w.take(k + 1)) <= abs_sum(w),
        abs_sum(w.take(k)) >= 0,
    decreases w.len(),
{
    assert(w.take(k + 1).drop_last() =~= w.take(k));
    lemma_abs_sum_nonneg(w.take(k));
    if k + 1 < w.len() {
        lemma_abs_sum_prefix(w.drop_last(), k);
        assert(w.drop_last().take(k + 1) =~= w.take(k + 1));
        assert(w.drop_last().take(k) =~= w.take(k));
    } else {
        assert(w.take(k + 1) =~= w);
    }
}

pub proof fn lemma_abs_sum_nonneg(w: Seq<int>)
    ensures
        abs_sum(w) >= 0,
        neg_sum(w) >= 0,
        neg_sum(w) <= abs_sum(w),
    decreases w.len(),
{
    if w.len() > 0 {
        lemma_abs_sum_nonneg(w.drop_last());
    }
}

pub proof fn lemma_neg_sum_prefix(w: Seq<int>, k: int)
    requires
        0 <= k < w.len(),
    ensures
        neg_sum(w.take(k + 1)) == neg_sum(w.take(k)) + if w[k] < 0 { -w[k] } else { 0 },
{
    assert(w.take(k + 1).drop_last() =~= w.take(k));
}

// ---------------------------------------------------------------------------
// Folding the matrix onto its lower triangle keeps the objective.
proof fn lemma_mat_sum_col(q: Seq<Seq<i32>>, x: Seq<bool>, r: int, c: int)
    requires
        r >= 0,
        c >= 0,
    ensures
        mat_sum(q, x, r, c + 1) == mat_sum(q, x, r, c) + col_sum(q, x, c, r),
    decreases r,
{
    if r > 0 {
        lemma_mat_sum_col(q, x, r - 1, c);
    }
}

proof fn lemma_row_block(q: Seq<Seq<i32>>, x: Seq<bool>, m: int, k: int)
    requires
        0 <= k <= m,
        m < tri_pairs(q.len() as int).len(),
        m < q.len(),
        x.len() == q.len(),
    ensures
        pair_sum(tri_coefs(q), tri_pairs(q.len() as int), x, tri(m) + k) == pair_sum(
            tri_coefs(q),
            tri_pairs(q.len() as int),
            x,
            tri(m),
        ) + row_sum(q, x, m, k) + col_sum(q, x, m, k),
    decreases k,
{
    let n = q.len() as int;
    if k > 0 {
        lemma_tri_pairs_len(m);
        lemma_row_block(q, x, m, k - 1);
        lemma_tri_pairs_index(n, m, k - 1);
        lemma_tri_pairs_len(n);
        let idx = tri(m) + k - 1;
        let ps = tri_pairs(n);
        assert(idx < ps.len());
        assert(ps[idx] == (m, k - 1));
        assert(tri_coefs(q).len() == ps.len());
        lemma_tri_coefs_index(q, idx);
        assert(pair_sum(tri_coefs(q), ps, x, idx + 1) == pair_sum(tri_coefs(q), ps, x, idx) + if x[m]
            && x[k - 1] { coef(q, m, k - 1) } else { 0 });
        assert(row_sum(q, x, m, k) == row_sum(q, x, m, k - 1) + term(q, x, m, k - 1));
        assert(col_sum(q, x, m, k) == col_sum(q, x, m, k - 1) + term(q, x, k - 1, m));
    }
}

/// The objective over the folded coefficients is `x^T Q x`.
pub proof fn lemma_tri_value(q: Seq<Seq<i32>>, x: Seq<bool>)
    requires
        square(q),
        x.len() == q.len(),
    ensures
        tri_value(tri_coefs(q), x, q.len() as int) == qubo_value(q, x),
{
    let n = q.len() as int;
    lemma_tri_value_upto(q, x, n);
}

proof fn lemma_tri_value_upto(q: Seq<Seq<i32>>, x: Seq<bool>, m: int)
    requires
        square(q),
        x.len() == q.len(),
        0 <= m <= q.len(),
    ensures
        pair_sum(tri_coefs(q), tri_pairs(q.len() as int), x, tri(m)) == mat_sum(q, x, m, m),
    decreases m,
{
    let n = q.len() as int;
    if m > 0 {
        let i = m - 1;
        lemma_tri_pairs_len(i);
        lemma_tri_value_upto(q, x, i);
        lemma_tri_pairs_len(n);
        lemma_tri_mono(m, n);
        lemma_row_block(q, x, i, i);
        lemma_tri_pairs_index(n, i, i);
        lemma_mat_sum_col(q, x, i, i);
        assert(tri(m) == tri(i) + i + 1);
        let ps = tri_pairs(n);
        let idx = tri(i) + i;
        assert(ps[idx] == (i, i));
        lemma_tri_coefs_index(q, idx);
        assert(pair_sum(tri_coefs(q), ps, x, idx + 1) == pair_sum(tri_coefs(q), ps, x, idx) + if x[i]
            && x[i] { coef(q, i, i) } else { 0 });
        assert(mat_sum(q, x, m, m) == mat_sum(q, x, i, m) + row_sum(q, x, i, m));
        assert(row_sum(q, x, i, m) == row_sum(q, x, i, i) + term(q, x, i, i));
    }
}

/// Every `x^T Q x` is at least minus the sum of the magnitudes of the negative folded
/// coefficients.
pub proof fn lemma_pair_sum_lower(w: Seq<int>, ps: Seq<(int, int)>, x: Seq<bool>, k: int)
    requires
        0 <= k <= w.len(),
    ensures
        pair_sum(w, ps, x, k) >= -neg_sum(w.take(k)),
    decreases k,
{
    if k > 0 {
        lemma_pair_sum_lower(w, ps, x, k - 1);
        lemma_neg_sum_prefix(w, k - 1);
    }
}

pub proof fn lemma_neg_sum_bounds(w: Seq<int>)
    ensures
        0 <= neg_sum(w) <= abs_sum(w),
    decreases w.len(),
{
    if w.len() > 0 {
        lemma_neg_sum_bounds(w.drop_last());
    }
}

/// `v` is the least value of `x^T Q x` over all assignments.
pub open spec fn is_min(q: Seq<Seq<i32>>, v: int) -> bool {
    &&& exists|x: Seq<bool>| x.len() == q.len() && #[trigger] qubo_value(q, x) == v
    &&& forall|x: Seq<bool>| x.len() == q.len() ==> #[trigger] qubo_value(q, x) >= v
}

/// The least value is one value: two searches that each find the least value, in whatever
/// bases, find the same one.
pub proof fn lemma_min_unique(q: Seq<Seq<i32>>, v1: int, v2: int)
    requires
        is_min(q, v1),
        is_min(q, v2),
    ensures
        v1 == v2,
{
    let x1 = choose|x: Seq<bool>| x.len() == q.len() && #[trigger] qubo_value(q, x) == v1;
    let x2 = choose|x: Seq<bool>| x.len() == q.len() && #[trigger] qubo_value(q, x) == v2;
    assert(qubo_value(q, x1) >= v2);
    assert(qubo_value(q, x2) >= v1);
}

/// No assignment has an objective below minus the sum of the magnitudes of the negative
/// folded coefficients.
pub proof fn lemma_value_lower_bound(q: Seq<Seq<i32>>, x: Seq<bool>)
    requires
        square(q),
        x.len() == q.len(),
    ensures
        qubo_value(q, x) >= -neg_sum(tri_coefs(q)),
{
    let w = tri_coefs(q);
    let n = q.len() as int;
    lemma_tri_value(q, x);
    lemma_tri_pairs_len(n);
    lemma_pair_sum_lower(w, tri_pairs(n), x, tri(n));
    assert(w.take(tri(n)) =~= w);
}

/// The assignment that sets every variable false has objective `0`.
pub proof fn lemma_value_all_false(q: Seq<Seq<i32>>, x: Seq<bool>)
    requires
        square(q),
        x.len() == q.len(),
        forall|i: int| 0 <= i < x.len() ==> !x[i],
    ensures
        qubo_value(q, x) == 0,
{
    let w = tri_coefs(q);
    let n = q.len() as int;
    lemma_tri_value(q, x);
    lemma_tri_pairs_len(n);
    assert forall|i: int| 0 <= i < tri(n) implies 0 <= (#[trigger] tri_pairs(n)[i]).0 < x.len() by {
        lemma_tri_pairs_bounds(n, i);
    }
    lemma_pair_sum_zero(w, tri_pairs(n), x, tri(n));
}

pub proof fn lemma_pair_sum_zero(w: Seq<int>, ps: Seq<(int, int)>, x: Seq<bool>, k: int)
    requires
        forall|i: int| 0 <= i < x.len() ==> !x[i],
        forall|i: int| 0 <= i < k ==> 0 <= (#[trigger] ps[i]).0 < x.len(),
    ensures
        pair_sum(w, ps, x, k) == 0,
    decreases k,
{
    if k > 0 {
        lemma_pair_sum_zero(w, ps, x, k - 1);
    }
}

// ---------------------------------------------------------------------------
// Base-b digits
/// The base-`b` digits of `m > 0`, least significant first, with no leading zero.
pub open spec fn base_digits(m: int, b: int) -> Seq<int>
    decreases m,
{
    if m <= 0 || b < 2 {
        seq![]
    } else {
        proof {
            vstd::arithmetic::div_mod::lemma_div_is_strictly_smaller(m, b);
            vstd::arithmetic::div_mod::lemma_div_pos_is_pos(m, b);
        }
        seq![m % b] + base_digits(m / b, b)
    }
}

/// The digits the solvers use: `[0]` for zero.
pub open spec fn digits_of(m: int, b: int) -> Seq<int> {
    if m == 0 { seq![0] } else { base_digits(m, b) }
}

/// `d[0] + b d[1] + b^2 d[2] + ...`
pub open spec fn digits_value(d: Seq<int>, b: int) -> int
    decreases d.len(),
{
    if d.len() == 0 { 0 } else { d[0] + b * digits_value(d.drop_first(), b) }
}

pub proof fn lemma_base_digits(m: int, b: int)
    requires
        m >= 0,
        b >= 2,
    ensures
        digits_value(base_digits(m, b), b) == m,
        forall|i: int| 0 <= i < base_digits(m, b).len() ==> 0 <= #[trigger] base_digits(m, b)[i] < b,
        m > 0 ==> base_digits(m, b).len() >= 1 && base_digits(m, b).last() != 0,
    decreases m,
{
    if m > 0 {
        vstd::arithmetic::div_mod::lemma_div_is_strictly_smaller(m, b);
        vstd::arithmetic::div_mod::lemma_div_pos_is_pos(m, b);
        lemma_base_digits(m / b, b);
        let d = base_digits(m, b);
        assert(d.drop_first() =~= base_digits(m / b, b));
        assert(m == m % b + b * (m / b)) by (nonlinear_arith)
            requires
                b >= 2,
        ;
        if m / b == 0 {
            assert(m % b == m);
        }
    }
}

/// The base-`base` digits of `m` (least significant first; `[0]` for zero).
pub fn to_base(m: i32, base: i32) -> (d: Vec<i32>)
    requires
        m >= 0,
        base >= 2,
    ensures
        ints(d@) == digits_of(m as int, base as int),
{
    let mut tmp = Vec::<i32>::new();
    if m == 0 {
        tmp.push(0);
        assert(ints(tmp@) =~= seq![0int]);
    } else {
        let mut c = m;
        while c > 0
            invariant
                c >= 0,
                base >= 2,
                ints(tmp@) + base_digits(c as int, base as int) == base_digits(m as int, base as int),
            decreases c,
        {
            let ghost before = ints(tmp@);
            tmp.push(c % base);
            assert(ints(tmp@) =~= before.push((c % base) as int));
            assert(base_digits(c as int, base as int) == seq![(c % base) as int] + base_digits(
                (c / base) as int,
                base as int,
            ));
            assert(ints(tmp@) + base_digits((c / base) as int, base as int) =~= before
                + base_digits(c as int, base as int));
            c = c / base;
        }
        assert(base_digits(c as int, base as int) =~= Seq::<int>::empty());
        assert(ints(tmp@) =~= ints(tmp@) + base_digits(c as int, base as int));
    }
    tmp
}


pub proof fn lemma_abs_bound(w: Seq<int>, k: int)
    requires
        0 <= k < w.len(),
    ensures
        -abs_sum(w) <= w[k] <= abs_sum(w),
        neg_sum(w.take(k)) + (if w[k] < 0 { -w[k] } else { 0 }) <= abs_sum(w),
        abs_sum(w.take(k)) + (if w[k] < 0 { -w[k] } else { w[k] }) <= abs_sum(w),
{
    lemma_abs_sum_prefix(w, k);
    lemma_abs_sum_nonneg(w.take(k));
}

/// Folds `input` onto its lower triangle, row by row: entry `tri(i) + j` is
/// `input[i][j] + input[j][i]` (`input[i][i]` on the diagonal). Also returns the sum of the
/// magnitudes of the negative entries.
pub fn flatten_qubo(input: &Vec<Vec<i32>>) -> (r: (Vec<i32>, i32))
    requires
        square(input.deep_view()),
        abs_sum(tri_coefs(input.deep_view())) <= i32::MAX,
    ensures
        ints(r.0@) == tri_coefs(input.deep_view()),
        r.1 == neg_sum(tri_coefs(input.deep_view())),
{
    let ghost q = input.deep_view();
    let ghost w = tri_coefs(q);
    let n = input.len();
    let mut mat_n = Vec::<i32>::new();
    let mut p: i32 = 0;
    proof {
        lemma_tri_pairs_len(n as int);
    }
    for i in 0..n
        invariant
            n == input.len(),
            q == input.deep_view(),
            w == tri_coefs(q),
            square(q),
            abs_sum(w) <= i32::MAX,
            w.len() == tri(n as int),
            ints(mat_n@) == w.take(tri(i as int)),
            p == neg_sum(w.take(tri(i as int))),
    {
        proof {
            lemma_tri_pairs_len(i as int);
            lemma_tri_mono(i as int, n as int);
        }
        for j in 0..(i + 1)
            invariant
                n == input.len(),
                q == input.deep_view(),
                w == tri_coefs(q),
                square(q),
                abs_sum(w) <= i32::MAX,
                w.len() == tri(n as int),
                i < n,
                tri(i as int) >= 0,
                ints(mat_n@) == w.take(tri(i as int) + j),
                p == neg_sum(w.take(tri(i as int) + j)),
        {
            let ghost idx = tri(i as int) + j;
            proof {
                lemma_tri_pairs_index(n as int, i as int, j as int);
                lemma_tri_pairs_len(n as int);
                lemma_tri_coefs_index(q, idx);
                lemma_abs_bound(w, idx);
                lemma_abs_sum_nonneg(w.take(idx));
                lemma_neg_sum_prefix(w, idx);
                assert(q[i as int] == input[i as int]@);
                assert(q[j as int] == input[j as int]@);
            }
            let v;
            if i == j {
                v = input[i][j];
            } else {
                v = input[i][j] + input[j][i];
            }
            assert(v == w[idx]);
            let ghost before = mat_n@;
            mat_n.push(v);
            assert(ints(mat_n@) =~= w.take(idx + 1));
            if v < 0 {
                p = p - v;
            }
        }
        assert(tri(i + 1) == tri(i as int) + i + 1);
    }
    assert(w.take(tri(n as int)) =~= w);
    (mat_n, p)
}


/// Every pair `(i, j)` of the first `m` rows has `j <= i < m`.
pub proof fn lemma_tri_pairs_bounds(m: int, k: int)
    requires
        0 <= k < tri(m),
        m >= 0,
    ensures
        0 <= tri_pairs(m)[k].1 <= tri_pairs(m)[k].0 < m,
    decreases m,
{
    lemma_tri_pairs_len(m - 1);
    if k < tri(m - 1) {
        lemma_tri_pairs_bounds(m - 1, k);
    }
}


/// Digit `i` of `m` in base `b`.
pub open spec fn digit(m: int, b: int, i: int) -> int {
    (m / vstd::arithmetic::power::pow(b, i as nat)) % b
}

/// `m` above its lowest `k` digits: `m / b^k`.
pub open spec fn high_part(m: int, b: int, k: int) -> int {
    m / vstd::arithmetic::power::pow(b, k as nat)
}

/// `sum_{i < k} digit(m, b, i) b^i`
pub open spec fn low_sum(m: int, b: int, k: int) -> int
    decreases k,
{
    if k <= 0 {
        0
    } else {
        low_sum(m, b, k - 1) + digit(m, b, k - 1) * vstd::arithmetic::power::pow(b, (k - 1) as nat)
    }
}

/// The high part grows with the number.
pub proof fn lemma_high_part_mono(m1: int, m2: int, b: int, k: int)
    requires
        0 <= m1 <= m2,
        b >= 2,
        k >= 0,
    ensures
        0 <= high_part(m1, b, k) <= high_part(m2, b, k),
{
    lemma_pow_pos(b, k as nat);
    vstd::arithmetic::div_mod::lemma_div_is_ordered(m1, m2, vstd::arithmetic::power::pow(b, k as nat));
    vstd::arithmetic::div_mod::lemma_div_pos_is_pos(m1, vstd::arithmetic::power::pow(b, k as nat));
}

pub proof fn lemma_pow_pos(b: int, e: nat)
    requires
        b >= 1,
    ensures
        vstd::arithmetic::power::pow(b, e) >= 1,
    decreases e,
{
    reveal(vstd::arithmetic::power::pow);
    if e > 0 {
        lemma_pow_pos(b, (e - 1) as nat);
        let p = vstd::arithmetic::power::pow(b, (e - 1) as nat);
        assert(b * p >= 1) by (nonlinear_arith)
            requires
                b >= 1,
                p >= 1,
        ;
    }
}

/// The lowest `k` digits of `m` are `m mod b^k`.
pub proof fn lemma_low_sum(m: int, b: int, k: int)
    requires
        m >= 0,
        b >= 2,
        k >= 0,
    ensures
        low_sum(m, b, k) == m % vstd::arithmetic::power::pow(b, k as nat),
    decreases k,
{
    reveal(vstd::arithmetic::power::pow);
    if k > 0 {
        lemma_low_sum(m, b, k - 1);
        let y = vstd::arithmetic::power::pow(b, (k - 1) as nat);
        lemma_pow_pos(b, (k - 1) as nat);
        assert(vstd::arithmetic::power::pow(b, k as nat) == b * y);
        assert(b * y == y * b) by (nonlinear_arith);
        vstd::arithmetic::div_mod::lemma_mod_breakdown(m, y, b);
        assert(digit(m, b, k - 1) * y == y * ((m / y) % b)) by (nonlinear_arith)
            requires
                digit(m, b, k - 1) == (m / y) % b,
        ;
    } else {
        assert(vstd::arithmetic::power::pow(b, 0) == 1);
    }
}

/// `m` is its low part plus `b^k` times its high part.
pub proof fn lemma_low_high(m: int, b: int, k: int)
    requires
        m >= 0,
        b >= 2,
        k >= 0,
    ensures
        m == low_sum(m, b, k) + vstd::arithmetic::power::pow(b, k as nat) * high_part(m, b, k),
        high_part(m, b, k) >= 0,
{
    lemma_low_sum(m, b, k);
    let y = vstd::arithmetic::power::pow(b, k as nat);
    lemma_pow_pos(b, k as nat);
    vstd::arithmetic::div_mod::lemma_fundamental_div_mod(m, y);
    vstd::arithmetic::div_mod::lemma_div_pos_is_pos(m, y);
}

/// The digits of `m` are `digit(m, b, i)`, and there are just enough of them.
pub proof fn lemma_base_digits_index(m: int, b: int)
    requires
        m >= 0,
        b >= 2,
    ensures
        forall|i: int|
            0 <= i < base_digits(m, b).len() ==> #[trigger] base_digits(m, b)[i] == digit(m, b, i),
        m < vstd::arithmetic::power::pow(b, base_digits(m, b).len()),
    decreases m,
{
    reveal(vstd::arithmetic::power::pow);
    if m > 0 {
        vstd::arithmetic::div_mod::lemma_div_is_strictly_smaller(m, b);
        vstd::arithmetic::div_mod::lemma_div_pos_is_pos(m, b);
        lemma_base_digits_index(m / b, b);
        let d = base_digits(m, b);
        let d1 = base_digits(m / b, b);
        assert(d == seq![m % b] + d1);
        assert forall|i: int| 0 <= i < d.len() implies #[trigger] d[i] == digit(m, b, i) by {
            if i == 0 {
                assert(vstd::arithmetic::power::pow(b, 0) == 1);
            } else {
                assert(d[i] == d1[i - 1]);
                let y = vstd::arithmetic::power::pow(b, (i - 1) as nat);
                lemma_pow_pos(b, (i - 1) as nat);
                vstd::arithmetic::div_mod::lemma_div_denominator(m, b, y);
                assert(vstd::arithmetic::power::pow(b, i as nat) == b * y);
            }
        }
        let p1 = vstd::arithmetic::power::pow(b, d1.len());
        assert(vstd::arithmetic::power::pow(b, d.len()) == b * p1);
        assert(m == b * (m / b) + m % b) by {
            vstd::arithmetic::div_mod::lemma_fundamental_div_mod(m, b);
        }
        assert(m < b * p1) by (nonlinear_arith)
            requires
                m == b * (m / b) + m % b,
                m % b < b,
                m / b < p1,
                b >= 2,
        ;
    } else {
        assert(vstd::arithmetic::power::pow(b, 0) == 1);
    }
}

/// Past its last digit, the digits of `m` are `0`.
pub proof fn lemma_digit_past(m: int, b: int, i: int)
    requires
        m >= 0,
        b >= 2,
        i >= base_digits(m, b).len(),
    ensures
        digit(m, b, i) == 0,
        high_part(m, b, i) == 0,
{
    lemma_base_digits_index(m, b);
    vstd::arithmetic::power::lemma_pow_increases(b as nat, base_digits(m, b).len(), i as nat);
    let y = vstd::arithmetic::power::pow(b, i as nat);
    lemma_pow_pos(b, i as nat);
    vstd::arithmetic::div_mod::lemma_basic_div(m, y);
}

} // verus!
