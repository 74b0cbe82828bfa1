//! The whole SAT encoding of a QUBO matrix: product variables, digits and sorters.
use vstd::prelude::*;
use varisat::CnfFormula;
use crate::cnf::{clauses_within, cnf_clauses, cnf_holds, cnf_new, max_var, MAX_VAR};
use crate::encode::{abs_all, encode_products, product_clauses, product_clauses_of, x_var, z_var};
use crate::cnf::{lemma_max_var_ge, model_asg, model_wf};
use crate::encode::{lemma_product_clauses, lemma_z_sum, x_of, z_sum};
use crate::qubo::{lemma_abs_sum_prefix, lemma_tri_pairs_bounds, lemma_tri_value, qubo_value, tri_value};
use crate::sorter::lemma_cnf_holds_prefix;
use crate::qubo::{base_digits, digit, high_part, lemma_base_digits_index, lemma_digit_past, lemma_pow_pos};
use crate::qubo::{
    qubo_ok, abs_sum, digits_of, flatten_qubo, ints, lemma_abs_bound, lemma_tri_pairs_len, neg_sum,
    square, to_base, tri, tri_coefs, tri_pairs,
};
use crate::sorter::{
    budget, max_len, mk_sorterlst, slen, sorter_shape, sorter_sorts, sorter_vars, Sorter,
};

verus! {

/// The base-`b` digits of `|w[k]|`, for each `k`.
pub open spec fn digit_rows(w: Seq<int>, b: int) -> Seq<Seq<i32>> {
    Seq::new(
        w.len(),
        |k: int| digits_of(if w[k] < 0 { -w[k] } else { w[k] }, b).map_values(|d: int| d as i32),
    )
}

/// Fresh variables that residue constraints on the first `l` sorters may take
/// (`residue_room` of each length).
pub open spec fn room_sum(nb: Seq<Seq<i32>>, b: int, n: int, l: int) -> int
    decreases l,
{
    if l <= 0 { 0 } else { room_sum(nb, b, n, l - 1) + crate::constraints::residue_room(slen(nb, b, n, l - 1), b) }
}

/// The longest of the first `l` sorters (`0` for none).
pub open spec fn slen_max(nb: Seq<Seq<i32>>, b: int, n: int, l: int) -> int
    decreases l,
{
    if l <= 0 {
        0
    } else {
        let m = slen_max(nb, b, n, l - 1);
        if slen(nb, b, n, l - 1) > m { slen(nb, b, n, l - 1) } else { m }
    }
}

/// The fresh variables one step of a search may take: residue constraints on the sorters
/// below the top one, and one more constraint on the longest of them.
pub open spec fn step_room(nb: Seq<Seq<i32>>, b: int, n: int, l: int) -> int {
    room_sum(nb, b, n, l - 1) + slen_max(nb, b, n, l - 1)
}

pub proof fn lemma_step_room_nonneg(nb: Seq<Seq<i32>>, b: int, n: int, l: int)
    requires
        b >= 2,
    ensures
        room_sum(nb, b, n, l) >= 0,
        slen_max(nb, b, n, l) >= 0,
        step_room(nb, b, n, l + 1) >= 0,
    decreases l,
{
    if l > 0 {
        lemma_step_room_nonneg(nb, b, n, l - 1);
        lemma_slen_nonneg(nb, b, n, l - 1);
        vstd::arithmetic::div_mod::lemma_div_pos_is_pos(slen(nb, b, n, l - 1) + b - 2, b);
    }
}

pub proof fn lemma_slen_nonneg(nb: Seq<Seq<i32>>, b: int, n: int, i: int)
    requires
        b >= 2,
    ensures
        slen(nb, b, n, i) >= 0,
    decreases i + 1,
{
    if i >= 0 {
        lemma_slen_nonneg(nb, b, n, i - 1);
        vstd::arithmetic::div_mod::lemma_div_pos_is_pos(slen(nb, b, n, i - 1), b);
    }
}

/// The sizes of the encoding fit the solver: every sorter and every variable, with
/// `extra` variables to spare for the constraints of the search.
pub open spec fn enc_limits(q: Seq<Seq<i32>>, b: int, extra: int) -> bool {
    let w = tri_coefs(q);
    let nb = digit_rows(w, b);
    let n = q.len() as int;
    &&& tri(n) <= i32::MAX
    &&& forall|i: int| 0 <= i < max_len(nb) ==> #[trigger] slen(nb, b, n, i) <= MAX_VAR
    &&& n + tri(n) + 1 + budget(nb, b, n, max_len(nb)) + extra <= MAX_VAR + 1
}

/// The SAT encoding of a QUBO matrix.
pub struct Encoding {
    /// Number of QUBO variables; variable `i + 1` is `x_i`.
    pub n: usize,
    /// The folded coefficients, row by row; variable `n + 1 + k` is product `k`.
    pub mat_n: Vec<i32>,
    /// Their magnitudes.
    pub mat_m: Vec<i32>,
    /// Sum of the magnitudes of the negative coefficients.
    pub p: i32,
    /// Product and sorter clauses.
    pub f: CnfFormula,
    /// One sorter per digit position, lowest first.
    pub sorter_lst: Vec<Sorter>,
    /// The first variable that is still free.
    pub vargen: usize,
}

/// Some assignment that satisfies the clauses has `x` as its QUBO part.
pub open spec fn reaches(cs: Seq<Seq<int>>, n: int, x: Seq<bool>) -> bool {
    exists|a: spec_fn(int) -> bool| x_of(a, n) == x && #[trigger] cnf_holds(a, cs)
}

/// What an encoding of `q` in base `b` is.
pub open spec fn enc_ok(e: Encoding, q: Seq<Seq<i32>>, b: int) -> bool {
    let w = tri_coefs(q);
    let n = q.len() as int;
    let nb = digit_rows(w, b);
    &&& qubo_ok(q)
    &&& e.vargen <= MAX_VAR + 1
    &&& e.n == n
    &&& ints(e.mat_n@) == w
    &&& e.mat_m.len() == w.len()
    &&& forall|k: int|
        0 <= k < w.len() ==> #[trigger] e.mat_m@[k] as int == if w[k] < 0 { -w[k] } else { w[k] }
    &&& e.p == neg_sum(w)
    &&& w.len() == tri(n)
    &&& cnf_clauses(e.f).take(tri(n) * 3) == product_clauses(w, tri_pairs(n), n, tri(n))
    &&& cnf_clauses(e.f).len() >= tri(n) * 3
    &&& clauses_within(cnf_clauses(e.f).skip(tri(n) * 3), e.vargen as int)
    &&& max_var(cnf_clauses(e.f)) >= e.vargen - 1
    &&& clauses_within(cnf_clauses(e.f), e.vargen as int)
    &&& forall|x: Seq<bool>| x.len() == n ==> #[trigger] reaches(cnf_clauses(e.f), n, x)
    &&& n + tri(n) + 1 <= e.vargen
    &&& e.vargen <= n + tri(n) + 1 + budget(nb, b, n, max_len(nb))
    &&& e.sorter_lst.len() == max_len(nb)
    &&& forall|i: int| 0 <= i < e.sorter_lst.len() ==> #[trigger] sorter_shape(e.sorter_lst@, nb, n, b, i)
    &&& forall|i: int| 0 <= i < e.sorter_lst.len() ==> sorter_vars(#[trigger] e.sorter_lst@[i], e.vargen as int)
    &&& forall|a: spec_fn(int) -> bool|
        #[trigger] cnf_holds(a, cnf_clauses(e.f)) ==> forall|i: int|
            0 <= i < e.sorter_lst.len() ==> sorter_sorts(a, #[trigger] e.sorter_lst@[i])
}


proof fn lemma_product_clauses_len(w: Seq<int>, ps: Seq<(int, int)>, n: int, k: int)
    requires
        k >= 0,
    ensures
        product_clauses(w, ps, n, k).len() == 3 * k,
        k >= 1 ==> product_clauses(w, ps, n, k)[3 * (k - 1)][2] == z_var(n, k - 1)
            || product_clauses(w, ps, n, k)[3 * (k - 1)][2] == -z_var(n, k - 1),
        k >= 1 ==> product_clauses(w, ps, n, k)[3 * (k - 1)].len() == 3,
    decreases k,
{
    if k > 0 {
        lemma_product_clauses_len(w, ps, n, k - 1);
        let prev = product_clauses(w, ps, n, k - 1);
        let three = product_clauses_of(w[k - 1], x_var(ps[k - 1].0), x_var(ps[k - 1].1), z_var(n, k - 1));
        assert(product_clauses(w, ps, n, k) == prev + three);
        assert((prev + three)[3 * (k - 1)] == three[0]);
    }
}

/// Builds the encoding of `input` in base `base`: the product clauses, the digits of
/// the coefficients' magnitudes, and one sorter per digit position.
pub fn build_encoding(input: &Vec<Vec<i32>>, base: i32) -> (e: Encoding)
    requires
        qubo_ok(input.deep_view()),
        base >= 2,
        enc_limits(input.deep_view(), base as int, 0),
    ensures
        enc_ok(e, input.deep_view(), base as int),
{
    let ghost q = input.deep_view();
    let ghost w = tri_coefs(q);
    let ghost nb = digit_rows(w, base as int);
    let (mat_n, p) = flatten_qubo(input);
    let n = input.len();
    proof {
        lemma_tri_pairs_len(n as int);
        crate::sorter::lemma_budget_mono(nb, base as int, n as int, 0, max_len(nb));
        crate::sorter::lemma_budget_mono(nb, base as int, n as int, max_len(nb), max_len(nb));
    }
    let mut f = cnf_new();
    encode_products(&mut f, &mat_n, n);
    let ghost prods = cnf_clauses(f);
    assert(prods =~= product_clauses(w, tri_pairs(n as int), n as int, tri(n as int)));
    assert forall|k: int| 0 <= k < mat_n.len() implies #[trigger] mat_n@[k] > i32::MIN by {
        lemma_abs_bound(w, k);
        assert(mat_n@[k] as int == w[k]);
    }
    let mat_m = abs_all(&mat_n);
    let mut num_b = Vec::<Vec<i32>>::new();
    for i in 0..mat_n.len()
        invariant
            base >= 2,
            mat_m.len() == mat_n.len(),
            ints(mat_n@) == w,
            forall|k: int|
                0 <= k < mat_n.len() ==> #[trigger] mat_m@[k] as int == if mat_n@[k] < 0 {
                    -(mat_n@[k] as int)
                } else {
                    mat_n@[k] as int
                },
            num_b.deep_view() == digit_rows(w, base as int).take(i as int),
    {
        assert(mat_n@[i as int] as int == w[i as int]);
        let d = to_base(mat_m[i], base);
        let ghost dr = digits_of(if w[i as int] < 0 { -w[i as int] } else { w[i as int] }, base as int);
        assert(d@ =~= dr.map_values(|x: int| x as i32)) by {
            assert forall|t: int| 0 <= t < d@.len() implies d@[t] == dr.map_values(|x: int| x as i32)[t] by {
                assert(crate::qubo::ints(d@)[t] == d@[t] as int);
            }
        }
        let ghost before = num_b.deep_view();
        assert(d.deep_view() =~= d@);
        num_b.push(d);
        assert(num_b.deep_view() =~= before.push(d@));
        assert(num_b.deep_view() =~= digit_rows(w, base as int).take(i + 1));
    }
    assert(num_b.deep_view() =~= nb);
    let mut sorter_lst = Vec::<Sorter>::new();
    let mut vargen = mat_n.len() + n + 1;
    proof {
        lemma_product_clauses_len(w, tri_pairs(n as int), n as int, tri(n as int));
        if tri(n as int) >= 1 {
            lemma_max_var_ge(prods, 3 * (tri(n as int) - 1), 2);
        } else {
            crate::cnf::lemma_max_var_nonneg(prods);
        }
    }
    proof {
        let ps = tri_pairs(n as int);
        assert forall|t: int| 0 <= t < tri(n as int) implies 0 <= (#[trigger] ps[t]).0 < n && 0 <= ps[t].1 < n by {
            lemma_tri_pairs_bounds(n as int, t);
        }
        assert(prods =~= product_clauses(w, ps, n as int, tri(n as int)));
        crate::encode::lemma_product_clauses_within(w, ps, n as int, tri(n as int));
    }
    let ghost vg_before = vargen;
    let ghost mv_before = max_var(cnf_clauses(f));
    mk_sorterlst(&mut sorter_lst, &num_b, &mut f, base as usize, n, &mut vargen);
    assert(cnf_clauses(f).take(tri(n as int) * 3) == prods);
    proof {
        assert(sorter_lst@.skip(0) =~= sorter_lst@);
        assert(mv_before >= vg_before - 1);
        assert(max_var(cnf_clauses(f)) >= vargen - 1);
        let ps = tri_pairs(n as int);
        let fc = cnf_clauses(f);
        let bound = (n + tri(n as int) + 1) as int;
        assert forall|x: Seq<bool>| x.len() == n implies #[trigger] reaches(fc, n as int, x) by {
            assert forall|t: int| 0 <= t < w.len() implies 0 <= (#[trigger] ps[t]).0 < n && 0 <= ps[t].1 < n by {
                lemma_tri_pairs_bounds(n as int, t);
            }
            crate::encode::lemma_product_asg(w, ps, n as int, x);
            let a0 = crate::encode::product_asg(w, ps, n as int, x);
            assert(cnf_holds(a0, prods));
            let a2 = choose|a2: spec_fn(int) -> bool| crate::cnf::agree_below(a2, a0, bound) && #[trigger] cnf_holds(a2, fc);
            assert(x_of(a2, n as int) =~= x_of(a0, n as int)) by {
                assert forall|i: int| 0 <= i < n implies #[trigger] x_of(a2, n as int)[i] == x_of(a0, n as int)[i] by {
                    assert(a2(i + 1) == a0(i + 1));
                }
            }
        }
    }
    Encoding { n, mat_n, mat_m, p, f, sorter_lst, vargen }
}


proof fn lemma_z_sum_bound(w: Seq<int>, a: spec_fn(int) -> bool, n: int, k: int)
    requires
        0 <= k <= w.len(),
    ensures
        0 <= z_sum(w, a, n, k) <= abs_sum(w.take(k)),
    decreases k,
{
    if k > 0 {
        lemma_z_sum_bound(w, a, n, k - 1);
        lemma_abs_sum_prefix(w, k - 1);
    } else {
        assert(w.take(0) =~= Seq::<int>::empty());
    }
}

/// In a model of the encoding, the objective of the model's `x` part is
/// `sum |w_k| z_k - p`.
pub proof fn lemma_model_value(e: Encoding, q: Seq<Seq<i32>>, b: int, a: spec_fn(int) -> bool)
    requires
        enc_ok(e, q, b),
        cnf_holds(a, cnf_clauses(e.f)),
    ensures
        z_sum(tri_coefs(q), a, q.len() as int, tri(q.len() as int)) - neg_sum(tri_coefs(q))
            == qubo_value(q, x_of(a, q.len() as int)),
{
    let w = tri_coefs(q);
    let n = q.len() as int;
    let ps = tri_pairs(n);
    lemma_tri_pairs_len(n);
    lemma_cnf_holds_prefix(a, cnf_clauses(e.f), tri(n) * 3);
    assert forall|t: int| 0 <= t < tri(n) implies 0 <= (#[trigger] ps[t]).0 < n && 0 <= ps[t].1 < n by {
        lemma_tri_pairs_bounds(n, t);
    }
    lemma_product_clauses(a, w, ps, n, tri(n));
    lemma_z_sum(a, w, ps, n, tri(n));
    assert(w.take(tri(n)) =~= w);
    lemma_tri_value(q, x_of(a, n));
}

/// Reads the `x` part of a model of the encoding and its objective `x^T Q x`.
pub fn read_value(e: &Encoding, model: &Vec<isize>) -> (r: (i32, Vec<bool>))
    requires
        exists|q: Seq<Seq<i32>>, b: int| #[trigger] enc_ok(*e, q, b) && qubo_ok(q),
        model_wf(model@),
        model.len() >= e.n + e.mat_m.len(),
        cnf_holds(model_asg(model@), cnf_clauses(e.f)),
    ensures
        r.1@ == x_of(model_asg(model@), e.n as int),
        forall|q: Seq<Seq<i32>>, b: int| #[trigger] enc_ok(*e, q, b) ==> r.0 as int == qubo_value(q, r.1@),
{
    let ghost (q, b) = choose|q: Seq<Seq<i32>>, b: int| #[trigger] enc_ok(*e, q, b) && qubo_ok(q);
    let ghost w = tri_coefs(q);
    let ghost a = model_asg(model@);
    let n = e.n;
    assert(e.mat_m.len() == tri(n as int));
    let mut qv: i32 = 0;
    for k in 0..e.mat_m.len()
        invariant
            enc_ok(*e, q, b),
            qubo_ok(q),
            w == tri_coefs(q),
            a == model_asg(model@),
            model_wf(model@),
            n == e.n,
            model.len() >= n + e.mat_m.len(),
            n + e.mat_m.len() + 1 <= MAX_VAR + 1,
            qv as int == z_sum(w, a, n as int, k as int),
    {
        proof {
            lemma_z_sum_bound(w, a, n as int, k + 1);
            lemma_abs_sum_prefix(w, k as int);
        }
        assert(a(n + 1 + k) == (model@[n + k] == n + k + 1));
        assert(e.mat_m@[k as int] as int == if w[k as int] < 0 { -w[k as int] } else { w[k as int] });
        assert(z_sum(w, a, n as int, k + 1) == z_sum(w, a, n as int, k as int) + if a(n + 1 + k) {
            if w[k as int] < 0 { -w[k as int] } else { w[k as int] }
        } else {
            0
        });
        if model[n + k] == (n + k + 1) as isize {
            qv = qv + e.mat_m[k];
        }
    }
    proof {
        crate::qubo::lemma_abs_sum_nonneg(w);
        lemma_z_sum_bound(w, a, n as int, e.mat_m.len() as int);
    }
    let v = qv - e.p;
    let mut x = Vec::<bool>::new();
    for i in 0..n
        invariant
            n == e.n,
            model.len() >= n,
            x@ == x_of(a, n as int).take(i as int),
            a == model_asg(model@),
    {
        x.push(model[i] > 0);
        assert(x@ =~= x_of(a, n as int).take(i + 1));
    }
    assert(x@ =~= x_of(a, n as int));
    proof {
        lemma_model_value(*e, q, b, a);
        crate::qubo::lemma_abs_sum_nonneg(w);
        assert forall|q2: Seq<Seq<i32>>, b2: int| #[trigger] enc_ok(*e, q2, b2) implies v as int == qubo_value(q2, x@) by {
            assert(tri_coefs(q2) == ints(e.mat_n@));
            assert(q2.len() == n);
            lemma_model_value(*e, q2, b2, a);
        }
    }
    (v, x)
}


/// How many outputs of the top sorter must be false so that its count stays within the
/// part of `m` above the lower sorters: `top_len - m / base^(L-1)`, computed from the digits
/// of `m` as the search does.
pub fn top_zerop(m: i32, base: i32, sorter_lst: &Vec<Sorter>) -> (zerop: usize)
    requires
        m >= 0,
        base >= 2,
        sorter_lst.len() >= 1,
        high_part(m as int, base as int, sorter_lst.len() - 1) <= sorter_lst@.last().output.len(),
    ensures
        zerop == sorter_lst@.last().output.len() - high_part(m as int, base as int, sorter_lst.len() - 1),
{
    let ghost b = base as int;
    let p_b = to_base(m, base);
    let l = sorter_lst.len();
    let top_len = sorter_lst[l - 1].output.len();
    let ghost d = digits_of(m as int, b);
    proof {
        if m > 0 {
            lemma_base_digits_index(m as int, b);
        }
        assert(ints(p_b@) == d);
    }
    if p_b.len() < l {
        proof {
            if m > 0 {
                lemma_digit_past(m as int, b, l - 1);
            } else {
                lemma_pow_pos(b, (l - 1) as nat);
                vstd::arithmetic::div_mod::lemma_div_of0(vstd::arithmetic::power::pow(b, (l - 1) as nat));
            }
        }
        top_len
    } else if p_b.len() == l {
        let top = p_b[p_b.len() - 1];
        proof {
            let k = l - 1;
            let y = vstd::arithmetic::power::pow(b, k as nat);
            lemma_pow_pos(b, k as nat);
            assert(ints(p_b@)[k] == p_b@[k] as int);
            if m > 0 {
                assert(d[k] == digit(m as int, b, k));
                reveal(vstd::arithmetic::power::pow);
                assert(vstd::arithmetic::power::pow(b, l as nat) == b * y);
                assert(y * b == b * y) by (nonlinear_arith);
                vstd::arithmetic::div_mod::lemma_multiply_divide_lt(m as int, y, b);
                vstd::arithmetic::div_mod::lemma_div_pos_is_pos(m as int, y);
                vstd::arithmetic::div_mod::lemma_small_mod((m as int / y) as nat, b as nat);
                assert(m < vstd::arithmetic::power::pow(b, l as nat));
                assert((m as int) / y < b);
                assert(d[k] == ((m as int) / y) % b);
                assert(d[k] == (m as int) / y);
                assert(p_b@[k] as int == d[k]);
            } else {
                assert(d == seq![0int]);
                vstd::arithmetic::div_mod::lemma_div_of0(y);
                assert(ints(p_b@).len() == 1);
                assert(k == 0);
                assert(ints(p_b@)[0] == d[0]);
                assert(p_b@[k] as int == 0);
                assert(high_part(m as int, b, k) == 0);
            }
            assert(top == p_b@[k]);
            assert(top as int == high_part(m as int, b, k));
        }
        top_len - top as usize
    } else {
        let dl = p_b.len();
        proof {
            if m == 0 {
                assert(d == digits_of(0, b));
                assert(ints(p_b@).len() == d.len());
            }
        }
        assert(m > 0);
        proof {
            lemma_digit_past(m as int, b, dl as int);
        }
        let mut tmp: i32 = 0;
        for i in 0..(dl - l + 1)
            invariant
                dl == p_b.len(),
                l <= dl,
                l >= 1,
                l == sorter_lst.len(),
                top_len == sorter_lst@.last().output.len(),
                high_part(m as int, b, sorter_lst.len() - 1) <= top_len,
                m > 0,
                b == base as int,
                base >= 2,
                ints(p_b@) == base_digits(m as int, b),
                forall|t: int| 0 <= t < dl ==> #[trigger] base_digits(m as int, b)[t] == digit(m as int, b, t),
                tmp as int == high_part(m as int, b, dl - i),
        {
            let ghost k = dl - i - 1;
            let ghost y = vstd::arithmetic::power::pow(b, k as nat);
            let ghost x = high_part(m as int, b, k);
            proof {
                lemma_pow_pos(b, k as nat);
                reveal(vstd::arithmetic::power::pow);
                assert(vstd::arithmetic::power::pow(b, (k + 1) as nat) == b * y);
                vstd::arithmetic::div_mod::lemma_div_denominator(m as int, y, b);
                assert(y * b == b * y) by (nonlinear_arith);
                assert(tmp as int == x / b);
                vstd::arithmetic::div_mod::lemma_fundamental_div_mod(x, b);
                vstd::arithmetic::div_mod::lemma_div_pos_is_pos(m as int, y);
                vstd::arithmetic::div_mod::lemma_div_nonincreasing(m as int, y);
                vstd::arithmetic::div_mod::lemma_mod_bound(x, b);
                assert(ints(p_b@)[k] == p_b@[k] as int);
                assert(p_b@[k] as int == x % b);
                assert(b * (x / b) == (x / b) * b) by (nonlinear_arith);
            }
            tmp = tmp * base + p_b[dl - i - 1];
        }
        assert(tmp as int == high_part(m as int, b, l - 1));
        proof {
            lemma_pow_pos(b, (l - 1) as nat);
            vstd::arithmetic::div_mod::lemma_div_pos_is_pos(m as int, vstd::arithmetic::power::pow(b, (l - 1) as nat));
        }
        top_len - tmp as usize
    }
}

} // verus!
