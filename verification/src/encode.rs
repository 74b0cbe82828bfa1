//! The clauses that tie each product `x_i x_j` to a variable of its own, and the objective
//! read back from a model.
use vstd::prelude::*;
use varisat::CnfFormula;
use crate::cnf::{
    as_ints, clause_holds, clauses_within, cnf_add_clause, cnf_clauses, cnf_holds,
    lemma_clause2, lemma_clause3, lemma_clauses_within_concat, lemma_cnf_holds_concat, lit_holds,
    valid_lit, MAX_VAR,
};
use crate::qubo::{
    ints, lemma_tri_mono, lemma_tri_pairs_index, lemma_tri_pairs_len, neg_sum, pair_sum, tri,
    tri_pairs,
};

verus! {

/// Variable of `x_i` (DIMACS numbering).
pub open spec fn x_var(i: int) -> int {
    i + 1
}

/// Variable of the `k`-th product, for `n` QUBO variables.
pub open spec fn z_var(n: int, k: int) -> int {
    n + 1 + k
}

/// The three clauses that make `z` the product of `x` and `y` (`w >= 0`), or its negation.
pub open spec fn product_clauses_of(w: int, x: int, y: int, z: int) -> Seq<Seq<int>> {
    if w >= 0 {
        seq![seq![-x, -y, z], seq![x, -z], seq![y, -z]]
    } else {
        seq![seq![-x, -y, -z], seq![x, z], seq![y, z]]
    }
}

/// The product clauses of the first `k` pairs.
pub open spec fn product_clauses(w: Seq<int>, ps: Seq<(int, int)>, n: int, k: int) -> Seq<Seq<int>>
    decreases k,
{
    if k <= 0 {
        seq![]
    } else {
        product_clauses(w, ps, n, k - 1) + product_clauses_of(
            w[k - 1],
            x_var(ps[k - 1].0),
            x_var(ps[k - 1].1),
            z_var(n, k - 1),
        )
    }
}

/// The values of `x_0 .. x_{n-1}` under an assignment.
pub open spec fn x_of(a: spec_fn(int) -> bool, n: int) -> Seq<bool> {
    Seq::new(n as nat, |i: int| a(x_var(i)))
}

/// What the product clauses make of `z_k`.
pub open spec fn product_ok(a: spec_fn(int) -> bool, w: Seq<int>, ps: Seq<(int, int)>, n: int, k: int) -> bool {
    let both = a(x_var(ps[k].0)) && a(x_var(ps[k].1));
    a(z_var(n, k)) == if w[k] >= 0 { both } else { !both }
}

/// `sum_{k < K} |w[k]| z_k`
pub open spec fn z_sum(w: Seq<int>, a: spec_fn(int) -> bool, n: int, k: int) -> int
    decreases k,
{
    if k <= 0 {
        0
    } else {
        z_sum(w, a, n, k - 1) + if a(z_var(n, k - 1)) {
            if w[k - 1] < 0 { -w[k - 1] } else { w[k - 1] }
        } else {
            0
        }
    }
}

proof fn lemma_three(a: spec_fn(int) -> bool, cs: Seq<Seq<int>>, c1: Seq<int>, c2: Seq<int>, c3: Seq<int>)
    requires
        cs == seq![c1, c2, c3],
        cnf_holds(a, cs),
    ensures
        clause_holds(a, c1),
        clause_holds(a, c2),
        clause_holds(a, c3),
{
    assert(cs[0] == c1);
    assert(cs[1] == c2);
    assert(cs[2] == c3);
}

/// An assignment that satisfies the product clauses gives every `z_k` the value its pair asks.
pub proof fn lemma_product_clauses(a: spec_fn(int) -> bool, w: Seq<int>, ps: Seq<(int, int)>, n: int, k: int)
    requires
        cnf_holds(a, product_clauses(w, ps, n, k)),
        forall|t: int| 0 <= t < k ==> 0 <= (#[trigger] ps[t]).0 && 0 <= ps[t].1,
        n >= 0,
    ensures
        forall|t: int| 0 <= t < k ==> #[trigger] product_ok(a, w, ps, n, t),
    decreases k,
{
    if k > 0 {
        let t = k - 1;
        let x = x_var(ps[t].0);
        let y = x_var(ps[t].1);
        let z = z_var(n, t);
        let cs = product_clauses_of(w[t], x, y, z);
        lemma_cnf_holds_concat(a, product_clauses(w, ps, n, t), cs);
        lemma_product_clauses(a, w, ps, n, t);
        if w[t] >= 0 {
            lemma_three(a, cs, seq![-x, -y, z], seq![x, -z], seq![y, -z]);
            assert(lit_holds(a, seq![-x, -y, z][0]) || lit_holds(a, seq![-x, -y, z][1]) || lit_holds(a, seq![-x, -y, z][2]));
            assert(lit_holds(a, seq![x, -z][0]) || lit_holds(a, seq![x, -z][1]));
            assert(lit_holds(a, seq![y, -z][0]) || lit_holds(a, seq![y, -z][1]));
        } else {
            lemma_three(a, cs, seq![-x, -y, -z], seq![x, z], seq![y, z]);
            assert(lit_holds(a, seq![-x, -y, -z][0]) || lit_holds(a, seq![-x, -y, -z][1]) || lit_holds(a, seq![-x, -y, -z][2]));
            assert(lit_holds(a, seq![x, z][0]) || lit_holds(a, seq![x, z][1]));
            assert(lit_holds(a, seq![y, z][0]) || lit_holds(a, seq![y, z][1]));
        }
        assert(product_ok(a, w, ps, n, t));
    }
}

/// With every `z_k` as its pair asks, `sum |w_k| z_k` minus the magnitudes of the negative
/// coefficients is the objective of the `x` part of the assignment.
pub proof fn lemma_z_sum(a: spec_fn(int) -> bool, w: Seq<int>, ps: Seq<(int, int)>, n: int, k: int)
    requires
        0 <= k <= w.len(),
        forall|t: int| 0 <= t < k ==> 0 <= (#[trigger] ps[t]).0 < n && 0 <= ps[t].1 < n,
        forall|t: int| 0 <= t < k ==> #[trigger] product_ok(a, w, ps, n, t),
    ensures
        z_sum(w, a, n, k) - neg_sum(w.take(k)) == pair_sum(w, ps, x_of(a, n), k),
    decreases k,
{
    if k > 0 {
        lemma_z_sum(a, w, ps, n, k - 1);
        assert(w.take(k).drop_last() =~= w.take(k - 1));
        assert(product_ok(a, w, ps, n, k - 1));
        assert(x_of(a, n)[ps[k - 1].0] == a(x_var(ps[k - 1].0)));
        assert(x_of(a, n)[ps[k - 1].1] == a(x_var(ps[k - 1].1)));
    }
}

/// The assignment that gives `x` to the QUBO variables and to each product variable the value
/// its pair asks; every other variable is false.
pub open spec fn product_asg(w: Seq<int>, ps: Seq<(int, int)>, n: int, x: Seq<bool>) -> spec_fn(int) -> bool {
    |v: int|
        if 1 <= v <= n {
            x[v - 1]
        } else if n + 1 <= v <= n + w.len() {
            let t = v - n - 1;
            let both = x[ps[t].0] && x[ps[t].1];
            if w[t] >= 0 { both } else { !both }
        } else {
            false
        }
}

/// The product clauses of the first `k` pairs name only variables up to `n + k`.
pub proof fn lemma_product_clauses_within(w: Seq<int>, ps: Seq<(int, int)>, n: int, k: int)
    requires
        n >= 0,
        k >= 0,
        forall|t: int| 0 <= t < k ==> 0 <= (#[trigger] ps[t]).0 < n && 0 <= ps[t].1 < n,
    ensures
        clauses_within(product_clauses(w, ps, n, k), n + k + 1),
    decreases k,
{
    if k > 0 {
        lemma_product_clauses_within(w, ps, n, k - 1);
        let x = x_var(ps[k - 1].0);
        let y = x_var(ps[k - 1].1);
        let z = z_var(n, k - 1);
        let three = product_clauses_of(w[k - 1], x, y, z);
        assert(clauses_within(three, n + k + 1)) by {
            assert forall|i: int, j: int| 0 <= i < three.len() && 0 <= j < three[i].len() implies {
                &&& 1 <= #[trigger] three[i][j] < n + k + 1 || (1 <= -three[i][j] && -three[i][j] < n + k + 1)
            } by {
                if w[k - 1] >= 0 {
                    assert(three[0] == seq![-x, -y, z]);
                    assert(three[1] == seq![x, -z]);
                    assert(three[2] == seq![y, -z]);
                } else {
                    assert(three[0] == seq![-x, -y, -z]);
                    assert(three[1] == seq![x, z]);
                    assert(three[2] == seq![y, z]);
                }
            }
        }
        lemma_clauses_within_concat(product_clauses(w, ps, n, k - 1), three, n + k, n + k + 1);
    } else {
        assert(product_clauses(w, ps, n, 0) =~= Seq::<Seq<int>>::empty());
    }
}

/// An assignment that gives every `z_k` the value its pair asks satisfies the product clauses.
pub proof fn lemma_product_complete(a: spec_fn(int) -> bool, w: Seq<int>, ps: Seq<(int, int)>, n: int, k: int)
    requires
        k >= 0,
        n >= 0,
        forall|t: int| 0 <= t < k ==> 0 <= (#[trigger] ps[t]).0 && 0 <= ps[t].1,
        forall|t: int| 0 <= t < k ==> #[trigger] product_ok(a, w, ps, n, t),
    ensures
        cnf_holds(a, product_clauses(w, ps, n, k)),
    decreases k,
{
    if k > 0 {
        lemma_product_complete(a, w, ps, n, k - 1);
        let x = x_var(ps[k - 1].0);
        let y = x_var(ps[k - 1].1);
        let z = z_var(n, k - 1);
        let three = product_clauses_of(w[k - 1], x, y, z);
        assert(product_ok(a, w, ps, n, k - 1));
        if w[k - 1] >= 0 {
            assert(three == seq![seq![-x, -y, z], seq![x, -z], seq![y, -z]]);
            lemma_clause3(a, -x, -y, z);
            lemma_clause2(a, x, -z);
            lemma_clause2(a, y, -z);
            assert(three[0] == seq![-x, -y, z]);
            assert(three[1] == seq![x, -z]);
            assert(three[2] == seq![y, -z]);
        } else {
            lemma_clause3(a, -x, -y, -z);
            lemma_clause2(a, x, z);
            lemma_clause2(a, y, z);
            assert(three[0] == seq![-x, -y, -z]);
            assert(three[1] == seq![x, z]);
            assert(three[2] == seq![y, z]);
        }
        assert(ps[k - 1].0 >= 0 && ps[k - 1].1 >= 0);
        assert(clause_holds(a, three[0]));
        assert(clause_holds(a, three[1]));
        assert(clause_holds(a, three[2]));
        assert(cnf_holds(a, three));
        lemma_cnf_holds_concat(a, product_clauses(w, ps, n, k - 1), three);
    }
}

/// For every `x`, the product assignment satisfies the product clauses and its `x` part is `x`.
pub proof fn lemma_product_asg(w: Seq<int>, ps: Seq<(int, int)>, n: int, x: Seq<bool>)
    requires
        n >= 0,
        x.len() == n,
        forall|t: int| 0 <= t < w.len() ==> 0 <= (#[trigger] ps[t]).0 < n && 0 <= ps[t].1 < n,
    ensures
        cnf_holds(product_asg(w, ps, n, x), product_clauses(w, ps, n, w.len() as int)),
        x_of(product_asg(w, ps, n, x), n) == x,
{
    let a = product_asg(w, ps, n, x);
    assert forall|t: int| 0 <= t < w.len() implies #[trigger] product_ok(a, w, ps, n, t) by {
        assert(a(x_var(ps[t].0)) == x[ps[t].0]);
        assert(a(x_var(ps[t].1)) == x[ps[t].1]);
    }
    lemma_product_complete(a, w, ps, n, w.len() as int);
    assert(x_of(a, n) =~= x);
}

proof fn lemma_product_clauses_step(w: Seq<int>, ps: Seq<(int, int)>, n: int, k: int)
    requires
        k >= 0,
    ensures
        product_clauses(w, ps, n, k + 1) == product_clauses(w, ps, n, k) + product_clauses_of(
            w[k],
            x_var(ps[k].0),
            x_var(ps[k].1),
            z_var(n, k),
        ),
{
}

fn add3(f: &mut CnfFormula, c1: [isize; 3])
    requires
        forall|i: int| 0 <= i < 3 ==> valid_lit(#[trigger] c1[i] as int),
    ensures
        cnf_clauses(*final(f)) == cnf_clauses(*old(f)).push(as_ints(c1@)),
{
    cnf_add_clause(f, &c1);
}

fn add2(f: &mut CnfFormula, c1: [isize; 2])
    requires
        forall|i: int| 0 <= i < 2 ==> valid_lit(#[trigger] c1[i] as int),
    ensures
        cnf_clauses(*final(f)) == cnf_clauses(*old(f)).push(as_ints(c1@)),
{
    cnf_add_clause(f, &c1);
}

/// Adds, for each pair `(i, j)` (`j <= i < n`, row by row), the clauses that make variable
/// `n + 1 + k` the product `x_i x_j` (or its negation where the coefficient is negative).
pub fn encode_products(f: &mut CnfFormula, mat_n: &Vec<i32>, n: usize)
    requires
        mat_n.len() == tri(n as int),
        n + tri(n as int) <= MAX_VAR,
    ensures
        cnf_clauses(*final(f)) == cnf_clauses(*old(f)) + product_clauses(
            ints(mat_n@),
            tri_pairs(n as int),
            n as int,
            tri(n as int),
        ),
{
    let ghost w = ints(mat_n@);
    let ghost ps = tri_pairs(n as int);
    let ghost start = cnf_clauses(*f);
    proof {
        lemma_tri_pairs_len(n as int);
    }
    for i in 0..n
        invariant
            mat_n.len() == tri(n as int),
            n + tri(n as int) <= MAX_VAR,
            w == ints(mat_n@),
            ps == tri_pairs(n as int),
            cnf_clauses(*f) == start + product_clauses(w, ps, n as int, tri(i as int)),
    {
        proof {
            lemma_tri_pairs_len(i as int);
            lemma_tri_mono(i as int, n as int);
            crate::qubo::lemma_tri_closed(i as int);
        }
        for j in 0..(i + 1)
            invariant
                mat_n.len() == tri(n as int),
                n + tri(n as int) <= MAX_VAR,
                w == ints(mat_n@),
                ps == tri_pairs(n as int),
                i < n,
                tri(i as int) >= 0,
                tri(i as int) == i * (i + 1) / 2,
                cnf_clauses(*f) == start + product_clauses(w, ps, n as int, tri(i as int) + j),
        {
            let ghost k = tri(i as int) + j;
            proof {
                lemma_tri_pairs_index(n as int, i as int, j as int);
                lemma_product_clauses_step(w, ps, n as int, k);
                assert(i * (i + 1) / 2 <= tri(n as int));
            }
            let idx = (i * (i + 1)) / 2 + j;
            let x = (i + 1) as isize;
            let y = (j + 1) as isize;
            let z = (idx + 1 + n) as isize;
            let ghost before = cnf_clauses(*f);
            if mat_n[idx] >= 0 {
                let c1 = [-x, -y, z];
                let c2 = [x, -z];
                let c3 = [y, -z];
                add3(f, c1);
                add2(f, c2);
                add2(f, c3);
                assert(as_ints(c1@) =~= seq![-(x as int), -(y as int), z as int]);
                assert(as_ints(c2@) =~= seq![x as int, -(z as int)]);
                assert(as_ints(c3@) =~= seq![y as int, -(z as int)]);
            } else {
                let c1 = [-x, -y, -z];
                let c2 = [x, z];
                let c3 = [y, z];
                add3(f, c1);
                add2(f, c2);
                add2(f, c3);
                assert(as_ints(c1@) =~= seq![-(x as int), -(y as int), -(z as int)]);
                assert(as_ints(c2@) =~= seq![x as int, z as int]);
                assert(as_ints(c3@) =~= seq![y as int, z as int]);
            }
            assert(cnf_clauses(*f) =~= start + product_clauses(w, ps, n as int, k + 1));
        }
        assert(tri(i + 1) == tri(i as int) + i + 1);
    }
}

/// `|w[k]|` for each entry.
pub fn abs_all(mat_n: &Vec<i32>) -> (mat_m: Vec<i32>)
    requires
        forall|k: int| 0 <= k < mat_n.len() ==> #[trigger] mat_n[k] > i32::MIN,
    ensures
        mat_m.len() == mat_n.len(),
        forall|k: int|
            0 <= k < mat_n.len() ==> #[trigger] mat_m[k] as int == if mat_n[k] < 0 { -(mat_n[k] as int) } else {
                mat_n[k] as int
            },
{
    let mut mat_m = Vec::<i32>::new();
    for i in 0..mat_n.len()
        invariant
            forall|k: int| 0 <= k < mat_n.len() ==> #[trigger] mat_n[k] > i32::MIN,
            mat_m.len() == i,
            forall|k: int|
                0 <= k < i ==> #[trigger] mat_m[k] as int == if mat_n[k] < 0 { -(mat_n[k] as int) } else {
                    mat_n[k] as int
                },
    {
        let v = mat_n[i];
        mat_m.push(if v < 0 { -v } else { v });
    }
    mat_m
}

} // verus!
