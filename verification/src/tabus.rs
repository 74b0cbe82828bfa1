//! A tabu search for a good (not necessarily least) value of the objective.
use vstd::prelude::*;
use crate::qubo::{
    abs_sum, ints, lemma_abs_sum_nonneg, lemma_abs_sum_prefix, lemma_tri_closed,
    lemma_tri_mono, lemma_tri_pairs_index, lemma_tri_pairs_len, lemma_pair_sum_zero, pair_sum,
    tri, tri_pairs, tri_value,
};

verus! {

/// A partial objective is bounded by the magnitudes of the coefficients it has summed.
proof fn lemma_pair_sum_bound(w: Seq<int>, ps: Seq<(int, int)>, x: Seq<bool>, k: int)
    requires
        0 <= k <= w.len(),
    ensures
        -abs_sum(w.take(k)) <= pair_sum(w, ps, x, k) <= abs_sum(w.take(k)),
    decreases k,
{
    if k > 0 {
        lemma_pair_sum_bound(w, ps, x, k - 1);
        lemma_abs_sum_prefix(w, k - 1);
    } else {
        assert(w.take(0) =~= Seq::<int>::empty());
    }
}

/// The first `tri(n)` entries of `v`, as integers: the folded coefficients of an `n x n`
/// matrix, where `v` may hold more.
pub open spec fn tri_prefix(v: Seq<i32>, n: int) -> Seq<int> {
    ints(v).take(tri(n))
}

/// The objective of the assignment `c` (its first `n` entries) over the folded coefficients
/// of an `n x n` matrix, the first `tri(n)` entries of `mat_n`.
pub fn cal(mat_n: &Vec<i32>, n: usize, c: &Vec<bool>) -> (acc: i32)
    requires
        mat_n.len() >= tri(n as int),
        tri(n as int) <= i32::MAX,
        abs_sum(tri_prefix(mat_n@, n as int)) <= i32::MAX,
        c.len() >= n,
    ensures
        acc as int == tri_value(tri_prefix(mat_n@, n as int), c@, n as int),
{
    let ghost w = tri_prefix(mat_n@, n as int);
    let ghost ps = tri_pairs(n as int);
    let mut acc: i32 = 0;
    proof {
        lemma_tri_pairs_len(n as int);
    }
    for i in 0..n
        invariant
            mat_n.len() >= tri(n as int),
            tri(n as int) <= i32::MAX,
            w == tri_prefix(mat_n@, n as int),
            w.len() == tri(n as int),
            ps == tri_pairs(n as int),
            abs_sum(w) <= i32::MAX,
            c.len() >= n,
            acc as int == pair_sum(w, ps, c@, tri(i as int)),
    {
        proof {
            lemma_tri_pairs_len(i as int);
            lemma_tri_mono(i as int, n as int);
            lemma_tri_closed(i as int);
        }
        for j in 0..(i + 1)
            invariant
                mat_n.len() >= tri(n as int),
                tri(n as int) <= i32::MAX,
                w == tri_prefix(mat_n@, n as int),
                w.len() == tri(n as int),
                ps == tri_pairs(n as int),
                abs_sum(w) <= i32::MAX,
                c.len() >= n,
                i < n,
                tri(i as int) <= tri(n as int),
                i * (i + 1) == 2 * tri(i as int),
                tri(i as int) >= 0,
                tri(i as int) == i * (i + 1) / 2,
                acc as int == pair_sum(w, ps, c@, tri(i as int) + j),
        {
            let ghost k = tri(i as int) + j;
            proof {
                lemma_tri_pairs_index(n as int, i as int, j as int);
                lemma_pair_sum_bound(w, ps, c@, k + 1);
                lemma_abs_sum_prefix(w, k);
            }
            let idx = (i * (i + 1)) / 2 + j;
            if c[i] && c[j] {
                acc += mat_n[idx];
            }
        }
        assert(tri(i + 1) == tri(i as int) + i + 1);
    }
    acc
}

/// The tabu table as integers.
pub open spec fn tt_ints(tt: Seq<i8>) -> Seq<int> {
    tt.map_values(|t: i8| t as int)
}

/// `c` with entry `x` negated.
fn copy_flip(c: &Vec<bool>, x: usize) -> (cn: Vec<bool>)
    requires
        x < c.len(),
    ensures
        cn@ == c@.update(x as int, !c[x as int]),
{
    let mut cn = Vec::<bool>::new();
    for i in 0..c.len()
        invariant
            x < c.len(),
            cn@ == c@.update(x as int, !c[x as int]).take(i as int),
    {
        if i == x {
            cn.push(!c[i]);
        } else {
            cn.push(c[i]);
        }
        assert(cn@ =~= c@.update(x as int, !c[x as int]).take(i + 1));
    }
    assert(cn@ =~= c@.update(x as int, !c[x as int]));
    cn
}

/// Steps for which a flipped variable stays tabu.
pub const TABU_TIME: i8 = 5;

/// One scan of the tabu search over the variables `x..n` of `c`: the variable (not tabu)
/// whose flip gives the lowest value below `val`, the first such one, with that value;
/// `(pos, val)` if none does.
pub open spec fn tabu_scan(w: Seq<int>, n: int, tt: Seq<int>, c: Seq<bool>, val: int, pos: int, x: int) -> (int, int)
    decreases n - x,
{
    if x >= n {
        (pos, val)
    } else {
        let nv = tri_value(w, c.update(x, !c[x]), n);
        if tt[x] == 0 && nv < val {
            tabu_scan(w, n, tt, c, nv, x, x + 1)
        } else {
            tabu_scan(w, n, tt, c, val, pos, x + 1)
        }
    }
}

/// The state of the tabu search: the tabu table, the assignment, the current value and the
/// best value met.
pub open spec fn tabu_step(w: Seq<int>, n: int, s: (Seq<int>, Seq<bool>, int, int)) -> (Seq<int>, Seq<bool>, int, int) {
    let (tt, c, val, best) = s;
    let (pos, nval) = tabu_scan(w, n, tt, c, val, 0, 0);
    let tt1 = tt.update(pos, TABU_TIME as int);
    (
        tt1.map_values(|t: int| if t > 0 { t - 1 } else { t }),
        c.update(pos, !c[pos]),
        nval,
        if nval < best { nval } else { best },
    )
}

/// The state after `k` steps from the all-false assignment, with no variable tabu.
pub open spec fn tabu_run(w: Seq<int>, n: int, k: int) -> (Seq<int>, Seq<bool>, int, int)
    decreases k,
{
    if k <= 0 {
        (Seq::new(n as nat, |i: int| 0int), Seq::new(n as nat, |i: int| false), 0, 0)
    } else {
        tabu_step(w, n, tabu_run(w, n, k - 1))
    }
}

/// Runs `ln` steps of a tabu search from the all-false assignment: each step flips the
/// variable (not tabu) whose flip gives the lowest value below the current one (variable
/// `0` if none does) and makes it tabu for a few steps. Returns the lowest value met: the
/// objective of some assignment, at most `0`.
pub fn ts_qubo(mat_n: &Vec<i32>, n: usize, ln: usize) -> (bestval: i32)
    requires
        mat_n.len() >= tri(n as int),
        tri(n as int) <= i32::MAX,
        abs_sum(tri_prefix(mat_n@, n as int)) <= i32::MAX,
        ln >= 1 ==> n >= 1,
    ensures
        bestval as int == tabu_run(tri_prefix(mat_n@, n as int), n as int, ln as int).3,
        exists|x: Seq<bool>| x.len() == n && bestval as int == #[trigger] tri_value(tri_prefix(mat_n@, n as int), x, n as int),
        bestval <= 0,
{
    let ghost w = tri_prefix(mat_n@, n as int);
    // tabu table
    let mut tt = Vec::<i8>::new();
    let mut c = Vec::<bool>::new();
    for k in 0..n
        invariant
            tt.len() == k,
            c.len() == k,
            forall|i: int| 0 <= i < k ==> !#[trigger] c@[i],
            forall|i: int| 0 <= i < k ==> #[trigger] tt@[i] == 0,
    {
        tt.push(0);
        c.push(false);
    }
    assert(tt_ints(tt@) =~= tabu_run(w, n as int, 0).0);
    assert(c@ =~= tabu_run(w, n as int, 0).1);
    let mut val = cal(mat_n, n, &c);
    proof {
        lemma_tri_pairs_len(n as int);
        assert forall|i: int| 0 <= i < tri(n as int) implies 0 <= (#[trigger] tri_pairs(n as int)[i]).0 < c@.len() by {
            crate::qubo::lemma_tri_pairs_bounds(n as int, i);
        }
        lemma_pair_sum_zero(w, tri_pairs(n as int), c@, tri(n as int));
    }
    let mut bestval = val;
    let ghost mut valx = c@;
    let ghost mut bestx = c@;
    for step in 0..ln
        invariant
            (tt_ints(tt@), c@, val as int, bestval as int) == tabu_run(w, n as int, step as int),
            forall|i: int| 0 <= i < n ==> 0 <= #[trigger] tt@[i] <= TABU_TIME,
            mat_n.len() >= tri(n as int),
            tri(n as int) <= i32::MAX,
            w == tri_prefix(mat_n@, n as int),
            abs_sum(w) <= i32::MAX,
            ln >= 1 ==> n >= 1,
            tt.len() == n,
            c.len() == n,
            valx.len() == n,
            bestx.len() == n,
            val as int == tri_value(w, valx, n as int),
            bestval as int == tri_value(w, bestx, n as int),
            bestval <= 0,
    {
        let ghost s0 = (tt_ints(tt@), c@, val as int, bestval as int);
        let mut pos: usize = 0;
        for x in 0..n
            invariant
                tabu_scan(w, n as int, s0.0, s0.1, s0.2, 0, 0) == tabu_scan(w, n as int, tt_ints(tt@), c@, val as int, pos as int, x as int),
                s0.0 == tt_ints(tt@),
                s0.1 == c@,
                mat_n.len() >= tri(n as int),
                tri(n as int) <= i32::MAX,
                w == tri_prefix(mat_n@, n as int),
                abs_sum(w) <= i32::MAX,
                tt.len() == n,
                c.len() == n,
                valx.len() == n,
                val as int == tri_value(w, valx, n as int),
                pos < n || n == 0,
        {
            assert(tt_ints(tt@)[x as int] == tt@[x as int] as int);
            if tt[x] == 0 {
                let cn = copy_flip(&c, x);
                let new_val = cal(mat_n, n, &cn);
                if new_val < val {
                    pos = x;
                    val = new_val;
                    proof {
                        valx = cn@;
                    }
                }
            }
        }
        let ghost tt1 = tt_ints(tt@).update(pos as int, TABU_TIME as int);
        tt.set(pos, TABU_TIME);
        assert(tt_ints(tt@) =~= tt1);
        let flipped = !c[pos];
        c.set(pos, flipped);
        for i in 0..n
            invariant
                tt.len() == n,
                forall|k: int| 0 <= k < n ==> 0 <= #[trigger] tt@[k] <= TABU_TIME,
                tt1.len() == n,
                forall|k: int| 0 <= k < i ==> #[trigger] tt@[k] as int == (if tt1[k] > 0 { tt1[k] - 1 } else { tt1[k] }),
                forall|k: int| i <= k < n ==> #[trigger] tt@[k] as int == tt1[k],
        {
            if tt[i] > 0 {
                tt.set(i, tt[i] - 1);
            }
        }
        assert(tt_ints(tt@) =~= tt1.map_values(|t: int| if t > 0 { t - 1 } else { t }));
        if val < bestval {
            bestval = val;
            proof {
                bestx = valx;
            }
        }
    }
    bestval
}

/// The objective of `c` with variable `y` flipped.
pub open spec fn flip_value(w: Seq<int>, c: Seq<bool>, y: int, n: int) -> int {
    tri_value(w, c.update(y, !c[y]), n)
}

/// One scan over the variables `x..n`: the value it gives is at most `val`; below `val`, it
/// is the value of flipping a variable `p` not tabu, the lowest value of flipping any
/// variable of `x..n` not tabu, and below that of every earlier one; at `val`, no flip of
/// a variable not tabu goes below `val` and the place stays `pos`.
proof fn lemma_tabu_scan(w: Seq<int>, n: int, tt: Seq<int>, c: Seq<bool>, val: int, pos: int, x: int)
    requires
        0 <= x <= n,
        0 <= pos < n,
        tt.len() == n,
        c.len() == n,
    ensures
        ({
            let (p, v) = tabu_scan(w, n, tt, c, val, pos, x);
            &&& v <= val
            &&& 0 <= p < n
            &&& v < val ==> {
                &&& x <= p
                &&& tt[p] == 0
                &&& v == tri_value(w, c.update(p, !c[p]), n)
                &&& forall|y: int| x <= y < n && tt[y] == 0 ==> v <= #[trigger] flip_value(w, c, y, n)
                &&& forall|y: int| x <= y < p && tt[y] == 0 ==> v < #[trigger] flip_value(w, c, y, n)
            }
            &&& v == val ==> {
                &&& p == pos
                &&& forall|y: int| x <= y < n && tt[y] == 0 ==> val <= #[trigger] flip_value(w, c, y, n)
            }
        }),
    decreases n - x,
{
    if x < n {
        let nv = tri_value(w, c.update(x, !c[x]), n);
        if tt[x] == 0 && nv < val {
            lemma_tabu_scan(w, n, tt, c, nv, x, x + 1);
        } else {
            lemma_tabu_scan(w, n, tt, c, val, pos, x + 1);
        }
    }
}

/// The tabu table and the assignment keep `n` entries, the table entries within
/// `0..=TABU_TIME`.
proof fn lemma_tabu_run_len(w: Seq<int>, n: int, k: int)
    requires
        n >= 1,
    ensures
        tabu_run(w, n, k).0.len() == n,
        tabu_run(w, n, k).1.len() == n,
        forall|y: int| 0 <= y < n ==> 0 <= #[trigger] tabu_run(w, n, k).0[y] <= TABU_TIME,
    decreases k,
{
    if k > 0 {
        lemma_tabu_run_len(w, n, k - 1);
        let s = tabu_run(w, n, k - 1);
        lemma_tabu_scan(w, n, s.0, s.1, s.2, 0, 0);
    }
}

/// A step of the tabu search from the state after `k` steps (tabu table `tt`, assignment `c`,
/// current value `val`, best value `best`) flips exactly one variable `p` of `c`. Where
/// flipping some variable that is not tabu goes below `val`, `p` is the first such variable
/// whose flip gives the lowest value, and that value becomes the current one; where none
/// does, `p` is variable `0` and the current value stays. `p` becomes tabu for
/// `TABU_TIME - 1` more steps, every other tabu count goes down by one, and the best value
/// becomes the lower of the best and the new current value. The search starts from the
/// all-false assignment, with no variable tabu and current and best value `0`.
pub proof fn lemma_tabu_step_flips_one(w: Seq<int>, n: int, k: int)
    requires
        n >= 1,
        k >= 0,
    ensures
        tabu_run(w, n, 0) == (Seq::new(n as nat, |i: int| 0int), Seq::new(n as nat, |i: int| false), 0int, 0int),
        ({
            let (tt, c, val, best) = tabu_run(w, n, k);
            let (tt1, c1, val1, best1) = tabu_run(w, n, k + 1);
            exists|p: int| {
                &&& 0 <= p < n
                &&& c1 == c.update(p, !c[p])
                &&& c1[p] != c[p]
                &&& tt1.len() == n
                &&& forall|y: int| 0 <= y < n ==> #[trigger] tt1[y] == if y == p {
                    TABU_TIME - 1
                } else if tt[y] > 0 {
                    tt[y] - 1
                } else {
                    tt[y]
                }
                &&& val1 <= val
                &&& val1 < val ==> {
                    &&& tt[p] == 0
                    &&& val1 == tri_value(w, c1, n)
                    &&& forall|y: int| 0 <= y < n && tt[y] == 0 ==> val1 <= #[trigger] flip_value(w, c, y, n)
                    &&& forall|y: int| 0 <= y < p && tt[y] == 0 ==> val1 < #[trigger] flip_value(w, c, y, n)
                }
                &&& val1 == val ==> {
                    &&& p == 0
                    &&& forall|y: int| 0 <= y < n && tt[y] == 0 ==> val <= #[trigger] flip_value(w, c, y, n)
                }
                &&& best1 == if val1 < best { val1 } else { best }
            }
        }),
{
    let s = tabu_run(w, n, k);
    lemma_tabu_run_len(w, n, k);
    lemma_tabu_scan(w, n, s.0, s.1, s.2, 0, 0);
    let (p, v) = tabu_scan(w, n, s.0, s.1, s.2, 0, 0);
    let s1 = tabu_run(w, n, k + 1);
    assert(s1 == tabu_step(w, n, s));
    assert(s1.1[p] != s.1[p]);
    assert forall|y: int| 0 <= y < n implies #[trigger] s1.0[y] == if y == p {
        TABU_TIME - 1
    } else if s.0[y] > 0 {
        s.0[y] - 1
    } else {
        s.0[y]
    } by {}
    assert(s1.0.len() == n);
}

} // verus!
