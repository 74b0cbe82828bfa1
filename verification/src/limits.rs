//! Deciding, before a search, whether an input is one that the searches take: the checks
//! that the program makes where the searches' preconditions ask for them.
use vstd::prelude::*;
use crate::chkqubo::chk_ok;
use crate::cnf::MAX_VAR;
use crate::encoding::{digit_rows, enc_limits, room_sum, slen_max, step_room};
use crate::findasgnqubo::find_ok;
use crate::qubo::{
    abs_sum, coef, digits_of, flatten_qubo, high_part, ints, lemma_abs_sum_nonneg,
    lemma_abs_sum_prefix, lemma_neg_sum_bounds, lemma_tri_coefs_index, lemma_tri_mono,
    lemma_tri_pairs_index, lemma_tri_pairs_len, neg_sum, qubo_ok, square, to_base, tri, tri_coefs,
};
use crate::solqubo::solqubo_ok;
use crate::sorter::{budget, copies, digit_at, max_len, next_power_of_two, slen};
use crate::sortlaw::next_pow2;
use crate::sortnet::{as_pairs, mksorter, sort_net};
use crate::value::pos;

verus! {

/// Whether the matrix is one the solvers take (`qubo_ok`): square, not empty, and with the
/// magnitudes of its folded coefficients summing to at most `i32::MAX`.
pub fn qubo_input_ok(input: &Vec<Vec<i32>>) -> (ok: bool)
    ensures
        ok == qubo_ok(input.deep_view()),
{
    let ghost q = input.deep_view();
    let n = input.len();
    if n == 0 {
        return false;
    }
    for i in 0..n
        invariant
            n == input.len(),
            q == input.deep_view(),
            forall|k: int| 0 <= k < i ==> #[trigger] q[k].len() == n,
    {
        assert(q[i as int] == input[i as int]@);
        if input[i].len() != n {
            assert(!square(q));
            return false;
        }
    }
    assert(square(q));
    let ghost w = tri_coefs(q);
    proof {
        lemma_tri_pairs_len(n as int);
    }
    let mut acc: i64 = 0;
    for i in 0..n
        invariant
            n == input.len(),
            q == input.deep_view(),
            w == tri_coefs(q),
            square(q),
            w.len() == tri(n as int),
            0 <= acc <= i32::MAX,
            acc as int == abs_sum(w.take(tri(i as int))),
    {
        proof {
            lemma_tri_pairs_len(i as int);
            lemma_tri_mono(i as int, n as int);
        }
        for j in 0..(i + 1)
            invariant
                n == input.len(),
                q == input.deep_view(),
                w == tri_coefs(q),
                square(q),
                w.len() == tri(n as int),
                i < n,
                tri(i as int) >= 0,
                0 <= acc <= i32::MAX,
                acc as int == abs_sum(w.take(tri(i as int) + j)),
        {
            let ghost idx = tri(i as int) + j;
            proof {
                lemma_tri_pairs_index(n as int, i as int, j as int);
                lemma_tri_pairs_len(n as int);
                lemma_tri_coefs_index(q, idx);
                lemma_abs_sum_prefix(w, idx);
                assert(q[i as int] == input[i as int]@);
                assert(q[j as int] == input[j as int]@);
            }
            let v: i64 = if i == j {
                input[i][j] as i64
            } else {
                input[i][j] as i64 + input[j][i] as i64
            };
            assert(v == w[idx]);
            let m: i64 = if v < 0 { -v } else { v };
            acc = acc + m;
            if acc > i32::MAX as i64 {
                return false;
            }
        }
        assert(tri(i + 1) == tri(i as int) + i + 1);
    }
    assert(w.take(tri(n as int)) =~= w);
    true
}

/// The number of comparators of the sorting network on `p` wires.
fn network_size(p: usize) -> (c: usize)
    requires
        1 <= p <= 2 * MAX_VAR,
    ensures
        c as int == sort_net(0, p - 1).len(),
{
    let mut ve = Vec::<(usize, usize)>::new();
    mksorter(&mut ve, 0, p - 1);
    assert(as_pairs(ve@).len() == ve.len());
    ve.len()
}

/// The sizes of the encoding of a matrix in base `b`: the number of sorters, the fresh
/// variables they take, the length of the top one, and, over the
/// sorters below the top one, the fresh variables their residue constraints may take and
/// the longest length.
pub struct Sizes {
    pub sorters: usize,
    pub budget: u64,
    pub top: u64,
    pub room: u128,
    pub longest: u64,
}

/// Computes the sizes of the encoding of `input` in base `base`; `None` where a sorter is
/// longer than `MAX_VAR` or the sorters take more than `MAX_VAR` fresh variables.
fn encoding_sizes(input: &Vec<Vec<i32>>, base: i32) -> (r: Option<Sizes>)
    requires
        qubo_ok(input.deep_view()),
        base >= 2,
    ensures
        ({
            let q = input.deep_view();
            let nb = digit_rows(tri_coefs(q), base as int);
            let n = q.len() as int;
            let l = max_len(nb);
            match r {
                Some(s) => {
                    &&& s.sorters as int == l
                    &&& s.budget as int == budget(nb, base as int, n, l)
                    &&& s.top as int == slen(nb, base as int, n, l - 1)
                    &&& s.room as int == room_sum(nb, base as int, n, l - 1)
                    &&& s.longest as int == slen_max(nb, base as int, n, l - 1)
                    &&& s.room <= l * MAX_VAR
                    &&& s.longest <= MAX_VAR
                    &&& forall|i: int| 0 <= i < l ==> #[trigger] slen(nb, base as int, n, i) <= MAX_VAR
                    &&& s.budget <= MAX_VAR
                    &&& l >= 1
                },
                None => (exists|i: int| 0 <= i < l && #[trigger] slen(nb, base as int, n, i) > MAX_VAR)
                    || budget(nb, base as int, n, l) > MAX_VAR,
            }
        }),
{
    let ghost q = input.deep_view();
    let ghost b = base as int;
    let ghost w = tri_coefs(q);
    let ghost nb = digit_rows(w, b);
    let n = input.len();
    let (mat_n, _p) = flatten_qubo(input);
    proof {
        crate::value::lemma_sorters_nonempty(q, b);
        lemma_tri_pairs_len(n as int);
    }
    // the digits of each magnitude
    let mut num_b = Vec::<Vec<i32>>::new();
    for i in 0..mat_n.len()
        invariant
            base >= 2,
            b == base as int,
            ints(mat_n@) == w,
            abs_sum(w) <= i32::MAX,
            num_b.deep_view() == digit_rows(w, b).take(i as int),
    {
        assert(ints(mat_n@)[i as int] == mat_n@[i as int] as int);
        proof {
            crate::qubo::lemma_abs_bound(w, i as int);
            lemma_abs_sum_nonneg(w);
        }
        let v = mat_n[i];
        let m = if v < 0 { -v } else { v };
        let d = to_base(m, base);
        let ghost dr = digits_of(if w[i as int] < 0 { -w[i as int] } else { w[i as int] }, b);
        assert(d@ =~= dr.map_values(|x: int| x as i32)) by {
            assert forall|t: int| 0 <= t < d@.len() implies d@[t] == dr.map_values(|x: int| x as i32)[t] by {
                assert(ints(d@)[t] == d@[t] as int);
            }
        }
        let ghost before = num_b.deep_view();
        assert(d.deep_view() =~= d@);
        num_b.push(d);
        assert(num_b.deep_view() =~= before.push(d@));
        assert(num_b.deep_view() =~= digit_rows(w, b).take(i + 1));
    }
    assert(num_b.deep_view() =~= nb);
    // the number of sorters: the most digits of a coefficient
    let mut l: usize = 0;
    for j in 0..num_b.len()
        invariant
            nb == num_b.deep_view(),
            l as int == max_len(nb.take(j as int)),
    {
        assert(nb.take(j + 1).drop_last() =~= nb.take(j as int));
        assert(nb.take(j + 1).last() == nb[j as int]);
        assert(nb[j as int].len() == num_b[j as int].len());
        if l < num_b[j].len() {
            l = num_b[j].len();
        }
    }
    assert(nb.take(num_b.len() as int) =~= nb);
    // sorter by sorter: its length and the fresh variables of its network
    let mut prev: u64 = 0;
    let mut bud: u64 = 0;
    let mut rm: u128 = 0;
    let mut mx: u64 = 0;
    for i in 0..l
        invariant
            nb == num_b.deep_view(),
            q == input.deep_view(),
            nb == digit_rows(tri_coefs(q), b),
            b == base as int,
            base >= 2,
            n == q.len(),
            l as int == max_len(nb),
            l >= 1,
            prev as int == slen(nb, b, n as int, i - 1),
            prev <= MAX_VAR,
            bud as int == budget(nb, b, n as int, i as int),
            bud <= MAX_VAR,
            forall|k: int| 0 <= k < i ==> #[trigger] slen(nb, b, n as int, k) <= MAX_VAR,
            rm as int == room_sum(nb, b, n as int, i - 1),
            rm <= i * MAX_VAR,
            mx as int == slen_max(nb, b, n as int, i - 1),
            mx <= MAX_VAR,
    {
        // the sorter below joins those below the top one
        if i > 0 {
            proof {
                crate::constraints::lemma_steps_room(0, prev as int, b);
                assert(room_sum(nb, b, n as int, i as int) == room_sum(nb, b, n as int, i - 1) + crate::constraints::residue_room(prev as int, b));
            }
            rm = rm + (prev as u128 + base as u128 - 2) / (base as u128);
            if prev > mx {
                mx = prev;
            }
            proof {
                assert(rm <= (i + 1) * MAX_VAR) by (nonlinear_arith)
                    requires
                        rm <= i * MAX_VAR + MAX_VAR,
                ;
            }
        }
        proof {
            if i == 0 {
                assert(room_sum(nb, b, n as int, 0) == 0);
                assert(slen_max(nb, b, n as int, 0) == 0);
                assert(rm <= (i + 1) * MAX_VAR);
            }
        }
        // the digit copies at place `i`
        let mut cps: u64 = 0;
        for j in 0..num_b.len()
            invariant
                nb == num_b.deep_view(),
                q == input.deep_view(),
                nb == digit_rows(tri_coefs(q), b),
                b == base as int,
                base >= 2,
                n == q.len(),
                l as int == max_len(nb),
                i < l,
                cps as int == copies(nb, i as int, n as int, j as int).len(),
                cps <= MAX_VAR + 1,
        {
            assert(nb[j as int].len() == num_b[j as int].len());
            let dg: i32 = if i < num_b[j].len() {
                assert(nb[j as int][i as int] == num_b[j as int]@[i as int]);
                num_b[j][i]
            } else {
                0
            };
            assert(dg as int == digit_at(nb, j as int, i as int));
            if dg > 0 {
                cps = cps + dg as u64;
            }
            if cps > MAX_VAR as u64 {
                proof {
                    lemma_copies_mono(nb, i as int, n as int, j + 1, nb.len() as int);
                    lemma_slen_ge(nb, b, n as int, i as int);
                    assert(slen(nb, b, n as int, i as int) > MAX_VAR);
                }
                return None;
            }
        }
        let cur: u64 = prev / (base as u64) + cps;
        proof {
            assert(slen(nb, b, n as int, i as int) == slen(nb, b, n as int, i - 1) / b + copies(nb, i as int, n as int, nb.len() as int).len());
        }
        if cur > MAX_VAR as u64 {
            assert(slen(nb, b, n as int, i as int) > MAX_VAR);
            return None;
        }
        let p2 = next_power_of_two(cur as usize);
        proof {
            crate::sortlaw::lemma_next_pow2(cur as int);
        }
        let c = network_size(p2);
        if c as u64 > MAX_VAR as u64 || bud + 2 * (c as u64) > MAX_VAR as u64 {
            proof {
                assert(budget(nb, b, n as int, i + 1) == budget(nb, b, n as int, i as int) + 2 * sort_net(0, next_pow2(slen(nb, b, n as int, i as int)) - 1).len());
                crate::sorter::lemma_budget_mono(nb, b, n as int, i + 1, l as int);
            }
            return None;
        }
        bud = bud + 2 * (c as u64);
        assert(rm as int == room_sum(nb, b, n as int, i as int));
        prev = cur;
    }
    assert(rm <= l * MAX_VAR);
    Some(Sizes { sorters: l, budget: bud, top: prev, room: rm, longest: mx })
}

/// Where a sorter is too long or the sorters take too many fresh variables, the limits fail,
/// whatever the room asked for besides.
pub proof fn lemma_no_limits(q: Seq<Seq<i32>>, b: int, extra: int)
    requires
        extra >= 0,
        ({
            let nb = digit_rows(tri_coefs(q), b);
            let l = max_len(nb);
            (exists|i: int| 0 <= i < l && #[trigger] slen(nb, b, q.len() as int, i) > MAX_VAR)
                || budget(nb, b, q.len() as int, l) > MAX_VAR
        }),
    ensures
        !enc_limits(q, b, extra),
{
    crate::qubo::lemma_tri_pairs_len(q.len() as int);
}

/// `m / base^k`.
fn high_part_of(m: i64, base: i32, k: usize) -> (h: i64)
    requires
        m >= 0,
        base >= 2,
    ensures
        h as int == high_part(m as int, base as int, k as int),
{
    let ghost b = base as int;
    let mut h = m;
    let mut i: usize = 0;
    proof {
        reveal(vstd::arithmetic::power::pow);
        assert(vstd::arithmetic::power::pow(b, 0) == 1);
    }
    while i < k
        invariant
            m >= 0,
            b == base as int,
            base >= 2,
            i <= k,
            0 <= h <= m,
            h as int == high_part(m as int, b, i as int),
        decreases k - i,
    {
        proof {
            let y = vstd::arithmetic::power::pow(b, i as nat);
            crate::qubo::lemma_pow_pos(b, i as nat);
            reveal(vstd::arithmetic::power::pow);
            assert(vstd::arithmetic::power::pow(b, (i + 1) as nat) == b * y);
            assert(b * y == y * b) by (nonlinear_arith);
            vstd::arithmetic::div_mod::lemma_div_denominator(m as int, y, b);
            vstd::arithmetic::div_mod::lemma_div_is_ordered_by_denominator(h as int, 1, b);
            vstd::arithmetic::div_mod::lemma_div_pos_is_pos(h as int, b);
        }
        h = h / (base as i64);
        i += 1;
    }
    h
}

/// Whether the least-value search takes `input` in base `base` (`solqubo_ok`).
pub fn solqubo_input_ok(input: &Vec<Vec<i32>>, base: i32) -> (ok: bool)
    ensures
        ok == solqubo_ok(input.deep_view(), base as int),
{
    let ghost q = input.deep_view();
    let ghost b = base as int;
    if base < 2 || !qubo_input_ok(input) {
        return false;
    }
    let n = input.len();
    let ghost nb = digit_rows(tri_coefs(q), b);
    let ghost l = max_len(nb);
    match encoding_sizes(input, base) {
        None => {
            proof {
                crate::value::lemma_sorters_nonempty(q, b);
                crate::encoding::lemma_step_room_nonneg(nb, b, n as int, l - 1);
                lemma_no_limits(q, b, step_room(nb, b, n as int, l));
            }
            false
        },
        Some(s) => {
            let (t, step) = table_and_step(n, &s, Ghost(nb), Ghost(b));
            t <= i32::MAX as u128 && (n as u128) + t + 1 + (s.budget as u128) + step <= MAX_VAR as u128 + 1 && s.top >= 1
        },
    }
}

/// The number of folded coefficients of an `n`-variable matrix, and the fresh variables one
/// step of a search may take (`step_room`).
fn table_and_step(n: usize, s: &Sizes, Ghost(nb): Ghost<Seq<Seq<i32>>>, Ghost(b): Ghost<int>) -> (r: (u128, u128))
    requires
        b >= 2,
        s.sorters as int == max_len(nb),
        max_len(nb) >= 1,
        s.room as int == room_sum(nb, b, n as int, max_len(nb) - 1),
        s.longest as int == slen_max(nb, b, n as int, max_len(nb) - 1),
        s.room <= max_len(nb) * MAX_VAR,
        s.longest <= MAX_VAR,
    ensures
        r.0 as int == tri(n as int),
        r.1 as int == step_room(nb, b, n as int, max_len(nb)),
{
    proof {
        crate::qubo::lemma_tri_closed(n as int);
    }
    assert((n as int) * (n as int + 1) <= u128::MAX) by (nonlinear_arith)
        requires
            0 <= n <= usize::MAX,
            usize::MAX <= u64::MAX,
    ;
    assert(max_len(nb) * MAX_VAR <= u128::MAX - MAX_VAR) by (nonlinear_arith)
        requires
            max_len(nb) == s.sorters as int,
            s.sorters <= usize::MAX,
            usize::MAX <= u64::MAX,
    ;
    let t: u128 = (n as u128) * (n as u128 + 1) / 2;
    (t, s.room + s.longest as u128)
}

/// Whether the check of a value takes `input`, `val` and `base` (`chk_ok`).
pub fn chkqubo_input_ok(input: &Vec<Vec<i32>>, val: i32, base: i32) -> (ok: bool)
    ensures
        ok == chk_ok(input.deep_view(), base as int, val as int),
{
    findasgnqubo_input_ok(input, val, base)
}

/// Whether the search for an assignment takes `input`, `val` and `base` (`find_ok`).
pub fn findasgnqubo_input_ok(input: &Vec<Vec<i32>>, val: i32, base: i32) -> (ok: bool)
    ensures
        ok == find_ok(input.deep_view(), base as int, val as int),
{
    let ghost q = input.deep_view();
    let ghost b = base as int;
    if base < 2 || !qubo_input_ok(input) {
        return false;
    }
    let n = input.len();
    let ghost nb = digit_rows(tri_coefs(q), b);
    let ghost l = max_len(nb);
    match encoding_sizes(input, base) {
        None => {
            proof {
                crate::value::lemma_sorters_nonempty(q, b);
                crate::encoding::lemma_step_room_nonneg(nb, b, n as int, l - 1);
                lemma_no_limits(q, b, step_room(nb, b, n as int, l));
            }
            false
        },
        Some(s) => {
            let (t, step) = table_and_step(n, &s, Ghost(nb), Ghost(b));
            if !(t <= i32::MAX as u128 && (n as u128) + t + 1 + (s.budget as u128) + step <= MAX_VAR as u128 + 1) {
                return false;
            }
            let (_mat_n, p) = flatten_qubo(input);
            proof {
                lemma_neg_sum_bounds(tri_coefs(q));
            }
            let m: i64 = val as i64 + p as i64;
            if m > i32::MAX as i64 {
                return false;
            }
            if m < 0 {
                return true;
            }
            let h = high_part_of(m, base, s.sorters - 1);
            h <= s.top as i64
        },
    }
}

proof fn lemma_copies_mono(nb: Seq<Seq<i32>>, i: int, n: int, j: int, jj: int)
    requires
        0 <= j <= jj,
    ensures
        copies(nb, i, n, j).len() <= copies(nb, i, n, jj).len(),
    decreases jj,
{
    if j < jj {
        lemma_copies_mono(nb, i, n, j, jj - 1);
    }
}

proof fn lemma_slen_ge(nb: Seq<Seq<i32>>, b: int, n: int, i: int)
    requires
        b >= 2,
        i >= 0,
    ensures
        slen(nb, b, n, i) >= copies(nb, i, n, nb.len() as int).len(),
{
    crate::encoding::lemma_slen_nonneg(nb, b, n, i - 1);
    vstd::arithmetic::div_mod::lemma_div_pos_is_pos(slen(nb, b, n, i - 1), b);
}

} // verus!
