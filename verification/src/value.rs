//! In a model of the encoding, the counts of the sorters add up, place by place, to the
//! weighted sum of the products: `sum_k |w_k| z_k = c_top b^(L-1) + sum_{i < L-1} (c_i mod b) b^i`.
use vstd::prelude::*;
use vstd::arithmetic::power::pow;
use crate::cnf::{cnf_clauses, cnf_holds};
use crate::constraints::sorted_count;
use crate::encode::{z_sum, z_var};
use crate::encoding::{digit_rows, enc_ok};
use crate::qubo::{
    base_digits, digit, digits_of, lemma_base_digits, lemma_base_digits_index, lemma_digit_past,
    lemma_low_sum, lemma_pow_pos, low_sum, tri, tri_coefs,
};
use crate::search::{all_sort, lemma_sorted_from_sorts};
use crate::sorter::{carries_of, copies, digit_at, max_len, sorter_shape, vals, Sorter};
use crate::sortlaw::{lemma_ones_concat, lemma_ones_le, ones};
use crate::sums::{carried, lemma_carried_sum, residue_sum, weighted};
use crate::encode::x_of;
use crate::encoding::lemma_model_value;
use crate::qubo::{abs_sum, high_part, lemma_tri_pairs_len, neg_sum, qubo_ok, qubo_value};
use crate::sorter::slen;

verus! {

/// The count of each sorter under `a`.
pub open spec fn counts(a: spec_fn(int) -> bool, sl: Seq<Sorter>) -> Seq<int> {
    Seq::new(sl.len(), |i: int| ones(vals(a, sl[i].input@)) as int)
}

/// `d` if positive, else `0`.
pub open spec fn pos(d: int) -> int {
    if d > 0 { d } else { 0 }
}

/// The digit copies at place `i` whose product holds: `sum_{j < jj} digit_at(j, i) z_j`.
pub open spec fn dsum(a: spec_fn(int) -> bool, nb: Seq<Seq<i32>>, n: int, i: int, jj: int) -> int
    decreases jj,
{
    if jj <= 0 {
        0
    } else {
        dsum(a, nb, n, i, jj - 1) + if a(n + jj) { pos(digit_at(nb, jj - 1, i)) } else { 0 }
    }
}

/// The digit copies that hold, place by place, over the first `jj` coefficients.
pub open spec fn dsums(a: spec_fn(int) -> bool, nb: Seq<Seq<i32>>, n: int, l: int, jj: int) -> Seq<int> {
    Seq::new(l as nat, |i: int| dsum(a, nb, n, i, jj))
}

/// The digits of coefficient `j`, place by place.
pub open spec fn digit_seq(nb: Seq<Seq<i32>>, j: int, l: int) -> Seq<int> {
    Seq::new(l as nat, |i: int| pos(digit_at(nb, j, i)))
}

/// `sum_{j < jj} z_j * (the value of the digits of coefficient j)`
pub open spec fn row_sum_of(a: spec_fn(int) -> bool, nb: Seq<Seq<i32>>, n: int, b: int, l: int, jj: int) -> int
    decreases jj,
{
    if jj <= 0 {
        0
    } else {
        row_sum_of(a, nb, n, b, l, jj - 1) + if a(n + jj) { weighted(digit_seq(nb, jj - 1, l), b, l) } else { 0 }
    }
}

proof fn lemma_vals_concat(a: spec_fn(int) -> bool, x: Seq<usize>, y: Seq<usize>)
    ensures
        vals(a, x + y) == vals(a, x) + vals(a, y),
{
    assert(vals(a, x + y) =~= vals(a, x) + vals(a, y));
}

/// A list whose entries are all `v` counts its length or nothing.
proof fn lemma_ones_const(s: Seq<bool>, v: bool)
    requires
        forall|t: int| 0 <= t < s.len() ==> #[trigger] s[t] == v,
    ensures
        ones(s) == if v { s.len() } else { 0 },
    decreases s.len(),
{
    if s.len() > 0 {
        lemma_ones_const(s.drop_last(), v);
    }
}

/// A list true exactly on its first `m` places counts `m`.
pub proof fn lemma_ones_prefix(s: Seq<bool>, m: int)
    requires
        0 <= m <= s.len(),
        forall|t: int| 0 <= t < s.len() ==> #[trigger] s[t] == (t < m),
    ensures
        ones(s) == m,
    decreases s.len(),
{
    if s.len() > 0 {
        if m == s.len() {
            lemma_ones_prefix(s.drop_last(), m - 1);
        } else {
            lemma_ones_prefix(s.drop_last(), m);
        }
    }
}

/// The copies at place `i` count the digits of the products that hold.
proof fn lemma_ones_copies(a: spec_fn(int) -> bool, nb: Seq<Seq<i32>>, i: int, n: int, jj: int)
    requires
        n >= 0,
        n + jj <= usize::MAX,
    ensures
        ones(vals(a, copies(nb, i, n, jj))) == dsum(a, nb, n, i, jj),
    decreases jj,
{
    if jj > 0 {
        lemma_ones_copies(a, nb, i, n, jj - 1);
        let d = pos(digit_at(nb, jj - 1, i));
        let tail = Seq::new(d as nat, |t: int| (n + jj) as usize);
        assert(copies(nb, i, n, jj) == copies(nb, i, n, jj - 1) + tail);
        lemma_vals_concat(a, copies(nb, i, n, jj - 1), tail);
        lemma_ones_concat(vals(a, copies(nb, i, n, jj - 1)), vals(a, tail));
        lemma_ones_const(vals(a, tail), a(n + jj));
    }
}

/// The carries of a sorted output count its count divided by `b`.
pub proof fn lemma_ones_carries(a: spec_fn(int) -> bool, out: Seq<usize>, b: int, c: int)
    requires
        b >= 2,
        sorted_count(a, out, c),
    ensures
        ones(vals(a, carries_of(out, b))) == c / b,
{
    let cr = vals(a, carries_of(out, b));
    let len = out.len() as int;
    vstd::arithmetic::div_mod::lemma_div_is_ordered(c, len, b);
    vstd::arithmetic::div_mod::lemma_div_pos_is_pos(c, b);
    vstd::arithmetic::div_mod::lemma_fundamental_div_mod(c, b);
    vstd::arithmetic::div_mod::lemma_fundamental_div_mod(len, b);
    assert forall|k: int| 0 <= k < cr.len() implies #[trigger] cr[k] == (k < c / b) by {
        let p = (k + 1) * b - 1;
        assert(0 <= p < len) by (nonlinear_arith)
            requires
                0 <= k < len / b,
                len == b * (len / b) + len % b,
                0 <= len % b,
                b >= 2,
                p == (k + 1) * b - 1,
        ;
        assert(vals(a, out)[p] == (p < c));
        assert(cr[k] == vals(a, out)[p]);
        assert((p < c) == (k < c / b)) by (nonlinear_arith)
            requires
                c == b * (c / b) + c % b,
                0 <= c % b < b,
                k >= 0,
                p == (k + 1) * b - 1,
        ;
    }
    lemma_ones_prefix(cr, c / b);
}

/// The carry law of a list of sorters built as the encoding asks (`mk_sorterlst`), for any
/// digit rows `nb`: under an assignment under which every sorter sorts, sorter `i` counts
/// the carries of sorter `i - 1` (its count divided by `b`) plus its own digit copies that
/// hold; so the digit copies that hold, weighed place by place, are the top count at its
/// place plus the residues of the counts below.
pub proof fn lemma_sorter_list_carried(sl: Seq<Sorter>, nb: Seq<Seq<i32>>, n: int, b: int, a: spec_fn(int) -> bool)
    requires
        b >= 2,
        n >= 0,
        n + nb.len() <= usize::MAX,
        forall|i: int| 0 <= i < sl.len() ==> #[trigger] sorter_shape(sl, nb, n, b, i),
        all_sort(a, sl),
    ensures
        carried(counts(a, sl), dsums(a, nb, n, sl.len() as int, nb.len() as int), b, sl.len() as int),
        sl.len() >= 1 ==> weighted(dsums(a, nb, n, sl.len() as int, nb.len() as int), b, sl.len() as int)
            == counts(a, sl)[sl.len() - 1] * pow(b, (sl.len() - 1) as nat) + residue_sum(
            counts(a, sl),
            b,
            sl.len() - 1,
        ),
{
    let l = sl.len() as int;
    let cs = counts(a, sl);
    let ds = dsums(a, nb, n, l, nb.len() as int);
    assert forall|i: int| 0 <= i < l implies #[trigger] cs[i] == (if i == 0 { 0 } else { cs[i - 1] / b }) + ds[i] by {
        assert(sorter_shape(sl, nb, n, b, i));
        let cps = copies(nb, i, n, nb.len() as int);
        lemma_ones_copies(a, nb, i, n, nb.len() as int);
        if i == 0 {
            assert(sl[i].input@ =~= cps);
        } else {
            let carr = carries_of(sl[i - 1].output@, b);
            lemma_vals_concat(a, carr, cps);
            lemma_ones_concat(vals(a, carr), vals(a, cps));
            assert(sorter_shape(sl, nb, n, b, i - 1));
            assert(crate::sorter::sorter_sorts(a, sl[i - 1]));
            lemma_sorted_from_sorts(a, sl[i - 1]);
            lemma_ones_carries(a, sl[i - 1].output@, b, cs[i - 1]);
        }
    }
    if l >= 1 {
        assert(cs[0] == 0 + ds[0]);
    }
    assert forall|i: int| 1 <= i < l implies #[trigger] cs[i] == cs[i - 1] / b + ds[i] by {
        assert(cs[i] == (if i == 0 { 0 } else { cs[i - 1] / b }) + ds[i]);
    }
    if l >= 1 {
        lemma_carried_sum(cs, ds, b, l);
    }
}

/// In an assignment under which all sorters sort, each sorter counts the carries of the
/// one below plus its own digit copies.
pub proof fn lemma_counts_carried(e: crate::encoding::Encoding, q: Seq<Seq<i32>>, b: int, a: spec_fn(int) -> bool)
    requires
        enc_ok(e, q, b),
        b >= 2,
        all_sort(a, e.sorter_lst@),
    ensures
        carried(
            counts(a, e.sorter_lst@),
            dsums(a, digit_rows(tri_coefs(q), b), q.len() as int, e.sorter_lst.len() as int, tri(q.len() as int)),
            b,
            e.sorter_lst.len() as int,
        ),
{
    let nb = digit_rows(tri_coefs(q), b);
    assert(nb.len() == tri(q.len() as int));
    lemma_sorter_list_carried(e.sorter_lst@, nb, q.len() as int, b, a);
}

/// Adding one coefficient adds its digits' value to the weighted sum, place by place.
proof fn lemma_weighted_step(a: spec_fn(int) -> bool, nb: Seq<Seq<i32>>, n: int, b: int, l: int, jj: int, k: int)
    requires
        0 <= k <= l,
        jj >= 0,
    ensures
        weighted(dsums(a, nb, n, l, jj + 1), b, k) == weighted(dsums(a, nb, n, l, jj), b, k) + if a(n + jj + 1) {
            weighted(digit_seq(nb, jj, l), b, k)
        } else {
            0
        },
    decreases k,
{
    if k > 0 {
        lemma_weighted_step(a, nb, n, b, l, jj, k - 1);
        let y = pow(b, (k - 1) as nat);
        let d0 = dsums(a, nb, n, l, jj)[k - 1];
        let d1 = dsums(a, nb, n, l, jj + 1)[k - 1];
        let g = digit_seq(nb, jj, l)[k - 1];
        assert(d1 == d0 + if a(n + jj + 1) { g } else { 0 });
        if a(n + jj + 1) {
            assert(d1 * y == d0 * y + g * y) by (nonlinear_arith)
                requires
                    d1 == d0 + g,
            ;
        }
    }
}

proof fn lemma_weighted_zero(ds: Seq<int>, b: int, k: int)
    requires
        0 <= k <= ds.len(),
        forall|i: int| 0 <= i < ds.len() ==> #[trigger] ds[i] == 0,
    ensures
        weighted(ds, b, k) == 0,
    decreases k,
{
    if k > 0 {
        lemma_weighted_zero(ds, b, k - 1);
    }
}

/// The weighted sum of the digit copies is that of the coefficients' values.
proof fn lemma_interchange(a: spec_fn(int) -> bool, nb: Seq<Seq<i32>>, n: int, b: int, l: int, jj: int)
    requires
        l >= 0,
        jj >= 0,
    ensures
        weighted(dsums(a, nb, n, l, jj), b, l) == row_sum_of(a, nb, n, b, l, jj),
    decreases jj,
{
    if jj == 0 {
        lemma_weighted_zero(dsums(a, nb, n, l, 0), b, l);
    } else {
        lemma_interchange(a, nb, n, b, l, jj - 1);
        lemma_weighted_step(a, nb, n, b, l, jj - 1, l);
    }
}

/// The longest row is at least as long as any.
pub proof fn lemma_max_len(nb: Seq<Seq<i32>>, j: int)
    requires
        0 <= j < nb.len(),
    ensures
        nb[j].len() <= max_len(nb),
    decreases nb.len(),
{
    if j < nb.len() - 1 {
        lemma_max_len(nb.drop_last(), j);
        assert(nb.drop_last()[j] == nb[j]);
    }
}

/// The digits stored for coefficient `j` are those of `|w_j|`, at every place.
pub proof fn lemma_digit_at(w: Seq<int>, b: int, j: int, i: int)
    requires
        2 <= b <= i32::MAX,
        0 <= j < w.len(),
        i >= 0,
    ensures
        digit_at(digit_rows(w, b), j, i) == digit(if w[j] < 0 { -w[j] } else { w[j] }, b, i),
        digit_at(digit_rows(w, b), j, i) >= 0,
{
    let m = if w[j] < 0 { -w[j] } else { w[j] };
    let nb = digit_rows(w, b);
    lemma_base_digits(m, b);
    lemma_base_digits_index(m, b);
    let bd = base_digits(m, b);
    if m == 0 {
        assert(bd.len() == 0);
        lemma_digit_past(m, b, i);
        if i == 0 {
            assert(nb[j] == digits_of(m, b).map_values(|d: int| d as i32));
            assert(nb[j][0] as int == 0);
        }
    } else {
        assert(nb[j] == bd.map_values(|d: int| d as i32));
        if i < bd.len() {
            assert(0 <= bd[i] < b);
            assert(nb[j][i] as int == bd[i]);
        } else {
            lemma_digit_past(m, b, i);
        }
    }
}

/// The digits of coefficient `j`, weighted, give `|w_j|`.
proof fn lemma_row_value(w: Seq<int>, b: int, j: int)
    requires
        2 <= b <= i32::MAX,
        0 <= j < w.len(),
    ensures
        weighted(digit_seq(digit_rows(w, b), j, max_len(digit_rows(w, b))), b, max_len(digit_rows(w, b)))
            == (if w[j] < 0 { -w[j] } else { w[j] }),
{
    let m = if w[j] < 0 { -w[j] } else { w[j] };
    let nb = digit_rows(w, b);
    let l = max_len(nb);
    let s = digit_seq(nb, j, l);
    lemma_max_len(nb, j);
    assert forall|i: int| 0 <= i < l implies #[trigger] s[i] == digit(m, b, i) by {
        lemma_digit_at(w, b, j, i);
    }
    lemma_weighted_low(s, m, b, l);
    lemma_low_sum(m, b, l);
    lemma_base_digits_index(m, b);
    let bl = base_digits(m, b).len();
    assert(bl <= nb[j].len()) by {
        if m != 0 {
            assert(nb[j] == base_digits(m, b).map_values(|d: int| d as i32));
        }
    }
    vstd::arithmetic::power::lemma_pow_increases(b as nat, bl, l as nat);
    lemma_pow_pos(b, l as nat);
    vstd::arithmetic::div_mod::lemma_small_mod(m as nat, pow(b, l as nat) as nat);
}

proof fn lemma_weighted_low(s: Seq<int>, m: int, b: int, k: int)
    requires
        0 <= k <= s.len(),
        forall|i: int| 0 <= i < k ==> #[trigger] s[i] == digit(m, b, i),
    ensures
        weighted(s, b, k) == low_sum(m, b, k),
    decreases k,
{
    if k > 0 {
        lemma_weighted_low(s, m, b, k - 1);
    }
}

/// Summing the coefficients' values over the products that hold gives `z_sum`.
proof fn lemma_row_sum_z(a: spec_fn(int) -> bool, w: Seq<int>, n: int, b: int, jj: int)
    requires
        2 <= b <= i32::MAX,
        0 <= jj <= w.len(),
    ensures
        row_sum_of(a, digit_rows(w, b), n, b, max_len(digit_rows(w, b)), jj) == z_sum(w, a, n, jj),
    decreases jj,
{
    if jj > 0 {
        lemma_row_sum_z(a, w, n, b, jj - 1);
        lemma_row_value(w, b, jj - 1);
        assert(z_var(n, jj - 1) == n + jj);
    }
}

/// Under any assignment, the weighted digit copies that hold sum to `sum_k |w_k| z_k`.
pub proof fn lemma_dsums_weighted(a: spec_fn(int) -> bool, q: Seq<Seq<i32>>, b: int)
    requires
        2 <= b <= i32::MAX,
        tri_coefs(q).len() == tri(q.len() as int),
    ensures
        weighted(
            dsums(a, digit_rows(tri_coefs(q), b), q.len() as int, max_len(digit_rows(tri_coefs(q), b)), tri(q.len() as int)),
            b,
            max_len(digit_rows(tri_coefs(q), b)),
        ) == z_sum(tri_coefs(q), a, q.len() as int, tri(q.len() as int)),
{
    let w = tri_coefs(q);
    let nb = digit_rows(w, b);
    let l = max_len(nb);
    let n = q.len() as int;
    lemma_max_len_nonneg(nb);
    lemma_interchange(a, nb, n, b, l, tri(n));
    lemma_row_sum_z(a, w, n, b, tri(n));
}

/// In a model of the encoding, the objective of its `x` part plus `p` is the top count in
/// place `L - 1` plus the residues of the counts below.
pub proof fn lemma_model_sum(e: crate::encoding::Encoding, q: Seq<Seq<i32>>, b: int, a: spec_fn(int) -> bool)
    requires
        enc_ok(e, q, b),
        2 <= b <= i32::MAX,
        e.sorter_lst.len() >= 1,
        cnf_holds(a, cnf_clauses(e.f)),
    ensures
        all_sort(a, e.sorter_lst@),
        qubo_value(q, x_of(a, q.len() as int)) + neg_sum(tri_coefs(q)) == counts(a, e.sorter_lst@)[e.sorter_lst.len() - 1]
            * pow(b, (e.sorter_lst.len() - 1) as nat) + residue_sum(
            counts(a, e.sorter_lst@),
            b,
            e.sorter_lst.len() - 1,
        ),
{
    let l = e.sorter_lst.len() as int;
    let w = tri_coefs(q);
    let n = q.len() as int;
    let nb = digit_rows(w, b);
    assert(all_sort(a, e.sorter_lst@));
    lemma_counts_carried(e, q, b, a);
    lemma_carried_sum(counts(a, e.sorter_lst@), dsums(a, nb, n, l, tri(n)), b, l);
    lemma_dsums_weighted(a, q, b);
    lemma_model_value(e, q, b, a);
}

proof fn lemma_copies_len(nb: Seq<Seq<i32>>, i: int, n: int, jj: int)
    ensures
        copies(nb, i, n, jj).len() == dsum(|v: int| true, nb, n, i, jj),
    decreases jj,
{
    if jj > 0 {
        lemma_copies_len(nb, i, n, jj - 1);
    }
}

proof fn lemma_z_sum_all(w: Seq<int>, n: int, k: int)
    requires
        0 <= k <= w.len(),
    ensures
        z_sum(w, |v: int| true, n, k) == abs_sum(w.take(k)),
    decreases k,
{
    if k > 0 {
        lemma_z_sum_all(w, n, k - 1);
        assert(w.take(k).drop_last() =~= w.take(k - 1));
    } else {
        assert(w.take(0) =~= Seq::<int>::empty());
    }
}

/// In a model of the encoding, the top count is the high part of `x^T Q x + p` and each
/// lower count has its digit as residue.
pub proof fn lemma_model_digits(e: crate::encoding::Encoding, q: Seq<Seq<i32>>, b: int, a: spec_fn(int) -> bool)
    requires
        enc_ok(e, q, b),
        2 <= b <= i32::MAX,
        e.sorter_lst.len() >= 1,
        cnf_holds(a, cnf_clauses(e.f)),
    ensures
        all_sort(a, e.sorter_lst@),
        qubo_value(q, x_of(a, q.len() as int)) + neg_sum(tri_coefs(q)) >= 0,
        counts(a, e.sorter_lst@)[e.sorter_lst.len() - 1] == high_part(
            qubo_value(q, x_of(a, q.len() as int)) + neg_sum(tri_coefs(q)),
            b,
            e.sorter_lst.len() - 1,
        ),
        forall|i: int|
            0 <= i < e.sorter_lst.len() - 1 ==> #[trigger] digit(
                qubo_value(q, x_of(a, q.len() as int)) + neg_sum(tri_coefs(q)),
                b,
                i,
            ) == counts(a, e.sorter_lst@)[i] % b,
{
    let l = e.sorter_lst.len() as int;
    let cs = counts(a, e.sorter_lst@);
    let v = qubo_value(q, x_of(a, q.len() as int)) + neg_sum(tri_coefs(q));
    lemma_model_sum(e, q, b, a);
    crate::qubo::lemma_value_lower_bound(q, x_of(a, q.len() as int));
    crate::sums::lemma_residue_sum_bounds(cs, b, l - 1);
    crate::sums::lemma_split_value(v, cs[l - 1], residue_sum(cs, b, l - 1), b, l - 1);
    crate::sums::lemma_residue_digits(cs, b, l - 1, v, cs[l - 1]);
}

/// The encoding has at least one sorter.
pub proof fn lemma_sorters_nonempty(q: Seq<Seq<i32>>, b: int)
    requires
        qubo_ok(q),
        b >= 2,
    ensures
        max_len(digit_rows(tri_coefs(q), b)) >= 1,
{
    let w = tri_coefs(q);
    let nb = digit_rows(w, b);
    lemma_tri_pairs_len(q.len() as int);
    assert(tri(q.len() as int) >= 1);
    lemma_max_len(nb, 0);
    let m = if w[0] < 0 { -w[0] } else { w[0] };
    lemma_base_digits(m, b);
}

/// The top sorter has exactly as many inputs as the high part of the sum of all the
/// magnitudes: the count it reaches when every product holds.
pub proof fn lemma_abs_sum_high(q: Seq<Seq<i32>>, b: int)
    requires
        qubo_ok(q),
        2 <= b <= i32::MAX,
    ensures
        high_part(abs_sum(tri_coefs(q)), b, max_len(digit_rows(tri_coefs(q), b)) - 1) == slen(
            digit_rows(tri_coefs(q), b),
            b,
            q.len() as int,
            max_len(digit_rows(tri_coefs(q), b)) - 1,
        ),
{
    let w = tri_coefs(q);
    let nb = digit_rows(w, b);
    let n = q.len() as int;
    let l = max_len(nb);
    let at = |v: int| true;
    lemma_sorters_nonempty(q, b);
    lemma_tri_pairs_len(n);
    let cs = Seq::new(l as nat, |i: int| slen(nb, b, n, i));
    let ds = dsums(at, nb, n, l, tri(n));
    assert(nb.len() == tri(n));
    assert forall|i: int| 0 <= i < l implies #[trigger] cs[i] == (if i == 0 { 0 } else { cs[i - 1] / b }) + ds[i] by {
        lemma_copies_len(nb, i, n, tri(n));
        if i == 0 {
            assert(slen(nb, b, n, -1) == 0);
        }
    }
    assert(cs[0] == 0 + ds[0]);
    assert forall|i: int| 1 <= i < l implies #[trigger] cs[i] == cs[i - 1] / b + ds[i] by {
        assert(cs[i] == (if i == 0 { 0 } else { cs[i - 1] / b }) + ds[i]);
    }
    assert(carried(cs, ds, b, l));
    lemma_carried_sum(cs, ds, b, l);
    lemma_dsums_weighted(at, q, b);
    lemma_z_sum_all(w, n, tri(n));
    assert(w.take(tri(n)) =~= w);
    crate::sums::lemma_residue_sum_bounds(cs, b, l - 1);
    crate::sums::lemma_split_value(abs_sum(w), cs[l - 1], residue_sum(cs, b, l - 1), b, l - 1);
}

proof fn lemma_max_len_nonneg(nb: Seq<Seq<i32>>)
    ensures
        max_len(nb) >= 0,
    decreases nb.len(),
{
    if nb.len() > 0 {
        lemma_max_len_nonneg(nb.drop_last());
    }
}

} // verus!
