//! How the counts of a chain of sorters, each passing `count / b` carries up to the next,
//! add up to a weighted sum in base `b`.
use vstd::prelude::*;
use vstd::arithmetic::power::pow;
use crate::qubo::{digit, high_part, lemma_low_high, lemma_pow_pos, low_sum};

verus! {

/// `sum_{i < k} ds[i] b^i`
pub open spec fn weighted(ds: Seq<int>, b: int, k: int) -> int
    decreases k,
{
    if k <= 0 { 0 } else { weighted(ds, b, k - 1) + ds[k - 1] * pow(b, (k - 1) as nat) }
}

/// `sum_{i < k} (cs[i] mod b) b^i`
pub open spec fn residue_sum(cs: Seq<int>, b: int, k: int) -> int
    decreases k,
{
    if k <= 0 { 0 } else { residue_sum(cs, b, k - 1) + (cs[k - 1] % b) * pow(b, (k - 1) as nat) }
}

/// The counts `cs` of `l` chained sorters whose own inputs count `ds`: the first has no
/// carries, each other one gets `cs[i - 1] / b` carries from the one below.
pub open spec fn carried(cs: Seq<int>, ds: Seq<int>, b: int, l: int) -> bool {
    &&& cs.len() >= l
    &&& ds.len() >= l
    &&& l >= 1 ==> cs[0] == ds[0]
    &&& forall|i: int| 1 <= i < l ==> #[trigger] cs[i] == cs[i - 1] / b + ds[i]
}

proof fn lemma_pow_step(b: int, k: nat)
    ensures
        pow(b, k + 1) == b * pow(b, k),
{
    reveal(pow);
}

/// The weighted sum of the inputs is the top count in place `l - 1` plus the residues of
/// the counts below.
pub proof fn lemma_carried_sum(cs: Seq<int>, ds: Seq<int>, b: int, l: int)
    requires
        b >= 2,
        l >= 1,
        carried(cs, ds, b, l),
    ensures
        weighted(ds, b, l) == cs[l - 1] * pow(b, (l - 1) as nat) + residue_sum(cs, b, l - 1),
    decreases l,
{
    if l == 1 {
        reveal(pow);
        assert(pow(b, 0) == 1);
        assert(weighted(ds, b, 0) == 0);
        assert(residue_sum(cs, b, 0) == 0);
    } else {
        lemma_carried_sum(cs, ds, b, l - 1);
        let y = pow(b, (l - 2) as nat);
        lemma_pow_step(b, (l - 2) as nat);
        assert(pow(b, (l - 1) as nat) == b * y);
        let c = cs[l - 2];
        vstd::arithmetic::div_mod::lemma_fundamental_div_mod(c, b);
        assert(c * y == (c % b) * y + (c / b) * (b * y)) by (nonlinear_arith)
            requires
                c == b * (c / b) + c % b,
        ;
        assert(cs[l - 1] == c / b + ds[l - 1]);
        assert(cs[l - 1] * (b * y) == (c / b) * (b * y) + ds[l - 1] * (b * y)) by (nonlinear_arith)
            requires
                cs[l - 1] == c / b + ds[l - 1],
        ;
    }
}

/// The residues stay below `b^k`.
pub proof fn lemma_residue_sum_bounds(cs: Seq<int>, b: int, k: int)
    requires
        b >= 2,
        k >= 0,
    ensures
        0 <= residue_sum(cs, b, k) < pow(b, k as nat),
    decreases k,
{
    if k == 0 {
        reveal(pow);
    } else {
        lemma_residue_sum_bounds(cs, b, k - 1);
        let y = pow(b, (k - 1) as nat);
        lemma_pow_step(b, (k - 1) as nat);
        lemma_pow_pos(b, (k - 1) as nat);
        let r = cs[k - 1] % b;
        vstd::arithmetic::div_mod::lemma_mod_bound(cs[k - 1], b);
        assert(0 <= r * y <= (b - 1) * y) by (nonlinear_arith)
            requires
                0 <= r < b,
                y >= 1,
        ;
        assert((b - 1) * y + y == b * y) by (nonlinear_arith);
    }
}

/// Where each residue is at most the digit of `m` in its place, their sum is at most the
/// low part of `m`.
pub proof fn lemma_residue_sum_le(cs: Seq<int>, b: int, k: int, m: int)
    requires
        b >= 2,
        k >= 0,
        m >= 0,
        forall|i: int| 0 <= i < k ==> #[trigger] (cs[i] % b) <= digit(m, b, i),
    ensures
        residue_sum(cs, b, k) <= low_sum(m, b, k),
    decreases k,
{
    if k > 0 {
        lemma_residue_sum_le(cs, b, k - 1, m);
        let y = pow(b, (k - 1) as nat);
        lemma_pow_pos(b, (k - 1) as nat);
        let r = cs[k - 1] % b;
        let d = digit(m, b, k - 1);
        assert(r <= d);
        assert(r * y <= d * y) by (nonlinear_arith)
            requires
                r <= d,
                y >= 1,
        ;
    }
}

/// A value written as `c b^k + r` with `r < b^k`: its high part is `c`, its digits below
/// `k` are those of `r`.
pub proof fn lemma_split_value(s: int, c: int, r: int, b: int, k: int)
    requires
        b >= 2,
        k >= 0,
        0 <= r < pow(b, k as nat),
        s == c * pow(b, k as nat) + r,
    ensures
        high_part(s, b, k) == c,
{
    let y = pow(b, k as nat);
    lemma_pow_pos(b, k as nat);
    assert(s == c * y + r);
    vstd::arithmetic::div_mod::lemma_fundamental_div_mod_converse(s, y, c, r);
}

/// Two sums of digits below `b` that agree have the same digits: the low part of `m` and a
/// residue sum.
proof fn lemma_sum_unique(m: int, cs: Seq<int>, b: int, k: int)
    requires
        b >= 2,
        k >= 0,
        m >= 0,
        low_sum(m, b, k) == residue_sum(cs, b, k),
    ensures
        forall|i: int| 0 <= i < k ==> #[trigger] digit(m, b, i) == cs[i] % b,
    decreases k,
{
    if k > 0 {
        let y = pow(b, (k - 1) as nat);
        lemma_pow_pos(b, (k - 1) as nat);
        crate::qubo::lemma_low_sum(m, b, k - 1);
        vstd::arithmetic::div_mod::lemma_mod_bound(m, y);
        lemma_residue_sum_bounds(cs, b, k - 1);
        let d = digit(m, b, k - 1);
        let e = cs[k - 1] % b;
        let lo = low_sum(m, b, k - 1);
        let ro = residue_sum(cs, b, k - 1);
        let t = low_sum(m, b, k);
        assert(t == d * y + lo);
        assert(t == e * y + ro);
        vstd::arithmetic::div_mod::lemma_fundamental_div_mod_converse(t, y, d, lo);
        vstd::arithmetic::div_mod::lemma_fundamental_div_mod_converse(t, y, e, ro);
        lemma_sum_unique(m, cs, b, k - 1);
    }
}

/// Below place `k`, the digits of `c b^k + sum_{i < k} (cs[i] mod b) b^i` are the residues.
pub proof fn lemma_residue_digits(cs: Seq<int>, b: int, k: int, m: int, c: int)
    requires
        b >= 2,
        k >= 0,
        m >= 0,
        m == c * pow(b, k as nat) + residue_sum(cs, b, k),
    ensures
        forall|i: int| 0 <= i < k ==> #[trigger] digit(m, b, i) == cs[i] % b,
{
    let y = pow(b, k as nat);
    lemma_pow_pos(b, k as nat);
    lemma_residue_sum_bounds(cs, b, k);
    vstd::arithmetic::div_mod::lemma_fundamental_div_mod_converse(m, y, c, residue_sum(cs, b, k));
    crate::qubo::lemma_low_sum(m, b, k);
    lemma_sum_unique(m, cs, b, k);
}

/// Residues that agree below `k` give the same sum.
pub proof fn lemma_residue_sum_eq(c1: Seq<int>, c2: Seq<int>, b: int, k: int)
    requires
        forall|i: int| 0 <= i < k ==> #[trigger] (c1[i] % b) == c2[i] % b,
    ensures
        residue_sum(c1, b, k) == residue_sum(c2, b, k),
    decreases k,
{
    if k > 0 {
        lemma_residue_sum_eq(c1, c2, b, k - 1);
        assert(c1[k - 1] % b == c2[k - 1] % b);
    }
}

/// Residues that agree from place `j + 1` up to `k` and are larger in place `j` give a
/// larger sum.
pub proof fn lemma_residue_sum_gt(c1: Seq<int>, c2: Seq<int>, b: int, j: int, k: int)
    requires
        b >= 2,
        0 <= j < k,
        c1[j] % b > c2[j] % b,
        forall|i: int| j < i < k ==> #[trigger] (c1[i] % b) == c2[i] % b,
    ensures
        residue_sum(c1, b, k) > residue_sum(c2, b, k),
    decreases k,
{
    if k == j + 1 {
        lemma_residue_sum_bounds(c1, b, j);
        lemma_residue_sum_bounds(c2, b, j);
        let y = pow(b, j as nat);
        lemma_pow_pos(b, j as nat);
        let r1 = c1[j] % b;
        let r2 = c2[j] % b;
        assert(r1 * y >= r2 * y + y) by (nonlinear_arith)
            requires
                r1 >= r2 + 1,
                y >= 1,
        ;
    } else {
        lemma_residue_sum_gt(c1, c2, b, j, k - 1);
        assert(c1[k - 1] % b == c2[k - 1] % b);
    }
}

/// Step `i` of comparing `v` with `m` from the top down, over `l` places of which the top
/// one holds the whole high part: at step `0` the high part of `v` is smaller; at a step
/// `1 <= i < l` the high parts and the digits of places `l - i .. l - 2` agree and the digit
/// of place `l - 1 - i` of `v` is smaller; at step `l` the high parts and all digits agree.
pub open spec fn lex_step(v: int, m: int, b: int, l: int, i: int) -> bool {
    if i == 0 {
        high_part(v, b, l - 1) < high_part(m, b, l - 1)
    } else {
        &&& high_part(v, b, l - 1) == high_part(m, b, l - 1)
        &&& forall|j: int| l - i <= j < l - 1 ==> #[trigger] digit(v, b, j) == digit(m, b, j)
        &&& i < l ==> digit(v, b, l - 1 - i) < digit(m, b, l - 1 - i)
    }
}

/// The digits of `v` below place `k`.
pub open spec fn digits_below(v: int, b: int, k: int) -> Seq<int> {
    Seq::new(k as nat, |i: int| digit(v, b, i))
}

/// A digit lies in `0..b` and is its own residue.
pub proof fn lemma_digit_small(v: int, b: int, j: int)
    requires
        b >= 2,
        j >= 0,
    ensures
        0 <= digit(v, b, j) < b,
        digit(v, b, j) % b == digit(v, b, j),
{
    lemma_pow_pos(b, j as nat);
    vstd::arithmetic::div_mod::lemma_mod_bound(v / pow(b, j as nat), b);
    vstd::arithmetic::div_mod::lemma_small_mod(digit(v, b, j) as nat, b as nat);
}

/// The low part of `v` is the residue sum of its digits.
proof fn lemma_low_residue(v: int, b: int, kk: int, k: int)
    requires
        b >= 2,
        0 <= k <= kk,
    ensures
        low_sum(v, b, k) == residue_sum(digits_below(v, b, kk), b, k),
    decreases k,
{
    if k > 0 {
        lemma_low_residue(v, b, kk, k - 1);
        lemma_digit_small(v, b, k - 1);
    }
}

/// Low parts compare as their digits do from the top down.
proof fn lemma_low_gt(v: int, m: int, b: int, k: int, j: int)
    requires
        b >= 2,
        0 <= j < k,
        digit(v, b, j) > digit(m, b, j),
        forall|t: int| j < t < k ==> #[trigger] digit(v, b, t) == digit(m, b, t),
    ensures
        low_sum(v, b, k) > low_sum(m, b, k),
{
    let dv = digits_below(v, b, k);
    let dm = digits_below(m, b, k);
    lemma_low_residue(v, b, k, k);
    lemma_low_residue(m, b, k, k);
    lemma_digit_small(v, b, j);
    lemma_digit_small(m, b, j);
    assert forall|t: int| j < t < k implies #[trigger] (dv[t] % b) == dm[t] % b by {
        lemma_digit_small(v, b, t);
        lemma_digit_small(m, b, t);
    }
    lemma_residue_sum_gt(dv, dm, b, j, k);
}

/// Where the high parts agree, the numbers compare as their low parts.
proof fn lemma_split_diff(v: int, m: int, b: int, k: int)
    requires
        v >= 0,
        m >= 0,
        b >= 2,
        k >= 0,
        high_part(v, b, k) == high_part(m, b, k),
    ensures
        v - m == low_sum(v, b, k) - low_sum(m, b, k),
{
    lemma_low_high(v, b, k);
    lemma_low_high(m, b, k);
}

/// A step of the comparison that holds puts `v` at most `m`.
pub proof fn lemma_lex_le(v: int, m: int, b: int, l: int, i: int)
    requires
        v >= 0,
        m >= 0,
        b >= 2,
        l >= 1,
        0 <= i <= l,
        lex_step(v, m, b, l, i),
    ensures
        v <= m,
        i < l ==> v < m,
        i == l ==> v == m,
{
    let k = l - 1;
    let y = pow(b, k as nat);
    lemma_pow_pos(b, k as nat);
    lemma_low_high(v, b, k);
    lemma_low_high(m, b, k);
    crate::qubo::lemma_low_sum(v, b, k);
    crate::qubo::lemma_low_sum(m, b, k);
    vstd::arithmetic::div_mod::lemma_mod_bound(v, y);
    vstd::arithmetic::div_mod::lemma_mod_bound(m, y);
    if i == 0 {
        let hv = high_part(v, b, k);
        let hm = high_part(m, b, k);
        assert(y * hv + y <= y * hm) by (nonlinear_arith)
            requires
                hv + 1 <= hm,
                y > 0,
        ;
    } else if i < l {
        let j = l - 1 - i;
        lemma_low_gt(m, v, b, k, j);
        lemma_split_diff(v, m, b, k);
    } else {
        let dv = digits_below(v, b, k);
        let dm = digits_below(m, b, k);
        lemma_low_residue(v, b, k, k);
        lemma_low_residue(m, b, k, k);
        assert forall|t: int| 0 <= t < k implies #[trigger] (dv[t] % b) == dm[t] % b by {
            lemma_digit_small(v, b, t);
            lemma_digit_small(m, b, t);
        }
        lemma_residue_sum_eq(dv, dm, b, k);
        lemma_split_diff(v, m, b, k);
    }
}

/// Scanning down from step `i`, with the high parts and the digits above agreeing, some
/// later step holds.
proof fn lemma_lex_scan(v: int, m: int, b: int, l: int, i: int)
    requires
        0 <= v <= m,
        b >= 2,
        1 <= i <= l,
        high_part(v, b, l - 1) == high_part(m, b, l - 1),
        forall|j: int| l - i <= j < l - 1 ==> #[trigger] digit(v, b, j) == digit(m, b, j),
    ensures
        exists|i2: int| 1 <= i2 <= l && #[trigger] lex_step(v, m, b, l, i2),
    decreases l - i,
{
    if i == l {
        assert(lex_step(v, m, b, l, l));
    } else {
        let p = l - 1 - i;
        if digit(v, b, p) < digit(m, b, p) {
            assert(lex_step(v, m, b, l, i));
        } else if digit(v, b, p) > digit(m, b, p) {
            lemma_low_gt(v, m, b, l - 1, p);
            lemma_split_diff(v, m, b, l - 1);
        } else {
            lemma_lex_scan(v, m, b, l, i + 1);
        }
    }
}

/// Every `v <= m` meets some step of the comparison.
pub proof fn lemma_lex_complete(v: int, m: int, b: int, l: int)
    requires
        0 <= v <= m,
        b >= 2,
        l >= 1,
    ensures
        exists|i: int| 0 <= i <= l && #[trigger] lex_step(v, m, b, l, i),
{
    crate::qubo::lemma_high_part_mono(v, m, b, l - 1);
    if high_part(v, b, l - 1) < high_part(m, b, l - 1) {
        assert(lex_step(v, m, b, l, 0));
    } else {
        lemma_lex_scan(v, m, b, l, 1);
    }
}

} // verus!
