//! What the odd-even merge sorting network does to a sequence of truth values:
//! it moves every `true` to the front of the range it sorts and leaves the rest alone.
use vstd::prelude::*;
use crate::sortnet::{merge_layer, merge_net, sort_net};

verus! {

/// One comparator: the lower position gets the disjunction, the higher the conjunction.
pub open spec fn comp_apply(s: Seq<bool>, p: (int, int)) -> Seq<bool> {
    s.update(p.0, s[p.0] || s[p.1]).update(p.1, s[p.0] && s[p.1])
}

/// The comparators of a list, applied one after the other.
pub open spec fn net_apply(s: Seq<bool>, net: Seq<(int, int)>) -> Seq<bool>
    decreases net.len(),
{
    if net.len() == 0 {
        s
    } else {
        comp_apply(net_apply(s, net.drop_last()), net.last())
    }
}

/// Number of `true` entries.
pub open spec fn ones(s: Seq<bool>) -> nat
    decreases s.len(),
{
    if s.len() == 0 {
        0
    } else {
        ones(s.drop_last()) + if s.last() { 1nat } else { 0nat }
    }
}

pub open spec fn is_pow2(m: int) -> bool
    decreases m,
{
    if m <= 0 {
        false
    } else if m == 1 {
        true
    } else {
        m % 2 == 0 && is_pow2(m / 2)
    }
}

/// Position `t` of the strided run `lo, lo + r, lo + 2r, ...`.
pub open spec fn at(lo: int, r: int, t: int) -> int {
    lo + r * t
}

pub open spec fn off_stride(lo: int, r: int, m: int, q: int) -> bool {
    forall|t: int| 0 <= t < m ==> q != #[trigger] at(lo, r, t)
}

pub open spec fn halves(t: int, h2: int, a: int, b: int) -> bool {
    if t < h2 { t < a } else { t - h2 < b }
}

pub open spec fn interleave(t: int, e: int, o: int) -> bool {
    if t % 2 == 0 { t / 2 < e } else { t / 2 < o }
}

pub proof fn lemma_net_apply_concat(s: Seq<bool>, n1: Seq<(int, int)>, n2: Seq<(int, int)>)
    ensures
        net_apply(s, n1 + n2) == net_apply(net_apply(s, n1), n2),
    decreases n2.len(),
{
    if n2.len() == 0 {
        assert(n1 + n2 =~= n1);
    } else {
        assert((n1 + n2).drop_last() =~= n1 + n2.drop_last());
        lemma_net_apply_concat(s, n1, n2.drop_last());
    }
}

/// A comparator whose pair is already in order changes nothing.
proof fn lemma_comp_noop(s: Seq<bool>, p: (int, int))
    requires
        0 <= p.0 < s.len(),
        0 <= p.1 < s.len(),
        s[p.1] ==> s[p.0],
    ensures
        comp_apply(s, p) == s,
{
    assert(comp_apply(s, p) =~= s);
}

proof fn lemma_noop_net(s: Seq<bool>, net: Seq<(int, int)>)
    requires
        forall|k: int|
            0 <= k < net.len() ==> {
                &&& 0 <= (#[trigger] net[k]).0 < s.len()
                &&& 0 <= net[k].1 < s.len()
                &&& s[net[k].1] ==> s[net[k].0]
            },
    ensures
        net_apply(s, net) == s,
    decreases net.len(),
{
    if net.len() > 0 {
        lemma_noop_net(s, net.drop_last());
        assert(net.last() == net[net.len() - 1]);
        lemma_comp_noop(s, net.last());
    }
}

proof fn lemma_at_inj(lo: int, r: int, t1: int, t2: int)
    requires
        r >= 1,
    ensures
        (at(lo, r, t1) == at(lo, r, t2)) == (t1 == t2),
        (at(lo, r, t1) < at(lo, r, t2)) == (t1 < t2),
{
    assert(t1 < t2 ==> r * t1 < r * t2) by (nonlinear_arith)
        requires
            r >= 1,
    ;
    assert(t2 < t1 ==> r * t2 < r * t1) by (nonlinear_arith)
        requires
            r >= 1,
    ;
}

proof fn lemma_at_double(lo: int, r: int, t: int)
    ensures
        at(lo, 2 * r, t) == at(lo, r, 2 * t),
        at(lo + r, 2 * r, t) == at(lo, r, 2 * t + 1),
{
    assert((2 * r) * t == r * (2 * t)) by (nonlinear_arith);
    assert(r + (2 * r) * t == r * (2 * t + 1)) by (nonlinear_arith);
}

/// The stride run `lo, lo + r, ...` of `m` positions lies in `lo..=hi`.
proof fn lemma_at_range(lo: int, hi: int, r: int, m: int, t: int)
    requires
        r >= 1,
        (m - 1) * r <= hi - lo,
        0 <= t < m,
    ensures
        lo <= at(lo, r, t) <= hi,
{
    assert(0 <= r * t <= r * (m - 1)) by (nonlinear_arith)
        requires
            r >= 1,
            0 <= t < m,
    ;
    assert(r * (m - 1) == (m - 1) * r) by (nonlinear_arith);
}

proof fn lemma_pow2_half(m: int)
    requires
        is_pow2(m),
        m >= 2,
    ensures
        m % 2 == 0,
        is_pow2(m / 2),
        m / 2 >= 1,
        m >= 4 ==> (m / 2) % 2 == 0,
    decreases m,
{
    if m >= 4 {
        lemma_pow2_half(m / 2);
    }
}

/// The comparators of the last merge layer, listed.
proof fn lemma_layer_shape(lo: int, hi: int, r: int, m: int, u: int)
    requires
        r >= 1,
        m >= 2,
        m % 2 == 0,
        (m - 1) * r <= hi - lo < m * r,
        0 <= u <= m / 2 - 1,
    ensures
        merge_layer(at(lo, r, 2 * u + 1), hi, r, 2 * r) =~= Seq::new(
            (m / 2 - 1 - u) as nat,
            |k: int| (at(lo, r, 2 * (u + k) + 1), at(lo, r, 2 * (u + k) + 2)),
        ),
    decreases m / 2 - 1 - u,
{
    let i = at(lo, r, 2 * u + 1);
    assert(i + r == at(lo, r, 2 * u + 2)) by (nonlinear_arith)
        requires
            i == lo + r * (2 * u + 1),
    ;
    assert(i + 2 * r == at(lo, r, 2 * (u + 1) + 1)) by (nonlinear_arith)
        requires
            i == lo + r * (2 * u + 1),
    ;
    if u < m / 2 - 1 {
        assert(i < hi - r) by (nonlinear_arith)
            requires
                i == lo + r * (2 * u + 1),
                (m - 1) * r <= hi - lo,
                u < m / 2 - 1,
                m % 2 == 0,
                r >= 1,
        ;
        lemma_layer_shape(lo, hi, r, m, u + 1);
    } else {
        assert(!(i < hi - r)) by (nonlinear_arith)
            requires
                i == lo + r * (2 * u + 1),
                hi - lo < m * r,
                u == m / 2 - 1,
                m % 2 == 0,
                r >= 1,
        ;
    }
}

/// The last merge layer turns two interleaved runs of `e` and `o` leading `true`s
/// (with `o <= e <= o + 2`) into one run of `e + o` leading `true`s.
proof fn lemma_layer(s: Seq<bool>, lo: int, hi: int, r: int, m: int, e: int, o: int)
    requires
        r >= 1,
        lo >= 0,
        m >= 2,
        m % 2 == 0,
        (m - 1) * r <= hi - lo < m * r,
        hi < s.len(),
        0 <= o <= e <= o + 2,
        e <= m / 2,
        forall|t: int| 0 <= t < m ==> s[#[trigger] at(lo, r, t)] == interleave(t, e, o),
    ensures
        net_apply(s, merge_layer(at(lo, r, 1), hi, r, 2 * r)).len() == s.len(),
        forall|t: int|
            0 <= t < m ==> net_apply(s, merge_layer(at(lo, r, 1), hi, r, 2 * r))[#[trigger] at(
                lo,
                r,
                t,
            )] == (t < e + o),
        forall|q: int|
            0 <= q < s.len() && off_stride(lo, r, m, q) ==> net_apply(
                s,
                merge_layer(at(lo, r, 1), hi, r, 2 * r),
            )[q] == s[q],
{
    lemma_layer_shape(lo, hi, r, m, 0);
    let lp = merge_layer(at(lo, r, 1), hi, r, 2 * r);
    assert(lp =~= Seq::new(
        (m / 2 - 1) as nat,
        |k: int| (at(lo, r, 2 * k + 1), at(lo, r, 2 * k + 2)),
    ));
    assert forall|t: int| 0 <= t < m implies 0 <= #[trigger] at(lo, r, t) < s.len() by {
        lemma_at_range(lo, hi, r, m, t);
    }
    if e <= o + 1 {
        assert forall|k: int| 0 <= k < lp.len() implies {
            &&& 0 <= (#[trigger] lp[k]).0 < s.len()
            &&& 0 <= lp[k].1 < s.len()
            &&& s[lp[k].1] ==> s[lp[k].0]
        } by {
            assert(lp[k] == (at(lo, r, 2 * k + 1), at(lo, r, 2 * k + 2)));
            assert(s[at(lo, r, 2 * k + 1)] == interleave(2 * k + 1, e, o));
            assert(s[at(lo, r, 2 * k + 2)] == interleave(2 * k + 2, e, o));
        }
        lemma_noop_net(s, lp);
        assert forall|t: int| 0 <= t < m implies net_apply(s, lp)[#[trigger] at(lo, r, t)] == (t
            < e + o) by {
            assert(s[at(lo, r, t)] == interleave(t, e, o));
        }
    } else {
        let l1 = lp.take(o);
        let l2 = lp.skip(o + 1);
        let p = lp[o];
        assert(lp =~= l1 + seq![p] + l2);
        assert(p == (at(lo, r, 2 * o + 1), at(lo, r, 2 * o + 2)));
        assert forall|k: int| 0 <= k < l1.len() implies {
            &&& 0 <= (#[trigger] l1[k]).0 < s.len()
            &&& 0 <= l1[k].1 < s.len()
            &&& s[l1[k].1] ==> s[l1[k].0]
        } by {
            assert(l1[k] == (at(lo, r, 2 * k + 1), at(lo, r, 2 * k + 2)));
            assert(s[at(lo, r, 2 * k + 1)] == interleave(2 * k + 1, e, o));
        }
        lemma_noop_net(s, l1);
        lemma_net_apply_concat(s, l1, seq![p]);
        assert(seq![p].drop_last() =~= Seq::<(int, int)>::empty());
        let s1 = comp_apply(s, p);
        assert(seq![p].last() == p);
        assert(net_apply(s, seq![p].drop_last()) == s);
        assert(net_apply(s, seq![p]) == s1);
        assert(net_apply(s, l1 + seq![p]) == s1);
        assert(s[p.0] == interleave(2 * o + 1, e, o));
        assert(s[p.1] == interleave(2 * o + 2, e, o));
        assert(s1[p.0] && !s1[p.1]);
        lemma_at_inj(lo, r, 2 * o + 1, 2 * o + 2);
        assert forall|k: int| 0 <= k < l2.len() implies {
            &&& 0 <= (#[trigger] l2[k]).0 < s1.len()
            &&& 0 <= l2[k].1 < s1.len()
            &&& s1[l2[k].1] ==> s1[l2[k].0]
        } by {
            let u = o + 1 + k;
            assert(l2[k] == lp[u]);
            assert(lp[u] == (at(lo, r, 2 * u + 1), at(lo, r, 2 * u + 2)));
            lemma_at_inj(lo, r, 2 * u + 2, 2 * o + 1);
            lemma_at_inj(lo, r, 2 * u + 2, 2 * o + 2);
            assert(s[at(lo, r, 2 * u + 2)] == interleave(2 * u + 2, e, o));
        }
        lemma_noop_net(s1, l2);
        lemma_net_apply_concat(s, l1 + seq![p], l2);
        assert(net_apply(s, lp) == s1);
        assert forall|t: int| 0 <= t < m implies net_apply(s, lp)[#[trigger] at(lo, r, t)] == (t
            < e + o) by {
            lemma_at_inj(lo, r, t, 2 * o + 1);
            lemma_at_inj(lo, r, t, 2 * o + 2);
            assert(s[at(lo, r, t)] == interleave(t, e, o));
        }
        assert forall|q: int| 0 <= q < s.len() && off_stride(lo, r, m, q) implies net_apply(
            s,
            lp,
        )[q] == s[q] by {
            assert(q != at(lo, r, 2 * o + 1));
            assert(q != at(lo, r, 2 * o + 2));
        }
    }
}


proof fn lemma_single(s: Seq<bool>, p: (int, int))
    ensures
        net_apply(s, seq![p]) == comp_apply(s, p),
{
    assert(seq![p].last() == p);
    assert(seq![p].drop_last() =~= Seq::<(int, int)>::empty());
    assert(net_apply(s, seq![p].drop_last()) == s);
}

/// Odd-even merge: two halves with `a` and `b` leading `true`s (on the strided run of `m`
/// positions) become one run with `a + b` leading `true`s; nothing off the run changes.
pub proof fn lemma_merge(s: Seq<bool>, lo: int, hi: int, r: int, m: int, a: int, b: int)
    requires
        r >= 1,
        lo >= 0,
        m >= 2,
        is_pow2(m),
        (m - 1) * r <= hi - lo < m * r,
        hi < s.len(),
        0 <= a <= m / 2,
        0 <= b <= m / 2,
        forall|t: int| 0 <= t < m ==> s[#[trigger] at(lo, r, t)] == halves(t, m / 2, a, b),
    ensures
        net_apply(s, merge_net(lo, hi, r)).len() == s.len(),
        forall|t: int|
            0 <= t < m ==> net_apply(s, merge_net(lo, hi, r))[#[trigger] at(lo, r, t)] == (t < a
                + b),
        forall|q: int|
            0 <= q < s.len() && off_stride(lo, r, m, q) ==> net_apply(s, merge_net(lo, hi, r))[q]
                == s[q],
    decreases m,
{
    lemma_pow2_half(m);
    assert forall|t: int| 0 <= t < m implies 0 <= #[trigger] at(lo, r, t) < s.len() by {
        lemma_at_range(lo, hi, r, m, t);
    }
    let net = merge_net(lo, hi, r);
    if m == 2 {
        assert(!(2 * r < hi - lo));
        assert(net == seq![(lo, lo + r)]);
        assert(at(lo, r, 0) == lo);
        assert(at(lo, r, 1) == lo + r);
        lemma_single(s, (lo, lo + r));
        assert(s[at(lo, r, 0)] == halves(0, 1, a, b));
        assert(s[at(lo, r, 1)] == halves(1, 1, a, b));
        assert forall|t: int| 0 <= t < m implies net_apply(s, net)[#[trigger] at(lo, r, t)] == (t
            < a + b) by {
            if t == 0 {
            } else {
                assert(t == 1);
            }
        }
    } else {
        let h2 = m / 2;
        assert(2 * r < hi - lo) by (nonlinear_arith)
            requires
                m >= 4,
                (m - 1) * r <= hi - lo,
                r >= 1,
        ;
        let n1 = merge_net(lo, hi, 2 * r);
        let n2 = merge_net(lo + r, hi, 2 * r);
        let ly = merge_layer(lo + r, hi, r, 2 * r);
        assert(net == n1 + n2 + ly);
        lemma_net_apply_concat(s, n1 + n2, ly);
        lemma_net_apply_concat(s, n1, n2);
        let e = (a + 1) / 2 + (b + 1) / 2;
        let o = a / 2 + b / 2;
        assert((h2 - 1) * (2 * r) <= hi - lo < h2 * (2 * r)) by (nonlinear_arith)
            requires
                (m - 1) * r <= hi - lo < m * r,
                m == 2 * h2,
                r >= 1,
        ;
        assert((h2 - 1) * (2 * r) <= hi - (lo + r) < h2 * (2 * r)) by (nonlinear_arith)
            requires
                (m - 1) * r <= hi - lo < m * r,
                m == 2 * h2,
                r >= 1,
        ;
        assert forall|t: int| 0 <= t < h2 implies s[#[trigger] at(lo, 2 * r, t)] == halves(
            t,
            h2 / 2,
            (a + 1) / 2,
            (b + 1) / 2,
        ) by {
            lemma_at_double(lo, r, t);
            assert(s[at(lo, r, 2 * t)] == halves(2 * t, h2, a, b));
        }
        lemma_merge(s, lo, hi, 2 * r, h2, (a + 1) / 2, (b + 1) / 2);
        let s1 = net_apply(s, n1);
        assert forall|t: int| 0 <= t < h2 implies s1[#[trigger] at(lo + r, 2 * r, t)] == halves(
            t,
            h2 / 2,
            a / 2,
            b / 2,
        ) by {
            lemma_at_double(lo, r, t);
            assert forall|t2: int| 0 <= t2 < h2 implies at(lo, r, 2 * t + 1) != #[trigger] at(
                lo,
                2 * r,
                t2,
            ) by {
                lemma_at_double(lo, r, t2);
                lemma_at_inj(lo, r, 2 * t2, 2 * t + 1);
            }
            assert(s[at(lo, r, 2 * t + 1)] == halves(2 * t + 1, h2, a, b));
        }
        lemma_merge(s1, lo + r, hi, 2 * r, h2, a / 2, b / 2);
        let s2 = net_apply(s1, n2);
        assert forall|t: int| 0 <= t < m implies s2[#[trigger] at(lo, r, t)] == interleave(
            t,
            e,
            o,
        ) by {
            let u = t / 2;
            lemma_at_double(lo, r, u);
            if t % 2 == 0 {
                assert(at(lo, r, t) == at(lo, 2 * r, u));
                assert forall|t2: int| 0 <= t2 < h2 implies at(lo, r, t) != #[trigger] at(
                    lo + r,
                    2 * r,
                    t2,
                ) by {
                    lemma_at_double(lo, r, t2);
                    lemma_at_inj(lo, r, 2 * t2 + 1, t);
                }
                assert(s1[at(lo, 2 * r, u)] == (u < e));
            } else {
                assert(at(lo, r, t) == at(lo + r, 2 * r, u));
                assert(s2[at(lo + r, 2 * r, u)] == (u < o));
            }
        }
        assert(at(lo, r, 1) == lo + r);
        lemma_layer(s2, lo, hi, r, m, e, o);
        assert forall|q: int| 0 <= q < s.len() && off_stride(lo, r, m, q) implies net_apply(
            s,
            net,
        )[q] == s[q] by {
            assert forall|t2: int| 0 <= t2 < h2 implies q != #[trigger] at(lo, 2 * r, t2) by {
                lemma_at_double(lo, r, t2);
                assert(q != at(lo, r, 2 * t2));
            }
            assert forall|t2: int| 0 <= t2 < h2 implies q != #[trigger] at(lo + r, 2 * r, t2) by {
                lemma_at_double(lo, r, t2);
                assert(q != at(lo, r, 2 * t2 + 1));
            }
        }
    }
}

pub proof fn lemma_ones_concat(a: Seq<bool>, b: Seq<bool>)
    ensures
        ones(a + b) == ones(a) + ones(b),
    decreases b.len(),
{
    if b.len() == 0 {
        assert(a + b =~= a);
    } else {
        assert((a + b).drop_last() =~= a + b.drop_last());
        lemma_ones_concat(a, b.drop_last());
    }
}

pub proof fn lemma_ones_le(s: Seq<bool>)
    ensures
        ones(s) <= s.len(),
    decreases s.len(),
{
    if s.len() > 0 {
        lemma_ones_le(s.drop_last());
    }
}

/// A range whose first `c` entries hold and whose others do not has `c` ones.
pub proof fn lemma_ones_pattern(s: Seq<bool>, l: int, k: int, c: int)
    requires
        0 <= l,
        0 <= k,
        l + k <= s.len(),
        0 <= c,
        forall|i: int| l <= i < l + k ==> s[i] == (i - l < c),
    ensures
        ones(s.subrange(l, l + k)) == if c < k { c } else { k },
    decreases k,
{
    if k > 0 {
        lemma_ones_pattern(s, l, k - 1, c);
        assert(s.subrange(l, l + k).drop_last() =~= s.subrange(l, l + k - 1));
        assert(s.subrange(l, l + k).last() == s[l + k - 1]);
    }
}

/// Batcher's odd-even merge sort network sorts: on `l..=h` (a power-of-two range) the
/// result holds exactly in its first `c` positions, `c` being the number of `true`s the
/// range held, and every position outside the range keeps its value.
pub proof fn lemma_sort_net(s: Seq<bool>, l: int, h: int)
    requires
        0 <= l <= h < s.len(),
        is_pow2(h - l + 1),
    ensures
        net_apply(s, sort_net(l, h)).len() == s.len(),
        forall|i: int|
            l <= i <= h ==> #[trigger] net_apply(s, sort_net(l, h))[i] == (i - l < ones(
                s.subrange(l, h + 1),
            )),
        forall|q: int|
            0 <= q < s.len() && (q < l || h < q) ==> net_apply(s, sort_net(l, h))[q] == s[q],
    decreases h - l,
{
    let net = sort_net(l, h);
    if h - l >= 1 {
        let m = h - l + 1;
        lemma_pow2_half(m);
        let mid = l + (h - l) / 2;
        assert(mid - l + 1 == m / 2);
        let n1 = sort_net(l, mid);
        let n2 = sort_net(mid + 1, h);
        let n3 = merge_net(l, h, 1);
        assert(net == n1 + n2 + n3);
        lemma_net_apply_concat(s, n1 + n2, n3);
        lemma_net_apply_concat(s, n1, n2);
        lemma_sort_net(s, l, mid);
        let s1 = net_apply(s, n1);
        assert(s1.subrange(mid + 1, h + 1) =~= s.subrange(mid + 1, h + 1));
        lemma_sort_net(s1, mid + 1, h);
        let s2 = net_apply(s1, n2);
        let a = ones(s.subrange(l, mid + 1)) as int;
        let b = ones(s.subrange(mid + 1, h + 1)) as int;
        lemma_ones_le(s.subrange(l, mid + 1));
        lemma_ones_le(s.subrange(mid + 1, h + 1));
        assert(s.subrange(l, h + 1) =~= s.subrange(l, mid + 1) + s.subrange(mid + 1, h + 1));
        lemma_ones_concat(s.subrange(l, mid + 1), s.subrange(mid + 1, h + 1));
        assert forall|t: int| 0 <= t < m implies s2[#[trigger] at(l, 1, t)] == halves(
            t,
            m / 2,
            a,
            b,
        ) by {
            assert(at(l, 1, t) == l + t);
            if t < m / 2 {
                assert(s2[l + t] == s1[l + t]);
            } else {
                assert(s2[l + t] == (l + t - (mid + 1) < b));
            }
        }
        lemma_merge(s2, l, h, 1, m, a, b);
        assert forall|i: int| l <= i <= h implies #[trigger] net_apply(s, net)[i] == (i - l < ones(
            s.subrange(l, h + 1),
        )) by {
            assert(at(l, 1, i - l) == i);
        }
        assert forall|q: int| 0 <= q < s.len() && (q < l || h < q) implies net_apply(s, net)[q]
            == s[q] by {
            assert forall|t: int| 0 <= t < m implies q != #[trigger] at(l, 1, t) by {
                assert(at(l, 1, t) == l + t);
            }
        }
    } else {
        assert(s.subrange(l, h + 1) =~= seq![s[l]]);
        assert(seq![s[l]].drop_last() =~= Seq::<bool>::empty());
        assert(seq![s[l]].last() == s[l]);
        assert(ones(seq![s[l]].drop_last()) == 0);
        assert(ones(s.subrange(l, h + 1)) == if s[l] { 1nat } else { 0nat });
    }
}


/// Every comparator of an odd-even merge joins two positions of `lo..=hi`, lower one first.
proof fn lemma_merge_net_pairs(lo: int, hi: int, r: int, m: int)
    requires
        r >= 1,
        lo >= 0,
        m >= 2,
        is_pow2(m),
        (m - 1) * r <= hi - lo < m * r,
    ensures
        forall|k: int|
            0 <= k < merge_net(lo, hi, r).len() ==> lo <= (#[trigger] merge_net(lo, hi, r)[k]).0
                < merge_net(lo, hi, r)[k].1 <= hi,
    decreases m,
{
    lemma_pow2_half(m);
    let net = merge_net(lo, hi, r);
    if m == 2 {
        assert(!(2 * r < hi - lo));
        assert(net == seq![(lo, lo + r)]);
        assert((m - 1) * r == r) by (nonlinear_arith)
            requires
                m == 2,
        ;
        assert(lo <= net[0].0 < net[0].1 <= hi);
    } else {
        let h2 = m / 2;
        assert(2 * r < hi - lo) by (nonlinear_arith)
            requires
                m >= 4,
                (m - 1) * r <= hi - lo,
                r >= 1,
        ;
        let n1 = merge_net(lo, hi, 2 * r);
        let n2 = merge_net(lo + r, hi, 2 * r);
        let ly = merge_layer(lo + r, hi, r, 2 * r);
        assert(net == n1 + n2 + ly);
        assert((h2 - 1) * (2 * r) <= hi - lo < h2 * (2 * r)) by (nonlinear_arith)
            requires
                (m - 1) * r <= hi - lo < m * r,
                m == 2 * h2,
                r >= 1,
        ;
        assert((h2 - 1) * (2 * r) <= hi - (lo + r) < h2 * (2 * r)) by (nonlinear_arith)
            requires
                (m - 1) * r <= hi - lo < m * r,
                m == 2 * h2,
                r >= 1,
        ;
        lemma_merge_net_pairs(lo, hi, 2 * r, h2);
        lemma_merge_net_pairs(lo + r, hi, 2 * r, h2);
        assert(at(lo, r, 1) == lo + r);
        lemma_layer_shape(lo, hi, r, m, 0);
        assert forall|k: int| 0 <= k < ly.len() implies lo <= (#[trigger] ly[k]).0 < ly[k].1
            <= hi by {
            assert(ly[k] == (at(lo, r, 2 * k + 1), at(lo, r, 2 * k + 2)));
            lemma_at_range(lo, hi, r, m, 2 * k + 1);
            lemma_at_range(lo, hi, r, m, 2 * k + 2);
            lemma_at_inj(lo, r, 2 * k + 1, 2 * k + 2);
        }
        assert forall|k: int| 0 <= k < net.len() implies lo <= (#[trigger] net[k]).0 < net[k].1
            <= hi by {
            if k < n1.len() {
                assert(net[k] == n1[k]);
            } else if k < n1.len() + n2.len() {
                assert(net[k] == n2[k - n1.len()]);
            } else {
                assert(net[k] == ly[k - n1.len() - n2.len()]);
            }
        }
    }
}

/// Every comparator of the sorting network of `l..=h` joins two positions of the range,
/// lower one first.
pub proof fn lemma_sort_net_pairs(l: int, h: int)
    requires
        0 <= l <= h,
        is_pow2(h - l + 1),
    ensures
        forall|k: int|
            0 <= k < sort_net(l, h).len() ==> l <= (#[trigger] sort_net(l, h)[k]).0 < sort_net(
                l,
                h,
            )[k].1 <= h,
    decreases h - l,
{
    let net = sort_net(l, h);
    if h - l >= 1 {
        let m = h - l + 1;
        lemma_pow2_half(m);
        let mid = l + (h - l) / 2;
        let n1 = sort_net(l, mid);
        let n2 = sort_net(mid + 1, h);
        let n3 = merge_net(l, h, 1);
        assert(net == n1 + n2 + n3);
        lemma_sort_net_pairs(l, mid);
        lemma_sort_net_pairs(mid + 1, h);
        lemma_merge_net_pairs(l, h, 1, m);
        assert forall|k: int| 0 <= k < net.len() implies l <= (#[trigger] net[k]).0 < net[k].1
            <= h by {
            if k < n1.len() {
                assert(net[k] == n1[k]);
            } else if k < n1.len() + n2.len() {
                assert(net[k] == n2[k - n1.len()]);
            } else {
                assert(net[k] == n3[k - n1.len() - n2.len()]);
            }
        }
    }
}

/// The smallest power of two that is at least `j`, searching upward from `p`.
pub open spec fn pow2_from(p: int, j: int) -> int
    decreases (if p < j { j - p } else { 0 }),
{
    if p <= 0 || p >= j { p } else { pow2_from(2 * p, j) }
}

/// The smallest power of two that is at least `j` (`1` for `j <= 1`).
pub open spec fn next_pow2(j: int) -> int {
    pow2_from(1, j)
}

pub proof fn lemma_pow2_from(p: int, j: int)
    requires
        p >= 1,
        is_pow2(p),
        j >= 1 ==> p < 2 * j,
    ensures
        is_pow2(pow2_from(p, j)),
        pow2_from(p, j) >= j,
        pow2_from(p, j) >= p,
        j >= 1 ==> pow2_from(p, j) < 2 * j,
    decreases (if p < j { j - p } else { 0 }),
{
    if p < j {
        assert(is_pow2(2 * p)) by {
            assert((2 * p) / 2 == p);
        }
        lemma_pow2_from(2 * p, j);
    }
}

pub proof fn lemma_next_pow2(j: int)
    ensures
        is_pow2(next_pow2(j)),
        next_pow2(j) >= j,
        next_pow2(j) >= 1,
        j >= 1 ==> next_pow2(j) < 2 * j,
{
    lemma_pow2_from(1, j);
}

/// One comparator on integers: the lower position gets the larger value, the higher the
/// smaller.
pub open spec fn comp_int(s: Seq<int>, p: (int, int)) -> Seq<int> {
    let x = s[p.0];
    let y = s[p.1];
    s.update(p.0, if x >= y { x } else { y }).update(p.1, if x >= y { y } else { x })
}

/// The comparators of a list, applied one after the other to integers.
pub open spec fn net_int(s: Seq<int>, net: Seq<(int, int)>) -> Seq<int>
    decreases net.len(),
{
    if net.len() == 0 {
        s
    } else {
        comp_int(net_int(s, net.drop_last()), net.last())
    }
}

/// Which entries are at least `t`.
pub open spec fn at_least(s: Seq<int>, t: int) -> Seq<bool> {
    s.map_values(|x: int| x >= t)
}

/// Comparators commute with the threshold at `t`.
proof fn lemma_net_at_least(s: Seq<int>, net: Seq<(int, int)>, t: int)
    requires
        forall|k: int| 0 <= k < net.len() ==> 0 <= (#[trigger] net[k]).0 < net[k].1 < s.len(),
    ensures
        net_int(s, net).len() == s.len(),
        at_least(net_int(s, net), t) == net_apply(at_least(s, t), net),
        net_int(s, net).to_multiset() == s.to_multiset(),
    decreases net.len(),
{
    broadcast use vstd::seq_lib::to_multiset_update;
    if net.len() > 0 {
        let pre = net.drop_last();
        assert forall|k: int| 0 <= k < pre.len() implies 0 <= (#[trigger] pre[k]).0 < pre[k].1 < s.len() by {
            assert(pre[k] == net[k]);
        }
        lemma_net_at_least(s, pre, t);
        let u = net_int(s, pre);
        let p = net.last();
        assert(p == net[net.len() - 1]);
        let x = u[p.0];
        let y = u[p.1];
        assert(at_least(comp_int(u, p), t) =~= comp_apply(at_least(u, t), p));
        let u1 = u.update(p.0, if x >= y { x } else { y });
        assert(u1[p.1] == y);
        if x >= y {
            assert(comp_int(u, p) =~= u);
        } else {
            assert(u1.to_multiset() == u.to_multiset().insert(y).remove(x));
            assert(comp_int(u, p).to_multiset() == u1.to_multiset().insert(x).remove(y));
            let m = u.to_multiset();
            assert(m.count(x) > 0) by {
                broadcast use vstd::seq_lib::to_multiset_contains;
                assert(u.contains(x));
            }
            assert(m.insert(y).remove(x).insert(x).remove(y) =~= m) by {
                broadcast use vstd::multiset::group_multiset_axioms;
            }
        }
    }
}

/// The odd-even merge sorting network sorts any sequence of integers on the range it
/// covers, largest first, keeps the entries outside the range, and keeps the multiset of
/// entries (the 0-1 principle, from the law for truth values).
pub proof fn lemma_sort_net_int(s: Seq<int>, l: int, h: int)
    requires
        0 <= l <= h < s.len(),
        is_pow2(h - l + 1),
    ensures
        net_int(s, sort_net(l, h)).len() == s.len(),
        forall|i: int, j: int|
            l <= i < j <= h ==> #[trigger] net_int(s, sort_net(l, h))[i] >= #[trigger] net_int(s, sort_net(l, h))[j],
        forall|q: int| 0 <= q < s.len() && (q < l || h < q) ==> #[trigger] net_int(s, sort_net(l, h))[q] == s[q],
        net_int(s, sort_net(l, h)).to_multiset() == s.to_multiset(),
{
    let net = sort_net(l, h);
    lemma_sort_net_pairs(l, h);
    assert forall|k: int| 0 <= k < net.len() implies 0 <= (#[trigger] net[k]).0 < net[k].1 < s.len() by {}
    let o = net_int(s, net);
    lemma_net_at_least(s, net, 0);
    assert forall|i: int, j: int| l <= i < j <= h implies #[trigger] o[i] >= #[trigger] o[j] by {
        let t = o[j];
        lemma_net_at_least(s, net, t);
        lemma_sort_net(at_least(s, t), l, h);
        let z = net_apply(at_least(s, t), net);
        assert(z[j] == at_least(o, t)[j]);
        assert(z[i] == at_least(o, t)[i]);
    }
    assert forall|q: int| 0 <= q < s.len() && (q < l || h < q) implies #[trigger] o[q] == s[q] by {
        lemma_net_at_least(s, net, s[q]);
        lemma_net_at_least(s, net, s[q] + 1);
        lemma_sort_net(at_least(s, s[q]), l, h);
        lemma_sort_net(at_least(s, s[q] + 1), l, h);
        assert(at_least(o, s[q])[q] == at_least(s, s[q])[q]);
        assert(at_least(o, s[q] + 1)[q] == at_least(s, s[q] + 1)[q]);
    }
}

} // verus!
