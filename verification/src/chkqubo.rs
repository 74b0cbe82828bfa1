//! Checking-minimality mode: is a given value the least value of `x^T Q x`?
use vstd::prelude::*;
use crate::encoding::{build_encoding, digit_rows, lemma_step_room_nonneg};
use crate::qubo::{
    digit, digits_of, ints, is_min, lemma_base_digits, lemma_base_digits_index, lemma_digit_past,
    lemma_tri_pairs_len, lemma_value_lower_bound, neg_sum, qubo_value, to_base, tri_coefs,
};
use crate::search::lemma_rooms_total;
use crate::sorter::{max_len, sorter_shape, Sorter};
use crate::value::lemma_sorters_nonempty;
use crate::findasgnqubo::{equal_exists, within};

verus! {

/// The digits of `m` are `digit(m, b, i)` below their length and `0` from there on.
pub proof fn lemma_digits_of_index(m: int, b: int)
    requires
        m >= 0,
        b >= 2,
    ensures
        digits_of(m, b).len() >= 1,
        forall|i: int| 0 <= i < digits_of(m, b).len() ==> #[trigger] digits_of(m, b)[i] == digit(m, b, i),
        forall|i: int| 0 <= i < digits_of(m, b).len() ==> 0 <= #[trigger] digits_of(m, b)[i] < b,
        forall|i: int| i >= digits_of(m, b).len() ==> #[trigger] digit(m, b, i) == 0,
{
    lemma_base_digits(m, b);
    lemma_base_digits_index(m, b);
    assert forall|i: int| i >= digits_of(m, b).len() implies #[trigger] digit(m, b, i) == 0 by {
        lemma_digit_past(m, b, i);
    }
    if m == 0 {
        lemma_digit_past(m, b, 0);
    }
}

/// Entry `k` speaks of sorter `len - 2 - k`: `None` where it has no output, else the digit of
/// `m` in its place.
pub(crate) fn digit_pattern(m: i32, base: i32, sl: &Vec<Sorter>) -> (zeropos: Vec<Option<usize>>)
    requires
        m >= 0,
        base >= 2,
        sl.len() >= 1,
    ensures
        zeropos.len() == sl.len() - 1,
        forall|k: int|
            0 <= k < zeropos.len() ==> #[trigger] zeropos@[k] == if sl@[sl.len() - 2 - k].output.len() == 0 {
                None::<usize>
            } else {
                Some(digit(m as int, base as int, sl.len() - 2 - k) as usize)
            },
        forall|k: int| 0 <= k < zeropos.len() ==> (#[trigger] zeropos@[k] matches Some(mk) ==> mk < base),
{
    let ghost b = base as int;
    let d = to_base(m, base);
    proof {
        lemma_digits_of_index(m as int, b);
    }
    let l = sl.len();
    let mut zeropos = Vec::<Option<usize>>::new();
    for k in 0..(l - 1)
        invariant
            l == sl.len(),
            l >= 1,
            b == base as int,
            base >= 2,
            m >= 0,
            ints(d@) == digits_of(m as int, b),
            forall|i: int| 0 <= i < d.len() ==> #[trigger] digits_of(m as int, b)[i] == digit(m as int, b, i),
            forall|i: int| 0 <= i < d.len() ==> 0 <= #[trigger] digits_of(m as int, b)[i] < b,
            forall|i: int| i >= d.len() ==> #[trigger] digit(m as int, b, i) == 0,
            zeropos.len() == k,
            forall|k2: int|
                0 <= k2 < k ==> #[trigger] zeropos@[k2] == if sl@[l - 2 - k2].output.len() == 0 {
                    None::<usize>
                } else {
                    Some(digit(m as int, b, l - 2 - k2) as usize)
                },
            forall|k2: int| 0 <= k2 < k ==> (#[trigger] zeropos@[k2] matches Some(mk) ==> mk < base),
    {
        let pos = l - 2 - k;
        if sl[pos].output.len() == 0 {
            zeropos.push(None);
        } else {
            let dg: i32 = if pos < d.len() {
                assert(ints(d@)[pos as int] == d@[pos as int] as int);
                d[pos]
            } else {
                0
            };
            assert(dg as int == digit(m as int, b, pos as int));
            zeropos.push(Some(dg as usize));
        }
    }
    zeropos
}

/// What checking a value asks of its input: what the search for an assignment within `val`
/// asks (`find_ok`), as the check runs that search.
pub open spec fn chk_ok(q: Seq<Seq<i32>>, base: int, val: int) -> bool {
    crate::findasgnqubo::find_ok(q, base, val)
}

/// Checks whether `val` is the least value of `x^T Q x`: `false` at once where a tabu
/// search meets an assignment below `val`; then whether some assignment reaches `val`
/// (`equal_exists`); then whether one is below it, comparing `x^T Q x + p` with `val + p`
/// digit by digit from the top down (`within`, without its last step).
pub fn chkqubo(input: Vec<Vec<i32>>, val: i32, base: i32) -> (r: Result<bool, String>)
    requires
        chk_ok(input.deep_view(), base as int, val as int),
    ensures
        r == Ok::<bool, String>(is_min(input.deep_view(), val as int)),
{
    let ghost q = input.deep_view();
    let ghost b = base as int;
    let ghost w = tri_coefs(q);
    let ghost nb = digit_rows(w, b);
    let ghost n = q.len() as int;
    proof {
        lemma_sorters_nonempty(q, b);
        crate::sorter::lemma_budget_mono(nb, b, n, 0, max_len(nb));
        lemma_step_room_nonneg(nb, b, n, max_len(nb) - 1);
    }
    let e = build_encoding(&input, base);
    let p = e.p;
    proof {
        crate::qubo::lemma_neg_sum_bounds(w);
    }
    if val + p < 0 {
        proof {
            if is_min(q, val as int) {
                let x = choose|x: Seq<bool>| x.len() == q.len() && #[trigger] qubo_value(q, x) == val as int;
                lemma_value_lower_bound(q, x);
            }
        }
        return Ok(false);
    }
    // a quick witness: an assignment below `val` that a tabu search meets
    let n_vars = e.n;
    proof {
        assert(crate::tabus::tri_prefix(e.mat_n@, n as int) =~= w);
        crate::qubo::lemma_tri_pairs_len(n);
    }
    let t = crate::tabus::ts_qubo(&e.mat_n, n_vars, crate::solqubo::TABU_STEPS);
    if t < val {
        proof {
            let x = choose|x: Seq<bool>| x.len() == n && t as int == #[trigger] crate::qubo::tri_value(w, x, n);
            crate::qubo::lemma_tri_value(q, x);
        }
        return Ok(false);
    }
    let m = val + p;
    let l = e.sorter_lst.len();
    proof {
        lemma_rooms_total(e, q, b, l - 1);
        assert(sorter_shape(e.sorter_lst@, nb, n, b, l - 1));
    }
    if !equal_exists(&e, Ghost(q), m, base) {
        proof {
            if is_min(q, val as int) {
                let x = choose|x: Seq<bool>| x.len() == q.len() && #[trigger] qubo_value(q, x) == val as int;
                assert(qubo_value(q, x) + neg_sum(w) == m);
            }
        }
        return Ok(false);
    }
    match within(&e, Ghost(q), m, base, false) {
        None => {
            proof {
                let x = choose|x: Seq<bool>| x.len() == q.len() && #[trigger] qubo_value(q, x) + neg_sum(tri_coefs(q)) == m;
                assert(qubo_value(q, x) == val);
                assert forall|y: Seq<bool>| y.len() == q.len() implies #[trigger] qubo_value(q, y) >= val by {
                    assert(qubo_value(q, y) + neg_sum(w) >= m);
                }
            }
            Ok(true)
        },
        Some((x, _)) => {
            proof {
                assert(qubo_value(q, x@) < val);
            }
            Ok(false)
        },
    }
}

} // verus!
