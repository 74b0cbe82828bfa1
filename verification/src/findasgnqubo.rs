//! Finding-assignments mode: an assignment with `x^T Q x <= val`.
use vstd::prelude::*;
use varisat::solver::Solver;
use crate::cnf::{
    cnf_clauses, lemma_clauses_within_concat, model_asg, satisfiable, solver_add_formula,
    solver_clauses, solver_model, solver_solve, MAX_VAR,
};
use crate::chkqubo::{digit_pattern, lemma_digits_of_index};
use crate::constraints::{exact_tail, lemma_exact_tail, lemma_tails_within, mk_0cons, mk_0cons2, mk_0cons_mod_less};
use crate::encoding::{
    build_encoding, digit_rows, enc_limits, enc_ok, lemma_step_room_nonneg, step_room, read_value,
    top_zerop, Encoding,
};
use crate::qubo::{high_part, lemma_high_part_mono, neg_sum, qubo_ok, qubo_value, tri_coefs};
use crate::search::{
    add_residues, all_sort, lemma_model_from_solver, lemma_out_max, lemma_rooms_split, lemma_rooms_total,
    lemma_sorted_from_sorts, load, out_max, residues_hold, rooms,
};
use crate::cnf::{agree_below, clauses_within, cnf_holds, extends, lemma_cnf_holds_concat};
use crate::constraints::{lemma_zero_tail, out_vars, sorted_count, zero_tail};
use crate::encode::x_of;
use crate::encoding::reaches;
use crate::qubo::{digit, ints, to_base};
use crate::sums::{lemma_digit_small, lemma_lex_complete, lemma_lex_le, lex_step};
use crate::sorter::{sorter_sorts, vals};
use crate::sortlaw::ones;
use crate::value::{counts, lemma_model_digits};
use crate::sorter::{max_len, slen, sorter_shape, sorter_vars};

verus! {

/// Solves the loaded clauses, whose first part is the encoding's: `None` where they are
/// unsatisfiable; else the assignment and objective of the model found.
fn solve_and_read(s: &mut Solver<'static>, e: &Encoding, Ghost(q): Ghost<Seq<Seq<i32>>>, Ghost(b): Ghost<int>) -> (r: Result<Option<(i32, Vec<bool>)>, String>)
    requires
        enc_ok(*e, q, b),
        solver_clauses(*old(s)).take(cnf_clauses(e.f).len() as int) == cnf_clauses(e.f),
        solver_clauses(*old(s)).len() >= cnf_clauses(e.f).len(),
        crate::cnf::solver_usable(*old(s)),
    ensures
        r is Ok,
        r matches Ok(None) <==> !satisfiable(solver_clauses(*old(s))),
        r matches Ok(Some((v, x))) ==> x.len() == q.len() && v as int == qubo_value(q, x@),
        r matches Ok(Some((v, x))) ==> exists|a: spec_fn(int) -> bool|
            #[trigger] cnf_holds(a, solver_clauses(*old(s))) && x@ == x_of(a, q.len() as int),
        solver_clauses(*final(s)) == solver_clauses(*old(s)),
{
    let res = match solver_solve(s) {
        Ok(v) => v,
        Err(msg) => {
            return Err(msg);
        },
    };
    if !res {
        return Ok(None);
    }
    let m = match solver_model(s) {
        Some(m) => m,
        None => {
            return Err("the solver gave no model".to_string());
        },
    };
    proof {
        let all = solver_clauses(*s);
        let fl = cnf_clauses(e.f).len() as int;
        assert(all =~= cnf_clauses(e.f) + all.skip(fl));
        lemma_model_from_solver(*e, m@, all.skip(fl));
        assert(enc_ok(*e, q, b));
    }
    let (v, x) = read_value(e, &m);
    proof {
        assert(cnf_holds(model_asg(m@), solver_clauses(*old(s))));
    }
    Ok(Some((v, x)))
}

/// `x` meets step `i` of comparing `x^T Q x + p` with `m` from the top down
/// (`lex_step`, over the places of the encoding).
pub open spec fn lex_q(q: Seq<Seq<i32>>, b: int, m: int, x: Seq<bool>, i: int) -> bool {
    let w = tri_coefs(q);
    lex_step(qubo_value(q, x) + neg_sum(w), m, b, max_len(digit_rows(w, b)), i)
}

/// A sorter without inputs counts nothing.
proof fn lemma_empty_count(a: spec_fn(int) -> bool, s: crate::sorter::Sorter)
    requires
        s.input.len() == 0,
    ensures
        ones(vals(a, s.input@)) == 0,
{
    crate::sortlaw::lemma_ones_le(vals(a, s.input@));
}

/// In a place whose sorter has no outputs, every `x^T Q x + p` has digit `0`.
proof fn lemma_empty_place(e: Encoding, q: Seq<Seq<i32>>, b: int, x: Seq<bool>, j: int)
    requires
        enc_ok(e, q, b),
        2 <= b <= i32::MAX,
        e.sorter_lst.len() >= 1,
        0 <= j < e.sorter_lst.len() - 1,
        e.sorter_lst@[j].output.len() == 0,
        x.len() == q.len(),
    ensures
        digit(qubo_value(q, x) + neg_sum(tri_coefs(q)), b, j) == 0,
        qubo_value(q, x) + neg_sum(tri_coefs(q)) >= 0,
{
    let n = q.len() as int;
    let sl = e.sorter_lst@;
    assert(reaches(cnf_clauses(e.f), n, x));
    let a = choose|a: spec_fn(int) -> bool| x_of(a, n) == x && #[trigger] cnf_holds(a, cnf_clauses(e.f));
    lemma_model_digits(e, q, b, a);
    assert(sorter_shape(sl, digit_rows(tri_coefs(q), b), n, b, j));
    assert(sl[j].input.len() == 0);
    lemma_empty_count(a, sl[j]);
    assert(counts(a, sl)[j] == 0);
    let v = qubo_value(q, x) + neg_sum(tri_coefs(q));
    assert(digit(v, b, j) == counts(a, sl)[j] % b);
}

/// Step `0` asks the top count to stay below the high part of `m`: the clauses are
/// satisfiable exactly where some `x` meets the step.
proof fn lemma_query0(e: Encoding, q: Seq<Seq<i32>>, b: int, m: int, zerop: int, c0: Seq<Seq<int>>)
    requires
        enc_ok(e, q, b),
        2 <= b <= i32::MAX,
        m >= 0,
        e.sorter_lst.len() >= 1,
        zerop == e.sorter_lst@[e.sorter_lst.len() - 1].output.len() - high_part(m, b, e.sorter_lst.len() - 1),
        0 <= zerop < e.sorter_lst@[e.sorter_lst.len() - 1].output.len(),
        out_vars(e.sorter_lst@[e.sorter_lst.len() - 1].output@),
        c0 == zero_tail(e.sorter_lst@[e.sorter_lst.len() - 1].output@, zerop + 1),
    ensures
        forall|a: spec_fn(int) -> bool|
            #[trigger] cnf_holds(a, cnf_clauses(e.f) + c0) ==> lex_q(q, b, m, x_of(a, q.len() as int), 0),
        forall|x: Seq<bool>| x.len() == q.len() && #[trigger] lex_q(q, b, m, x, 0) ==> satisfiable(cnf_clauses(e.f) + c0),
{
    let sl = e.sorter_lst@;
    let l = sl.len() as int;
    let n = q.len() as int;
    let fc = cnf_clauses(e.f);
    let top = sl[l - 1];
    assert(sorter_shape(sl, digit_rows(tri_coefs(q), b), n, b, l - 1));
    assert forall|a: spec_fn(int) -> bool| #[trigger] cnf_holds(a, fc + c0) implies lex_q(q, b, m, x_of(a, n), 0) by {
        lemma_cnf_holds_concat(a, fc, c0);
        lemma_model_digits(e, q, b, a);
        assert(sorter_sorts(a, sl[l - 1]));
        lemma_sorted_from_sorts(a, top);
        lemma_zero_tail(a, top.output@, zerop + 1, counts(a, sl)[l - 1]);
    }
    assert forall|x: Seq<bool>| x.len() == q.len() && #[trigger] lex_q(q, b, m, x, 0) implies satisfiable(fc + c0) by {
        assert(reaches(fc, n, x));
        let a = choose|a: spec_fn(int) -> bool| x_of(a, n) == x && #[trigger] cnf_holds(a, fc);
        lemma_model_digits(e, q, b, a);
        assert(sorter_sorts(a, sl[l - 1]));
        lemma_sorted_from_sorts(a, top);
        lemma_zero_tail(a, top.output@, zerop + 1, counts(a, sl)[l - 1]);
        lemma_cnf_holds_concat(a, fc, c0);
    }
}

/// Step `i >= 1` asks the top count to be the high part of `m`, the residues of the places
/// `L - i .. L - 2` with outputs to be the digits of `m`, and (for `i < L`, where place
/// `L - 1 - i` has outputs) the residue there to be below the digit `dp` of `m`: the clauses
/// are satisfiable exactly where some `x` meets the step.
#[verifier::spinoff_prover]
proof fn lemma_query(
    e: Encoding,
    q: Seq<Seq<i32>>,
    b: int,
    m: int,
    i: int,
    zerop: int,
    zeropos: Seq<Option<usize>>,
    fixed: Seq<Option<usize>>,
    dp: int,
    c1: Seq<Seq<int>>,
    s1: Seq<Seq<int>>,
    s2: Seq<Seq<int>>,
    hc: Seq<Seq<int>>,
    s3: Seq<Seq<int>>,
    last: bool,
    vb: int,
)
    requires
        enc_ok(e, q, b),
        2 <= b <= i32::MAX,
        m >= 0,
        1 <= i <= e.sorter_lst.len(),
        zerop == e.sorter_lst@[e.sorter_lst.len() - 1].output.len() - high_part(m, b, e.sorter_lst.len() - 1),
        0 <= zerop <= e.sorter_lst@[e.sorter_lst.len() - 1].output.len(),
        out_vars(e.sorter_lst@[e.sorter_lst.len() - 1].output@),
        zeropos.len() == e.sorter_lst.len() - 1,
        forall|k: int|
            0 <= k < zeropos.len() ==> #[trigger] zeropos[k] == if e.sorter_lst@[e.sorter_lst.len() - 2 - k].output.len() == 0 {
                None::<usize>
            } else {
                Some(digit(m, b, e.sorter_lst.len() - 2 - k) as usize)
            },
        fixed == zeropos.take(i - 1),
        forall|j: int|
            e.sorter_lst.len() - i <= j < e.sorter_lst.len() - 1 && e.sorter_lst@[j].output.len() == 0 ==> #[trigger] digit(m, b, j) == 0,
        i < e.sorter_lst.len() ==> dp == digit(m, b, e.sorter_lst.len() - 1 - i) && dp > 0,
        last == (i < e.sorter_lst.len() && e.sorter_lst@[e.sorter_lst.len() - 1 - i].output.len() > 0),
        c1 == exact_tail(e.sorter_lst@[e.sorter_lst.len() - 1].output@, zerop),
        s1 == cnf_clauses(e.f) + c1,
        s2.take(s1.len() as int) == s1,
        s2.len() >= s1.len(),
        forall|a: spec_fn(int) -> bool|
            #[trigger] cnf_holds(a, s1) && all_sort(a, e.sorter_lst@) && residues_hold(a, e.sorter_lst@, fixed, b)
                ==> exists|a2: spec_fn(int) -> bool| agree_below(a2, a, e.vargen as int) && #[trigger] cnf_holds(a2, s2),
        forall|a: spec_fn(int) -> bool|
            #[trigger] cnf_holds(a, s2.skip(s1.len() as int)) && all_sort(a, e.sorter_lst@) ==> residues_hold(a, e.sorter_lst@, fixed, b),
        last ==> e.vargen <= vb,
        last ==> clauses_within(s2, vb),
        last ==> hc.len() >= 1,
        last ==> extends(Seq::<Seq<int>>::empty(), hc.drop_last(), vb),
        last ==> forall|a: spec_fn(int) -> bool, c: int|
            cnf_holds(a, #[trigger] hc.drop_last()) && #[trigger] sorted_count(a, e.sorter_lst@[e.sorter_lst.len() - 1 - i].output@, c)
                ==> (cnf_holds(a, hc) == (c % b < dp)),
        s3 == if last { s2 + hc } else { s2 },
    ensures
        forall|a: spec_fn(int) -> bool| #[trigger] cnf_holds(a, s3) ==> lex_q(q, b, m, x_of(a, q.len() as int), i),
        forall|x: Seq<bool>| x.len() == q.len() && #[trigger] lex_q(q, b, m, x, i) ==> satisfiable(s3),
{
    let sl = e.sorter_lst@;
    let l = sl.len() as int;
    let n = q.len() as int;
    let w = tri_coefs(q);
    let nb = digit_rows(w, b);
    let fc = cnf_clauses(e.f);
    let top = sl[l - 1];
    let pos = l - 1 - i;
    assert(sorter_shape(sl, nb, n, b, l - 1));
    assert forall|a: spec_fn(int) -> bool| #[trigger] cnf_holds(a, s3) implies lex_q(q, b, m, x_of(a, n), i) by {
        if last {
            lemma_cnf_holds_concat(a, s2, hc);
        }
        let rest = s2.skip(s1.len() as int);
        assert(s2 =~= s1 + rest);
        lemma_cnf_holds_concat(a, s1, rest);
        lemma_cnf_holds_concat(a, fc, c1);
        lemma_model_digits(e, q, b, a);
        let x = x_of(a, n);
        let v = qubo_value(q, x) + neg_sum(w);
        let cs = counts(a, sl);
        assert(sorter_sorts(a, sl[l - 1]));
        lemma_sorted_from_sorts(a, top);
        lemma_exact_tail(a, top.output@, zerop, cs[l - 1]);
        assert(residues_hold(a, sl, fixed, b));
        assert forall|j: int| l - i <= j < l - 1 implies #[trigger] digit(v, b, j) == digit(m, b, j) by {
            let k = l - 2 - j;
            assert(sorter_shape(sl, nb, n, b, j));
            assert(fixed[k] == zeropos[k]);
            assert(digit(v, b, j) == cs[j] % b);
            lemma_digit_small(m, b, j);
            if sl[j].output.len() == 0 {
                assert(sl[j].input.len() == 0);
                lemma_empty_count(a, sl[j]);
                assert(cs[j] == 0);
            }
        }
        if i < l {
            assert(sorter_shape(sl, nb, n, b, pos));
            assert(digit(v, b, pos) == cs[pos] % b);
            if last {
                crate::sorter::lemma_cnf_holds_prefix(a, hc, hc.len() - 1);
                assert(hc.take(hc.len() - 1) =~= hc.drop_last());
                assert(sorter_sorts(a, sl[pos]));
                lemma_sorted_from_sorts(a, sl[pos]);
                assert(sorted_count(a, sl[pos].output@, cs[pos]));
                assert(cnf_holds(a, hc.drop_last()));
                assert(cnf_holds(a, hc) == (cs[pos] % b < dp));
                assert(cs[pos] % b < dp);
            } else {
                assert(sl[pos].input.len() == 0);
                lemma_empty_count(a, sl[pos]);
                assert(cs[pos] == 0);
                vstd::arithmetic::div_mod::lemma_small_mod(0nat, b as nat);
                assert(cs[pos] % b == 0);
            }
            assert(dp == digit(m, b, pos));
            assert(digit(v, b, pos) == cs[pos] % b);
            assert(digit(v, b, pos) < digit(m, b, pos));
        }
        assert(max_len(nb) == l);
        assert(cs[l - 1] == top.output.len() - zerop);
        assert(high_part(v, b, l - 1) == high_part(m, b, l - 1));
        assert(lex_step(v, m, b, l, i));
        assert(lex_q(q, b, m, x, i));
    }
    assert forall|x: Seq<bool>| x.len() == q.len() && #[trigger] lex_q(q, b, m, x, i) implies satisfiable(s3) by {
        assert(reaches(fc, n, x));
        let a = choose|a: spec_fn(int) -> bool| x_of(a, n) == x && #[trigger] cnf_holds(a, fc);
        lemma_model_digits(e, q, b, a);
        let v = qubo_value(q, x) + neg_sum(w);
        let cs = counts(a, sl);
        assert(sorter_sorts(a, sl[l - 1]));
        lemma_sorted_from_sorts(a, top);
        lemma_exact_tail(a, top.output@, zerop, cs[l - 1]);
        lemma_cnf_holds_concat(a, fc, c1);
        assert forall|k: int| 0 <= k < fixed.len() implies (#[trigger] fixed[k] matches Some(mk2) ==> ones(
            vals(a, sl[sl.len() - 2 - k].input@),
        ) as int % b == mk2) by {
            assert(fixed[k] == zeropos[k]);
            let j = l - 2 - k;
            assert(sorter_shape(sl, nb, n, b, j));
            if sl[j].output.len() > 0 {
                assert(digit(v, b, j) == digit(m, b, j));
                assert(digit(v, b, j) == cs[j] % b);
                lemma_digit_small(m, b, j);
            }
        }
        assert(residues_hold(a, sl, fixed, b));
        let a2 = choose|a2: spec_fn(int) -> bool| agree_below(a2, a, e.vargen as int) && #[trigger] cnf_holds(a2, s2);
        if last {
            assert(digit(v, b, pos) == cs[pos] % b);
            let a3 = crate::solqubo::lemma_extend_less(e, q, b, a, a2, s2, hc, pos, dp, vb);
        }
        assert(satisfiable(s3));
    }
}

/// What searching for an assignment with `x^T Q x + p <= m` asks of the encoding: `m` not
/// negative with its high part within the outputs of the top sorter, and room for the
/// constraint variables of one step: residue constraints on the sorters below the top one,
/// and one more constraint on the longest of them.
pub open spec fn within_ok(e: Encoding, q: Seq<Seq<i32>>, b: int, m: int) -> bool {
    &&& enc_ok(e, q, b)
    &&& 2 <= b <= i32::MAX
    &&& m >= 0
    &&& e.sorter_lst.len() >= 1
    &&& high_part(m, b, e.sorter_lst.len() - 1) <= e.sorter_lst@[e.sorter_lst.len() - 1].output.len()
    &&& e.vargen + rooms(e.sorter_lst@, 0, e.sorter_lst.len() - 1, b) + out_max(e.sorter_lst@, e.sorter_lst.len() - 1) <= MAX_VAR + 1
}

/// An assignment with `x^T Q x + p <= m`, where there is one. It compares with `m` digit by
/// digit from the top down, one solver per step: first a smaller top count; then, with the
/// top count and the digits above fixed to those of `m`, a smaller digit in each place in
/// turn; last, every digit that of `m`. The first step that has a model gives the
/// assignment, with whether it was the last step: then `x^T Q x + p` is `m` and no
/// assignment is below `m`; else it is below `m`. Where no step has a model, no assignment
/// reaches `m`.
pub(crate) fn within(e: &Encoding, Ghost(q): Ghost<Seq<Seq<i32>>>, m: i32, base: i32, with_last: bool) -> (r: Option<(Vec<bool>, bool)>)
    requires
        within_ok(*e, q, base as int, m as int),
    ensures
        r matches Some((x, at_m)) ==> {
            &&& x.len() == q.len()
            &&& at_m ==> with_last
            &&& !at_m ==> qubo_value(q, x@) + neg_sum(tri_coefs(q)) < m
            &&& at_m ==> qubo_value(q, x@) + neg_sum(tri_coefs(q)) == m
            &&& at_m ==> forall|y: Seq<bool>|
                y.len() == q.len() ==> #[trigger] qubo_value(q, y) + neg_sum(tri_coefs(q)) >= m
        },
        r is None ==> forall|x: Seq<bool>|
            x.len() == q.len() ==> #[trigger] qubo_value(q, x) + neg_sum(tri_coefs(q)) >= m,
        r is None && with_last ==> forall|x: Seq<bool>|
            x.len() == q.len() ==> #[trigger] qubo_value(q, x) + neg_sum(tri_coefs(q)) > m,
{
    let ghost b = base as int;
    let ghost w = tri_coefs(q);
    let ghost nb = digit_rows(w, b);
    let ghost n = q.len() as int;
    let l = e.sorter_lst.len();
    let ghost sl = e.sorter_lst@;
    let ghost ls = rooms(sl, 0, l - 1, b);
    let ghost fc = cnf_clauses(e.f);
    let ghost top = sl[l - 1];
    let top_len = e.sorter_lst[l - 1].output.len();
    proof {
        crate::search::lemma_rooms_nonneg(sl, 0, l - 1, b);
        if l >= 2 {
            lemma_out_max(sl, l - 1, 0);
        }
        assert(sorter_shape(sl, nb, n, b, l - 1));
        assert forall|i: int| 0 <= i < l implies #[trigger] sl[i].output.len() == sl[i].input.len() by {
            assert(sorter_shape(sl, nb, n, b, i));
        }
        assert(sorter_vars(top, e.vargen as int));
        assert forall|t: int| 0 <= t < top.output.len() implies 1 <= #[trigger] top.output@[t] < e.vargen by {
            assert(top.output@[t] < e.vargen);
        }
    }
    proof {
        lemma_high_part_mono(0, m as int, b, l - 1);
    }
    let zerop = top_zerop(m, base, &e.sorter_lst);
    let d = to_base(m, base);
    proof {
        lemma_digits_of_index(m as int, b);
    }
    let zeropos = digit_pattern(m, base, &e.sorter_lst);
    // step 0: a smaller top count
    if zerop < top_len {
        let c0 = mk_0cons(&e.sorter_lst, zerop + 1);
        let mut s = load(&e.f, &c0);
        proof {
            lemma_query0(*e, q, b, m as int, zerop as int, cnf_clauses(c0));
            assert(solver_clauses(s).take(fc.len() as int) =~= fc);
        }
        match solve_and_read(&mut s, e, Ghost(q), Ghost(b)) {
            Ok(Some((_, x))) => {
                proof {
                    let a = choose|a: spec_fn(int) -> bool|
                        #[trigger] cnf_holds(a, fc + cnf_clauses(c0)) && x@ == x_of(a, n);
                    crate::qubo::lemma_value_lower_bound(q, x@);
                    lemma_lex_le(qubo_value(q, x@) + neg_sum(w), m as int, b, l as int, 0);
                }
                return Some((x, false));
            },
            _ => {},
        }
    } else {
        proof {
            assert forall|x: Seq<bool>| x.len() == q.len() implies !#[trigger] lex_q(q, b, m as int, x, 0) by {
                crate::qubo::lemma_value_lower_bound(q, x);
                crate::qubo::lemma_low_high(qubo_value(q, x) + neg_sum(w), b, l - 1);
            }
        }
    }
    let mut fixed = Vec::<Option<usize>>::new();
    let mut above_ok = true;
    for i in 1..l
        invariant
            within_ok(*e, q, b, m as int),
            b == base as int,
            w == tri_coefs(q),
            nb == digit_rows(w, b),
            n == q.len(),
            l == e.sorter_lst.len(),
            sl == e.sorter_lst@,
            top == sl[l - 1],
            top_len == top.output.len(),
            fc == cnf_clauses(e.f),
            ls == rooms(sl, 0, l - 1, b),
            ls >= 0,
            out_max(sl, l - 1) >= 0,
            e.vargen + ls + out_max(sl, l - 1) <= MAX_VAR + 1,
            zerop == top_len - high_part(m as int, b, l - 1),
            zerop <= top_len,
            out_vars(top.output@),
            forall|t: int| 0 <= t < top.output.len() ==> 1 <= #[trigger] top.output@[t] < e.vargen,
            forall|i2: int| 0 <= i2 < l ==> #[trigger] sl[i2].output.len() == sl[i2].input.len(),
            ints(d@) == crate::qubo::digits_of(m as int, b),
            forall|j: int| 0 <= j < d.len() ==> #[trigger] crate::qubo::digits_of(m as int, b)[j] == digit(m as int, b, j),
            forall|j: int| j >= d.len() ==> #[trigger] digit(m as int, b, j) == 0,
            zeropos.len() == l - 1,
            forall|k: int|
                0 <= k < zeropos.len() ==> #[trigger] zeropos@[k] == if sl[l - 2 - k].output.len() == 0 {
                    None::<usize>
                } else {
                    Some(digit(m as int, b, l - 2 - k) as usize)
                },
            forall|k: int| 0 <= k < zeropos.len() ==> (#[trigger] zeropos@[k] matches Some(mk) ==> mk < base),
            fixed@ == zeropos@.take(i - 1),
            above_ok ==> forall|j: int| l - i <= j < l - 1 && sl[j].output.len() == 0 ==> #[trigger] digit(m as int, b, j) == 0,
            !above_ok ==> exists|j: int| l - i <= j < l - 1 && sl[j].output.len() == 0 && #[trigger] digit(m as int, b, j) != 0,
            forall|j: int, x: Seq<bool>| 0 <= j < i && x.len() == q.len() ==> !#[trigger] lex_q(q, b, m as int, x, j),
    {
        let p = l - 1 - i;
        let dp: i32 = if p < d.len() {
            proof {
                assert(ints(d@)[p as int] == d@[p as int] as int);
            }
            d[p]
        } else {
            0
        };
        let p_len = e.sorter_lst[p].output.len();
        proof {
            lemma_digit_small(m as int, b, p as int);
            assert(dp as int == digit(m as int, b, p as int));
        }
        if above_ok && dp > 0 {
            let c1 = mk_0cons2(&e.sorter_lst, zerop);
            let mut s = load(&e.f, &c1);
            let ghost s1 = solver_clauses(s);
            proof {
                lemma_tails_within(top.output@, zerop as int, e.vargen as int);
                lemma_clauses_within_concat(fc, cnf_clauses(c1), e.vargen as int, e.vargen as int);
                assert forall|i2: int| 0 <= i2 < l implies sorter_vars(#[trigger] sl[i2], e.vargen as int) by {
                    assert(sorter_vars(sl[i2], e.vargen as int));
                }
                assert forall|k: int| 0 <= k < fixed.len() implies (#[trigger] fixed@[k] matches Some(mk2) ==> mk2 < base) by {
                    assert(fixed@[k] == zeropos@[k]);
                }
            }
            let mut vg = e.vargen;
            match add_residues(&mut s, &e.sorter_lst, &fixed, base as usize, &mut vg) {
                Ok(()) => {},
                Err(_) => {
                    proof {
                        let k = choose|k: int|
                            0 <= k < fixed@.len() && #[trigger] fixed@[k] == Some(0usize)
                                && sl[sl.len() - 2 - k].output.len() == 0;
                        assert(fixed@[k] == zeropos@[k]);
                    }
                    return None;
                },
            }
            let ghost s2 = solver_clauses(s);
            let ghost vb = vg;
            proof {
                lemma_rooms_split(sl, 0, l - 1 - (i - 1), l - 1, b);
                lemma_out_max(sl, l - 1, p as int);
                assert(vg + p_len <= e.vargen + ls + out_max(sl, l - 1));
            }
            if p_len > 0 {
                let sp = &e.sorter_lst[p];
                proof {
                    assert(sorter_vars(sl[p as int], e.vargen as int));
                    assert forall|t: int| 0 <= t < p_len implies 1 <= #[trigger] sl[p as int].output@[t] <= MAX_VAR by {
                        assert(sl[p as int].output@[t] < e.vargen);
                    }
                    assert forall|t: int| 0 <= t < p_len implies #[trigger] sl[p as int].output@[t] < vg by {
                        assert(sl[p as int].output@[t] < e.vargen);
                    }
                }
                let h = mk_0cons_mod_less(&e.sorter_lst, p, dp as usize, base as usize, &mut vg);
                solver_add_formula(&mut s, &h);
                proof {
                    let s3 = solver_clauses(s);
                    assert(s3 =~= s2 + cnf_clauses(h));
                    lemma_query(*e, q, b, m as int, i as int, zerop as int, zeropos@, fixed@, dp as int, cnf_clauses(c1), s1, s2, cnf_clauses(h), s3, true, vb as int);
                    assert(s1.take(fc.len() as int) =~= fc);
                    assert(s2.take(fc.len() as int) =~= s2.take(s1.len() as int).take(fc.len() as int));
                    assert(s3.take(fc.len() as int) =~= s2.take(fc.len() as int));
                }
                match solve_and_read(&mut s, e, Ghost(q), Ghost(b)) {
                    Ok(Some((_, x))) => {
                        proof {
                            let a = choose|a: spec_fn(int) -> bool|
                                #[trigger] cnf_holds(a, s2 + cnf_clauses(h)) && x@ == x_of(a, n);
                            crate::qubo::lemma_value_lower_bound(q, x@);
                            lemma_lex_le(qubo_value(q, x@) + neg_sum(w), m as int, b, l as int, i as int);
                        }
                        return Some((x, false));
                    },
                    _ => {},
                }
            } else {
                proof {
                    lemma_query(*e, q, b, m as int, i as int, zerop as int, zeropos@, fixed@, dp as int, cnf_clauses(c1), s1, s2, Seq::empty(), s2, false, vb as int);
                    assert(s1.take(fc.len() as int) =~= fc);
                    assert(s2.take(fc.len() as int) =~= s2.take(s1.len() as int).take(fc.len() as int));
                }
                match solve_and_read(&mut s, e, Ghost(q), Ghost(b)) {
                    Ok(Some((_, x))) => {
                        proof {
                            let a = choose|a: spec_fn(int) -> bool| #[trigger] cnf_holds(a, s2) && x@ == x_of(a, n);
                            crate::qubo::lemma_value_lower_bound(q, x@);
                            lemma_lex_le(qubo_value(q, x@) + neg_sum(w), m as int, b, l as int, i as int);
                        }
                        return Some((x, false));
                    },
                    _ => {},
                }
            }
        } else {
            proof {
                assert forall|x: Seq<bool>| x.len() == q.len() implies !#[trigger] lex_q(q, b, m as int, x, i as int) by {
                    crate::qubo::lemma_value_lower_bound(q, x);
                    let v = qubo_value(q, x) + neg_sum(w);
                    if !above_ok {
                        let j = choose|j: int| l - i <= j < l - 1 && sl[j].output.len() == 0 && #[trigger] digit(m as int, b, j) != 0;
                        lemma_empty_place(*e, q, b, x, j);
                    } else {
                        lemma_digit_small(v, b, p as int);
                    }
                }
            }
        }
        if p_len == 0 && dp != 0 {
            above_ok = false;
        }
        fixed.push(zeropos[i - 1]);
        proof {
            assert(fixed@ =~= zeropos@.take(i as int));
        }
    }
    proof {
        assert forall|x: Seq<bool>| x.len() == q.len() implies #[trigger] qubo_value(q, x) + neg_sum(tri_coefs(q)) >= m by {
            crate::qubo::lemma_value_lower_bound(q, x);
            let v = qubo_value(q, x) + neg_sum(w);
            if v < m {
                lemma_lex_complete(v, m as int, b, l as int);
                let i = choose|i: int| 0 <= i <= l && #[trigger] lex_step(v, m as int, b, l as int, i);
                lemma_lex_le(v, m as int, b, l as int, i);
                assert(lex_q(q, b, m as int, x, i));
            }
        }
    }
    if !with_last {
        return None;
    }
    // the last step: every digit that of `m`
    if above_ok {
        let c1 = mk_0cons2(&e.sorter_lst, zerop);
        let mut s = load(&e.f, &c1);
        let ghost s1 = solver_clauses(s);
        proof {
            lemma_tails_within(top.output@, zerop as int, e.vargen as int);
            lemma_clauses_within_concat(fc, cnf_clauses(c1), e.vargen as int, e.vargen as int);
            assert forall|i2: int| 0 <= i2 < l implies sorter_vars(#[trigger] sl[i2], e.vargen as int) by {
                assert(sorter_vars(sl[i2], e.vargen as int));
            }
            assert forall|k: int| 0 <= k < fixed.len() implies (#[trigger] fixed@[k] matches Some(mk2) ==> mk2 < base) by {
                assert(fixed@[k] == zeropos@[k]);
            }
        }
        let mut vg = e.vargen;
        match add_residues(&mut s, &e.sorter_lst, &fixed, base as usize, &mut vg) {
            Ok(()) => {},
            Err(_) => {
                proof {
                    let k = choose|k: int|
                        0 <= k < fixed@.len() && #[trigger] fixed@[k] == Some(0usize)
                            && sl[sl.len() - 2 - k].output.len() == 0;
                    assert(fixed@[k] == zeropos@[k]);
                }
                return None;
            },
        }
        let ghost s2 = solver_clauses(s);
        proof {
            assert(zeropos@.take(l - 1) =~= zeropos@);
            lemma_query(*e, q, b, m as int, l as int, zerop as int, zeropos@, fixed@, 0, cnf_clauses(c1), s1, s2, Seq::empty(), s2, false, vg as int);
            assert(s1.take(fc.len() as int) =~= fc);
            assert(s2.take(fc.len() as int) =~= s2.take(s1.len() as int).take(fc.len() as int));
        }
        match solve_and_read(&mut s, e, Ghost(q), Ghost(b)) {
            Ok(Some((_, x))) => {
                proof {
                    let a = choose|a: spec_fn(int) -> bool| #[trigger] cnf_holds(a, s2) && x@ == x_of(a, n);
                    crate::qubo::lemma_value_lower_bound(q, x@);
                    lemma_lex_le(qubo_value(q, x@) + neg_sum(w), m as int, b, l as int, l as int);
                    assert forall|y: Seq<bool>| y.len() == q.len() implies #[trigger] qubo_value(q, y) + neg_sum(tri_coefs(q)) >= m by {
                        crate::qubo::lemma_value_lower_bound(q, y);
                        let vy = qubo_value(q, y) + neg_sum(w);
                        if vy < m {
                            lemma_lex_complete(vy, m as int, b, l as int);
                            let i = choose|i: int| 0 <= i <= l && #[trigger] lex_step(vy, m as int, b, l as int, i);
                            lemma_lex_le(vy, m as int, b, l as int, i);
                            assert(lex_q(q, b, m as int, y, i));
                        }
                    }
                }
                return Some((x, true));
            },
            _ => {},
        }
    } else {
        proof {
            assert forall|x: Seq<bool>| x.len() == q.len() implies !#[trigger] lex_q(q, b, m as int, x, l as int) by {
                let j = choose|j: int| 0 <= j < l - 1 && sl[j].output.len() == 0 && #[trigger] digit(m as int, b, j) != 0;
                lemma_empty_place(*e, q, b, x, j);
            }
        }
    }
    proof {
        assert forall|x: Seq<bool>| x.len() == q.len() implies #[trigger] qubo_value(q, x) + neg_sum(tri_coefs(q)) > m by {
            crate::qubo::lemma_value_lower_bound(q, x);
            let v = qubo_value(q, x) + neg_sum(w);
            if v <= m {
                lemma_lex_complete(v, m as int, b, l as int);
                let i = choose|i: int| 0 <= i <= l && #[trigger] lex_step(v, m as int, b, l as int, i);
                assert(lex_q(q, b, m as int, x, i));
            }
        }
    }
    None
}

/// Whether some assignment has `x^T Q x + p` equal to `m`: one solver asks the top count to
/// be the high part of `m` and every lower place with outputs to have the digit of `m` as
/// its residue (the last step of `within`).
pub(crate) fn equal_exists(e: &Encoding, Ghost(q): Ghost<Seq<Seq<i32>>>, m: i32, base: i32) -> (r: bool)
    requires
        within_ok(*e, q, base as int, m as int),
    ensures
        r == exists|x: Seq<bool>| x.len() == q.len() && #[trigger] qubo_value(q, x) + neg_sum(tri_coefs(q)) == m,
{
    let ghost b = base as int;
    let ghost w = tri_coefs(q);
    let ghost nb = digit_rows(w, b);
    let ghost n = q.len() as int;
    let l = e.sorter_lst.len();
    let ghost sl = e.sorter_lst@;
    let ghost fc = cnf_clauses(e.f);
    let ghost top = sl[l - 1];
    proof {
        assert(sorter_shape(sl, nb, n, b, l - 1));
        assert forall|i: int| 0 <= i < l implies #[trigger] sl[i].output.len() == sl[i].input.len() by {
            assert(sorter_shape(sl, nb, n, b, i));
        }
        assert(sorter_vars(top, e.vargen as int));
        assert forall|t: int| 0 <= t < top.output.len() implies 1 <= #[trigger] top.output@[t] < e.vargen by {
            assert(top.output@[t] < e.vargen);
        }
        lemma_high_part_mono(0, m as int, b, l - 1);
    }
    let zerop = top_zerop(m, base, &e.sorter_lst);
    let d = to_base(m, base);
    proof {
        lemma_digits_of_index(m as int, b);
    }
    let zeropos = digit_pattern(m, base, &e.sorter_lst);
    // every place without outputs needs digit 0
    let mut j: usize = 0;
    while j < l - 1
        invariant
            within_ok(*e, q, b, m as int),
            l == e.sorter_lst.len(),
            l >= 1,
            j <= l - 1,
            sl == e.sorter_lst@,
            2 <= base,
            b == base as int,
            ints(d@) == crate::qubo::digits_of(m as int, b),
            forall|i: int| 0 <= i < d.len() ==> #[trigger] crate::qubo::digits_of(m as int, b)[i] == digit(m as int, b, i),
            forall|i: int| i >= d.len() ==> #[trigger] digit(m as int, b, i) == 0,
            forall|i: int| 0 <= i < j && sl[i].output.len() == 0 ==> #[trigger] digit(m as int, b, i) == 0,
        decreases l - 1 - j,
    {
        let dj: i32 = if j < d.len() {
            proof {
                assert(ints(d@)[j as int] == d@[j as int] as int);
            }
            d[j]
        } else {
            0
        };
        if e.sorter_lst[j].output.len() == 0 && dj != 0 {
            proof {
                assert(dj as int == digit(m as int, b, j as int));
                assert forall|x: Seq<bool>| x.len() == q.len() implies #[trigger] qubo_value(q, x) + neg_sum(tri_coefs(q)) != m by {
                    lemma_empty_place(*e, q, b, x, j as int);
                }
            }
            return false;
        }
        j += 1;
    }
    let c1 = mk_0cons2(&e.sorter_lst, zerop);
    let mut s = load(&e.f, &c1);
    let ghost s1 = solver_clauses(s);
    proof {
        lemma_tails_within(top.output@, zerop as int, e.vargen as int);
        lemma_clauses_within_concat(fc, cnf_clauses(c1), e.vargen as int, e.vargen as int);
        assert forall|i2: int| 0 <= i2 < l implies sorter_vars(#[trigger] sl[i2], e.vargen as int) by {
            assert(sorter_vars(sl[i2], e.vargen as int));
        }
    }
    let mut vg = e.vargen;
    match add_residues(&mut s, &e.sorter_lst, &zeropos, base as usize, &mut vg) {
        Ok(()) => {},
        Err(_) => {
            proof {
                let k = choose|k: int|
                    0 <= k < zeropos@.len() && #[trigger] zeropos@[k] == Some(0usize)
                        && sl[sl.len() - 2 - k].output.len() == 0;
            }
            return false;
        },
    }
    let ghost s2 = solver_clauses(s);
    proof {
        assert(zeropos@.take(l - 1) =~= zeropos@);
        lemma_query(*e, q, b, m as int, l as int, zerop as int, zeropos@, zeropos@, 0, cnf_clauses(c1), s1, s2, Seq::empty(), s2, false, vg as int);
        assert(s1.take(fc.len() as int) =~= fc);
        assert(s2.take(fc.len() as int) =~= s2.take(s1.len() as int).take(fc.len() as int));
    }
    let found = match solve_and_read(&mut s, e, Ghost(q), Ghost(b)) {
        Ok(Some(_)) => true,
        _ => false,
    };
    proof {
        if found {
            let a = choose|a: spec_fn(int) -> bool| #[trigger] cnf_holds(a, s2);
            let x = x_of(a, n);
            crate::qubo::lemma_value_lower_bound(q, x);
            lemma_lex_le(qubo_value(q, x) + neg_sum(w), m as int, b, l as int, l as int);
            assert(qubo_value(q, x) + neg_sum(tri_coefs(q)) == m);
        } else {
            assert forall|x: Seq<bool>| x.len() == q.len() implies #[trigger] qubo_value(q, x) + neg_sum(tri_coefs(q)) != m by {
                let v = qubo_value(q, x) + neg_sum(w);
                if v == m {
                    assert(lex_step(v, m as int, b, l as int, l as int));
                    assert(lex_q(q, b, m as int, x, l as int));
                }
            }
        }
    }
    found
}

/// What finding an assignment asks of its input: a matrix the encoding takes, a base of at
/// least 2, room for the constraint variables of one step (`step_room`), `val + p` within
/// `i32`, and (where it is not negative) a top sorter with outputs enough for its high part.
pub open spec fn find_ok(q: Seq<Seq<i32>>, base: int, val: int) -> bool {
    let w = tri_coefs(q);
    let nb = digit_rows(w, base);
    let n = q.len() as int;
    let l = max_len(nb);
    let m = val + neg_sum(w);
    &&& qubo_ok(q)
    &&& 2 <= base <= i32::MAX
    &&& enc_limits(q, base, step_room(nb, base, n, l))
    &&& m <= i32::MAX
    &&& m >= 0 ==> high_part(m, base, l - 1) <= slen(nb, base, n, l - 1)
}

/// Builds the encoding of `input` in base `base` and searches it for an assignment with
/// `x^T Q x <= val` (`within`, with `m = val + p`).
pub(crate) fn find_in(input: &Vec<Vec<i32>>, val: i32, base: i32) -> (r: Option<Vec<bool>>)
    requires
        find_ok(input.deep_view(), base as int, val as int),
    ensures
        r matches Some(x) ==> x.len() == input.len() && qubo_value(input.deep_view(), x@) <= val,
        r is None ==> forall|x: Seq<bool>|
            x.len() == input.len() ==> #[trigger] qubo_value(input.deep_view(), x) > val,
{
    let ghost q = input.deep_view();
    let ghost b = base as int;
    let ghost w = tri_coefs(q);
    let ghost nb = digit_rows(w, b);
    let ghost n = q.len() as int;
    proof {
        crate::value::lemma_sorters_nonempty(q, b);
        crate::sorter::lemma_budget_mono(nb, b, n, 0, max_len(nb));
        lemma_step_room_nonneg(nb, b, n, max_len(nb) - 1);
    }
    let e = build_encoding(input, base);
    let p = e.p;
    proof {
        crate::qubo::lemma_neg_sum_bounds(w);
    }
    if val + p < 0 {
        proof {
            assert forall|x: Seq<bool>| x.len() == q.len() implies #[trigger] qubo_value(q, x) > val by {
                crate::qubo::lemma_value_lower_bound(q, x);
            }
        }
        return None;
    }
    let m: i32 = val + p;
    let l = e.sorter_lst.len();
    proof {
        lemma_rooms_total(e, q, b, l - 1);
        assert(sorter_shape(e.sorter_lst@, nb, n, b, l - 1));
    }
    match within(&e, Ghost(q), m, base, true) {
        Some((x, _)) => Some(x),
        None => None,
    }
}

/// Finds an assignment with `x^T Q x <= val`: `Some` of one where there is one, `None` where
/// every assignment is above `val`.
pub fn find_assignment(input: &Vec<Vec<i32>>, val: i32, base: i32) -> (r: Result<Option<Vec<bool>>, String>)
    requires
        find_ok(input.deep_view(), base as int, val as int),
    ensures
        r is Ok,
        r matches Ok(Some(x)) ==> x.len() == input.len() && qubo_value(input.deep_view(), x@) <= val,
        r matches Ok(None) ==> forall|x: Seq<bool>|
            x.len() == input.len() ==> #[trigger] qubo_value(input.deep_view(), x) > val,
{
    Ok(find_in(input, val, base))
}

/// Finding-assignments mode: whether some assignment has `x^T Q x <= val`.
pub fn findasgnqubo(input: Vec<Vec<i32>>, val: i32, base: i32) -> (r: Result<bool, String>)
    requires
        find_ok(input.deep_view(), base as int, val as int),
    ensures
        r == Ok::<bool, String>(
            exists|x: Seq<bool>| x.len() == input.len() && #[trigger] qubo_value(input.deep_view(), x) <= val,
        ),
{
    match find_in(&input, val, base) {
        Some(x) => {
            assert(qubo_value(input.deep_view(), x@) <= val);
            Ok(true)
        },
        None => Ok(false),
    }
}

/// Finding an assignment within `val` succeeds exactly from the least value `m` on: the
/// answer of `findasgnqubo` is `val >= m`, and it grows with `val`.
pub proof fn lemma_find_from_min(q: Seq<Seq<i32>>, m: int, val: int)
    requires
        crate::qubo::is_min(q, m),
    ensures
        (exists|x: Seq<bool>| x.len() == q.len() && #[trigger] qubo_value(q, x) <= val) <==> val >= m,
{
    let x = choose|x: Seq<bool>| x.len() == q.len() && #[trigger] qubo_value(q, x) == m;
    if val >= m {
        assert(qubo_value(q, x) <= val);
    }
}

/// The check of a value answers `true` exactly at the least value `m`.
pub proof fn lemma_check_at_min(q: Seq<Seq<i32>>, m: int, val: int)
    requires
        crate::qubo::is_min(q, m),
    ensures
        crate::qubo::is_min(q, val) <==> val == m,
{
    if crate::qubo::is_min(q, val) {
        crate::qubo::lemma_min_unique(q, m, val);
    }
}

} // verus!
