//! Optimization mode: the least value of `x^T Q x`, searched for with the SAT solver.
use vstd::prelude::*;
use varisat::solver::Solver;
use crate::cnf::{
    agree_below, clauses_within, cnf_clauses, cnf_holds, extends, lemma_clauses_within_concat,
    lemma_clauses_within_mono, lemma_cnf_holds_concat, lemma_holds_agree, model_asg,
    satisfiable, solver_add_formula, solver_clauses, solver_model, solver_solve, solver_usable,
    MAX_VAR,
};
use crate::constraints::{
    get_sorterouts, lemma_exact_tail, lemma_tails_within, lemma_zero_tail, mk_0cons, mk_0cons2,
    mk_0cons_mod_less, out_vars, sorted_count,
};
use crate::encoding::{
    build_encoding, digit_rows, enc_limits, enc_ok, read_value, top_zerop,
    Encoding,
};
use crate::qubo::{high_part, is_min, neg_sum, qubo_ok, qubo_value, tri_coefs};
use crate::search::{
    add_residues, empty_zero, all_sort, lemma_model_from_solver, lemma_out_max, lemma_rooms_split, lemma_rooms_total,
    lemma_sorted_from_sorts, lemma_sorter_count, lemma_sorters_agree, load, model_of, rooms,
    residues_hold,
};
use crate::value::{counts, lemma_model_sum};
use crate::sortlaw::lemma_ones_le;
use crate::encode::x_of;
use crate::sorter::Sorter;
use crate::sortlaw::ones;
use crate::sorter::{max_len, slen, sorter_shape, sorter_vars, vals};
use crate::encoding::{lemma_step_room_nonneg, step_room};
use crate::qubo::lemma_high_part_mono;

verus! {

/// Steps of the tabu search that gives the starting bound.
pub const TABU_STEPS: usize = 100;

/// What the least-value search asks of its input: a matrix the encoding takes, a base of at
/// least 2, room for the constraint variables of one step of the search (`step_room`), and
/// a top sorter with outputs (that is, not every coefficient is zero).
pub open spec fn solqubo_ok(q: Seq<Seq<i32>>, base: int) -> bool {
    let w = tri_coefs(q);
    let nb = digit_rows(w, base);
    let n = q.len() as int;
    let l = max_len(nb);
    &&& qubo_ok(q)
    &&& base >= 2
    &&& enc_limits(q, base, step_room(nb, base, n, l))
    &&& slen(nb, base, n, l - 1) >= 1
}

/// The models that the search of one place looks at: models of the encoding with the top
/// count `top_len - zerop` and the residues that `zeropos` fixes above.
pub open spec fn fixed_above(
    a: spec_fn(int) -> bool,
    e: Encoding,
    zerop: int,
    zeropos: Seq<Option<usize>>,
    b: int,
) -> bool {
    let sl = e.sorter_lst@;
    &&& cnf_holds(a, cnf_clauses(e.f))
    &&& counts(a, sl)[sl.len() - 1] == sl[sl.len() - 1].output.len() - zerop
    &&& residues_hold(a, sl, zeropos, b)
}

/// Extending a model of the clauses so far over the fresh variables of one more constraint
/// on the residue of sorter `pos`.
pub(crate) proof fn lemma_extend_less(
    e: Encoding,
    q: Seq<Seq<i32>>,
    b: int,
    a: spec_fn(int) -> bool,
    a2: spec_fn(int) -> bool,
    prev: Seq<Seq<int>>,
    hc: Seq<Seq<int>>,
    pos: int,
    bound: int,
    vb: int,
) -> (a3: spec_fn(int) -> bool)
    requires
        enc_ok(e, q, b),
        b >= 2,
        0 <= pos < e.sorter_lst.len(),
        e.vargen <= vb,
        cnf_holds(a, cnf_clauses(e.f)),
        agree_below(a2, a, e.vargen as int),
        cnf_holds(a2, prev),
        clauses_within(prev, vb),
        extends(Seq::<Seq<int>>::empty(), hc.drop_last(), vb),
        hc.len() >= 1,
        forall|a4: spec_fn(int) -> bool, c: int|
            cnf_holds(a4, #[trigger] hc.drop_last()) && #[trigger] sorted_count(a4, e.sorter_lst@[pos].output@, c)
                ==> (cnf_holds(a4, hc) == (c % b < bound)),
        counts(a, e.sorter_lst@)[pos] % b < bound,
    ensures
        agree_below(a3, a, e.vargen as int),
        cnf_holds(a3, prev + hc),
{
    let sl = e.sorter_lst@;
    assert(cnf_holds(a2, Seq::<Seq<int>>::empty()));
    let a3 = choose|a3: spec_fn(int) -> bool| agree_below(a3, a2, vb) && #[trigger] cnf_holds(a3, hc.drop_last());
    lemma_holds_agree(a2, a3, prev, vb);
    assert(agree_below(a3, a, e.vargen as int));
    assert forall|i: int| 0 <= i < sl.len() implies sorter_vars(#[trigger] sl[i], e.vargen as int) by {
        assert(sorter_vars(sl[i], e.vargen as int));
    }
    lemma_sorters_agree(a, a3, sl, e.vargen as int);
    assert(all_sort(a, sl));
    let sp = sl[pos];
    assert(crate::sorter::sorter_shape(sl, digit_rows(tri_coefs(q), b), q.len() as int, b, pos));
    lemma_sorted_from_sorts(a3, sp);
    assert(vals(a3, sp.input@) == vals(a, sp.input@));
    assert(cnf_holds(a3, hc));
    lemma_cnf_holds_concat(a3, prev, hc);
    a3
}

/// A fresh solver loaded with the encoding, the top count `top_len - zerop`, and the
/// residues that `zeropos` fixes: every model of `fixed_above` extends to a model of its
/// clauses, and every model of its clauses is one of `fixed_above`. Its fresh variables start
/// at the encoding's `vargen` each time.
fn fixed_solver(
    e: &Encoding,
    Ghost(q): Ghost<Seq<Seq<i32>>>,
    zerop: usize,
    zeropos: &Vec<Option<usize>>,
    base: i32,
) -> (r: (Solver<'static>, usize, Ghost<Seq<Seq<int>>>, Ghost<Seq<Seq<int>>>))
    requires
        enc_ok(*e, q, base as int),
        solqubo_ok(q, base as int),
        e.sorter_lst.len() >= 1,
        zerop <= e.sorter_lst@.last().output.len(),
        zeropos.len() <= e.sorter_lst.len() - 1,
        forall|k: int| 0 <= k < zeropos.len() ==> (#[trigger] zeropos@[k] matches Some(mk) ==> mk < base),
        !empty_zero(e.sorter_lst@, zeropos@),
    ensures
        solver_usable(r.0),
        solver_clauses(r.0) == r.3@,
        r.2@ == cnf_clauses(e.f) + crate::constraints::exact_tail(e.sorter_lst@.last().output@, zerop as int),
        r.3@.take(r.2@.len() as int) == r.2@,
        r.3@.len() >= r.2@.len(),
        forall|a2: spec_fn(int) -> bool|
            #[trigger] cnf_holds(a2, r.3@.skip(r.2@.len() as int)) && all_sort(a2, e.sorter_lst@) ==> residues_hold(
                a2,
                e.sorter_lst@,
                zeropos@,
                base as int,
            ),
        forall|a: spec_fn(int) -> bool|
            #[trigger] fixed_above(a, *e, zerop as int, zeropos@, base as int) ==> exists|a2: spec_fn(int) -> bool|
                agree_below(a2, a, e.vargen as int) && #[trigger] cnf_holds(a2, r.3@),
        clauses_within(r.3@, r.1 as int),
        e.vargen <= r.1 <= e.vargen + rooms(
            e.sorter_lst@,
            e.sorter_lst.len() - 1 - zeropos.len(),
            e.sorter_lst.len() - 1,
            base as int,
        ),
{
    let ghost b = base as int;
    let ghost w = tri_coefs(q);
    let ghost nb = digit_rows(w, b);
    let ghost n = q.len() as int;
    let l = e.sorter_lst.len();
    let ghost sl = e.sorter_lst@;
    let ghost fc = cnf_clauses(e.f);
    let ghost top = sl[l - 1];
    proof {
        lemma_rooms_total(*e, q, b, l - 1);
        lemma_step_room_nonneg(nb, b, n, l - 1);
        assert forall|i2: int| 0 <= i2 < l implies #[trigger] sl[i2].output.len() == sl[i2].input.len() by {
            assert(crate::sorter::sorter_shape(sl, nb, n, b, i2));
        }
        assert(sorter_vars(top, e.vargen as int));
        assert forall|t: int| 0 <= t < top.output.len() implies 1 <= #[trigger] top.output@[t] < e.vargen by {
            assert(top.output@[t] < e.vargen);
        }
        assert forall|i2: int| 0 <= i2 < l implies sorter_vars(#[trigger] sl[i2], e.vargen as int) by {
            assert(sorter_vars(sl[i2], e.vargen as int));
        }
    }
    let cons = mk_0cons2(&e.sorter_lst, zerop);
    let mut s = load(&e.f, &cons);
    let ghost s1 = solver_clauses(s);
    proof {
        lemma_tails_within(top.output@, zerop as int, e.vargen as int);
        lemma_clauses_within_concat(fc, cnf_clauses(cons), e.vargen as int, e.vargen as int);
    }
    let mut vg = e.vargen;
    let res = add_residues(&mut s, &e.sorter_lst, zeropos, base as usize, &mut vg);
    assert(res is Ok);
    let ghost s2 = solver_clauses(s);
    proof {
        assert(s1.take(fc.len() as int) =~= fc);
        assert forall|a: spec_fn(int) -> bool| #[trigger] fixed_above(a, *e, zerop as int, zeropos@, b)
            implies exists|a2: spec_fn(int) -> bool| agree_below(a2, a, e.vargen as int) && #[trigger] cnf_holds(a2, s2) by {
            assert(all_sort(a, sl));
            lemma_sorted_from_sorts(a, top);
            lemma_exact_tail(a, top.output@, zerop as int, counts(a, sl)[l - 1]);
            lemma_cnf_holds_concat(a, fc, cnf_clauses(cons));
            assert(cnf_holds(a, s1));
        }
    }
    (s, vg, Ghost(s1), Ghost(s2))
}

/// The least residue modulo `base` that the count of sorter `pos` reaches over the models of
/// `fixed_above`, with one such model; `None` where there is none. It takes a model, then asks
/// for one with a smaller residue until there is none, each time with a fresh solver.
fn least_residue(
    e: &Encoding,
    Ghost(q): Ghost<Seq<Seq<i32>>>,
    zerop: usize,
    zeropos: &Vec<Option<usize>>,
    pos: usize,
    base: i32,
) -> (r: Option<(usize, Vec<isize>)>)
    requires
        enc_ok(*e, q, base as int),
        solqubo_ok(q, base as int),
        e.sorter_lst.len() >= 1,
        zerop <= e.sorter_lst@.last().output.len(),
        pos < e.sorter_lst.len() - 1 - zeropos.len(),
        e.sorter_lst@[pos as int].output.len() >= 1,
        forall|k: int| 0 <= k < zeropos.len() ==> (#[trigger] zeropos@[k] matches Some(mk) ==> mk < base),
        !empty_zero(e.sorter_lst@, zeropos@),
    ensures
        r matches Some((res, m)) ==> {
            &&& model_of(m@, *e)
            &&& res < base
            &&& fixed_above(model_asg(m@), *e, zerop as int, zeropos@, base as int)
            &&& counts(model_asg(m@), e.sorter_lst@)[pos as int] % (base as int) == res
            &&& forall|a: spec_fn(int) -> bool|
                #[trigger] fixed_above(a, *e, zerop as int, zeropos@, base as int)
                    ==> counts(a, e.sorter_lst@)[pos as int] % (base as int) >= res
        },
        r is None ==> forall|a: spec_fn(int) -> bool|
            !(#[trigger] fixed_above(a, *e, zerop as int, zeropos@, base as int)),
{
    let ghost b = base as int;
    let ghost w = tri_coefs(q);
    let ghost nb = digit_rows(w, b);
    let ghost n = q.len() as int;
    let l = e.sorter_lst.len();
    let ghost sl = e.sorter_lst@;
    let ghost fc = cnf_clauses(e.f);
    let ghost sp = sl[pos as int];
    let ghost top = sl[l - 1];
    let ghost zl = zeropos.len() as int;
    let out_len = e.sorter_lst[pos].output.len();
    proof {
        lemma_rooms_total(*e, q, b, l - 1);
        lemma_step_room_nonneg(nb, b, n, l - 1);
        assert(sorter_vars(sp, e.vargen as int));
        assert forall|t: int| 0 <= t < sp.output.len() implies 1 <= #[trigger] sp.output@[t] <= MAX_VAR by {
            assert(sp.output@[t] < e.vargen);
        }
        lemma_rooms_split(sl, 0, l - 1 - zl, l - 1, b);
        lemma_out_max(sl, l - 1, pos as int);
        assert(crate::sorter::sorter_shape(sl, nb, n, b, pos as int));
    }
    let (mut s, _vg, Ghost(s1), Ghost(s2)) = fixed_solver(e, Ghost(q), zerop, zeropos, base);
    let ghost cons = crate::constraints::exact_tail(top.output@, zerop as int);
    let first = match solver_solve(&mut s) {
        Ok(v) => v,
        Err(_) => false,
    };
    if !first {
        proof {
            assert forall|a: spec_fn(int) -> bool| !(#[trigger] fixed_above(a, *e, zerop as int, zeropos@, b)) by {
                if fixed_above(a, *e, zerop as int, zeropos@, b) {
                    let a2 = choose|a2: spec_fn(int) -> bool| agree_below(a2, a, e.vargen as int) && #[trigger] cnf_holds(a2, s2);
                    assert(satisfiable(s2));
                }
            }
        }
        return None;
    }
    let mut m = match solver_model(&s) {
        Some(m) => m,
        None => {
            return None;
        },
    };
    proof {
        let all = solver_clauses(s);
        assert(all == s2);
        assert(s1.take(fc.len() as int) =~= fc);
        assert(s2.take(fc.len() as int) =~= s2.take(s1.len() as int).take(fc.len() as int));
        assert(all =~= fc + all.skip(fc.len() as int));
        lemma_model_from_solver(*e, m@, all.skip(fc.len() as int));
        lemma_sorter_count(*e, q, b, m@, pos as int);
        assert(all.take(s2.len() as int) =~= s2);
        lemma_fixed_model(*e, q, b, model_asg(m@), zerop as int, zeropos@, s1, s2, all, cons);
    }
    let outs = get_sorterouts(&e.sorter_lst, &m);
    let mut best: usize = match outs[l - 1 - pos] {
        Some(c) => c % (base as usize),
        None => 0,
    };
    proof {
        assert(l - 1 - (l - 1 - pos) == pos);
    }
    let mut more = true;
    while more && best > 0
        invariant
            enc_ok(*e, q, b),
            solqubo_ok(q, b),
            b == base as int,
            2 <= base,
            l == e.sorter_lst.len(),
            l >= 1,
            pos < l - 1 - zeropos.len(),
            zerop <= e.sorter_lst@.last().output.len(),
            sl == e.sorter_lst@,
            sp == sl[pos as int],
            top == sl[l - 1],
            out_len == sp.output.len(),
            out_len >= 1,
            fc == cnf_clauses(e.f),
            cons == crate::constraints::exact_tail(top.output@, zerop as int),
            forall|k: int| 0 <= k < zeropos.len() ==> (#[trigger] zeropos@[k] matches Some(mk) ==> mk < base),
            !empty_zero(e.sorter_lst@, zeropos@),
            forall|t: int| 0 <= t < out_len ==> 1 <= #[trigger] sp.output@[t] <= MAX_VAR,
            forall|t: int| 0 <= t < out_len ==> #[trigger] sp.output@[t] < e.vargen,
            out_vars(sp.output@),
            e.vargen + rooms(sl, l - 1 - zeropos.len(), l - 1, b) + out_len <= MAX_VAR + 1,
            best < base,
            model_of(m@, *e),
            fixed_above(model_asg(m@), *e, zerop as int, zeropos@, b),
            counts(model_asg(m@), sl)[pos as int] % b == best,
            !more ==> forall|a: spec_fn(int) -> bool|
                #[trigger] fixed_above(a, *e, zerop as int, zeropos@, b) ==> counts(a, sl)[pos as int] % b >= best,
        decreases best + if more { 1int } else { 0 },
    {
        let (mut s, vg0, Ghost(s1), Ghost(s2)) = fixed_solver(e, Ghost(q), zerop, zeropos, base);
        let ghost vb = vg0;
        let mut vg = vg0;
        let h = mk_0cons_mod_less(&e.sorter_lst, pos, best, base as usize, &mut vg);
        solver_add_formula(&mut s, &h);
        let ghost hc = cnf_clauses(h);
        proof {
            assert(solver_clauses(s) =~= s2 + hc);
        }
        let found = match solver_solve(&mut s) {
            Ok(v) => v,
            Err(_) => false,
        };
        if found {
            let m2 = match solver_model(&s) {
                Some(m2) => m2,
                None => {
                    return None;
                },
            };
            let ghost a = model_asg(m2@);
            proof {
                let all = solver_clauses(s);
                assert(all == s2 + hc);
                assert(s1.take(fc.len() as int) =~= fc);
                assert(s2.take(fc.len() as int) =~= s2.take(s1.len() as int).take(fc.len() as int));
                assert(all.take(fc.len() as int) =~= s2.take(fc.len() as int));
                assert(all =~= fc + all.skip(fc.len() as int));
                lemma_model_from_solver(*e, m2@, all.skip(fc.len() as int));
                lemma_sorter_count(*e, q, b, m2@, pos as int);
                lemma_cnf_holds_concat(a, s2, hc);
                crate::sorter::lemma_cnf_holds_prefix(a, hc, hc.len() - 1);
                assert(hc.take(hc.len() - 1) =~= hc.drop_last());
                let c = ones(vals(a, sp.input@)) as int;
                assert(sorted_count(a, sp.output@, c));
                assert(c % b < best);
                assert(all.take(s2.len() as int) =~= s2);
                lemma_fixed_model(*e, q, b, a, zerop as int, zeropos@, s1, s2, all, cons);
            }
            let outs2 = get_sorterouts(&e.sorter_lst, &m2);
            let nbest: usize = match outs2[l - 1 - pos] {
                Some(c) => c % (base as usize),
                None => 0,
            };
            proof {
                assert(l - 1 - (l - 1 - pos) == pos);
            }
            m = m2;
            best = nbest;
        } else {
            more = false;
            proof {
                assert forall|a: spec_fn(int) -> bool|
                    #[trigger] fixed_above(a, *e, zerop as int, zeropos@, b) implies counts(a, sl)[pos as int] % b >= best by {
                    if counts(a, sl)[pos as int] % b < best {
                        let a2 = choose|a2: spec_fn(int) -> bool| agree_below(a2, a, e.vargen as int) && #[trigger] cnf_holds(a2, s2);
                        let a3 = lemma_extend_less(*e, q, b, a, a2, s2, hc, pos as int, best as int, vb as int);
                        assert(satisfiable(s2 + hc));
                    }
                }
            }
        }
    }
    proof {
        if more {
            assert(best == 0);
            assert forall|a: spec_fn(int) -> bool|
                #[trigger] fixed_above(a, *e, zerop as int, zeropos@, b) implies counts(a, sl)[pos as int] % b >= best by {
                vstd::arithmetic::div_mod::lemma_mod_bound(counts(a, sl)[pos as int], b);
            }
        }
    }
    Some((best, m))
}

/// A model of the clauses of a place's search is a model of `fixed_above`.
proof fn lemma_fixed_model(
    e: Encoding,
    q: Seq<Seq<i32>>,
    b: int,
    a: spec_fn(int) -> bool,
    zerop: int,
    zeropos: Seq<Option<usize>>,
    s1: Seq<Seq<int>>,
    s2: Seq<Seq<int>>,
    all: Seq<Seq<int>>,
    tail: Seq<Seq<int>>,
)
    requires
        enc_ok(e, q, b),
        b >= 2,
        e.sorter_lst.len() >= 1,
        0 <= zerop <= e.sorter_lst@.last().output.len(),
        out_vars(e.sorter_lst@.last().output@),
        tail == crate::constraints::exact_tail(e.sorter_lst@.last().output@, zerop),
        s1 == cnf_clauses(e.f) + tail,
        s2.take(s1.len() as int) == s1,
        s2.len() >= s1.len(),
        all.take(s2.len() as int) == s2,
        all.len() >= s2.len(),
        cnf_holds(a, all),
        cnf_holds(a, cnf_clauses(e.f)),
        forall|a2: spec_fn(int) -> bool|
            #[trigger] cnf_holds(a2, s2.skip(s1.len() as int)) && all_sort(a2, e.sorter_lst@) ==> residues_hold(
                a2,
                e.sorter_lst@,
                zeropos,
                b,
            ),
    ensures
        fixed_above(a, e, zerop, zeropos, b),
{
    let sl = e.sorter_lst@;
    let l = sl.len() as int;
    let top = sl[l - 1];
    crate::sorter::lemma_cnf_holds_prefix(a, all, s2.len() as int);
    assert(all.take(s2.len() as int) == s2);
    assert(s2 =~= s1 + s2.skip(s1.len() as int));
    lemma_cnf_holds_concat(a, s1, s2.skip(s1.len() as int));
    lemma_cnf_holds_concat(a, cnf_clauses(e.f), tail);
    assert(all_sort(a, sl));
    assert(crate::sorter::sorter_shape(sl, digit_rows(tri_coefs(q), b), q.len() as int, b, l - 1));
    lemma_sorted_from_sorts(a, top);
    lemma_exact_tail(a, top.output@, zerop, counts(a, sl)[l - 1]);
}

/// In place `j` of `zeropos`, `a` has a larger residue than the one fixed, and above it the
/// residues fixed.
pub open spec fn lex_at(a: spec_fn(int) -> bool, sl: Seq<Sorter>, zeropos: Seq<Option<usize>>, b: int, j: int) -> bool {
    &&& residues_hold(a, sl, zeropos.take(j), b)
    &&& zeropos[j] matches Some(mk) && counts(a, sl)[sl.len() - 2 - j] % b > mk
}

/// `a` is no better than what the search has fixed: a model of the encoding whose top count
/// is larger, or equal with residues that match those fixed or beat them at some place.
pub open spec fn not_below(a: spec_fn(int) -> bool, e: Encoding, zerop: int, zeropos: Seq<Option<usize>>, b: int) -> bool {
    let sl = e.sorter_lst@;
    let top_count = counts(a, sl)[sl.len() - 1];
    let fixed_top = sl[sl.len() - 1].output.len() - zerop;
    ||| top_count > fixed_top
    ||| fixed_above(a, e, zerop, zeropos, b)
    ||| top_count == fixed_top && exists|j: int| 0 <= j < zeropos.len() && #[trigger] lex_at(a, sl, zeropos, b, j)
}

/// `zeropos` is `None` exactly for the sorters without outputs.
pub open spec fn aligned(sl: Seq<Sorter>, zeropos: Seq<Option<usize>>) -> bool {
    forall|k: int| 0 <= k < zeropos.len() ==> (#[trigger] zeropos[k] is None <==> sl[sl.len() - 2 - k].output.len() == 0)
}

/// With a residue fixed for every sorter below the top, a model of `fixed_above` has the
/// least objective among the models that are `not_below` it.
proof fn lemma_least(
    e: Encoding,
    q: Seq<Seq<i32>>,
    b: int,
    zerop: int,
    zeropos: Seq<Option<usize>>,
    am: spec_fn(int) -> bool,
    a: spec_fn(int) -> bool,
)
    requires
        enc_ok(e, q, b),
        2 <= b <= i32::MAX,
        e.sorter_lst.len() >= 1,
        zeropos.len() == e.sorter_lst.len() - 1,
        aligned(e.sorter_lst@, zeropos),
        fixed_above(am, e, zerop, zeropos, b),
        cnf_holds(a, cnf_clauses(e.f)),
        not_below(a, e, zerop, zeropos, b),
    ensures
        qubo_value(q, x_of(a, q.len() as int)) >= qubo_value(q, x_of(am, q.len() as int)),
{
    let sl = e.sorter_lst@;
    let l = sl.len() as int;
    let nb = digit_rows(tri_coefs(q), b);
    let n = q.len() as int;
    lemma_model_sum(e, q, b, a);
    lemma_model_sum(e, q, b, am);
    let ca = counts(a, sl);
    let cm = counts(am, sl);
    let y = vstd::arithmetic::power::pow(b, (l - 1) as nat);
    crate::qubo::lemma_pow_pos(b, (l - 1) as nat);
    crate::sums::lemma_residue_sum_bounds(ca, b, l - 1);
    crate::sums::lemma_residue_sum_bounds(cm, b, l - 1);
    // in each place below the top, the residue of `am` is the one fixed (`0` where the sorter
    // has no outputs, and so no count)
    assert forall|i: int| 0 <= i < l - 1 implies (#[trigger] zeropos[l - 2 - i] is None ==> cm[i] == 0 && ca[i] == 0)
        && (zeropos[l - 2 - i] matches Some(mk) ==> cm[i] % b == mk) by {
        let k = l - 2 - i;
        assert(l - 2 - k == i);
        if zeropos[k] is None {
            assert(crate::sorter::sorter_shape(sl, nb, n, b, i));
            lemma_ones_le(vals(a, sl[i].input@));
            lemma_ones_le(vals(am, sl[i].input@));
        }
    }
    if ca[l - 1] > cm[l - 1] {
        assert(ca[l - 1] * y >= cm[l - 1] * y + y) by (nonlinear_arith)
            requires
                ca[l - 1] >= cm[l - 1] + 1,
                y >= 1,
        ;
    } else if fixed_above(a, e, zerop, zeropos, b) {
        assert forall|i: int| 0 <= i < l - 1 implies #[trigger] (ca[i] % b) == cm[i] % b by {
            let k = l - 2 - i;
            assert(l - 2 - k == i);
            assert(zeropos[l - 2 - i] is None ==> cm[i] == 0 && ca[i] == 0);
        }
        crate::sums::lemma_residue_sum_eq(ca, cm, b, l - 1);
    } else {
        let j = choose|j: int| 0 <= j < zeropos.len() && #[trigger] lex_at(a, sl, zeropos, b, j);
        let pj = l - 2 - j;
        assert(l - 2 - j == pj);
        assert(zeropos[l - 2 - pj] == zeropos[j]);
        assert forall|i: int| pj < i < l - 1 implies #[trigger] (ca[i] % b) == cm[i] % b by {
            let k = l - 2 - i;
            assert(l - 2 - k == i);
            assert(zeropos.take(j)[k] == zeropos[k]);
            assert(zeropos[l - 2 - i] is None ==> cm[i] == 0 && ca[i] == 0);
        }
        crate::sums::lemma_residue_sum_gt(ca, cm, b, pj, l - 1);
    }
}

/// The search for the least value of `x^T Q x`. It first bounds the count of the top sorter
/// by that of the all-false assignment (or of the tabu search's result, with `tabus`) and
/// lowers it while the solver finds models; then, sorter by sorter downward, it fixes the
/// least residue of the count modulo `base` that the solver can still meet. Returns the
/// least value, with an assignment that reaches it.
pub fn solve_qubo(input: &Vec<Vec<i32>>, base: i32, tabus: bool) -> (r: Result<(i32, Vec<bool>), String>)
    requires
        solqubo_ok(input.deep_view(), base as int),
    ensures
        r is Ok,
        r matches Ok((v, x)) ==> {
            &&& x.len() == input.len()
            &&& v as int == qubo_value(input.deep_view(), x@)
            &&& is_min(input.deep_view(), v as int)
        },
{
    let ghost q = input.deep_view();
    let ghost b = base as int;
    let ghost w = tri_coefs(q);
    let ghost nb = digit_rows(w, b);
    proof {
        crate::sorter::lemma_budget_mono(nb, b, q.len() as int, 0, max_len(nb));
        crate::value::lemma_sorters_nonempty(q, b);
        lemma_step_room_nonneg(nb, b, q.len() as int, max_len(nb) - 1);
        crate::value::lemma_abs_sum_high(q, b);
        crate::qubo::lemma_neg_sum_bounds(w);
        crate::qubo::lemma_abs_sum_nonneg(w);
        lemma_high_part_mono(neg_sum(w), crate::qubo::abs_sum(w), b, max_len(nb) - 1);
    }
    let e = build_encoding(input, base);
    let n = e.n;
    let l = e.sorter_lst.len();
    let top_len = e.sorter_lst[l - 1].output.len();
    let ghost sl = e.sorter_lst@;
    let ghost top = sl[l - 1];
    assert(crate::sorter::sorter_shape(e.sorter_lst@, nb, n as int, b, l - 1));
    // the starting bound, as a count of the sorted products
    let bound: i32 = if tabus {
        proof {
            assert(crate::tabus::tri_prefix(e.mat_n@, n as int) =~= w);
        }
        let t = crate::tabus::ts_qubo(&e.mat_n, n, TABU_STEPS);
        proof {
            let x = choose|x: Seq<bool>| x.len() == n && t as int == #[trigger] crate::qubo::tri_value(w, x, n as int);
            crate::qubo::lemma_tri_pairs_len(n as int);
            crate::qubo::lemma_pair_sum_lower(w, crate::qubo::tri_pairs(n as int), x, w.len() as int);
            assert(w.take(w.len() as int) =~= w);
            crate::qubo::lemma_tri_value(q, x);
            assert(qubo_value(q, x) + neg_sum(w) == t + e.p);
        }
        t + e.p
    } else {
        proof {
            let x = Seq::new(n as nat, |i: int| false);
            crate::qubo::lemma_value_all_false(q, x);
            assert(qubo_value(q, x) + neg_sum(w) == e.p);
        }
        e.p
    };
    // an assignment whose objective is the starting bound
    let ghost x0 = choose|x: Seq<bool>| x.len() == n && #[trigger] qubo_value(q, x) + neg_sum(w) == bound;
    proof {
        crate::qubo::lemma_abs_sum_nonneg(w);
        lemma_high_part_mono(bound as int, e.p as int, b, l - 1);
    }
    let mut zerop = top_zerop(bound, base, &e.sorter_lst);
    let ghost fc = cnf_clauses(e.f);
    proof {
        assert(sorter_vars(top, e.vargen as int));
        assert forall|t: int| 0 <= t < top.output.len() implies 1 <= #[trigger] top.output@[t] <= MAX_VAR by {
            assert(top.output@[t] < e.vargen);
        }
    }
    // One solver for the top count. Each bound only adds unit clauses to those of the
    // bound before, so the solver keeps what it learned.
    let c0 = mk_0cons(&e.sorter_lst, zerop);
    let mut solver = load(&e.f, &c0);
    proof {
        assert(crate::encoding::reaches(fc, n as int, x0));
        let a = choose|a: spec_fn(int) -> bool| x_of(a, n as int) == x0 && #[trigger] cnf_holds(a, fc);
        crate::value::lemma_model_digits(e, q, b, a);
        lemma_sorted_from_sorts(a, top);
        lemma_zero_tail(a, top.output@, zerop as int, counts(a, sl)[l - 1]);
        lemma_cnf_holds_concat(a, fc, cnf_clauses(c0));
        assert(solver_clauses(solver) =~= fc + cnf_clauses(c0));
        assert(satisfiable(solver_clauses(solver)));
    }
    let mut res = match solver_solve(&mut solver) {
        Ok(v) => v,
        Err(msg) => {
            return Err(msg);
        },
    };
    if !res {
        return Err("no assignment meets the starting bound".to_string());
    }
    let mut satmodel = match solver_model(&solver) {
        Some(m) => m,
        None => {
            return Err("the solver gave no model".to_string());
        },
    };
    proof {
        lemma_model_from_solver(e, satmodel@, cnf_clauses(c0));
        lemma_sorter_count(e, q, b, satmodel@, l - 1);
        assert(solver_clauses(solver).take(fc.len() as int) =~= fc);
        let a = model_asg(satmodel@);
        lemma_cnf_holds_concat(a, fc, cnf_clauses(c0));
        lemma_zero_tail(a, top.output@, zerop as int, counts(a, sl)[l - 1]);
    }
    let outs = get_sorterouts(&e.sorter_lst, &satmodel);
    let ghost z0 = zerop;
    zerop = match outs[0] {
        Some(c) => top_len - c,
        None => top_len,
    };
    proof {
        assert(solver_clauses(solver).skip(fc.len() as int) =~= cnf_clauses(c0));
        crate::constraints::lemma_tail_units_grow(Seq::<Seq<int>>::empty(), top.output@, 0, z0 as int, zerop as int);
        assert(Seq::<Seq<int>>::empty() + cnf_clauses(c0) =~= cnf_clauses(c0));
    }
    while res && zerop < top_len
        invariant
            enc_ok(e, q, b),
            q == input.deep_view(),
            b == base as int,
            base >= 2,
            l == e.sorter_lst.len(),
            l >= 1,
            sl == e.sorter_lst@,
            top == sl[l - 1],
            top_len == top.output.len(),
            top.output.len() == top.input.len(),
            out_vars(top.output@),
            zerop <= top_len,
            model_of(satmodel@, e),
            fc == cnf_clauses(e.f),
            solver_clauses(solver).take(fc.len() as int) == fc,
            solver_clauses(solver).len() >= fc.len(),
            crate::constraints::tail_units(solver_clauses(solver).skip(fc.len() as int), top.output@, zerop as int),
            res ==> solver_usable(solver),
            res ==> counts(model_asg(satmodel@), sl)[l - 1] == top_len - zerop,
            !res ==> zerop >= 1,
            !res ==> counts(model_asg(satmodel@), sl)[l - 1] == top_len - zerop + 1,
            !res ==> forall|a: spec_fn(int) -> bool|
                #[trigger] cnf_holds(a, fc) ==> counts(a, sl)[l - 1] > top_len - zerop,
        decreases top_len - zerop + if res { 1int } else { 0 },
    {
        zerop += 1;
        let c1 = mk_0cons(&e.sorter_lst, zerop);
        let ghost before = solver_clauses(solver);
        solver_add_formula(&mut solver, &c1);
        proof {
            assert(solver_clauses(solver).take(fc.len() as int) =~= before.take(fc.len() as int));
            assert(solver_clauses(solver).skip(fc.len() as int) =~= before.skip(fc.len() as int) + cnf_clauses(c1));
            crate::constraints::lemma_tail_units_grow(before.skip(fc.len() as int), top.output@, zerop - 1, zerop as int, zerop as int);
        }
        res = match solver_solve(&mut solver) {
            Ok(v) => v,
            Err(msg) => {
                return Err(msg);
            },
        };
        if res {
            let m = match solver_model(&solver) {
                Some(m) => m,
                None => {
                    return Err("the solver gave no model".to_string());
                },
            };
            proof {
                let all = solver_clauses(solver);
                assert(all =~= fc + all.skip(fc.len() as int));
                lemma_model_from_solver(e, m@, all.skip(fc.len() as int));
                lemma_sorter_count(e, q, b, m@, l - 1);
                let a = model_asg(m@);
                assert(all =~= before + cnf_clauses(c1));
                lemma_cnf_holds_concat(a, before, cnf_clauses(c1));
                let c = ones(vals(a, top.input@)) as int;
                lemma_zero_tail(a, top.output@, zerop as int, c);
            }
            satmodel = m;
            let outs = get_sorterouts(&e.sorter_lst, &satmodel);
            let ghost zb = zerop;
            zerop = match outs[0] {
                Some(c) => top_len - c,
                None => top_len,
            };
            proof {
                crate::constraints::lemma_tail_units_grow(
                    solver_clauses(solver).skip(fc.len() as int),
                    top.output@,
                    zb as int,
                    0,
                    zerop as int,
                );
                assert(solver_clauses(solver).skip(fc.len() as int) + crate::constraints::zero_tail(top.output@, 0)
                    =~= solver_clauses(solver).skip(fc.len() as int));
            }
        } else {
            proof {
                let all = solver_clauses(solver);
                assert forall|a: spec_fn(int) -> bool| #[trigger] cnf_holds(a, fc) implies counts(a, sl)[l - 1] > top_len - zerop by {
                    if counts(a, sl)[l - 1] <= top_len - zerop {
                        assert(all_sort(a, sl));
                        lemma_sorted_from_sorts(a, top);
                        crate::constraints::lemma_tail_units_hold(a, all.skip(fc.len() as int), top.output@, zerop as int, counts(a, sl)[l - 1]);
                        assert(all =~= fc + all.skip(fc.len() as int));
                        lemma_cnf_holds_concat(a, fc, all.skip(fc.len() as int));
                        assert(satisfiable(all));
                    }
                }
            }
        }
    }
    if !res {
        zerop -= 1;
    }
    // the top count of the model is the least that any model has
    assert forall|a: spec_fn(int) -> bool| #[trigger] cnf_holds(a, fc) implies counts(a, sl)[l - 1] >= top_len - zerop by {
        if res {
            assert(zerop == top_len);
        }
    }
    let mut zeropos = Vec::<Option<usize>>::new();
    proof {
        assert forall|a: spec_fn(int) -> bool| #[trigger] cnf_holds(a, fc) implies not_below(a, e, zerop as int, zeropos@, b) by {
            if counts(a, sl)[l - 1] == top_len - zerop {
                assert(residues_hold(a, sl, zeropos@, b));
                assert(fixed_above(a, e, zerop as int, zeropos@, b));
            }
        }
        assert(residues_hold(model_asg(satmodel@), sl, zeropos@, b));
    }
    for i in 1..l
        invariant
            enc_ok(e, q, b),
            solqubo_ok(q, b),
            q == input.deep_view(),
            b == base as int,
            base >= 2,
            l == e.sorter_lst.len(),
            l >= 1,
            sl == e.sorter_lst@,
            top == sl[l - 1],
            top_len == top.output.len(),
            zerop <= top_len,
            model_of(satmodel@, e),
            w == tri_coefs(q),
            nb == digit_rows(w, b),
            n == e.n,
            fc == cnf_clauses(e.f),
            forall|k: int| 0 <= k < zeropos.len() ==> (#[trigger] zeropos@[k] matches Some(mk) ==> mk < base),
            zeropos.len() == i - 1,
            aligned(sl, zeropos@),
            fixed_above(model_asg(satmodel@), e, zerop as int, zeropos@, b),
            forall|a: spec_fn(int) -> bool|
                #[trigger] cnf_holds(a, fc) ==> not_below(a, e, zerop as int, zeropos@, b),
    {
        let pos = l - 1 - i;
        let out_len = e.sorter_lst[pos].output.len();
        let ghost zp0 = zeropos@;
        if out_len == 0 {
            zeropos.push(None);
            proof {
                lemma_push_none(e, zerop as int, zp0, b, model_asg(satmodel@));
                assert forall|a: spec_fn(int) -> bool| #[trigger] cnf_holds(a, fc) implies not_below(a, e, zerop as int, zeropos@, b) by {
                    lemma_push_none(e, zerop as int, zp0, b, a);
                }
                assert(aligned(sl, zeropos@)) by {
                    assert forall|k: int| 0 <= k < zeropos@.len() implies (#[trigger] zeropos@[k] is None <==> sl[sl.len() - 2 - k].output.len() == 0) by {
                        if k < zp0.len() {
                            assert(zeropos@[k] == zp0[k]);
                        }
                    }
                }
            }
        } else {
            proof {
                if empty_zero(sl, zeropos@) {
                    let k = choose|k: int|
                        0 <= k < zeropos@.len() && #[trigger] zeropos@[k] == Some(0usize)
                            && sl[sl.len() - 2 - k].output.len() == 0;
                    assert(zeropos@[k] is None);
                }
            }
            match least_residue(&e, Ghost(q), zerop, &zeropos, pos, base) {
                None => {
                    proof {
                        assert(fixed_above(model_asg(satmodel@), e, zerop as int, zeropos@, b));
                    }
                    return Err("the search lost its model".to_string());
                },
                Some((r, m)) => {
                    let ghost am = model_asg(m@);
                    satmodel = m;
                    zeropos.push(Some(r));
                    proof {
                        lemma_push_some(e, zerop as int, zp0, b, am, pos as int, r);
                        assert forall|a: spec_fn(int) -> bool| #[trigger] cnf_holds(a, fc) implies not_below(a, e, zerop as int, zeropos@, b) by {
                            lemma_push_some(e, zerop as int, zp0, b, a, pos as int, r);
                        }
                        assert(aligned(sl, zeropos@)) by {
                            assert forall|k: int| 0 <= k < zeropos@.len() implies (#[trigger] zeropos@[k] is None <==> sl[sl.len() - 2 - k].output.len() == 0) by {
                                if k < zp0.len() {
                                    assert(zeropos@[k] == zp0[k]);
                                }
                            }
                        }
                    }
                },
            }
        }
    }
    proof {
        assert(enc_ok(e, q, b));
        assert(satmodel@.len() >= e.vargen - 1);
    }
    let (v, x) = read_value(&e, &satmodel);
    proof {
        let am = model_asg(satmodel@);
        assert(x@ == x_of(am, n as int));
        assert(qubo_value(q, x@) == v as int);
        assert forall|y: Seq<bool>| y.len() == q.len() implies #[trigger] qubo_value(q, y) >= v as int by {
            assert(crate::encoding::reaches(fc, n as int, y));
            let a = choose|a: spec_fn(int) -> bool| x_of(a, n as int) == y && #[trigger] cnf_holds(a, fc);
            assert(not_below(a, e, zerop as int, zeropos@, b));
            lemma_least(e, q, b, zerop as int, zeropos@, am, a);
        }
    }
    Ok((v, x))
}

/// A sorter without outputs takes `None`, which fixes nothing.
proof fn lemma_push_none(e: Encoding, zerop: int, zp: Seq<Option<usize>>, b: int, a: spec_fn(int) -> bool)
    ensures
        fixed_above(a, e, zerop, zp.push(None), b) == fixed_above(a, e, zerop, zp, b),
        not_below(a, e, zerop, zp, b) ==> not_below(a, e, zerop, zp.push(None), b),
{
    let sl = e.sorter_lst@;
    let zp2 = zp.push(None::<usize>);
    assert(residues_hold(a, sl, zp2, b) == residues_hold(a, sl, zp, b)) by {
        if residues_hold(a, sl, zp, b) {
            assert forall|k: int| 0 <= k < zp2.len() implies (#[trigger] zp2[k] matches Some(mk) ==> ones(
                vals(a, sl[sl.len() - 2 - k].input@),
            ) as int % b == mk) by {
                if k < zp.len() {
                    assert(zp2[k] == zp[k]);
                }
            }
        }
        if residues_hold(a, sl, zp2, b) {
            assert forall|k: int| 0 <= k < zp.len() implies (#[trigger] zp[k] matches Some(mk) ==> ones(
                vals(a, sl[sl.len() - 2 - k].input@),
            ) as int % b == mk) by {
                assert(zp2[k] == zp[k]);
            }
        }
    }
    if not_below(a, e, zerop, zp, b) {
        let top_count = counts(a, sl)[sl.len() - 1];
        let fixed_top = sl[sl.len() - 1].output.len() - zerop;
        if top_count == fixed_top && !fixed_above(a, e, zerop, zp, b) {
            let j = choose|j: int| 0 <= j < zp.len() && #[trigger] lex_at(a, sl, zp, b, j);
            assert(zp2.take(j) =~= zp.take(j));
            assert(zp2[j] == zp[j]);
            assert(lex_at(a, sl, zp2, b, j));
        }
    }
}

/// The least residue `r` found in place `zp.len()` keeps the models no better than the search.
proof fn lemma_push_some(
    e: Encoding,
    zerop: int,
    zp: Seq<Option<usize>>,
    b: int,
    a: spec_fn(int) -> bool,
    pos: int,
    r: usize,
)
    requires
        e.sorter_lst.len() >= 1,
        pos == e.sorter_lst.len() - 2 - zp.len(),
        0 <= pos,
        fixed_above(a, e, zerop, zp, b) ==> counts(a, e.sorter_lst@)[pos] % b >= r,
    ensures
        fixed_above(a, e, zerop, zp, b) && counts(a, e.sorter_lst@)[pos] % b == r ==> fixed_above(a, e, zerop, zp.push(Some(r)), b),
        not_below(a, e, zerop, zp, b) ==> not_below(a, e, zerop, zp.push(Some(r)), b),
{
    let sl = e.sorter_lst@;
    let zp2 = zp.push(Some(r));
    assert(zp2.take(zp.len() as int) =~= zp);
    if residues_hold(a, sl, zp, b) && counts(a, sl)[pos] % b == r {
        assert forall|k: int| 0 <= k < zp2.len() implies (#[trigger] zp2[k] matches Some(mk) ==> ones(
            vals(a, sl[sl.len() - 2 - k].input@),
        ) as int % b == mk) by {
            if k < zp.len() {
                assert(zp2[k] == zp[k]);
            } else {
                assert(sl.len() - 2 - k == pos);
                assert(counts(a, sl)[pos] == ones(vals(a, sl[pos].input@)) as int);
            }
        }
    }
    if not_below(a, e, zerop, zp, b) {
        let top_count = counts(a, sl)[sl.len() - 1];
        let fixed_top = sl[sl.len() - 1].output.len() - zerop;
        if top_count == fixed_top {
            if fixed_above(a, e, zerop, zp, b) {
                if counts(a, sl)[pos] % b > r {
                    assert(lex_at(a, sl, zp2, b, zp.len() as int));
                }
            } else {
                let j = choose|j: int| 0 <= j < zp.len() && #[trigger] lex_at(a, sl, zp, b, j);
                assert(zp2.take(j) =~= zp.take(j));
                assert(zp2[j] == zp[j]);
                assert(lex_at(a, sl, zp2, b, j));
            }
        }
    }
}

/// Optimization mode: the least value of `x^T Q x` (with `tabus`, the search starts from the
/// bound that a tabu search gives).
pub fn solqubo(input: Vec<Vec<i32>>, base: i32, tabus: bool) -> (r: Result<i32, String>)
    requires
        solqubo_ok(input.deep_view(), base as int),
    ensures
        r is Ok,
        r matches Ok(v) ==> is_min(input.deep_view(), v as int),
{
    match solve_qubo(&input, base, tabus) {
        Ok((v, _)) => Ok(v),
        Err(msg) => Err(msg),
    }
}

} // verus!
