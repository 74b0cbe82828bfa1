//! What the searches share: models of the encoding, loading a solver, and the residue
//! constraints on the lower sorters.
use vstd::prelude::*;
use varisat::solver::Solver;
use crate::cnf::{
    agree_below, clauses_within, lemma_clauses_within_concat, lemma_clauses_within_mono,
    lemma_holds_agree, cnf_clauses, cnf_holds, lemma_cnf_holds_concat, lemma_max_var_concat, max_var, model_asg,
    model_wf, solver_add_formula, solver_clauses, solver_new, solver_usable,
    MAX_VAR,
};
use crate::constraints::{first_false, lemma_first_false, mk_0cons_mod, out_vars, residue_room, sorted_count};
use crate::encoding::{digit_rows, enc_ok, room_sum, slen_max, Encoding};
use crate::qubo::tri_coefs;
use crate::sortlaw::{lemma_ones_le, ones};
use crate::sorter::{lemma_cnf_holds_prefix, sorter_sorts, sorter_vars, vals, Sorter};

verus! {

/// A model of the encoding: well formed, covering every variable of the encoding, and
/// satisfying its clauses.
pub open spec fn model_of(m: Seq<isize>, e: Encoding) -> bool {
    &&& model_wf(m)
    &&& m.len() >= e.vargen - 1
    &&& cnf_holds(model_asg(m), cnf_clauses(e.f))
}

/// Fresh variables that residue constraints on sorters `lo..hi` may take.
pub open spec fn rooms(sl: Seq<Sorter>, lo: int, hi: int, b: int) -> int
    decreases hi - lo,
{
    if hi <= lo { 0 } else { rooms(sl, lo, hi - 1, b) + residue_room(sl[hi - 1].output.len() as int, b) }
}

/// The longest output of the first `hi` sorters (`0` for none).
pub open spec fn out_max(sl: Seq<Sorter>, hi: int) -> int
    decreases hi,
{
    if hi <= 0 {
        0
    } else {
        let m = out_max(sl, hi - 1);
        if sl[hi - 1].output.len() > m { sl[hi - 1].output.len() as int } else { m }
    }
}

pub proof fn lemma_rooms_split(sl: Seq<Sorter>, lo: int, mid: int, hi: int, b: int)
    requires
        lo <= mid <= hi,
        b >= 2,
    ensures
        rooms(sl, lo, hi, b) == rooms(sl, lo, mid, b) + rooms(sl, mid, hi, b),
        rooms(sl, lo, mid, b) >= 0,
        rooms(sl, mid, hi, b) >= 0,
    decreases hi - mid,
{
    if mid < hi {
        lemma_rooms_split(sl, lo, mid, hi - 1, b);
        vstd::arithmetic::div_mod::lemma_div_pos_is_pos(sl[hi - 1].output.len() + b - 2, b);
    }
    lemma_rooms_nonneg(sl, lo, mid, b);
    lemma_rooms_nonneg(sl, mid, hi, b);
}

pub proof fn lemma_rooms_nonneg(sl: Seq<Sorter>, lo: int, hi: int, b: int)
    requires
        b >= 2,
    ensures
        rooms(sl, lo, hi, b) >= 0,
    decreases hi - lo,
{
    if lo < hi {
        lemma_rooms_nonneg(sl, lo, hi - 1, b);
        vstd::arithmetic::div_mod::lemma_div_pos_is_pos(sl[hi - 1].output.len() + b - 2, b);
    }
}

/// Every one of the first `hi` sorters is at most `out_max(sl, hi)` long.
pub proof fn lemma_out_max(sl: Seq<Sorter>, hi: int, i: int)
    requires
        0 <= i < hi,
    ensures
        sl[i].output.len() <= out_max(sl, hi),
        out_max(sl, hi) >= 0,
    decreases hi,
{
    if i < hi - 1 {
        lemma_out_max(sl, hi - 1, i);
    } else if hi > 1 {
        lemma_out_max(sl, hi - 1, 0);
    }
}

/// On the sorters of an encoding, `rooms` and `out_max` are `room_sum` and `slen_max`.
pub proof fn lemma_rooms_total(e: Encoding, q: Seq<Seq<i32>>, b: int, l: int)
    requires
        enc_ok(e, q, b),
        0 <= l <= e.sorter_lst.len(),
    ensures
        rooms(e.sorter_lst@, 0, l, b) == room_sum(digit_rows(tri_coefs(q), b), b, q.len() as int, l),
        out_max(e.sorter_lst@, l) == slen_max(digit_rows(tri_coefs(q), b), b, q.len() as int, l),
    decreases l,
{
    if l > 0 {
        lemma_rooms_total(e, q, b, l - 1);
        assert(crate::sorter::sorter_shape(
            e.sorter_lst@,
            digit_rows(tri_coefs(q), b),
            q.len() as int,
            b,
            l - 1,
        ));
    }
}

/// In a model of the encoding, sorter `i` outputs its count of `true`s at the front, and
/// the first false output is at that count.
pub proof fn lemma_sorter_count(e: Encoding, q: Seq<Seq<i32>>, b: int, m: Seq<isize>, i: int)
    requires
        enc_ok(e, q, b),
        model_of(m, e),
        0 <= i < e.sorter_lst.len(),
    ensures
        sorted_count(
            model_asg(m),
            e.sorter_lst@[i].output@,
            ones(vals(model_asg(m), e.sorter_lst@[i].input@)) as int,
        ),
        first_false(m, e.sorter_lst@[i].output@, 0) == ones(
            vals(model_asg(m), e.sorter_lst@[i].input@),
        ),
        out_vars(e.sorter_lst@[i].output@),
{
    let a = model_asg(m);
    let s = e.sorter_lst@[i];
    assert(sorter_sorts(a, s));
    assert(sorter_vars(s, e.vargen as int));
    assert(crate::sorter::sorter_shape(e.sorter_lst@, digit_rows(tri_coefs(q), b), q.len() as int, b, i));
    lemma_ones_le(vals(a, s.input@));
    let c = ones(vals(a, s.input@)) as int;
    assert(sorted_count(a, s.output@, c));
    lemma_first_false(m, s.output@, c, 0);
}

/// Loads the encoding's clauses and `extra` into a fresh solver.
pub fn load(f: &varisat::CnfFormula, extra: &varisat::CnfFormula) -> (s: Solver<'static>)
    ensures
        solver_clauses(s) == cnf_clauses(*f) + cnf_clauses(*extra),
        solver_usable(s),
{
    let mut s = solver_new();
    solver_add_formula(&mut s, f);
    solver_add_formula(&mut s, extra);
    assert(solver_clauses(s) =~= cnf_clauses(*f) + cnf_clauses(*extra));
    s
}

/// What a model of a solver loaded with the encoding's clauses first gives.
pub proof fn lemma_model_from_solver(e: Encoding, m: Seq<isize>, rest: Seq<Seq<int>>)
    requires
        model_wf(m),
        m.len() == max_var(cnf_clauses(e.f) + rest),
        cnf_holds(model_asg(m), cnf_clauses(e.f) + rest),
        max_var(cnf_clauses(e.f)) >= e.vargen - 1,
    ensures
        model_of(m, e),
        cnf_holds(model_asg(m), rest),
{
    lemma_cnf_holds_concat(model_asg(m), cnf_clauses(e.f), rest);
    lemma_max_var_concat(cnf_clauses(e.f), rest);
}



/// Under `a`, the count of each sorter that `zeropos` names has the residue it gives:
/// entry `k` speaks of sorter `len - 2 - k`.
pub open spec fn residues_hold(a: spec_fn(int) -> bool, sl: Seq<Sorter>, zeropos: Seq<Option<usize>>, b: int) -> bool {
    forall|k: int|
        0 <= k < zeropos.len() ==> (#[trigger] zeropos[k] matches Some(mk) ==> ones(
            vals(a, sl[sl.len() - 2 - k].input@),
        ) as int % b == mk)
}

/// Some entry asks residue `0` of a sorter without outputs.
pub open spec fn empty_zero(sl: Seq<Sorter>, zeropos: Seq<Option<usize>>) -> bool {
    exists|k: int|
        0 <= k < zeropos.len() && #[trigger] zeropos[k] == Some(0usize) && sl[sl.len() - 2 - k].output.len() == 0
}

/// Every sorter sorts under `a`.
pub open spec fn all_sort(a: spec_fn(int) -> bool, sl: Seq<Sorter>) -> bool {
    forall|i: int| 0 <= i < sl.len() ==> sorter_sorts(a, #[trigger] sl[i])
}

/// Where a sorter sorts, its outputs hold its count at the front.
pub proof fn lemma_sorted_from_sorts(a: spec_fn(int) -> bool, s: Sorter)
    requires
        sorter_sorts(a, s),
        s.output.len() == s.input.len(),
    ensures
        sorted_count(a, s.output@, ones(vals(a, s.input@)) as int),
{
    lemma_ones_le(vals(a, s.input@));
}

/// Assignments that agree below `bound` give the same values to a list of variables below it.
pub proof fn lemma_vals_agree(a: spec_fn(int) -> bool, a2: spec_fn(int) -> bool, l: Seq<usize>, bound: int)
    requires
        crate::sorter::below(l, bound),
        agree_below(a2, a, bound),
    ensures
        vals(a2, l) == vals(a, l),
{
    assert forall|i: int| 0 <= i < l.len() implies #[trigger] vals(a2, l)[i] == vals(a, l)[i] by {
        if l[i] != 0 {
            assert(a2(l[i] as int) == a(l[i] as int));
        }
    }
    assert(vals(a2, l) =~= vals(a, l));
}

/// Assignments that agree below `bound` sort the same sorters, with the same counts.
pub proof fn lemma_sorters_agree(a: spec_fn(int) -> bool, a2: spec_fn(int) -> bool, sl: Seq<Sorter>, bound: int)
    requires
        forall|i: int| 0 <= i < sl.len() ==> sorter_vars(#[trigger] sl[i], bound),
        agree_below(a2, a, bound),
    ensures
        all_sort(a2, sl) == all_sort(a, sl),
        forall|i: int| 0 <= i < sl.len() ==> #[trigger] vals(a2, sl[i].input@) == vals(a, sl[i].input@),
        forall|i: int| 0 <= i < sl.len() ==> #[trigger] vals(a2, sl[i].output@) == vals(a, sl[i].output@),
{
    assert forall|i: int| 0 <= i < sl.len() implies #[trigger] vals(a2, sl[i].input@) == vals(a, sl[i].input@)
        && vals(a2, sl[i].output@) == vals(a, sl[i].output@) by {
        assert(sorter_vars(sl[i], bound));
        lemma_vals_agree(a, a2, sl[i].input@, bound);
        lemma_vals_agree(a, a2, sl[i].output@, bound);
    }
    assert forall|i: int| 0 <= i < sl.len() implies sorter_sorts(a2, #[trigger] sl[i]) == sorter_sorts(a, sl[i]) by {
        assert(vals(a2, sl[i].input@) == vals(a, sl[i].input@));
        assert(vals(a2, sl[i].output@) == vals(a, sl[i].output@));
    }
    if all_sort(a, sl) {
        assert forall|i: int| 0 <= i < sl.len() implies sorter_sorts(a2, #[trigger] sl[i]) by {
            assert(sorter_sorts(a, sl[i]));
        }
    }
    if all_sort(a2, sl) {
        assert forall|i: int| 0 <= i < sl.len() implies sorter_sorts(a, #[trigger] sl[i]) by {
            assert(sorter_sorts(a2, sl[i]));
        }
    }
}

/// Adds to `s`, for each entry `Some(mk)` of `zeropos`, the constraint that the count of
/// sorter `len - 2 - k` is `mk` modulo `base` (`mk_0cons_mod`). Fails, having added part of
/// them, where an entry asks residue `0` of a sorter without outputs.
pub fn add_residues(
    s: &mut Solver<'static>,
    sl: &Vec<Sorter>,
    zeropos: &Vec<Option<usize>>,
    base: usize,
    vg: &mut usize,
) -> (r: Result<(), String>)
    requires
        sl.len() >= 1,
        zeropos.len() <= sl.len() - 1,
        2 <= base <= i32::MAX,
        forall|k: int| 0 <= k < zeropos.len() ==> (#[trigger] zeropos@[k] matches Some(mk) ==> mk < base),
        forall|i: int| 0 <= i < sl.len() ==> sorter_vars(#[trigger] sl@[i], *old(vg) as int),
        forall|i: int| 0 <= i < sl.len() ==> #[trigger] sl@[i].output.len() == sl@[i].input.len(),
        1 <= *old(vg),
        *old(vg) + rooms(sl@, 0, sl.len() - 1, base as int) + out_max(sl@, sl.len() - 1) <= MAX_VAR + 1,
        clauses_within(solver_clauses(*old(s)), *old(vg) as int),
    ensures
        clauses_within(solver_clauses(*final(s)), *final(vg) as int),
        r is Ok ==> forall|a: spec_fn(int) -> bool|
            #[trigger] cnf_holds(a, solver_clauses(*old(s))) && all_sort(a, sl@) && residues_hold(a, sl@, zeropos@, base as int)
                ==> exists|a2: spec_fn(int) -> bool| agree_below(a2, a, *old(vg) as int) && #[trigger] cnf_holds(a2, solver_clauses(*final(s))),
        *old(vg) <= *final(vg),
        *final(vg) <= *old(vg) + rooms(sl@, sl.len() - 1 - zeropos.len(), sl.len() - 1, base as int),
        solver_clauses(*final(s)).take(solver_clauses(*old(s)).len() as int) == solver_clauses(*old(s)),
        solver_clauses(*final(s)).len() >= solver_clauses(*old(s)).len(),
        solver_usable(*final(s)) == solver_usable(*old(s)),
        r is Ok <==> !empty_zero(sl@, zeropos@),
        r is Ok ==> forall|a: spec_fn(int) -> bool|
            #[trigger] cnf_holds(a, solver_clauses(*final(s)).skip(solver_clauses(*old(s)).len() as int))
                && all_sort(a, sl@) ==> residues_hold(a, sl@, zeropos@, base as int),
{
    let l = sl.len();
    let ghost s0 = solver_clauses(*s);
    let ghost v0 = *vg;
    let ghost b = base as int;
    proof {
        lemma_rooms_split(sl@, 0, l - 1 - zeropos.len(), l - 1, b);
        if l >= 2 {
            lemma_out_max(sl@, l - 1, 0);
        }
        assert(solver_clauses(*s).skip(s0.len() as int) =~= Seq::<Seq<int>>::empty());
        assert forall|a: spec_fn(int) -> bool|
            #[trigger] cnf_holds(a, s0) && all_sort(a, sl@) && residues_hold(a, sl@, zeropos@, b)
            implies exists|a2: spec_fn(int) -> bool| agree_below(a2, a, v0 as int) && #[trigger] cnf_holds(a2, solver_clauses(*s)) by {
            assert(agree_below(a, a, v0 as int));
        }
    }
    for k in 0..zeropos.len()
        invariant
            l == sl.len(),
            l >= 1,
            zeropos.len() <= l - 1,
            2 <= base <= i32::MAX,
            b == base as int,
            forall|k2: int| 0 <= k2 < zeropos.len() ==> (#[trigger] zeropos@[k2] matches Some(mk) ==> mk < base),
            forall|i: int| 0 <= i < sl.len() ==> sorter_vars(#[trigger] sl@[i], v0 as int),
            forall|i: int| 0 <= i < sl.len() ==> #[trigger] sl@[i].output.len() == sl@[i].input.len(),
            1 <= v0,
            v0 == *old(vg),
            s0 == solver_clauses(*old(s)),
            clauses_within(solver_clauses(*s), *vg as int),
            forall|a: spec_fn(int) -> bool|
                #[trigger] cnf_holds(a, s0) && all_sort(a, sl@) && residues_hold(a, sl@, zeropos@, b)
                    ==> exists|a2: spec_fn(int) -> bool| agree_below(a2, a, v0 as int) && #[trigger] cnf_holds(a2, solver_clauses(*s)),
            solver_usable(*s) == solver_usable(*old(s)),
            v0 + rooms(sl@, 0, l - 1, b) + out_max(sl@, l - 1) <= MAX_VAR + 1,
            v0 <= *vg <= v0 + rooms(sl@, l - 1 - k, l - 1, b),
            solver_clauses(*s).take(s0.len() as int) == s0,
            solver_clauses(*s).len() >= s0.len(),
            !empty_zero(sl@, zeropos@.take(k as int)),
            forall|a: spec_fn(int) -> bool|
                #[trigger] cnf_holds(a, solver_clauses(*s).skip(s0.len() as int)) && all_sort(a, sl@)
                    ==> residues_hold(a, sl@, zeropos@.take(k as int), b),
    {
        let ghost before = solver_clauses(*s);
        let ghost zk = zeropos@.take(k as int);
        let ghost zk1 = zeropos@.take(k + 1);
        let pos = l - 2 - k;
        proof {
            lemma_rooms_split(sl@, 0, pos as int, l - 1 - k, b);
            lemma_rooms_split(sl@, pos as int, l - 1 - k, l - 1, b);
            lemma_rooms_split(sl@, 0, l - 1 - k, l - 1, b);
            assert(rooms(sl@, pos as int, l - 1 - k, b) == residue_room(sl@[pos as int].output.len() as int, b)) by {
                reveal_with_fuel(rooms, 2);
            }
            lemma_out_max(sl@, l - 1, pos as int);
        }
        match zeropos[k] {
            Some(mk) => {
                if mk == 0 && sl[pos].output.len() == 0 {
                    proof {
                        lemma_rooms_split(sl@, l - 1 - zeropos.len(), l - 1 - k, l - 1, b);
                        assert(*vg <= v0 + rooms(sl@, l - 1 - zeropos.len(), l - 1, b));
                        assert(zeropos@[k as int] == Some(0usize));
                        assert(sl@.len() - 2 - k == pos);
                    }
                    return Err("a residue was asked of a sorter without outputs".to_string());
                }
                proof {
                    assert(sorter_vars(sl@[pos as int], v0 as int));
                    assert forall|t: int| 0 <= t < sl@[pos as int].output.len() implies 1 <= #[trigger] sl@[pos as int].output@[t] <= MAX_VAR by {
                        assert(sl@[pos as int].output@[t] < v0);
                    }
                    assert forall|t: int| 0 <= t < sl@[pos as int].output.len() implies #[trigger] sl@[pos as int].output@[t] < *vg by {
                        assert(sl@[pos as int].output@[t] < v0);
                    }
                }
                let ghost vb = *vg;
                proof {
                    crate::constraints::lemma_steps_room(mk as int, sl@[pos as int].output.len() as int, b);
                }
                let h = mk_0cons_mod(sl, pos, mk, base, vg);
                solver_add_formula(s, &h);
                proof {
                    let hc0 = cnf_clauses(h);
                    lemma_clauses_within_mono(before, vb as int, *vg as int);
                    assert(solver_clauses(*s) =~= before + hc0);
                    lemma_clauses_within_concat(before, hc0, *vg as int, *vg as int);
                    assert forall|a: spec_fn(int) -> bool|
                        #[trigger] cnf_holds(a, s0) && all_sort(a, sl@) && residues_hold(a, sl@, zeropos@, b)
                        implies exists|a2: spec_fn(int) -> bool| agree_below(a2, a, v0 as int) && #[trigger] cnf_holds(a2, solver_clauses(*s)) by {
                        let a2 = choose|a2: spec_fn(int) -> bool| agree_below(a2, a, v0 as int) && #[trigger] cnf_holds(a2, before);
                        assert(cnf_holds(a2, Seq::<Seq<int>>::empty()));
                        let a3 = choose|a3: spec_fn(int) -> bool| agree_below(a3, a2, vb as int) && #[trigger] cnf_holds(a3, hc0.drop_last());
                        lemma_holds_agree(a2, a3, before, vb as int);
                        assert(agree_below(a3, a, v0 as int));
                        lemma_sorters_agree(a, a3, sl@, v0 as int);
                        let sp = sl@[pos as int];
                        assert(sorter_sorts(a3, sp));
                        lemma_sorted_from_sorts(a3, sp);
                        assert(vals(a3, sp.input@) == vals(a, sp.input@));
                        assert(zeropos@[k as int] == Some(mk));
                        assert(sl@.len() - 2 - k == pos);
                        assert(ones(vals(a, sp.input@)) as int % b == mk);
                        assert(cnf_holds(a3, hc0));
                        lemma_cnf_holds_concat(a3, before, hc0);
                    }
                }
                proof {
                    let hc = cnf_clauses(h);
                    let prev = before.skip(s0.len() as int);
                    let now = solver_clauses(*s).skip(s0.len() as int);
                    assert(now =~= prev + hc);
                    assert(solver_clauses(*s).take(s0.len() as int) =~= s0);
                    assert forall|a: spec_fn(int) -> bool|
                        #[trigger] cnf_holds(a, solver_clauses(*s).skip(s0.len() as int)) && all_sort(a, sl@)
                        implies residues_hold(a, sl@, zk1, b) by {
                        lemma_cnf_holds_concat(a, prev, hc);
                        assert(residues_hold(a, sl@, zk, b));
                        let sp = sl@[pos as int];
                        assert(sorter_sorts(a, sp));
                        lemma_sorted_from_sorts(a, sp);
                        let c = ones(vals(a, sp.input@)) as int;
                        lemma_cnf_holds_prefix(a, hc, hc.len() - 1);
                        assert(hc.take(hc.len() - 1) =~= hc.drop_last());
                        assert(sorted_count(a, sp.output@, c));
                        assert(c % b == mk);
                        assert forall|k2: int| 0 <= k2 < zk1.len() implies (#[trigger] zk1[k2] matches Some(mk2) ==> ones(
                            vals(a, sl@[sl@.len() - 2 - k2].input@),
                        ) as int % b == mk2) by {
                            if k2 < k {
                                assert(zk1[k2] == zk[k2]);
                            }
                        }
                    }
                    assert(!empty_zero(sl@, zk1)) by {
                        if empty_zero(sl@, zk1) {
                            let k2 = choose|k2: int| 0 <= k2 < zk1.len() && #[trigger] zk1[k2] == Some(0usize) && sl@[sl@.len() - 2 - k2].output.len() == 0;
                            if k2 < k {
                                assert(zk[k2] == zk1[k2]);
                            }
                        }
                    }
                }
            },
            None => {
                proof {
                    lemma_clauses_within_mono(before, *vg as int, *vg as int);
                    assert forall|a: spec_fn(int) -> bool|
                        #[trigger] cnf_holds(a, solver_clauses(*s).skip(s0.len() as int)) && all_sort(a, sl@)
                        implies residues_hold(a, sl@, zk1, b) by {
                        assert(residues_hold(a, sl@, zk, b));
                        assert forall|k2: int| 0 <= k2 < zk1.len() implies (#[trigger] zk1[k2] matches Some(mk2) ==> ones(
                            vals(a, sl@[sl@.len() - 2 - k2].input@),
                        ) as int % b == mk2) by {
                            if k2 < k {
                                assert(zk1[k2] == zk[k2]);
                            }
                        }
                    }
                    assert(!empty_zero(sl@, zk1)) by {
                        if empty_zero(sl@, zk1) {
                            let k2 = choose|k2: int| 0 <= k2 < zk1.len() && #[trigger] zk1[k2] == Some(0usize) && sl@[sl@.len() - 2 - k2].output.len() == 0;
                            if k2 < k {
                                assert(zk[k2] == zk1[k2]);
                            }
                        }
                    }
                }
            },
        }
    }
    proof {
        assert(zeropos@.take(zeropos.len() as int) =~= zeropos@);
    }
    Ok(())
}

} // verus!
