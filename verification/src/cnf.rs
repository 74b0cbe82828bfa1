//! Clauses, assignments and the SAT solver that decides them.
use vstd::prelude::*;
use varisat::{CnfFormula, ExtendFormula, Lit};
use varisat::solver::Solver;

verus! {

/// Largest variable number that the solver accepts (in DIMACS numbering).
pub const MAX_VAR: usize = 268435456;

/// An assignment gives each variable (a positive integer) a truth value.
pub open spec fn lit_holds(a: spec_fn(int) -> bool, l: int) -> bool {
    if l > 0 { a(l) } else { !a(-l) }
}

pub open spec fn clause_holds(a: spec_fn(int) -> bool, c: Seq<int>) -> bool {
    exists|i: int| 0 <= i < c.len() && lit_holds(a, #[trigger] c[i])
}

pub open spec fn cnf_holds(a: spec_fn(int) -> bool, cs: Seq<Seq<int>>) -> bool {
    forall|i: int| 0 <= i < cs.len() ==> clause_holds(a, #[trigger] cs[i])
}

pub open spec fn satisfiable(cs: Seq<Seq<int>>) -> bool {
    exists|a: spec_fn(int) -> bool| cnf_holds(a, cs)
}

/// A literal that the solver can take: a nonzero variable number within its range.
pub open spec fn valid_lit(l: int) -> bool {
    l != 0 && -(MAX_VAR as int) <= l <= MAX_VAR as int
}

pub open spec fn as_ints(c: Seq<isize>) -> Seq<int> {
    c.map_values(|l: isize| l as int)
}

/// Largest variable that occurs in a clause list.
pub open spec fn max_var(cs: Seq<Seq<int>>) -> int
    decreases cs.len(),
{
    if cs.len() == 0 {
        0
    } else {
        let m = max_var(cs.drop_last());
        let c = max_var_clause(cs.last());
        if m < c { c } else { m }
    }
}

pub open spec fn max_var_clause(c: Seq<int>) -> int
    decreases c.len(),
{
    if c.len() == 0 {
        0
    } else {
        let m = max_var_clause(c.drop_last());
        let l = c.last();
        let v = if l < 0 { -l } else { l };
        if m < v { v } else { m }
    }
}

/// A model as the solver reports it: entry `i` is `i + 1` or `-(i + 1)`.
pub open spec fn model_wf(m: Seq<isize>) -> bool {
    forall|i: int| 0 <= i < m.len() ==> (#[trigger] m[i] == i + 1 || m[i] == -(i + 1))
}

/// The assignment that a model stands for.
pub open spec fn model_asg(m: Seq<isize>) -> spec_fn(int) -> bool {
    |v: int| 1 <= v <= m.len() && m[v - 1] > 0
}

#[verifier::external_type_specification]
#[verifier::external_body]
pub struct ExCnfFormula(CnfFormula);

#[verifier::external_type_specification]
#[verifier::external_body]
pub struct ExSolver<'a>(Solver<'a>);

/// The clauses that a formula holds, in the order they were added.
pub uninterp spec fn cnf_clauses(f: CnfFormula) -> Seq<Seq<int>>;

/// The clauses loaded into a solver, in the order they were added.
pub uninterp spec fn solver_clauses(s: Solver) -> Seq<Seq<int>>;

/// The solver neither writes nor checks a proof (it was made by `Solver::new` and given
/// only clauses), so none of the solver's errors, which all come from proof handling, can
/// arise in it.
pub uninterp spec fn solver_usable(s: Solver) -> bool;

/// The last `solve` of the solver found the loaded clauses satisfiable, so that it holds a
/// model.
pub uninterp spec fn solver_has_model(s: Solver) -> bool;

/// `CnfFormula::new`: an empty formula.
#[verifier::external_body]
pub(crate) fn cnf_new() -> (f: CnfFormula)
    ensures
        cnf_clauses(f) == Seq::<Seq<int>>::empty(),
{
    CnfFormula::new()
}

/// `ExtendFormula::add_clause` on a `CnfFormula`, with literals in DIMACS numbering
/// (`Lit::from_dimacs`): the clause is appended as it is given.
#[verifier::external_body]
pub(crate) fn cnf_add_clause(f: &mut CnfFormula, clause: &[isize])
    requires
        forall|i: int| 0 <= i < clause.len() ==> valid_lit(#[trigger] clause[i] as int),
    ensures
        cnf_clauses(*final(f)) == cnf_clauses(*old(f)).push(as_ints(clause@)),
{
    let lits: Vec<Lit> = clause.iter().map(|&l| Lit::from_dimacs(l)).collect();
    f.add_clause(&lits);
}

/// `Solver::new`: a usable solver that holds no clause.
#[verifier::external_body]
pub(crate) fn solver_new() -> (s: Solver<'static>)
    ensures
        solver_clauses(s) == Seq::<Seq<int>>::empty(),
        solver_usable(s),
{
    Solver::new()
}

/// `Solver::add_formula`: the formula's clauses are added to those of the solver.
#[verifier::external_body]
pub(crate) fn solver_add_formula(s: &mut Solver<'static>, f: &CnfFormula)
    ensures
        solver_clauses(*final(s)) == solver_clauses(*old(s)) + cnf_clauses(*f),
        solver_usable(*final(s)) == solver_usable(*old(s)),
{
    s.add_formula(f)
}

/// `Solver::solve`: `Ok(true)` when the loaded clauses are satisfiable, `Ok(false)` when
/// they are not. Its errors come only from writing or checking a proof, so a solver that does
/// neither gets an answer (an error would come back as its message). The loaded clauses stay
/// as they are, the solver stays as it was made, and after `Ok(true)` it holds a model.
#[verifier::external_body]
pub(crate) fn solver_solve(s: &mut Solver<'static>) -> (r: Result<bool, String>)
    requires
        solver_usable(*old(s)),
    ensures
        solver_clauses(*final(s)) == solver_clauses(*old(s)),
        r is Ok,
        solver_usable(*final(s)),
        r == Ok::<bool, String>(true) ==> satisfiable(solver_clauses(*old(s))),
        r == Ok::<bool, String>(false) ==> !satisfiable(solver_clauses(*old(s))),
        r == Ok::<bool, String>(true) ==> solver_has_model(*final(s)),
{
    s.solve().map_err(|e| e.to_string())
}

/// `Solver::model`, with literals in DIMACS numbering (`Lit::to_dimacs`): when there is one,
/// entry `i` gives variable `i + 1`, every variable up to the largest loaded one has its
/// entry, and the assignment satisfies every loaded clause. It is there whenever the last
/// `solve` found the clauses satisfiable. Which satisfying assignment it is, the solver's
/// search decides; the contract leaves that open.
#[verifier::external_body]
pub(crate) fn solver_model(s: &Solver<'static>) -> (r: Option<Vec<isize>>)
    ensures
        solver_has_model(*s) ==> r is Some,
        r matches Some(m) ==> {
            &&& model_wf(m@)
            &&& m@.len() == max_var(solver_clauses(*s))
            &&& cnf_holds(model_asg(m@), solver_clauses(*s))
        },
{
    s.model().map(|m| m.iter().map(|l| l.to_dimacs()).collect())
}

/// Every literal of every clause names a variable in `1..bound`.
pub open spec fn clauses_within(cs: Seq<Seq<int>>, bound: int) -> bool {
    forall|i: int, k: int|
        0 <= i < cs.len() && 0 <= k < cs[i].len() ==> {
            &&& 1 <= #[trigger] cs[i][k] < bound || (1 <= -cs[i][k] && -cs[i][k] < bound)
        }
}

/// `a2` and `a` give the same value to every variable below `bound`.
pub open spec fn agree_below(a2: spec_fn(int) -> bool, a: spec_fn(int) -> bool, bound: int) -> bool {
    forall|v: int| 1 <= v < bound ==> #[trigger] a2(v) == a(v)
}

/// The clauses fix the variables in `lo..hi` from those below `lo`: any two of their
/// models that agree below `lo` agree below `hi`.
pub open spec fn fixes(cs: Seq<Seq<int>>, lo: int, hi: int) -> bool {
    forall|a1: spec_fn(int) -> bool, a2: spec_fn(int) -> bool|
        #[trigger] cnf_holds(a1, cs) && #[trigger] cnf_holds(a2, cs) && agree_below(a1, a2, lo) ==> agree_below(
            a1,
            a2,
            hi,
        )
}

/// Clauses that fix `lo..mid`, then clauses that fix `mid..hi`, together fix `lo..hi`.
pub proof fn lemma_fixes_concat(c1: Seq<Seq<int>>, c2: Seq<Seq<int>>, lo: int, mid: int, hi: int)
    requires
        fixes(c1, lo, mid),
        fixes(c2, mid, hi),
    ensures
        fixes(c1 + c2, lo, hi),
{
    assert forall|a1: spec_fn(int) -> bool, a2: spec_fn(int) -> bool|
        #[trigger] cnf_holds(a1, c1 + c2) && #[trigger] cnf_holds(a2, c1 + c2) && agree_below(a1, a2, lo) implies agree_below(
        a1,
        a2,
        hi,
    ) by {
        lemma_cnf_holds_concat(a1, c1, c2);
        lemma_cnf_holds_concat(a2, c1, c2);
        assert(cnf_holds(a1, c1) && cnf_holds(a2, c1));
        assert(agree_below(a1, a2, mid));
        assert(cnf_holds(a1, c2) && cnf_holds(a2, c2));
    }
}

/// Without new variables there is nothing to fix.
pub proof fn lemma_fixes_none(cs: Seq<Seq<int>>, lo: int)
    ensures
        fixes(cs, lo, lo),
{
}

/// Every assignment that satisfies `old` can be changed on the variables from `bound` on
/// so that it satisfies `new`.
pub open spec fn extends(old: Seq<Seq<int>>, new: Seq<Seq<int>>, bound: int) -> bool {
    forall|a: spec_fn(int) -> bool|
        #[trigger] cnf_holds(a, old) ==> exists|a2: spec_fn(int) -> bool|
            agree_below(a2, a, bound) && #[trigger] cnf_holds(a2, new)
}

/// Clauses over the variables below `bound` hold alike under assignments that agree there.
pub proof fn lemma_holds_agree(a: spec_fn(int) -> bool, a2: spec_fn(int) -> bool, cs: Seq<Seq<int>>, bound: int)
    requires
        clauses_within(cs, bound),
        agree_below(a2, a, bound),
    ensures
        cnf_holds(a2, cs) == cnf_holds(a, cs),
{
    assert forall|i: int| 0 <= i < cs.len() implies clause_holds(a2, #[trigger] cs[i]) == clause_holds(a, cs[i]) by {
        let c = cs[i];
        assert forall|k: int| 0 <= k < c.len() implies lit_holds(a2, #[trigger] c[k]) == lit_holds(a, c[k]) by {
            assert(1 <= cs[i][k] < bound || (1 <= -cs[i][k] && -cs[i][k] < bound));
            if c[k] > 0 {
                assert(a2(c[k]) == a(c[k]));
            } else {
                assert(a2(-c[k]) == a(-c[k]));
            }
        }
        if clause_holds(a2, c) {
            let k = choose|k: int| 0 <= k < c.len() && lit_holds(a2, #[trigger] c[k]);
            assert(lit_holds(a, c[k]));
        }
        if clause_holds(a, c) {
            let k = choose|k: int| 0 <= k < c.len() && lit_holds(a, #[trigger] c[k]);
            assert(lit_holds(a2, c[k]));
        }
    }
}

pub proof fn lemma_extends_trans(c0: Seq<Seq<int>>, c1: Seq<Seq<int>>, c2: Seq<Seq<int>>, b1: int, b2: int)
    requires
        extends(c0, c1, b1),
        extends(c1, c2, b2),
        b1 <= b2,
    ensures
        extends(c0, c2, b1),
{
    assert forall|a: spec_fn(int) -> bool| #[trigger] cnf_holds(a, c0) implies exists|a2: spec_fn(int) -> bool|
        agree_below(a2, a, b1) && #[trigger] cnf_holds(a2, c2) by {
        let a1 = choose|a1: spec_fn(int) -> bool| agree_below(a1, a, b1) && #[trigger] cnf_holds(a1, c1);
        let a2 = choose|a2: spec_fn(int) -> bool| agree_below(a2, a1, b2) && #[trigger] cnf_holds(a2, c2);
        assert(agree_below(a2, a, b1));
    }
}

/// Clauses over the variables below `bound` extend themselves.
pub proof fn lemma_extends_refl(cs: Seq<Seq<int>>, bound: int)
    ensures
        extends(cs, cs, bound),
{
    assert forall|a: spec_fn(int) -> bool| #[trigger] cnf_holds(a, cs) implies exists|a2: spec_fn(int) -> bool|
        agree_below(a2, a, bound) && #[trigger] cnf_holds(a2, cs) by {
        assert(agree_below(a, a, bound));
    }
}

/// Every literal of the list names a variable in `1..bound`.
pub open spec fn lits_within(lits: Seq<isize>, bound: int) -> bool {
    forall|i: int| 0 <= i < lits.len() ==> 1 <= #[trigger] lits[i] < bound || (1 <= -lits[i] && -lits[i] < bound)
}

/// A clause made of literals below `bound` is a clause list below `bound`.
pub proof fn lemma_clause_within(lits: Seq<isize>, bound: int)
    requires
        lits_within(lits, bound),
    ensures
        clauses_within(seq![as_ints(lits)], bound),
{
    let cs = seq![as_ints(lits)];
    assert forall|i: int, k: int| 0 <= i < cs.len() && 0 <= k < cs[i].len() implies {
        &&& 1 <= #[trigger] cs[i][k] < bound || (1 <= -cs[i][k] && -cs[i][k] < bound)
    } by {
        assert(cs[i] == as_ints(lits));
        assert(as_ints(lits)[k] == lits[k] as int);
    }
}

/// The three clauses that make `o` the value of `v0 and not v1`.
pub open spec fn and_not_defs(v1: int, v0: int, o: int) -> Seq<Seq<int>> {
    seq![seq![v1, -v0, o], seq![-v1, -o], seq![v0, -o]]
}

/// The three clauses that make a fresh `o` the value of `v0 and not v1` extend every
/// assignment.
pub proof fn lemma_and_not_extends(g0: Seq<Seq<int>>, v1: int, v0: int, o: int)
    requires
        clauses_within(g0, o),
        1 <= v0 < o,
        1 <= v1 < o,
    ensures
        clauses_within(g0 + and_not_defs(v1, v0, o), o + 1),
        extends(g0, g0 + and_not_defs(v1, v0, o), o),
        forall|a: spec_fn(int) -> bool|
            #[trigger] cnf_holds(a, and_not_defs(v1, v0, o)) ==> a(o) == (a(v0) && !a(v1)),
{
    let defs = and_not_defs(v1, v0, o);
    assert forall|i: int, k: int| 0 <= i < defs.len() && 0 <= k < defs[i].len() implies {
        &&& 1 <= #[trigger] defs[i][k] < o + 1 || (1 <= -defs[i][k] && -defs[i][k] < o + 1)
    } by {
    }
    lemma_clauses_within_concat(g0, defs, o, o + 1);
    assert forall|a: spec_fn(int) -> bool| #[trigger] cnf_holds(a, g0) implies exists|a2: spec_fn(int) -> bool|
        agree_below(a2, a, o) && #[trigger] cnf_holds(a2, g0 + defs) by {
        let a2 = |x: int| if x == o { a(v0) && !a(v1) } else { a(x) };
        assert(agree_below(a2, a, o));
        lemma_holds_agree(a, a2, g0, o);
        lemma_clause3(a2, v1, -v0, o);
        lemma_clause2(a2, -v1, -o);
        lemma_clause2(a2, v0, -o);
        assert(defs[0] == seq![v1, -v0, o]);
        assert(defs[1] == seq![-v1, -o]);
        assert(defs[2] == seq![v0, -o]);
        assert(cnf_holds(a2, defs));
        lemma_cnf_holds_concat(a2, g0, defs);
    }
    assert forall|a: spec_fn(int) -> bool|
        #[trigger] cnf_holds(a, defs) implies a(o) == (a(v0) && !a(v1)) by {
        assert(defs[0] == seq![v1, -v0, o]);
        assert(defs[1] == seq![-v1, -o]);
        assert(defs[2] == seq![v0, -o]);
        assert(clause_holds(a, defs[0]));
        assert(clause_holds(a, defs[1]));
        assert(clause_holds(a, defs[2]));
        lemma_clause3(a, v1, -v0, o);
        lemma_clause2(a, -v1, -o);
        lemma_clause2(a, v0, -o);
    }
}

pub proof fn lemma_clauses_within_mono(cs: Seq<Seq<int>>, b1: int, b2: int)
    requires
        clauses_within(cs, b1),
        b1 <= b2,
    ensures
        clauses_within(cs, b2),
{
}

pub proof fn lemma_cnf_holds_concat(a: spec_fn(int) -> bool, c1: Seq<Seq<int>>, c2: Seq<Seq<int>>)
    ensures
        cnf_holds(a, c1 + c2) == (cnf_holds(a, c1) && cnf_holds(a, c2)),
{
    if cnf_holds(a, c1 + c2) {
        assert forall|i: int| 0 <= i < c1.len() implies clause_holds(a, #[trigger] c1[i]) by {
            assert((c1 + c2)[i] == c1[i]);
        }
        assert forall|i: int| 0 <= i < c2.len() implies clause_holds(a, #[trigger] c2[i]) by {
            assert((c1 + c2)[c1.len() + i] == c2[i]);
        }
    }
    if cnf_holds(a, c1) && cnf_holds(a, c2) {
        assert forall|i: int| 0 <= i < (c1 + c2).len() implies clause_holds(
            a,
            #[trigger] (c1 + c2)[i],
        ) by {
            if i < c1.len() {
                assert((c1 + c2)[i] == c1[i]);
            } else {
                assert((c1 + c2)[i] == c2[i - c1.len()]);
            }
        }
    }
}

pub proof fn lemma_clauses_within_concat(c1: Seq<Seq<int>>, c2: Seq<Seq<int>>, b1: int, b2: int)
    requires
        clauses_within(c1, b1),
        clauses_within(c2, b2),
        b1 <= b2,
    ensures
        clauses_within(c1 + c2, b2),
{
    assert forall|i: int, k: int|
        0 <= i < (c1 + c2).len() && 0 <= k < (c1 + c2)[i].len() implies {
            &&& 1 <= #[trigger] (c1 + c2)[i][k] < b2 || (1 <= -(c1 + c2)[i][k] && -(c1 + c2)[i][k] < b2)
        } by {
        if i < c1.len() {
            assert((c1 + c2)[i] == c1[i]);
        } else {
            assert((c1 + c2)[i] == c2[i - c1.len()]);
        }
    }
}

pub proof fn lemma_clause2(a: spec_fn(int) -> bool, x: int, y: int)
    ensures
        clause_holds(a, seq![x, y]) == (lit_holds(a, x) || lit_holds(a, y)),
{
    let c = seq![x, y];
    assert(c[0] == x && c[1] == y);
}

pub proof fn lemma_clause3(a: spec_fn(int) -> bool, x: int, y: int, z: int)
    ensures
        clause_holds(a, seq![x, y, z]) == (lit_holds(a, x) || lit_holds(a, y) || lit_holds(a, z)),
{
    let c = seq![x, y, z];
    assert(c[0] == x && c[1] == y && c[2] == z);
}

pub proof fn lemma_clause1(a: spec_fn(int) -> bool, x: int)
    ensures
        clause_holds(a, seq![x]) == lit_holds(a, x),
{
    let c = seq![x];
    assert(c[0] == x);
}

/// Appends a clause of two literals.
pub fn add_clause2(f: &mut CnfFormula, x: isize, y: isize)
    requires
        valid_lit(x as int),
        valid_lit(y as int),
    ensures
        cnf_clauses(*final(f)) == cnf_clauses(*old(f)).push(seq![x as int, y as int]),
{
    let c = [x, y];
    cnf_add_clause(f, &c);
    assert(as_ints(c@) =~= seq![x as int, y as int]);
}

/// Appends a clause of three literals.
pub fn add_clause3(f: &mut CnfFormula, x: isize, y: isize, z: isize)
    requires
        valid_lit(x as int),
        valid_lit(y as int),
        valid_lit(z as int),
    ensures
        cnf_clauses(*final(f)) == cnf_clauses(*old(f)).push(seq![x as int, y as int, z as int]),
{
    let c = [x, y, z];
    cnf_add_clause(f, &c);
    assert(as_ints(c@) =~= seq![x as int, y as int, z as int]);
}

/// Appends a clause of one literal.
pub fn add_clause1(f: &mut CnfFormula, x: isize)
    requires
        valid_lit(x as int),
    ensures
        cnf_clauses(*final(f)) == cnf_clauses(*old(f)).push(seq![x as int]),
{
    let c = [x];
    cnf_add_clause(f, &c);
    assert(as_ints(c@) =~= seq![x as int]);
}


pub proof fn lemma_max_var_clause_ge(c: Seq<int>, i: int)
    requires
        0 <= i < c.len(),
    ensures
        max_var_clause(c) >= c[i],
        max_var_clause(c) >= -c[i],
        max_var_clause(c) >= 0,
    decreases c.len(),
{
    if i < c.len() - 1 {
        lemma_max_var_clause_ge(c.drop_last(), i);
    } else {
        lemma_max_var_clause_nonneg(c.drop_last());
    }
}

pub proof fn lemma_max_var_clause_nonneg(c: Seq<int>)
    ensures
        max_var_clause(c) >= 0,
    decreases c.len(),
{
    if c.len() > 0 {
        lemma_max_var_clause_nonneg(c.drop_last());
    }
}

pub proof fn lemma_max_var_nonneg(cs: Seq<Seq<int>>)
    ensures
        max_var(cs) >= 0,
    decreases cs.len(),
{
    if cs.len() > 0 {
        lemma_max_var_nonneg(cs.drop_last());
    }
}

/// The largest variable is at least that of any literal.
pub proof fn lemma_max_var_ge(cs: Seq<Seq<int>>, i: int, k: int)
    requires
        0 <= i < cs.len(),
        0 <= k < cs[i].len(),
    ensures
        max_var(cs) >= cs[i][k],
        max_var(cs) >= -cs[i][k],
    decreases cs.len(),
{
    if i < cs.len() - 1 {
        assert(cs.drop_last()[i] == cs[i]);
        lemma_max_var_ge(cs.drop_last(), i, k);
    } else {
        lemma_max_var_clause_ge(cs.last(), k);
    }
}

/// Appending clauses never lowers the largest variable.
pub proof fn lemma_max_var_concat(a: Seq<Seq<int>>, b: Seq<Seq<int>>)
    ensures
        max_var(a + b) >= max_var(a),
    decreases b.len(),
{
    if b.len() == 0 {
        assert(a + b =~= a);
    } else {
        assert((a + b).drop_last() =~= a + b.drop_last());
        lemma_max_var_concat(a, b.drop_last());
    }
}

} // verus!
