//! Constraints on the outputs of a sorter: how many of them may hold, and what their
//! count is modulo the base; and reading the counts back from a model.
use vstd::prelude::*;
use varisat::CnfFormula;
use crate::cnf::{
    add_clause1, add_clause2, add_clause3, and_not_defs, as_ints, clause_holds, clauses_within,
    cnf_add_clause, cnf_clauses, cnf_holds, cnf_new, extends, lemma_and_not_extends,
    lemma_clause1, lemma_clause2, lemma_clause3, lemma_cnf_holds_concat, lemma_extends_refl,
    lemma_extends_trans, lit_holds, lits_within, model_asg, model_wf, valid_lit, MAX_VAR,
};
use crate::sorter::{lemma_cnf_holds_prefix, vals, Sorter};

verus! {

/// Under `a`, exactly the first `c` outputs hold.
pub open spec fn sorted_count(a: spec_fn(int) -> bool, out: Seq<usize>, c: int) -> bool {
    &&& 0 <= c <= out.len()
    &&& forall|t: int| 0 <= t < out.len() ==> #[trigger] vals(a, out)[t] == (t < c)
}

/// All outputs are variables in `1..=MAX_VAR`.
pub open spec fn out_vars(out: Seq<usize>) -> bool {
    forall|t: int| 0 <= t < out.len() ==> 1 <= #[trigger] out[t] <= MAX_VAR
}

/// Some literal of the list holds under `a`.
pub open spec fn some_lit(a: spec_fn(int) -> bool, lits: Seq<isize>) -> bool {
    exists|i: int| 0 <= i < lits.len() && lit_holds(a, #[trigger] lits[i] as int)
}

/// Unit clauses that make the last `z` outputs false.
pub open spec fn zero_tail(out: Seq<usize>, z: int) -> Seq<Seq<int>> {
    Seq::new(z as nat, |j: int| seq![-(out[out.len() - 1 - j] as int)])
}

/// Unit clauses that make the last `z` outputs false and all the others true.
pub open spec fn exact_tail(out: Seq<usize>, z: int) -> Seq<Seq<int>> {
    zero_tail(out, z) + Seq::new(
        (out.len() - z) as nat,
        |t: int| seq![out[out.len() - 1 - (z + t)] as int],
    )
}

proof fn lemma_some_lit_clause(a: spec_fn(int) -> bool, lits: Seq<isize>)
    ensures
        clause_holds(a, as_ints(lits)) == some_lit(a, lits),
{
    if some_lit(a, lits) {
        let i = choose|i: int| 0 <= i < lits.len() && lit_holds(a, #[trigger] lits[i] as int);
        assert(as_ints(lits)[i] == lits[i] as int);
    }
    if clause_holds(a, as_ints(lits)) {
        let i = choose|i: int| 0 <= i < as_ints(lits).len() && lit_holds(a, #[trigger] as_ints(lits)[i]);
        assert(as_ints(lits)[i] == lits[i] as int);
    }
}

/// With sorted outputs, the zero tail holds exactly when at most `len - z` outputs hold.
pub proof fn lemma_zero_tail(a: spec_fn(int) -> bool, out: Seq<usize>, z: int, c: int)
    requires
        sorted_count(a, out, c),
        0 <= z <= out.len(),
        out_vars(out),
    ensures
        cnf_holds(a, zero_tail(out, z)) == (c <= out.len() - z),
{
    let cs = zero_tail(out, z);
    let len = out.len() as int;
    if c <= len - z {
        assert forall|j: int| 0 <= j < cs.len() implies clause_holds(a, #[trigger] cs[j]) by {
            lemma_clause1(a, -(out[len - 1 - j] as int));
            assert(vals(a, out)[len - 1 - j] == (len - 1 - j < c));
        }
    } else {
        let j = len - c;
        assert(0 <= j < z);
        lemma_clause1(a, -(out[len - 1 - j] as int));
        assert(vals(a, out)[len - 1 - j] == (len - 1 - j < c));
        assert(!clause_holds(a, cs[j]));
    }
}

/// With sorted outputs, the exact tail holds exactly when `len - z` outputs hold.
pub proof fn lemma_exact_tail(a: spec_fn(int) -> bool, out: Seq<usize>, z: int, c: int)
    requires
        sorted_count(a, out, c),
        0 <= z <= out.len(),
        out_vars(out),
    ensures
        cnf_holds(a, exact_tail(out, z)) == (c == out.len() - z),
{
    let len = out.len() as int;
    let ones_part = Seq::new((len - z) as nat, |t: int| seq![out[len - 1 - (z + t)] as int]);
    lemma_zero_tail(a, out, z, c);
    lemma_cnf_holds_concat(a, zero_tail(out, z), ones_part);
    if c >= len - z {
        assert forall|t: int| 0 <= t < ones_part.len() implies clause_holds(a, #[trigger] ones_part[t]) by {
            lemma_clause1(a, out[len - 1 - (z + t)] as int);
            assert(vals(a, out)[len - 1 - (z + t)] == (len - 1 - (z + t) < c));
        }
    } else {
        let t = len - z - 1 - c;
        lemma_clause1(a, out[len - 1 - (z + t)] as int);
        assert(vals(a, out)[len - 1 - (z + t)] == (len - 1 - (z + t) < c));
        assert(!clause_holds(a, ones_part[t]));
    }
}

/// The unit clause that makes output `len - 1 - j` false.
pub open spec fn tail_unit(out: Seq<usize>, j: int) -> Seq<int> {
    seq![-(out[out.len() - 1 - j] as int)]
}

/// The clause makes one of the last `z` outputs false.
pub open spec fn is_tail_unit(c: Seq<int>, out: Seq<usize>, z: int) -> bool {
    exists|j: int| 0 <= j < z && c == #[trigger] tail_unit(out, j)
}

/// Every clause makes one of the last `z` outputs false.
pub open spec fn tail_units(cs: Seq<Seq<int>>, out: Seq<usize>, z: int) -> bool {
    forall|i: int| 0 <= i < cs.len() ==> #[trigger] is_tail_unit(cs[i], out, z)
}

/// Unit clauses of the tail hold where at most `len - z` outputs hold.
pub proof fn lemma_tail_units_hold(a: spec_fn(int) -> bool, cs: Seq<Seq<int>>, out: Seq<usize>, z: int, c: int)
    requires
        tail_units(cs, out, z),
        sorted_count(a, out, c),
        0 <= z <= out.len(),
        c <= out.len() - z,
        out_vars(out),
    ensures
        cnf_holds(a, cs),
{
    assert forall|i: int| 0 <= i < cs.len() implies clause_holds(a, #[trigger] cs[i]) by {
        assert(is_tail_unit(cs[i], out, z));
        let j = choose|j: int| 0 <= j < z && cs[i] == #[trigger] tail_unit(out, j);
        let len = out.len() as int;
        lemma_clause1(a, -(out[len - 1 - j] as int));
        assert(vals(a, out)[len - 1 - j] == (len - 1 - j < c));
    }
}

/// The tail of `mk_0cons` and its extensions are tail units.
pub proof fn lemma_tail_units_grow(t: Seq<Seq<int>>, out: Seq<usize>, z: int, z2: int, z3: int)
    requires
        tail_units(t, out, z),
        0 <= z2 <= z3,
        z <= z3,
    ensures
        tail_units(t + zero_tail(out, z2), out, z3),
{
    let u = t + zero_tail(out, z2);
    assert forall|i: int| 0 <= i < u.len() implies #[trigger] is_tail_unit(u[i], out, z3) by {
        if i < t.len() {
            assert(u[i] == t[i]);
            assert(is_tail_unit(t[i], out, z));
            let j = choose|j: int| 0 <= j < z && t[i] == #[trigger] tail_unit(out, j);
            assert(u[i] == tail_unit(out, j));
        } else {
            assert(u[i] == zero_tail(out, z2)[i - t.len()]);
            assert(u[i] == tail_unit(out, i - t.len()));
        }
    }
    assert(tail_units(u, out, z3));
}

/// The tail clauses name only output variables.
pub proof fn lemma_tails_within(out: Seq<usize>, z: int, bound: int)
    requires
        0 <= z <= out.len(),
        forall|t: int| 0 <= t < out.len() ==> 1 <= #[trigger] out[t] < bound,
    ensures
        clauses_within(zero_tail(out, z), bound),
        clauses_within(exact_tail(out, z), bound),
{
    let len = out.len() as int;
    let zt = zero_tail(out, z);
    let ones_part = Seq::new((len - z) as nat, |t: int| seq![out[len - 1 - (z + t)] as int]);
    assert forall|i: int, k: int| 0 <= i < zt.len() && 0 <= k < zt[i].len() implies {
        &&& 1 <= #[trigger] zt[i][k] < bound || (1 <= -zt[i][k] && -zt[i][k] < bound)
    } by {
        assert(zt[i] == seq![-(out[len - 1 - i] as int)]);
    }
    assert forall|i: int, k: int| 0 <= i < ones_part.len() && 0 <= k < ones_part[i].len() implies {
        &&& 1 <= #[trigger] ones_part[i][k] < bound || (1 <= -ones_part[i][k] && -ones_part[i][k] < bound)
    } by {
        assert(ones_part[i] == seq![out[len - 1 - (z + i)] as int]);
    }
    crate::cnf::lemma_clauses_within_concat(zt, ones_part, bound, bound);
}

/// Unit clauses that make the last `zeropos` outputs of the top sorter false.
pub fn mk_0cons(stlst: &Vec<Sorter>, zeropos: usize) -> (h: CnfFormula)
    requires
        stlst.len() >= 1,
        zeropos <= stlst@.last().output.len(),
        out_vars(stlst@.last().output@),
    ensures
        cnf_clauses(h) == zero_tail(stlst@.last().output@, zeropos as int),
{
    let top = &stlst[stlst.len() - 1].output;
    let mut h = cnf_new();
    for j in 0..zeropos
        invariant
            *top == stlst@.last().output,
            zeropos <= top.len(),
            out_vars(top@),
            cnf_clauses(h) == zero_tail(top@, j as int),
    {
        let k = top.len() - j - 1;
        add_clause1(&mut h, -(top[k] as isize));
        assert(cnf_clauses(h) =~= zero_tail(top@, j + 1));
    }
    h
}

/// Unit clauses that make the last `zeropos` outputs of the top sorter false and all its
/// other outputs true.
pub fn mk_0cons2(stlst: &Vec<Sorter>, zeropos: usize) -> (h: CnfFormula)
    requires
        stlst.len() >= 1,
        zeropos <= stlst@.last().output.len(),
        out_vars(stlst@.last().output@),
    ensures
        cnf_clauses(h) == exact_tail(stlst@.last().output@, zeropos as int),
{
    let top = &stlst[stlst.len() - 1].output;
    let mut h = mk_0cons(stlst, zeropos);
    let ghost z = zero_tail(top@, zeropos as int);
    let len = top.len();
    for j in zeropos..len
        invariant
            *top == stlst@.last().output,
            len == top.len(),
            zeropos <= len,
            out_vars(top@),
            z == zero_tail(top@, zeropos as int),
            cnf_clauses(h) == z + Seq::new(
                (j - zeropos) as nat,
                |t: int| seq![top@[len - 1 - (zeropos + t)] as int],
            ),
    {
        let k = len - j - 1;
        add_clause1(&mut h, top[k] as isize);
        assert(cnf_clauses(h) =~= z + Seq::new(
            (j + 1 - zeropos) as nat,
            |t: int| seq![top@[len - 1 - (zeropos + t)] as int],
        ));
    }
    h
}

proof fn lemma_residue_step(c: int, j: int, b: int, r: int)
    requires
        b >= 1,
        0 <= r < b,
        c >= 0,
        j >= 0,
        j % b == r,
    ensures
        (c % b == r && c < j + b) == ((c % b == r && c < j) || c == j),
{
    if c % b == r && j <= c < j + b {
        vstd::arithmetic::div_mod::lemma_mod_equivalence(c, j, b);
        vstd::arithmetic::div_mod::lemma_small_mod((c - j) as nat, b as nat);
    }
}

/// How many of the places `j, j + b, j + 2b, ...` lie below `len`.
pub open spec fn residue_steps(j: int, len: int, b: int) -> int
    decreases if len > j { len - j } else { 0 },
{
    if b >= 1 && j < len { 1 + residue_steps(j + b, len, b) } else { 0 }
}

/// The clauses that define the fresh variables of a residue constraint from place `j` on,
/// the first of them being `v`: at each step `j, j + b, ...` below `len`, the next fresh
/// variable is `out[j - 1] and not out[j]`.
pub open spec fn residue_defs(out: Seq<usize>, j: int, len: int, b: int, v: int) -> Seq<Seq<int>>
    decreases if len > j { len - j } else { 0 },
{
    if b >= 1 && j < len {
        and_not_defs(out[j] as int, out[j - 1] as int, v) + residue_defs(out, j + b, len, b, v + 1)
    } else {
        seq![]
    }
}

/// The literals of a residue constraint's clause from place `j` on: the fresh variable of
/// each step below `len`, then `out[len - 1]` where a step lands on `len`.
pub open spec fn residue_lits(out: Seq<usize>, j: int, len: int, b: int, v: int) -> Seq<int>
    decreases if len > j { len - j } else { 0 },
{
    if b >= 1 && j < len {
        seq![v] + residue_lits(out, j + b, len, b, v + 1)
    } else if j == len {
        seq![out[len - 1] as int]
    } else {
        seq![]
    }
}

/// The clause of the residue constraint for `r`: `not out[0]` first where `r` is `0`, then
/// `residue_lits` from the first step on.
pub open spec fn residue_clause(out: Seq<usize>, r: int, b: int, v: int) -> Seq<int> {
    (if r == 0 { seq![-(out[0] as int)] } else { seq![] }) + residue_lits(out, first_step(r, b), out.len() as int, b, v)
}

/// The first place whose output a residue constraint for `r` compares: `r`, or `b` for `0`.
pub open spec fn first_step(r: int, b: int) -> int {
    if r == 0 { b } else { r }
}

/// The places counted by `residue_steps(j, len, b)` lie in `j..len`.
pub proof fn lemma_steps_le(j: int, len: int, b: int)
    requires
        b >= 1,
    ensures
        0 <= residue_steps(j, len, b),
        residue_steps(j, len, b) <= if len > j { len - j } else { 0 },
    decreases if len > j { len - j } else { 0 },
{
    if j < len {
        lemma_steps_le(j + b, len, b);
    }
}

/// The fresh variables that a residue constraint on `len` outputs may take: one for each
/// place `1, 1 + b, ...` below `len`.
pub open spec fn residue_room(len: int, b: int) -> int {
    (len + b - 2) / b
}

/// The last step from `j` lies below `len`.
proof fn lemma_steps_last(j: int, len: int, b: int)
    requires
        b >= 1,
    ensures
        residue_steps(j, len, b) >= 1 ==> j + (residue_steps(j, len, b) - 1) * b < len,
    decreases if len > j { len - j } else { 0 },
{
    if j < len {
        lemma_steps_last(j + b, len, b);
        lemma_steps_le(j + b, len, b);
        let s1 = residue_steps(j + b, len, b);
        assert(residue_steps(j, len, b) == 1 + s1);
        if s1 >= 1 {
            assert(j + b + (s1 - 1) * b == j + s1 * b) by (nonlinear_arith);
        } else {
            assert((1 + s1 - 1) * b == 0) by (nonlinear_arith)
                requires
                    s1 == 0,
            ;
        }
    }
}

/// A residue constraint takes at most `residue_room(len, b)` fresh variables.
pub proof fn lemma_steps_room(r: int, len: int, b: int)
    requires
        2 <= b,
        0 <= r < b,
        len >= 0,
    ensures
        0 <= residue_steps(first_step(r, b), len, b) <= residue_room(len, b),
        residue_room(len, b) <= len,
{
    let j = first_step(r, b);
    let st = residue_steps(j, len, b);
    lemma_steps_le(j, len, b);
    lemma_steps_last(j, len, b);
    if st >= 1 {
        assert(st * b <= len + b - 2) by (nonlinear_arith)
            requires
                j + (st - 1) * b < len,
                j >= 1,
        ;
    } else {
        assert(st * b <= len + b - 2) by (nonlinear_arith)
            requires
                st == 0,
                len >= 0,
                b >= 2,
        ;
    }
    vstd::arithmetic::div_mod::lemma_fundamental_div_mod(len + b - 2, b);
    assert(st <= (len + b - 2) / b) by (nonlinear_arith)
        requires
            st * b <= len + b - 2,
            len + b - 2 == b * ((len + b - 2) / b) + (len + b - 2) % b,
            0 <= (len + b - 2) % b,
            b >= 2,
    ;
    assert((len + b - 2) / b <= len) by (nonlinear_arith)
        requires
            len + b - 2 == b * ((len + b - 2) / b) + (len + b - 2) % b,
            0 <= (len + b - 2) % b < b,
            b >= 2,
            len >= 0,
    ;
}

/// One more place `len` adds one step exactly where it is `j` plus a multiple of `b`.
proof fn lemma_steps_grow(j: int, len: int, b: int)
    requires
        b >= 1,
        j >= 1,
        len >= 0,
    ensures
        residue_steps(j, len + 1, b) == residue_steps(j, len, b) + if j <= len && (len - j) % b == 0 { 1int } else { 0 },
    decreases if len > j { len - j } else { 0 },
{
    if j < len {
        lemma_steps_grow(j + b, len, b);
        assert(residue_steps(j, len + 1, b) == 1 + residue_steps(j + b, len + 1, b));
        assert(residue_steps(j, len, b) == 1 + residue_steps(j + b, len, b));
        if j + b <= len {
            assert((-b + (len - j)) % b == (len - j) % b) by {
                vstd::arithmetic::div_mod::lemma_mod_sub_multiples_vanish(len - j, b);
            }
            assert(len - (j + b) == -b + (len - j));
        } else {
            vstd::arithmetic::div_mod::lemma_small_mod((len - j) as nat, b as nat);
            assert((len - j) % b != 0);
        }
    } else if j == len {
        vstd::arithmetic::div_mod::lemma_small_mod(0, b as nat);
        assert(residue_steps(j, len + 1, b) == 1 + residue_steps(j + b, len + 1, b));
        assert(residue_steps(j + b, len + 1, b) == 0);
    }
}

/// The fresh variables of the residue constraints for `0, 1, ..., l - 1` on `len` outputs.
pub open spec fn less_steps(l: int, len: int, b: int) -> int
    decreases l,
{
    if l <= 0 { 0 } else { less_steps(l - 1, len, b) + residue_steps(first_step(l - 1, b), len, b) }
}

proof fn lemma_less_steps_one(l: int, b: int)
    requires
        b >= 1,
        l >= 0,
    ensures
        less_steps(l, 1, b) == 0,
    decreases l,
{
    if l > 0 {
        lemma_less_steps_one(l - 1, b);
    }
}

proof fn lemma_less_steps_grow(l: int, len: int, b: int)
    requires
        b >= 2,
        0 <= l <= b,
        len >= 0,
    ensures
        less_steps(l, len + 1, b) <= less_steps(l, len, b) + if len % b < l { 1int } else { 0 },
    decreases l,
{
    if l > 0 {
        let r = l - 1;
        lemma_less_steps_grow(r, len, b);
        let f = first_step(r, b);
        lemma_steps_grow(f, len, b);
        if f <= len && (len - f) % b == 0 {
            if r == 0 {
                assert(len % b == 0) by {
                    vstd::arithmetic::div_mod::lemma_mod_sub_multiples_vanish(len, b);
                }
            } else {
                assert(len % b == r) by {
                    vstd::arithmetic::div_mod::lemma_fundamental_div_mod(len - r, b);
                    vstd::arithmetic::div_mod::lemma_fundamental_div_mod_converse(len, b, (len - r) / b, r);
                }
            }
        }
    }
}

proof fn lemma_less_steps_mono(l1: int, l2: int, len: int, b: int)
    requires
        b >= 1,
        0 <= l1 <= l2,
    ensures
        less_steps(l1, len, b) <= less_steps(l2, len, b),
    decreases l2 - l1,
{
    if l1 < l2 {
        lemma_less_steps_mono(l1, l2 - 1, len, b);
        lemma_steps_le(first_step(l2 - 1, b), len, b);
    }
}

/// The residue constraints for `0 .. l - 1` take fewer fresh variables than there are
/// outputs: their places are distinct places of `1 .. len - 1`.
pub proof fn lemma_less_steps_bound(l: int, len: int, b: int)
    requires
        b >= 2,
        0 <= l <= b,
        len >= 1,
    ensures
        0 <= less_steps(l, len, b) <= len - 1,
    decreases len,
{
    lemma_less_steps_nonneg(l, len, b);
    if len == 1 {
        lemma_less_steps_one(l, b);
    } else {
        lemma_less_steps_bound(l, len - 1, b);
        lemma_less_steps_grow(l, len - 1, b);
    }
}

proof fn lemma_less_steps_nonneg(l: int, len: int, b: int)
    requires
        b >= 1,
    ensures
        less_steps(l, len, b) >= 0,
    decreases l,
{
    if l > 0 {
        lemma_less_steps_nonneg(l - 1, len, b);
        lemma_steps_le(first_step(l - 1, b), len, b);
    }
}

/// The variable a literal names.
pub open spec fn var_of(l: int) -> int {
    if l < 0 { -l } else { l }
}

/// `v` is one of the outputs `out`, or a variable in `lo..hi`.
pub open spec fn out_or_new(v: int, out: Seq<usize>, lo: int, hi: int) -> bool {
    (exists|t: int| 0 <= t < out.len() && #[trigger] out[t] == v) || (lo <= v < hi)
}

/// Every literal of every clause names an output or a variable in `lo..hi`.
pub open spec fn names_only(cs: Seq<Seq<int>>, out: Seq<usize>, lo: int, hi: int) -> bool {
    forall|i: int, k: int| 0 <= i < cs.len() && 0 <= k < cs[i].len() ==> out_or_new(var_of(#[trigger] cs[i][k]), out, lo, hi)
}

/// Every literal names an output or a variable in `lo..hi`.
pub open spec fn lits_only(vl: Seq<isize>, out: Seq<usize>, lo: int, hi: int) -> bool {
    forall|i: int| 0 <= i < vl.len() ==> out_or_new(var_of(#[trigger] vl[i] as int), out, lo, hi)
}

/// Appends to `vl` literals, one of which holds exactly when the number of outputs that
/// hold is `r` modulo `base`; the fresh variables it takes are defined by clauses in `h`.
fn push_residue(
    h: &mut CnfFormula,
    vl: &mut Vec<isize>,
    out: &Vec<usize>,
    r: usize,
    base: usize,
    vargen: &mut usize,
)
    requires
        2 <= base <= i32::MAX,
        r < base,
        r == 0 ==> out.len() >= 1,
        out_vars(out@),
        forall|t: int| 0 <= t < out.len() ==> #[trigger] out[t] < *old(vargen),
        1 <= *old(vargen),
        out.len() <= MAX_VAR,
        *old(vargen) + residue_steps(first_step(r as int, base as int), out.len() as int, base as int) <= MAX_VAR + 1,
        forall|i: int| 0 <= i < old(vl).len() ==> valid_lit(#[trigger] old(vl)[i] as int),
        clauses_within(cnf_clauses(*old(h)), *old(vargen) as int),
        lits_within(old(vl)@, *old(vargen) as int),
    ensures
        clauses_within(cnf_clauses(*final(h)), *final(vargen) as int),
        lits_within(final(vl)@, *final(vargen) as int),
        extends(cnf_clauses(*old(h)), cnf_clauses(*final(h)), *old(vargen) as int),
        *old(vargen) <= *final(vargen) <= *old(vargen) + out.len(),
        final(vl)@.take(old(vl).len() as int) == old(vl)@,
        final(vl).len() >= old(vl).len(),
        forall|i: int| 0 <= i < final(vl).len() ==> valid_lit(#[trigger] final(vl)[i] as int),
        cnf_clauses(*final(h)).take(cnf_clauses(*old(h)).len() as int) == cnf_clauses(*old(h)),
        cnf_clauses(*final(h)).len() >= cnf_clauses(*old(h)).len(),
        forall|a: spec_fn(int) -> bool, c: int|
            cnf_holds(a, #[trigger] cnf_clauses(*final(h))) && #[trigger] sorted_count(a, out@, c)
                ==> (some_lit(a, final(vl)@.skip(old(vl).len() as int)) == (c % (base as int)
                == r)),
        *final(vargen) == *old(vargen) + residue_steps(first_step(r as int, base as int), out.len() as int, base as int),
        names_only(cnf_clauses(*final(h)).skip(cnf_clauses(*old(h)).len() as int), out@, *old(vargen) as int, *final(vargen) as int),
        lits_only(final(vl)@.skip(old(vl).len() as int), out@, *old(vargen) as int, *final(vargen) as int),
        cnf_clauses(*final(h)).skip(cnf_clauses(*old(h)).len() as int) == residue_defs(
            out@,
            first_step(r as int, base as int),
            out.len() as int,
            base as int,
            *old(vargen) as int,
        ),
        as_ints(final(vl)@.skip(old(vl).len() as int)) == residue_clause(out@, r as int, base as int, *old(vargen) as int),
{
    let ghost vl0 = vl@;
    let ghost h0 = cnf_clauses(*h);
    let ghost v0 = *vargen;
    let ghost b = base as int;
    let len = out.len();
    let mut j = r;
    proof {
        lemma_extends_refl(h0, v0 as int);
    }
    if r == 0 {
        let first = -(out[0] as isize);
        vl.push(first);
        j = base;
        assert forall|a: spec_fn(int) -> bool, c: int|
            cnf_holds(a, #[trigger] cnf_clauses(*h)) && #[trigger] sorted_count(a, out@, c)
            implies (some_lit(a, vl@.skip(vl0.len() as int)) == (c % b == 0 && c < j)) by {
            let added = vl@.skip(vl0.len() as int);
            assert(added =~= seq![first]);
            assert(vals(a, out@)[0] == (0 < c));
            if c == 0 {
                assert(lit_holds(a, added[0] as int));
            }
            if c % b == 0 && c < j {
                vstd::arithmetic::div_mod::lemma_small_mod(c as nat, b as nat);
            }
        }
    } else {
        assert forall|a: spec_fn(int) -> bool, c: int|
            cnf_holds(a, #[trigger] cnf_clauses(*h)) && #[trigger] sorted_count(a, out@, c)
            implies (some_lit(a, vl@.skip(vl0.len() as int)) == (c % b == r && c < j)) by {
            assert(vl@.skip(vl0.len() as int).len() == 0);
            if c % b == r && c < j {
                vstd::arithmetic::div_mod::lemma_small_mod(c as nat, b as nat);
            }
        }
    }
    assert(j % base == r) by {
        if r == 0 {
            vstd::arithmetic::div_mod::lemma_mod_self_0(b);
        } else {
            vstd::arithmetic::div_mod::lemma_small_mod(r as nat, b as nat);
        }
    }
    let ghost start: Seq<int> = if r == 0 { seq![-(out@[0] as int)] } else { seq![] };
    proof {
        assert(cnf_clauses(*h).skip(h0.len() as int) =~= Seq::<Seq<int>>::empty());
        assert(cnf_clauses(*h).skip(h0.len() as int) + residue_defs(out@, j as int, len as int, b, v0 as int)
            =~= residue_defs(out@, first_step(r as int, b), len as int, b, v0 as int));
        assert(as_ints(vl@.skip(vl0.len() as int)) =~= start);
        assert(as_ints(vl@.skip(vl0.len() as int)) + residue_lits(out@, j as int, len as int, b, v0 as int)
            =~= residue_clause(out@, r as int, b, v0 as int));
        assert forall|i: int| 0 <= i < vl@.skip(vl0.len() as int).len() implies out_or_new(
            var_of(#[trigger] vl@.skip(vl0.len() as int)[i] as int), out@, v0 as int, *vargen as int) by {
            assert(vl@.skip(vl0.len() as int)[i] == -(out[0] as isize));
            assert(out@[0] == var_of(vl@.skip(vl0.len() as int)[i] as int));
        }
    }
    while j < len
        invariant
            len == out.len(),
            clauses_within(cnf_clauses(*h), *vargen as int),
            lits_within(vl@, *vargen as int),
            extends(h0, cnf_clauses(*h), v0 as int),
            2 <= base <= i32::MAX,
            b == base as int,
            r < base,
            j % base == r,
            j >= 1,
            j <= len + base,
            out_vars(out@),
            forall|t: int| 0 <= t < out.len() ==> #[trigger] out[t] < v0,
            1 <= v0 <= *vargen,
            v0 + residue_steps(first_step(r as int, b), len as int, b) <= MAX_VAR + 1,
            len <= MAX_VAR,
            *vargen - v0 <= j,
            *vargen - v0 <= len,
            vl@.take(vl0.len() as int) == vl0,
            vl.len() >= vl0.len(),
            forall|i: int| 0 <= i < vl.len() ==> valid_lit(#[trigger] vl[i] as int),
            cnf_clauses(*h).take(h0.len() as int) == h0,
            cnf_clauses(*h).len() >= h0.len(),
            forall|a: spec_fn(int) -> bool, c: int|
                cnf_holds(a, #[trigger] cnf_clauses(*h)) && #[trigger] sorted_count(a, out@, c)
                    ==> (some_lit(a, vl@.skip(vl0.len() as int)) == (c % b == r && c < j)),
            *vargen - v0 + residue_steps(j as int, len as int, b) == residue_steps(first_step(r as int, b), len as int, b),
            names_only(cnf_clauses(*h).skip(h0.len() as int), out@, v0 as int, *vargen as int),
            lits_only(vl@.skip(vl0.len() as int), out@, v0 as int, *vargen as int),
            cnf_clauses(*h).skip(h0.len() as int) + residue_defs(out@, j as int, len as int, b, *vargen as int)
                == residue_defs(out@, first_step(r as int, b), len as int, b, v0 as int),
            as_ints(vl@.skip(vl0.len() as int)) + residue_lits(out@, j as int, len as int, b, *vargen as int)
                == residue_clause(out@, r as int, b, v0 as int),
        decreases len + base - j,
    {
        let ghost hb = cnf_clauses(*h);
        let ghost vlb = vl@;
        proof {
            lemma_steps_le(j + base, len as int, b);
            assert(residue_steps(j as int, len as int, b) == 1 + residue_steps(j + base, len as int, b));
        }
        let v1 = out[j] as isize;
        let v0_ = out[j - 1] as isize;
        let o = *vargen as isize;
        *vargen += 1;
        vl.push(o);
        add_clause3(h, v1, -v0_, o);
        add_clause2(h, -v1, -o);
        add_clause2(h, v0_, -o);
        let ghost defs = seq![
            seq![v1 as int, -(v0_ as int), o as int],
            seq![-(v1 as int), -(o as int)],
            seq![v0_ as int, -(o as int)],
        ];
        assert(cnf_clauses(*h) =~= hb + defs);
        proof {
            assert(defs == and_not_defs(v1 as int, v0_ as int, o as int));
            lemma_and_not_extends(hb, v1 as int, v0_ as int, o as int);
            lemma_extends_trans(h0, hb, cnf_clauses(*h), v0 as int, o as int);
            assert(lits_within(vl@, *vargen as int)) by {
                assert forall|i: int| 0 <= i < vl@.len() implies 1 <= #[trigger] vl@[i] < *vargen as int || (1 <= -vl@[i] && -vl@[i] < *vargen as int) by {
                    if i < vlb.len() {
                        assert(vl@[i] == vlb[i]);
                    }
                }
            }
        }
        assert(vl@.skip(vl0.len() as int) =~= vlb.skip(vl0.len() as int).push(o));
        assert(cnf_clauses(*h).take(h0.len() as int) =~= h0);
        proof {
            let nh = cnf_clauses(*h).skip(h0.len() as int);
            let ph = hb.skip(h0.len() as int);
            assert(nh =~= ph + defs);
            let rest = residue_defs(out@, j + b, len as int, b, *vargen as int);
            assert(residue_defs(out@, j as int, len as int, b, o as int) == defs + rest);
            assert(nh + rest =~= ph + (defs + rest));
            let pl = as_ints(vlb.skip(vl0.len() as int));
            let lrest = residue_lits(out@, j + b, len as int, b, *vargen as int);
            assert(residue_lits(out@, j as int, len as int, b, o as int) == seq![o as int] + lrest);
            assert(as_ints(vl@.skip(vl0.len() as int)) =~= pl.push(o as int));
            assert(pl.push(o as int) + lrest =~= pl + (seq![o as int] + lrest));
            assert(out@[j as int] == v1 as int);
            assert(out@[j - 1] == v0_ as int);
            assert forall|i: int, k: int| 0 <= i < nh.len() && 0 <= k < nh[i].len() implies out_or_new(var_of(#[trigger] nh[i][k]), out@, v0 as int, *vargen as int) by {
                if i < ph.len() {
                    assert(nh[i] == ph[i]);
                    assert(out_or_new(var_of(ph[i][k]), out@, v0 as int, *vargen - 1));
                } else {
                    assert(nh[i] == defs[i - ph.len()]);
                }
            }
            let pv = vlb.skip(vl0.len() as int);
            let nv = vl@.skip(vl0.len() as int);
            assert forall|i: int| 0 <= i < nv.len() implies out_or_new(var_of(#[trigger] nv[i] as int), out@, v0 as int, *vargen as int) by {
                if i < pv.len() {
                    assert(nv[i] == pv[i]);
                    assert(out_or_new(var_of(pv[i] as int), out@, v0 as int, *vargen - 1));
                }
            }
        }
        assert(vl@.take(vl0.len() as int) =~= vl0);
        assert forall|a: spec_fn(int) -> bool, c: int|
            cnf_holds(a, #[trigger] cnf_clauses(*h)) && #[trigger] sorted_count(a, out@, c)
            implies (some_lit(a, vl@.skip(vl0.len() as int)) == (c % b == r && c < j + base)) by {
            lemma_cnf_holds_concat(a, hb, defs);
            assert(defs[0] == seq![v1 as int, -(v0_ as int), o as int]);
            assert(defs[1] == seq![-(v1 as int), -(o as int)]);
            assert(defs[2] == seq![v0_ as int, -(o as int)]);
            lemma_clause3(a, v1 as int, -(v0_ as int), o as int);
            lemma_clause2(a, -(v1 as int), -(o as int));
            lemma_clause2(a, v0_ as int, -(o as int));
            assert(vals(a, out@)[j as int] == (j < c));
            assert(vals(a, out@)[j - 1] == (j - 1 < c));
            assert(a(o as int) == (c == j));
            let prev = vlb.skip(vl0.len() as int);
            let now = vl@.skip(vl0.len() as int);
            assert(now == prev.push(o));
            if some_lit(a, prev) {
                let i = choose|i: int| 0 <= i < prev.len() && lit_holds(a, #[trigger] prev[i] as int);
                assert(now[i] == prev[i]);
            }
            if some_lit(a, now) {
                let i = choose|i: int| 0 <= i < now.len() && lit_holds(a, #[trigger] now[i] as int);
                if i < prev.len() {
                    assert(now[i] == prev[i]);
                }
            }
            if c == j {
                assert(now[prev.len() as int] == o);
            }
            lemma_residue_step(c, j as int, b, r as int);
        }
        proof {
            vstd::arithmetic::div_mod::lemma_mod_add_multiples_vanish(j as int, b);
        }
        j += base;
    }
    proof {
        assert(residue_defs(out@, j as int, len as int, b, *vargen as int) =~= Seq::<Seq<int>>::empty());
        assert(cnf_clauses(*h).skip(h0.len() as int) =~= cnf_clauses(*h).skip(h0.len() as int) + residue_defs(out@, j as int, len as int, b, *vargen as int));
    }
    if j == len {
        let ghost vlb = vl@;
        vl.push(out[j - 1] as isize);
        proof {
            assert(residue_lits(out@, j as int, len as int, b, *vargen as int) == seq![out@[len - 1] as int]);
            assert(as_ints(vl@.skip(vl0.len() as int)) =~= as_ints(vlb.skip(vl0.len() as int)) + seq![out@[len - 1] as int]);
            let pv = vlb.skip(vl0.len() as int);
            let nv = vl@.skip(vl0.len() as int);
            assert(nv =~= pv.push(out[j - 1] as isize));
            assert forall|i: int| 0 <= i < nv.len() implies out_or_new(var_of(#[trigger] nv[i] as int), out@, v0 as int, *vargen as int) by {
                if i < pv.len() {
                    assert(nv[i] == pv[i]);
                } else {
                    assert(out@[j - 1] == var_of(nv[i] as int));
                }
            }
        }
        assert(vl@.take(vl0.len() as int) =~= vl0);
        assert(lits_within(vl@, *vargen as int)) by {
            assert forall|i: int| 0 <= i < vl@.len() implies 1 <= #[trigger] vl@[i] < *vargen as int || (1 <= -vl@[i] && -vl@[i] < *vargen as int) by {
                if i < vlb.len() {
                    assert(vl@[i] == vlb[i]);
                }
            }
        }
        assert forall|a: spec_fn(int) -> bool, c: int|
            cnf_holds(a, #[trigger] cnf_clauses(*h)) && #[trigger] sorted_count(a, out@, c)
            implies (some_lit(a, vl@.skip(vl0.len() as int)) == (c % b == r)) by {
            let prev = vlb.skip(vl0.len() as int);
            let now = vl@.skip(vl0.len() as int);
            assert(now =~= prev.push(out[j - 1] as isize));
            assert(vals(a, out@)[j - 1] == (j - 1 < c));
            if some_lit(a, prev) {
                let i = choose|i: int| 0 <= i < prev.len() && lit_holds(a, #[trigger] prev[i] as int);
                assert(now[i] == prev[i]);
            }
            if some_lit(a, now) {
                let i = choose|i: int| 0 <= i < now.len() && lit_holds(a, #[trigger] now[i] as int);
                if i < prev.len() {
                    assert(now[i] == prev[i]);
                }
            }
            if c == j {
                assert(now[prev.len() as int] == out[j - 1] as isize);
            }
        }
    }
    proof {
        if j > len {
            assert(as_ints(vl@.skip(vl0.len() as int)) =~= as_ints(vl@.skip(vl0.len() as int)) + residue_lits(
                out@,
                j as int,
                len as int,
                b,
                *vargen as int,
            ));
        }
    }
}

/// The constraint that the number of outputs of sorter `pos` that hold is `l` modulo `base`.
/// Its fresh variables come from `vargen` on; the clause list ends with the one clause that
/// says it, after the clauses that define the fresh variables.
pub fn mk_0cons_mod(stlst: &Vec<Sorter>, pos: usize, l: usize, base: usize, vargen: &mut usize) -> (h: CnfFormula)
    requires
        pos < stlst.len(),
        2 <= base <= i32::MAX,
        l < base,
        l == 0 ==> stlst@[pos as int].output.len() >= 1,
        out_vars(stlst@[pos as int].output@),
        forall|t: int| 0 <= t < stlst@[pos as int].output.len() ==> #[trigger] stlst@[pos as int].output@[t] < *old(vargen),
        1 <= *old(vargen),
        stlst@[pos as int].output.len() <= MAX_VAR,
        *old(vargen) + residue_steps(
            first_step(l as int, base as int),
            stlst@[pos as int].output.len() as int,
            base as int,
        ) <= MAX_VAR + 1,
    ensures
        *old(vargen) <= *final(vargen) <= *old(vargen) + stlst@[pos as int].output.len(),
        *final(vargen) == *old(vargen) + residue_steps(
            first_step(l as int, base as int),
            stlst@[pos as int].output.len() as int,
            base as int,
        ),
        names_only(cnf_clauses(h), stlst@[pos as int].output@, *old(vargen) as int, *final(vargen) as int),
        cnf_clauses(h).len() >= 1,
        clauses_within(cnf_clauses(h), *final(vargen) as int),
        extends(Seq::<Seq<int>>::empty(), cnf_clauses(h).drop_last(), *old(vargen) as int),
        forall|a: spec_fn(int) -> bool, c: int|
            cnf_holds(a, #[trigger] cnf_clauses(h).drop_last()) && #[trigger] sorted_count(a, stlst@[pos as int].output@, c)
                ==> (cnf_holds(a, cnf_clauses(h)) == (c % (base as int) == l)),
        cnf_clauses(h) == residue_defs(
            stlst@[pos as int].output@,
            first_step(l as int, base as int),
            stlst@[pos as int].output.len() as int,
            base as int,
            *old(vargen) as int,
        ).push(residue_clause(stlst@[pos as int].output@, l as int, base as int, *old(vargen) as int)),
{
    let out = &stlst[pos].output;
    let mut h = cnf_new();
    let mut vl = Vec::<isize>::new();
    proof {
        assert(clauses_within(cnf_clauses(h), *vargen as int));
        assert(lits_within(vl@, *vargen as int));
    }
    let ghost vstart = *vargen;
    push_residue(&mut h, &mut vl, out, l, base, vargen);
    let ghost defs = cnf_clauses(h);
    proof {
        assert(defs.skip(0) =~= defs);
        assert(vl@.skip(0) =~= vl@);
    }
    assert(vl@.skip(0) =~= vl@);
    cnf_add_clause(&mut h, vl.as_slice());
    assert(cnf_clauses(h) =~= defs.push(as_ints(vl@)));
    assert(cnf_clauses(h).drop_last() =~= defs);
    proof {
        crate::cnf::lemma_clause_within(vl@, *vargen as int);
        assert(cnf_clauses(h) =~= defs + seq![as_ints(vl@)]);
        crate::cnf::lemma_clauses_within_concat(defs, seq![as_ints(vl@)], *vargen as int, *vargen as int);
    }
    proof {
        let all = cnf_clauses(h);
        let last = as_ints(vl@);
        assert forall|i: int, k: int| 0 <= i < all.len() && 0 <= k < all[i].len() implies out_or_new(var_of(#[trigger] all[i][k]), out@, vstart as int, *vargen as int) by {
            if i < defs.len() {
                assert(all[i] == defs[i]);
            } else {
                assert(all[i] == last);
                assert(last[k] == vl@[k] as int);
            }
        }
    }
    assert forall|a: spec_fn(int) -> bool, c: int|
        cnf_holds(a, #[trigger] cnf_clauses(h).drop_last()) && #[trigger] sorted_count(a, stlst@[pos as int].output@, c)
        implies (cnf_holds(a, cnf_clauses(h)) == (c % (base as int) == l)) by {
        lemma_some_lit_clause(a, vl@);
        lemma_cnf_holds_concat(a, defs, seq![as_ints(vl@)]);
        assert(cnf_clauses(h) =~= defs + seq![as_ints(vl@)]);
        assert(seq![as_ints(vl@)][0] == as_ints(vl@));
    }
    h
}

/// The constraint that the number of outputs of sorter `pos` that hold is less than `l`
/// modulo `base`.
pub fn mk_0cons_mod_less(stlst: &Vec<Sorter>, pos: usize, l: usize, base: usize, vargen: &mut usize) -> (h: CnfFormula)
    requires
        pos < stlst.len(),
        2 <= base <= i32::MAX,
        l <= base,
        l >= 1 ==> stlst@[pos as int].output.len() >= 1,
        out_vars(stlst@[pos as int].output@),
        forall|t: int| 0 <= t < stlst@[pos as int].output.len() ==> #[trigger] stlst@[pos as int].output@[t] < *old(vargen),
        1 <= *old(vargen),
        *old(vargen) + stlst@[pos as int].output.len() <= MAX_VAR + 1,
    ensures
        *old(vargen) <= *final(vargen) <= *old(vargen) + stlst@[pos as int].output.len(),
        *final(vargen) == *old(vargen) + less_steps(l as int, stlst@[pos as int].output.len() as int, base as int),
        cnf_clauses(h).len() >= 1,
        clauses_within(cnf_clauses(h), *final(vargen) as int),
        extends(Seq::<Seq<int>>::empty(), cnf_clauses(h).drop_last(), *old(vargen) as int),
        forall|a: spec_fn(int) -> bool, c: int|
            cnf_holds(a, #[trigger] cnf_clauses(h).drop_last()) && #[trigger] sorted_count(a, stlst@[pos as int].output@, c)
                ==> (cnf_holds(a, cnf_clauses(h)) == (c % (base as int) < l)),
{
    let out = &stlst[pos].output;
    let ghost len = out.len() as int;
    let ghost v0 = *vargen;
    let mut h = cnf_new();
    let mut vl = Vec::<isize>::new();
    proof {
        assert(clauses_within(cnf_clauses(h), *vargen as int));
        assert(lits_within(vl@, *vargen as int));
    }
    proof {
        lemma_extends_refl(Seq::<Seq<int>>::empty(), v0 as int);
        assert(cnf_clauses(h) =~= Seq::<Seq<int>>::empty());
        if len >= 1 {
            lemma_less_steps_bound(l as int, len, base as int);
        }
    }
    for r in 0..l
        invariant
            clauses_within(cnf_clauses(h), *vargen as int),
            lits_within(vl@, *vargen as int),
            extends(Seq::<Seq<int>>::empty(), cnf_clauses(h), v0 as int),
            *out == stlst@[pos as int].output,
            len == out.len(),
            2 <= base <= i32::MAX,
            l <= base,
            l >= 1 ==> out.len() >= 1,
            out_vars(out@),
            forall|t: int| 0 <= t < out.len() ==> #[trigger] out@[t] < v0,
            1 <= v0 <= *vargen,
            *vargen == v0 + less_steps(r as int, len, base as int),
            v0 + len <= MAX_VAR + 1,
            less_steps(l as int, len, base as int) <= if len >= 1 { len - 1 } else { 0 },
            forall|i: int| 0 <= i < vl.len() ==> valid_lit(#[trigger] vl[i] as int),
            forall|a: spec_fn(int) -> bool, c: int|
                cnf_holds(a, #[trigger] cnf_clauses(h)) && #[trigger] sorted_count(a, out@, c)
                    ==> (some_lit(a, vl@) == (c % (base as int) < r)),
    {
        let ghost hb = cnf_clauses(h);
        let ghost vlb = vl@;
        proof {
            lemma_less_steps_mono(r + 1, l as int, len, base as int);
            lemma_less_steps_nonneg(r as int, len, base as int);
        }
        let ghost vb = *vargen;
        push_residue(&mut h, &mut vl, out, r, base, vargen);
        proof {
            lemma_extends_trans(Seq::<Seq<int>>::empty(), hb, cnf_clauses(h), v0 as int, vb as int);
        }
        assert forall|a: spec_fn(int) -> bool, c: int|
            cnf_holds(a, #[trigger] cnf_clauses(h)) && #[trigger] sorted_count(a, out@, c)
            implies (some_lit(a, vl@) == (c % (base as int) < r + 1)) by {
            lemma_cnf_holds_prefix(a, cnf_clauses(h), hb.len() as int);
            let added = vl@.skip(vlb.len() as int);
            assert(vl@ =~= vlb + added);
            if some_lit(a, vl@) {
                let i = choose|i: int| 0 <= i < vl@.len() && lit_holds(a, #[trigger] vl@[i] as int);
                if i < vlb.len() {
                    assert(vl@[i] == vlb[i]);
                } else {
                    assert(vl@[i] == added[i - vlb.len()]);
                }
            }
            if some_lit(a, vlb) {
                let i = choose|i: int| 0 <= i < vlb.len() && lit_holds(a, #[trigger] vlb[i] as int);
                assert(vl@[i] == vlb[i]);
            }
            if some_lit(a, added) {
                let i = choose|i: int| 0 <= i < added.len() && lit_holds(a, #[trigger] added[i] as int);
                assert(vl@[vlb.len() + i] == added[i]);
            }
        }
    }
    let ghost defs = cnf_clauses(h);
    cnf_add_clause(&mut h, vl.as_slice());
    assert(cnf_clauses(h).drop_last() =~= defs);
    proof {
        crate::cnf::lemma_clause_within(vl@, *vargen as int);
        assert(cnf_clauses(h) =~= defs + seq![as_ints(vl@)]);
        crate::cnf::lemma_clauses_within_concat(defs, seq![as_ints(vl@)], *vargen as int, *vargen as int);
    }
    assert forall|a: spec_fn(int) -> bool, c: int|
        cnf_holds(a, #[trigger] cnf_clauses(h).drop_last()) && #[trigger] sorted_count(a, stlst@[pos as int].output@, c)
        implies (cnf_holds(a, cnf_clauses(h)) == (c % (base as int) < l)) by {
        lemma_some_lit_clause(a, vl@);
        lemma_cnf_holds_concat(a, defs, seq![as_ints(vl@)]);
        assert(cnf_clauses(h) =~= defs + seq![as_ints(vl@)]);
        assert(seq![as_ints(vl@)][0] == as_ints(vl@));
    }
    h
}


/// The first place, from `j` on, whose output the model makes false (`len` if none).
pub open spec fn first_false(m: Seq<isize>, out: Seq<usize>, j: int) -> int
    decreases out.len() - j,
{
    if j < 0 || j >= out.len() {
        out.len() as int
    } else if m[out[j] - 1] == -(out[j] as int) {
        j
    } else {
        first_false(m, out, j + 1)
    }
}

/// Where the outputs are sorted under the model, the first false output is their count.
pub proof fn lemma_first_false(m: Seq<isize>, out: Seq<usize>, c: int, j: int)
    requires
        model_wf(m),
        forall|t: int| 0 <= t < out.len() ==> 1 <= #[trigger] out[t] <= m.len(),
        sorted_count(model_asg(m), out, c),
        0 <= j <= c,
    ensures
        first_false(m, out, j) == c,
    decreases out.len() - j,
{
    if j < c {
        assert(vals(model_asg(m), out)[j] == (j < c));
        assert(m[out[j] - 1] == out[j] as int || m[out[j] - 1] == -(out[j] as int));
        lemma_first_false(m, out, c, j + 1);
    } else if j < out.len() {
        assert(vals(model_asg(m), out)[j] == (j < c));
        assert(m[out[j] - 1] == out[j] as int || m[out[j] - 1] == -(out[j] as int));
    }
}

/// For each sorter, from the top down: `None` if it has no output, else the first of its
/// outputs that the model makes false (its output count if none is).
pub fn get_sorterouts(sorter_lst: &Vec<Sorter>, model: &Vec<isize>) -> (ret: Vec<Option<usize>>)
    requires
        forall|i: int, t: int|
            0 <= i < sorter_lst.len() && 0 <= t < sorter_lst@[i].output.len() ==> 1
                <= #[trigger] sorter_lst@[i].output@[t] <= model.len() && sorter_lst@[i].output@[t] <= MAX_VAR,
    ensures
        ret.len() == sorter_lst.len(),
        forall|i: int|
            0 <= i < ret.len() ==> #[trigger] ret@[i] == if sorter_lst@[sorter_lst.len() - 1
                - i].output.len() == 0 {
                None::<usize>
            } else {
                Some(first_false(model@, sorter_lst@[sorter_lst.len() - 1 - i].output@, 0) as usize)
            },
{
    let mut ret = Vec::<Option<usize>>::new();
    let len = sorter_lst.len();
    for i in 0..len
        invariant
            len == sorter_lst.len(),
            forall|i2: int, t: int|
                0 <= i2 < sorter_lst.len() && 0 <= t < sorter_lst@[i2].output.len() ==> 1
                    <= #[trigger] sorter_lst@[i2].output@[t] <= model.len() && sorter_lst@[i2].output@[t] <= MAX_VAR,
            ret.len() == i,
            forall|i2: int|
                0 <= i2 < i ==> #[trigger] ret@[i2] == if sorter_lst@[len - 1 - i2].output.len()
                    == 0 {
                    None::<usize>
                } else {
                    Some(first_false(model@, sorter_lst@[len - 1 - i2].output@, 0) as usize)
                },
    {
        let out = &sorter_lst[len - 1 - i].output;
        if out.len() == 0 {
            ret.push(None);
        } else {
            let mut l = out.len();
            let mut j: usize = 0;
            let mut found = false;
            while j < out.len() && !found
                invariant
                    *out == sorter_lst@[len - 1 - i].output,
                    forall|t: int| 0 <= t < out.len() ==> 1 <= #[trigger] out@[t] <= model.len() && out@[t] <= MAX_VAR,
                    j <= out.len(),
                    found ==> l as int == first_false(model@, out@, 0),
                    !found ==> first_false(model@, out@, j as int) == first_false(model@, out@, 0),
                    !found ==> l == out.len(),
                decreases out.len() - j + if found { 0int } else { 1 },
            {
                let k = out[j];
                assert(1 <= k <= model.len());
                if model[k - 1] == -(k as isize) {
                    assert(first_false(model@, out@, j as int) == j as int);
                    l = j;
                    found = true;
                } else {
                    j += 1;
                }
            }
            ret.push(Some(l));
        }
        assert(ret@[i as int] == if sorter_lst@[len - 1 - i].output.len() == 0 {
            None::<usize>
        } else {
            Some(first_false(model@, sorter_lst@[len - 1 - i].output@, 0) as usize)
        });
    }
    ret
}

} // verus!
