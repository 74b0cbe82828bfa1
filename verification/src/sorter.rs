//! Sorters: the comparator network of each digit position written as clauses, so that in
//! every model the outputs hold the inputs' `true`s, all at the front.
use vstd::prelude::*;
use varisat::CnfFormula;
use crate::cnf::{
    lemma_max_var_concat, lemma_max_var_ge, max_var, add_clause2, add_clause3, clauses_within, cnf_clauses, cnf_holds, lemma_clause2,
    lemma_clause3, lemma_clauses_within_concat, lemma_cnf_holds_concat, lit_holds, MAX_VAR, agree_below, extends, lemma_extends_refl, lemma_extends_trans, lemma_holds_agree, lemma_clauses_within_mono,
};
use crate::sortlaw::{
    comp_apply, is_pow2, lemma_next_pow2, lemma_ones_concat, lemma_ones_pattern,
    lemma_sort_net, lemma_sort_net_pairs, net_apply, next_pow2, ones,
};
use crate::sortnet::{as_pairs, mksorter, sort_net};
use crate::cnf::{fixes, lemma_fixes_concat, lemma_fixes_none};
use crate::constraints::{names_only, out_or_new, var_of};

verus! {

/// A sorter: its input variables, its output variables (sorted, `true`s first, in every
/// model), and how many of its inputs are carries from the sorter below.
pub struct Sorter {
    pub input: Vec<usize>,
    pub output: Vec<usize>,
    pub numcarr: usize,
}

/// Truth values of a list of variables; `0` stands for the constant `false`.
pub open spec fn vals(a: spec_fn(int) -> bool, l: Seq<usize>) -> Seq<bool> {
    l.map_values(|v: usize| v != 0 && a(v as int))
}

/// Which entries of a list are variables (not the constant `0`).
pub open spec fn nz(l: Seq<usize>) -> Seq<bool> {
    l.map_values(|v: usize| v != 0)
}

/// Every entry is `0` or a variable below `bound`.
pub open spec fn below(l: Seq<usize>, bound: int) -> bool {
    forall|i: int| 0 <= i < l.len() ==> #[trigger] l[i] < bound
}

/// The clauses of a comparator on variables `o1`, `o2` with fresh outputs `n1 = o1 or o2`
/// and `n2 = o1 and o2`.
pub open spec fn comparator_clauses(o1: int, o2: int, n1: int, n2: int) -> Seq<Seq<int>> {
    seq![
        seq![-o1, -o2, n2],
        seq![o1, -n2],
        seq![o2, -n2],
        seq![o1, o2, -n1],
        seq![-o1, n1],
        seq![-o2, n1],
    ]
}

proof fn lemma_comparator_clauses(a: spec_fn(int) -> bool, o1: int, o2: int, n1: int, n2: int)
    requires
        o1 >= 1,
        o2 >= 1,
        n1 >= 1,
        n2 >= 1,
        cnf_holds(a, comparator_clauses(o1, o2, n1, n2)),
    ensures
        a(n1) == (a(o1) || a(o2)),
        a(n2) == (a(o1) && a(o2)),
{
    let cs = comparator_clauses(o1, o2, n1, n2);
    assert(cs[0] == seq![-o1, -o2, n2]);
    assert(cs[1] == seq![o1, -n2]);
    assert(cs[2] == seq![o2, -n2]);
    assert(cs[3] == seq![o1, o2, -n1]);
    assert(cs[4] == seq![-o1, n1]);
    assert(cs[5] == seq![-o2, n1]);
    lemma_clause3(a, -o1, -o2, n2);
    lemma_clause2(a, o1, -n2);
    lemma_clause2(a, o2, -n2);
    lemma_clause3(a, o1, o2, -n1);
    lemma_clause2(a, -o1, n1);
    lemma_clause2(a, -o2, n1);
}

/// One comparator on places `p.0 < p.1` of a layer, fresh variables taken from `v` on: the
/// layer after it, the clauses it adds and the next fresh variable. Two variables give way
/// to fresh `v` (their `or`) and `v + 1` (their `and`); a variable facing the constant `0`
/// moves to the lower place.
pub open spec fn comp_run(layer: Seq<usize>, p: (int, int), v: int) -> (Seq<usize>, Seq<Seq<int>>, int) {
    let u = layer[p.0];
    let w = layer[p.1];
    if u != 0 && w != 0 {
        (
            layer.update(p.0, v as usize).update(p.1, (v + 1) as usize),
            comparator_clauses(u as int, w as int, v, v + 1),
            v + 2,
        )
    } else if u == 0 && w != 0 {
        (layer.update(p.0, w).update(p.1, 0usize), seq![], v)
    } else {
        (layer, seq![], v)
    }
}

/// A network run comparator by comparator over a layer, fresh variables taken from `v` on:
/// the final layer, all the clauses in order and the next fresh variable.
pub open spec fn net_run(layer: Seq<usize>, net: Seq<(int, int)>, v: int) -> (Seq<usize>, Seq<Seq<int>>, int)
    decreases net.len(),
{
    if net.len() == 0 {
        (layer, seq![], v)
    } else {
        let r = net_run(layer, net.drop_last(), v);
        let s = comp_run(r.0, net.last(), r.2);
        (s.0, r.1 + s.1, s.2)
    }
}

/// The sorter of the inputs `inp`, fresh variables taken from `v` on: the network of the next
/// power of two run over `inp` padded with `0`; its outputs are the first `inp.len()` places.
pub open spec fn sorter_run(inp: Seq<usize>, v: int) -> (Seq<usize>, Seq<Seq<int>>, int) {
    let p2 = next_pow2(inp.len() as int);
    let r = net_run(inp + Seq::new((p2 - inp.len()) as nat, |t: int| 0usize), sort_net(0, p2 - 1), v);
    (r.0.take(inp.len() as int), r.1, r.2)
}

/// The sorters of the first `i` places, fresh variables taken from `v` on: the outputs of
/// each, all their clauses in order and the next fresh variable. Sorter `i` takes the
/// carries of sorter `i - 1`, then the digit copies of place `i`.
pub open spec fn list_run(nb: Seq<Seq<i32>>, b: int, n: int, i: int, v: int) -> (Seq<Seq<usize>>, Seq<Seq<int>>, int)
    decreases i,
{
    if i <= 0 {
        (seq![], seq![], v)
    } else {
        let r = list_run(nb, b, n, i - 1, v);
        let carr = if i == 1 { Seq::<usize>::empty() } else { carries_of(r.0[i - 2], b) };
        let s = sorter_run(carr + copies(nb, i - 1, n, nb.len() as int), r.2);
        (r.0.push(s.0), r.1 + s.1, s.2)
    }
}

/// A comparator's clauses name its two inputs and its two outputs, nothing else.
proof fn lemma_comparator_names(o1: int, o2: int, n1: int, n2: int)
    ensures
        forall|i: int, k: int|
            0 <= i < comparator_clauses(o1, o2, n1, n2).len() && 0 <= k < comparator_clauses(o1, o2, n1, n2)[i].len()
                ==> {
                let v = #[trigger] comparator_clauses(o1, o2, n1, n2)[i][k];
                v == o1 || v == -o1 || v == o2 || v == -o2 || v == n1 || v == -n1 || v == n2 || v == -n2
            },
{
    let cs = comparator_clauses(o1, o2, n1, n2);
    assert(cs[0] == seq![-o1, -o2, n2]);
    assert(cs[1] == seq![o1, -n2]);
    assert(cs[2] == seq![o2, -n2]);
    assert(cs[3] == seq![o1, o2, -n1]);
    assert(cs[4] == seq![-o1, n1]);
    assert(cs[5] == seq![-o2, n1]);
}

/// A comparator's clauses fix its outputs `v0`, `v0 + 1` from its inputs below `v0`.
proof fn lemma_comparator_fixes(o1: int, o2: int, v0: int)
    requires
        1 <= o1 < v0,
        1 <= o2 < v0,
    ensures
        fixes(comparator_clauses(o1, o2, v0, v0 + 1), v0, v0 + 2),
{
    let cs = comparator_clauses(o1, o2, v0, v0 + 1);
    assert forall|a1: spec_fn(int) -> bool, a2: spec_fn(int) -> bool|
        #[trigger] cnf_holds(a1, cs) && #[trigger] cnf_holds(a2, cs) && agree_below(a1, a2, v0) implies agree_below(
        a1,
        a2,
        v0 + 2,
    ) by {
        lemma_comparator_clauses(a1, o1, o2, v0, v0 + 1);
        lemma_comparator_clauses(a2, o1, o2, v0, v0 + 1);
        assert(a1(o1) == a2(o1));
        assert(a1(o2) == a2(o2));
        assert forall|v: int| 1 <= v < v0 + 2 implies #[trigger] a1(v) == a2(v) by {
            if v < v0 {
                assert(a1(v) == a2(v));
            }
        }
    }
}

/// A comparator's clauses on fresh outputs `v0`, `v0 + 1` extend every assignment.
proof fn lemma_comparator_extends(g0: Seq<Seq<int>>, i1: int, i2: int, v0: int)
    requires
        clauses_within(g0, v0),
        1 <= i1 < v0,
        1 <= i2 < v0,
    ensures
        clauses_within(g0 + comparator_clauses(i1, i2, v0, v0 + 1), v0 + 2),
        extends(g0, g0 + comparator_clauses(i1, i2, v0, v0 + 1), v0),
{
    let n1 = v0;
    let n2 = v0 + 1;
    let added = comparator_clauses(i1, i2, n1, n2);
    assert(added[0] == seq![-i1, -i2, n2]);
    assert(added[1] == seq![i1, -n2]);
    assert(added[2] == seq![i2, -n2]);
    assert(added[3] == seq![i1, i2, -n1]);
    assert(added[4] == seq![-i1, n1]);
    assert(added[5] == seq![-i2, n1]);
    assert forall|i: int, k: int| 0 <= i < added.len() && 0 <= k < added[i].len() implies {
        &&& 1 <= #[trigger] added[i][k] < v0 + 2 || (1 <= -added[i][k] && -added[i][k] < v0 + 2)
    } by {
    }
    lemma_clauses_within_concat(g0, added, v0, v0 + 2);
    assert forall|a: spec_fn(int) -> bool| #[trigger] cnf_holds(a, g0) implies exists|a2: spec_fn(int) -> bool|
        agree_below(a2, a, v0) && #[trigger] cnf_holds(a2, g0 + added) by {
        let a2 = |x: int| if x == n1 { a(i1) || a(i2) } else if x == n2 { a(i1) && a(i2) } else { a(x) };
        assert(agree_below(a2, a, v0));
        lemma_holds_agree(a, a2, g0, v0);
        lemma_clause3(a2, -i1, -i2, n2);
        lemma_clause2(a2, i1, -n2);
        lemma_clause2(a2, i2, -n2);
        lemma_clause3(a2, i1, i2, -n1);
        lemma_clause2(a2, -i1, n1);
        lemma_clause2(a2, -i2, n1);
        assert(cnf_holds(a2, added));
        lemma_cnf_holds_concat(a2, g0, added);
    }
}

/// Applies one comparator `(in0, in1)` to the layer of variables. Where both places hold
/// variables, two fresh variables take their place and six clauses define them; where one
/// is the constant `0`, the variable moves to the lower place.
fn comparator_step(
    layer: &mut Vec<usize>,
    in0: usize,
    in1: usize,
    g: &mut CnfFormula,
    vargen: &mut usize,
)
    requires
        in0 < in1 < old(layer).len(),
        1 <= *old(vargen),
        *old(vargen) + 2 <= MAX_VAR + 1,
        below(old(layer)@, *old(vargen) as int),
    ensures
        max_var(cnf_clauses(*final(g))) >= max_var(cnf_clauses(*old(g))),
        *final(vargen) > *old(vargen) ==> max_var(cnf_clauses(*final(g))) >= *final(vargen) - 1,
        clauses_within(cnf_clauses(*old(g)), *old(vargen) as int) ==> clauses_within(cnf_clauses(*final(g)), *final(vargen) as int)
            && extends(cnf_clauses(*old(g)), cnf_clauses(*final(g)), *old(vargen) as int),
        final(layer)@.len() == old(layer)@.len(),
        *old(vargen) <= *final(vargen) <= *old(vargen) + 2,
        *final(vargen) == *old(vargen) + if nz(old(layer)@)[in0 as int] && nz(old(layer)@)[in1 as int] { 2int } else { 0 },
        below(final(layer)@, *final(vargen) as int),
        nz(final(layer)@) == comp_apply(nz(old(layer)@), (in0 as int, in1 as int)),
        cnf_clauses(*final(g)).take(cnf_clauses(*old(g)).len() as int) == cnf_clauses(*old(g)),
        cnf_clauses(*final(g)).len() >= cnf_clauses(*old(g)).len(),
        clauses_within(
            cnf_clauses(*final(g)).skip(cnf_clauses(*old(g)).len() as int),
            *final(vargen) as int,
        ),
        forall|a: spec_fn(int) -> bool|
            #[trigger] cnf_holds(a, cnf_clauses(*final(g))) ==> vals(a, final(layer)@)
                == comp_apply(vals(a, old(layer)@), (in0 as int, in1 as int)),
        fixes(cnf_clauses(*final(g)).skip(cnf_clauses(*old(g)).len() as int), *old(vargen) as int, *final(vargen) as int),
        names_only(
            cnf_clauses(*final(g)).skip(cnf_clauses(*old(g)).len() as int),
            old(layer)@,
            *old(vargen) as int,
            *final(vargen) as int,
        ),
        forall|t: int|
            0 <= t < final(layer).len() ==> #[trigger] final(layer)@[t] == 0 || out_or_new(
                final(layer)@[t] as int,
                old(layer)@,
                *old(vargen) as int,
                *final(vargen) as int,
            ),
        final(layer)@ == comp_run(old(layer)@, (in0 as int, in1 as int), *old(vargen) as int).0,
        cnf_clauses(*final(g)).skip(cnf_clauses(*old(g)).len() as int) == comp_run(old(layer)@, (in0 as int, in1 as int), *old(vargen) as int).1,
        *final(vargen) == comp_run(old(layer)@, (in0 as int, in1 as int), *old(vargen) as int).2,
{
    let ghost g0 = cnf_clauses(*g);
    let ghost l0 = layer@;
    let ghost v0 = *vargen as int;
    proof {
        lemma_extends_refl(g0, v0);
    }
    let u = layer[in0];
    let v = layer[in1];
    if u == 0 && v == 0 {
        assert(nz(layer@) =~= comp_apply(nz(l0), (in0 as int, in1 as int)));
        assert forall|a: spec_fn(int) -> bool|
            #[trigger] cnf_holds(a, cnf_clauses(*g)) implies vals(a, layer@) == comp_apply(
            vals(a, l0),
            (in0 as int, in1 as int),
        ) by {
            assert(vals(a, layer@) =~= comp_apply(vals(a, l0), (in0 as int, in1 as int)));
        }
    } else if u == 0 {
        layer.set(in0, v);
        layer.set(in1, 0);
        assert(layer@ =~= l0.update(in0 as int, v).update(in1 as int, 0usize));
        assert(nz(layer@) =~= comp_apply(nz(l0), (in0 as int, in1 as int)));
        assert forall|a: spec_fn(int) -> bool|
            #[trigger] cnf_holds(a, cnf_clauses(*g)) implies vals(a, layer@) == comp_apply(
            vals(a, l0),
            (in0 as int, in1 as int),
        ) by {
            assert(vals(a, layer@) =~= comp_apply(vals(a, l0), (in0 as int, in1 as int)));
        }
    } else if v == 0 {
        assert(nz(layer@) =~= comp_apply(nz(l0), (in0 as int, in1 as int)));
        assert forall|a: spec_fn(int) -> bool|
            #[trigger] cnf_holds(a, cnf_clauses(*g)) implies vals(a, layer@) == comp_apply(
            vals(a, l0),
            (in0 as int, in1 as int),
        ) by {
            assert(vals(a, layer@) =~= comp_apply(vals(a, l0), (in0 as int, in1 as int)));
        }
    } else {
        let newo1 = *vargen as isize;
        *vargen += 1;
        let newo2 = *vargen as isize;
        *vargen += 1;
        let oldi1 = u as isize;
        let oldi2 = v as isize;
        add_clause3(g, -oldi1, -oldi2, newo2);
        add_clause2(g, oldi1, -newo2);
        add_clause2(g, oldi2, -newo2);
        add_clause3(g, oldi1, oldi2, -newo1);
        add_clause2(g, -oldi1, newo1);
        add_clause2(g, -oldi2, newo1);
        let ghost added = comparator_clauses(
            oldi1 as int,
            oldi2 as int,
            newo1 as int,
            newo2 as int,
        );
        assert(cnf_clauses(*g) =~= g0 + added);
        proof {
            assert(cnf_clauses(*g)[g0.len() as int] == seq![-oldi1 as int, -oldi2 as int, newo2 as int]);
            lemma_max_var_ge(cnf_clauses(*g), g0.len() as int, 2);
            lemma_max_var_concat(g0, added);
        }
        layer.set(in0, newo1 as usize);
        layer.set(in1, newo2 as usize);
        assert(layer@ =~= l0.update(in0 as int, v0 as usize).update(in1 as int, (v0 + 1) as usize));
        assert(nz(layer@) =~= comp_apply(nz(l0), (in0 as int, in1 as int)));
        assert forall|a: spec_fn(int) -> bool|
            #[trigger] cnf_holds(a, cnf_clauses(*g)) implies vals(a, layer@) == comp_apply(
            vals(a, l0),
            (in0 as int, in1 as int),
        ) by {
            lemma_cnf_holds_concat(a, g0, added);
            lemma_comparator_clauses(a, oldi1 as int, oldi2 as int, newo1 as int, newo2 as int);
            assert(vals(a, layer@) =~= comp_apply(vals(a, l0), (in0 as int, in1 as int)));
        }
        assert(cnf_clauses(*g).skip(g0.len() as int) =~= added);
        proof {
            if clauses_within(g0, v0) {
                lemma_comparator_extends(g0, oldi1 as int, oldi2 as int, v0);
            }
            lemma_comparator_fixes(oldi1 as int, oldi2 as int, v0);
            lemma_comparator_names(oldi1 as int, oldi2 as int, newo1 as int, newo2 as int);
            assert(l0[in0 as int] == u && l0[in1 as int] == v);
            assert forall|i: int, k: int| 0 <= i < added.len() && 0 <= k < added[i].len() implies out_or_new(
                var_of(#[trigger] added[i][k]),
                l0,
                v0,
                *vargen as int,
            ) by {
                let x = added[i][k];
                if var_of(x) == u {
                    assert(l0[in0 as int] == var_of(x));
                } else if var_of(x) == v {
                    assert(l0[in1 as int] == var_of(x));
                }
            }
            assert forall|t: int| 0 <= t < layer.len() implies #[trigger] layer@[t] == 0 || out_or_new(
                layer@[t] as int,
                l0,
                v0,
                *vargen as int,
            ) by {
                if t != in0 && t != in1 {
                    assert(layer@[t] == l0[t]);
                }
            }
        }
    }
    assert(cnf_clauses(*g).take(g0.len() as int) =~= g0);
    proof {
        if *vargen == v0 {
            assert(cnf_clauses(*g).skip(g0.len() as int) =~= Seq::<Seq<int>>::empty());
            lemma_fixes_none(Seq::<Seq<int>>::empty(), v0);
            assert forall|t: int| 0 <= t < layer.len() implies #[trigger] layer@[t] == 0 || out_or_new(
                layer@[t] as int,
                l0,
                v0,
                *vargen as int,
            ) by {
                if layer@[t] != 0 {
                    if t == in0 && l0[in0 as int] == 0 {
                        assert(l0[in1 as int] == layer@[t]);
                    } else {
                        assert(l0[t] == layer@[t]);
                    }
                }
            }
        }
    }
}


/// The smallest power of two that is at least `j` (`1` for `0`).
pub fn next_power_of_two(j: usize) -> (p: usize)
    requires
        j <= MAX_VAR,
    ensures
        p as int == next_pow2(j as int),
{
    let mut p: usize = 1;
    while p < j
        invariant
            1 <= p,
            p < 2 * MAX_VAR,
            j <= MAX_VAR,
            crate::sortlaw::pow2_from(p as int, j as int) == next_pow2(j as int),
        decreases 2 * j - p,
    {
        p = p * 2;
    }
    p
}

pub proof fn lemma_cnf_holds_prefix(a: spec_fn(int) -> bool, c: Seq<Seq<int>>, k: int)
    requires
        0 <= k <= c.len(),
        cnf_holds(a, c),
    ensures
        cnf_holds(a, c.take(k)),
{
    assert forall|i: int| 0 <= i < c.take(k).len() implies crate::cnf::clause_holds(
        a,
        #[trigger] c.take(k)[i],
    ) by {
        assert(c.take(k)[i] == c[i]);
    }
}

/// The layer `inp` padded with the constant `0` up to length `p2`.
fn pad_layer(inp: &Vec<usize>, p2: usize) -> (layer: Vec<usize>)
    requires
        inp.len() <= p2,
    ensures
        layer@ == inp@ + Seq::new((p2 - inp.len()) as nat, |i: int| 0usize),
{
    let j = inp.len();
    let mut layer = Vec::<usize>::new();
    for k in 0..j
        invariant
            j == inp.len(),
            layer@ == inp@.take(k as int),
    {
        layer.push(inp[k]);
        assert(layer@ =~= inp@.take(k + 1));
    }
    for k in j..p2
        invariant
            j == inp.len(),
            j <= k <= p2,
            layer@ == inp@ + Seq::new((k - j) as nat, |i: int| 0usize),
    {
        layer.push(0);
        assert(layer@ =~= inp@ + Seq::new((k + 1 - j) as nat, |i: int| 0usize));
    }
    assert(inp@.take(j as int) =~= inp@);
    layer
}

/// How many comparators of `net` meet two variables (no constant `0`), run over a layer whose
/// places hold variables where `z` says so: each of them takes two fresh variables.
pub open spec fn live_comparators(z: Seq<bool>, net: Seq<(int, int)>) -> int
    decreases net.len(),
{
    if net.len() == 0 {
        0
    } else {
        let zb = net_apply(z, net.drop_last());
        live_comparators(z, net.drop_last()) + if zb[net.last().0] && zb[net.last().1] { 1int } else { 0 }
    }
}

/// The fresh variables the sorter of `j` inputs takes: two for each comparator of the
/// network of the next power of two that meets two variables, the padding being `0`.
pub open spec fn sorter_new_vars(j: int) -> int {
    2 * live_comparators(
        Seq::new(next_pow2(j) as nat, |i: int| i < j),
        sort_net(0, next_pow2(j) - 1),
    )
}

/// The fresh variables the sorters of the first `i` places take.
pub open spec fn list_new_vars(nb: Seq<Seq<i32>>, b: int, n: int, i: int) -> int
    decreases i,
{
    if i <= 0 { 0 } else { list_new_vars(nb, b, n, i - 1) + sorter_new_vars(slen(nb, b, n, i - 1)) }
}

/// Every place holds `0`, a variable of `base0` or one in `lo..hi`.
pub open spec fn layer_from(layer: Seq<usize>, base0: Seq<usize>, lo: int, hi: int) -> bool {
    forall|t: int| 0 <= t < layer.len() ==> #[trigger] layer[t] == 0 || out_or_new(layer[t] as int, base0, lo, hi)
}

/// Clauses that name a layer's variables or fresh ones name, through that layer, the
/// variables it came from or fresh ones.
proof fn lemma_names_through(cs: Seq<Seq<int>>, mid: Seq<usize>, base0: Seq<usize>, v0: int, vb: int, va: int)
    requires
        names_only(cs, mid, vb, va),
        clauses_within(cs, va),
        v0 <= vb <= va,
        layer_from(mid, base0, v0, vb),
    ensures
        names_only(cs, base0, v0, va),
{
    assert forall|i: int, k: int| 0 <= i < cs.len() && 0 <= k < cs[i].len() implies out_or_new(
        var_of(#[trigger] cs[i][k]),
        base0,
        v0,
        va,
    ) by {
        let x = var_of(cs[i][k]);
        assert(out_or_new(x, mid, vb, va));
        assert(x >= 1);
        if !(vb <= x < va) {
            let t = choose|t: int| 0 <= t < mid.len() && #[trigger] mid[t] == x;
            assert(mid[t] == 0 || out_or_new(mid[t] as int, base0, v0, vb));
        }
    }
}

/// A layer taken from a layer that came from `base0` comes from `base0`.
proof fn lemma_layer_through(lay: Seq<usize>, mid: Seq<usize>, base0: Seq<usize>, v0: int, vb: int, va: int)
    requires
        layer_from(lay, mid, vb, va),
        layer_from(mid, base0, v0, vb),
        v0 <= vb <= va,
    ensures
        layer_from(lay, base0, v0, va),
{
    assert forall|t: int| 0 <= t < lay.len() implies #[trigger] lay[t] == 0 || out_or_new(lay[t] as int, base0, v0, va) by {
        if lay[t] != 0 && !(vb <= lay[t] < va) {
            let t2 = choose|t2: int| 0 <= t2 < mid.len() && #[trigger] mid[t2] == lay[t] as int;
            assert(mid[t2] == 0 || out_or_new(mid[t2] as int, base0, v0, vb));
        }
    }
}

/// Names from `lo..h1` and from `lo..h2`, `h1 <= h2`, together name from `lo..h2`.
proof fn lemma_names_concat(c1: Seq<Seq<int>>, c2: Seq<Seq<int>>, base0: Seq<usize>, lo: int, h1: int, h2: int)
    requires
        names_only(c1, base0, lo, h1),
        names_only(c2, base0, lo, h2),
        h1 <= h2,
    ensures
        names_only(c1 + c2, base0, lo, h2),
{
    assert forall|i: int, k: int| 0 <= i < (c1 + c2).len() && 0 <= k < (c1 + c2)[i].len() implies out_or_new(
        var_of(#[trigger] (c1 + c2)[i][k]),
        base0,
        lo,
        h2,
    ) by {
        if i < c1.len() {
            assert((c1 + c2)[i] == c1[i]);
            assert(out_or_new(var_of(c1[i][k]), base0, lo, h1));
        } else {
            assert((c1 + c2)[i] == c2[i - c1.len()]);
            assert(out_or_new(var_of(c2[i - c1.len()][k]), base0, lo, h2));
        }
    }
}

/// Runs the comparators of `ve` over the layer, writing their clauses into `g`.
fn run_network(layer: &mut Vec<usize>, ve: &Vec<(usize, usize)>, g: &mut CnfFormula, vargen: &mut usize)
    requires
        forall|i: int|
            0 <= i < ve.len() ==> (#[trigger] ve[i]).0 < ve[i].1 < old(layer)@.len(),
        1 <= *old(vargen),
        *old(vargen) + 2 * ve.len() <= MAX_VAR + 1,
        below(old(layer)@, *old(vargen) as int),
    ensures
        max_var(cnf_clauses(*final(g))) >= max_var(cnf_clauses(*old(g))),
        *final(vargen) > *old(vargen) ==> max_var(cnf_clauses(*final(g))) >= *final(vargen) - 1,
        clauses_within(cnf_clauses(*old(g)), *old(vargen) as int) ==> clauses_within(cnf_clauses(*final(g)), *final(vargen) as int)
            && extends(cnf_clauses(*old(g)), cnf_clauses(*final(g)), *old(vargen) as int),
        final(layer)@.len() == old(layer)@.len(),
        *old(vargen) <= *final(vargen) <= *old(vargen) + 2 * ve.len(),
        *final(vargen) == *old(vargen) + 2 * live_comparators(nz(old(layer)@), as_pairs(ve@)),
        below(final(layer)@, *final(vargen) as int),
        nz(final(layer)@) == net_apply(nz(old(layer)@), as_pairs(ve@)),
        cnf_clauses(*final(g)).take(cnf_clauses(*old(g)).len() as int) == cnf_clauses(*old(g)),
        cnf_clauses(*final(g)).len() >= cnf_clauses(*old(g)).len(),
        clauses_within(
            cnf_clauses(*final(g)).skip(cnf_clauses(*old(g)).len() as int),
            *final(vargen) as int,
        ),
        forall|a: spec_fn(int) -> bool|
            #[trigger] cnf_holds(a, cnf_clauses(*final(g))) ==> vals(a, final(layer)@)
                == net_apply(vals(a, old(layer)@), as_pairs(ve@)),
        fixes(cnf_clauses(*final(g)).skip(cnf_clauses(*old(g)).len() as int), *old(vargen) as int, *final(vargen) as int),
        names_only(
            cnf_clauses(*final(g)).skip(cnf_clauses(*old(g)).len() as int),
            old(layer)@,
            *old(vargen) as int,
            *final(vargen) as int,
        ),
        layer_from(final(layer)@, old(layer)@, *old(vargen) as int, *final(vargen) as int),
        final(layer)@ == net_run(old(layer)@, as_pairs(ve@), *old(vargen) as int).0,
        cnf_clauses(*final(g)).skip(cnf_clauses(*old(g)).len() as int) == net_run(old(layer)@, as_pairs(ve@), *old(vargen) as int).1,
        *final(vargen) == net_run(old(layer)@, as_pairs(ve@), *old(vargen) as int).2,
{
    let ghost g0 = cnf_clauses(*g);
    let ghost v0 = *vargen;
    let ghost layer0 = layer@;
    let ghost net = as_pairs(ve@);
    let mut k: usize = 0;
    proof {
        lemma_extends_refl(g0, v0 as int);
        assert(cnf_clauses(*g).skip(g0.len() as int) =~= Seq::<Seq<int>>::empty());
        assert(net.take(0) =~= Seq::<(int, int)>::empty());
        lemma_fixes_none(Seq::<Seq<int>>::empty(), v0 as int);
        assert forall|t: int| 0 <= t < layer0.len() implies #[trigger] layer0[t] == 0 || out_or_new(
            layer0[t] as int,
            layer0,
            v0 as int,
            v0 as int,
        ) by {
            assert(layer0[t] == layer0[t]);
        }
    }
    while k < ve.len()
        invariant
            net == as_pairs(ve@),
            clauses_within(g0, v0 as int) ==> clauses_within(cnf_clauses(*g), *vargen as int)
                && extends(g0, cnf_clauses(*g), v0 as int),
            forall|i: int|
                0 <= i < ve.len() ==> (#[trigger] ve[i]).0 < ve[i].1 < layer0.len(),
            0 <= k <= ve.len(),
            layer@.len() == layer0.len(),
            1 <= v0 <= *vargen,
            *vargen + 2 * (ve.len() - k) <= MAX_VAR + 1,
            *vargen <= v0 + 2 * k,
            max_var(cnf_clauses(*g)) >= max_var(g0),
            *vargen > v0 ==> max_var(cnf_clauses(*g)) >= *vargen - 1,
            below(layer@, *vargen as int),
            nz(layer@) == net_apply(nz(layer0), net.take(k as int)),
            *vargen == v0 + 2 * live_comparators(nz(layer0), net.take(k as int)),
            cnf_clauses(*g).take(g0.len() as int) == g0,
            cnf_clauses(*g).len() >= g0.len(),
            clauses_within(cnf_clauses(*g).skip(g0.len() as int), *vargen as int),
            forall|a: spec_fn(int) -> bool|
                #[trigger] cnf_holds(a, cnf_clauses(*g)) ==> vals(a, layer@) == net_apply(
                    vals(a, layer0),
                    net.take(k as int),
                ),
            fixes(cnf_clauses(*g).skip(g0.len() as int), v0 as int, *vargen as int),
            names_only(cnf_clauses(*g).skip(g0.len() as int), layer0, v0 as int, *vargen as int),
            layer_from(layer@, layer0, v0 as int, *vargen as int),
            layer@ == net_run(layer0, net.take(k as int), v0 as int).0,
            cnf_clauses(*g).skip(g0.len() as int) == net_run(layer0, net.take(k as int), v0 as int).1,
            *vargen == net_run(layer0, net.take(k as int), v0 as int).2,
        decreases ve.len() - k,
    {
        let ghost gb = cnf_clauses(*g);
        let ghost lb = layer@;
        let ghost vb = *vargen;
        let in0 = ve[k].0;
        let in1 = ve[k].1;
        assert(net[k as int] == (in0 as int, in1 as int));
        comparator_step(layer, in0, in1, g, vargen);
        let ghost ga = cnf_clauses(*g);
        proof {
            if clauses_within(g0, v0 as int) {
                lemma_extends_trans(g0, gb, ga, v0 as int, vb as int);
            }
        }
        assert(net.take(k + 1).drop_last() =~= net.take(k as int));
        assert(net.take(k + 1).last() == net[k as int]);
        assert(nz(lb) == net_apply(nz(layer0), net.take(k as int)));
        assert(live_comparators(nz(layer0), net.take(k + 1)) == live_comparators(nz(layer0), net.take(k as int))
            + if nz(lb)[in0 as int] && nz(lb)[in1 as int] { 1int } else { 0 });
        assert(ga =~= gb + ga.skip(gb.len() as int));
        assert(gb =~= g0 + gb.skip(g0.len() as int));
        assert(ga.skip(g0.len() as int) =~= gb.skip(g0.len() as int) + ga.skip(gb.len() as int));
        proof {
            lemma_clauses_within_concat(
                gb.skip(g0.len() as int),
                ga.skip(gb.len() as int),
                vb as int,
                *vargen as int,
            );
            lemma_fixes_concat(gb.skip(g0.len() as int), ga.skip(gb.len() as int), v0 as int, vb as int, *vargen as int);
            lemma_names_through(ga.skip(gb.len() as int), lb, layer0, v0 as int, vb as int, *vargen as int);
            lemma_names_concat(gb.skip(g0.len() as int), ga.skip(gb.len() as int), layer0, v0 as int, vb as int, *vargen as int);
            lemma_layer_through(layer@, lb, layer0, v0 as int, vb as int, *vargen as int);
        }
        assert(ga.take(g0.len() as int) =~= g0);
        assert forall|a: spec_fn(int) -> bool| #[trigger]
            cnf_holds(a, cnf_clauses(*g)) implies vals(a, layer@) == net_apply(
            vals(a, layer0),
            net.take(k + 1),
        ) by {
            lemma_cnf_holds_prefix(a, ga, gb.len() as int);
            assert(ga.take(gb.len() as int) =~= gb);
        }
        k += 1;
    }
    assert(net.take(k as int) =~= net);
}

/// A padded layer sorted by the network: its first `j` places hold variables.
proof fn lemma_sorted_nz(inp: Seq<usize>, layer0: Seq<usize>, layer: Seq<usize>, p2: int)
    requires
        is_pow2(p2),
        inp.len() <= p2,
        layer0 == inp + Seq::new((p2 - inp.len()) as nat, |i: int| 0usize),
        forall|i: int| 0 <= i < inp.len() ==> #[trigger] inp[i] >= 1,
        nz(layer) == net_apply(nz(layer0), sort_net(0, p2 - 1)),
    ensures
        forall|i: int| 0 <= i < p2 ==> #[trigger] nz(layer)[i] == (i < inp.len()),
{
    let j = inp.len() as int;
    let zeros = Seq::new((p2 - j) as nat, |i: int| 0usize);
    lemma_sort_net(nz(layer0), 0, p2 - 1);
    assert forall|i: int| 0 <= i < p2 implies nz(layer0)[i] == (i - 0 < j) by {
        if i < j {
            assert(layer0[i] == inp[i]);
        } else {
            assert(layer0[i] == zeros[i - j]);
        }
    }
    lemma_ones_pattern(nz(layer0), 0, p2, j);
    assert(nz(layer0).subrange(0, p2) =~= nz(layer0));
}

/// A padded layer sorted by the network: its values hold as many `true`s as the inputs,
/// all at the front.
proof fn lemma_sorted_vals(
    inp: Seq<usize>,
    layer0: Seq<usize>,
    layer: Seq<usize>,
    p2: int,
    a: spec_fn(int) -> bool,
)
    requires
        is_pow2(p2),
        inp.len() <= p2,
        layer0 == inp + Seq::new((p2 - inp.len()) as nat, |i: int| 0usize),
        vals(a, layer) == net_apply(vals(a, layer0), sort_net(0, p2 - 1)),
    ensures
        forall|t: int| 0 <= t < p2 ==> #[trigger] vals(a, layer)[t] == (t < ones(vals(a, inp))),
{
    let j = inp.len() as int;
    let falses = Seq::new((p2 - j) as nat, |i: int| false);
    let s0 = vals(a, layer0);
    lemma_sort_net(s0, 0, p2 - 1);
    assert(s0.subrange(0, p2) =~= vals(a, inp) + falses);
    lemma_ones_concat(vals(a, inp), falses);
    lemma_ones_pattern(falses, 0, p2 - j, 0);
    assert(falses.subrange(0, p2 - j) =~= falses);
}

/// A variable of a padded layer is a variable of the layer before padding.
proof fn lemma_unpad_var(inp: Seq<usize>, layer0: Seq<usize>, p2: int, x: int, lo: int, hi: int)
    requires
        inp.len() <= p2,
        layer0 == inp + Seq::new((p2 - inp.len()) as nat, |i: int| 0usize),
        x >= 1,
        out_or_new(x, layer0, lo, hi),
    ensures
        out_or_new(x, inp, lo, hi),
{
    if !(lo <= x < hi) {
        let t = choose|t: int| 0 <= t < layer0.len() && #[trigger] layer0[t] == x;
        if t >= inp.len() {
            assert(layer0[t] == 0);
        } else {
            assert(inp[t] == layer0[t]);
        }
    }
}

/// The sorter of one digit position: runs the odd-even merge sorting network of the next
/// power of two over `inp` (padded with the constant `0`) and returns the variables at the
/// first `inp.len()` places. In every assignment that satisfies the clauses, the outputs
/// hold exactly as many `true`s as the inputs, all at the front.
pub fn build_sorter(inp: &Vec<usize>, g: &mut CnfFormula, vargen: &mut usize) -> (oup: Vec<usize>)
    requires
        inp.len() <= MAX_VAR,
        1 <= *old(vargen),
        *old(vargen) + 2 * sort_net(0, next_pow2(inp.len() as int) - 1).len() <= MAX_VAR + 1,
        below(inp@, *old(vargen) as int),
        forall|i: int| 0 <= i < inp.len() ==> #[trigger] inp[i] >= 1,
    ensures
        max_var(cnf_clauses(*final(g))) >= max_var(cnf_clauses(*old(g))),
        *final(vargen) > *old(vargen) ==> max_var(cnf_clauses(*final(g))) >= *final(vargen) - 1,
        clauses_within(cnf_clauses(*old(g)), *old(vargen) as int) ==> clauses_within(cnf_clauses(*final(g)), *final(vargen) as int)
            && extends(cnf_clauses(*old(g)), cnf_clauses(*final(g)), *old(vargen) as int),
        oup.len() == inp.len(),
        *final(vargen) == *old(vargen) + sorter_new_vars(inp.len() as int),
        *old(vargen) <= *final(vargen) <= *old(vargen) + 2 * sort_net(
            0,
            next_pow2(inp.len() as int) - 1,
        ).len(),
        below(oup@, *final(vargen) as int),
        forall|i: int| 0 <= i < oup.len() ==> #[trigger] oup[i] >= 1,
        cnf_clauses(*final(g)).take(cnf_clauses(*old(g)).len() as int) == cnf_clauses(*old(g)),
        cnf_clauses(*final(g)).len() >= cnf_clauses(*old(g)).len(),
        clauses_within(
            cnf_clauses(*final(g)).skip(cnf_clauses(*old(g)).len() as int),
            *final(vargen) as int,
        ),
        forall|a: spec_fn(int) -> bool|
            #[trigger] cnf_holds(a, cnf_clauses(*final(g))) ==> forall|t: int|
                0 <= t < oup.len() ==> #[trigger] vals(a, oup@)[t] == (t < ones(vals(a, inp@))),
        fixes(cnf_clauses(*final(g)).skip(cnf_clauses(*old(g)).len() as int), *old(vargen) as int, *final(vargen) as int),
        names_only(
            cnf_clauses(*final(g)).skip(cnf_clauses(*old(g)).len() as int),
            inp@,
            *old(vargen) as int,
            *final(vargen) as int,
        ),
        forall|t: int| 0 <= t < oup.len() ==> out_or_new(#[trigger] oup@[t] as int, inp@, *old(vargen) as int, *final(vargen) as int),
        oup@ == sorter_run(inp@, *old(vargen) as int).0,
        cnf_clauses(*final(g)).skip(cnf_clauses(*old(g)).len() as int) == sorter_run(inp@, *old(vargen) as int).1,
        *final(vargen) == sorter_run(inp@, *old(vargen) as int).2,
{
    let ghost g0 = cnf_clauses(*g);
    let ghost v0 = *vargen as int;
    let j = inp.len();
    let p2 = next_power_of_two(j);
    proof {
        lemma_next_pow2(j as int);
        lemma_sort_net_pairs(0, p2 - 1);
    }
    let mut ve = Vec::<(usize, usize)>::new();
    mksorter(&mut ve, 0, p2 - 1);
    assert(as_pairs(ve@) =~= sort_net(0, p2 - 1));
    let mut layer = pad_layer(inp, p2);
    let ghost layer0 = layer@;
    assert forall|i: int| 0 <= i < ve.len() implies (#[trigger] ve[i]).0 < ve[i].1 < layer0.len() by {
        assert(as_pairs(ve@)[i] == (ve[i].0 as int, ve[i].1 as int));
    }
    assert(below(layer0, *vargen as int));
    assert(nz(layer0) =~= Seq::new(next_pow2(j as int) as nat, |i: int| i < j)) by {
        assert forall|i: int| 0 <= i < layer0.len() implies #[trigger] nz(layer0)[i] == (i < j) by {
            if i < j {
                assert(layer0[i] == inp@[i]);
            }
        }
    }
    assert(layer0 =~= inp@ + Seq::new((p2 - j) as nat, |t: int| 0usize));
    run_network(&mut layer, &ve, g, vargen);
    assert forall|i: int| 0 <= i < p2 implies #[trigger] nz(layer@)[i] == (i < j) by {
        lemma_sorted_nz(inp@, layer0, layer@, p2 as int);
    }
    let mut oup = Vec::<usize>::new();
    for t in 0..j
        invariant
            j == inp.len(),
            j <= p2,
            layer@.len() == p2,
            oup@ == layer@.take(t as int),
            forall|i: int| 0 <= i < p2 ==> #[trigger] nz(layer@)[i] == (i < j),
    {
        assert(nz(layer@)[t as int] == (t < j));
        oup.push(layer[t]);
        assert(oup@ =~= layer@.take(t + 1));
    }
    assert forall|a: spec_fn(int) -> bool| #[trigger] cnf_holds(a, cnf_clauses(*g)) implies forall|t: int|
        0 <= t < oup.len() ==> #[trigger] vals(a, oup@)[t] == (t < ones(vals(a, inp@))) by {
        lemma_sorted_vals(inp@, layer0, layer@, p2 as int, a);
        assert forall|t: int| 0 <= t < oup.len() implies #[trigger] vals(a, oup@)[t] == (t < ones(
            vals(a, inp@),
        )) by {
            assert(vals(a, oup@)[t] == vals(a, layer@)[t]);
        }
    }
    assert forall|i: int| 0 <= i < oup.len() implies #[trigger] oup[i] >= 1 by {
        assert(nz(layer@)[i] == (i < j));
    }
    proof {
        let cs = cnf_clauses(*g).skip(g0.len() as int);
        assert forall|i: int, k: int| 0 <= i < cs.len() && 0 <= k < cs[i].len() implies out_or_new(
            var_of(#[trigger] cs[i][k]),
            inp@,
            v0,
            *vargen as int,
        ) by {
            assert(out_or_new(var_of(cs[i][k]), layer0, v0, *vargen as int));
            lemma_unpad_var(inp@, layer0, p2 as int, var_of(cs[i][k]), v0, *vargen as int);
        }
        assert forall|t: int| 0 <= t < oup.len() implies out_or_new(#[trigger] oup@[t] as int, inp@, v0, *vargen as int) by {
            assert(oup@[t] == layer@[t]);
            assert(nz(layer@)[t] == (t < j));
            lemma_unpad_var(inp@, layer0, p2 as int, oup@[t] as int, v0, *vargen as int);
        }
        assert(oup@ =~= layer@.take(j as int));
    }
    oup
}


/// Digit `i` of coefficient `j` (`0` past its last digit).
pub open spec fn digit_at(nb: Seq<Seq<i32>>, j: int, i: int) -> int {
    if 0 <= i < nb[j].len() { nb[j][i] as int } else { 0 }
}

/// The inputs that the digits at position `i` give: variable `n + 1 + j` repeated
/// `digit_at(j, i)` times, for `j < jj`.
pub open spec fn copies(nb: Seq<Seq<i32>>, i: int, n: int, jj: int) -> Seq<usize>
    decreases jj,
{
    if jj <= 0 {
        seq![]
    } else {
        copies(nb, i, n, jj - 1) + Seq::new(
            (if digit_at(nb, jj - 1, i) > 0 { digit_at(nb, jj - 1, i) } else { 0 }) as nat,
            |t: int| (n + jj) as usize,
        )
    }
}

/// The carries a sorter passes up: its outputs at places `b - 1, 2b - 1, ...`.
pub open spec fn carries_of(out: Seq<usize>, b: int) -> Seq<usize> {
    Seq::new(((out.len() as int) / b) as nat, |k: int| out[(k + 1) * b - 1])
}

/// Most digits of any coefficient.
pub open spec fn max_len(nb: Seq<Seq<i32>>) -> int
    decreases nb.len(),
{
    if nb.len() == 0 {
        0
    } else {
        let m = max_len(nb.drop_last());
        if m < nb.last().len() { nb.last().len() as int } else { m }
    }
}

/// Number of inputs of sorter `i`.
pub open spec fn slen(nb: Seq<Seq<i32>>, b: int, n: int, i: int) -> int
    decreases i + 1,
{
    if i < 0 {
        0
    } else {
        slen(nb, b, n, i - 1) / b + copies(nb, i, n, nb.len() as int).len()
    }
}

/// Fresh variables that the sorters below position `i` may take.
pub open spec fn budget(nb: Seq<Seq<i32>>, b: int, n: int, i: int) -> int
    decreases i,
{
    if i <= 0 {
        0
    } else {
        budget(nb, b, n, i - 1) + 2 * sort_net(0, next_pow2(slen(nb, b, n, i - 1)) - 1).len()
    }
}

/// Sorter `i` of the list is built as the encoding asks: its inputs are the carries of the
/// sorter below, then the digit copies of position `i`.
pub open spec fn sorter_shape(sl: Seq<Sorter>, nb: Seq<Seq<i32>>, n: int, b: int, i: int) -> bool {
    let s = sl[i];
    let carr = if i == 0 { Seq::<usize>::empty() } else { carries_of(sl[i - 1].output@, b) };
    &&& s.input@ == carr + copies(nb, i, n, nb.len() as int)
    &&& s.numcarr == carr.len()
    &&& s.output.len() == s.input.len()
    &&& s.input.len() == slen(nb, b, n, i)
}

/// All of a sorter's variables lie in `1..bound`.
pub open spec fn sorter_vars(s: Sorter, bound: int) -> bool {
    &&& below(s.input@, bound)
    &&& below(s.output@, bound)
    &&& forall|k: int| 0 <= k < s.input.len() ==> #[trigger] s.input@[k] >= 1
    &&& forall|k: int| 0 <= k < s.output.len() ==> #[trigger] s.output@[k] >= 1
}

/// Under `a`, the outputs hold as many `true`s as the inputs, all at the front.
pub open spec fn sorter_sorts(a: spec_fn(int) -> bool, s: Sorter) -> bool {
    forall|t: int|
        0 <= t < s.output.len() ==> #[trigger] vals(a, s.output@)[t] == (t < ones(vals(a, s.input@)))
}

pub proof fn lemma_budget_mono(nb: Seq<Seq<i32>>, b: int, n: int, i: int, l: int)
    requires
        0 <= i <= l,
    ensures
        0 <= budget(nb, b, n, i) <= budget(nb, b, n, l),
    decreases l,
{
    if i < l {
        lemma_budget_mono(nb, b, n, i, l - 1);
    } else if i > 0 {
        lemma_budget_mono(nb, b, n, i - 1, l - 1);
    }
}

proof fn lemma_carry_index(k: int, b: int, len: int)
    requires
        b >= 1,
        0 <= k < len / b,
    ensures
        0 <= (k + 1) * b - 1 < len,
{
    assert((k + 1) * b <= (len / b) * b) by (nonlinear_arith)
        requires
            k + 1 <= len / b,
            b >= 1,
    ;
    assert((len / b) * b <= len) by (nonlinear_arith)
        requires
            b >= 1,
            len >= 0 || len < 0,
    ;
    assert((k + 1) * b >= 1) by (nonlinear_arith)
        requires
            k >= 0,
            b >= 1,
    ;
}

/// The max over the first `j` coefficients.
fn max_digits(num_b: &Vec<Vec<i32>>) -> (m: usize)
    ensures
        m as int == max_len(num_b.deep_view()),
{
    let ghost nb = num_b.deep_view();
    let mut m: usize = 0;
    for j in 0..num_b.len()
        invariant
            nb == num_b.deep_view(),
            m as int == max_len(nb.take(j as int)),
    {
        assert(nb.take(j + 1).drop_last() =~= nb.take(j as int));
        assert(nb.take(j + 1).last() == nb[j as int]);
        assert(nb[j as int].len() == num_b[j as int].len());
        if m < num_b[j].len() {
            m = num_b[j].len();
        }
    }
    assert(nb.take(num_b.len() as int) =~= nb);
    m
}

/// Appends the digit copies of position `i` to `inp`.
fn push_copies(inp: &mut Vec<usize>, num_b: &Vec<Vec<i32>>, i: usize, n: usize)
    requires
        old(inp).len() + copies(num_b.deep_view(), i as int, n as int, num_b.len() as int).len()
            <= MAX_VAR,
        n + num_b.len() <= MAX_VAR,
    ensures
        final(inp)@ == old(inp)@ + copies(num_b.deep_view(), i as int, n as int, num_b.len() as int),
{
    let ghost nb = num_b.deep_view();
    let ghost start = inp@;
    proof {
        lemma_copies_len_mono(nb, i as int, n as int, num_b.len() as int);
    }
    for j in 0..num_b.len()
        invariant
            nb == num_b.deep_view(),
            n + num_b.len() <= MAX_VAR,
            start.len() + copies(nb, i as int, n as int, num_b.len() as int).len() <= MAX_VAR,
            forall|jj: int| 0 <= jj <= num_b.len() ==> #[trigger] copies(nb, i as int, n as int, jj).len()
                <= copies(nb, i as int, n as int, num_b.len() as int).len(),
            inp@ == start + copies(nb, i as int, n as int, j as int),
    {
        assert(nb[j as int].len() == num_b[j as int].len());
        let ghost d = digit_at(nb, j as int, i as int);
        let ghost cnt = if d > 0 { d } else { 0 };
        let ghost before = inp@;
        assert(copies(nb, i as int, n as int, j + 1) == copies(nb, i as int, n as int, j as int)
            + Seq::new(cnt as nat, |t: int| (n + j + 1) as usize));
        if num_b[j].len() > i {
            let dv = num_b[j][i];
            assert(dv as int == d);
            let mut kk: i32 = 0;
            while kk < dv
                invariant
                    0 <= kk <= (if dv > 0 { dv } else { 0 }),
                    dv as int == d,
                    cnt == if d > 0 { d } else { 0 },
                    inp@ == before + Seq::new(kk as nat, |t: int| (n + j + 1) as usize),
                    before.len() + cnt <= MAX_VAR,
                    n + num_b.len() <= MAX_VAR,
                    j < num_b.len(),
                decreases dv - kk,
            {
                inp.push(j + n + 1);
                assert(inp@ =~= before + Seq::new((kk + 1) as nat, |t: int| (n + j + 1) as usize));
                kk += 1;
            }
            assert(inp@ =~= before + Seq::new(cnt as nat, |t: int| (n + j + 1) as usize));
        } else {
            assert(inp@ =~= before + Seq::new(cnt as nat, |t: int| (n + j + 1) as usize));
        }
    }
}

proof fn lemma_copies_len_mono(nb: Seq<Seq<i32>>, i: int, n: int, l: int)
    ensures
        forall|jj: int| 0 <= jj <= l ==> #[trigger] copies(nb, i, n, jj).len() <= copies(nb, i, n, l).len(),
    decreases l,
{
    if l > 0 {
        lemma_copies_len_mono(nb, i, n, l - 1);
    }
}

/// Every copy is a coefficient's variable `n + 1 + j`, `j < jj`.
proof fn lemma_copies_vars(nb: Seq<Seq<i32>>, i: int, n: int, jj: int)
    requires
        n >= 0,
        n + jj <= MAX_VAR,
    ensures
        forall|k: int|
            0 <= k < copies(nb, i, n, jj).len() ==> n + 1 <= #[trigger] copies(nb, i, n, jj)[k] <= n + jj,
    decreases jj,
{
    if jj > 0 {
        lemma_copies_vars(nb, i, n, jj - 1);
        let c = copies(nb, i, n, jj - 1);
        let d = digit_at(nb, jj - 1, i);
        let e = Seq::new((if d > 0 { d } else { 0 }) as nat, |t: int| (n + jj) as usize);
        assert forall|k: int| 0 <= k < (c + e).len() implies n + 1 <= #[trigger] (c + e)[k] <= n + jj by {
            if k < c.len() {
                assert((c + e)[k] == c[k]);
            } else {
                assert((c + e)[k] == e[k - c.len()]);
            }
        }
    }
}


/// The carries of a sorter's outputs: the outputs at places `base - 1, 2 base - 1, ...`.
fn take_carries(oup: &Vec<usize>, base: usize) -> (carr: Vec<usize>)
    requires
        base >= 2,
    ensures
        carr@ == carries_of(oup@, base as int),
{
    let mut carr = Vec::<usize>::new();
    let ghost target = carries_of(oup@, base as int);
    for k in 0..(oup.len() / base)
        invariant
            base >= 2,
            target == carries_of(oup@, base as int),
            carr@ == target.take(k as int),
    {
        proof {
            lemma_carry_index(k as int, base as int, oup.len() as int);
        }
        carr.push(oup[(k + 1) * base - 1]);
        assert(carr@ =~= target.take(k + 1));
    }
    assert(carr@ =~= target);
    carr
}

/// `v` is one of the product variables `n + 1 ..= n + k`, or a fresh variable in `lo..hi`.
pub open spec fn product_or_new(v: int, n: int, k: int, lo: int, hi: int) -> bool {
    (n + 1 <= v <= n + k) || (lo <= v < hi)
}

/// Every literal of `cs` names a product variable or a fresh variable in `lo..hi`.
pub open spec fn names_products(cs: Seq<Seq<int>>, n: int, k: int, lo: int, hi: int) -> bool {
    forall|i: int, j: int| 0 <= i < cs.len() && 0 <= j < cs[i].len() ==> product_or_new(var_of(#[trigger] cs[i][j]), n, k, lo, hi)
}

/// What names a sorter's inputs or its fresh variables names, where the inputs are product
/// variables or earlier fresh ones, product variables or fresh ones.
proof fn lemma_products_through(x: int, inp: Seq<usize>, n: int, k: int, v0: int, vb: int, va: int)
    requires
        out_or_new(x, inp, vb, va),
        forall|t: int| 0 <= t < inp.len() ==> product_or_new(#[trigger] inp[t] as int, n, k, v0, vb),
        v0 <= vb <= va,
    ensures
        product_or_new(x, n, k, v0, va),
{
    if !(vb <= x < va) {
        let t = choose|t: int| 0 <= t < inp.len() && #[trigger] inp[t] == x;
        assert(product_or_new(inp[t] as int, n, k, v0, vb));
    }
}

/// Builds one sorter per digit position, lowest first. Sorter `i` takes the carries of
/// sorter `i - 1` and, for each coefficient `j`, its digit `i` many copies of the product
/// variable `n + 1 + j`; its comparator clauses go into `g`, its fresh variables come from
/// `vargen` on. The outputs and the clauses appended are those of `list_run`; the clauses
/// name only product variables and fresh ones, and every model of `g` before the call
/// extends to a model of `g` after it (`extends`) in one way only (`fixes`).
#[verifier::rlimit(60)]
#[verifier::spinoff_prover]
pub fn mk_sorterlst(
    sorter_lst: &mut Vec<Sorter>,
    num_b: &Vec<Vec<i32>>,
    g: &mut CnfFormula,
    base: usize,
    n: usize,
    vargen: &mut usize,
)
    requires
        base >= 2,
        n + num_b.len() + 1 <= *old(vargen),
        forall|i: int|
            0 <= i < max_len(num_b.deep_view()) ==> #[trigger] slen(num_b.deep_view(), base as int, n as int, i)
                <= MAX_VAR,
        *old(vargen) + budget(num_b.deep_view(), base as int, n as int, max_len(num_b.deep_view()))
            <= MAX_VAR + 1,
    ensures
        max_var(cnf_clauses(*final(g))) >= max_var(cnf_clauses(*old(g))),
        *final(vargen) > *old(vargen) ==> max_var(cnf_clauses(*final(g))) >= *final(vargen) - 1,
        clauses_within(cnf_clauses(*old(g)), *old(vargen) as int) ==> clauses_within(cnf_clauses(*final(g)), *final(vargen) as int)
            && extends(cnf_clauses(*old(g)), cnf_clauses(*final(g)), *old(vargen) as int),
        final(sorter_lst).len() == old(sorter_lst).len() + max_len(num_b.deep_view()),
        final(sorter_lst)@.take(old(sorter_lst).len() as int) == old(sorter_lst)@,
        forall|i: int|
            0 <= i < max_len(num_b.deep_view()) ==> #[trigger] sorter_shape(
                final(sorter_lst)@.skip(old(sorter_lst).len() as int),
                num_b.deep_view(),
                n as int,
                base as int,
                i,
            ),
        forall|i: int|
            old(sorter_lst).len() <= i < final(sorter_lst).len() ==> sorter_vars(
                #[trigger] final(sorter_lst)@[i],
                *final(vargen) as int,
            ),
        *old(vargen) <= *final(vargen) <= *old(vargen) + budget(
            num_b.deep_view(),
            base as int,
            n as int,
            max_len(num_b.deep_view()),
        ),
        *final(vargen) == *old(vargen) + list_new_vars(num_b.deep_view(), base as int, n as int, max_len(num_b.deep_view())),
        cnf_clauses(*final(g)).take(cnf_clauses(*old(g)).len() as int) == cnf_clauses(*old(g)),
        cnf_clauses(*final(g)).len() >= cnf_clauses(*old(g)).len(),
        clauses_within(
            cnf_clauses(*final(g)).skip(cnf_clauses(*old(g)).len() as int),
            *final(vargen) as int,
        ),
        forall|a: spec_fn(int) -> bool|
            #[trigger] cnf_holds(a, cnf_clauses(*final(g))) ==> forall|i: int|
                old(sorter_lst).len() <= i < final(sorter_lst).len() ==> sorter_sorts(a, #[trigger] final(sorter_lst)@[i]),
        fixes(cnf_clauses(*final(g)).skip(cnf_clauses(*old(g)).len() as int), *old(vargen) as int, *final(vargen) as int),
        names_products(
            cnf_clauses(*final(g)).skip(cnf_clauses(*old(g)).len() as int),
            n as int,
            num_b.len() as int,
            *old(vargen) as int,
            *final(vargen) as int,
        ),
        forall|i: int|
            old(sorter_lst).len() <= i < final(sorter_lst).len() ==> (#[trigger] final(sorter_lst)@[i]).output@ == list_run(
                num_b.deep_view(),
                base as int,
                n as int,
                max_len(num_b.deep_view()),
                *old(vargen) as int,
            ).0[i - old(sorter_lst).len()],
        cnf_clauses(*final(g)).skip(cnf_clauses(*old(g)).len() as int) == list_run(
            num_b.deep_view(),
            base as int,
            n as int,
            max_len(num_b.deep_view()),
            *old(vargen) as int,
        ).1,
{
    let mut built = Vec::<Sorter>::new();
    let ghost nb = num_b.deep_view();
    let ghost g0 = cnf_clauses(*g);
    let ghost v0 = *vargen;
    let ghost bs = base as int;
    let maxl = max_digits(num_b);
    proof {
        lemma_budget_mono(nb, bs, n as int, 0, maxl as int);
    }
    let mut carr = Vec::<usize>::new();
    proof {
        lemma_extends_refl(g0, v0 as int);
        assert(cnf_clauses(*g).skip(g0.len() as int) =~= Seq::<Seq<int>>::empty());
        lemma_fixes_none(Seq::<Seq<int>>::empty(), v0 as int);
    }
    for i in 0..maxl
        invariant
            nb == num_b.deep_view(),
            clauses_within(g0, v0 as int) ==> clauses_within(cnf_clauses(*g), *vargen as int)
                && extends(g0, cnf_clauses(*g), v0 as int),
            bs == base as int,
            maxl == max_len(nb),
            base >= 2,
            n + num_b.len() + 1 <= v0,
            forall|i2: int| 0 <= i2 < maxl ==> #[trigger] slen(nb, bs, n as int, i2) <= MAX_VAR,
            v0 + budget(nb, bs, n as int, maxl as int) <= MAX_VAR + 1,
            built.len() == i,
            carr@ == if i == 0 {
                Seq::<usize>::empty()
            } else {
                carries_of(built@[i - 1].output@, bs)
            },
            carr.len() == slen(nb, bs, n as int, i - 1) / bs,
            below(carr@, *vargen as int),
            forall|k: int| 0 <= k < carr.len() ==> #[trigger] carr@[k] >= 1,
            forall|i2: int| 0 <= i2 < i ==> #[trigger] sorter_shape(built@, nb, n as int, bs, i2),
            forall|i2: int| 0 <= i2 < i ==> sorter_vars(#[trigger] built@[i2], *vargen as int),
            v0 <= *vargen <= v0 + budget(nb, bs, n as int, i as int),
            *vargen == v0 + list_new_vars(nb, bs, n as int, i as int),
            max_var(cnf_clauses(*g)) >= max_var(g0),
            *vargen > v0 ==> max_var(cnf_clauses(*g)) >= *vargen - 1,
            cnf_clauses(*g).take(g0.len() as int) == g0,
            cnf_clauses(*g).len() >= g0.len(),
            clauses_within(cnf_clauses(*g).skip(g0.len() as int), *vargen as int),
            forall|a: spec_fn(int) -> bool|
                #[trigger] cnf_holds(a, cnf_clauses(*g)) ==> forall|i2: int|
                    0 <= i2 < i ==> sorter_sorts(a, #[trigger] built@[i2]),
            fixes(cnf_clauses(*g).skip(g0.len() as int), v0 as int, *vargen as int),
            names_products(cnf_clauses(*g).skip(g0.len() as int), n as int, num_b.len() as int, v0 as int, *vargen as int),
            forall|k: int| 0 <= k < carr.len() ==> product_or_new(#[trigger] carr@[k] as int, n as int, num_b.len() as int, v0 as int, *vargen as int),
            list_run(nb, bs, n as int, i as int, v0 as int).0.len() == i,
            forall|i2: int| 0 <= i2 < i ==> (#[trigger] built@[i2]).output@ == list_run(nb, bs, n as int, i as int, v0 as int).0[i2],
            cnf_clauses(*g).skip(g0.len() as int) == list_run(nb, bs, n as int, i as int, v0 as int).1,
            *vargen == list_run(nb, bs, n as int, i as int, v0 as int).2,
    {
        let ghost r = list_run(nb, bs, n as int, i as int, v0 as int);
        let ghost gb = cnf_clauses(*g);
        let ghost vb = *vargen;
        let ghost sl0 = built@;
        let cn = carr.len();
        let ghost carr0 = carr@;
        let mut inp = carr;
        proof {
            lemma_budget_mono(nb, bs, n as int, i + 1, maxl as int);
            assert(nb.len() == num_b.len());
            lemma_copies_vars(nb, i as int, n as int, num_b.len() as int);
            assert(slen(nb, bs, n as int, i as int) == slen(nb, bs, n as int, i - 1) / bs
                + copies(nb, i as int, n as int, num_b.len() as int).len());
        }
        push_copies(&mut inp, num_b, i, n);
        let ghost cps = copies(nb, i as int, n as int, num_b.len() as int);
        assert(inp@ == carr0 + cps);
        assert forall|k: int| 0 <= k < inp.len() implies #[trigger] inp@[k] >= 1 && inp@[k] < vb by {
            if k >= cn {
                assert(inp@[k] == cps[k - cn]);
            }
        }
        assert forall|k: int| 0 <= k < inp.len() implies product_or_new(#[trigger] inp@[k] as int, n as int, num_b.len() as int, v0 as int, vb as int) by {
            if k >= cn {
                assert(inp@[k] == cps[k - cn]);
            } else {
                assert(inp@[k] == carr0[k]);
            }
        }
        let ghost inp0 = inp@;
        let oup = build_sorter(&inp, g, vargen);
        let ghost ga = cnf_clauses(*g);
        proof {
            if i > 0 {
                assert(built@[i - 1].output@ == r.0[i - 1]);
            }
            assert(carr0 == if i == 0 { Seq::<usize>::empty() } else { carries_of(r.0[i - 1], bs) });
            assert(list_run(nb, bs, n as int, i + 1, v0 as int) == (
                r.0.push(oup@),
                r.1 + ga.skip(gb.len() as int),
                *vargen as int,
            ));
        }
        proof {
            if clauses_within(g0, v0 as int) {
                lemma_extends_trans(g0, gb, ga, v0 as int, vb as int);
            }
        }
        let newcarr = take_carries(&oup, base);
        let s = Sorter { input: inp, output: oup, numcarr: cn };
        built.push(s);
        carr = newcarr;
        proof {
            assert(built@[i as int] == s);
            assert forall|i2: int| 0 <= i2 <= i implies #[trigger] sorter_shape(
                built@,
                nb,
                n as int,
                bs,
                i2,
            ) by {
                if i2 < i {
                    assert(sorter_shape(sl0, nb, n as int, bs, i2));
                    assert(built@[i2] == sl0[i2]);
                    if i2 > 0 {
                        assert(built@[i2 - 1] == sl0[i2 - 1]);
                    }
                } else {
                    assert(built@[i2] == s);
                    assert(nb.len() == num_b.len());
                    assert(s.input@ == carr0 + cps);
                    if i2 > 0 {
                        assert(built@[i2 - 1] == sl0[i2 - 1]);
                        assert(carr0 == carries_of(sl0[i2 - 1].output@, bs));
                    }
                    assert(s.numcarr == carr0.len());
                    assert(s.output.len() == s.input.len());
                    assert(s.input.len() == slen(nb, bs, n as int, i2));
                }
            }
            assert forall|i2: int| 0 <= i2 <= i implies sorter_vars(
                #[trigger] built@[i2],
                *vargen as int,
            ) by {
                if i2 < i {
                    assert(built@[i2] == sl0[i2]);
                }
            }
            assert forall|i2: int| 0 <= i2 <= i implies (#[trigger] built@[i2]).output@ == list_run(
                nb,
                bs,
                n as int,
                i + 1,
                v0 as int,
            ).0[i2] by {
                if i2 < i {
                    assert(built@[i2] == sl0[i2]);
                    assert(sl0[i2].output@ == r.0[i2]);
                }
            }
            assert forall|k: int| 0 <= k < carr.len() implies #[trigger] carr@[k] >= 1 && carr@[k]
                < *vargen by {
                lemma_carry_index(k, bs, oup.len() as int);
            }
            assert(ga =~= gb + ga.skip(gb.len() as int));
            assert(gb =~= g0 + gb.skip(g0.len() as int));
            assert(ga.skip(g0.len() as int) =~= gb.skip(g0.len() as int) + ga.skip(
                gb.len() as int,
            ));
            lemma_clauses_within_concat(
                gb.skip(g0.len() as int),
                ga.skip(gb.len() as int),
                vb as int,
                *vargen as int,
            );
            lemma_fixes_concat(gb.skip(g0.len() as int), ga.skip(gb.len() as int), v0 as int, vb as int, *vargen as int);
            let c1 = gb.skip(g0.len() as int);
            let c2 = ga.skip(gb.len() as int);
            let kk = num_b.len() as int;
            assert forall|i3: int, j3: int| 0 <= i3 < (c1 + c2).len() && 0 <= j3 < (c1 + c2)[i3].len() implies product_or_new(
                var_of(#[trigger] (c1 + c2)[i3][j3]),
                n as int,
                kk,
                v0 as int,
                *vargen as int,
            ) by {
                if i3 < c1.len() {
                    assert((c1 + c2)[i3] == c1[i3]);
                    assert(product_or_new(var_of(c1[i3][j3]), n as int, kk, v0 as int, vb as int));
                } else {
                    assert((c1 + c2)[i3] == c2[i3 - c1.len()]);
                    assert(out_or_new(var_of(c2[i3 - c1.len()][j3]), inp0, vb as int, *vargen as int));
                    lemma_products_through(var_of(c2[i3 - c1.len()][j3]), inp0, n as int, kk, v0 as int, vb as int, *vargen as int);
                }
            }
            assert forall|k: int| 0 <= k < carr.len() implies product_or_new(#[trigger] carr@[k] as int, n as int, kk, v0 as int, *vargen as int) by {
                lemma_carry_index(k, bs, built@[i as int].output.len() as int);
                let idx = (k + 1) * bs - 1;
                assert(carr@[k] == built@[i as int].output@[idx]);
                assert(out_or_new(built@[i as int].output@[idx] as int, inp0, vb as int, *vargen as int));
                lemma_products_through(carr@[k] as int, inp0, n as int, kk, v0 as int, vb as int, *vargen as int);
            }
            assert(ga.take(g0.len() as int) =~= g0);
            assert forall|a: spec_fn(int) -> bool| #[trigger]
                cnf_holds(a, cnf_clauses(*g)) implies forall|i2: int|
                0 <= i2 <= i ==> sorter_sorts(a, #[trigger] built@[i2]) by {
                lemma_cnf_holds_prefix(a, ga, gb.len() as int);
                assert(ga.take(gb.len() as int) =~= gb);
                assert forall|i2: int| 0 <= i2 <= i implies sorter_sorts(
                    a,
                    #[trigger] built@[i2],
                ) by {
                    if i2 < i {
                        assert(built@[i2] == sl0[i2]);
                    }
                }
            }
        }
    }
    let ghost old_sl = sorter_lst@;
    let ghost bs2 = built@;
    sorter_lst.append(&mut built);
    proof {
        assert(sorter_lst@.take(old_sl.len() as int) =~= old_sl);
        assert(sorter_lst@.skip(old_sl.len() as int) =~= bs2);
        assert forall|i: int| old_sl.len() <= i < sorter_lst.len() implies #[trigger] sorter_lst@[i] == bs2[i - old_sl.len()] by {}
    }
}

} // verus!
