# qubosat

Solves Quadratic Unconstrained Binary Optimization problems (least `x^T Q x` over
`x in {0,1}^n`) exactly, with a SAT solver (varisat). The objective is folded onto the lower
triangle, each product `x_i x_j` gets a variable of its own, and the weighted sum of the
products is written in base `b` with one sorting network per digit place, the carries of a
place going up to the next (the pseudo-boolean encoding of Een and Sorensson).

Modes:

- optimization (`solqubo`, `solve_qubo`): the least value; with `tabus`, a tabu search gives
  the starting bound;
- checking minimality (`chkqubo`): is a given value the least one;
- finding assignments (`findasgnqubo`, `find_assignment`): an `x` with `x^T Q x <= q`, where
  there is one.

The last two compare `x^T Q x + p` (`p` the sum of the magnitudes of the negative
coefficients) with the bound digit by digit from the top place down, one SAT call per
place: a smaller top count, then, with the places above equal, a smaller digit, and last all
digits equal.

Layout:

- `src/`: the library, verified with Verus. `cnf` (clauses and the solver), `qubo`
  (objective, folding, digits), `encode` and `encoding` (the product clauses and the whole
  encoding), `sortnet`, `sortlaw`, `sorter` (the networks, the sorting laws for truth values and for integers, the sorters),
  `constraints` (tail and residue constraints, counts read from a model), `sums` and
  `value` (how the counts add up to the objective), `search` (what the modes share),
  `solqubo`, `chkqubo`, `findasgnqubo`, `tabus`, `utils` (the file format), `limits` (the
  checks of the inputs).
- `tests/`: the tests.
- `app/`: the command-line program (`clap`, reading the file, printing).
