# invariant_synthesis

Synthesis of loop invariants from templates, verified with Verus.

A verification condition speaks of functions that are not known. For each of them
the library builds a template: a sum of polynomials with unknown coefficients, one
for each guard (a combination of the conditions found in the verification condition)
and each split (a region of the ranged parameters) that can be true together. A search
guided by counterexamples then looks for values of the coefficients for which the
verification condition is valid.

## Layout

- `ast`, `decls`, `functions`: expressions and their model, declarations, and the
  functions to be found.
- `semantics`: what a term stands for.
- `substitution`, `inlining`: replacing variables and calls. Substitution keeps the
  meaning; inlining does where no variable of the definition is captured.
- `calls`, `conditions`: the calls of a function and the conditions around them.
- `monomials`, `polynomial`, `evaluation`: polynomials with coefficients and their
  values.
- `regions`: the intervals of ranged variables; exactly one of them holds.
- `smt`, `scripts`, `solver`: expressions as scripts, and the checks by Z3.
- `guards`: the assignments to conditions that can be true.
- `pieces`, `template`, `template_value`, `naming`: templates, their values and the
  names of their coefficients.
- `cegis`, `cegis_laws`, `synthesis`: the search and the rounds around it.
- `admissible`: what is found stands for the definitions that are reported.
- `rational`, `collections`, `text`, `seqs`: numbers, ordered collections and text.
- `app/`: the command around the library.

## What is trusted

The arithmetic of `num`, the collections of `indexmap`, the answers of `z3`, and
sharing through `std::rc::Rc` are used through small functions with contracts that are
not proved. Each names the function that it calls. Of an answer of Z3 nothing is
claimed but that it is one that Z3 can give to the script.
