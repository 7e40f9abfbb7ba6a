# next

A verified library for the NEXT contract language, written in Verus.

- `rational`, `bignum`: exact rationals over arbitrary-precision integers
  (the integer arithmetic is `num-bigint`'s, behind small trusted wrappers).
- `value`, `interner`, `intern`, `shape`: immutable values and code terms,
  hash-consed so that equal values share one handle; function shapes are
  compared structurally (`shape`), so two shapes share a handle exactly
  when they are the same. The generic interner (`intern`) keeps one table
  per term type, a `Vec` searched in order, and the `Term` trait carries
  the laws (reflexive, symmetric, transitive sameness) that make "equal
  terms share one handle" hold for every term type.
- `lex`: source text to tokens; which sources lex, and where each token ends,
  is stated as a scanner over the characters.
- `surface`, `ast`, `desugar`: surface syntax lowered to the kernel AST.
- `normalize`: the normalization phase (template folding, arithmetic
  canonical forms).
- `link`: module projects — import checks and the rewrite of namespace reads.
- `lint`: source lints.
- `contract`: contracts as value properties — which values a contract
  denotes (membership), their numeric abstraction (intervals and integer
  lattices) and its transfer rules, widening into the kind basis, the
  normal forms of tuple concatenation, the three-valued subcontract (a sound
  proof side over a world of values, a refutation side whose witness is
  checked by membership and whose candidates are stated per form), and
  grapheme counts across string concatenation.
- `contract::recursive`: groups of named contracts that refer to one another
  through `Ref`: their admissibility (positivity and structural
  guardedness) and membership with references resolved through the group
  (each run of unfoldings at one value or tuple window is bounded by twice
  the group's size, plus one). Emptiness and subcontract over a group are
  not part of this library; outside a group a bare `Ref` denotes nothing.

`src/` is the verified library; `tests/` runs it on concrete inputs; `app/`
is the command-line front end.
