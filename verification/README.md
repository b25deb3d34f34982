# derex

Regular expression matching by Antimirov's partial derivatives, verified with
Verus.

- `src/regex.rs`: the expression type `R`, its constructors, the pattern
  parser `R::from_str`, structural comparison and copying, and `normalize`
  (the Seq-Assoc normal form).
- `src/derivatives.rs`: `nullable`, `part_deriv`, the `matcher`, `letters`,
  `descendants`, `subterm` and the subterm-property check `prop`.
- `src/dfa.rs`: a deterministic automaton built by the subset construction
  over partial derivatives, and its `matches`.
- `src/term.rs`: `Term`, the mathematical value of an expression, and the
  total order that sorted sets of expressions follow.
- `src/lang.rs`: the language of an expression, nullability and partial
  derivatives as definitions, and the laws that relate them: a partial
  derivative with respect to `c` denotes what follows `c`, and the matcher
  decides membership.
- `src/closure.rs`: a finite set closed under partial derivatives, which
  bounds the descendants and the automaton's states.
- `src/normal.rs`: the normal form and its laws; subterms.
- `src/syntax.rs`: balanced parentheses and the expression a pattern
  denotes.
- `src/sorted.rs`: sets of expressions as strictly increasing vectors.
