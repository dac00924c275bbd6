# lin_reg

A small regular-expression engine whose library is verified with Verus.

A regular expression made of letters, digits, `|`, `*` and parentheses is
parsed into a `RegexNode`, turned into a finite automaton with epsilon moves
(one piece per operator), and run over text. The automaton keeps its
transitions and its closed epsilon relation in sparse boolean matrices in
compressed-row form; the set of active states is a sparse boolean vector.

Layout:

- `src/bool_alg.rs`: `BoolMat` and `BoolVec`, their well-formedness, and the
  operations (insertion, shifting, epsilon closure, vector-matrix product).
- `src/relation.rs`: walks, reachability and reflexive-transitive closure of
  relations on integers.
- `src/parse.rs`: `RegexNode`, the parser and its specification, and the
  language that a node denotes.
- `src/nfa.rs`: the mathematical model of an automaton, the construction of
  each operator, and what reading a word means.
- `src/automaton.rs`: `Automaton` (built piece by piece, proved equal to the
  model) and `Match` (a run over input: one step at a time, or a search
  through a line).
- `src/thompson.rs`: the proof that the automaton built for an expression
  accepts exactly the words of its language, and what a search finds.
- `src/text.rs`: the characters of a string.
- `app/main.rs`: the command line tool, which prints the lines of a file
  that contain a match of the expression.
