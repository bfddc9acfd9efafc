# formally

Verified building blocks of a formal methods toolchain, written in Verus.

- `obdd`: ordered binary decision diagrams. A `Manager` keeps its diagrams reduced and
  ordered, so that two diagrams denote the same Boolean function exactly when they are the same
  diagram. It offers the Boolean operations, restriction and quantification, in-place
  reordering of the variables, reclamation of unused nodes and the enumeration of the models of
  a diagram. Each manager draws a random tag that its variables and diagrams carry, and its
  operations take only handles with that tag. `obdd::vars` is a variable order kept as
  positions on the `u64` line.
- `combinators`: matching sequences of elements in a text, with a separator, bounds on their
  number and a condition on each of them, blanks skipped around them; alternatives; and
  skipping repeated matches. A parser is a function of the text and a position that matches
  or fails, silently where it started or with an error past it.
- `print`: documents for pretty printing, and the usual ways of enclosing one in delimiters.
- `parse`: the names of parsers as diagnostics show them, in singular, plural and disjunctions.
- `span`: places in a source text, which errors and declarations may point at.
- `smt`: declarations, backend errors and their messages, and the requirements of logics:
  linearity, the absence of quantifiers and of uninterpreted functions.

`src/` is the verified library. `app/` renders documents through the `pretty` crate on
terminals and writers. `tests/` exercises the library on concrete values.
