# egg (rewrite and combinatorics core)

A Verus library holding the rule-construction and combinatorial parts of an
e-graph rewriting engine. Every function is proved against its contract,
except one trusted call into `itertools` (`multi_cartesian_product`), whose
contract states what that crate documents.

- `src/tools.rs`: cartesian products (`product`, `combinations`), picks of `k`
  elements (`choose_subsets`), grouping by key (`group_keyed`, `Grouped`), and
  the vacuity detectors built from a list of operators.
- `src/laws.rs`: what holds of every result of those functions (counts,
  membership, absence of repeats, how `product` and `combinations` relate,
  what grouping keeps).
- `src/language.rs`: node ids, the `Language` trait, expressions.
- `src/pattern.rs`: pattern variables, pattern nodes, multipatterns.
- `src/rewrite.rs`: searchers, appliers, building a `Rewrite` with the
  check that the applier only uses variables that the searcher binds, and the
  classes reported after the unions a rewrite makes.
