# catgraph

Category-theoretic graph structures after Fong and Spivak, *Hypergraph
Categories*: morphisms of finite sets, spans and relations, cospans with their
pushout composition, layered Frobenius diagrams, compact closed structure,
cospan-algebras and the hypergraph category they induce, and labelled
place/transition Petri nets.

The library's logic is verified with Verus against contracts over a
mathematical view of its data (`Seq`, `Map`, `Set`, integers). Its calls into
the `permutations` and `rust_decimal` crates, and the few uses of std's
formatting and `Arc::clone`, go through small trusted wrappers whose contracts
are stated, and not proved, at their declarations.

## Layout

- `src/` — the verified library, one module per structure:
  `finset`, `span`, `cospan`, `cospan_laws`, `frobenius`,
  `frobenius_permutation`, `frobenius_interpret`, `compact_closed`,
  `cospan_algebra`, `equivalence`, `hypergraph_functor`, `petri_net`, and the
  shared traits in `category`, `monoidal`, `hypergraph_category`, `label`.
- `tests/` — executable tests of the library.
- `app/` — a small program that prints a cospan, and the error type with
  `Display`.

## Laws proved

- Composition of finite-set maps, of spans and of cospans is associative and
  has identities; for cospans both hold up to renumbering of the apex
  (`cospan_laws`), and composing a span with an identity on the left keeps
  the same apex pairs with the same multiplicities.
- A span's identity flags never lie: a set flag means the leg is the
  identity.
- The breadth-first search of a Petri net's markings is complete up to equal
  numbers of tokens, provided firing respects equal numbers of tokens.
- The monoidal product of cospans is associative with the empty cospan as
  unit.
- The dagger of spans, turning a Frobenius diagram upside down, and the
  complement of relations are involutions.
- Relabelling a cospan along a map of labels preserves composites.
- Markings compare by the number of tokens at each place; turning a cospan
  into a one-transition Petri net and back keeps the multiplicities of its
  legs.

## Not included

- The little-disks operad `E2`: its disks are placed by `f32` coordinates and
  radii, and it is built on the little-intervals operad `E1` and the
  `Operadic` trait, neither of which belongs to this crate; there is nothing
  in it that this library could state and prove.
- The hypergraph rewriting evolution (`HypergraphEvolution`, `RewriteRule`,
  Wilson loops): it rests on hypergraph isomorphism, fingerprints and rewrite
  matches that this crate does not define, walks hash maps, and measures
  holonomy in `f64`.
