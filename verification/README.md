# symbolic

Symbolic functions of named variables: expression trees with structural
fingerprints, an order and an equality on them, the algebraic constructors
`+ - * /`, and two simplifiers.

- `src/function/` — the expression type `Function` (numbers held as the bit
  patterns of doubles) and its mathematical form `Term`:
  - `order.rs`, `equality.rs`: `cmp`, `partial_cmp` and `==` as the type
    defines them (sums and products compared after sorting their terms);
  - `freeze.rs`: the fingerprint of a function (a hash of each node's kind,
    combined by XOR over the terms of sums and products, so that their order
    does not matter);
  - `ops.rs`: the constructors, which fold constants and flatten sums and
    products;
  - `simplify_nohash.rs`: simplification by scanning the terms already
    combined;
  - `simplify_hash.rs`: simplification through a table of terms filed by
    parent and type, and a graph of the nodes of a function.
- `src/binary.rs` — a smaller expression type with boxed operands, its
  fingerprint and an equality by fingerprint.
- `src/hashing.rs`, `src/ieee.rs` — the hasher calls the fingerprints make,
  and the comparisons of doubles on their bit patterns.
- `app/main.rs` — the command-line program, which prints the fingerprints of
  two equal variables.

Arithmetic on doubles, and the decimal form of a power, are handed to the
library by its callers as functions on bit patterns.

The table of filed terms in `simplify_hash.rs` is a vector searched in
order, not a hash map: a slot is found by the allocation of its parent node
(`Arc::ptr_eq`) and by the numeric equality of decimal powers
(`Decimal`'s `==`), and neither is an integer key that a map specified in
`vstd` could be keyed by.  The slots a node files during its own turn are
searched first and are found for certain; only slots filed earlier, which
belong to the node only where it is shared, depend on the allocation test.
