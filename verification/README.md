# flock

Building blocks of a succinct argument system over binary fields, verified with
Verus.

- `src/field/`: GF(2^128) in GHASH form, GF(2^256) as its quadratic extension, the
  field laws of both, bits and sums of elements, the embedding of GF(2^8).
- `src/zerocheck/`: equality tensors and Lagrange weights.
- `src/pcs/`: packing, the tensor algebra, and the ring-switching reduction, with
  its prover, its two verifiers and the identity that connects them.
- `src/lincheck.rs`: the block-transposed witness.
- `src/r1cs.rs`, `src/r1cs/`: constraint systems over GF(2).
- `src/r1cs_mul64/`: the constraint system of 64-bit multiplication. The witness of
  every multiplication meets it, and every block that meets it holds a correct
  product.
- `src/parallel.rs`: the two loops that run on rayon. They are the only parts whose
  contracts are not proved.
- `app/`: serialization, tracing, and the end-to-end prover.
