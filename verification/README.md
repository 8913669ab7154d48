# panacea

An oblivious RAM over (R)LWE ciphertexts: a client encrypts a database
column by column as RLWE ciphertexts, a server answers full-row reads and
writes with RGSW queries, external products, substitutions and packing, and
the client decrypts the result. The arithmetic, the key switching, the
conversions between LWE and RLWE and the ORAM protocol steps are written in
Verus and proved against their contracts; the lattice primitives of `tfhe`
(key generation, encryption, decomposition) are called through a small set
of trusted wrappers in `src/backend.rs`.

## Layout

- `src/poly.rs`, `src/ring.rs`: polynomials in `Z_{2^64}[X]/(X^N + 1)`, the
  negacyclic product and its ring laws (commutativity, associativity,
  linearity), rotations and the substitution `X -> X^k`.
- `src/codec.rs`, `src/params.rs`, `src/context.rs`: plaintext encoding,
  parameter sets and the per-run context of generators.
- `src/backend.rs`: the trusted wrappers around `tfhe`, `tfhe-csprng` and
  `rand`, and the names of the results that are not stated in full.
- `src/rlwe.rs`, `src/lwe.rs`, `src/rgsw.rs`: ciphertexts and secret keys,
  encryption and decryption, homomorphic operations, the external product,
  and the conversion of LWE ciphertexts to RLWE.
- `src/keyswitch.rs`: RLWE key switching keys, substitutions, the trace and
  the expansion of RLWE ciphertexts into RGSW ciphertexts.
- `src/noise.rs`: bounds on the noise of key switching, of the external
  product and of the LWE to RLWE conversion, and the decryption of their
  results.
- `src/packing.rs`: the phase of a CDKS packing at the coefficients it keeps
  and the bound of the error that its substitutions add.
- `src/trace.rs`: the trace keeps `N` times the constant coefficient of the
  phase and cancels the others, with a bounded error.
- `src/expansion.rs`: the expansion of RLWE ciphertexts holding a bit is an
  RGSW encryption of that bit, with bounded errors.
- `src/oram.rs`: the client and the server of the ORAM.
- `src/retrieval.rs`: a row read decodes to the row (also after a row
  write) whenever the error accumulated at a slot is below half the scaling
  factor, and a worst-case bound of that error from the parameters.
- `src/update.rs`: a row write leaves every column an encryption of the
  database with the new row, with a bounded growth of the error.
- `app/`: the command line driver (argument parsing, JSON parameter files,
  timing), the noise measurements in floating point, and the types that
  carry `serde` and `clap` derives.
- `tests/`: tests of the library on concrete values.

The phase laws of key switching, of the external product and of the LWE to
RLWE conversion are stated in the `ensures` of the functions themselves:
the phase of the result is the message term plus the decomposition digits
times the errors of the key's ciphertexts, for every secret key. The proof
functions of `src/noise.rs` bound those noises and show that the results
decrypt to the message when the parameters leave room for them (the
default parameters do, for one key switching, substitution, conversion,
external product or expansion of a fresh ciphertext), and
`src/ring.rs` shows that the substitution `X -> X^k` (odd `k`) is a ring
morphism that commutes with the phase.
