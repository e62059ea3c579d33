# solana_shake

SHAKE128, SHAKE256, TurboSHAKE128 and TurboSHAKE256 over one Keccak-p[1600]
implementation, verified with Verus.

- `src/keccak.rs`: Keccak-p[1600, nr] as FIPS 202 §3 defines it (theta, rho,
  pi, chi, iota over 25 lanes), and `keccak_p1600`, which keeps six lanes
  complemented between rounds and is proved to compute it for 24 rounds
  (SHAKE) and for the last 12 (TurboSHAKE); also that Keccak-p is injective.
- `src/sponge.rs`: the sponge as a value: absorbing, padding and squeezing
  byte by byte, and the lemmas that relate whole-lane steps to byte steps.
- `src/shake.rs`: `Shake` (absorb, finalize) and `Xof` (squeeze, rate lanes,
  permute), with `hash` and `hashv` for SHAKE and TurboSHAKE. `finalize`
  returns an `Xof` that borrows the sponge.
- `src/laws.rs`: properties across operations: streaming absorb and squeeze
  against the FIPS 202 sponge, draining the rate, output prefixes, FIPS 202
  padding, domain separation, the twelve-round permutation.
- `src/instruction.rs`: the example program's instruction, `[tag][message]`
  answered with 32 bytes.
- `app/lib.rs`: the Solana entrypoint around `instruction::process_instruction`.
