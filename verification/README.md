# teca — Token-Efficient Content Addressing, verified

Caller bytes are mapped by a cooked `Scheme` to an indefinitely extensible
stream of structural `AtomId`s. A `Neighborhood` assigns each distinct content
the shortest prefix of its stream that no other member shares, and keeps those
addresses canonical under insertion, removal, merge and rebuild.

The library is written in Verus: every function in `src/` carries a
`requires`/`ensures` contract proved by the verifier.

## Layout

- `src/codec.rs`, `src/field/`, `src/probe.rs`, `src/bundle.rs`,
  `src/fallback.rs`, `src/scheme.rs`, `src/address.rs` — content transforms,
  finite fields and their standardized construction, probes, bundles, the
  fallback streams, schemes and address streams.
- `src/neighborhood.rs`, `src/render.rs`, `src/snapshot.rs` — the stateful
  namespace, rendering of addresses, and byte-stable snapshots.
- `src/artifact.rs`, `src/lexicon.rs`, `src/prior*.rs`, `src/scheme_bytes.rs`,
  `src/ctm.rs` — the offline artifacts (lexicons, priors, cooked schemes, the
  canonical CTM-B9 table) and their byte formats.
- `src/actions.rs`, `src/cook.rs`, `src/search.rs`, `src/cook_build.rs` — the
  offline cooker: candidate actions, the exact adaptive tree search and its
  first-step lower bound, and the static and exact cooks.
- `src/defaults.rs` — the canonical scheme.
- `app/` — file loading around the library (no verification).
- `tests/` — runtime tests.

Numbers of arbitrary size (prior masses, costs) are held as big-endian bytes;
the arithmetic on them is done by `num-bigint` behind small trusted wrappers
whose contracts state what each call computes.
