# akita_types

Parameter validation and the inner/outer commitment stages of a lattice
polynomial commitment, written in Verus and proved against its contracts.

## Layout

- `src/params.rs`, `src/profile.rs`, `src/slice.rs`: the frozen per-group
  commitment profile (group shape, block geometry, A and B role parameters)
  and the canonical slicing of the outer (B) matrix input.
- `src/commitment.rs`: the commitment-level queries on
  `CommittedGroupParams` (challenge norms, block-index domain, ring-element
  counts) and `validate_commitment_request`, which binds a request's
  polynomial count, fold level, B width and compression cap to the profile.
- `src/digits.rs`, `src/decompose.rs`: ring-element vectors, inner witnesses,
  digit blocks, and the balanced gadget decomposition of inner rows.
- `src/inner_outer.rs`: inner witness shape checks, the polynomial-major,
  zero-padded slice inputs of the B matrix, and the inner and outer stages.
- `src/compression.rs`: compression planning and the terminal payload.
- `src/group_commit.rs`: one root-level group commitment composed of the
  stages above.
- `src/backend.rs`: the compute-backend traits the stages drive.

The proofs of the main properties are the `law_*` proof functions:
the slices partition the live blocks, the slice input columns follow the
block-diagonal layout, balanced digits recompose the centered coefficient,
the block-index domain is the least covering power of two, a valid
request fixes the polynomial count recovered from the B width, and the
inner and outer stages give the same result on the same inputs.
