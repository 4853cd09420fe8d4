use akita_types::params::{
    CommittedGroupDescriptor, CommittedGroupParams, CommitmentRingDims, FoldChallengeConfig,
    FoldLinfProtocolBinding, GroupOpeningParams, OpeningClaimsLayout, PayloadMode,
    SourceEncoding, FOLD_GRIND_ATTEMPT_CAP,
};
use akita_types::profile::{
    BlockGeometry, CommitmentProfile, DigitParams, MatrixDescriptor, PolynomialGroupLayout,
    RoleParams, SisModulusProfile,
};
use akita_types::slice::CommitmentSliceCount;
use akita_types::AkitaError;

const D: usize = 4;
const NUM_VARS: usize = 4;
const POSITIONS: usize = 2;
const N_A: usize = 1;
const N_B: usize = 2;
const DIGITS: DigitParams = DigitParams {
    num_digits: 4,
    log_basis: 8,
};

/// A dense profile of `polys` polynomials of 16 coefficients: four ring
/// elements of dimension 4 in two blocks of two positions.
fn profile(polys: usize, slices: CommitmentSliceCount, cap: usize) -> CommitmentProfile {
    let sis = SisModulusProfile {
        field_bits: 32,
        compression_cap: cap,
    };
    let live_blocks: usize = 2;
    let per_block = N_A * DIGITS.num_digits * D / D;
    let max_blocks = live_blocks.div_ceil(slices.get());
    CommitmentProfile {
        group: PolynomialGroupLayout::new(NUM_VARS, polys),
        blocks: BlockGeometry {
            live_blocks,
            positions_per_block: POSITIONS,
            live_ring_elements_per_claim: 4,
        },
        inner: RoleParams {
            matrix: MatrixDescriptor {
                input_width: POSITIONS * DIGITS.num_digits,
                output_rank: N_A,
                ring_dimension: D,
                sis_modulus_profile: sis,
            },
            digits: DIGITS,
        },
        outer: RoleParams {
            matrix: MatrixDescriptor {
                input_width: polys * max_blocks * per_block,
                output_rank: N_B,
                ring_dimension: D,
                sis_modulus_profile: sis,
            },
            digits: DIGITS,
        },
        outer_slice_count: slices,
    }
}

fn descriptor(profile: CommitmentProfile) -> CommittedGroupDescriptor {
    CommittedGroupDescriptor {
        profile,
        opening: GroupOpeningParams { num_digits_fold: 3 },
    }
}

fn params(precommitted: Vec<CommitmentProfile>, own: CommitmentProfile) -> CommittedGroupParams {
    CommittedGroupParams {
        precommitted: precommitted.into_iter().map(descriptor).collect(),
        own: descriptor(own),
        role_dims: CommitmentRingDims {
            inner: D,
            outer: D,
            opening: D,
        },
        fold_challenge: FoldChallengeConfig {
            nonzero_coeffs: 24,
            max_abs: 2,
        },
        source_encoding: SourceEncoding::Dense,
        payload_mode: PayloadMode::Uncompressed,
    }
}

fn setup_message(result: Result<impl std::fmt::Debug, AkitaError>) -> String {
    match result {
        Err(AkitaError::InvalidSetup(message)) => message,
        other => panic!("expected an invalid-setup rejection, got {other:?}"),
    }
}

#[test]
fn valid_request_binds_polynomial_count_into_b_width() {
    for polys in 1..=4 {
        let p = params(Vec::new(), profile(polys, CommitmentSliceCount::ONE, 1 << 20));
        let geometry = p
            .validate_commitment_request(0, polys)
            .expect("request should validate");
        assert_eq!(geometry.physical_input_width(), polys * 2 * 4);
        assert_eq!(p.commitment_polynomial_count().unwrap(), polys);
    }
}

#[test]
fn sliced_request_geometry_at_root() {
    let p = params(Vec::new(), profile(3, CommitmentSliceCount::TWO, 1 << 20));
    let geometry = p.validate_commitment_request(0, 3).expect("root sliced request");
    assert_eq!(geometry.max_blocks_per_slice(), 1);
    assert_eq!(geometry.physical_input_width(), 3 * 4);
    assert_eq!(geometry.logical_output_rows(N_B).unwrap(), 2 * N_B);
    assert_eq!(p.commitment_polynomial_count().unwrap(), 3);
}

#[test]
fn request_rejects_zero_polynomials() {
    let p = params(Vec::new(), profile(1, CommitmentSliceCount::ONE, 1 << 20));
    let message = setup_message(p.validate_commitment_request(0, 0));
    assert_eq!(message, "commitment request requires at least one polynomial");
}

#[test]
fn request_rejects_arity_mismatch() {
    let p = params(Vec::new(), profile(3, CommitmentSliceCount::ONE, 1 << 20));
    let message = setup_message(p.validate_commitment_request(0, 2));
    assert_eq!(message, "stored own-group arity disagrees with the commitment request");
}

#[test]
fn request_rejects_sliced_b_below_the_root() {
    let p = params(Vec::new(), profile(1, CommitmentSliceCount::TWO, 1 << 20));
    assert!(p.validate_commitment_request(0, 1).is_ok());
    let message = setup_message(p.validate_commitment_request(1, 1));
    assert_eq!(message, "only the root level commits with sliced B matrices");
}

#[test]
fn request_rejects_more_slices_than_blocks() {
    let p = params(Vec::new(), profile(1, CommitmentSliceCount::FOUR, 1 << 20));
    let message = setup_message(p.validate_commitment_request(0, 1));
    assert_eq!(message, "outer slice count exceeds the live block count");
}

#[test]
fn request_rejects_a_width_mismatch() {
    let mut own = profile(1, CommitmentSliceCount::ONE, 1 << 20);
    own.inner.matrix.input_width += 1;
    let message = setup_message(params(Vec::new(), own).validate_commitment_request(0, 1));
    assert_eq!(message, "commitment A matrix width disagrees with request geometry");
}

#[test]
fn request_and_count_reject_a_b_width_mismatch() {
    let mut own = profile(2, CommitmentSliceCount::ONE, 1 << 20);
    own.outer.matrix.input_width += 1;
    let p = params(Vec::new(), own);
    let message = setup_message(p.validate_commitment_request(0, 2));
    assert_eq!(message, "commitment B matrix width disagrees with sliced request geometry");
    let message = setup_message(p.commitment_polynomial_count());
    assert_eq!(message, "commitment B width does not encode an exact polynomial count");
}

#[test]
fn polynomial_count_rejects_a_width_below_one_polynomial() {
    let mut own = profile(1, CommitmentSliceCount::ONE, 1 << 20);
    own.outer.matrix.input_width = 5;
    assert!(params(Vec::new(), own).commitment_polynomial_count().is_err());
}

#[test]
fn compressed_request_respects_the_compression_cap() {
    // The outer image has 1 slice * 2 rows * 4 coefficients = 8 coefficients.
    let mut fits = params(Vec::new(), profile(1, CommitmentSliceCount::ONE, 8));
    fits.payload_mode = PayloadMode::Compressed;
    assert!(fits.validate_commitment_request(0, 1).is_ok());

    let mut over = params(Vec::new(), profile(1, CommitmentSliceCount::ONE, 7));
    over.payload_mode = PayloadMode::Compressed;
    let message = setup_message(over.validate_commitment_request(0, 1));
    assert_eq!(message, "commitment B source exceeds the compression cap");

    // Uncompressed payloads are not bound by the cap.
    let uncompressed = params(Vec::new(), profile(1, CommitmentSliceCount::ONE, 7));
    assert!(uncompressed.validate_commitment_request(0, 1).is_ok());
}

#[test]
fn request_rejects_root_geometry_mismatch() {
    let mut own = profile(1, CommitmentSliceCount::ONE, 1 << 20);
    own.group.num_vars = 5;
    let message = setup_message(params(Vec::new(), own).validate_commitment_request(0, 1));
    assert_eq!(message, "root block geometry disagrees with the group size");
}

#[test]
fn request_rejects_digits_that_do_not_cover_the_field() {
    let mut own = profile(1, CommitmentSliceCount::ONE, 1 << 20);
    own.outer.digits.num_digits = 3;
    let message = setup_message(params(Vec::new(), own).validate_commitment_request(0, 1));
    assert_eq!(message, "commitment digits do not cover the field");
}

#[test]
fn request_rejects_one_hot_chunk_that_does_not_divide_d_a() {
    let mut p = params(Vec::new(), profile(1, CommitmentSliceCount::ONE, 1 << 20));
    p.source_encoding = SourceEncoding::OneHot { chunk: 3 };
    assert!(p.validate_commitment_request(0, 1).is_err());
    p.source_encoding = SourceEncoding::OneHot { chunk: 2 };
    assert!(p.validate_commitment_request(0, 1).is_ok());
}

#[test]
fn request_rejects_role_dimension_mismatch() {
    let mut p = params(Vec::new(), profile(1, CommitmentSliceCount::ONE, 1 << 20));
    p.role_dims.outer = 8;
    assert!(p.validate_group_topology().is_err());
    assert!(p.validate_commitment_request(0, 1).is_err());
}

#[test]
fn scalar_level_rejects_preceding_groups() {
    let own = profile(1, CommitmentSliceCount::ONE, 1 << 20);
    let scalar = params(Vec::new(), own);
    assert!(!scalar.has_preceding_groups());
    scalar.require_scalar_level("open").expect("scalar level");

    let multi = params(vec![profile(2, CommitmentSliceCount::ONE, 1 << 20)], own);
    assert!(multi.has_preceding_groups());
    let message = setup_message(multi.require_scalar_level("open"));
    assert_eq!(message, "open requires scalar root level params");
}

#[test]
fn challenge_norms_follow_the_fold_challenge() {
    let p = params(Vec::new(), profile(1, CommitmentSliceCount::ONE, 1 << 20));
    assert_eq!(p.challenge_l1_mass(), 48);
    assert_eq!(p.challenge_infinity_norm(), 2);
    assert_eq!(p.challenge_l2_sq_max(), 96);
    assert_eq!(p.num_fold_coeffs(), (POSITIONS * DIGITS.num_digits * D) as u128);
    assert_eq!(p.inner_width(), 8);
    assert_eq!(p.num_digits_fold(), 3);
}

#[test]
fn challenge_l1_mass_saturates() {
    let mut p = params(Vec::new(), profile(1, CommitmentSliceCount::ONE, 1 << 20));
    p.fold_challenge = FoldChallengeConfig {
        nonzero_coeffs: usize::MAX,
        max_abs: 3,
    };
    assert_eq!(p.challenge_l1_mass(), usize::MAX);
    assert_eq!(
        p.challenge_l2_sq_max(),
        usize::MAX as u128 * 9
    );
}

#[test]
fn fold_coefficient_count_is_exact_for_wide_matrices() {
    let mut own = profile(1, CommitmentSliceCount::ONE, 1 << 20);
    own.inner.matrix.input_width = usize::MAX;
    let p = params(Vec::new(), own);
    assert_eq!(p.num_fold_coeffs(), usize::MAX as u128 * D as u128);
}

#[test]
fn block_index_domain_is_the_next_power_of_two() {
    for (live, bits, domain) in [(1, 0, 1), (2, 1, 2), (3, 2, 4), (5, 3, 8), (8, 3, 8), (9, 4, 16)]
    {
        let blocks = BlockGeometry {
            live_blocks: live,
            positions_per_block: 3,
            live_ring_elements_per_claim: 3 * live,
        };
        assert_eq!(blocks.block_index_bits(), bits);
        assert_eq!(blocks.block_index_domain_size().unwrap(), domain);
        assert_eq!(1usize << blocks.block_index_bits(), domain);
        assert!(domain >= live);
        assert_eq!(blocks.position_index_bits(), 2);
    }
}

#[test]
fn block_index_domain_size_rejects_overflow() {
    let blocks = BlockGeometry {
        live_blocks: usize::MAX,
        positions_per_block: 1,
        live_ring_elements_per_claim: usize::MAX,
    };
    assert_eq!(blocks.block_index_bits(), 64);
    assert!(blocks.block_index_domain_size().is_err());
}

#[test]
fn params_block_accessors() {
    let p = params(Vec::new(), profile(1, CommitmentSliceCount::ONE, 1 << 20));
    assert_eq!(p.block_index_bits(), 1);
    assert_eq!(p.position_index_bits(), 1);
    assert_eq!(p.block_index_domain_size().unwrap(), 2);
    assert_eq!(p.n_ring_elems().unwrap(), 4);
    assert_eq!(p.flat_field_len().unwrap(), 16);
    p.validate_block_geometry().expect("block geometry");
}

#[test]
fn block_geometry_rejects_inexact_triples() {
    let empty_trailing = BlockGeometry {
        live_blocks: 3,
        positions_per_block: 2,
        live_ring_elements_per_claim: 4,
    };
    assert!(empty_trailing.validate().is_err());
    let overfull = BlockGeometry {
        live_blocks: 2,
        positions_per_block: 2,
        live_ring_elements_per_claim: 5,
    };
    assert!(overfull.validate().is_err());
    let no_blocks = BlockGeometry {
        live_blocks: 0,
        positions_per_block: 2,
        live_ring_elements_per_claim: 0,
    };
    assert!(no_blocks.validate().is_err());
    let partial_last = BlockGeometry {
        live_blocks: 3,
        positions_per_block: 2,
        live_ring_elements_per_claim: 5,
    };
    partial_last.validate().expect("partially filled last block");

    let mut own = profile(1, CommitmentSliceCount::ONE, 1 << 20);
    own.blocks = empty_trailing;
    let p = params(Vec::new(), own);
    assert!(p.n_ring_elems().is_err());
    assert!(p.flat_field_len().is_err());
}

#[test]
fn flat_field_len_reports_overflow() {
    let mut own = profile(1, CommitmentSliceCount::ONE, 1 << 20);
    own.blocks = BlockGeometry {
        live_blocks: 1,
        positions_per_block: usize::MAX,
        live_ring_elements_per_claim: usize::MAX,
    };
    let p = params(Vec::new(), own);
    assert_eq!(p.n_ring_elems().unwrap(), usize::MAX);
    let message = setup_message(p.flat_field_len());
    assert_eq!(
        message,
        format!("n_ring_elems={} * d_a={} overflows usize", usize::MAX, D)
    );
}

#[test]
fn grind_nonce_is_capped_and_batch_checked() {
    let first = profile(2, CommitmentSliceCount::ONE, 1 << 20);
    let own = profile(1, CommitmentSliceCount::ONE, 1 << 20);
    let p = params(vec![first], own);
    let batch = OpeningClaimsLayout {
        groups: vec![first.group, own.group],
    };
    p.validate_opening_batch(&batch).expect("batch");
    p.validate_fold_grind_nonce(&batch, 0).expect("nonce zero");
    p.validate_fold_grind_nonce(&batch, FOLD_GRIND_ATTEMPT_CAP - 1)
        .expect("last admitted nonce");
    assert!(p.validate_fold_grind_nonce(&batch, FOLD_GRIND_ATTEMPT_CAP).is_err());
    assert!(FoldLinfProtocolBinding::current()
        .validate_grind_nonce(FOLD_GRIND_ATTEMPT_CAP)
        .is_err());

    let reversed = OpeningClaimsLayout {
        groups: vec![own.group, first.group],
    };
    assert!(p.validate_opening_batch(&reversed).is_err());
    assert!(p.validate_fold_grind_nonce(&reversed, 0).is_err());
    let short = OpeningClaimsLayout {
        groups: vec![own.group],
    };
    assert!(p.validate_fold_grind_nonce(&short, 0).is_err());
}

#[test]
fn group_topology_rejects_empty_precommitted_group() {
    let own = profile(1, CommitmentSliceCount::ONE, 1 << 20);
    let mut empty = profile(1, CommitmentSliceCount::ONE, 1 << 20);
    empty.group.num_polynomials = 0;
    let p = params(vec![empty], own);
    assert!(p.validate_group_topology().is_err());
    assert!(params(vec![own], own).validate_group_topology().is_ok());
}
