use akita_types::backend::{ComputeBackendSetup, DigitRowsComputeBackend};
use akita_types::compression::{
    compression_execution_inputs, compute_compression_chain, finish_compression_chain,
    CompressionChainPlan, CompressionChainWitness, CompressionComputeBackend,
    CompressionExecutionInput, CompressionExecutionOutput, CompressionMapPlan,
};
use akita_types::decompose::{decompose_coefficient, decompose_commit_blocks};
use akita_types::digits::{CommitInnerWitness, DigitBlocks, RingVec};
use akita_types::inner_outer::{
    commit_outer_slices, compute_outer_commitment, for_each_outer_slice_input, outer_slice_inputs,
    stack_outer_rows,
    SliceInputSink,
    validate_commit_inner_group_len, validate_commit_inner_shape,
};
use akita_types::profile::SisModulusProfile;
use akita_types::slice::{BlockRange, CommitmentSliceCount, CommitmentSliceGeometry};
use akita_types::AkitaError;

const Q: u64 = 4294967197;

fn sis(cap: usize) -> SisModulusProfile {
    SisModulusProfile {
        field_bits: 32,
        compression_cap: cap,
    }
}

#[test]
fn balanced_digits_recompose_the_centered_coefficient() {
    assert_eq!(decompose_coefficient(5, Q, 4, 8), Some(vec![5, 0, 0, 0]));
    assert_eq!(decompose_coefficient(Q - 1, Q, 4, 8), Some(vec![-1, 0, 0, 0]));
    assert_eq!(decompose_coefficient(200, Q, 4, 8), Some(vec![-56, 1, 0, 0]));
    assert_eq!(decompose_coefficient(128, Q, 2, 8), Some(vec![-128, 1]));
    assert_eq!(decompose_coefficient(127, Q, 1, 8), Some(vec![127]));
    assert_eq!(decompose_coefficient(0, Q, 3, 1), Some(vec![0, 0, 0]));
    assert_eq!(decompose_coefficient(Q - 3, Q, 2, 1), Some(vec![-1, -1]));
    // Four balanced byte digits reach 127 * (1 + 2^8 + 2^16 + 2^24) upward.
    for c in [0u64, 1, 7, 255, 256, 65535, 2139062143, 1 << 31, Q / 2 + 1, Q - 2] {
        let digits = decompose_coefficient(c, Q, 4, 8).expect("four byte digits cover the field");
        let value: i128 = digits
            .iter()
            .rev()
            .fold(0i128, |acc, &digit| acc * 256 + i128::from(digit));
        let centered = if 2 * c <= Q { c as i128 } else { c as i128 - Q as i128 };
        assert_eq!(value, centered, "coefficient {c}");
    }
}

#[test]
fn decomposition_rejects_non_canonical_or_too_wide_coefficients() {
    assert_eq!(decompose_coefficient(Q, Q, 4, 8), None);
    assert_eq!(decompose_coefficient(300, Q, 1, 8), None);
    assert_eq!(decompose_coefficient(128, Q, 1, 8), None);
    assert_eq!(decompose_coefficient(2139062144, Q, 4, 8), None);
    assert_eq!(decompose_coefficient(3, Q, 3, 1), None);
}

#[test]
fn commit_blocks_become_digit_planes_of_the_outer_dimension() {
    let blocks = vec![vec![vec![200, 1, 2, 3]], vec![vec![Q - 1, 0, 0, 256]]];
    let digits = decompose_commit_blocks(&blocks, 2, 8, Q, 4, 4).expect("decomposition");
    assert_eq!(
        digits.digits,
        vec![-56, 1, 2, 3, 1, 0, 0, 0, -1, 0, 0, 0, 0, 0, 0, 1]
    );
    assert_eq!(digits.block_sizes, vec![2, 2]);
    assert_eq!(digits.ring_dim, 4);

    let halved = decompose_commit_blocks(&blocks, 2, 8, Q, 4, 2).expect("d_b = 2");
    assert_eq!(halved.digits, digits.digits);
    assert_eq!(halved.block_sizes, vec![4, 4]);
    assert_eq!(halved.ring_dim, 2);
}

#[test]
fn commit_block_decomposition_rejects_bad_inputs() {
    let blocks = vec![vec![vec![200, 1, 2, 3]]];
    assert!(decompose_commit_blocks(&blocks, 2, 0, Q, 4, 4).is_err());
    assert!(decompose_commit_blocks(&blocks, 2, 9, Q, 4, 4).is_err());
    assert!(decompose_commit_blocks(&blocks, 1, 8, Q, 4, 4).is_err());
    assert!(decompose_commit_blocks(&blocks, 2, 8, Q, 4, 3).is_err());
    let short_row = vec![vec![vec![1, 2, 3]]];
    assert!(decompose_commit_blocks(&short_row, 2, 8, Q, 4, 4).is_err());
}

#[test]
fn slices_partition_the_live_blocks() {
    let geometry = CommitmentSliceGeometry::try_new(CommitmentSliceCount::FOUR, 9, 1, 1, 1, 1, 1)
        .expect("geometry");
    assert_eq!(
        geometry.block_ranges(),
        vec![
            BlockRange { start: 0, end: 2 },
            BlockRange { start: 2, end: 4 },
            BlockRange { start: 4, end: 6 },
            BlockRange { start: 6, end: 9 },
        ]
    );
    assert_eq!(geometry.max_blocks_per_slice(), 3);
    for count in CommitmentSliceCount::ALL {
        for live in count.get()..20 {
            let geometry = CommitmentSliceGeometry::try_new(count, live, 2, 1, 1, 1, 1).unwrap();
            let ranges = geometry.block_ranges();
            assert_eq!(ranges.len(), count.get());
            assert_eq!(ranges[0].start, 0);
            assert_eq!(ranges[ranges.len() - 1].end, live);
            for pair in ranges.windows(2) {
                assert_eq!(pair[0].end, pair[1].start);
            }
            for range in &ranges {
                assert!(range.len() >= 1);
                assert!(range.len() <= geometry.max_blocks_per_slice());
            }
        }
    }
}

#[test]
fn slice_geometry_rejects_inexact_requests() {
    assert!(CommitmentSliceGeometry::try_new(CommitmentSliceCount::EIGHT, 7, 1, 1, 1, 1, 1).is_err());
    assert!(CommitmentSliceGeometry::try_new(CommitmentSliceCount::ONE, 1, 0, 1, 1, 1, 1).is_err());
    assert!(CommitmentSliceGeometry::try_new(CommitmentSliceCount::ONE, 1, 1, 1, 1, 3, 2).is_err());
    assert!(CommitmentSliceGeometry::try_new(CommitmentSliceCount::ONE, 1, 1, 1, 1, 1, 0).is_err());
    let geometry =
        CommitmentSliceGeometry::try_new(CommitmentSliceCount::TWO, 5, 3, 2, 4, 64, 32).unwrap();
    assert_eq!(geometry.ring_elements_per_block_per_polynomial(), 16);
    assert_eq!(geometry.max_blocks_per_slice(), 3);
    assert_eq!(geometry.physical_input_width(), 3 * 3 * 16);
    assert_eq!(geometry.slice_count(), CommitmentSliceCount::TWO);
}

#[test]
fn stacked_outer_rows_keep_batch_order() {
    let batches = vec![
        vec![vec![1, 2], vec![3, 4]],
        vec![vec![5, 6], vec![7, 8]],
    ];
    assert_eq!(
        stack_outer_rows(batches.clone(), 2, 2, 2).unwrap(),
        vec![vec![1, 2], vec![3, 4], vec![5, 6], vec![7, 8]]
    );
    assert!(stack_outer_rows(batches.clone(), 3, 2, 2).is_err());
    assert!(stack_outer_rows(batches.clone(), 2, 1, 2).is_err());
    assert!(stack_outer_rows(batches, 2, 2, 3).is_err());
}

#[test]
fn b_row_shape_rejection_lists_the_batch_lengths() {
    let batches = vec![vec![vec![1, 2], vec![3, 4]], vec![vec![5, 6]]];
    match stack_outer_rows(batches, 3, 2, 2) {
        Err(AkitaError::InvalidSetup(message)) => assert_eq!(
            message,
            "backend returned B commitment row shape [2, 1], expected 3 batches of 2 rows"
        ),
        other => panic!("unexpected {other:?}"),
    }
    match stack_outer_rows(Vec::new(), 1, 4, 2) {
        Err(AkitaError::InvalidSetup(message)) => assert_eq!(
            message,
            "backend returned B commitment row shape [], expected 1 batches of 4 rows"
        ),
        other => panic!("unexpected {other:?}"),
    }
}

#[test]
fn group_length_must_match_the_sources() {
    validate_commit_inner_group_len(3, 3).expect("same length");
    match validate_commit_inner_group_len(3, 2) {
        Err(AkitaError::InvalidSetup(message)) => {
            assert_eq!(message, "backend returned 2 inner commitments for 3 sources");
        }
        other => panic!("unexpected {other:?}"),
    }
}

#[test]
fn inner_shape_reports_the_row_count() {
    match validate_commit_inner_shape(&witness(1, 3, 4, 0), 2, 3, 4) {
        Err(AkitaError::InvalidSetup(message)) => {
            assert_eq!(message, "backend returned 3 inner commitment rows, expected 6");
        }
        other => panic!("unexpected {other:?}"),
    }
    assert!(validate_commit_inner_shape(&witness(2, 3, 4, 0), 2, 3, 2).is_err());
    validate_commit_inner_shape(&witness(2, 3, 4, 0), 2, 3, 4).expect("exact shape");
}

#[test]
fn compression_input_is_exactly_the_outer_image() {
    let source = RingVec::from_coeffs_with_ring_dim(vec![1, 2, 3, 4, 5, 6], 2).unwrap();
    let inputs = compression_execution_inputs(sis(6), source).unwrap();
    assert_eq!(
        inputs,
        vec![CompressionExecutionInput {
            plan: CompressionChainPlan {
                modulus_profile: sis(6),
                source_coefficients: 6,
            },
            coefficients: vec![1, 2, 3, 4, 5, 6],
        }]
    );
    let over = RingVec::from_coeffs_with_ring_dim(vec![1; 8], 2).unwrap();
    assert!(compression_execution_inputs(sis(6), over).is_err());
    let empty = RingVec::from_coeffs_with_ring_dim(Vec::new(), 2).unwrap();
    assert!(compression_execution_inputs(sis(6), empty).is_err());
}

#[test]
fn compression_plan_follows_the_cap() {
    assert_eq!(CompressionChainPlan::try_for_complete_source(sis(4), 5).unwrap(), None);
    assert_eq!(
        CompressionChainPlan::try_for_complete_source(sis(4), 4).unwrap(),
        Some(CompressionChainPlan {
            modulus_profile: sis(4),
            source_coefficients: 4,
        })
    );
    assert!(CompressionChainPlan::try_for_complete_source(sis(4), 0).is_err());
    assert!(CompressionChainPlan::for_complete_source(sis(4), 5).is_err());
}

fn output(terminal: Vec<u64>, maps: Vec<usize>) -> CompressionExecutionOutput {
    CompressionExecutionOutput {
        witness: CompressionChainWitness {
            plan: CompressionChainPlan {
                modulus_profile: sis(16),
                source_coefficients: 16,
            },
            maps: maps
                .into_iter()
                .map(|ring_dimension| CompressionMapPlan { ring_dimension })
                .collect(),
        },
        terminal,
        quotients: vec![RingVec::from_coeffs_with_ring_dim(vec![9, 9], 2).unwrap()],
    }
}

#[test]
fn compression_payload_uses_the_last_map_dimension() {
    let done = finish_compression_chain(vec![output(vec![1, 2, 3, 4, 5, 6], vec![8, 3])]).unwrap();
    assert_eq!(done.payload.ring_dim, 3);
    assert_eq!(done.payload.coeffs, vec![1, 2, 3, 4, 5, 6]);
    assert_eq!(done.payload.count(), 2);
    assert_eq!(done.witness.maps().len(), 2);
    assert_eq!(done.quotients.len(), 1);
}

#[test]
fn malformed_compression_output_is_an_invalid_proof() {
    assert!(matches!(
        finish_compression_chain(Vec::new()),
        Err(AkitaError::InvalidProof)
    ));
    assert!(matches!(
        finish_compression_chain(vec![output(vec![1, 2], Vec::new())]),
        Err(AkitaError::InvalidProof)
    ));
    assert!(matches!(
        finish_compression_chain(vec![output(vec![1, 2, 3], vec![2])]),
        Err(AkitaError::InvalidSetup(_))
    ));
}

/// Executor that keeps every other source coefficient and ends in ring
/// dimension 2.
struct HalvingCompressor;

impl ComputeBackendSetup for HalvingCompressor {
    type PreparedSetup = ();
}

impl CompressionComputeBackend for HalvingCompressor {
    fn execute_compression_chains(
        &self,
        prepared: &(),
        inputs: Vec<CompressionExecutionInput>,
    ) -> Result<Vec<CompressionExecutionOutput>, AkitaError> {
        self.executed(prepared, inputs)
    }

    fn executed(
        &self,
        _prepared: &(),
        inputs: Vec<CompressionExecutionInput>,
    ) -> Result<Vec<CompressionExecutionOutput>, AkitaError> {
        Ok(inputs
            .into_iter()
            .map(|input| CompressionExecutionOutput {
                witness: CompressionChainWitness {
                    plan: input.plan,
                    maps: vec![CompressionMapPlan { ring_dimension: 2 }],
                },
                terminal: input.coefficients.iter().step_by(2).copied().collect(),
                quotients: Vec::new(),
            })
            .collect())
    }
}

#[test]
fn compression_chain_runs_once_over_the_outer_image() {
    let source = RingVec::from_coeffs_with_ring_dim((1..=8).collect(), 4).unwrap();
    let chain = compute_compression_chain(&HalvingCompressor, &(), sis(8), source).unwrap();
    assert_eq!(chain.payload.ring_dim, 2);
    assert_eq!(chain.payload.coeffs, vec![1, 3, 5, 7]);
    assert_eq!(chain.witness.plan.source_coefficients, 8);

    let too_big = RingVec::from_coeffs_with_ring_dim((1..=8).collect(), 4).unwrap();
    assert!(compute_compression_chain(&HalvingCompressor, &(), sis(7), too_big).is_err());
}

/// B matrix with entry `row + 1` in every column, applied coefficient-wise.
struct SumRows;

impl ComputeBackendSetup for SumRows {
    type PreparedSetup = ();
}

impl DigitRowsComputeBackend for SumRows {
    fn digit_rows(
        &self,
        prepared: &(),
        n_b: usize,
        inputs: &[&[i8]],
        log_basis: u32,
        ring_dim: usize,
    ) -> Result<Vec<Vec<Vec<u64>>>, AkitaError> {
        self.rows_for(prepared, n_b, inputs, log_basis, ring_dim)
    }

    fn rows_for(
        &self,
        _prepared: &(),
        n_b: usize,
        inputs: &[&[i8]],
        _log_basis: u32,
        ring_dim: usize,
    ) -> Result<Vec<Vec<Vec<u64>>>, AkitaError> {
        Ok(inputs
            .iter()
            .map(|input| {
                (0..n_b)
                    .map(|row| {
                        (0..ring_dim)
                            .map(|c| {
                                let sum: i64 = input
                                    .chunks(ring_dim)
                                    .map(|plane| i64::from(plane[c]))
                                    .sum();
                                ((row as i64 + 1) * sum).rem_euclid(Q as i64) as u64
                            })
                            .collect()
                    })
                    .collect()
            })
            .collect())
    }
}

#[test]
fn outer_slices_apply_b_to_every_slice() {
    let first = DigitBlocks::new(vec![1, 2, 3, 4, 5, 6], vec![1, 1, 1], 2).unwrap();
    let second = DigitBlocks::new(vec![10, 20, 30, 40, 50, 60], vec![1, 1, 1], 2).unwrap();
    let geometry =
        CommitmentSliceGeometry::try_new(CommitmentSliceCount::TWO, 3, 2, 1, 1, 2, 2).unwrap();
    let rows = commit_outer_slices(&SumRows, &(), 2, &[&first, &second], &geometry, 8).unwrap();
    // Slice 0 holds block 0 (plus a zero plane), slice 1 holds blocks 1 and 2.
    assert_eq!(
        rows,
        vec![vec![11, 22], vec![22, 44], vec![88, 110], vec![176, 220]]
    );

    let wrong_dim = DigitBlocks::new(vec![1, 2, 3], vec![1, 1, 1], 1).unwrap();
    assert!(commit_outer_slices(&SumRows, &(), 2, &[&wrong_dim, &second], &geometry, 8).is_err());
    assert!(commit_outer_slices(&SumRows, &(), 2, &[&first], &geometry, 8).is_err());
}

fn witness(blocks: usize, rows: usize, d: usize, value: u64) -> CommitInnerWitness {
    CommitInnerWitness::from_rows(vec![vec![vec![value; d]; rows]; blocks], d).unwrap()
}

#[test]
fn outer_commitment_validates_before_decomposing() {
    // Two blocks of one A row of dimension 2, two digits, outer dimension 2:
    // two digit planes per block.
    let geometry =
        CommitmentSliceGeometry::try_new(CommitmentSliceCount::ONE, 2, 2, 1, 2, 2, 2).unwrap();
    let inners = vec![witness(2, 1, 2, 1), witness(2, 1, 2, Q - 1)];
    let (rows, outer) =
        compute_outer_commitment(&SumRows, &(), inners.clone(), 2, 1, 2, 2, 8, 3, &geometry, 2, 2, Q)
            .expect("outer commitment");
    assert_eq!(rows, inners.iter().map(|w| w.inner_rows.clone()).collect::<Vec<_>>());
    assert_eq!(outer.ring_dim, 2);
    assert_eq!(outer.coeff_len(), 1 * 3 * 2);
    // Digits of 1 are [1, 0] and of -1 are [-1, 0]: the planes cancel.
    assert_eq!(outer.coeffs, vec![0, 0, 0, 0, 0, 0]);

    match compute_outer_commitment(&SumRows, &(), inners.clone(), 3, 1, 2, 2, 8, 3, &geometry, 2, 2, Q) {
        Err(AkitaError::InvalidSetup(message)) => {
            assert_eq!(message, "backend returned 2 inner commitments for 3 sources");
        }
        other => panic!("unexpected {other:?}"),
    }
    let bad_shape = vec![witness(2, 1, 2, 1), witness(1, 1, 2, 1)];
    assert!(
        compute_outer_commitment(&SumRows, &(), bad_shape, 2, 1, 2, 2, 8, 3, &geometry, 2, 2, Q)
            .is_err()
    );
    let wrong_dim = vec![witness(2, 1, 2, 1), witness(1, 1, 4, 1)];
    assert!(
        compute_outer_commitment(&SumRows, &(), wrong_dim, 2, 1, 2, 2, 8, 3, &geometry, 2, 2, Q)
            .is_err()
    );
}

#[test]
fn inner_witness_rows_are_read_block_by_block() {
    let w = CommitInnerWitness::from_rows(
        vec![vec![vec![1, 2], vec![3, 4]], vec![vec![5, 6], vec![7, 8]]],
        2,
    )
    .unwrap();
    assert_eq!(w.block_rows(1, 2).unwrap(), vec![vec![5, 6], vec![7, 8]]);
    assert_eq!(w.block_rows(0, 1).unwrap(), vec![vec![1, 2]]);
    assert!(w.block_rows(2, 2).is_err());
    assert!(w.ensure_ring_dim(2).is_ok());
    assert!(w.ensure_ring_dim(4).is_err());
    assert!(CommitInnerWitness::from_rows(vec![vec![vec![1, 2, 3]]], 2).is_err());
    assert_eq!(w.into_inner_rows().coeffs, (1..=8).collect::<Vec<u64>>());
}

#[test]
fn ring_vectors_need_whole_ring_elements() {
    assert!(RingVec::from_coeffs_with_ring_dim(vec![1, 2, 3], 2).is_err());
    assert!(RingVec::from_coeffs_with_ring_dim(vec![1, 2], 0).is_err());
    let v = RingVec::from_ring_elems(&vec![vec![1, 2], vec![3, 4]], 2);
    assert_eq!(v.count(), 2);
    assert_eq!(v.into_coeffs(), vec![1, 2, 3, 4]);
}

#[test]
fn digit_blocks_need_an_exact_layout() {
    assert!(DigitBlocks::new(vec![1, 2, 3], vec![1, 1], 2).is_err());
    assert!(DigitBlocks::new(vec![1, 2], vec![1], 0).is_err());
    let blocks = DigitBlocks::new(vec![1, 2, 3, 4], vec![2], 2).unwrap();
    assert_eq!(blocks.block_count(), 1);
    assert_eq!(blocks.block_sizes(), &[2]);
    assert!(blocks.typed_planes(4).is_err());
}

/// Sink that logs every input and refuses the slice at `refuse_at`.
struct LoggingSink {
    log: Vec<Vec<i8>>,
    answers: Vec<Result<(), AkitaError>>,
    refuse_at: Option<usize>,
}

impl SliceInputSink for LoggingSink {
    fn handed(&self) -> Vec<Vec<i8>> {
        self.log.clone()
    }

    fn answers(&self) -> Vec<Result<(), AkitaError>> {
        self.answers.clone()
    }

    fn accepts_all(&self) -> bool {
        self.refuse_at.is_none()
    }

    fn consume(&mut self, input: &[i8]) -> Result<(), AkitaError> {
        self.log.push(input.to_vec());
        let answer = if Some(self.log.len() - 1) == self.refuse_at {
            Err(AkitaError::InvalidSetup("sink refused".into()))
        } else {
            Ok(())
        };
        self.answers.push(answer.clone());
        answer
    }
}

#[test]
fn slice_stream_hands_every_slice_in_order() {
    let a = DigitBlocks::new(vec![10, 11, 12, 13, 14], vec![1; 5], 1).unwrap();
    let b = DigitBlocks::new(vec![20, 21, 22, 23, 24], vec![1; 5], 1).unwrap();
    let geometry =
        CommitmentSliceGeometry::try_new(CommitmentSliceCount::TWO, 5, 2, 1, 1, 1, 1).unwrap();
    let planes = [a.typed_planes(1).unwrap(), b.typed_planes(1).unwrap()];
    let mut sink = LoggingSink {
        log: Vec::new(),
        answers: Vec::new(),
        refuse_at: None,
    };
    for_each_outer_slice_input(&planes, &geometry, &mut sink).expect("stream");
    assert_eq!(
        sink.log,
        vec![vec![10, 11, 0, 20, 21, 0], vec![12, 13, 14, 22, 23, 24]]
    );
}

#[test]
fn slice_stream_stops_at_the_refused_slice() {
    let a = DigitBlocks::new((0..8).collect(), vec![1; 8], 1).unwrap();
    let geometry =
        CommitmentSliceGeometry::try_new(CommitmentSliceCount::FOUR, 8, 1, 1, 1, 1, 1).unwrap();
    let planes = [a.typed_planes(1).unwrap()];
    let mut sink = LoggingSink {
        log: Vec::new(),
        answers: Vec::new(),
        refuse_at: Some(1),
    };
    match for_each_outer_slice_input(&planes, &geometry, &mut sink) {
        Err(AkitaError::InvalidSetup(message)) => assert_eq!(message, "sink refused"),
        other => panic!("unexpected {other:?}"),
    }
    assert_eq!(sink.log, vec![vec![0, 1], vec![2, 3]]);

    let short = DigitBlocks::new((0..6).collect(), vec![1; 6], 1).unwrap();
    let mut untouched = LoggingSink {
        log: Vec::new(),
        answers: Vec::new(),
        refuse_at: None,
    };
    assert!(
        for_each_outer_slice_input(&[short.typed_planes(1).unwrap()], &geometry, &mut untouched)
            .is_err()
    );
    assert!(untouched.log.is_empty());
}

#[test]
fn witness_keeps_its_rows_in_order() {
    let w = CommitInnerWitness::from_rows(
        vec![vec![vec![1, 2], vec![3, 4]], vec![vec![5, 6]]],
        2,
    )
    .unwrap();
    assert_eq!(w.inner_rows.coeffs, vec![1, 2, 3, 4, 5, 6]);
    assert_eq!(w.inner_rows.count(), 3);
}

fn rejection<T: std::fmt::Debug>(result: Result<T, AkitaError>) -> String {
    match result {
        Err(AkitaError::InvalidSetup(message)) => message,
        other => panic!("expected an invalid-setup rejection, got {other:?}"),
    }
}

#[test]
fn decomposition_rejections_name_the_first_failure() {
    let blocks = vec![vec![vec![200, 1, 2, 3]]];
    assert_eq!(
        rejection(decompose_commit_blocks(&blocks, 1, 8, Q, 4, 4)),
        "inner coefficient exceeds the digit range"
    );
    assert_eq!(
        rejection(decompose_commit_blocks(&blocks, 2, 8, Q, 4, 3)),
        "inner digits do not tile the outer ring dimension"
    );
    assert_eq!(
        rejection(decompose_commit_blocks(&vec![vec![vec![1, 2, 3]]], 2, 8, Q, 4, 4)),
        "inner row has the wrong ring dimension"
    );
    assert_eq!(
        rejection(decompose_commit_blocks(&blocks, 2, 0, Q, 4, 4)),
        "digit basis out of range"
    );
}

#[test]
fn outer_commitment_passes_on_the_decomposition_rejection() {
    let geometry =
        CommitmentSliceGeometry::try_new(CommitmentSliceCount::ONE, 2, 1, 1, 1, 2, 2).unwrap();
    // One digit cannot hold 200 in balanced base 2^8.
    let inners = vec![witness(2, 1, 2, 200)];
    assert_eq!(
        rejection(compute_outer_commitment(
            &SumRows, &(), inners, 1, 1, 2, 1, 8, 3, &geometry, 2, 2, Q
        )),
        "inner coefficient exceeds the digit range"
    );
}

#[test]
fn slice_input_rejections_name_the_mismatch() {
    let geometry =
        CommitmentSliceGeometry::try_new(CommitmentSliceCount::TWO, 3, 2, 1, 1, 2, 2).unwrap();
    let good = DigitBlocks::new(vec![1, 2, 3, 4, 5, 6], vec![1, 1, 1], 2).unwrap();
    let short = DigitBlocks::new(vec![1, 2, 3, 4], vec![1, 1], 2).unwrap();
    let wrong_dim = DigitBlocks::new(vec![1, 2, 3], vec![1, 1, 1], 1).unwrap();
    assert_eq!(
        rejection(outer_slice_inputs(&[&good, &short], &geometry)),
        "B slice input does not match the frozen block geometry"
    );
    assert_eq!(
        rejection(outer_slice_inputs(&[&good, &wrong_dim], &geometry)),
        "digit planes have the wrong ring dimension"
    );
    assert_eq!(
        rejection(outer_slice_inputs(&[&good], &geometry)),
        "B slice input width does not match the physical matrix"
    );
}

#[test]
fn untileable_terminal_reports_the_tiling() {
    assert_eq!(
        rejection(finish_compression_chain(vec![output(vec![1, 2, 3], vec![2])])),
        "coefficient count is not a whole number of ring elements"
    );
}

#[test]
fn refusing_sink_answers_are_recorded() {
    let a = DigitBlocks::new((0..8).collect(), vec![1; 8], 1).unwrap();
    let geometry =
        CommitmentSliceGeometry::try_new(CommitmentSliceCount::FOUR, 8, 1, 1, 1, 1, 1).unwrap();
    let mut sink = LoggingSink {
        log: Vec::new(),
        answers: Vec::new(),
        refuse_at: Some(1),
    };
    let result = for_each_outer_slice_input(&[a.typed_planes(1).unwrap()], &geometry, &mut sink);
    assert_eq!(sink.answers.len(), 2);
    assert!(sink.answers[0].is_ok());
    assert_eq!(
        format!("{:?}", sink.answers[1]),
        format!("{:?}", result)
    );
}
