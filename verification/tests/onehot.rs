use akita_types::backend::{
    CommitInnerPlan, CommittedSourceContract, ComputeBackendSetup, DigitRowsComputeBackend,
    RootCommitKernel, RootCommitSource,
};
use akita_types::compression::{
    CompressionComputeBackend, CompressionExecutionInput, CompressionExecutionOutput,
};
use akita_types::digits::CommitInnerWitness;
use akita_types::group_commit::{commit_group, CommitOutput};
use akita_types::params::{
    CommittedGroupDescriptor, CommittedGroupParams, CommitmentRingDims, FoldChallengeConfig,
    GroupOpeningParams, OpeningClaimsLayout, PayloadMode, SourceEncoding,
};
use akita_types::profile::{
    BlockGeometry, CommitmentProfile, DigitParams, MatrixDescriptor, PolynomialGroupLayout,
    RoleParams, SisModulusProfile,
};
use akita_types::slice::CommitmentSliceCount;
use akita_types::AkitaError;

/// Order of the test field.
const MODULUS: u64 = 4294967197;
const FIELD_BITS: u32 = 32;
/// Ring dimension of one-hot sources.
const ONEHOT_D: usize = 64;
/// One-hot chunk size: each chunk of this many coefficients holds one 1.
const BENCH_ONEHOT_K: usize = 16;
const POSITIONS_PER_BLOCK: usize = 256;
const N_A: usize = 2;
const N_B: usize = 3;
const INNER_DIGITS: DigitParams = DigitParams {
    num_digits: 4,
    log_basis: 8,
};
const OUTER_DIGITS: DigitParams = DigitParams {
    num_digits: 4,
    log_basis: 8,
};

struct OneHotCfg;

impl OneHotCfg {
    fn opening_basis_range() -> (u32, u32) {
        (OUTER_DIGITS.log_basis, OUTER_DIGITS.log_basis)
    }

    /// Standalone profile of a group committed without precommitted groups.
    fn profile_without_precommitted_groups(
        key: PolynomialGroupLayout,
    ) -> Result<CommitmentProfile, AkitaError> {
        let coefficients = 1usize
            .checked_shl(key.num_vars as u32)
            .ok_or_else(|| AkitaError::InvalidSetup("group too large".into()))?;
        let ring_elements = coefficients.div_ceil(ONEHOT_D);
        let live_blocks = ring_elements.div_ceil(POSITIONS_PER_BLOCK);
        let sis = SisModulusProfile {
            field_bits: FIELD_BITS,
            compression_cap: 1 << 20,
        };
        let per_block = N_A * OUTER_DIGITS.num_digits * ONEHOT_D / ONEHOT_D;
        Ok(CommitmentProfile {
            group: key,
            blocks: BlockGeometry {
                live_blocks,
                positions_per_block: POSITIONS_PER_BLOCK,
                live_ring_elements_per_claim: ring_elements,
            },
            inner: RoleParams {
                matrix: MatrixDescriptor {
                    input_width: POSITIONS_PER_BLOCK * INNER_DIGITS.num_digits,
                    output_rank: N_A,
                    ring_dimension: ONEHOT_D,
                    sis_modulus_profile: sis,
                },
                digits: INNER_DIGITS,
            },
            outer: RoleParams {
                matrix: MatrixDescriptor {
                    input_width: key.num_polynomials * live_blocks * per_block,
                    output_rank: N_B,
                    ring_dimension: ONEHOT_D,
                    sis_modulus_profile: sis,
                },
                digits: OUTER_DIGITS,
            },
            outer_slice_count: CommitmentSliceCount::ONE,
        })
    }
}

fn group_descriptor(profile: CommitmentProfile) -> CommittedGroupDescriptor {
    CommittedGroupDescriptor {
        profile,
        opening: GroupOpeningParams { num_digits_fold: 2 },
    }
}

/// Parameters of a fold level committing `own` after `precommitted`.
fn level_params(
    precommitted: Vec<CommitmentProfile>,
    own: CommitmentProfile,
) -> CommittedGroupParams {
    CommittedGroupParams {
        precommitted: precommitted.into_iter().map(group_descriptor).collect(),
        own: group_descriptor(own),
        role_dims: CommitmentRingDims {
            inner: own.inner.matrix.ring_dimension,
            outer: own.outer.matrix.ring_dimension,
            opening: own.outer.matrix.ring_dimension,
        },
        fold_challenge: FoldChallengeConfig {
            nonzero_coeffs: 24,
            max_abs: 2,
        },
        source_encoding: SourceEncoding::OneHot {
            chunk: BENCH_ONEHOT_K,
        },
        payload_mode: PayloadMode::Uncompressed,
    }
}

/// A one-hot polynomial: each chunk of `BENCH_ONEHOT_K` coefficients holds
/// a single one.
#[derive(Clone, Debug)]
struct OneHotPoly {
    num_vars: usize,
    hot: Vec<u32>,
}

impl OneHotPoly {
    fn num_vars(&self) -> usize {
        self.num_vars
    }
}

fn debug_make_onehot_poly(num_vars: usize, d: usize, seed: u64) -> OneHotPoly {
    assert_eq!(d % BENCH_ONEHOT_K, 0);
    let chunks = (1usize << num_vars) / BENCH_ONEHOT_K;
    let mut state = seed;
    let hot = (0..chunks)
        .map(|_| {
            state = state
                .wrapping_mul(6364136223846793005)
                .wrapping_add(1442695040888963407);
            ((state >> 33) % BENCH_ONEHOT_K as u64) as u32
        })
        .collect();
    OneHotPoly { num_vars, hot }
}

impl RootCommitSource for OneHotPoly {
    type View = Vec<u64>;

    fn fits_accepted_interval(
        &self,
        plan: &CommitInnerPlan,
        contract: &CommittedSourceContract,
    ) -> Result<(), AkitaError> {
        self.admission(*plan, *contract)
    }

    fn commit_view(&self, ring_dim: usize) -> Result<Vec<u64>, AkitaError> {
        self.view_for(ring_dim)
    }

    fn admission(
        &self,
        _plan: CommitInnerPlan,
        contract: CommittedSourceContract,
    ) -> Result<(), AkitaError> {
        if contract.max_abs_coefficient < 1 {
            return Err(AkitaError::InvalidSetup("one-hot source outside the interval".into()));
        }
        Ok(())
    }

    fn view_for(&self, ring_dim: usize) -> Result<Vec<u64>, AkitaError> {
        if ring_dim % BENCH_ONEHOT_K != 0 {
            return Err(AkitaError::InvalidSetup("one-hot chunk does not fit".into()));
        }
        let mut coefficients = vec![0u64; 1usize << self.num_vars];
        for (chunk, &hot) in self.hot.iter().enumerate() {
            coefficients[chunk * BENCH_ONEHOT_K + hot as usize] = 1;
        }
        Ok(coefficients)
    }
}

struct AkitaProverSetup {
    max_num_vars: usize,
    max_num_polys: usize,
}

/// Reference CPU backend: the A and B matrices act coefficient-wise with
/// fixed public entries.
struct CpuBackend;

impl CpuBackend {
    const DEFAULT: CpuBackend = CpuBackend;

    fn prepare_setup(&self, setup: &AkitaProverSetup) -> Result<PreparedSetup, AkitaError> {
        Ok(PreparedSetup {
            max_num_vars: setup.max_num_vars,
            max_num_polys: setup.max_num_polys,
        })
    }
}

struct PreparedSetup {
    max_num_vars: usize,
    max_num_polys: usize,
}

struct UniformProverStack<'a> {
    backend: &'a CpuBackend,
    prepared: &'a PreparedSetup,
}

impl<'a> UniformProverStack<'a> {
    fn uniform(
        backend: &'a CpuBackend,
        prepared: &'a PreparedSetup,
    ) -> Result<UniformProverStack<'a>, AkitaError> {
        Ok(UniformProverStack { backend, prepared })
    }
}

impl ComputeBackendSetup for CpuBackend {
    type PreparedSetup = PreparedSetup;
}

impl RootCommitKernel<Vec<u64>> for CpuBackend {
    fn commit_inner_group(
        &self,
        prepared: &PreparedSetup,
        sources: Vec<Vec<u64>>,
        plan: CommitInnerPlan,
    ) -> Result<Vec<CommitInnerWitness>, AkitaError> {
        self.inner_group(prepared, sources, plan)
    }

    fn inner_group(
        &self,
        prepared: &PreparedSetup,
        sources: Vec<Vec<u64>>,
        plan: CommitInnerPlan,
    ) -> Result<Vec<CommitInnerWitness>, AkitaError> {
        if sources.len() > prepared.max_num_polys {
            return Err(AkitaError::InvalidSetup("setup capacity exceeded".into()));
        }
        let d = plan.ring_dim;
        let block_len = plan.num_positions_per_block * d;
        sources
            .iter()
            .map(|source| {
                let rows = source
                    .chunks(block_len)
                    .map(|block| {
                        (0..plan.n_a)
                            .map(|row| {
                                let mut acc = vec![0u64; d];
                                for (position, element) in block.chunks(d).enumerate() {
                                    let entry = (row * 131 + position * 7 + 1) as u64;
                                    for (slot, &coefficient) in acc.iter_mut().zip(element) {
                                        *slot = (*slot + entry * coefficient) % MODULUS;
                                    }
                                }
                                acc
                            })
                            .collect::<Vec<_>>()
                    })
                    .collect::<Vec<_>>();
                CommitInnerWitness::from_rows(rows, d)
            })
            .collect()
    }
}

impl DigitRowsComputeBackend for CpuBackend {
    fn digit_rows(
        &self,
        prepared: &PreparedSetup,
        n_b: usize,
        inputs: &[&[i8]],
        log_basis: u32,
        ring_dim: usize,
    ) -> Result<Vec<Vec<Vec<u64>>>, AkitaError> {
        self.rows_for(prepared, n_b, inputs, log_basis, ring_dim)
    }

    fn rows_for(
        &self,
        _prepared: &PreparedSetup,
        n_b: usize,
        inputs: &[&[i8]],
        _log_basis: u32,
        ring_dim: usize,
    ) -> Result<Vec<Vec<Vec<u64>>>, AkitaError> {
        Ok(inputs
            .iter()
            .map(|input| {
                (0..n_b)
                    .map(|row| {
                        let mut acc = vec![0i128; ring_dim];
                        for (column, plane) in input.chunks(ring_dim).enumerate() {
                            let entry = (row * 17 + column + 1) as i128;
                            for (slot, &digit) in acc.iter_mut().zip(plane) {
                                *slot += entry * i128::from(digit);
                            }
                        }
                        acc.into_iter()
                            .map(|value| value.rem_euclid(MODULUS as i128) as u64)
                            .collect()
                    })
                    .collect()
            })
            .collect())
    }
}

impl CompressionComputeBackend for CpuBackend {
    fn execute_compression_chains(
        &self,
        prepared: &PreparedSetup,
        inputs: Vec<CompressionExecutionInput>,
    ) -> Result<Vec<CompressionExecutionOutput>, AkitaError> {
        self.executed(prepared, inputs)
    }

    fn executed(
        &self,
        _prepared: &PreparedSetup,
        _inputs: Vec<CompressionExecutionInput>,
    ) -> Result<Vec<CompressionExecutionOutput>, AkitaError> {
        Err(AkitaError::InvalidSetup("compression is not configured".into()))
    }
}

struct OneHotScheme;

impl OneHotScheme {
    fn setup_prover(max_num_vars: usize, max_num_polys: usize) -> Result<AkitaProverSetup, AkitaError> {
        Ok(AkitaProverSetup {
            max_num_vars,
            max_num_polys,
        })
    }

    /// Commit a group standalone, or after precommitted groups.
    fn commit(
        polys: &[OneHotPoly],
        stack: &UniformProverStack<'_>,
        precommitted: &[CommitmentProfile],
        own: Option<&CommitmentProfile>,
    ) -> Result<CommitOutput, AkitaError> {
        let key = PolynomialGroupLayout::new(polys[0].num_vars(), polys.len());
        if key.num_vars > stack.prepared.max_num_vars {
            return Err(AkitaError::InvalidSetup("setup capacity exceeded".into()));
        }
        let profile = match own {
            Some(profile) => *profile,
            None => OneHotCfg::profile_without_precommitted_groups(key)?,
        };
        let params = level_params(precommitted.to_vec(), profile);
        commit_group(
            &params,
            polys,
            stack.backend,
            stack.prepared,
            CommittedSourceContract {
                max_abs_coefficient: 1,
            },
            MODULUS,
        )
    }
}

fn with_precommit_stack<R>(
    max_num_vars: usize,
    max_num_polys: usize,
    run: impl FnOnce(&UniformProverStack<'_>) -> R,
) -> R {
    let setup = OneHotScheme::setup_prover(max_num_vars, max_num_polys).expect("setup");
    let prepared = CpuBackend::DEFAULT
        .prepare_setup(&setup)
        .expect("prepared setup");
    let stack = UniformProverStack::uniform(&CpuBackend::DEFAULT, &prepared).expect("stack");
    run(&stack)
}

#[test]
fn profile_native_commit_group_returns_exact_frozen_layout() {
    const NV: usize = 16;
    const GROUP_SIZE: usize = 1;

    let key = PolynomialGroupLayout::new(NV, GROUP_SIZE);
    let profile = OneHotCfg::profile_without_precommitted_groups(key).expect("independent profile");
    let total_field = (profile.blocks.live_blocks * profile.blocks.positions_per_block)
        .checked_mul(ONEHOT_D)
        .expect("total field size overflow");
    assert_eq!(total_field % BENCH_ONEHOT_K, 0);
    let polys = [debug_make_onehot_poly(NV, ONEHOT_D, 0x0bee_fcaf_9a77_0001)];

    let setup = OneHotScheme::setup_prover(NV, GROUP_SIZE).expect("setup");
    let prepared = CpuBackend::DEFAULT
        .prepare_setup(&setup)
        .expect("prepared setup");
    let stack = UniformProverStack::uniform(&CpuBackend::DEFAULT, &prepared).expect("stack");
    let CommitOutput {
        committed_group: commitment,
        hint: _hint,
    } = OneHotScheme::commit(&polys, &stack, &[], None).expect("precommit");
    let frozen_layout = commitment.profile;

    assert_eq!(frozen_layout.group, key);
    assert_eq!(
        frozen_layout.blocks.positions_per_block,
        profile.blocks.positions_per_block
    );
    assert_eq!(frozen_layout.blocks.live_blocks, profile.blocks.live_blocks);
    assert_eq!(
        frozen_layout.outer.digits.log_basis,
        OneHotCfg::opening_basis_range().0
    );
    assert_eq!(
        frozen_layout.inner.matrix.output_rank(),
        profile.inner.matrix.output_rank()
    );
    assert_eq!(
        frozen_layout.outer.matrix.output_rank(),
        profile.outer.matrix.output_rank()
    );
    assert_eq!(
        commitment.rows().count(),
        frozen_layout.outer.matrix.output_rank()
    );
}

#[test]
fn profile_native_commit_group_allows_independent_groups() {
    const NV: usize = 16;
    const PRE_A_SIZE: usize = 1;
    const PRE_B_SIZE: usize = 2;
    // Precommitted groups are committed independently, so setup only needs to
    // cover the largest standalone group rather than the sum of all groups.
    const SETUP_CAPACITY_SIZE: usize = PRE_B_SIZE;

    let pre_a_key = PolynomialGroupLayout::new(NV, PRE_A_SIZE);
    let pre_b_key = PolynomialGroupLayout::new(NV, PRE_B_SIZE);
    let pre_a_profile =
        OneHotCfg::profile_without_precommitted_groups(pre_a_key).expect("independent profile");
    let pre_b_profile =
        OneHotCfg::profile_without_precommitted_groups(pre_b_key).expect("independent profile");
    let pre_a_polys = [debug_make_onehot_poly(NV, ONEHOT_D, 0x0bee_fcaf_9a77_1001)];
    let pre_b_polys = [
        debug_make_onehot_poly(NV, ONEHOT_D, 0x0bee_fcaf_9a77_2001),
        debug_make_onehot_poly(NV, ONEHOT_D, 0x0bee_fcaf_9a77_2002),
    ];

    with_precommit_stack(NV, SETUP_CAPACITY_SIZE, |stack| {
        let CommitOutput {
            committed_group: pre_a_commitment,
            hint: _pre_a_hint,
        } = OneHotScheme::commit(&pre_a_polys, stack, &[], None).expect("precommit A");
        let CommitOutput {
            committed_group: pre_b_commitment,
            hint: _pre_b_hint,
        } = OneHotScheme::commit(&pre_b_polys, stack, &[], None).expect("precommit B");
        let pre_a_frozen = pre_a_commitment.profile;
        let pre_b_frozen = pre_b_commitment.profile;

        assert_eq!(pre_a_frozen.group, pre_a_key);
        assert_eq!(pre_b_frozen.group, pre_b_key);
        assert_eq!(
            pre_a_commitment.rows().count(),
            pre_a_frozen.outer.matrix.output_rank()
        );
        assert_eq!(
            pre_b_commitment.rows().count(),
            pre_b_frozen.outer.matrix.output_rank()
        );
        assert_ne!(pre_a_frozen.group, pre_b_frozen.group);
        assert_eq!(pre_a_frozen, pre_a_profile);
        assert_eq!(pre_b_frozen, pre_b_profile);
    });
}

/// Number of groups and polynomials of a multi-group opening.
struct AkitaScheduleLookupKey {
    final_group: PolynomialGroupLayout,
    precommitteds: Vec<CommitmentProfile>,
}

impl AkitaScheduleLookupKey {
    fn num_commitment_groups(&self) -> usize {
        self.precommitteds.len() + 1
    }

    fn num_polynomials(&self) -> Result<usize, AkitaError> {
        self.precommitteds
            .iter()
            .try_fold(self.final_group.num_polynomials, |total, profile| {
                total.checked_add(profile.group.num_polynomials)
            })
            .ok_or_else(|| AkitaError::InvalidSetup("polynomial count overflow".into()))
    }

    fn fits_setup_capacity(&self, max_num_vars: usize, max_num_polys: usize) -> Result<bool, AkitaError> {
        let largest = self
            .precommitteds
            .iter()
            .map(|profile| profile.group)
            .chain(std::iter::once(self.final_group))
            .map(|group| (group.num_vars, group.num_polynomials))
            .fold((0, 0), |acc, group| (acc.0.max(group.0), acc.1.max(group.1)));
        Ok(largest.0 <= max_num_vars && largest.1 <= max_num_polys)
    }
}

/// Root parameters of a multi-group opening: the precommitted groups keep
/// their frozen profiles, in order, ahead of the final group.
fn resolve_root_params(key: &AkitaScheduleLookupKey) -> Result<CommittedGroupParams, AkitaError> {
    let own = OneHotCfg::profile_without_precommitted_groups(key.final_group)?;
    let params = level_params(key.precommitteds.clone(), own);
    params.validate_group_topology()?;
    Ok(params)
}

fn opening_layout(key: &AkitaScheduleLookupKey) -> OpeningClaimsLayout {
    OpeningClaimsLayout {
        groups: key
            .precommitteds
            .iter()
            .map(|profile| profile.group)
            .chain(std::iter::once(key.final_group))
            .collect(),
    }
}

#[test]
fn group_batch_schedule_preserves_precommitted_order() {
    const PRE_NV: usize = 14;
    const FINAL_NV: usize = 20;
    const PRE_A_SIZE: usize = 1;
    const PRE_B_SIZE: usize = 1;
    const PRE_C_SIZE: usize = 1;
    const MAIN_SIZE: usize = 4;

    let pre_a_key = PolynomialGroupLayout::new(PRE_NV, PRE_A_SIZE);
    let pre_b_key = PolynomialGroupLayout::new(PRE_NV, PRE_B_SIZE);
    let pre_c_key = PolynomialGroupLayout::new(PRE_NV, PRE_C_SIZE);
    let pre_a_frozen =
        OneHotCfg::profile_without_precommitted_groups(pre_a_key).expect("independent profile");
    let pre_b_frozen =
        OneHotCfg::profile_without_precommitted_groups(pre_b_key).expect("independent profile");
    let pre_c_frozen =
        OneHotCfg::profile_without_precommitted_groups(pre_c_key).expect("independent profile");
    let multi_group_key = AkitaScheduleLookupKey {
        final_group: PolynomialGroupLayout::new(FINAL_NV, MAIN_SIZE),
        precommitteds: vec![pre_a_frozen, pre_b_frozen, pre_c_frozen],
    };

    let root = resolve_root_params(&multi_group_key).expect("multi-group runtime schedule");
    let main_params = root.clone();

    assert_eq!(multi_group_key.num_commitment_groups(), 4);
    assert_eq!(
        multi_group_key
            .num_polynomials()
            .expect("multi-group polynomial count"),
        PRE_A_SIZE + PRE_B_SIZE + PRE_C_SIZE + MAIN_SIZE
    );
    assert_eq!(main_params, root);
    assert_eq!(root.precommitted_groups().len(), 3);
    assert_eq!(root.precommitted_groups()[0].profile, pre_a_frozen);
    assert_eq!(root.precommitted_groups()[1].profile, pre_b_frozen);
    assert_eq!(root.precommitted_groups()[2].profile, pre_c_frozen);
    assert!(root.require_scalar_level("multi-group root").is_err());
    root.validate_opening_batch(&opening_layout(&multi_group_key))
        .expect("ordered opening batch");
}

#[test]
fn group_batch_commits_independent_arity_precommitted_groups() {
    const PRE_NV: usize = 14;
    const FINAL_NV: usize = 20;
    const GROUP_SIZE: usize = 1;
    const FINAL_SIZE: usize = 4;
    const SETUP_CAPACITY_SIZE: usize = FINAL_SIZE + 2 * GROUP_SIZE;

    let pre_a_key = PolynomialGroupLayout::new(PRE_NV, GROUP_SIZE);
    let pre_b_key = PolynomialGroupLayout::new(PRE_NV, GROUP_SIZE);
    let pre_a_frozen =
        OneHotCfg::profile_without_precommitted_groups(pre_a_key).expect("independent profile");
    let pre_b_frozen =
        OneHotCfg::profile_without_precommitted_groups(pre_b_key).expect("independent profile");
    let pre_a_polys = [debug_make_onehot_poly(PRE_NV, ONEHOT_D, 0x0bee_fcaf_9a77_5001)];
    let pre_b_polys = [debug_make_onehot_poly(PRE_NV, ONEHOT_D, 0x0bee_fcaf_9a77_6001)];

    let setup = OneHotScheme::setup_prover(FINAL_NV, SETUP_CAPACITY_SIZE).expect("protocol setup");
    let prepared = CpuBackend::DEFAULT
        .prepare_setup(&setup)
        .expect("prepared protocol setup");
    let stack = UniformProverStack::uniform(&CpuBackend::DEFAULT, &prepared).expect("protocol stack");
    let CommitOutput {
        committed_group: pre_a_commitment,
        hint: _pre_a_hint,
    } = OneHotScheme::commit(&pre_a_polys, &stack, &[], None).expect("precommit A");
    let CommitOutput {
        committed_group: pre_b_commitment,
        hint: _pre_b_hint,
    } = OneHotScheme::commit(&pre_b_polys, &stack, &[], None).expect("precommit B");
    let multi_group_key = AkitaScheduleLookupKey {
        final_group: PolynomialGroupLayout::new(FINAL_NV, FINAL_SIZE),
        precommitteds: vec![pre_a_frozen, pre_b_frozen],
    };
    assert!(multi_group_key
        .fits_setup_capacity(FINAL_NV, SETUP_CAPACITY_SIZE)
        .expect("setup capacity"));

    let main_params = resolve_root_params(&multi_group_key).expect("multi-group runtime schedule");
    let final_polys = [
        debug_make_onehot_poly(FINAL_NV, main_params.d_a(), 0x0bee_fcaf_9a77_7001),
        debug_make_onehot_poly(FINAL_NV, main_params.d_a(), 0x0bee_fcaf_9a77_7002),
        debug_make_onehot_poly(FINAL_NV, main_params.d_a(), 0x0bee_fcaf_9a77_7003),
        debug_make_onehot_poly(FINAL_NV, main_params.d_a(), 0x0bee_fcaf_9a77_7004),
    ];
    let precommitteds = vec![pre_a_commitment.profile, pre_b_commitment.profile];
    assert!(!precommitteds.is_empty(), "nonempty precommitted groups");
    let CommitOutput {
        committed_group: final_commitment,
        hint: final_hint,
    } = OneHotScheme::commit(&final_polys, &stack, &precommitteds, None)
        .expect("final multi-group commitment");
    let explicit_output = OneHotScheme::commit(
        &final_polys,
        &stack,
        &[],
        Some(&main_params.own_group().profile),
    )
    .expect("explicit final multi-group commitment");

    assert_eq!(explicit_output.committed_group, final_commitment);
    assert_eq!(explicit_output.hint, final_hint);

    assert_eq!(
        pre_a_commitment.rows().count(),
        pre_a_frozen.outer.matrix.output_rank()
    );
    assert_eq!(
        pre_b_commitment.rows().count(),
        pre_b_frozen.outer.matrix.output_rank()
    );
    assert_eq!(
        final_commitment.rows().count(),
        main_params.outer().matrix.output_rank()
    );
    assert_eq!(final_hint.inner_rows().len(), FINAL_SIZE);
    assert_eq!(
        final_polys[0].num_vars(),
        FINAL_NV,
        "final one-hot group should retain its native variable domain"
    );
    assert_eq!(main_params.precommitted_groups().len(), 2);
    assert_eq!(main_params.precommitted_groups()[0].profile, pre_a_frozen);
    assert_eq!(main_params.precommitted_groups()[1].profile, pre_b_frozen);
}

#[test]
fn commit_group_returns_frozen_exact_layout() {
    const NV: usize = 16;
    const GROUP_SIZE: usize = 1;

    let key = PolynomialGroupLayout::new(NV, GROUP_SIZE);
    let profile = OneHotCfg::profile_without_precommitted_groups(key).expect("independent profile");
    let total_field = (profile.blocks.live_blocks * profile.blocks.positions_per_block)
        .checked_mul(ONEHOT_D)
        .expect("total field size overflow");
    assert_eq!(total_field % BENCH_ONEHOT_K, 0);
    let polys = [debug_make_onehot_poly(NV, ONEHOT_D, 0x0bee_fcaf_9a77_0001)];

    let setup = OneHotScheme::setup_prover(NV, GROUP_SIZE).expect("setup");
    let prepared = CpuBackend::DEFAULT
        .prepare_setup(&setup)
        .expect("prepared setup");
    let stack = UniformProverStack::uniform(&CpuBackend::DEFAULT, &prepared).expect("stack");
    let CommitOutput {
        committed_group: commitment,
        hint: _hint,
    } = OneHotScheme::commit(&polys, &stack, &[], None).expect("commit group");
    let frozen_layout = commitment.profile;

    assert_eq!(frozen_layout.group, key);
    assert_eq!(
        frozen_layout.blocks.positions_per_block,
        profile.blocks.positions_per_block
    );
    assert_eq!(frozen_layout.blocks.live_blocks, profile.blocks.live_blocks);
    assert_eq!(
        frozen_layout.outer.digits.log_basis,
        profile.outer.digits.log_basis
    );
    assert_eq!(
        frozen_layout.inner.matrix.output_rank(),
        profile.inner.matrix.output_rank()
    );
    assert_eq!(
        frozen_layout.outer.matrix.output_rank(),
        profile.outer.matrix.output_rank()
    );
    assert_eq!(
        commitment.rows().count(),
        frozen_layout.outer.matrix.output_rank()
    );
}

#[test]
fn commit_group_returns_the_first_admission_rejection() {
    const NV: usize = 16;
    let key = PolynomialGroupLayout::new(NV, 2);
    let profile = OneHotCfg::profile_without_precommitted_groups(key).expect("profile");
    let params = level_params(Vec::new(), profile);
    let polys = [
        debug_make_onehot_poly(NV, ONEHOT_D, 0x0bee_fcaf_9a77_8001),
        debug_make_onehot_poly(NV, ONEHOT_D, 0x0bee_fcaf_9a77_8002),
    ];
    let setup = OneHotScheme::setup_prover(NV, 2).expect("setup");
    let prepared = CpuBackend::DEFAULT.prepare_setup(&setup).expect("prepared setup");
    let outcome = commit_group(
        &params,
        &polys,
        &CpuBackend::DEFAULT,
        &prepared,
        CommittedSourceContract {
            max_abs_coefficient: 0,
        },
        MODULUS,
    );
    match outcome {
        Err(AkitaError::InvalidSetup(message)) => {
            assert_eq!(message, "one-hot source outside the interval");
        }
        other => panic!("unexpected {other:?}"),
    }
    let admitted = commit_group(
        &params,
        &polys,
        &CpuBackend::DEFAULT,
        &prepared,
        CommittedSourceContract {
            max_abs_coefficient: 1,
        },
        MODULUS,
    )
    .expect("admitted sources commit");
    assert_eq!(admitted.hint.inner_rows().len(), 2);
}

#[test]
fn compressed_commit_passes_on_the_executor_error() {
    const NV: usize = 16;
    let key = PolynomialGroupLayout::new(NV, 1);
    let profile = OneHotCfg::profile_without_precommitted_groups(key).expect("profile");
    let mut params = level_params(Vec::new(), profile);
    params.payload_mode = PayloadMode::Compressed;
    let polys = [debug_make_onehot_poly(NV, ONEHOT_D, 0x0bee_fcaf_9a77_9001)];
    let setup = OneHotScheme::setup_prover(NV, 1).expect("setup");
    let prepared = CpuBackend::DEFAULT.prepare_setup(&setup).expect("prepared setup");
    match commit_group(
        &params,
        &polys,
        &CpuBackend::DEFAULT,
        &prepared,
        CommittedSourceContract {
            max_abs_coefficient: 1,
        },
        MODULUS,
    ) {
        Err(AkitaError::InvalidSetup(message)) => {
            assert_eq!(message, "compression is not configured");
        }
        other => panic!("unexpected {other:?}"),
    }
}

#[test]
fn commit_group_twice_gives_the_same_output() {
    const NV: usize = 16;
    let key = PolynomialGroupLayout::new(NV, 2);
    let polys = [
        debug_make_onehot_poly(NV, ONEHOT_D, 0x0bee_fcaf_9a77_a001),
        debug_make_onehot_poly(NV, ONEHOT_D, 0x0bee_fcaf_9a77_a002),
    ];
    let setup = OneHotScheme::setup_prover(NV, 2).expect("setup");
    let prepared = CpuBackend::DEFAULT.prepare_setup(&setup).expect("prepared setup");
    let stack = UniformProverStack::uniform(&CpuBackend::DEFAULT, &prepared).expect("stack");
    let first = OneHotScheme::commit(&polys, &stack, &[], None).expect("first commit");
    let second = OneHotScheme::commit(&polys, &stack, &[], None).expect("second commit");
    assert_eq!(first.committed_group, second.committed_group);
    assert_eq!(first.hint, second.hint);
    assert_eq!(first.committed_group.profile.group, key);
}
