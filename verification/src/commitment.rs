//! The commitment-level view of `CommittedGroupParams`: challenge norms,
//! block geometry accessors, and validation of a commitment request.
use vstd::prelude::*;
use crate::arith::{ceil_log2, next_pow2};
use crate::compression::CompressionChainPlan;
use crate::error::{
    AkitaError, flat_len_overflow_error, flat_len_overflow_reads, invalid_setup, scalar_level_error,
    setup_error_reads,
};
use crate::params::{
    CommittedGroupDescriptor, CommittedGroupParams, CommitmentRingDims, FoldChallengeConfig,
    FoldLinfProtocolBinding, OpeningClaimsLayout,
};
use crate::profile::{BlockGeometry, CommitmentProfile, RoleParams};
use crate::slice::{
    CommitmentSliceCount, CommitmentSliceGeometry, slice_geometry_error, slice_geometry_ok,
    slice_geometry_of,
};

verus! {

impl CommittedGroupParams {
    /// Inner ring dimension `D_A`.
    pub open spec fn dim_a(&self) -> nat {
        self.role_dims.inner as nat
    }

    /// Outer ring dimension `D_B`.
    pub open spec fn dim_b(&self) -> nat {
        self.role_dims.outer as nat
    }

    /// The profile of this level's own group.
    pub open spec fn own_profile(&self) -> CommitmentProfile {
        self.own.profile
    }

    /// The own group's ring dimensions agree with the role dimensions, and
    /// every precommitted group is nonempty.
    pub open spec fn group_topology_valid(&self) -> bool {
        &&& self.own.profile.inner.matrix.ring_dimension == self.role_dims.inner
        &&& self.own.profile.outer.matrix.ring_dimension == self.role_dims.outer
        &&& forall|i: int|
            0 <= i < self.precommitted.len()
                ==> #[trigger] self.precommitted[i].profile.group.num_polynomials >= 1
    }

    /// The opening batch lists exactly this level's groups, precommitted
    /// groups first and the own group last.
    pub open spec fn opening_batch_matches(&self, batch: OpeningClaimsLayout) -> bool {
        let n = self.precommitted.len();
        &&& batch.groups.len() == n + 1
        &&& forall|i: int|
            0 <= i < n ==> #[trigger] batch.groups[i] == self.precommitted[i].profile.group
        &&& batch.groups[n as int] == self.own.profile.group
    }

    /// A compressed outer image is nonempty and within the compression cap.
    pub open spec fn compressed_source_fits(&self) -> bool {
        let rows = self.own.profile.outer_slice_count.count()
            * self.own.profile.outer.matrix.output_rank;
        &&& rows <= usize::MAX
        &&& rows * self.role_dims.outer <= usize::MAX
        &&& 1 <= rows * self.role_dims.outer
        &&& rows * self.role_dims.outer
            <= self.own.profile.outer.matrix.sis_modulus_profile.compression_cap
    }

    /// Every condition `validate_commitment_request` checks.
    pub open spec fn request_valid(&self, fold_level: nat, num_polynomials: nat) -> bool {
        let p = self.own.profile;
        &&& self.group_topology_valid()
        &&& p.roles_valid(p.inner.matrix.sis_modulus_profile.field_bits)
        &&& p.root_geometry_valid()
        &&& num_polynomials >= 1
        &&& p.group.num_polynomials == num_polynomials
        &&& self.source_encoding.is_valid(self.dim_a())
        &&& p.blocks.is_valid()
        &&& p.outer_slice_count.fits_commitment(fold_level, p.blocks.live_blocks as nat)
        &&& p.blocks.positions_per_block * p.inner.digits.num_digits <= usize::MAX
        &&& p.inner.matrix.input_width == p.blocks.positions_per_block * p.inner.digits.num_digits
        &&& p.slice_geometry_ok()
        &&& p.outer.matrix.input_width == p.slice_geometry().physical_width
        &&& (self.payload_mode is Compressed ==> self.compressed_source_fits())
    }

    /// Geometry of the B matrix applied to a single polynomial of the own
    /// group.
    pub open spec fn one_polynomial_geometry_ok(&self) -> bool {
        let p = self.own.profile;
        slice_geometry_ok(
            p.outer_slice_count,
            p.blocks.live_blocks as nat,
            1,
            p.inner.matrix.output_rank as nat,
            p.outer.digits.num_digits as nat,
            self.dim_a(),
            self.dim_b(),
        )
    }

    pub open spec fn one_polynomial_width(&self) -> nat {
        let p = self.own.profile;
        slice_geometry_of(
            p.outer_slice_count,
            p.blocks.live_blocks as nat,
            1,
            p.inner.matrix.output_rank as nat,
            p.outer.digits.num_digits as nat,
            self.dim_a(),
            self.dim_b(),
        ).physical_width as nat
    }

    /// The outer width is a positive whole multiple of the one-polynomial
    /// width.
    pub open spec fn polynomial_count_ok(&self) -> bool {
        let w = self.own.profile.outer.matrix.input_width as int;
        let one = self.one_polynomial_width() as int;
        &&& self.one_polynomial_geometry_ok()
        &&& w % one == 0
        &&& w / one != 0
    }

    /// The rejection message of `validate_group_topology`.
    pub open spec fn topology_error(&self) -> Seq<char> {
        if self.own.profile.inner.matrix.ring_dimension != self.role_dims.inner {
            "own group inner ring dimension disagrees with the role"@
        } else if self.own.profile.outer.matrix.ring_dimension != self.role_dims.outer {
            "own group outer ring dimension disagrees with the role"@
        } else {
            "precommitted group has no polynomials"@
        }
    }

    /// The rejection message of `validate_opening_batch`.
    pub open spec fn opening_batch_error(&self, batch: OpeningClaimsLayout) -> Seq<char> {
        let n = self.precommitted.len();
        if batch.groups.len() != n + 1 {
            "opening batch group count disagrees with the fold level"@
        } else if exists|i: int|
            0 <= i < n && #[trigger] batch.groups[i] != self.precommitted[i].profile.group {
            "opening batch group disagrees with a precommitted group"@
        } else {
            "opening batch final group disagrees with the own group"@
        }
    }

    /// The rejection message of `validate_commitment_request`: the first
    /// check that fails, in the order the checks run.
    pub open spec fn request_error(&self, fold_level: nat, num_polynomials: nat) -> Seq<char> {
        let p = self.own.profile;
        let fb = p.inner.matrix.sis_modulus_profile.field_bits;
        let g = p.slice_geometry();
        let rows = p.outer_slice_count.count() * p.outer.matrix.output_rank;
        if !self.group_topology_valid() {
            self.topology_error()
        } else if !p.roles_valid(fb) {
            p.validation_error(fb)
        } else if !p.root_geometry_valid() {
            p.root_geometry_error()
        } else if num_polynomials == 0 {
            "commitment request requires at least one polynomial"@
        } else if p.group.num_polynomials != num_polynomials {
            "stored own-group arity disagrees with the commitment request"@
        } else if !self.source_encoding.is_valid(self.dim_a()) {
            self.source_encoding.validation_error(self.dim_a())
        } else if !p.blocks.is_valid() {
            p.blocks.validation_error()
        } else if !p.outer_slice_count.fits_commitment(fold_level, p.blocks.live_blocks as nat) {
            if p.outer_slice_count.count() > p.blocks.live_blocks {
                "outer slice count exceeds the live block count"@
            } else {
                "only the root level commits with sliced B matrices"@
            }
        } else if p.blocks.positions_per_block * p.inner.digits.num_digits > usize::MAX {
            "commitment A width overflow"@
        } else if p.inner.matrix.input_width != p.blocks.positions_per_block
            * p.inner.digits.num_digits {
            "commitment A matrix width disagrees with request geometry"@
        } else if !p.slice_geometry_ok() {
            slice_geometry_error(
                p.outer_slice_count,
                p.blocks.live_blocks as nat,
                p.group.num_polynomials as nat,
                p.inner.matrix.output_rank as nat,
                p.outer.digits.num_digits as nat,
                p.inner.matrix.ring_dimension as nat,
                p.outer.matrix.ring_dimension as nat,
            )
        } else if p.outer.matrix.input_width != g.physical_width {
            "commitment B matrix width disagrees with sliced request geometry"@
        } else if rows > usize::MAX {
            "B commitment output row count overflow"@
        } else if rows * self.role_dims.outer > usize::MAX {
            "commitment B source size overflow"@
        } else if rows * self.role_dims.outer == 0 {
            "compression source is empty"@
        } else {
            "commitment B source exceeds the compression cap"@
        }
    }

    /// Whether precommitted groups precede this level's own group.
    pub fn has_preceding_groups(&self) -> (r: bool)
        ensures
            r == (self.precommitted.len() > 0),
    {
        self.precommitted.len() > 0
    }

    /// The precommitted groups, in order.
    pub fn precommitted_groups(&self) -> (r: &[CommittedGroupDescriptor])
        ensures
            r@ == self.precommitted@,
    {
        self.precommitted.as_slice()
    }

    /// This level's own group.
    pub fn own_group(&self) -> (r: &CommittedGroupDescriptor)
        ensures
            *r == self.own,
    {
        &self.own
    }

    /// Parameters of the inner (A) role of the own group.
    pub fn inner(&self) -> (r: &RoleParams)
        ensures
            *r == self.own.profile.inner,
    {
        &self.own.profile.inner
    }

    /// Parameters of the outer (B) role of the own group.
    pub fn outer(&self) -> (r: &RoleParams)
        ensures
            *r == self.own.profile.outer,
    {
        &self.own.profile.outer
    }

    pub fn role_dims(&self) -> (r: CommitmentRingDims)
        ensures
            r == self.role_dims,
    {
        self.role_dims
    }

    /// Inner ring dimension `D_A`.
    pub fn d_a(&self) -> (r: usize)
        ensures
            r == self.dim_a(),
    {
        self.role_dims.inner
    }

    /// Slice count of the own group's outer commitment.
    pub fn outer_slice_count(&self) -> (r: CommitmentSliceCount)
        ensures
            r == self.own.profile.outer_slice_count,
    {
        self.own.profile.outer_slice_count
    }

    pub fn fold_challenge_config(&self) -> (r: FoldChallengeConfig)
        ensures
            r == self.fold_challenge,
    {
        self.fold_challenge
    }

    /// Check the group topology of this level.
    pub fn validate_group_topology(&self) -> (r: Result<(), AkitaError>)
        ensures
            r is Ok <==> self.group_topology_valid(),
            r matches Err(e) ==> setup_error_reads(e, self.topology_error()),
    {
        if self.own.profile.inner.matrix.ring_dimension != self.role_dims.inner {
            return Err(invalid_setup("own group inner ring dimension disagrees with the role"));
        }
        if self.own.profile.outer.matrix.ring_dimension != self.role_dims.outer {
            return Err(invalid_setup("own group outer ring dimension disagrees with the role"));
        }
        let n = self.precommitted.len();
        let mut i: usize = 0;
        while i < n
            invariant
                n == self.precommitted.len(),
                i <= n,
                self.own.profile.inner.matrix.ring_dimension == self.role_dims.inner,
                self.own.profile.outer.matrix.ring_dimension == self.role_dims.outer,
                forall|j: int|
                    0 <= j < i ==> #[trigger] self.precommitted[j].profile.group.num_polynomials
                        >= 1,
            decreases n - i,
        {
            if self.precommitted[i].profile.group.num_polynomials == 0 {
                return Err(invalid_setup("precommitted group has no polynomials"));
            }
            i = i + 1;
        }
        Ok(())
    }

    /// Check that an opening batch lists exactly this level's groups.
    pub fn validate_opening_batch(&self, batch: &OpeningClaimsLayout) -> (r: Result<
        (),
        AkitaError,
    >)
        ensures
            r is Ok <==> self.opening_batch_matches(*batch),
            r is Ok ==> batch.groups@ == self.precommitted@.map_values(
                |d: CommittedGroupDescriptor| d.profile.group,
            ).push(self.own.profile.group),
            r matches Err(e) ==> setup_error_reads(e, self.opening_batch_error(*batch)),
    {
        let n = self.precommitted.len();
        if batch.groups.len() == 0 || batch.groups.len() - 1 != n {
            return Err(invalid_setup("opening batch group count disagrees with the fold level"));
        }
        let mut i: usize = 0;
        while i < n
            invariant
                n == self.precommitted.len(),
                batch.groups.len() == n + 1,
                i <= n,
                forall|j: int|
                    0 <= j < i ==> #[trigger] batch.groups[j] == self.precommitted[j].profile.group,
            decreases n - i,
        {
            if batch.groups[i] != self.precommitted[i].profile.group {
                return Err(invalid_setup("opening batch group disagrees with a precommitted group"));
            }
            i = i + 1;
        }
        if batch.groups[n] != self.own.profile.group {
            return Err(invalid_setup("opening batch final group disagrees with the own group"));
        }
        proof {
            law_accepted_batch_lists_level_groups(*self, *batch);
        }
        Ok(())
    }

    /// Reject multi-group-root params at scalar-only call sites.
    pub fn require_scalar_level(&self, context: &str) -> (r: Result<(), AkitaError>)
        ensures
            r is Ok <==> self.precommitted.len() == 0,
            r matches Err(e) ==> setup_error_reads(
                e,
                context@ + " requires scalar root level params"@,
            ),
    {
        if self.has_preceding_groups() {
            return Err(scalar_level_error(context));
        }
        Ok(())
    }

    /// Worst-case L1 mass of the fold-round challenge.
    pub fn challenge_l1_mass(&self) -> (r: usize)
        ensures
            r == self.fold_challenge.l1_mass(),
    {
        self.fold_challenge_config().l1_norm()
    }

    /// Effective fold-round challenge L∞ norm `||c||_inf` at this level.
    pub fn challenge_infinity_norm(&self) -> (r: usize)
        ensures
            r == self.fold_challenge.max_abs,
    {
        self.fold_challenge_config().infinity_norm() as usize
    }

    /// Effective per-block worst-case `‖c‖_2²` upper bound at this fold level.
    pub fn challenge_l2_sq_max(&self) -> (r: u128)
        ensures
            r == self.fold_challenge.l2_sq_max(),
    {
        self.fold_challenge_config().challenge_l2_sq_max()
    }

    /// Fold-challenge coefficient count `inner_width · D`.
    pub fn num_fold_coeffs(&self) -> (r: u128)
        ensures
            r == self.own.profile.inner.matrix.input_width * self.dim_a(),
    {
        proof {
            let w = self.own.profile.inner.matrix.input_width as int;
            let d = self.role_dims.inner as int;
            assert(w * d <= 0xffff_ffff_ffff_ffff * 0xffff_ffff_ffff_ffff) by (nonlinear_arith)
                requires 0 <= w <= 0xffff_ffff_ffff_ffff, 0 <= d <= 0xffff_ffff_ffff_ffff;
            assert(usize::MAX <= 0xffff_ffff_ffff_ffff);
        }
        match (self.inner_width() as u128).checked_mul(self.d_a() as u128) {
            Some(v) => v,
            None => u128::MAX,
        }
    }

    /// Validate the shared fold nonce against the protocol-wide attempt cap.
    ///
    /// This verifier boundary deliberately does not reconstruct an honest
    /// source model or an honest folded-response cap. Those values guide the
    /// prover's search only.
    pub fn validate_fold_grind_nonce(
        &self,
        opening_batch: &OpeningClaimsLayout,
        fold_grind_nonce: u32,
    ) -> (r: Result<(), AkitaError>)
        ensures
            r is Ok <==> self.opening_batch_matches(*opening_batch) && fold_grind_nonce
                < crate::params::FOLD_GRIND_ATTEMPT_CAP,
            r is Ok ==> opening_batch.groups@ == self.precommitted@.map_values(
                |d: CommittedGroupDescriptor| d.profile.group,
            ).push(self.own.profile.group),
            r matches Err(e) ==> setup_error_reads(
                e,
                if !self.opening_batch_matches(*opening_batch) {
                    self.opening_batch_error(*opening_batch)
                } else {
                    "fold grind nonce exceeds the protocol attempt cap"@
                },
            ),
    {
        self.validate_opening_batch(opening_batch)?;
        FoldLinfProtocolBinding::current().validate_grind_nonce(fold_grind_nonce)
    }

    /// Exact scheduled gadget decomposition depth for the folded witness.
    pub fn num_digits_fold(&self) -> (r: usize)
        ensures
            r == self.own.opening.num_digits_fold,
    {
        self.own_group().opening.num_digits_fold
    }

    /// Block triple of this fold's own new group.
    #[must_use]
    pub fn blocks(&self) -> (r: BlockGeometry)
        ensures
            r == self.own.profile.blocks,
    {
        self.own_group().profile.blocks
    }

    /// Number of Boolean coordinates in the block-index domain.
    pub fn block_index_bits(&self) -> (r: usize)
        ensures
            r == ceil_log2(self.own.profile.blocks.live_blocks as nat),
    {
        self.blocks().block_index_bits()
    }

    /// Number of Boolean coordinates in one block-position slice.
    pub fn position_index_bits(&self) -> (r: usize)
        ensures
            r == ceil_log2(self.own.profile.blocks.positions_per_block as nat),
    {
        self.blocks().position_index_bits()
    }

    /// Boolean block-index domain size (`next_power_of_two(B)`).
    pub fn block_index_domain_size(&self) -> (r: Result<usize, AkitaError>)
        ensures
            r is Ok <==> next_pow2(self.own.profile.blocks.live_blocks as nat) <= usize::MAX,
            r matches Ok(v) ==> v == next_pow2(self.own.profile.blocks.live_blocks as nat),
            r matches Err(e) ==> setup_error_reads(e, "block-index domain size overflows usize"@),
    {
        self.blocks().block_index_domain_size()
    }

    /// Validate the exact source/block geometry before it reaches allocation.
    pub fn validate_block_geometry(&self) -> (r: Result<(), AkitaError>)
        ensures
            r is Ok <==> self.own.profile.blocks.is_valid(),
            r matches Err(e) ==> setup_error_reads(e, self.own.profile.blocks.validation_error()),
    {
        self.blocks().validate()
    }

    /// Validate the exact A/B geometry executed by one commitment request.
    ///
    /// This binds the concrete polynomial arity and fold level to the same B
    /// width, slice policy, and complete-source compression cap used for SIS
    /// pricing and descriptor construction.
    pub fn validate_commitment_request(&self, fold_level: usize, num_polynomials: usize) -> (r:
        Result<CommitmentSliceGeometry, AkitaError>)
        ensures
            r is Ok <==> self.request_valid(fold_level as nat, num_polynomials as nat),
            r matches Ok(g) ==> g == self.own.profile.slice_geometry() && g.wf(),
            r is Ok ==> {
                let b = self.own.profile.blocks;
                &&& b.live_blocks >= 1
                &&& b.positions_per_block >= 1
                &&& b.live_blocks * b.positions_per_block <= usize::MAX
                &&& (b.live_blocks - 1) * b.positions_per_block < b.live_ring_elements_per_claim
                &&& b.live_ring_elements_per_claim <= b.live_blocks * b.positions_per_block
            },
            r matches Err(e) ==> setup_error_reads(
                e,
                self.request_error(fold_level as nat, num_polynomials as nat),
            ),
    {
        self.validate_group_topology()?;
        let own_profile = &self.own_group().profile;
        own_profile.validate(own_profile.inner.matrix.sis_modulus_profile().field_bits())?;
        own_profile.validate_root_geometry()?;
        if num_polynomials == 0 {
            return Err(invalid_setup("commitment request requires at least one polynomial"));
        }
        if self.own_group().profile.group.num_polynomials() != num_polynomials {
            return Err(invalid_setup("stored own-group arity disagrees with the commitment request"));
        }
        self.source_encoding.validate(self.d_a())?;
        self.validate_block_geometry()?;
        self.outer_slice_count().validate_for_commitment(fold_level, self.blocks().live_blocks)?;
        let expected_a_width = match self.blocks().positions_per_block.checked_mul(
            self.inner().digits.num_digits,
        ) {
            Some(v) => v,
            None => {
                return Err(invalid_setup("commitment A width overflow"));
            },
        };
        if self.inner().matrix.input_width() != expected_a_width {
            return Err(invalid_setup("commitment A matrix width disagrees with request geometry"));
        }
        let geometry = own_profile.derive_slice_geometry()?;
        if self.outer().matrix.input_width() != geometry.physical_input_width() {
            return Err(
                invalid_setup("commitment B matrix width disagrees with sliced request geometry"),
            );
        }
        if self.payload_mode.is_compressed() {
            let rows = geometry.logical_output_rows(self.outer().matrix.output_rank())?;
            let source_coefficients = match rows.checked_mul(self.role_dims().d_b()) {
                Some(v) => v,
                None => {
                    return Err(invalid_setup("commitment B source size overflow"));
                },
            };
            let plan = CompressionChainPlan::try_for_complete_source(
                self.outer().matrix.sis_modulus_profile(),
                source_coefficients,
            )?;
            if plan.is_none() {
                return Err(invalid_setup("commitment B source exceeds the compression cap"));
            }
        }
        Ok(geometry)
    }

    /// Polynomial arity encoded by the exact physical B width.
    pub fn commitment_polynomial_count(&self) -> (r: Result<usize, AkitaError>)
        ensures
            r is Ok <==> self.polynomial_count_ok(),
            r matches Ok(c) ==> c == self.own.profile.outer.matrix.input_width as int
                / self.one_polynomial_width() as int,
            r matches Err(e) ==> setup_error_reads(
                e,
                if !self.one_polynomial_geometry_ok() {
                    slice_geometry_error(
                        self.own.profile.outer_slice_count,
                        self.own.profile.blocks.live_blocks as nat,
                        1,
                        self.own.profile.inner.matrix.output_rank as nat,
                        self.own.profile.outer.digits.num_digits as nat,
                        self.dim_a(),
                        self.dim_b(),
                    )
                } else {
                    "commitment B width does not encode an exact polynomial count"@
                },
            ),
    {
        let one_polynomial_width = CommitmentSliceGeometry::try_new(
            self.outer_slice_count(),
            self.blocks().live_blocks,
            1,
            self.inner().matrix.output_rank(),
            self.outer().digits.num_digits,
            self.role_dims().d_a(),
            self.role_dims().d_b(),
        )?.physical_input_width();
        let width = self.outer().matrix.input_width();
        proof {
            let g = slice_geometry_of(
                self.own.profile.outer_slice_count,
                self.own.profile.blocks.live_blocks as nat,
                1,
                self.own.profile.inner.matrix.output_rank as nat,
                self.own.profile.outer.digits.num_digits as nat,
                self.dim_a(),
                self.dim_b(),
            );
            assert(g.wf());
            assert(one_polynomial_width >= 1) by (nonlinear_arith)
                requires
                    one_polynomial_width == g.num_polynomials * g.max_blocks * g.per_block,
                    g.num_polynomials >= 1,
                    g.per_block >= 1,
                    g.max_blocks >= 1;
        }
        match width.checked_div(one_polynomial_width) {
            Some(count) => {
                proof {
                    assert(count * one_polynomial_width <= width) by (nonlinear_arith)
                        requires count == width / one_polynomial_width, one_polynomial_width >= 1;
                }
                if count != 0 && width == count * one_polynomial_width {
                    proof {
                        assert(width % one_polynomial_width == 0) by (nonlinear_arith)
                            requires width == count * one_polynomial_width, one_polynomial_width
                                >= 1;
                    }
                    Ok(count)
                } else {
                    proof {
                        assert(width as int / one_polynomial_width as int * one_polynomial_width
                            + width as int % one_polynomial_width as int == width as int)
                            by (nonlinear_arith)
                            requires one_polynomial_width >= 1;
                    }
                    Err(
                        invalid_setup(
                            "commitment B width does not encode an exact polynomial count",
                        ),
                    )
                }
            },
            None => Err(
                invalid_setup("commitment B width does not encode an exact polynomial count"),
            ),
        }
    }

    /// Width of inner matrix A (column count of the A-key).
    pub fn inner_width(&self) -> (r: usize)
        ensures
            r == self.own.profile.inner.matrix.input_width,
    {
        self.inner().matrix.input_width()
    }

    /// Exact live source ring elements in one claim.
    ///
    /// # Errors
    ///
    /// Returns [`AkitaError::InvalidSetup`] when the block geometry is invalid.
    pub fn n_ring_elems(&self) -> (r: Result<usize, AkitaError>)
        ensures
            r is Ok <==> self.own.profile.blocks.is_valid(),
            r matches Ok(n) ==> n == self.own.profile.blocks.live_ring_elements_per_claim,
            r matches Err(e) ==> setup_error_reads(e, self.own.profile.blocks.validation_error()),
    {
        self.validate_block_geometry()?;
        Ok(self.blocks().live_ring_elements_per_claim)
    }

    /// Total flat field-element count (`n_ring_elems * d_a`).
    ///
    /// # Errors
    ///
    /// Returns [`AkitaError::InvalidSetup`] on an invalid block geometry or
    /// on overflow.
    pub fn flat_field_len(&self) -> (r: Result<usize, AkitaError>)
        ensures
            r is Ok <==> self.own.profile.blocks.is_valid()
                && self.own.profile.blocks.live_ring_elements_per_claim * self.dim_a()
                <= usize::MAX,
            r matches Ok(n) ==> n == self.own.profile.blocks.live_ring_elements_per_claim
                * self.dim_a(),
            r matches Err(e) ==> if self.own.profile.blocks.is_valid() {
                flat_len_overflow_reads(
                    e,
                    self.own.profile.blocks.live_ring_elements_per_claim,
                    self.role_dims.inner,
                )
            } else {
                setup_error_reads(e, self.own.profile.blocks.validation_error())
            },
    {
        let n_ring_elems = self.n_ring_elems()?;
        match n_ring_elems.checked_mul(self.d_a()) {
            Some(v) => Ok(v),
            None => Err(flat_len_overflow_error(n_ring_elems, self.d_a())),
        }
    }
}

/// A commitment request that validates binds its polynomial count into the
/// B width: `commitment_polynomial_count` then recovers exactly the
/// requested number of polynomials.
pub proof fn law_request_fixes_polynomial_count(
    params: CommittedGroupParams,
    fold_level: nat,
    num_polynomials: nat,
)
    requires
        params.request_valid(fold_level, num_polynomials),
    ensures
        params.polynomial_count_ok(),
        params.own.profile.outer.matrix.input_width as int / params.one_polynomial_width() as int
            == num_polynomials,
{
    let p = params.own.profile;
    let g = p.slice_geometry();
    let n = num_polynomials as int;
    let m = g.max_blocks as int;
    let pb = g.per_block as int;
    let db = p.outer.matrix.ring_dimension as int;
    let one = params.one_polynomial_width() as int;
    let g1 = slice_geometry_of(
        p.outer_slice_count,
        p.blocks.live_blocks as nat,
        1,
        p.inner.matrix.output_rank as nat,
        p.outer.digits.num_digits as nat,
        params.dim_a(),
        params.dim_b(),
    );
    crate::slice::lemma_slice_geometry_of_wf(
        p.outer_slice_count,
        p.blocks.live_blocks as nat,
        num_polynomials,
        p.inner.matrix.output_rank as nat,
        p.outer.digits.num_digits as nat,
        p.inner.matrix.ring_dimension as nat,
        p.outer.matrix.ring_dimension as nat,
    );
    assert(g1.per_block == g.per_block);
    assert(g1.max_blocks == g.max_blocks);
    assert(g.physical_width == n * m * pb);
    assert(pb >= 1) by (nonlinear_arith)
        requires
            db >= 1,
            pb == (p.inner.matrix.output_rank * p.outer.digits.num_digits
                * p.inner.matrix.ring_dimension) / db,
            (p.inner.matrix.output_rank * p.outer.digits.num_digits
                * p.inner.matrix.ring_dimension) % db == 0,
            p.inner.matrix.output_rank * p.outer.digits.num_digits
                * p.inner.matrix.ring_dimension >= 1;
    assert(m <= n * m && m * pb <= n * m * pb && 1 * m * pb == m * pb) by (nonlinear_arith)
        requires n >= 1, m >= 1, pb >= 1;
    assert(one == m * pb);
    assert(one * db <= n * m * pb * db && one >= 1) by (nonlinear_arith)
        requires n >= 1, m >= 1, pb >= 1, db >= 1, one == m * pb;
    assert(n * m * pb == n * one) by (nonlinear_arith)
        requires one == m * pb;
    assert((n * one) % one == 0 && (n * one) / one == n) by (nonlinear_arith)
        requires one >= 1;
    assert(1 * m == m);
}

/// An accepted commitment request has an exact block triple: at least one
/// nonempty block, an addressable capacity, and live ring elements that
/// fill the last block without overflowing it.
pub proof fn law_accepted_request_has_exact_blocks(
    params: CommittedGroupParams,
    fold_level: nat,
    num_polynomials: nat,
)
    requires
        params.request_valid(fold_level, num_polynomials),
    ensures
        ({
            let b = params.own.profile.blocks;
            &&& b.live_blocks >= 1
            &&& b.positions_per_block >= 1
            &&& b.live_blocks * b.positions_per_block <= usize::MAX
            &&& (b.live_blocks - 1) * b.positions_per_block < b.live_ring_elements_per_claim
            &&& b.live_ring_elements_per_claim <= b.live_blocks * b.positions_per_block
        }),
{
}

/// An accepted opening batch lists exactly this level's groups: the
/// precommitted groups in order, then the own group.
pub proof fn law_accepted_batch_lists_level_groups(
    params: CommittedGroupParams,
    batch: OpeningClaimsLayout,
)
    requires
        params.opening_batch_matches(batch),
    ensures
        batch.groups@ == params.precommitted@.map_values(
            |d: CommittedGroupDescriptor| d.profile.group,
        ).push(params.own.profile.group),
{
    let expected = params.precommitted@.map_values(
        |d: CommittedGroupDescriptor| d.profile.group,
    ).push(params.own.profile.group);
    assert forall|i: int| 0 <= i < batch.groups@.len() implies batch.groups@[i] == expected[i] by {
        if i < params.precommitted.len() {
            assert(batch.groups[i] == params.precommitted[i].profile.group);
        }
    }
    assert(batch.groups@ =~= expected);
}

} // verus!
