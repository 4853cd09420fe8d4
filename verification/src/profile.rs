//! Frozen per-group commitment profiles: group shape, block geometry and
//! the inner (A) and outer (B) matrix and digit parameters.
use vstd::prelude::*;
use crate::arith::{
    ceil_log2, ceil_log2_exec, checked_two_pow, lemma_next_pow2_bounds, next_pow2, two_pow,
};
use crate::error::{AkitaError, invalid_setup, setup_error_reads};
use crate::slice::{
    CommitmentSliceCount, CommitmentSliceGeometry, slice_geometry_error, slice_geometry_ok,
    slice_geometry_of,
};

verus! {

/// Shape of one committed polynomial group: every polynomial has
/// `num_vars` variables.
#[derive(Clone, Copy, Debug, PartialEq, Eq, Structural)]
pub struct PolynomialGroupLayout {
    pub num_vars: usize,
    pub num_polynomials: usize,
}

impl PolynomialGroupLayout {
    pub fn new(num_vars: usize, num_polynomials: usize) -> (r: PolynomialGroupLayout)
        ensures
            r.num_vars == num_vars,
            r.num_polynomials == num_polynomials,
    {
        PolynomialGroupLayout { num_vars, num_polynomials }
    }

    /// Polynomials in the group.
    pub fn num_polynomials(&self) -> (r: usize)
        ensures
            r == self.num_polynomials,
    {
        self.num_polynomials
    }
}

/// How the source coefficients of one claim are laid out in blocks of
/// inner ring elements.
#[derive(Clone, Copy, Debug, PartialEq, Eq, Structural)]
pub struct BlockGeometry {
    pub live_blocks: usize,
    pub positions_per_block: usize,
    /// Ring elements actually carrying source data; only the last block
    /// may be partially filled.
    pub live_ring_elements_per_claim: usize,
}

impl BlockGeometry {
    /// The block triple is exact: at least one block, nonempty blocks, an
    /// addressable total, and a last block that is live but not overfull.
    pub open spec fn is_valid(&self) -> bool {
        &&& self.live_blocks >= 1
        &&& self.positions_per_block >= 1
        &&& self.live_blocks * self.positions_per_block <= usize::MAX
        &&& (self.live_blocks - 1) * self.positions_per_block < self.live_ring_elements_per_claim
        &&& self.live_ring_elements_per_claim <= self.live_blocks * self.positions_per_block
    }

    /// The rejection message of `validate`: the first check that fails.
    pub open spec fn validation_error(&self) -> Seq<char> {
        if self.live_blocks == 0 {
            "block geometry has no live blocks"@
        } else if self.positions_per_block == 0 {
            "block geometry has empty blocks"@
        } else if self.live_blocks * self.positions_per_block > usize::MAX {
            "block geometry capacity overflow"@
        } else if self.live_ring_elements_per_claim <= (self.live_blocks - 1)
            * self.positions_per_block {
            "block geometry has an empty trailing block"@
        } else {
            "block geometry live elements exceed the block capacity"@
        }
    }

    /// Validate the exact block geometry.
    pub fn validate(&self) -> (r: Result<(), AkitaError>)
        ensures
            r is Ok <==> self.is_valid(),
            r matches Err(e) ==> setup_error_reads(e, self.validation_error()),
    {
        if self.live_blocks == 0 {
            return Err(invalid_setup("block geometry has no live blocks"));
        }
        if self.positions_per_block == 0 {
            return Err(invalid_setup("block geometry has empty blocks"));
        }
        let capacity = match self.live_blocks.checked_mul(self.positions_per_block) {
            Some(v) => v,
            None => {
                return Err(invalid_setup("block geometry capacity overflow"));
            },
        };
        proof {
            assert((self.live_blocks - 1) * self.positions_per_block <= self.live_blocks
                * self.positions_per_block) by (nonlinear_arith)
                requires self.live_blocks >= 1, self.positions_per_block >= 1;
        }
        let full = (self.live_blocks - 1) * self.positions_per_block;
        if self.live_ring_elements_per_claim <= full {
            return Err(invalid_setup("block geometry has an empty trailing block"));
        }
        if self.live_ring_elements_per_claim > capacity {
            return Err(invalid_setup("block geometry live elements exceed the block capacity"));
        }
        Ok(())
    }

    /// Boolean coordinates of the block-index domain: `ceil(log2(B))`.
    pub fn block_index_bits(&self) -> (r: usize)
        ensures
            r == ceil_log2(self.live_blocks as nat),
    {
        ceil_log2_exec(self.live_blocks)
    }

    /// Boolean coordinates of one block-position slice:
    /// `ceil(log2(positions_per_block))`.
    pub fn position_index_bits(&self) -> (r: usize)
        ensures
            r == ceil_log2(self.positions_per_block as nat),
    {
        ceil_log2_exec(self.positions_per_block)
    }

    /// Boolean block-index domain size: the least power of two that is at
    /// least the live block count.
    pub fn block_index_domain_size(&self) -> (r: Result<usize, AkitaError>)
        ensures
            r is Ok <==> next_pow2(self.live_blocks as nat) <= usize::MAX,
            r matches Ok(v) ==> v == next_pow2(self.live_blocks as nat),
            r matches Err(e) ==> setup_error_reads(e, "block-index domain size overflows usize"@),
    {
        let bits = ceil_log2_exec(self.live_blocks);
        match checked_two_pow(bits) {
            Some(v) => Ok(v),
            None => Err(invalid_setup("block-index domain size overflows usize")),
        }
    }
}

/// The block-index domain is `2^block_index_bits` Boolean points: it
/// covers every live block, and from two blocks on it is less than twice
/// the live block count.
pub proof fn law_block_domain_covers_blocks(g: BlockGeometry)
    ensures
        next_pow2(g.live_blocks as nat) == two_pow(ceil_log2(g.live_blocks as nat)),
        g.live_blocks <= next_pow2(g.live_blocks as nat),
        g.live_blocks >= 2 ==> next_pow2(g.live_blocks as nat) < 2 * g.live_blocks,
{
    let n = g.live_blocks as nat;
    lemma_next_pow2_bounds(n);
    if n >= 2 {
        let k = ceil_log2(n);
        assert(two_pow(k) == 2 * two_pow((k - 1) as nat));
    }
}

/// SIS modulus profile of a commitment matrix.
#[derive(Clone, Copy, Debug, PartialEq, Eq, Structural)]
pub struct SisModulusProfile {
    /// Bits of the field the matrix is defined over.
    pub field_bits: u32,
    /// Largest complete source (in coefficients) a compression chain accepts.
    pub compression_cap: usize,
}

impl SisModulusProfile {
    pub fn field_bits(&self) -> (r: u32)
        ensures
            r == self.field_bits,
    {
        self.field_bits
    }
}

/// Shape of one commitment matrix over ring elements.
#[derive(Clone, Copy, Debug, PartialEq, Eq, Structural)]
pub struct MatrixDescriptor {
    /// Column count, in ring elements.
    pub input_width: usize,
    /// Row count, in ring elements.
    pub output_rank: usize,
    pub ring_dimension: usize,
    pub sis_modulus_profile: SisModulusProfile,
}

impl MatrixDescriptor {
    pub fn input_width(&self) -> (r: usize)
        ensures
            r == self.input_width,
    {
        self.input_width
    }

    pub fn output_rank(&self) -> (r: usize)
        ensures
            r == self.output_rank,
    {
        self.output_rank
    }

    pub fn ring_dimension(&self) -> (r: usize)
        ensures
            r == self.ring_dimension,
    {
        self.ring_dimension
    }

    pub fn sis_modulus_profile(&self) -> (r: SisModulusProfile)
        ensures
            r == self.sis_modulus_profile,
    {
        self.sis_modulus_profile
    }
}

/// Gadget decomposition parameters: `num_digits` balanced digits in base
/// `2^log_basis`.
#[derive(Clone, Copy, Debug, PartialEq, Eq, Structural)]
pub struct DigitParams {
    pub num_digits: usize,
    pub log_basis: u32,
}

/// Matrix and decomposition parameters of one commitment role.
#[derive(Clone, Copy, Debug, PartialEq, Eq, Structural)]
pub struct RoleParams {
    pub matrix: MatrixDescriptor,
    pub digits: DigitParams,
}

/// Largest supported digit basis exponent: balanced digits of base `2^8`
/// still fit an `i8`.
pub const MAX_LOG_BASIS: u32 = 8;

impl RoleParams {
    /// Nonempty matrix, positive ring dimension, a digit basis whose
    /// balanced digits fit an `i8`, and enough digits to cover the field.
    pub open spec fn is_valid(&self, field_bits: u32) -> bool {
        &&& self.matrix.output_rank >= 1
        &&& self.matrix.ring_dimension >= 1
        &&& self.digits.num_digits >= 1
        &&& 1 <= self.digits.log_basis <= MAX_LOG_BASIS
        &&& self.digits.num_digits * self.digits.log_basis >= field_bits
    }

    /// The rejection message of `validate`: the first check that fails.
    pub open spec fn validation_error(&self, field_bits: u32) -> Seq<char> {
        if self.matrix.output_rank == 0 {
            "commitment matrix has no rows"@
        } else if self.matrix.ring_dimension == 0 {
            "commitment ring dimension must be positive"@
        } else if self.digits.num_digits == 0 {
            "commitment decomposition has no digits"@
        } else if self.digits.log_basis == 0 || self.digits.log_basis > MAX_LOG_BASIS {
            "commitment digit basis out of range"@
        } else {
            "commitment digits do not cover the field"@
        }
    }

    pub fn validate(&self, field_bits: u32) -> (r: Result<(), AkitaError>)
        ensures
            r is Ok <==> self.is_valid(field_bits),
            r matches Err(e) ==> setup_error_reads(e, self.validation_error(field_bits)),
    {
        if self.matrix.output_rank == 0 {
            return Err(invalid_setup("commitment matrix has no rows"));
        }
        if self.matrix.ring_dimension == 0 {
            return Err(invalid_setup("commitment ring dimension must be positive"));
        }
        if self.digits.num_digits == 0 {
            return Err(invalid_setup("commitment decomposition has no digits"));
        }
        if self.digits.log_basis == 0 || self.digits.log_basis > MAX_LOG_BASIS {
            return Err(invalid_setup("commitment digit basis out of range"));
        }
        proof {
            let n = self.digits.num_digits as int;
            let b = self.digits.log_basis as int;
            assert(n * b <= 0x10_0000_0000_0000_0000 * 8) by (nonlinear_arith)
                requires 0 <= n <= usize::MAX, 0 <= b <= 8, usize::MAX < 0x10_0000_0000_0000_0000;
        }
        let covered = self.digits.num_digits as u128 * self.digits.log_basis as u128;
        if covered < field_bits as u128 {
            return Err(invalid_setup("commitment digits do not cover the field"));
        }
        Ok(())
    }
}

/// Frozen commitment profile of one polynomial group.
#[derive(Clone, Copy, Debug, PartialEq, Eq, Structural)]
pub struct CommitmentProfile {
    pub group: PolynomialGroupLayout,
    pub blocks: BlockGeometry,
    pub inner: RoleParams,
    pub outer: RoleParams,
    pub outer_slice_count: CommitmentSliceCount,
}

impl CommitmentProfile {
    /// Both roles are valid for a field of `field_bits` bits.
    pub open spec fn roles_valid(&self, field_bits: u32) -> bool {
        self.inner.is_valid(field_bits) && self.outer.is_valid(field_bits)
    }

    /// The rejection message of `validate`: the inner role's, then the
    /// outer role's.
    pub open spec fn validation_error(&self, field_bits: u32) -> Seq<char> {
        if !self.inner.is_valid(field_bits) {
            self.inner.validation_error(field_bits)
        } else {
            self.outer.validation_error(field_bits)
        }
    }

    /// Validate both commitment roles against the field size.
    pub fn validate(&self, field_bits: u32) -> (r: Result<(), AkitaError>)
        ensures
            r is Ok <==> self.roles_valid(field_bits),
            r matches Err(e) ==> setup_error_reads(e, self.validation_error(field_bits)),
    {
        self.inner.validate(field_bits)?;
        self.outer.validate(field_bits)
    }

    /// The group is nonempty and the live ring elements of one claim are
    /// exactly the `2^num_vars` source coefficients packed into inner ring
    /// elements.
    pub open spec fn root_geometry_valid(&self) -> bool {
        let coeffs = two_pow(self.group.num_vars as nat);
        let d = self.inner.matrix.ring_dimension as int;
        &&& self.group.num_polynomials >= 1
        &&& d >= 1
        &&& coeffs <= usize::MAX
        &&& self.blocks.live_ring_elements_per_claim == (coeffs + d - 1) / d
    }

    /// The rejection message of `validate_root_geometry`.
    pub open spec fn root_geometry_error(&self) -> Seq<char> {
        if self.group.num_polynomials == 0 {
            "root group has no polynomials"@
        } else if self.inner.matrix.ring_dimension == 0 {
            "inner ring dimension must be positive"@
        } else if two_pow(self.group.num_vars as nat) > usize::MAX {
            "root polynomial size overflows usize"@
        } else {
            "root block geometry disagrees with the group size"@
        }
    }

    pub fn validate_root_geometry(&self) -> (r: Result<(), AkitaError>)
        ensures
            r is Ok <==> self.root_geometry_valid(),
            r matches Err(e) ==> setup_error_reads(e, self.root_geometry_error()),
    {
        if self.group.num_polynomials == 0 {
            return Err(invalid_setup("root group has no polynomials"));
        }
        let d = self.inner.matrix.ring_dimension;
        if d == 0 {
            return Err(invalid_setup("inner ring dimension must be positive"));
        }
        let coeffs = match checked_two_pow(self.group.num_vars) {
            Some(v) => v,
            None => {
                return Err(invalid_setup("root polynomial size overflows usize"));
            },
        };
        let ring_elements = coeffs / d + if coeffs % d == 0 { 0 } else { 1 };
        proof {
            let c = coeffs as int;
            let di = d as int;
            assert(ring_elements == (c + di - 1) / di) by (nonlinear_arith)
                requires
                    di >= 1,
                    c >= 0,
                    ring_elements == c / di + if c % di == 0 { 0int } else { 1int },
            {
                let q = c / di;
                let rr = c % di;
                assert(c == di * q + rr);
                if rr == 0 {
                    assert(c + di - 1 == di * q + (di - 1));
                } else {
                    assert(c + di - 1 == di * (q + 1) + (rr - 1));
                }
            }
        }
        if self.blocks.live_ring_elements_per_claim != ring_elements {
            return Err(invalid_setup("root block geometry disagrees with the group size"));
        }
        Ok(())
    }

    /// The slice geometry this profile commits with.
    pub open spec fn slice_geometry_ok(&self) -> bool {
        slice_geometry_ok(
            self.outer_slice_count,
            self.blocks.live_blocks as nat,
            self.group.num_polynomials as nat,
            self.inner.matrix.output_rank as nat,
            self.outer.digits.num_digits as nat,
            self.inner.matrix.ring_dimension as nat,
            self.outer.matrix.ring_dimension as nat,
        )
    }

    pub open spec fn slice_geometry(&self) -> CommitmentSliceGeometry {
        slice_geometry_of(
            self.outer_slice_count,
            self.blocks.live_blocks as nat,
            self.group.num_polynomials as nat,
            self.inner.matrix.output_rank as nat,
            self.outer.digits.num_digits as nat,
            self.inner.matrix.ring_dimension as nat,
            self.outer.matrix.ring_dimension as nat,
        )
    }

    /// Derive the slice geometry of this profile's outer commitment.
    pub fn derive_slice_geometry(&self) -> (r: Result<CommitmentSliceGeometry, AkitaError>)
        ensures
            r is Ok <==> self.slice_geometry_ok(),
            r matches Ok(g) ==> g == self.slice_geometry() && g.wf(),
            r matches Err(e) ==> setup_error_reads(
                e,
                slice_geometry_error(
                    self.outer_slice_count,
                    self.blocks.live_blocks as nat,
                    self.group.num_polynomials as nat,
                    self.inner.matrix.output_rank as nat,
                    self.outer.digits.num_digits as nat,
                    self.inner.matrix.ring_dimension as nat,
                    self.outer.matrix.ring_dimension as nat,
                ),
            ),
    {
        CommitmentSliceGeometry::try_new(
            self.outer_slice_count,
            self.blocks.live_blocks,
            self.group.num_polynomials,
            self.inner.matrix.output_rank,
            self.outer.digits.num_digits,
            self.inner.matrix.ring_dimension,
            self.outer.matrix.ring_dimension,
        )
    }
}

} // verus!
