//! Parameters of one committed fold level and the checks that bind a
//! commitment request to them.
use vstd::prelude::*;
use crate::error::{AkitaError, invalid_setup, setup_error_reads};
use crate::profile::{CommitmentProfile, PolynomialGroupLayout};
use crate::slice::CommitmentSliceCount;

verus! {

/// Ring dimensions of the inner (A), outer (B) and opening roles.
#[derive(Clone, Copy, Debug, PartialEq, Eq, Structural)]
pub struct CommitmentRingDims {
    pub inner: usize,
    pub outer: usize,
    pub opening: usize,
}

impl CommitmentRingDims {
    /// Inner ring dimension `D_A`.
    pub fn d_a(&self) -> (r: usize)
        ensures
            r == self.inner,
    {
        self.inner
    }

    /// Outer ring dimension `D_B`.
    pub fn d_b(&self) -> (r: usize)
        ensures
            r == self.outer,
    {
        self.outer
    }
}

/// Fold-round challenge family: `nonzero_coeffs` coefficients, each of
/// absolute value at most `max_abs`.
#[derive(Clone, Copy, Debug, PartialEq, Eq, Structural)]
pub struct FoldChallengeConfig {
    pub nonzero_coeffs: usize,
    pub max_abs: u32,
}

impl FoldChallengeConfig {
    /// Worst-case L1 mass `nonzero_coeffs * max_abs`, saturating at
    /// `usize::MAX`.
    pub open spec fn l1_mass(&self) -> nat {
        let m = self.nonzero_coeffs * self.max_abs;
        if m <= usize::MAX {
            m as nat
        } else {
            usize::MAX as nat
        }
    }

    /// Worst-case squared L2 norm `nonzero_coeffs * max_abs^2`.
    pub open spec fn l2_sq_max(&self) -> nat {
        (self.nonzero_coeffs * (self.max_abs * self.max_abs)) as nat
    }

    pub fn l1_norm(&self) -> (r: usize)
        ensures
            r == self.l1_mass(),
    {
        match self.nonzero_coeffs.checked_mul(self.max_abs as usize) {
            Some(v) => v,
            None => usize::MAX,
        }
    }

    pub fn infinity_norm(&self) -> (r: u32)
        ensures
            r == self.max_abs,
    {
        self.max_abs
    }

    pub fn challenge_l2_sq_max(&self) -> (r: u128)
        ensures
            r == self.l2_sq_max(),
    {
        let m = self.max_abs as u128;
        proof {
            let a = self.max_abs as int;
            let n = self.nonzero_coeffs as int;
            assert(a * a <= 0xffff_ffff * 0xffff_ffff) by (nonlinear_arith)
                requires 0 <= a <= 0xffff_ffff;
            assert(n * (a * a) <= 0xffff_ffff_ffff_ffff * (0xffff_ffff * 0xffff_ffff))
                by (nonlinear_arith)
                requires 0 <= n <= 0xffff_ffff_ffff_ffff, 0 <= a * a <= 0xffff_ffff
                    * 0xffff_ffff;
            assert(usize::MAX <= 0xffff_ffff_ffff_ffff);
        }
        (self.nonzero_coeffs as u128) * (m * m)
    }
}

/// How source coefficients are encoded in inner ring elements.
#[derive(Clone, Copy, Debug, PartialEq, Eq, Structural)]
pub enum SourceEncoding {
    /// Arbitrary field coefficients.
    Dense,
    /// One-hot chunks of `chunk` coefficients; a ring element holds a
    /// whole number of chunks.
    OneHot { chunk: usize },
}

impl SourceEncoding {
    pub open spec fn is_valid(&self, d_a: nat) -> bool {
        &&& d_a >= 1
        &&& match *self {
            SourceEncoding::Dense => true,
            SourceEncoding::OneHot { chunk } => chunk >= 1 && d_a % (chunk as nat) == 0,
        }
    }

    /// The rejection message of `validate`.
    pub open spec fn validation_error(&self, d_a: nat) -> Seq<char> {
        if d_a == 0 {
            "inner ring dimension must be positive"@
        } else if *self matches SourceEncoding::OneHot { chunk } && chunk == 0 {
            "one-hot chunk must be nonempty"@
        } else {
            "one-hot chunk does not divide the inner ring dimension"@
        }
    }

    /// The encoding fits inner ring elements of dimension `d_a`.
    pub fn validate(&self, d_a: usize) -> (r: Result<(), AkitaError>)
        ensures
            r is Ok <==> self.is_valid(d_a as nat),
            r matches Err(e) ==> setup_error_reads(e, self.validation_error(d_a as nat)),
    {
        if d_a == 0 {
            return Err(invalid_setup("inner ring dimension must be positive"));
        }
        match self {
            SourceEncoding::Dense => Ok(()),
            SourceEncoding::OneHot { chunk } => {
                if *chunk == 0 {
                    Err(invalid_setup("one-hot chunk must be nonempty"))
                } else if d_a % *chunk != 0 {
                    Err(invalid_setup("one-hot chunk does not divide the inner ring dimension"))
                } else {
                    Ok(())
                }
            },
        }
    }
}

/// Whether the outer image is published compressed.
#[derive(Clone, Copy, Debug, PartialEq, Eq, Structural)]
pub enum PayloadMode {
    Uncompressed,
    Compressed,
}

impl PayloadMode {
    pub fn is_compressed(&self) -> (r: bool)
        ensures
            r == (*self is Compressed),
    {
        match self {
            PayloadMode::Uncompressed => false,
            PayloadMode::Compressed => true,
        }
    }
}

impl CommitmentSliceCount {
    /// Slicing fits the request: no more slices than live blocks, and only
    /// the root level (`fold_level == 0`) commits with more than one slice.
    pub open spec fn fits_commitment(self, fold_level: nat, live_blocks: nat) -> bool {
        &&& self.count() <= live_blocks
        &&& self.count() > 1 ==> fold_level == 0
    }

    pub fn validate_for_commitment(&self, fold_level: usize, live_blocks: usize) -> (r: Result<
        (),
        AkitaError,
    >)
        ensures
            r is Ok <==> self.fits_commitment(fold_level as nat, live_blocks as nat),
            r matches Err(e) ==> setup_error_reads(
                e,
                if self.count() > live_blocks {
                    "outer slice count exceeds the live block count"@
                } else {
                    "only the root level commits with sliced B matrices"@
                },
            ),
    {
        let count = self.get();
        if count > live_blocks {
            return Err(invalid_setup("outer slice count exceeds the live block count"));
        }
        if count > 1 && fold_level != 0 {
            return Err(invalid_setup("only the root level commits with sliced B matrices"));
        }
        Ok(())
    }
}

/// Opening-side parameters of one committed group.
#[derive(Clone, Copy, Debug, PartialEq, Eq, Structural)]
pub struct GroupOpeningParams {
    /// Scheduled gadget decomposition depth of the folded witness.
    pub num_digits_fold: usize,
}

/// One committed group of a fold level: its frozen profile and opening
/// parameters.
#[derive(Clone, Copy, Debug, PartialEq, Eq, Structural)]
pub struct CommittedGroupDescriptor {
    pub profile: CommitmentProfile,
    pub opening: GroupOpeningParams,
}

/// The groups of an opening batch, in order.
#[derive(Clone, Debug)]
pub struct OpeningClaimsLayout {
    pub groups: Vec<PolynomialGroupLayout>,
}

/// Grinding attempts the current protocol admits for the fold nonce.
pub const FOLD_GRIND_ATTEMPT_CAP: u32 = 0x10_0000;

/// Protocol-wide binding of the fold L-infinity grinding search.
#[derive(Clone, Copy, Debug, PartialEq, Eq, Structural)]
pub struct FoldLinfProtocolBinding {
    /// Nonces `0..max_grind_attempts` are admissible.
    pub max_grind_attempts: u32,
}

impl FoldLinfProtocolBinding {
    /// The binding of the current protocol version.
    pub fn current() -> (r: FoldLinfProtocolBinding)
        ensures
            r.max_grind_attempts == FOLD_GRIND_ATTEMPT_CAP,
    {
        FoldLinfProtocolBinding { max_grind_attempts: FOLD_GRIND_ATTEMPT_CAP }
    }

    /// Accept exactly the nonces below the attempt cap.
    pub fn validate_grind_nonce(&self, nonce: u32) -> (r: Result<(), AkitaError>)
        ensures
            r is Ok <==> nonce < self.max_grind_attempts,
            r matches Err(e) ==> setup_error_reads(
                e,
                "fold grind nonce exceeds the protocol attempt cap"@,
            ),
    {
        if nonce >= self.max_grind_attempts {
            return Err(invalid_setup("fold grind nonce exceeds the protocol attempt cap"));
        }
        Ok(())
    }
}

/// Parameters of one committed fold level: the precommitted groups that
/// precede it, its own group, and the shared role, challenge, encoding and
/// payload settings.
#[derive(Clone, Debug, PartialEq, Eq)]
pub struct CommittedGroupParams {
    pub precommitted: Vec<CommittedGroupDescriptor>,
    pub own: CommittedGroupDescriptor,
    pub role_dims: CommitmentRingDims,
    pub fold_challenge: FoldChallengeConfig,
    pub source_encoding: SourceEncoding,
    pub payload_mode: PayloadMode,
}

} // verus!
