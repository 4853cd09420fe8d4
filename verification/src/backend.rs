//! Compute-backend interfaces the commitment stages drive, and the plans
//! handed to them.
use vstd::prelude::*;
use crate::digits::CommitInnerWitness;
use crate::error::AkitaError;

verus! {

/// Inner (A) commitment plan for one same-shape source group.
#[derive(Clone, Copy, Debug, PartialEq, Eq, Structural)]
pub struct CommitInnerPlan {
    /// Rows of the A matrix.
    pub n_a: usize,
    pub num_positions_per_block: usize,
    pub num_digits_inner: usize,
    pub log_basis_inner: u32,
    /// Inner ring dimension `D_A`.
    pub ring_dim: usize,
}

/// Coefficient interval committed sources must lie in.
#[derive(Clone, Copy, Debug, PartialEq, Eq, Structural)]
pub struct CommittedSourceContract {
    /// Largest admitted absolute value of a centered source coefficient.
    pub max_abs_coefficient: u64,
}

/// A backend with a prepared (expanded) setup.
pub trait ComputeBackendSetup {
    type PreparedSetup;
}

/// A polynomial that can be committed at the root level.
///
/// Each method's result is the matching spec function of the
/// implementation applied to its arguments.
pub trait RootCommitSource: Sized {
    /// Borrowed commit view of the source, typed by the inner ring
    /// dimension.
    type View;

    /// Whether every source coefficient lies in the contract's interval:
    /// `Ok` when it does, the rejection otherwise.
    spec fn admission(&self, plan: CommitInnerPlan, contract: CommittedSourceContract) -> Result<
        (),
        AkitaError,
    >;

    /// The commit view of this source for inner ring dimension `ring_dim`.
    spec fn view_for(&self, ring_dim: usize) -> Result<Self::View, AkitaError>;

    fn fits_accepted_interval(
        &self,
        plan: &CommitInnerPlan,
        contract: &CommittedSourceContract,
    ) -> (r: Result<(), AkitaError>)
        ensures
            r == self.admission(*plan, *contract),
    ;

    fn commit_view(&self, ring_dim: usize) -> (r: Result<Self::View, AkitaError>)
        ensures
            r == self.view_for(ring_dim),
    ;
}

/// Kernel computing the inner commitments `t_i` of one same-shape source
/// group; its result is `inner_group` of its arguments.
pub trait RootCommitKernel<S>: ComputeBackendSetup + Sized {
    spec fn inner_group(
        &self,
        prepared: &Self::PreparedSetup,
        sources: Vec<S>,
        plan: CommitInnerPlan,
    ) -> Result<Vec<CommitInnerWitness>, AkitaError>;

    fn commit_inner_group(
        &self,
        prepared: &Self::PreparedSetup,
        sources: Vec<S>,
        plan: CommitInnerPlan,
    ) -> (r: Result<Vec<CommitInnerWitness>, AkitaError>)
        ensures
            r == self.inner_group(prepared, sources, plan),
    ;
}

/// Kernel applying the prepared outer (B) matrix of `n_b` rows to digit
/// plane inputs of ring dimension `ring_dim`: one batch of `n_b` ring
/// elements per input. Its result is `rows_for` of its arguments.
pub trait DigitRowsComputeBackend: ComputeBackendSetup + Sized {
    spec fn rows_for(
        &self,
        prepared: &Self::PreparedSetup,
        n_b: usize,
        inputs: &[&[i8]],
        log_basis: u32,
        ring_dim: usize,
    ) -> Result<Vec<Vec<Vec<u64>>>, AkitaError>;

    fn digit_rows(
        &self,
        prepared: &Self::PreparedSetup,
        n_b: usize,
        inputs: &[&[i8]],
        log_basis: u32,
        ring_dim: usize,
    ) -> (r: Result<Vec<Vec<Vec<u64>>>, AkitaError>)
        ensures
            r == self.rows_for(prepared, n_b, inputs, log_basis, ring_dim),
    ;
}

} // verus!
