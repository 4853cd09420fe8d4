//! Root commitment of one polynomial group: request validation, the inner
//! and outer stages, and optional compression of the outer image.
use vstd::prelude::*;
use crate::backend::{
    CommittedSourceContract, ComputeBackendSetup, DigitRowsComputeBackend, RootCommitKernel,
    RootCommitSource,
};
use crate::compression::{
    CompressionChainOutput, CompressionChainWitness, CompressionComputeBackend, compression_outcome,
    compute_compression_chain,
};
use crate::digits::RingVec;
use crate::error::{AkitaError, setup_error_reads};
use crate::inner_outer::{CommitmentGeometry, commit_inner_outer, inner_outer_outcome};
use crate::params::CommittedGroupParams;
use crate::profile::CommitmentProfile;

verus! {

/// A committed polynomial group: its frozen profile and the published
/// commitment rows.
#[derive(Clone, Debug, PartialEq, Eq)]
pub struct GroupCommitment {
    pub profile: CommitmentProfile,
    pub payload: RingVec,
}

impl GroupCommitment {
    /// The published commitment rows.
    pub fn rows(&self) -> (r: &RingVec)
        ensures
            *r == self.payload,
    {
        &self.payload
    }
}

/// Prover-side opening hint of a committed group.
#[derive(Clone, Debug, PartialEq, Eq)]
pub struct CommitmentHint {
    /// Persistent inner rows `t_i`, one per polynomial, in source order.
    pub inner_rows: Vec<RingVec>,
    /// Witness of the compression chain, when the payload is compressed.
    pub compression_witness: Option<CompressionChainWitness>,
    pub compression_quotients: Vec<RingVec>,
}

impl CommitmentHint {
    pub fn inner_rows(&self) -> (r: &[RingVec])
        ensures
            r@ == self.inner_rows@,
    {
        self.inner_rows.as_slice()
    }
}

/// Commitment and hint of one committed group.
#[derive(Clone, Debug, PartialEq, Eq)]
pub struct CommitOutput {
    pub committed_group: GroupCommitment,
    pub hint: CommitmentHint,
}

/// The A-role and B-role geometry of a group profile.
pub open spec fn commitment_geometry_of(p: CommitmentProfile) -> CommitmentGeometry {
    CommitmentGeometry {
        inner_matrix: p.inner.matrix,
        outer_matrix: p.outer.matrix,
        num_positions_per_block: p.blocks.positions_per_block,
        num_digits_inner: p.inner.digits.num_digits,
        log_basis_inner: p.inner.digits.log_basis,
        num_live_blocks: p.blocks.live_blocks,
        num_digits_outer: p.outer.digits.num_digits,
        log_basis_outer: p.outer.digits.log_basis,
    }
}

/// The root commitment runs each stage with its own role's parameters:
/// the inner stage with the A matrix, the block positions and the inner
/// decomposition, and the outer stage with the B matrix, the live blocks
/// and the outer decomposition (`t_i` is split into balanced digits of
/// base `2^log_basis` of the outer role).
pub proof fn law_root_commit_geometry_uses_role_parameters(p: CommitmentProfile)
    ensures
        commitment_geometry_of(p).inner_matrix == p.inner.matrix,
        commitment_geometry_of(p).num_positions_per_block == p.blocks.positions_per_block,
        commitment_geometry_of(p).num_digits_inner == p.inner.digits.num_digits,
        commitment_geometry_of(p).log_basis_inner == p.inner.digits.log_basis,
        commitment_geometry_of(p).outer_matrix == p.outer.matrix,
        commitment_geometry_of(p).num_live_blocks == p.blocks.live_blocks,
        commitment_geometry_of(p).num_digits_outer == p.outer.digits.num_digits,
        commitment_geometry_of(p).log_basis_outer == p.outer.digits.log_basis,
{
}

/// Commit one polynomial group at the root level over the field of order
/// `field_modulus`: validate the request against the group's frozen
/// profile, compute the inner and outer stages, and compress the outer
/// image when the payload mode asks for it.
pub fn commit_group<V, P: RootCommitSource<View = V>, B: RootCommitKernel<V>
    + DigitRowsComputeBackend + CompressionComputeBackend>(
    params: &CommittedGroupParams,
    polys: &[P],
    backend: &B,
    prepared: &<B as ComputeBackendSetup>::PreparedSetup,
    contract: CommittedSourceContract,
    field_modulus: u64,
) -> (r: Result<CommitOutput, AkitaError>)
    ensures
        !params.request_valid(0, polys.len() as nat) ==> (r matches Err(e) && setup_error_reads(
            e,
            params.request_error(0, polys.len() as nat),
        )),
        r matches Ok(out) ==> {
            let p = params.own.profile;
            &&& params.request_valid(0, polys.len() as nat)
            &&& out.committed_group.profile == p
            &&& out.hint.inner_rows.len() == polys.len()
            &&& forall|i: int|
                0 <= i < out.hint.inner_rows.len() ==> (#[trigger] out.hint.inner_rows@[i]).ring_dim
                    == p.inner.matrix.ring_dimension && out.hint.inner_rows@[i].num_elems()
                    == p.blocks.live_blocks * p.inner.matrix.output_rank
            &&& out.committed_group.payload.wf()
            &&& (params.payload_mode is Uncompressed ==> {
                &&& out.committed_group.payload.ring_dim == p.outer.matrix.ring_dimension
                &&& out.committed_group.payload.num_elems() == p.outer_slice_count.count()
                    * p.outer.matrix.output_rank
                &&& out.hint.compression_witness is None
                &&& out.hint.compression_quotients.len() == 0
            })
            &&& (params.payload_mode is Compressed ==> {
                &&& out.hint.compression_witness matches Some(w) && w.maps@.len() >= 1
                    && out.committed_group.payload.ring_dim == w.maps@.last().ring_dimension
            })
        },
        params.request_valid(0, polys.len() as nat) ==> exists|
            io: Result<(Vec<RingVec>, RingVec), AkitaError>,
        |
            #[trigger] inner_outer_outcome(
                io,
                polys@,
                backend,
                prepared,
                commitment_geometry_of(params.own.profile),
                params.own.profile.slice_geometry(),
                contract,
                field_modulus,
            ) && match io {
                Err(e) => r == Err::<CommitOutput, AkitaError>(e),
                Ok((rows, outer)) => if params.payload_mode is Uncompressed {
                    r matches Ok(out) && out.committed_group == (GroupCommitment {
                        profile: params.own.profile,
                        payload: outer,
                    }) && out.hint.inner_rows == rows && out.hint.compression_witness is None
                        && out.hint.compression_quotients@.len() == 0
                } else {
                    exists|c: Result<CompressionChainOutput, AkitaError>|
                        #[trigger] compression_outcome(
                            c,
                            backend,
                            prepared,
                            params.own.profile.outer.matrix.sis_modulus_profile,
                            outer,
                        ) && match c {
                            Err(e) => r == Err::<CommitOutput, AkitaError>(e),
                            Ok(chain) => r matches Ok(out) && out.committed_group == (
                            GroupCommitment {
                                profile: params.own.profile,
                                payload: chain.payload,
                            }) && out.hint.inner_rows == rows && out.hint.compression_witness
                                == Some(chain.witness) && out.hint.compression_quotients
                                == chain.quotients,
                        }
                },
            },
{
    let slice_geometry = params.validate_commitment_request(0, polys.len())?;
    let own = &params.own_group().profile;
    let geometry = CommitmentGeometry {
        inner_matrix: own.inner.matrix,
        outer_matrix: own.outer.matrix,
        num_positions_per_block: own.blocks.positions_per_block,
        num_digits_inner: own.inner.digits.num_digits,
        log_basis_inner: own.inner.digits.log_basis,
        num_live_blocks: own.blocks.live_blocks,
        num_digits_outer: own.outer.digits.num_digits,
        log_basis_outer: own.outer.digits.log_basis,
    };
    let io = commit_inner_outer(
        polys,
        backend,
        prepared,
        geometry,
        &slice_geometry,
        contract,
        field_modulus,
    );
    let ghost gio = io;
    proof {
        assert(geometry == commitment_geometry_of(params.own.profile));
        assert(inner_outer_outcome(
            gio,
            polys@,
            backend,
            prepared,
            commitment_geometry_of(params.own.profile),
            params.own.profile.slice_geometry(),
            contract,
            field_modulus,
        ));
    }
    let (inner_rows, outer) = match io {
        Ok(pair) => pair,
        Err(e) => {
            return Err(e);
        },
    };
    if params.payload_mode.is_compressed() {
        let ghost gouter = outer;
        let c = compute_compression_chain(
            backend,
            prepared,
            own.outer.matrix.sis_modulus_profile(),
            outer,
        );
        let ghost gc = c;
        proof {
            assert(compression_outcome(
                gc,
                backend,
                prepared,
                params.own.profile.outer.matrix.sis_modulus_profile,
                gouter,
            ));
        }
        let chain = match c {
            Ok(chain) => chain,
            Err(e) => {
                return Err(e);
            },
        };
        Ok(
            CommitOutput {
                committed_group: GroupCommitment { profile: *own, payload: chain.payload },
                hint: CommitmentHint {
                    inner_rows,
                    compression_witness: Some(chain.witness),
                    compression_quotients: chain.quotients,
                },
            },
        )
    } else {
        proof {
            let d = outer.ring_dim as int;
            let m = slice_geometry.num_slices() * own.outer.matrix.output_rank;
            assert(outer.coeffs@.len() == m * d);
            assert((m * d) / d == m) by (nonlinear_arith)
                requires d >= 1;
        }
        Ok(
            CommitOutput {
                committed_group: GroupCommitment { profile: *own, payload: outer },
                hint: CommitmentHint {
                    inner_rows,
                    compression_witness: None,
                    compression_quotients: Vec::new(),
                },
            },
        )
    }
}

} // verus!
