//! Compression-chain planning for a complete outer commitment image.
use vstd::prelude::*;
use crate::error::{AkitaError, fails_with, invalid_setup, setup_error_reads};
use crate::profile::SisModulusProfile;
use crate::backend::ComputeBackendSetup;
use crate::digits::{RingVec, tiling_error};

verus! {

/// Plan of one compression chain over a complete flat source.
#[derive(Clone, Copy, Debug, PartialEq, Eq, Structural)]
pub struct CompressionChainPlan {
    pub modulus_profile: SisModulusProfile,
    /// Coefficients of the complete source the chain consumes.
    pub source_coefficients: usize,
}

impl CompressionChainPlan {
    /// Plan a chain for a complete source of `source_coefficients`
    /// coefficients: an empty source is rejected, and a source beyond the
    /// profile's compression cap has no plan (`None`).
    pub fn try_for_complete_source(
        modulus_profile: SisModulusProfile,
        source_coefficients: usize,
    ) -> (r: Result<Option<CompressionChainPlan>, AkitaError>)
        ensures
            r is Err <==> source_coefficients == 0,
            r matches Err(e) ==> setup_error_reads(e, "compression source is empty"@),
            r matches Ok(None) <==> source_coefficients > modulus_profile.compression_cap
                && source_coefficients > 0,
            r matches Ok(Some(p)) ==> p == (CompressionChainPlan {
                modulus_profile,
                source_coefficients,
            }),
    {
        if source_coefficients == 0 {
            return Err(invalid_setup("compression source is empty"));
        }
        if source_coefficients > modulus_profile.compression_cap {
            return Ok(None);
        }
        Ok(Some(CompressionChainPlan { modulus_profile, source_coefficients }))
    }

    /// Plan a chain for a complete source, rejecting a source beyond the
    /// compression cap.
    pub fn for_complete_source(
        modulus_profile: SisModulusProfile,
        source_coefficients: usize,
    ) -> (r: Result<CompressionChainPlan, AkitaError>)
        ensures
            r is Ok <==> 0 < source_coefficients <= modulus_profile.compression_cap,
            r matches Ok(p) ==> p == (CompressionChainPlan { modulus_profile, source_coefficients }),
            r matches Err(e) ==> e is InvalidSetup,
            source_coefficients == 0 ==> fails_with(r, "compression source is empty"@),
            source_coefficients > modulus_profile.compression_cap && source_coefficients > 0
                ==> fails_with(r, "compression source exceeds the compression cap"@),
    {
        match Self::try_for_complete_source(modulus_profile, source_coefficients)? {
            Some(plan) => Ok(plan),
            None => Err(invalid_setup("compression source exceeds the compression cap")),
        }
    }
}

/// One compression map of an executed chain.
#[derive(Clone, Copy, Debug, PartialEq, Eq, Structural)]
pub struct CompressionMapPlan {
    /// Ring dimension the map produces.
    pub ring_dimension: usize,
}

impl CompressionMapPlan {
    pub fn ring_dimension(&self) -> (r: usize)
        ensures
            r == self.ring_dimension,
    {
        self.ring_dimension
    }
}

/// Record of one executed compression chain: its plan and the maps it
/// applied, in order.
#[derive(Clone, Debug, PartialEq, Eq)]
pub struct CompressionChainWitness {
    pub plan: CompressionChainPlan,
    pub maps: Vec<CompressionMapPlan>,
}

impl CompressionChainWitness {
    pub fn maps(&self) -> (r: &[CompressionMapPlan])
        ensures
            r@ == self.maps@,
    {
        self.maps.as_slice()
    }
}

/// Input of one compression chain: its plan and the flat source.
#[derive(Clone, Debug, PartialEq, Eq)]
pub struct CompressionExecutionInput {
    pub plan: CompressionChainPlan,
    pub coefficients: Vec<u64>,
}

/// Result of one executed compression chain.
#[derive(Clone, Debug, PartialEq, Eq)]
pub struct CompressionExecutionOutput {
    pub witness: CompressionChainWitness,
    /// Terminal payload coefficients.
    pub terminal: Vec<u64>,
    pub quotients: Vec<RingVec>,
}

/// Backend executing planned compression chains; its result is `executed`
/// of its arguments.
pub trait CompressionComputeBackend: ComputeBackendSetup + Sized {
    spec fn executed(
        &self,
        prepared: &Self::PreparedSetup,
        inputs: Vec<CompressionExecutionInput>,
    ) -> Result<Vec<CompressionExecutionOutput>, AkitaError>;

    fn execute_compression_chains(
        &self,
        prepared: &Self::PreparedSetup,
        inputs: Vec<CompressionExecutionInput>,
    ) -> (r: Result<Vec<CompressionExecutionOutput>, AkitaError>)
        ensures
            r == self.executed(prepared, inputs),
    ;
}

/// Dimension-erased output of one complete commitment compression chain.
#[derive(Clone, Debug, PartialEq, Eq)]
pub struct CompressionChainOutput {
    pub payload: RingVec,
    pub witness: CompressionChainWitness,
    pub quotients: Vec<RingVec>,
}

/// The single chain's output is present and its last map fixes a terminal
/// ring dimension that tiles the terminal payload.
pub open spec fn compression_output_ok(outputs: Seq<CompressionExecutionOutput>) -> bool {
    &&& outputs.len() >= 1
    &&& outputs.last().witness.maps.len() >= 1
    &&& outputs.last().witness.maps@.last().ring_dimension >= 1
    &&& outputs.last().terminal@.len() % (outputs.last().witness.maps@.last().ring_dimension as nat)
        == 0
}

/// What finishing gives for the executor's outputs: `InvalidProof` for no
/// output or a last chain without maps; the tiling rejection when the
/// terminal does not tile the last map's ring dimension; otherwise the last
/// chain's terminal read at that dimension, with its witness and quotients.
pub open spec fn finishes(
    r: Result<CompressionChainOutput, AkitaError>,
    outputs: Seq<CompressionExecutionOutput>,
) -> bool {
    if outputs.len() == 0 || outputs.last().witness.maps.len() == 0 {
        r matches Err(e) && e is InvalidProof
    } else if compression_output_ok(outputs) {
        let last = outputs.last();
        r matches Ok(o) && o.payload.ring_dim == last.witness.maps@.last().ring_dimension
            && o.payload.coeffs@ == last.terminal@ && o.witness == last.witness && o.quotients
            == last.quotients
    } else {
        fails_with(r, tiling_error(outputs.last().witness.maps@.last().ring_dimension))
    }
}

/// Turn the executor's output into the commitment payload: the last
/// chain's terminal coefficients, read at the ring dimension of its last
/// compression map.
pub fn finish_compression_chain(outputs: Vec<CompressionExecutionOutput>) -> (r: Result<
    CompressionChainOutput,
    AkitaError,
>)
    ensures
        r is Ok <==> compression_output_ok(outputs@),
        finishes(r, outputs@),
{
    let mut outputs = outputs;
    let output = match outputs.pop() {
        Some(o) => o,
        None => {
            return Err(AkitaError::InvalidProof);
        },
    };
    let maps = output.witness.maps();
    if maps.len() == 0 {
        return Err(AkitaError::InvalidProof);
    }
    let terminal_ring_dim = maps[maps.len() - 1].ring_dimension();
    let payload = RingVec::from_coeffs_with_ring_dim(output.terminal, terminal_ring_dim)?;
    Ok(CompressionChainOutput { payload, witness: output.witness, quotients: output.quotients })
}

/// The executor input for one complete outer image: a single chain,
/// planned over the image's coefficient count, that consumes exactly the
/// image's coefficients.
pub fn compression_execution_inputs(modulus_profile: SisModulusProfile, source: RingVec) -> (r:
    Result<Vec<CompressionExecutionInput>, AkitaError>)
    ensures
        r is Ok <==> 0 < source.coeffs@.len() <= modulus_profile.compression_cap,
        r matches Ok(inputs) ==> {
            &&& inputs@.len() == 1
            &&& inputs@[0].plan == (CompressionChainPlan {
                modulus_profile,
                source_coefficients: source.coeffs@.len() as usize,
            })
            &&& inputs@[0].coefficients@ == source.coeffs@
        },
        r matches Err(e) ==> e is InvalidSetup,
        source.coeffs@.len() == 0 ==> fails_with(r, "compression source is empty"@),
        source.coeffs@.len() > modulus_profile.compression_cap && source.coeffs@.len() > 0
            ==> fails_with(r, "compression source exceeds the compression cap"@),
{
    let plan = CompressionChainPlan::for_complete_source(modulus_profile, source.coeff_len())?;
    Ok(vec![CompressionExecutionInput { plan, coefficients: source.into_coeffs() }])
}

/// The outcome of compressing `source`: the planner's rejection of an
/// empty source or one beyond the cap; otherwise the executor is handed
/// one chain planned over exactly the source's coefficients, and its error
/// comes back as it came or its output is finished.
pub open spec fn compression_outcome<B: CompressionComputeBackend>(
    r: Result<CompressionChainOutput, AkitaError>,
    backend: &B,
    prepared: &B::PreparedSetup,
    modulus_profile: SisModulusProfile,
    source: RingVec,
) -> bool {
    &&& source.coeffs@.len() == 0 ==> fails_with(r, "compression source is empty"@)
    &&& source.coeffs@.len() > modulus_profile.compression_cap && source.coeffs@.len() > 0
        ==> fails_with(r, "compression source exceeds the compression cap"@)
    &&& 0 < source.coeffs@.len() <= modulus_profile.compression_cap ==> exists|
        inputs: Vec<CompressionExecutionInput>,
    |
        inputs@.len() == 1 && inputs@[0].plan == (CompressionChainPlan {
            modulus_profile,
            source_coefficients: source.coeffs@.len() as usize,
        }) && inputs@[0].coefficients@ == source.coeffs@ && match #[trigger] backend.executed(
            prepared,
            inputs,
        ) {
            Err(e) => r == Err::<CompressionChainOutput, AkitaError>(e),
            Ok(outputs) => finishes(r, outputs@),
        }
}

/// Compute the complete compression chain for one outer commitment image:
/// plan it over the image's coefficients, hand the executor exactly that
/// image, and finish its output.
pub fn compute_compression_chain<B: CompressionComputeBackend>(
    backend: &B,
    prepared: &B::PreparedSetup,
    modulus_profile: SisModulusProfile,
    source: RingVec,
) -> (r: Result<CompressionChainOutput, AkitaError>)
    ensures
        compression_outcome(r, backend, prepared, modulus_profile, source),
        r matches Ok(o) ==> {
            &&& o.payload.wf()
            &&& o.witness.maps@.len() >= 1
            &&& o.payload.ring_dim == o.witness.maps@.last().ring_dimension
        },
{
    let inputs = compression_execution_inputs(modulus_profile, source)?;
    let ghost ginputs = inputs;
    let executed = backend.execute_compression_chains(prepared, inputs);
    let outputs = match executed {
        Ok(outputs) => outputs,
        Err(e) => {
            proof {
                assert(backend.executed(prepared, ginputs) == Err::<
                    Vec<CompressionExecutionOutput>,
                    AkitaError,
                >(e));
            }
            return Err(e);
        },
    };
    let ghost gouts = outputs@;
    let r = finish_compression_chain(outputs);
    proof {
        assert(backend.executed(prepared, ginputs) matches Ok(o) && o@ == gouts);
    }
    r
}

} // verus!
