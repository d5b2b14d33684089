//! Owning stage-1 sector-coverage MTBDD certificate.
//!
//! The certificate owns one shared normalized coverage source (its base
//! structural loci and normalized formula IR) together with the decision
//! function compiled from that IR and the limits it was compiled under.

use std::sync::Arc;
use vstd::prelude::*;
use crate::parametric_sector_formula_ir::NormalizedCoverageIr;
use crate::parametric_sector_mtbdd::{
    ParametricSectorMtbddCompiler, ParametricSectorMtbddDecisionFunction, ParametricSectorMtbddDisposition,
    ParametricSectorMtbddError, ParametricSectorMtbddLimits, reference_view, DispositionView, fallback_compile_admitted,
};

verus! {

pub const PARAMETRIC_SECTOR_MTBDD_COVERAGE_V5_STAGE1_SCHEMA: &'static str = "rustred-parametric-sector-mtbdd-coverage-v5-stage1";

/// Normalized coverage as the MTBDD stage reads it: the authenticated base
/// structural loci, each named by the identity of its coverage polynomial,
/// and the normalized formula IR over their ordinals.
pub struct AuthenticatedNormalizedCoverage {
    pub base_structural_loci: Vec<u64>,
    pub ir: NormalizedCoverageIr,
}

impl AuthenticatedNormalizedCoverage {
    pub fn base_structural_loci(&self) -> (r: &[u64])
        ensures
            r@ == self.base_structural_loci@,
    {
        self.base_structural_loci.as_slice()
    }

    pub fn ir(&self) -> (r: &NormalizedCoverageIr)
        ensures
            *r == self.ir,
    {
        &self.ir
    }
}

#[derive(Clone, Debug, PartialEq, Eq)]
pub enum ParametricSectorMtbddCoverageError {
    SchemaMismatch,
    ReplayMismatch,
    Mtbdd(ParametricSectorMtbddError),
}

/// Exact owning stage-1 payload: the shared source, the decision function
/// compiled from its IR, and the MTBDD limits of that compilation.
pub struct ParametricSectorMtbddCoverageCertificate {
    schema: &'static str,
    source: Arc<AuthenticatedNormalizedCoverage>,
    decision: ParametricSectorMtbddDecisionFunction,
    mtbdd_limits: ParametricSectorMtbddLimits,
}

impl ParametricSectorMtbddCoverageCertificate {
    pub closed spec fn spec_schema(&self) -> &'static str {
        self.schema
    }

    pub closed spec fn spec_source(&self) -> AuthenticatedNormalizedCoverage {
        *self.source
    }

    pub closed spec fn spec_decision(&self) -> ParametricSectorMtbddDecisionFunction {
        self.decision
    }

    pub closed spec fn spec_mtbdd_limits(&self) -> ParametricSectorMtbddLimits {
        self.mtbdd_limits
    }

    pub fn schema(&self) -> (r: &'static str)
        ensures
            r == self.spec_schema(),
    {
        self.schema
    }

    pub fn source_arc(&self) -> (r: &Arc<AuthenticatedNormalizedCoverage>)
        ensures
            **r == self.spec_source(),
    {
        &self.source
    }

    pub fn normalized(&self) -> (r: &AuthenticatedNormalizedCoverage)
        ensures
            *r == self.spec_source(),
    {
        &self.source
    }

    pub fn decision(&self) -> (r: &ParametricSectorMtbddDecisionFunction)
        ensures
            *r == self.spec_decision(),
    {
        &self.decision
    }

    pub fn mtbdd_limits(&self) -> (r: ParametricSectorMtbddLimits)
        ensures
            r == self.spec_mtbdd_limits(),
    {
        self.mtbdd_limits
    }

    /// Disposition of one assignment of the base structural loci, exactly
    /// the reference disposition of the source attempts.
    pub fn classify_assignment(&self, zero_by_base_structural_locus: &[bool]) -> (r: Result<
        &ParametricSectorMtbddDisposition,
        ParametricSectorMtbddCoverageError,
    >)
        ensures
            zero_by_base_structural_locus@.len() != self.spec_decision().spec_base_count() ==> r == Err::<
                &ParametricSectorMtbddDisposition,
                ParametricSectorMtbddCoverageError,
            >(
                ParametricSectorMtbddCoverageError::Mtbdd(
                    ParametricSectorMtbddError::AssignmentArityMismatch {
                        expected: self.spec_decision().spec_base_count(),
                        actual: zero_by_base_structural_locus@.len() as usize,
                    },
                ),
            ),
            zero_by_base_structural_locus@.len() == self.spec_decision().spec_base_count() ==> (r is Ok <==> self.spec_decision().classification_visits(
                zero_by_base_structural_locus@,
            ) <= self.spec_decision().spec_limits().max_classification_visits),
            r matches Ok(d) ==> d.view() == reference_view(self.spec_decision().spec_attempts(), zero_by_base_structural_locus@),
    {
        match self.decision.classify_assignment(zero_by_base_structural_locus) {
            Ok(d) => Ok(d),
            Err(e) => Err(ParametricSectorMtbddCoverageError::Mtbdd(e)),
        }
    }
}

pub struct ParametricSectorMtbddCoverageCompiler;

impl ParametricSectorMtbddCoverageCompiler {
    /// Compile the MTBDD backend of an already authenticated source while
    /// retaining the exact source allocation.  A backend failure leaves the
    /// source untouched.
    pub fn compile_from_source(source: Arc<AuthenticatedNormalizedCoverage>, mtbdd_limits: ParametricSectorMtbddLimits) -> (r:
        Result<ParametricSectorMtbddCoverageCertificate, ParametricSectorMtbddCoverageError>)
        requires
            source.ir.wf(),
        ensures
            r matches Ok(c) ==> {
                &&& c.spec_schema() == PARAMETRIC_SECTOR_MTBDD_COVERAGE_V5_STAGE1_SCHEMA
                &&& c.spec_source() == *source
                &&& c.spec_mtbdd_limits() == mtbdd_limits
                &&& c.spec_decision().spec_attempts() == source.ir.spec_attempts()
                &&& c.spec_decision().spec_base_count() == source.ir.spec_base_count()
                &&& c.spec_decision().spec_limits() == mtbdd_limits
            },
            source.ir.spec_base_count() > mtbdd_limits.max_base_structural_loci ==> r == Err::<
                ParametricSectorMtbddCoverageCertificate,
                ParametricSectorMtbddCoverageError,
            >(
                ParametricSectorMtbddCoverageError::Mtbdd(
                    ParametricSectorMtbddError::ResourceLimit {
                        resource: "base structural loci",
                        requested: source.ir.spec_base_count(),
                        limit: mtbdd_limits.max_base_structural_loci,
                    },
                ),
            ),
            source.ir.spec_base_count() <= mtbdd_limits.max_base_structural_loci && source.ir.spec_attempts().len()
                > mtbdd_limits.max_attempts ==> r == Err::<
                ParametricSectorMtbddCoverageCertificate,
                ParametricSectorMtbddCoverageError,
            >(
                ParametricSectorMtbddCoverageError::Mtbdd(
                    ParametricSectorMtbddError::ResourceLimit {
                        resource: "normalized coverage attempts",
                        requested: source.ir.spec_attempts().len() as usize,
                        limit: mtbdd_limits.max_attempts,
                    },
                ),
            ),
            fallback_compile_admitted(source.ir, mtbdd_limits) ==> r is Ok,
    {
        let decision = match ParametricSectorMtbddCompiler::compile(source.ir(), mtbdd_limits) {
            Ok(decision) => decision,
            Err(e) => return Err(ParametricSectorMtbddCoverageError::Mtbdd(e)),
        };
        Ok(
            ParametricSectorMtbddCoverageCertificate {
                schema: PARAMETRIC_SECTOR_MTBDD_COVERAGE_V5_STAGE1_SCHEMA,
                source,
                decision,
                mtbdd_limits,
            },
        )
    }
}

} // verus!
