use std::sync::Arc;

use rustred_cover::parametric_sector_formula_ir::{
    DirectBadFormulaClause, NormalizedBadClause, NormalizedBadClauseRole, NormalizedBadClauseSource,
    NormalizedBadFormulaBody, NormalizedBadLiteral, NormalizedBadLiteralPolarity,
    NormalizedCandidateBadFormula, NormalizedCoverageAttempt, NormalizedCoverageIr,
};
use rustred_cover::parametric_sector_mtbdd::{
    ParametricSectorMtbddDisposition, ParametricSectorMtbddError, ParametricSectorMtbddLimits,
};
use rustred_cover::parametric_sector_mtbdd_certificate::{
    AuthenticatedNormalizedCoverage, ParametricSectorMtbddCoverageCompiler,
    ParametricSectorMtbddCoverageError, PARAMETRIC_SECTOR_MTBDD_COVERAGE_V5_STAGE1_SCHEMA,
};

/// Two base loci; the first candidate is bad where locus 0 vanishes, the
/// second is unsupported.
fn normalized_source() -> Arc<AuthenticatedNormalizedCoverage> {
    let bad_at_locus_zero = NormalizedCoverageAttempt::Certified(NormalizedCandidateBadFormula::new(
        0,
        NormalizedBadFormulaBody::Dnf {
            clauses: vec![NormalizedBadClause::new(
                DirectBadFormulaClause::Atom(NormalizedBadLiteral::new(
                    0,
                    NormalizedBadLiteralPolarity::EqualZero,
                )),
                vec![NormalizedBadClauseSource::LeakEvent { event_ordinal: 0 }],
                NormalizedBadClauseRole::Ordinary,
            )],
            atomic_equal_zero_factors: Vec::new(),
        },
    ));
    let unsupported = NormalizedCoverageAttempt::Unsupported {
        source_attempt_ordinal: 1,
    };
    Arc::new(AuthenticatedNormalizedCoverage {
        base_structural_loci: vec![31, 37],
        ir: NormalizedCoverageIr::try_new(2, vec![bad_at_locus_zero, unsupported]).unwrap(),
    })
}

#[test]
fn compile_from_source_preserves_arc_and_source_survives_backend_failure() {
    let source = normalized_source();

    let mut rejected_limits = ParametricSectorMtbddLimits::default();
    rejected_limits.max_attempts = 0;
    assert!(matches!(
        ParametricSectorMtbddCoverageCompiler::compile_from_source(
            Arc::clone(&source),
            rejected_limits,
        ),
        Err(ParametricSectorMtbddCoverageError::Mtbdd(
            ParametricSectorMtbddError::ResourceLimit {
                resource: "normalized coverage attempts",
                ..
            }
        ))
    ));
    assert_eq!(source.base_structural_loci(), &[31, 37]);
    assert_eq!(source.ir().attempts().len(), 2);

    let rebuilt = ParametricSectorMtbddCoverageCompiler::compile_from_source(
        Arc::clone(&source),
        ParametricSectorMtbddLimits::default(),
    )
    .unwrap();
    assert!(Arc::ptr_eq(rebuilt.source_arc(), &source));
    assert_eq!(rebuilt.schema(), PARAMETRIC_SECTOR_MTBDD_COVERAGE_V5_STAGE1_SCHEMA);
    assert_eq!(rebuilt.mtbdd_limits(), ParametricSectorMtbddLimits::default());
    assert_eq!(
        rebuilt.decision().base_structural_locus_count(),
        rebuilt.normalized().base_structural_loci().len()
    );
}

#[test]
fn certificate_classification_is_the_reference_disposition() {
    let certificate = ParametricSectorMtbddCoverageCompiler::compile_from_source(
        normalized_source(),
        ParametricSectorMtbddLimits::default(),
    )
    .unwrap();
    assert_eq!(
        certificate.classify_assignment(&[false, false]).unwrap(),
        &ParametricSectorMtbddDisposition::DescendingRule {
            candidate_ordinal: 0
        }
    );
    assert_eq!(
        certificate.classify_assignment(&[true, false]).unwrap(),
        &ParametricSectorMtbddDisposition::Unsupported {
            candidate_ordinals: vec![1]
        }
    );
    assert_eq!(
        certificate.classify_assignment(&[true]),
        Err(ParametricSectorMtbddCoverageError::Mtbdd(
            ParametricSectorMtbddError::AssignmentArityMismatch {
                expected: 2,
                actual: 1,
            }
        ))
    );
}
