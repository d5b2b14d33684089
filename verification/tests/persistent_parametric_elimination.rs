use rustred_cover::parametric_elimination::{
    ParametricCoefficientContext, ParametricElimination, ParametricEliminationError,
    ParametricEliminationLimits, ParametricEliminationOrdering, ParametricEliminationStats,
    ParametricNonzeroGuard, ParametricPivotEquation, ParametricRelation, ParametricRelationTerm,
};
use rustred_cover::persistent_parametric_elimination::{
    decimal_len, prefix_source_manifest_bytes, ParametricEliminationBuilder,
    PersistentParametricEliminationCertificate, PersistentParametricEliminationDatabase,
    PersistentParametricEliminationError, PersistentParametricEliminationLimits,
    PersistentParametricEliminationRowOutcome,
};

const FAMILY: &str = "persistent-private-replay-audit";

/// A deterministic kernel: the first shift of each row opens a pivot unless
/// an earlier row already opened it.
struct FirstShiftKernel;

impl ParametricEliminationBuilder for FirstShiftKernel {
    fn build(
        &self,
        _context: &ParametricCoefficientContext,
        rows: &[ParametricRelation],
        _ordering: ParametricEliminationOrdering,
        limits: ParametricEliminationLimits,
    ) -> Result<ParametricElimination, ParametricEliminationError> {
        if rows.len() > limits.max_source_rows {
            return Err(ParametricEliminationError::ResourceLimit {
                resource: "rows",
                requested: rows.len(),
                limit: limits.max_source_rows,
            });
        }
        let mut pivots: Vec<ParametricPivotEquation> = Vec::new();
        for (index, row) in rows.iter().enumerate() {
            if let Some(term) = row.terms.first() {
                if !pivots.iter().any(|pivot| pivot.pivot == term.shift) {
                    pivots.push(ParametricPivotEquation {
                        ordinal: pivots.len(),
                        pivot: term.shift.clone(),
                        trace: vec![index],
                    });
                }
            }
        }
        Ok(ParametricElimination {
            source_manifest: format!("prefix-{}", rows.len()),
            pivots,
            stats: ParametricEliminationStats::default(),
        })
    }
}

/// A kernel that always fails.
struct FailingKernel;

impl ParametricEliminationBuilder for FailingKernel {
    fn build(
        &self,
        _context: &ParametricCoefficientContext,
        _rows: &[ParametricRelation],
        _ordering: ParametricEliminationOrdering,
        _limits: ParametricEliminationLimits,
    ) -> Result<ParametricElimination, ParametricEliminationError> {
        Err(ParametricEliminationError::ResourceLimit {
            resource: "kernel",
            requested: 1,
            limit: 0,
        })
    }
}

fn context() -> ParametricCoefficientContext {
    ParametricCoefficientContext {
        fingerprint: "kn-d-m2".to_owned(),
        index_count: 1,
    }
}

fn relation(shift: i64, manifest: &str) -> ParametricRelation {
    ParametricRelation {
        family_fingerprint: FAMILY.to_owned(),
        context_fingerprint: "kn-d-m2".to_owned(),
        arity: 1,
        terms: vec![ParametricRelationTerm {
            shift: vec![shift],
            coefficient_within_limits: true,
        }],
        guarded_nonzero_conditions: vec![ParametricNonzeroGuard {
            declared_in_context: true,
            polynomial_is_zero: false,
            polynomial_within_limits: true,
            origins: vec![0],
        }],
        stable_manifest: manifest.to_owned(),
    }
}

fn ordering() -> ParametricEliminationOrdering {
    ParametricEliminationOrdering { anchor: vec![1] }
}

fn pending_certificate() -> (
    ParametricCoefficientContext,
    PersistentParametricEliminationCertificate,
) {
    let context = context();
    let mut database = PersistentParametricEliminationDatabase::try_new(
        &context,
        FAMILY,
        ordering(),
        PersistentParametricEliminationLimits::default(),
    )
    .unwrap();
    database
        .submit_prevalidated_rows("pending", vec![relation(0, "ibp-li-0")])
        .unwrap();
    let certificate = database.finish();
    (context, certificate)
}

#[test]
fn replay_rejects_tampered_row_manifest_metadata() {
    let (context, mut certificate) = pending_certificate();
    certificate.source_manifest_lengths[0] += 1;

    assert!(matches!(
        certificate.replay(&context, &FirstShiftKernel),
        Err(PersistentParametricEliminationError::ReplayMismatch { detail })
            if detail.contains("row-manifest length differs")
    ));
}

#[test]
fn replay_rejects_tampered_retained_statistics() {
    let (context, mut certificate) = pending_certificate();
    certificate.stats.retained_source_integral_slots = 0;

    assert!(matches!(
        certificate.replay(&context, &FirstShiftKernel),
        Err(PersistentParametricEliminationError::ReplayMismatch { detail })
            if detail.contains("retained-payload statistics")
    ));
}

#[test]
fn replay_rejects_noncontiguous_batch_ranges() {
    let (context, mut certificate) = pending_certificate();
    certificate.batches[0].first_source_ordinal = 1;

    assert!(matches!(
        certificate.replay(&context, &FirstShiftKernel),
        Err(PersistentParametricEliminationError::ReplayMismatch { detail })
            if detail.contains("source ranges are not contiguous")
    ));
}

#[test]
fn fallible_pending_cursor_rejects_tampered_metadata() {
    let (_context, mut certificate) = pending_certificate();
    certificate.stats.consumed_rows = certificate.source_rows.len() + 1;

    assert_eq!(certificate.pending_rows(), 0);
    assert!(matches!(
        certificate.try_pending_rows(),
        Err(PersistentParametricEliminationError::ReplayMismatch { detail })
            if detail.contains("cursor exceeds retained rows")
    ));
}

#[test]
fn untampered_pending_certificate_replays() {
    let (context, certificate) = pending_certificate();
    assert_eq!(certificate.pending_rows(), 1);
    assert!(certificate.replay(&context, &FirstShiftKernel).is_ok());
}

#[test]
fn consumption_commits_pivots_as_a_prefix_and_records_dependent_rows() {
    let context = context();
    let mut database = PersistentParametricEliminationDatabase::try_new(
        &context,
        FAMILY,
        ordering(),
        PersistentParametricEliminationLimits::default(),
    )
    .unwrap();
    database
        .submit_prevalidated_rows(
            "first",
            vec![relation(0, "a"), relation(0, "b"), relation(2, "c")],
        )
        .unwrap();
    assert_eq!(database.pending_rows(), 3);
    let first = database.consume_next(&FirstShiftKernel).unwrap().unwrap();
    assert_eq!(
        first.outcome,
        PersistentParametricEliminationRowOutcome::Pivot { pivot_ordinal: 0 }
    );
    let second = database.consume_next(&FirstShiftKernel).unwrap().unwrap();
    assert_eq!(second.outcome, PersistentParametricEliminationRowOutcome::Dependent);
    assert_eq!(second.event_ordinal, 1);
    assert_eq!(second.source_ordinal, 1);
    assert_eq!(second.within_batch_ordinal, 1);
    let third = database.consume_next(&FirstShiftKernel).unwrap().unwrap();
    assert_eq!(
        third.outcome,
        PersistentParametricEliminationRowOutcome::Pivot { pivot_ordinal: 1 }
    );
    assert_eq!(database.consume_next(&FirstShiftKernel).unwrap(), None);
    let stats = database.stats();
    assert_eq!(stats.consumed_rows(), 3);
    assert_eq!(stats.dependent_rows(), 1);
    assert_eq!(stats.pivot_rows(), 2);
    assert_eq!(stats.rebuilds(), 3);
    assert_eq!(stats.cumulative_prefix_rebuild_rows(), 1 + 2 + 3);
    assert_eq!(database.elimination().unwrap().pivots.len(), 2);

    database
        .submit_prevalidated_rows("second", vec![relation(5, "d")])
        .unwrap();
    let fourth = database.consume_next(&FirstShiftKernel).unwrap().unwrap();
    assert_eq!(fourth.batch_ordinal, 1);
    assert_eq!(fourth.within_batch_ordinal, 0);
    let certificate = database.finish();
    assert_eq!(certificate.events().len(), 4);
    assert!(certificate.replay(&context, &FirstShiftKernel).is_ok());
}

#[test]
fn solve_until_skips_unselected_pivots_and_keeps_them_committed() {
    let context = context();
    let mut database = PersistentParametricEliminationDatabase::try_new(
        &context,
        FAMILY,
        ordering(),
        PersistentParametricEliminationLimits::default(),
    )
    .unwrap();
    database
        .submit_prevalidated_rows(
            "batch",
            vec![relation(1, "a"), relation(1, "b"), relation(3, "c"), relation(4, "d")],
        )
        .unwrap();
    let event = database
        .solve_until(&FirstShiftKernel, |pivot: &ParametricPivotEquation| pivot.pivot == vec![3])
        .unwrap()
        .unwrap();
    assert_eq!(event.source_ordinal, 2);
    assert_eq!(
        event.outcome,
        PersistentParametricEliminationRowOutcome::Pivot { pivot_ordinal: 1 }
    );
    assert_eq!(database.pending_rows(), 1);
    assert_eq!(
        database
            .solve_until(&FirstShiftKernel, |_pivot: &ParametricPivotEquation| false)
            .unwrap(),
        None
    );
    assert_eq!(database.pending_rows(), 0);
    assert_eq!(database.elimination().unwrap().pivots.len(), 3);
}

#[test]
fn submission_protocol_errors_leave_the_database_unchanged() {
    let context = context();
    let mut database = PersistentParametricEliminationDatabase::try_new(
        &context,
        FAMILY,
        ordering(),
        PersistentParametricEliminationLimits::default(),
    )
    .unwrap();
    assert_eq!(
        database.submit_prevalidated_rows("empty", Vec::new()),
        Err(PersistentParametricEliminationError::EmptyBatch)
    );
    let mut foreign = relation(0, "foreign");
    foreign.family_fingerprint = "other-family".to_owned();
    assert_eq!(
        database.submit_prevalidated_rows("foreign", vec![relation(1, "ok"), foreign]),
        Err(PersistentParametricEliminationError::WrongFamily { row: 1 })
    );
    assert_eq!(database.stats().submitted_rows(), 0);
    assert!(database.batches().is_empty());
    database
        .submit_prevalidated_rows("first", vec![relation(0, "a"), relation(1, "b")])
        .unwrap();
    assert_eq!(
        database.submit_prevalidated_rows("second", vec![relation(2, "c")]),
        Err(PersistentParametricEliminationError::PendingBatchNotConsumed { pending: 2 })
    );
    let stats = database.stats();
    assert_eq!(stats.submitted_batches(), 1);
    assert_eq!(stats.submitted_rows(), 2);
    assert_eq!(stats.retained_source_terms(), 2);
    assert_eq!(stats.retained_input_guards(), 2);
    assert_eq!(stats.retained_input_guard_origins(), 2);
    assert_eq!(stats.retained_input_columns(), 2);
    assert_eq!(stats.retained_source_manifest_bytes(), 2);
    assert_eq!(stats.retained_batch_label_bytes(), "first".len());
    assert_eq!(database.batches()[0].source_range(), 0..2);
}

#[test]
fn invalid_guards_coefficients_and_columns_are_typed() {
    let context = context();
    let limits = PersistentParametricEliminationLimits::default();
    let mut database =
        PersistentParametricEliminationDatabase::try_new(&context, FAMILY, ordering(), limits).unwrap();
    let mut zero_guard = relation(0, "z");
    zero_guard.guarded_nonzero_conditions[0].polynomial_is_zero = true;
    assert_eq!(
        database.submit_prevalidated_rows("guard", vec![zero_guard]),
        Err(PersistentParametricEliminationError::Elimination(
            ParametricEliminationError::InvalidSourceGuard { row: 0, condition: 0 }
        ))
    );
    let mut bad_coefficient = relation(0, "c");
    bad_coefficient.terms[0].coefficient_within_limits = false;
    assert_eq!(
        database.submit_prevalidated_rows("coefficient", vec![bad_coefficient]),
        Err(PersistentParametricEliminationError::Elimination(
            ParametricEliminationError::CoefficientOutOfLimits { row: 0 }
        ))
    );
    let mut wide = relation(0, "w");
    wide.terms[0].shift = vec![0, 0];
    assert_eq!(
        database.submit_prevalidated_rows("wide", vec![wide]),
        Err(PersistentParametricEliminationError::Elimination(
            ParametricEliminationError::ColumnArityMismatch { row: 0 }
        ))
    );
}

#[test]
fn batch_limits_fail_exactly_one_past_the_limit() {
    let context = context();
    let mut limits = PersistentParametricEliminationLimits::default();
    limits.max_rows_per_batch = 2;
    let mut database =
        PersistentParametricEliminationDatabase::try_new(&context, FAMILY, ordering(), limits).unwrap();
    assert_eq!(
        database.submit_prevalidated_rows(
            "three",
            vec![relation(0, "a"), relation(1, "b"), relation(2, "c")]
        ),
        Err(PersistentParametricEliminationError::ResourceLimit {
            resource: "persistent rows in one submitted batch",
            requested: 3,
            limit: 2,
        })
    );
    assert!(database
        .submit_prevalidated_rows("two", vec![relation(0, "a"), relation(1, "b")])
        .is_ok());
}

#[test]
fn a_failed_rebuild_interrupts_the_database() {
    let context = context();
    let mut database = PersistentParametricEliminationDatabase::try_new(
        &context,
        FAMILY,
        ordering(),
        PersistentParametricEliminationLimits::default(),
    )
    .unwrap();
    database
        .submit_prevalidated_rows("batch", vec![relation(0, "a")])
        .unwrap();
    assert!(matches!(
        database.consume_next(&FailingKernel),
        Err(PersistentParametricEliminationError::Elimination(_))
    ));
    assert_eq!(
        database.consume_next(&FirstShiftKernel),
        Err(PersistentParametricEliminationError::DatabaseInterrupted)
    );
    assert_eq!(database.stats().consumed_rows(), 0);
    let certificate = database.finish();
    assert!(certificate.interrupted());
    assert!(matches!(
        certificate.replay(&context, &FirstShiftKernel),
        Err(PersistentParametricEliminationError::ReplayMismatch { detail })
            if detail.contains("scope or completion state")
    ));
}

#[test]
fn database_arity_must_match_the_context() {
    let context = context();
    let result = PersistentParametricEliminationDatabase::try_new(
        &context,
        FAMILY,
        ParametricEliminationOrdering { anchor: vec![1, 1] },
        PersistentParametricEliminationLimits::default(),
    );
    assert!(matches!(
        result,
        Err(PersistentParametricEliminationError::WrongArity { expected: 1, actual: 2 })
    ));
}

#[test]
fn source_manifest_header_counts_decimal_digits() {
    assert_eq!(decimal_len(0), 1);
    assert_eq!(decimal_len(9), 1);
    assert_eq!(decimal_len(10), 2);
    assert_eq!(decimal_len(usize::MAX), usize::MAX.to_string().len());
    let schema = "rustred-parametric-source-manifest-v1".len();
    assert_eq!(prefix_source_manifest_bytes(12, 100).unwrap(), schema + 6 + 2 + 100);
    assert!(matches!(
        prefix_source_manifest_bytes(1, usize::MAX),
        Err(PersistentParametricEliminationError::ResourceCountOverflow { .. })
    ));
}

#[test]
fn a_coexisting_manifest_budget_is_refused_before_the_kernel_runs() {
    let context = context();
    let mut limits = PersistentParametricEliminationLimits::default();
    limits.max_coexisting_elimination_source_manifest_bytes = 20;
    let mut database =
        PersistentParametricEliminationDatabase::try_new(&context, FAMILY, ordering(), limits)
            .unwrap();
    database
        .submit_prevalidated_rows("batch", vec![relation(0, "a")])
        .unwrap();
    let header = "rustred-parametric-source-manifest-v1".len() + "|rows=".len() + 1;
    match database.consume_next(&FailingKernel) {
        Err(PersistentParametricEliminationError::ResourceLimit {
            resource,
            requested,
            limit,
        }) => {
            assert_eq!(resource, "persistent coexisting elimination source manifest bytes");
            assert!(requested > 2 * header);
            assert_eq!(limit, 20);
        }
        other => panic!("unexpected result {other:?}"),
    }
    assert_eq!(
        database.consume_next(&FirstShiftKernel),
        Err(PersistentParametricEliminationError::DatabaseInterrupted)
    );
    assert_eq!(database.stats().consumed_rows(), 0);
}

#[test]
fn a_cumulative_rebuild_row_budget_refuses_the_second_prefix() {
    let context = context();
    let mut limits = PersistentParametricEliminationLimits::default();
    limits.max_cumulative_prefix_rebuild_rows = 2;
    let mut database =
        PersistentParametricEliminationDatabase::try_new(&context, FAMILY, ordering(), limits)
            .unwrap();
    database
        .submit_prevalidated_rows("batch", vec![relation(0, "a"), relation(1, "b")])
        .unwrap();
    assert!(database.consume_next(&FirstShiftKernel).unwrap().is_some());
    assert_eq!(
        database.consume_next(&FirstShiftKernel),
        Err(PersistentParametricEliminationError::ResourceLimit {
            resource: "persistent cumulative prefix rebuild rows",
            requested: 3,
            limit: 2,
        })
    );
    assert_eq!(database.stats().consumed_rows(), 1);
}

#[test]
fn replay_refuses_a_cursor_without_its_events_and_a_too_small_clone_budget() {
    let (context, mut certificate) = pending_certificate();
    certificate.stats.consumed_rows = 1;
    assert_eq!(
        certificate.replay(&context, &FirstShiftKernel),
        Err(PersistentParametricEliminationError::ReplayMismatch {
            detail: "persistent event count differs from the consumed-row cursor",
        })
    );

    let (context, mut certificate) = pending_certificate();
    certificate.limits.max_replay_source_clone_rows = 1;
    assert_eq!(
        certificate.replay(&context, &FirstShiftKernel),
        Err(PersistentParametricEliminationError::ResourceLimit {
            resource: "persistent replay coexisting source clone rows",
            requested: 2,
            limit: 1,
        })
    );
}

#[test]
fn an_empty_certificate_replays() {
    let context = context();
    let database = PersistentParametricEliminationDatabase::try_new(
        &context,
        FAMILY,
        ordering(),
        PersistentParametricEliminationLimits::default(),
    )
    .unwrap();
    let certificate = database.finish();
    assert!(certificate.events().is_empty());
    assert_eq!(certificate.replay(&context, &FailingKernel), Ok(()));

    let (context, pending) = pending_certificate();
    assert_eq!(pending.replay(&context, &FailingKernel), Ok(()));
}
