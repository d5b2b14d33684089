use std::sync::Arc;

use rustred_cover::parametric_sector_formula_ir::{
    DirectBadFormulaClause, NormalizedBadClause, NormalizedBadClauseRole, NormalizedBadClauseSource,
    NormalizedBadFormulaBody, NormalizedBadLiteral, NormalizedBadLiteralPolarity,
    NormalizedCandidateBadFormula, NormalizedCoverageAttempt, NormalizedCoverageIr,
};
use rustred_cover::parametric_sector_mtbdd::{
    ParametricSectorMtbddDisposition, ParametricSectorMtbddLimits,
};
use rustred_cover::parametric_sector_mtbdd_certificate::{
    AuthenticatedNormalizedCoverage, ParametricSectorMtbddCoverageCertificate,
    ParametricSectorMtbddCoverageCompiler,
};
use rustred_cover::parametric_sector_residual_path::{
    ParametricSectorResidualPathCertificate, ParametricSectorResidualPathCursor,
    ParametricSectorResidualPathCursorStats, ParametricSectorResidualPathError,
    ParametricSectorResidualPathLimits, ParametricSectorResidualPathPolarity,
    ParametricSectorResidualPathRequest, ParametricSectorResidualPathStats,
    ParametricSectorResidualPathTerminalKind, PARAMETRIC_SECTOR_RESIDUAL_PATH_BRANCH_ORDER_V1,
    PARAMETRIC_SECTOR_RESIDUAL_PATH_CURSOR_V1_SCHEMA, PARAMETRIC_SECTOR_RESIDUAL_PATH_V1_SCHEMA,
};

fn equal_zero(locus: usize, source_ordinal: usize) -> NormalizedBadClause {
    NormalizedBadClause::new(
        DirectBadFormulaClause::Atom(NormalizedBadLiteral::new(
            locus,
            NormalizedBadLiteralPolarity::EqualZero,
        )),
        vec![NormalizedBadClauseSource::LeakEvent {
            event_ordinal: source_ordinal,
        }],
        NormalizedBadClauseRole::Ordinary,
    )
}

fn bad_when_any_vanishes(ordinal: usize, loci: &[usize]) -> NormalizedCoverageAttempt {
    NormalizedCoverageAttempt::Certified(NormalizedCandidateBadFormula::new(
        ordinal,
        NormalizedBadFormulaBody::Dnf {
            clauses: loci
                .iter()
                .enumerate()
                .map(|(event, locus)| equal_zero(*locus, event))
                .collect(),
            atomic_equal_zero_factors: Vec::new(),
        },
    ))
}

fn source_from(
    loci: Vec<u64>,
    attempts: Vec<NormalizedCoverageAttempt>,
) -> Arc<ParametricSectorMtbddCoverageCertificate> {
    let ir = NormalizedCoverageIr::try_new(loci.len(), attempts).unwrap();
    Arc::new(
        ParametricSectorMtbddCoverageCompiler::compile_from_source(
            Arc::new(AuthenticatedNormalizedCoverage {
                base_structural_loci: loci,
                ir,
            }),
            ParametricSectorMtbddLimits::default(),
        )
        .unwrap(),
    )
}

/// The active one-loop tadpole: its one candidate is bad exactly where the
/// single coverage polynomial vanishes, and nothing covers that locus.
fn one_loop_source() -> Arc<ParametricSectorMtbddCoverageCertificate> {
    source_from(vec![0xd2], vec![bad_when_any_vanishes(0, &[0])])
}

/// The same sector owned with no candidate attempt at all.
fn empty_owner_source() -> Arc<ParametricSectorMtbddCoverageCertificate> {
    source_from(Vec::new(), Vec::new())
}

/// The inactive one-loop sector, whose single candidate is unsupported.
fn unsupported_one_loop_source() -> Arc<ParametricSectorMtbddCoverageCertificate> {
    source_from(
        Vec::new(),
        vec![NormalizedCoverageAttempt::Unsupported {
            source_attempt_ordinal: 0,
        }],
    )
}

#[test]
fn owning_cursor_skips_descending_and_replays_exact_locus_path() {
    let source = one_loop_source();
    let mut cursor = ParametricSectorResidualPathCursor::try_new(
        Arc::clone(&source),
        ParametricSectorResidualPathRequest::AnyResidual,
        ParametricSectorResidualPathLimits::default(),
    )
    .unwrap();
    let path = cursor
        .next_path()
        .unwrap()
        .expect("the active tadpole has one exceptional residual locus");

    assert_eq!(cursor.schema(), PARAMETRIC_SECTOR_RESIDUAL_PATH_CURSOR_V1_SCHEMA);
    assert_eq!(
        cursor.branch_order_schema(),
        PARAMETRIC_SECTOR_RESIDUAL_PATH_BRANCH_ORDER_V1
    );
    assert_eq!(path.schema(), PARAMETRIC_SECTOR_RESIDUAL_PATH_V1_SCHEMA);
    assert_eq!(path.yield_ordinal(), 1);
    assert!(path.same_source_allocation(&source));
    assert_eq!(
        path.terminal_kind(),
        ParametricSectorResidualPathTerminalKind::Uncovered
    );
    assert_eq!(path.decisions().len(), 1);
    assert_eq!(
        path.decisions()[0].polarity(),
        ParametricSectorResidualPathPolarity::EqualZero
    );
    assert_eq!(path.decisions()[0].atom_ordinal(), 0);
    assert_eq!(path.decisions()[0].structural_locus_ordinal(), 0);
    assert!(path.structural_locus(0).is_some());
    assert!(matches!(
        path.terminal_disposition().unwrap(),
        ParametricSectorMtbddDisposition::Uncovered
    ));
    assert_eq!(cursor.stats().descending_terminals_skipped(), 1);
    assert_eq!(cursor.stats().reference_visits(), 3);
    assert_eq!(cursor.stats().node_visits(), 1);
    assert_eq!(cursor.stats().terminal_visits(), 2);
    assert_eq!(cursor.stats().branch_traversals(), 2);
    assert_eq!(cursor.stats().backtracks(), 1);
    assert_eq!(cursor.stats().maximum_depth(), 1);
    assert_eq!(cursor.stats().paths_yielded(), 1);
    assert_eq!(cursor.frontier(), path.decisions());
    assert_eq!(
        cursor.retained_bytes().unwrap(),
        cursor.stats().peak_cursor_retained_bytes()
    );

    path.replay().unwrap();
    let foreign = one_loop_source();
    assert!(!path.same_source_allocation(&foreign));

    assert!(cursor.next_path().unwrap().is_none());
    assert!(cursor.is_exhausted());
}

#[test]
fn root_residual_is_an_empty_path_and_kind_filter_is_lazy() {
    let source = empty_owner_source();
    let mut filtered_limits = ParametricSectorResidualPathLimits::default();
    filtered_limits.max_filtered_residual_terminals = 1;
    let mut filtered = ParametricSectorResidualPathCursor::try_new(
        Arc::clone(&source),
        ParametricSectorResidualPathRequest::Unsupported,
        filtered_limits,
    )
    .unwrap();
    assert!(filtered.next_path().unwrap().is_none());
    assert!(filtered.is_exhausted());
    assert_eq!(filtered.stats().reference_visits(), 1);
    assert_eq!(filtered.stats().terminal_visits(), 1);
    assert_eq!(filtered.stats().filtered_residual_terminals(), 1);
    assert_eq!(filtered.stats().maximum_depth(), 0);
    assert_eq!(filtered.stats().peak_frontier_capacity_entries(), 0);

    let mut one_below = filtered_limits;
    one_below.max_filtered_residual_terminals = 0;
    let mut rejected = ParametricSectorResidualPathCursor::try_new(
        Arc::clone(&source),
        ParametricSectorResidualPathRequest::Unsupported,
        one_below,
    )
    .unwrap();
    assert!(matches!(
        rejected.next_path(),
        Err(ParametricSectorResidualPathError::ResourceLimit {
            resource: "residual-path filtered residual terminals",
            requested: 1,
            limit: 0,
        })
    ));

    let mut cursor = ParametricSectorResidualPathCursor::try_new(
        Arc::clone(&source),
        ParametricSectorResidualPathRequest::Uncovered,
        ParametricSectorResidualPathLimits::default(),
    )
    .unwrap();
    let path = cursor.next_path().unwrap().unwrap();
    assert!(path.decisions().is_empty());
    assert_eq!(path.stats().decisions(), 0);
    assert_eq!(path.yield_ordinal(), 1);
    path.replay().unwrap();
}

#[test]
fn real_unsupported_terminal_preserves_ordered_references_and_exact_limit() {
    let source = unsupported_one_loop_source();
    let mut exact = ParametricSectorResidualPathLimits::default();
    exact.max_unsupported_candidate_references = 1;
    let mut cursor = ParametricSectorResidualPathCursor::try_new(
        Arc::clone(&source),
        ParametricSectorResidualPathRequest::Unsupported,
        exact,
    )
    .unwrap();
    let path = cursor.next_path().unwrap().unwrap();
    assert_eq!(path.yield_ordinal(), 1);
    assert_eq!(
        path.terminal_kind(),
        ParametricSectorResidualPathTerminalKind::Unsupported
    );
    assert!(path.decisions().is_empty());
    assert_eq!(path.stats().unsupported_candidate_references(), 1);
    assert!(matches!(
        path.terminal_disposition().unwrap(),
        ParametricSectorMtbddDisposition::Unsupported { candidate_ordinals }
            if candidate_ordinals.as_slice() == [0]
    ));
    path.replay().unwrap();

    let mut one_below = exact;
    one_below.max_unsupported_candidate_references = 0;
    let mut rejected = ParametricSectorResidualPathCursor::try_new(
        Arc::clone(&source),
        ParametricSectorResidualPathRequest::Unsupported,
        one_below,
    )
    .unwrap();
    assert!(matches!(
        rejected.next_path(),
        Err(ParametricSectorResidualPathError::ResourceLimit {
            resource: "residual-path unsupported candidate references",
            requested: 1,
            limit: 0,
        })
    ));
    assert!(rejected.is_poisoned());

    let mut recovered = ParametricSectorResidualPathCursor::try_new(
        Arc::clone(&source),
        ParametricSectorResidualPathRequest::Unsupported,
        exact,
    )
    .unwrap();
    assert!(recovered.next_path().unwrap().is_some());
}

fn exact_one_loop_limits(
    cursor: ParametricSectorResidualPathCursorStats,
    path: ParametricSectorResidualPathStats,
) -> ParametricSectorResidualPathLimits {
    ParametricSectorResidualPathLimits {
        max_reference_visits: cursor.reference_visits(),
        max_node_visits: cursor.node_visits(),
        max_terminal_visits: cursor.terminal_visits(),
        max_branch_traversals: cursor.branch_traversals(),
        max_backtracks: cursor.backtracks(),
        max_depth: cursor.maximum_depth(),
        max_frontier_capacity_entries: cursor.peak_frontier_capacity_entries(),
        max_cursor_retained_bytes: cursor.peak_cursor_retained_bytes(),
        max_descending_terminals_skipped: cursor.descending_terminals_skipped(),
        max_filtered_residual_terminals: 0,
        max_paths_yielded: cursor.paths_yielded(),
        max_total_path_decisions_copied: cursor.total_path_decisions_copied(),
        max_path_decisions: path.decisions(),
        max_path_retained_bytes: path.retained_path_bytes(),
        max_unsupported_candidate_references: 0,
    }
}

fn run_one_loop_path(
    source: &Arc<ParametricSectorMtbddCoverageCertificate>,
    limits: ParametricSectorResidualPathLimits,
) -> Result<ParametricSectorResidualPathCertificate, ParametricSectorResidualPathError> {
    let mut cursor = ParametricSectorResidualPathCursor::try_new(
        Arc::clone(source),
        ParametricSectorResidualPathRequest::AnyResidual,
        limits,
    )?;
    cursor
        .next_path()?
        .ok_or(ParametricSectorResidualPathError::PathReplayMismatch)
}

fn assert_one_below(
    source: &Arc<ParametricSectorMtbddCoverageCertificate>,
    exact: ParametricSectorResidualPathLimits,
    expected: usize,
    resource_name: &str,
    lower: impl Fn(&mut ParametricSectorResidualPathLimits, usize),
) {
    assert!(expected > 0);
    let mut limits = exact;
    lower(&mut limits, expected - 1);
    let error = match run_one_loop_path(source, limits) {
        Err(error) => error,
        Ok(_) => panic!("a limit one below the exact need must fail"),
    };
    assert!(matches!(
        error,
        ParametricSectorResidualPathError::ResourceLimit {
            resource,
            requested,
            limit,
        } if resource == resource_name
            && requested == expected
            && limit == expected - 1
    ));
    run_one_loop_path(source, exact).unwrap();
}

#[test]
fn exact_and_one_below_limits_are_typed_and_leave_source_reusable() {
    let source = one_loop_source();
    let mut baseline = ParametricSectorResidualPathCursor::try_new(
        Arc::clone(&source),
        ParametricSectorResidualPathRequest::AnyResidual,
        ParametricSectorResidualPathLimits::default(),
    )
    .unwrap();
    let baseline_path = baseline.next_path().unwrap().unwrap();
    let exact = exact_one_loop_limits(baseline.stats(), baseline_path.stats());
    let exact_path = run_one_loop_path(&source, exact).unwrap();
    exact_path.replay().unwrap();
    assert_eq!(exact_path.stats(), baseline_path.stats());

    let stats = baseline.stats();
    assert_one_below(&source, exact, stats.reference_visits(), "residual-path reference visits", |l, v| {
        l.max_reference_visits = v
    });
    assert_one_below(&source, exact, stats.node_visits(), "residual-path node visits", |l, v| {
        l.max_node_visits = v
    });
    assert_one_below(&source, exact, stats.terminal_visits(), "residual-path terminal visits", |l, v| {
        l.max_terminal_visits = v
    });
    assert_one_below(&source, exact, stats.branch_traversals(), "residual-path branch traversals", |l, v| {
        l.max_branch_traversals = v
    });
    assert_one_below(&source, exact, stats.backtracks(), "residual-path backtracks", |l, v| {
        l.max_backtracks = v
    });
    assert_one_below(&source, exact, stats.maximum_depth(), "residual-path depth", |l, v| {
        l.max_depth = v
    });
    assert_one_below(
        &source,
        exact,
        stats.peak_frontier_capacity_entries(),
        "residual-path frontier capacity entries",
        |l, v| l.max_frontier_capacity_entries = v,
    );
    assert_one_below(
        &source,
        exact,
        stats.peak_cursor_retained_bytes(),
        "residual-path cursor retained bytes",
        |l, v| l.max_cursor_retained_bytes = v,
    );
    assert_one_below(
        &source,
        exact,
        stats.descending_terminals_skipped(),
        "residual-path descending terminals skipped",
        |l, v| l.max_descending_terminals_skipped = v,
    );
    assert_one_below(&source, exact, stats.paths_yielded(), "residual paths yielded", |l, v| {
        l.max_paths_yielded = v
    });
    assert_one_below(
        &source,
        exact,
        stats.total_path_decisions_copied(),
        "residual-path total decisions copied",
        |l, v| l.max_total_path_decisions_copied = v,
    );
    assert_one_below(
        &source,
        exact,
        baseline_path.stats().decisions(),
        "residual-path retained decisions",
        |l, v| l.max_path_decisions = v,
    );
    assert_one_below(
        &source,
        exact,
        baseline_path.stats().retained_path_bytes(),
        "residual-path retained bytes",
        |l, v| l.max_path_retained_bytes = v,
    );

    let mut poisoned_limits = exact;
    poisoned_limits.max_depth = 0;
    let mut poisoned = ParametricSectorResidualPathCursor::try_new(
        Arc::clone(&source),
        ParametricSectorResidualPathRequest::AnyResidual,
        poisoned_limits,
    )
    .unwrap();
    assert!(matches!(
        poisoned.next_path(),
        Err(ParametricSectorResidualPathError::ResourceLimit {
            resource: "residual-path depth",
            requested: 1,
            limit: 0,
        })
    ));
    assert!(poisoned.is_poisoned());
    assert!(poisoned.same_source_allocation(&source));
    assert!(matches!(
        poisoned.next_path(),
        Err(ParametricSectorResidualPathError::CursorPoisoned)
    ));
    run_one_loop_path(&source, exact).unwrap();
}

/// Locus 0 or locus 1 vanishing makes candidate 0 bad; locus 2 vanishing
/// makes candidate 1 bad.  The node testing locus 2 is reached both below
/// "locus 0 nonzero, locus 1 zero" and below "locus 0 zero".
fn shared_suffix_source() -> Arc<ParametricSectorMtbddCoverageCertificate> {
    source_from(
        vec![10, 11, 12],
        vec![
            bad_when_any_vanishes(0, &[0, 1]),
            bad_when_any_vanishes(1, &[2]),
        ],
    )
}

fn path_assignment(path: &ParametricSectorResidualPathCertificate, loci: usize) -> Vec<bool> {
    let mut zero = vec![false; loci];
    for decision in path.decisions() {
        zero[decision.structural_locus_ordinal()] =
            decision.polarity() == ParametricSectorResidualPathPolarity::EqualZero;
    }
    zero
}

#[test]
fn shared_suffix_is_yielded_below_each_prefix_in_nonzero_first_order() {
    let source = shared_suffix_source();
    let mut cursor = ParametricSectorResidualPathCursor::try_new(
        Arc::clone(&source),
        ParametricSectorResidualPathRequest::AnyResidual,
        ParametricSectorResidualPathLimits::default(),
    )
    .unwrap();
    let first = cursor.next_path().unwrap().unwrap();
    let second = cursor.next_path().unwrap().unwrap();
    assert!(cursor.next_path().unwrap().is_none());
    assert!(cursor.is_exhausted());

    let polarities = |path: &ParametricSectorResidualPathCertificate| {
        path.decisions()
            .iter()
            .map(|d| (d.structural_locus_ordinal(), d.polarity()))
            .collect::<Vec<_>>()
    };
    let nonzero = ParametricSectorResidualPathPolarity::NonZero;
    let equal_zero = ParametricSectorResidualPathPolarity::EqualZero;
    assert_eq!(polarities(&first), vec![(0, nonzero), (1, equal_zero), (2, equal_zero)]);
    assert_eq!(polarities(&second), vec![(0, equal_zero), (2, equal_zero)]);
    assert_eq!(&first.decisions()[2..], &second.decisions()[1..]);
    assert_eq!(first.terminal_ordinal(), second.terminal_ordinal());
    assert_eq!(first.yield_ordinal(), 1);
    assert_eq!(second.yield_ordinal(), 2);
    assert_eq!(cursor.stats().descending_terminals_skipped(), 3);
    assert_eq!(cursor.stats().paths_yielded(), 2);
    first.replay().unwrap();
    second.replay().unwrap();

    // Every yielded path classifies, through the decision function, to the
    // disposition of the terminal it ends in.
    for path in [&first, &second] {
        let zero = path_assignment(path, 3);
        assert_eq!(
            source.classify_assignment(&zero).unwrap(),
            path.terminal_disposition().unwrap()
        );
    }
}

#[test]
fn request_filter_yields_only_the_requested_kind() {
    let source = source_from(
        vec![7],
        vec![
            bad_when_any_vanishes(0, &[0]),
            NormalizedCoverageAttempt::Unsupported {
                source_attempt_ordinal: 1,
            },
        ],
    );
    let mut uncovered = ParametricSectorResidualPathCursor::try_new(
        Arc::clone(&source),
        ParametricSectorResidualPathRequest::Uncovered,
        ParametricSectorResidualPathLimits::default(),
    )
    .unwrap();
    assert!(uncovered.next_path().unwrap().is_none());
    assert_eq!(uncovered.stats().filtered_residual_terminals(), 1);

    let mut unsupported = ParametricSectorResidualPathCursor::try_new(
        Arc::clone(&source),
        ParametricSectorResidualPathRequest::Unsupported,
        ParametricSectorResidualPathLimits::default(),
    )
    .unwrap();
    let path = unsupported.next_path().unwrap().unwrap();
    assert_eq!(
        path.terminal_kind(),
        ParametricSectorResidualPathTerminalKind::Unsupported
    );
    assert!(matches!(
        path.terminal_disposition().unwrap(),
        ParametricSectorMtbddDisposition::Unsupported { candidate_ordinals }
            if candidate_ordinals.as_slice() == [1]
    ));
    assert_eq!(path.stats().equal_zero_decisions(), 1);
    assert_eq!(path.stats().nonzero_decisions(), 0);
    assert!(unsupported.next_path().unwrap().is_none());
}
