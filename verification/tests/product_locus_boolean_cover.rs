use rustred_cover::product_locus_boolean_cover::{
    build_dpll_cover, canonicalize_clauses, insert_unique_atom, product_predicate_atoms,
    resolve_base_field_predicate, simplification_scratch_bytes, state_bytes,
    BaseFieldPredicateResolution, BooleanState, ResidualProductLocusBooleanCoverError,
    ResidualProductLocusBooleanCoverLimits, ResidualProductLocusBooleanCoverStats,
    ResidualProductLocusBooleanEmptyReason, ResidualProductLocusBooleanNode,
    ResidualProductLocusBooleanNodeOutcome, ResidualProductLocusBooleanPolarity,
    SymbolicPolynomialPredicateKind,
};
use rustred_cover::sector_mask::SectorMask;

fn synthetic(
    clauses: &[&[usize]],
    nonzero: &[usize],
    coordinates: &[(usize, Option<(usize, i64)>)],
) -> (
    Vec<ResidualProductLocusBooleanNode>,
    ResidualProductLocusBooleanCoverStats,
) {
    let mut stats = ResidualProductLocusBooleanCoverStats::default();
    let clauses = canonicalize_clauses(
        clauses.iter().map(|clause| clause.to_vec()).collect(),
        &mut stats,
        ResidualProductLocusBooleanCoverLimits::default(),
    )
    .unwrap();
    let mut nonzero = nonzero.to_vec();
    nonzero.sort_unstable();
    nonzero.dedup();
    let state = BooleanState {
        parent_ordinal: None,
        decision_from_parent: None,
        depth: 0,
        zero: Vec::new(),
        nonzero,
        clauses,
    };
    let sector = SectorMask::try_from_bit_string("11").unwrap();
    let nodes = build_dpll_cover(
        state,
        &sector,
        coordinates,
        &mut stats,
        ResidualProductLocusBooleanCoverLimits::default(),
    )
    .unwrap();
    (nodes, stats)
}

fn unit_state() -> BooleanState {
    BooleanState {
        parent_ordinal: None,
        decision_from_parent: None,
        depth: 0,
        zero: Vec::new(),
        nonzero: Vec::new(),
        clauses: vec![vec![1]],
    }
}

#[test]
fn canonical_cnf_and_zero_first_dpll_are_disjoint_and_complete() {
    // (a or b) and (b or c); duplicate/superset clauses are redundant.
    let (nodes, stats) = synthetic(
        &[&[2, 1], &[1, 2], &[1, 2, 3], &[2, 3]],
        &[],
        &[(1, None), (2, None), (3, None)],
    );
    assert!(stats.duplicate_literals_removed() == 0);
    assert!(stats.duplicate_or_subsumed_clauses_removed() >= 2);
    let terminals: Vec<_> = nodes
        .iter()
        .filter(|node| {
            matches!(
                node.outcome(),
                ResidualProductLocusBooleanNodeOutcome::ReadyForAffineRecognition
            )
        })
        .collect();
    for mask in 0u8..8 {
        let formula = ((mask & 1 != 0) || (mask & 2 != 0)) && ((mask & 2 != 0) || (mask & 4 != 0));
        let matches = terminals
            .iter()
            .filter(|node| {
                node.equal_zero_atoms()
                    .iter()
                    .all(|&a| mask & (1 << (a - 1)) != 0)
                    && node
                        .nonzero_atoms()
                        .iter()
                        .all(|&a| mask & (1 << (a - 1)) == 0)
            })
            .count();
        assert_eq!(matches, usize::from(formula), "assignment {mask:03b}");
    }
    let first_branch = nodes
        .iter()
        .find_map(|node| match node.outcome() {
            ResidualProductLocusBooleanNodeOutcome::Branched { atom_locus_ordinal } => {
                Some(*atom_locus_ordinal)
            }
            _ => None,
        })
        .unwrap();
    assert_eq!(first_branch, 1);
}

#[test]
fn base_units_and_product_nonzero_atoms_have_exact_truth_semantics() {
    assert_eq!(
        resolve_base_field_predicate(SymbolicPolynomialPredicateKind::EqualZero, true),
        BaseFieldPredicateResolution::Discharge
    );
    assert_eq!(
        resolve_base_field_predicate(SymbolicPolynomialPredicateKind::NonZero, false),
        BaseFieldPredicateResolution::Discharge
    );
    assert_eq!(
        resolve_base_field_predicate(SymbolicPolynomialPredicateKind::EqualZero, false),
        BaseFieldPredicateResolution::Contradiction
    );
    assert_eq!(
        resolve_base_field_predicate(SymbolicPolynomialPredicateKind::NonZero, true),
        BaseFieldPredicateResolution::Contradiction
    );

    let product = 9usize;
    let factors = [2usize, 5usize];
    assert_eq!(product_predicate_atoms(&product, Some(&factors)), factors);
    assert_eq!(product_predicate_atoms(&product, None), [product]);
    let (nodes, _) = synthetic(&[], &factors, &[(2, None), (5, None)]);
    let ready: Vec<_> = nodes
        .iter()
        .filter(|node| {
            matches!(
                node.outcome(),
                ResidualProductLocusBooleanNodeOutcome::ReadyForAffineRecognition
            )
        })
        .collect();
    assert_eq!(ready.len(), 1);
    assert_eq!(ready[0].nonzero_atoms(), factors);
    assert!(ready[0].equal_zero_atoms().is_empty());
}

#[test]
fn dpll_nodes_retain_complete_ancestry_decisions_and_propagations() {
    let (nodes, _) = synthetic(&[&[1, 2], &[2, 3]], &[], &[(1, None), (2, None), (3, None)]);
    assert!(!nodes.is_empty());
    for (ordinal, node) in nodes.iter().enumerate() {
        assert_eq!(node.ordinal(), ordinal);
        match (node.parent_ordinal(), node.decision_from_parent()) {
            (None, None) => assert_eq!(ordinal, 0),
            (Some(parent), Some(decision)) => {
                assert!(parent < ordinal);
                assert_eq!(node.depth(), nodes[parent].depth() + 1);
                match decision.polarity() {
                    ResidualProductLocusBooleanPolarity::EqualZero => assert!(node
                        .equal_zero_atoms()
                        .binary_search(&decision.atom_locus_ordinal())
                        .is_ok()),
                    ResidualProductLocusBooleanPolarity::NonZero => assert!(node
                        .nonzero_atoms()
                        .binary_search(&decision.atom_locus_ordinal())
                        .is_ok()),
                }
            }
            _ => panic!("parent and incoming decision must be retained together"),
        }
        assert!(node
            .propagated_zero_atoms()
            .windows(2)
            .all(|pair| pair[0] != pair[1]));
        assert!(node
            .propagated_zero_atoms()
            .iter()
            .all(|atom| node.equal_zero_atoms().binary_search(atom).is_ok()));
    }
    assert!(nodes
        .iter()
        .any(|node| !node.propagated_zero_atoms().is_empty()));
    for node in &nodes {
        if let ResidualProductLocusBooleanNodeOutcome::Branched { atom_locus_ordinal } =
            node.outcome()
        {
            let children: Vec<_> = nodes
                .iter()
                .filter(|candidate| candidate.parent_ordinal() == Some(node.ordinal()))
                .collect();
            assert_eq!(children.len(), 2);
            let mut polarities: Vec<_> = children
                .iter()
                .map(|child| child.decision_from_parent().unwrap())
                .collect();
            polarities.sort_by_key(|decision| match decision.polarity() {
                ResidualProductLocusBooleanPolarity::EqualZero => 0,
                ResidualProductLocusBooleanPolarity::NonZero => 1,
            });
            assert_eq!(polarities[0].atom_locus_ordinal(), *atom_locus_ordinal);
            assert_eq!(polarities[1].atom_locus_ordinal(), *atom_locus_ordinal);
            assert_eq!(
                polarities[0].polarity(),
                ResidualProductLocusBooleanPolarity::EqualZero
            );
            assert_eq!(
                polarities[1].polarity(),
                ResidualProductLocusBooleanPolarity::NonZero
            );
        }
    }
}

#[test]
fn propagation_and_coordinate_pruning_have_typed_empty_outcomes() {
    let (nodes, _) = synthetic(&[&[1], &[2]], &[], &[(1, Some((0, 1))), (2, Some((0, 2)))]);
    assert!(matches!(
        nodes.last().unwrap().outcome(),
        ResidualProductLocusBooleanNodeOutcome::ProvedEmpty(
            ResidualProductLocusBooleanEmptyReason::ConflictingCoordinateEqualities { .. }
        )
    ));

    let (nodes, _) = synthetic(&[&[1]], &[], &[(1, Some((0, 0)))]);
    assert!(matches!(
        nodes[0].outcome(),
        ResidualProductLocusBooleanNodeOutcome::ProvedEmpty(
            ResidualProductLocusBooleanEmptyReason::OrthantViolation { .. }
        )
    ));
}

#[test]
fn prospective_node_budget_fails_before_child_clones() {
    let mut limits = ResidualProductLocusBooleanCoverLimits::default();
    limits.max_dpll_nodes = 2;
    let mut stats = ResidualProductLocusBooleanCoverStats::default();
    let state = BooleanState {
        parent_ordinal: None,
        decision_from_parent: None,
        depth: 0,
        zero: Vec::new(),
        nonzero: Vec::new(),
        clauses: vec![vec![1, 2]],
    };
    assert!(matches!(
        build_dpll_cover(
            state,
            &SectorMask::try_from_bit_string("11").unwrap(),
            &[(1, None), (2, None)],
            &mut stats,
            limits,
        ),
        Err(ResidualProductLocusBooleanCoverError::ResourceLimit {
            resource: "DPLL nodes",
            requested: 3,
            limit: 2,
        })
    ));
}

#[test]
fn repaired_atom_retention_and_simplification_limits_fail_one_below() {
    let mut atoms = Vec::new();
    let mut stats = ResidualProductLocusBooleanCoverStats::default();
    let mut atom_limits = ResidualProductLocusBooleanCoverLimits::default();
    atom_limits.max_atoms = 0;
    assert!(matches!(
        insert_unique_atom(&mut atoms, 7, &mut stats, atom_limits),
        Err(ResidualProductLocusBooleanCoverError::ResourceLimit {
            resource: "Boolean atoms",
            requested: 1,
            limit: 0,
        })
    ));
    assert!(atoms.is_empty());

    insert_unique_atom(
        &mut atoms,
        7,
        &mut stats,
        ResidualProductLocusBooleanCoverLimits::default(),
    )
    .unwrap();
    let mut comparison_limits = ResidualProductLocusBooleanCoverLimits::default();
    comparison_limits.max_atom_lookup_comparisons = 0;
    assert!(matches!(
        insert_unique_atom(&mut atoms, 7, &mut stats, comparison_limits),
        Err(ResidualProductLocusBooleanCoverError::ResourceLimit {
            resource: "Boolean atom lookup comparisons",
            requested: 1,
            limit: 0,
        })
    ));

    let sector = SectorMask::try_from_bit_string("1").unwrap();

    let retained_cases: [(&'static str, fn(&mut ResidualProductLocusBooleanCoverLimits)); 3] = [
        (
            "retained path facts",
            |limits: &mut ResidualProductLocusBooleanCoverLimits| limits.max_path_facts = 0,
        ),
        (
            "retained node clauses",
            |limits: &mut ResidualProductLocusBooleanCoverLimits| {
                limits.max_retained_node_clauses = 0
            },
        ),
        (
            "retained node literals",
            |limits: &mut ResidualProductLocusBooleanCoverLimits| {
                limits.max_retained_node_literals = 0
            },
        ),
    ];
    for (resource, mutate) in retained_cases {
        let mut limits = ResidualProductLocusBooleanCoverLimits::default();
        mutate(&mut limits);
        let mut stats = ResidualProductLocusBooleanCoverStats::default();
        assert!(matches!(
            build_dpll_cover(unit_state(), &sector, &[(1, None)], &mut stats, limits),
            Err(ResidualProductLocusBooleanCoverError::ResourceLimit {
                resource: actual,
                ..
            }) if actual == resource
        ));
        assert_eq!(stats.propagations(), 0);
    }

    let bytes = state_bytes(&unit_state()).unwrap();
    let mut byte_limits = ResidualProductLocusBooleanCoverLimits::default();
    byte_limits.max_retained_state_bytes = bytes - 1;
    let mut stats = ResidualProductLocusBooleanCoverStats::default();
    assert!(matches!(
        build_dpll_cover(unit_state(), &sector, &[], &mut stats, byte_limits),
        Err(ResidualProductLocusBooleanCoverError::ResourceLimit {
            resource: "retained DPLL state bytes",
            ..
        })
    ));

    let scratch = simplification_scratch_bytes(&unit_state(), 1).unwrap();
    let mut scratch_limits = ResidualProductLocusBooleanCoverLimits::default();
    scratch_limits.max_peak_simplification_scratch_bytes = scratch - 1;
    let mut stats = ResidualProductLocusBooleanCoverStats::default();
    assert!(matches!(
        build_dpll_cover(unit_state(), &sector, &[(1, None)], &mut stats, scratch_limits),
        Err(ResidualProductLocusBooleanCoverError::ResourceLimit {
            resource: "peak DPLL simplification scratch bytes",
            requested,
            limit,
        }) if requested == scratch && limit + 1 == scratch
    ));

    let mut propagation_limits = ResidualProductLocusBooleanCoverLimits::default();
    propagation_limits.max_retained_propagation_entries = 0;
    let mut stats = ResidualProductLocusBooleanCoverStats::default();
    assert!(matches!(
        build_dpll_cover(unit_state(), &sector, &[(1, None)], &mut stats, propagation_limits),
        Err(ResidualProductLocusBooleanCoverError::ResourceLimit {
            resource: "retained DPLL propagation entries",
            requested: 1,
            limit: 0,
        })
    ));
}

#[test]
fn initial_frontier_and_state_shape_are_rejected_at_zero_before_push_or_clone() {
    let sector = SectorMask::try_from_bit_string("1").unwrap();

    let mut frontier_limits = ResidualProductLocusBooleanCoverLimits::default();
    frontier_limits.max_frontier_states = 0;
    let mut stats = ResidualProductLocusBooleanCoverStats::default();
    assert!(matches!(
        build_dpll_cover(unit_state(), &sector, &[(1, None)], &mut stats, frontier_limits),
        Err(ResidualProductLocusBooleanCoverError::ResourceLimit {
            resource: "DPLL frontier states",
            requested: 1,
            limit: 0,
        })
    ));
    assert_eq!(stats, ResidualProductLocusBooleanCoverStats::default());

    let mut clause_limits = ResidualProductLocusBooleanCoverLimits::default();
    clause_limits.max_clauses_per_state = 0;
    let mut stats = ResidualProductLocusBooleanCoverStats::default();
    assert!(matches!(
        build_dpll_cover(unit_state(), &sector, &[(1, None)], &mut stats, clause_limits),
        Err(ResidualProductLocusBooleanCoverError::ResourceLimit {
            resource: "clauses per DPLL state",
            requested: 1,
            limit: 0,
        })
    ));
    assert_eq!(stats, ResidualProductLocusBooleanCoverStats::default());

    let mut literal_limits = ResidualProductLocusBooleanCoverLimits::default();
    literal_limits.max_literals_per_state = 0;
    let mut stats = ResidualProductLocusBooleanCoverStats::default();
    assert!(matches!(
        build_dpll_cover(unit_state(), &sector, &[(1, None)], &mut stats, literal_limits),
        Err(ResidualProductLocusBooleanCoverError::ResourceLimit {
            resource: "literals per DPLL state",
            requested: 1,
            limit: 0,
        })
    ));
    assert_eq!(stats, ResidualProductLocusBooleanCoverStats::default());
}

#[test]
fn exhausted_clause_witness_retention_is_aggregately_bounded() {
    let state = BooleanState {
        parent_ordinal: None,
        decision_from_parent: None,
        depth: 0,
        zero: Vec::new(),
        nonzero: vec![1],
        clauses: vec![vec![1]],
    };
    let sector = SectorMask::try_from_bit_string("1").unwrap();
    let mut limits = ResidualProductLocusBooleanCoverLimits::default();
    limits.max_retained_empty_reason_ordinals = 0;
    let mut stats = ResidualProductLocusBooleanCoverStats::default();
    assert!(matches!(
        build_dpll_cover(state, &sector, &[(1, None)], &mut stats, limits),
        Err(ResidualProductLocusBooleanCoverError::ResourceLimit {
            resource: "retained empty-reason ordinals",
            requested: 1,
            limit: 0,
        })
    ));
    assert_eq!(stats.retained_empty_reason_ordinals(), 0);
}


use rustred_cover::live_leaf_queue::{
    CoordinateEqualityLocusCertificate, GeneratedSectorLiveLeafQueueCertificate, LiveLeafWorkItem,
    ProductZeroDecomposition, StructuralLocus, SymbolicSectorCase, SymbolicSectorPredicate,
};
use rustred_cover::parametric_elimination::ParametricCoefficientContext;
use rustred_cover::product_locus_boolean_cover::{
    compile_replayed, ResidualProductLocusBooleanCoverCertificate,
    ResidualProductLocusBooleanCoverCompiler,
};
use std::sync::Arc;

const SUNSET_FAMILY: &str = "boolean-product-locus-unit-tamper";

/// The sunset leaf: the product locus `(n1 - 1)(n3 - 1)` with its two
/// coordinate factors, and the index-free mass `m2`.
fn sunset_queue() -> GeneratedSectorLiveLeafQueueCertificate {
    let locus = |polynomial: u64, depends: bool, coordinate: Option<(usize, i64)>| StructuralLocus {
        polynomial,
        depends_on_indices: depends,
        is_zero: false,
        term_count: if depends { 2 } else { 1 },
        coordinate,
    };
    GeneratedSectorLiveLeafQueueCertificate {
        family_fingerprint: SUNSET_FAMILY.to_owned(),
        context_fingerprint: "sunset-kn".to_owned(),
        sector: SectorMask::try_from_bit_string("111").unwrap(),
        discovery_sector: SectorMask::try_from_bit_string("111").unwrap(),
        cases: vec![
            SymbolicSectorCase {
                id: 0,
                predicates: vec![
                    SymbolicSectorPredicate {
                        kind: SymbolicPolynomialPredicateKind::EqualZero,
                        polynomial: 100,
                    },
                    SymbolicSectorPredicate {
                        kind: SymbolicPolynomialPredicateKind::NonZero,
                        polynomial: 400,
                    },
                ],
            },
            SymbolicSectorCase {
                id: 1,
                predicates: vec![SymbolicSectorPredicate {
                    kind: SymbolicPolynomialPredicateKind::NonZero,
                    polynomial: 100,
                }],
            },
        ],
        structural_loci: vec![
            locus(100, true, None),
            locus(200, true, Some((0, 1))),
            locus(300, true, Some((2, 1))),
            locus(400, false, None),
        ],
        product_zero_decompositions: vec![ProductZeroDecomposition {
            product_locus_ordinal: 0,
            factor_locus_ordinals: vec![1, 2],
        }],
        work_items: vec![
            LiveLeafWorkItem {
                ordinal: 0,
                source_case: 0,
                extraction: Arc::new(CoordinateEqualityLocusCertificate {
                    source_case: 0,
                    partition_matches_coverage: true,
                }),
            },
            LiveLeafWorkItem {
                ordinal: 1,
                source_case: 1,
                extraction: Arc::new(CoordinateEqualityLocusCertificate {
                    source_case: 1,
                    partition_matches_coverage: true,
                }),
            },
        ],
        source_identity_bytes: 64,
    }
}

fn generated_sunset_cover() -> (
    &'static str,
    ParametricCoefficientContext,
    ResidualProductLocusBooleanCoverCertificate,
) {
    let context = ParametricCoefficientContext {
        fingerprint: "sunset-kn".to_owned(),
        index_count: 3,
    };
    let queue = Arc::new(sunset_queue());
    let cover = ResidualProductLocusBooleanCoverCompiler::compile(
        SUNSET_FAMILY,
        &context,
        queue,
        0,
        ResidualProductLocusBooleanCoverLimits::default(),
    )
    .unwrap();
    (SUNSET_FAMILY, context, cover)
}

#[test]
fn certificate_replay_rejects_root_node_stats_and_source_tampering() {
    let (family, context, cover) = generated_sunset_cover();
    cover.replay(family, &context).unwrap();
    assert!(cover.payload_eq(&cover.clone()));

    let mut coordinate_limits = ResidualProductLocusBooleanCoverLimits::default();
    coordinate_limits.max_coordinate_recognition_checks = 0;
    assert!(matches!(
        compile_replayed(family, &context, cover.source_queue().clone(), 0, coordinate_limits),
        Err(ResidualProductLocusBooleanCoverError::ResourceLimit {
            resource: "coordinate recognition checks",
            ..
        })
    ));

    let mut initial_bytes_limits = ResidualProductLocusBooleanCoverLimits::default();
    initial_bytes_limits.max_retained_state_bytes = 0;
    assert!(matches!(
        compile_replayed(family, &context, cover.source_queue().clone(), 0, initial_bytes_limits),
        Err(ResidualProductLocusBooleanCoverError::ResourceLimit {
            resource: "retained DPLL state bytes",
            ..
        })
    ));

    let mut root = cover.clone();
    if let Some(first) = root.root_clauses.first_mut().and_then(|clause| clause.first_mut()) {
        *first = usize::MAX;
    }
    assert!(matches!(
        root.replay(family, &context),
        Err(ResidualProductLocusBooleanCoverError::ReplayMismatch)
    ));

    let mut node = cover.clone();
    if let Some(first) = node.nodes.iter_mut().find_map(|node| {
        if node.equal_zero_atoms.is_empty() {
            node.nonzero_atoms.first_mut()
        } else {
            node.equal_zero_atoms.first_mut()
        }
    }) {
        *first = usize::MAX;
    }
    assert!(matches!(
        node.replay(family, &context),
        Err(ResidualProductLocusBooleanCoverError::ReplayMismatch)
    ));

    let mut stats = cover.clone();
    stats.stats.dpll_nodes = stats.stats.dpll_nodes.saturating_add(1);
    assert!(matches!(
        stats.replay(family, &context),
        Err(ResidualProductLocusBooleanCoverError::ReplayMismatch)
    ));

    let mut source_ordinal = cover.clone();
    let mut source = cover;
    let alternative_case = source
        .source_queue()
        .cases
        .iter()
        .find(|case| case.id != source.source_case())
        .unwrap()
        .id;
    source.source_extraction = Arc::new(CoordinateEqualityLocusCertificate {
        source_case: alternative_case,
        partition_matches_coverage: true,
    });
    assert!(matches!(
        source.replay(family, &context),
        Err(ResidualProductLocusBooleanCoverError::ReplayMismatch)
    ));

    source_ordinal.source_work_item_ordinal = usize::MAX;
    assert!(matches!(
        source_ordinal.replay(family, &context),
        Err(ResidualProductLocusBooleanCoverError::WorkItemNotFound { .. })
    ));
}

#[test]
fn checked_payload_comparison_is_exact_bounded_and_detects_late_local_difference() {
    let (family, context, baseline) = generated_sunset_cover();
    let observed = baseline.stats();
    assert!(observed.payload_comparison_units() > 0);
    assert!(observed.payload_comparison_bytes() > 0);

    let mut exact_limits = baseline.limits();
    exact_limits.max_payload_comparison_units = observed.payload_comparison_units();
    exact_limits.max_payload_comparison_bytes = observed.payload_comparison_bytes();
    let exact = compile_replayed(
        family,
        &context,
        baseline.source_queue().clone(),
        baseline.source_work_item_ordinal(),
        exact_limits,
    )
    .unwrap();
    let independently_compiled_top_level = compile_replayed(
        family,
        &context,
        baseline.source_queue().clone(),
        baseline.source_work_item_ordinal(),
        exact_limits,
    )
    .unwrap();
    assert!(!std::ptr::eq(&exact, &independently_compiled_top_level));
    assert!(Arc::ptr_eq(
        exact.source_queue(),
        independently_compiled_top_level.source_queue()
    ));
    assert!(Arc::ptr_eq(
        exact.source_extraction(),
        independently_compiled_top_level.source_extraction()
    ));
    assert!(exact
        .payload_eq_checked(&independently_compiled_top_level)
        .unwrap());

    let mut late_difference = independently_compiled_top_level.clone();
    late_difference.stats.dpll_nodes = late_difference.stats.dpll_nodes.saturating_add(1);
    assert!(!exact.payload_eq_checked(&late_difference).unwrap());

    let mut unit_limited = exact.clone();
    unit_limited.limits.max_payload_comparison_units =
        exact.stats().payload_comparison_units() - 1;
    assert!(matches!(
        unit_limited.payload_eq_checked(&independently_compiled_top_level),
        Err(ResidualProductLocusBooleanCoverError::ResourceLimit {
            resource: "payload comparison units",
            requested,
            limit,
        }) if requested == exact.stats().payload_comparison_units()
            && limit + 1 == requested
    ));

    let mut byte_limited = exact.clone();
    byte_limited.limits.max_payload_comparison_bytes =
        exact.stats().payload_comparison_bytes() - 1;
    assert!(matches!(
        byte_limited.payload_eq_checked(&independently_compiled_top_level),
        Err(ResidualProductLocusBooleanCoverError::ResourceLimit {
            resource: "payload comparison bytes",
            requested,
            limit,
        }) if requested == exact.stats().payload_comparison_bytes()
            && limit + 1 == requested
    ));
}

#[test]
fn checked_payload_comparison_fails_typed_at_distinct_nested_v1_allocations() {
    let (_, _, cover) = generated_sunset_cover();

    let mut distinct_queue = cover.clone();
    distinct_queue.source_queue = Arc::new(cover.source_queue.as_ref().clone());
    assert!(matches!(
        cover.payload_eq_checked(&distinct_queue),
        Err(
            ResidualProductLocusBooleanCoverError::IndependentNestedPayloadComparisonUnsupported {
                component: "source queue",
            }
        )
    ));

    let mut distinct_extraction = cover.clone();
    distinct_extraction.source_extraction = Arc::new(cover.source_extraction.as_ref().clone());
    assert!(matches!(
        cover.payload_eq_checked(&distinct_extraction),
        Err(
            ResidualProductLocusBooleanCoverError::IndependentNestedPayloadComparisonUnsupported {
                component: "source extraction",
            }
        )
    ));
}

#[test]
fn compiled_cover_partitions_the_leaf_into_ready_terminals() {
    let (family, context, cover) = generated_sunset_cover();
    assert_eq!(cover.root_clauses(), &[vec![1, 2]]);
    assert!(cover.root_nonzero_atoms().is_empty());
    assert_eq!(cover.atom_locus_ordinals(), &[1, 2]);
    let stats = cover.stats();
    assert_eq!(stats.source_predicates(), 2);
    assert_eq!(stats.product_equalities_expanded(), 1);
    assert_eq!(stats.factor_references_expanded(), 2);
    assert_eq!(stats.atoms(), 2);
    let terminals = cover.terminals();
    assert!(!terminals.is_empty());
    // At n = (1, 1, 1) both coordinate factors vanish.
    let point = cover
        .ready_terminal_for_indices(&context, &[1, 1, 1], &[true, true, true, false])
        .unwrap()
        .unwrap();
    assert!(point.equal_zero_atoms().contains(&1));
    // At n = (2, 1, 2) no factor vanishes, so the product equality fails.
    assert!(cover
        .ready_terminal_for_indices(&context, &[2, 1, 2], &[false, false, false, false])
        .unwrap()
        .is_none());
    // Outside the sector's orthant.
    assert!(cover
        .ready_terminal_for_indices(&context, &[0, 1, 1], &[true, true, true, false])
        .unwrap()
        .is_none());
    assert!(matches!(
        cover.ready_terminal_for_indices(
            &ParametricCoefficientContext {
                fingerprint: "other".to_owned(),
                index_count: 3
            },
            &[1, 1, 1],
            &[true, true, true, false]
        ),
        Err(ResidualProductLocusBooleanCoverError::WrongContext)
    ));
    assert!(matches!(
        cover.replay("other-family", &context),
        Err(ResidualProductLocusBooleanCoverError::WrongFamily)
    ));
    let _ = family;
}

use rustred_cover::product_locus_boolean_cover::ResidualProductLocusBooleanReplaySession;

#[test]
fn replay_session_positional_compilation_matches_v1_and_rejects_wrong_binding_and_limits() {
    let (family, context, baseline) = generated_sunset_cover();
    let queue = baseline.source_queue().clone();
    let position = queue
        .cases
        .iter()
        .position(|case| case.id == baseline.source_case())
        .expect("retained source case has an exact partition position");
    let session = ResidualProductLocusBooleanReplaySession::replay(family, &context, &queue).unwrap();
    assert!(session.authenticates_queue(&queue));

    let positional = session
        .compile_replayed_at_case_position(
            baseline.source_work_item_ordinal(),
            position,
            baseline.limits(),
        )
        .unwrap();
    let ordinary = compile_replayed(
        family,
        &context,
        queue.clone(),
        baseline.source_work_item_ordinal(),
        baseline.limits(),
    )
    .unwrap();
    assert!(positional.payload_eq_checked(&ordinary).unwrap());
    let with_census = session
        .compile_replayed_at_case_position_with_census(
            baseline.source_work_item_ordinal(),
            position,
            baseline.limits(),
        )
        .unwrap();
    let (censused, retained_bytes, peak_bytes) = with_census.into_parts();
    assert!(censused.payload_eq_checked(&ordinary).unwrap());
    assert!(retained_bytes > 0);
    assert!(peak_bytes >= retained_bytes);
    assert!(Arc::ptr_eq(positional.source_queue(), &queue));
    assert!(Arc::ptr_eq(
        positional.source_extraction(),
        &queue.work_items[baseline.source_work_item_ordinal()].extraction,
    ));

    let wrong_position = queue
        .cases
        .iter()
        .position(|case| case.id != baseline.source_case())
        .expect("fixture has another partition case");
    assert!(matches!(
        session.compile_replayed_at_case_position(
            baseline.source_work_item_ordinal(),
            wrong_position,
            baseline.limits(),
        ),
        Err(ResidualProductLocusBooleanCoverError::SourceCaseNotFound { .. })
    ));

    let source_identity_bytes = queue.source_identity_bytes;
    assert!(source_identity_bytes > 0);
    let mut exact = baseline.limits();
    exact.max_source_identity_bytes_referenced = source_identity_bytes;
    session
        .compile_replayed_at_case_position(baseline.source_work_item_ordinal(), position, exact)
        .unwrap();
    exact.max_source_identity_bytes_referenced = source_identity_bytes - 1;
    assert!(matches!(
        session.compile_replayed_at_case_position(
            baseline.source_work_item_ordinal(),
            position,
            exact,
        ),
        Err(ResidualProductLocusBooleanCoverError::ResourceLimit {
            resource: "source partition identity bytes referenced",
            requested,
            limit,
        }) if requested == source_identity_bytes && limit + 1 == requested
    ));

    let wrong_context = ParametricCoefficientContext {
        fingerprint: "boolean-replay-session-wrong-context-private".to_owned(),
        index_count: context.index_count,
    };
    assert!(ResidualProductLocusBooleanReplaySession::replay(family, &wrong_context, &queue).is_err());

    let independently_allocated = Arc::new(queue.as_ref().clone());
    assert!(!session.authenticates_queue(&independently_allocated));
}

#[test]
fn memory_envelope_bounds_every_admitted_cover() {
    let (_, _, cover) = generated_sunset_cover();
    let retained = cover.recompute_retained_owned_logical_bytes_upper_bound().unwrap();
    assert!(retained > 0);
    let (units, bytes) = cover.recompute_payload_comparison_census().unwrap();
    assert_eq!(units, cover.stats().payload_comparison_units());
    assert_eq!(bytes, cover.stats().payload_comparison_bytes());
    let mut limits = ResidualProductLocusBooleanCoverLimits::default();
    limits.max_family_fingerprint_bytes = 64;
    limits.max_context_fingerprint_bytes = 64;
    limits.max_sector_arity = 3;
    limits.max_atoms = 4;
    limits.max_root_clauses = 2;
    limits.max_root_literals = 4;
    limits.max_root_nonzero_facts = 4;
    limits.max_dpll_nodes = 8;
    limits.max_path_facts = 32;
    limits.max_retained_propagation_entries = 8;
    limits.max_retained_node_clauses = 8;
    limits.max_retained_node_literals = 16;
    limits.max_retained_empty_reason_ordinals = 8;
    let envelope = rustred_cover::product_locus_boolean_cover::residual_product_locus_boolean_memory_envelope_from_limits(limits)
        .unwrap();
    assert!(envelope.retained_owned_logical_bytes_upper_bound() >= retained);
    assert!(
        envelope.compilation_owned_logical_peak_upper_bound()
            >= 2 * envelope.retained_owned_logical_bytes_upper_bound()
    );
    assert!(matches!(
        rustred_cover::product_locus_boolean_cover::residual_product_locus_boolean_memory_envelope_from_limits(
            ResidualProductLocusBooleanCoverLimits::default()
        ),
        Ok(_) | Err(ResidualProductLocusBooleanCoverError::ResourceCountOverflow { .. })
    ));
}

#[test]
fn every_branched_dpll_node_has_its_zero_child_next_and_a_later_nonzero_child() {
    let (nodes, _stats) = synthetic(
        &[&[1, 2], &[2, 3]],
        &[],
        &[(1, None), (2, None), (3, None)],
    );
    let mut branched = 0;
    for (k, node) in nodes.iter().enumerate() {
        if let ResidualProductLocusBooleanNodeOutcome::Branched { atom_locus_ordinal } = node.outcome() {
            branched += 1;
            assert_eq!(*atom_locus_ordinal, node.remaining_clauses()[0][0]);
            let zero_child = &nodes[k + 1];
            assert_eq!(zero_child.parent_ordinal(), Some(k));
            let zero_decision = zero_child.decision_from_parent().unwrap();
            assert_eq!(zero_decision.atom_locus_ordinal(), *atom_locus_ordinal);
            assert_eq!(zero_decision.polarity(), ResidualProductLocusBooleanPolarity::EqualZero);
            let nonzero_children = nodes[k + 2..]
                .iter()
                .filter(|child| {
                    child.parent_ordinal() == Some(k)
                        && child.decision_from_parent().map(|d| d.polarity())
                            == Some(ResidualProductLocusBooleanPolarity::NonZero)
                })
                .count();
            assert_eq!(nonzero_children, 1);
        }
    }
    assert!(branched >= 1);
}

#[test]
fn compilation_rejects_a_work_item_bound_to_another_case_or_a_missing_case() {
    let context = ParametricCoefficientContext {
        fingerprint: "sunset-kn".to_owned(),
        index_count: 3,
    };
    let mut mismatched = sunset_queue();
    mismatched.work_items[0].ordinal = 1;
    assert!(matches!(
        ResidualProductLocusBooleanCoverCompiler::compile(
            SUNSET_FAMILY,
            &context,
            Arc::new(mismatched),
            0,
            ResidualProductLocusBooleanCoverLimits::default(),
        ),
        Err(ResidualProductLocusBooleanCoverError::SourceBindingMismatch)
    ));
    let mut missing = sunset_queue();
    missing.work_items[1].source_case = 7;
    missing.work_items[1].extraction = Arc::new(CoordinateEqualityLocusCertificate {
        source_case: 7,
        partition_matches_coverage: true,
    });
    assert!(matches!(
        compile_replayed(
            SUNSET_FAMILY,
            &context,
            Arc::new(missing),
            1,
            ResidualProductLocusBooleanCoverLimits::default(),
        ),
        Err(ResidualProductLocusBooleanCoverError::SourceCaseNotFound { case: 7 })
    ));
}

#[test]
fn compilation_refuses_identity_and_predicate_counts_one_past_their_limits() {
    let context = ParametricCoefficientContext {
        fingerprint: "sunset-kn".to_owned(),
        index_count: 3,
    };
    let mut limits = ResidualProductLocusBooleanCoverLimits::default();
    limits.max_source_identity_bytes_referenced = 63;
    assert_eq!(
        compile_replayed(SUNSET_FAMILY, &context, Arc::new(sunset_queue()), 0, limits).err(),
        Some(ResidualProductLocusBooleanCoverError::ResourceLimit {
            resource: "source partition identity bytes referenced",
            requested: 64,
            limit: 63,
        })
    );
    let mut limits = ResidualProductLocusBooleanCoverLimits::default();
    limits.max_source_predicates = 1;
    assert_eq!(
        compile_replayed(SUNSET_FAMILY, &context, Arc::new(sunset_queue()), 0, limits).err(),
        Some(ResidualProductLocusBooleanCoverError::ResourceLimit {
            resource: "source predicates",
            requested: 2,
            limit: 1,
        })
    );
}

#[test]
fn a_root_without_clauses_is_one_node_within_exact_single_node_limits() {
    let state = BooleanState {
        parent_ordinal: None,
        decision_from_parent: None,
        depth: 0,
        zero: Vec::new(),
        nonzero: vec![2, 5],
        clauses: Vec::new(),
    };
    let sector = SectorMask::try_from_bit_string("11").unwrap();
    let mut limits = ResidualProductLocusBooleanCoverLimits::default();
    limits.max_dpll_nodes = 1;
    limits.max_frontier_states = 1;
    limits.max_terminals = 1;
    let mut stats = ResidualProductLocusBooleanCoverStats::default();
    let nodes = build_dpll_cover(state, &sector, &[], &mut stats, limits).unwrap();
    assert_eq!(nodes.len(), 1);
    assert!(matches!(
        nodes[0].outcome(),
        ResidualProductLocusBooleanNodeOutcome::ReadyForAffineRecognition
    ));
    assert_eq!(nodes[0].nonzero_atoms(), &[2, 5]);
}
