use rustred_cover::coverage_decision_dag::{
    CoverageDecisionDag, CoverageDecisionDagError, CoverageDecisionDagLimits,
    CoverageDecisionDagRootedView,
};
use rustred_cover::parametric_sector_formula_ir::{
    DirectBadFormulaClause, NormalizedBadClause, NormalizedBadClauseRole,
    NormalizedBadClauseSource, NormalizedBadFormulaBody, NormalizedBadLiteral,
    NormalizedBadLiteralPolarity, NormalizedCandidateBadFormula, NormalizedCoverageAttempt,
    NormalizedCoverageIr, NormalizedFactorZeroSource,
};
use rustred_cover::parametric_sector_mtbdd::{
    reference_disposition_for_assignment, validate_typed_final_root,
    ParametricSectorMtbddCompiler, ParametricSectorMtbddDecisionFunction,
    ParametricSectorMtbddDisposition, ParametricSectorMtbddError, ParametricSectorMtbddLimits,
    ParametricSectorMtbddTerminalPayload,
};

fn source(ordinal: usize) -> Vec<NormalizedBadClauseSource> {
    vec![NormalizedBadClauseSource::LeakEvent {
        event_ordinal: ordinal,
    }]
}

fn literal(locus: usize, polarity: NormalizedBadLiteralPolarity) -> NormalizedBadLiteral {
    NormalizedBadLiteral::new(locus, polarity)
}

fn typed_root_limits(max_typed_root_visits: usize) -> ParametricSectorMtbddLimits {
    ParametricSectorMtbddLimits {
        max_typed_root_visits,
        ..ParametricSectorMtbddLimits::default()
    }
}

fn clause(
    body: DirectBadFormulaClause,
    source_ordinal: usize,
    role: NormalizedBadClauseRole,
) -> NormalizedBadClause {
    NormalizedBadClause::new(body, source(source_ordinal), role)
}

fn dnf_attempt(
    ordinal: usize,
    clauses: Vec<NormalizedBadClause>,
    factors: Vec<NormalizedFactorZeroSource>,
) -> NormalizedCoverageAttempt {
    NormalizedCoverageAttempt::Certified(NormalizedCandidateBadFormula::new(
        ordinal,
        NormalizedBadFormulaBody::Dnf {
            clauses,
            atomic_equal_zero_factors: factors,
        },
    ))
}

fn false_attempt(ordinal: usize) -> NormalizedCoverageAttempt {
    NormalizedCoverageAttempt::Certified(NormalizedCandidateBadFormula::new(
        ordinal,
        NormalizedBadFormulaBody::False,
    ))
}

fn true_attempt(ordinal: usize) -> NormalizedCoverageAttempt {
    NormalizedCoverageAttempt::Certified(NormalizedCandidateBadFormula::new(
        ordinal,
        NormalizedBadFormulaBody::True {
            sources: source(ordinal),
        },
    ))
}

fn unsupported(ordinal: usize) -> NormalizedCoverageAttempt {
    NormalizedCoverageAttempt::Unsupported {
        source_attempt_ordinal: ordinal,
    }
}

fn ir(base_count: usize, attempts: Vec<NormalizedCoverageAttempt>) -> NormalizedCoverageIr {
    NormalizedCoverageIr::try_new(base_count, attempts).unwrap()
}

fn compile(ir: &NormalizedCoverageIr) -> ParametricSectorMtbddDecisionFunction {
    ParametricSectorMtbddCompiler::compile(ir, ParametricSectorMtbddLimits::default()).unwrap()
}

#[derive(Clone, Copy)]
enum OracleLiteral {
    EqualZero(usize),
    NonZero(usize),
}

#[derive(Clone)]
enum OracleClause {
    Atom(OracleLiteral),
    Conjunction(OracleLiteral, OracleLiteral),
}

#[derive(Clone)]
enum OracleAttempt {
    Certified { ordinal: usize, bad: Vec<OracleClause> },
    Unsupported { ordinal: usize },
}

fn oracle_literal(literal: OracleLiteral, zero: &[bool]) -> bool {
    match literal {
        OracleLiteral::EqualZero(locus) => zero[locus],
        OracleLiteral::NonZero(locus) => !zero[locus],
    }
}

fn oracle_disposition(attempts: &[OracleAttempt], zero: &[bool]) -> ParametricSectorMtbddDisposition {
    for attempt in attempts {
        if let OracleAttempt::Certified { ordinal, bad } = attempt {
            let is_bad = bad.iter().any(|clause| match *clause {
                OracleClause::Atom(literal) => oracle_literal(literal, zero),
                OracleClause::Conjunction(left, right) => {
                    oracle_literal(left, zero) && oracle_literal(right, zero)
                }
            });
            if !is_bad {
                return ParametricSectorMtbddDisposition::DescendingRule {
                    candidate_ordinal: *ordinal,
                };
            }
        }
    }
    let unsupported = attempts
        .iter()
        .filter_map(|attempt| match attempt {
            OracleAttempt::Unsupported { ordinal } => Some(*ordinal),
            OracleAttempt::Certified { .. } => None,
        })
        .collect::<Vec<_>>();
    if unsupported.is_empty() {
        ParametricSectorMtbddDisposition::Uncovered
    } else {
        ParametricSectorMtbddDisposition::Unsupported {
            candidate_ordinals: unsupported,
        }
    }
}

#[test]
fn true_bad_skips_candidate_and_false_bad_cuts_off_without_dropping_suffix_census() {
    let function = compile(&ir(
        0,
        vec![
            true_attempt(0),
            unsupported(1),
            false_attempt(2),
            unsupported(3),
            false_attempt(4),
        ],
    ));
    assert_eq!(function.stats().attempts, 5);
    assert_eq!(function.stats().certified_attempts, 3);
    assert_eq!(function.stats().unsupported_attempts, 2);
    assert_eq!(
        function.classify_assignment(&[]).unwrap(),
        &ParametricSectorMtbddDisposition::DescendingRule {
            candidate_ordinal: 2,
        }
    );

    let all_bad = compile(&ir(0, vec![true_attempt(0), unsupported(1), true_attempt(2)]));
    assert_eq!(
        all_bad.classify_assignment(&[]).unwrap(),
        &ParametricSectorMtbddDisposition::Unsupported {
            candidate_ordinals: vec![1],
        }
    );
}

#[test]
fn sparse_loci_compile_densely_and_match_an_independent_exhaustive_oracle() {
    let normalized = ir(
        12,
        vec![
            dnf_attempt(
                0,
                vec![
                    clause(
                        DirectBadFormulaClause::Atom(literal(
                            2,
                            NormalizedBadLiteralPolarity::EqualZero,
                        )),
                        0,
                        NormalizedBadClauseRole::AtomicEqualZeroFactor,
                    ),
                    clause(
                        DirectBadFormulaClause::Conjunction(
                            literal(5, NormalizedBadLiteralPolarity::NonZero),
                            literal(9, NormalizedBadLiteralPolarity::EqualZero),
                        ),
                        1,
                        NormalizedBadClauseRole::Ordinary,
                    ),
                ],
                vec![NormalizedFactorZeroSource::new(2, 0)],
            ),
            false_attempt(1),
        ],
    );
    let function = compile(&normalized);
    assert_eq!(function.base_structural_locus_count(), 12);
    assert_eq!(function.rooted().atom_count(), 3);
    assert_eq!(
        function
            .atoms()
            .iter()
            .map(|atom| atom.structural_locus_ordinal())
            .collect::<Vec<_>>(),
        vec![2, 5, 9]
    );

    let oracle = vec![
        OracleAttempt::Certified {
            ordinal: 0,
            bad: vec![
                OracleClause::Atom(OracleLiteral::EqualZero(2)),
                OracleClause::Conjunction(OracleLiteral::NonZero(5), OracleLiteral::EqualZero(9)),
            ],
        },
        OracleAttempt::Certified {
            ordinal: 1,
            bad: Vec::new(),
        },
    ];
    for mask in 0usize..8 {
        let mut zero = vec![false; 12];
        for (bit, locus) in [2usize, 5, 9].into_iter().enumerate() {
            zero[locus] = mask & (1 << bit) != 0;
        }
        assert_eq!(
            function.classify_assignment(&zero).unwrap(),
            &oracle_disposition(&oracle, &zero),
            "assignment mask {mask:03b}"
        );
    }
    let second = compile(&normalized);
    assert_eq!(function.rooted(), second.rooted());
}

#[test]
fn equality_nonzero_and_boundary_gate_polarities_are_exact() {
    for polarity in [
        NormalizedBadLiteralPolarity::EqualZero,
        NormalizedBadLiteralPolarity::NonZero,
    ] {
        let normalized = ir(
            1,
            vec![
                dnf_attempt(
                    0,
                    vec![clause(
                        DirectBadFormulaClause::Atom(literal(0, polarity)),
                        0,
                        NormalizedBadClauseRole::Ordinary,
                    )],
                    Vec::new(),
                ),
                false_attempt(1),
            ],
        );
        let function = compile(&normalized);
        for zero in [false, true] {
            let is_bad = match polarity {
                NormalizedBadLiteralPolarity::EqualZero => zero,
                NormalizedBadLiteralPolarity::NonZero => !zero,
            };
            assert_eq!(
                function.classify_assignment(&[zero]).unwrap(),
                &ParametricSectorMtbddDisposition::DescendingRule {
                    candidate_ordinal: usize::from(is_bad),
                }
            );
        }
    }

    let normalized = ir(
        2,
        vec![
            dnf_attempt(
                0,
                vec![clause(
                    DirectBadFormulaClause::Conjunction(
                        literal(0, NormalizedBadLiteralPolarity::EqualZero),
                        literal(1, NormalizedBadLiteralPolarity::NonZero),
                    ),
                    0,
                    NormalizedBadClauseRole::Ordinary,
                )],
                Vec::new(),
            ),
            false_attempt(1),
        ],
    );
    let function = compile(&normalized);
    for boundary_zero in [false, true] {
        for gate_zero in [false, true] {
            let bad = boundary_zero && !gate_zero;
            assert_eq!(
                function
                    .classify_assignment(&[boundary_zero, gate_zero])
                    .unwrap(),
                &ParametricSectorMtbddDisposition::DescendingRule {
                    candidate_ordinal: usize::from(bad),
                }
            );
        }
    }
}

#[test]
fn contradictory_conjunction_and_tautological_disjunction_reduce_canonically() {
    let equal = literal(0, NormalizedBadLiteralPolarity::EqualZero);
    let nonzero = literal(0, NormalizedBadLiteralPolarity::NonZero);
    let contradiction = ir(
        1,
        vec![
            dnf_attempt(
                0,
                vec![clause(
                    DirectBadFormulaClause::Conjunction(equal, nonzero),
                    0,
                    NormalizedBadClauseRole::Ordinary,
                )],
                Vec::new(),
            ),
            false_attempt(1),
        ],
    );
    let function = compile(&contradiction);
    for zero in [false, true] {
        assert_eq!(
            function.classify_assignment(&[zero]).unwrap(),
            &ParametricSectorMtbddDisposition::DescendingRule {
                candidate_ordinal: 0
            }
        );
    }

    let tautology = ir(
        1,
        vec![
            dnf_attempt(
                0,
                vec![
                    clause(
                        DirectBadFormulaClause::Atom(equal),
                        0,
                        NormalizedBadClauseRole::Ordinary,
                    ),
                    clause(
                        DirectBadFormulaClause::Atom(nonzero),
                        1,
                        NormalizedBadClauseRole::Ordinary,
                    ),
                ],
                Vec::new(),
            ),
            false_attempt(1),
        ],
    );
    let function = compile(&tautology);
    for zero in [false, true] {
        assert_eq!(
            function.classify_assignment(&[zero]).unwrap(),
            &ParametricSectorMtbddDisposition::DescendingRule {
                candidate_ordinal: 1
            }
        );
    }
}

#[test]
fn factor_or_and_ordinary_equal_zero_share_only_base_atoms() {
    let normalized = ir(
        6,
        vec![
            dnf_attempt(
                0,
                vec![
                    clause(
                        DirectBadFormulaClause::Atom(literal(
                            1,
                            NormalizedBadLiteralPolarity::EqualZero,
                        )),
                        0,
                        NormalizedBadClauseRole::Ordinary,
                    ),
                    clause(
                        DirectBadFormulaClause::Atom(literal(
                            3,
                            NormalizedBadLiteralPolarity::EqualZero,
                        )),
                        1,
                        NormalizedBadClauseRole::AtomicEqualZeroFactor,
                    ),
                    clause(
                        DirectBadFormulaClause::Atom(literal(
                            5,
                            NormalizedBadLiteralPolarity::EqualZero,
                        )),
                        2,
                        NormalizedBadClauseRole::AtomicEqualZeroFactor,
                    ),
                ],
                vec![
                    NormalizedFactorZeroSource::new(3, 1),
                    NormalizedFactorZeroSource::new(5, 2),
                ],
            ),
            false_attempt(1),
        ],
    );
    let function = compile(&normalized);
    assert_eq!(
        function
            .atoms()
            .iter()
            .map(|atom| atom.structural_locus_ordinal())
            .collect::<Vec<_>>(),
        vec![1, 3, 5]
    );
    for mask in 0usize..8 {
        let zero = [mask & 1 != 0, mask & 2 != 0, mask & 4 != 0];
        let mut assignment = vec![false; 6];
        assignment[1] = zero[0];
        assignment[3] = zero[1];
        assignment[5] = zero[2];
        assert_eq!(
            function.classify_assignment(&assignment).unwrap(),
            &ParametricSectorMtbddDisposition::DescendingRule {
                candidate_ordinal: usize::from(zero.into_iter().any(|value| value)),
            }
        );
    }
}

#[test]
fn factor_decisions_short_circuit_in_ascending_dense_atom_order() {
    let normalized = ir(
        12,
        vec![
            dnf_attempt(
                0,
                vec![
                    clause(
                        DirectBadFormulaClause::Atom(literal(
                            2,
                            NormalizedBadLiteralPolarity::EqualZero,
                        )),
                        0,
                        NormalizedBadClauseRole::AtomicEqualZeroFactor,
                    ),
                    clause(
                        DirectBadFormulaClause::Atom(literal(
                            7,
                            NormalizedBadLiteralPolarity::EqualZero,
                        )),
                        1,
                        NormalizedBadClauseRole::AtomicEqualZeroFactor,
                    ),
                    clause(
                        DirectBadFormulaClause::Atom(literal(
                            11,
                            NormalizedBadLiteralPolarity::EqualZero,
                        )),
                        2,
                        NormalizedBadClauseRole::AtomicEqualZeroFactor,
                    ),
                ],
                vec![
                    NormalizedFactorZeroSource::new(2, 0),
                    NormalizedFactorZeroSource::new(7, 1),
                    NormalizedFactorZeroSource::new(11, 2),
                ],
            ),
            false_attempt(1),
        ],
    );
    let function = compile(&normalized);
    let rebuilt =
        CoverageDecisionDag::rebuild_rooted(function.rooted(), CoverageDecisionDagLimits::default())
            .unwrap();
    let root = rebuilt.roots()[0];

    let first_zero = [Some(true), Some(false), Some(false)];
    let (payload, queried) = rebuilt.dag().evaluate(root, &first_zero).unwrap();
    assert!(matches!(
        payload,
        ParametricSectorMtbddTerminalPayload::Disposition(
            ParametricSectorMtbddDisposition::DescendingRule {
                candidate_ordinal: 1
            }
        )
    ));
    assert_eq!(queried, vec![0]);

    let none_zero = [Some(false), Some(false), Some(false)];
    let (_, queried) = rebuilt.dag().evaluate(root, &none_zero).unwrap();
    assert_eq!(queried, vec![0, 1, 2]);
}

#[test]
fn priority_uncovered_and_exact_unsupported_fallback_are_preserved() {
    let overlapping = ir(
        2,
        vec![
            dnf_attempt(
                0,
                vec![clause(
                    DirectBadFormulaClause::Atom(literal(0, NormalizedBadLiteralPolarity::EqualZero)),
                    0,
                    NormalizedBadClauseRole::Ordinary,
                )],
                Vec::new(),
            ),
            dnf_attempt(
                1,
                vec![clause(
                    DirectBadFormulaClause::Atom(literal(1, NormalizedBadLiteralPolarity::EqualZero)),
                    1,
                    NormalizedBadClauseRole::Ordinary,
                )],
                Vec::new(),
            ),
        ],
    );
    let function = compile(&overlapping);
    assert_eq!(
        function.classify_assignment(&[false, false]).unwrap(),
        &ParametricSectorMtbddDisposition::DescendingRule {
            candidate_ordinal: 0
        }
    );
    assert_eq!(
        function.classify_assignment(&[true, false]).unwrap(),
        &ParametricSectorMtbddDisposition::DescendingRule {
            candidate_ordinal: 1
        }
    );
    assert_eq!(
        function.classify_assignment(&[true, true]).unwrap(),
        &ParametricSectorMtbddDisposition::Uncovered
    );

    let empty = compile(&ir(0, Vec::new()));
    assert_eq!(
        empty.classify_assignment(&[]).unwrap(),
        &ParametricSectorMtbddDisposition::Uncovered
    );
    let fallback = compile(&ir(0, vec![unsupported(0), true_attempt(1), unsupported(2)]));
    assert_eq!(
        fallback.classify_assignment(&[]).unwrap(),
        &ParametricSectorMtbddDisposition::Unsupported {
            candidate_ordinals: vec![0, 2],
        }
    );

    let oracle_attempts = vec![
        OracleAttempt::Unsupported { ordinal: 0 },
        OracleAttempt::Certified {
            ordinal: 1,
            bad: vec![OracleClause::Atom(OracleLiteral::EqualZero(0))],
        },
        OracleAttempt::Unsupported { ordinal: 2 },
    ];
    assert_eq!(
        oracle_disposition(&oracle_attempts, &[true]),
        ParametricSectorMtbddDisposition::Unsupported {
            candidate_ordinals: vec![0, 2],
        }
    );
    assert_eq!(
        oracle_disposition(&oracle_attempts, &[false]),
        ParametricSectorMtbddDisposition::DescendingRule {
            candidate_ordinal: 1,
        }
    );
    assert_eq!(
        oracle_disposition(
            &[OracleAttempt::Certified {
                ordinal: 0,
                bad: vec![OracleClause::Atom(OracleLiteral::EqualZero(0))],
            }],
            &[true],
        ),
        ParametricSectorMtbddDisposition::Uncovered
    );
}

#[test]
fn conditional_prefix_survives_false_cutoff_and_eliminates_all_fallbacks() {
    let normalized = ir(
        1,
        vec![
            dnf_attempt(
                0,
                vec![clause(
                    DirectBadFormulaClause::Atom(literal(0, NormalizedBadLiteralPolarity::EqualZero)),
                    0,
                    NormalizedBadClauseRole::Ordinary,
                )],
                Vec::new(),
            ),
            unsupported(1),
            false_attempt(2),
            unsupported(3),
        ],
    );
    let mut limits = ParametricSectorMtbddLimits::default();
    limits.max_unsupported_references = 0;
    let function = ParametricSectorMtbddCompiler::compile(&normalized, limits).unwrap();
    assert_eq!(function.stats().unsupported_attempts, 2);
    assert_eq!(function.stats().unsupported_references, 0);
    assert_eq!(function.stats().priority_candidate_pairs, 2);
    assert_eq!(
        function.classify_assignment(&[false]).unwrap(),
        &ParametricSectorMtbddDisposition::DescendingRule {
            candidate_ordinal: 0,
        }
    );
    assert_eq!(
        function.classify_assignment(&[true]).unwrap(),
        &ParametricSectorMtbddDisposition::DescendingRule {
            candidate_ordinal: 2,
        }
    );
    assert!(function.rooted().terminal_payloads().iter().all(|payload| {
        !matches!(
            payload,
            ParametricSectorMtbddTerminalPayload::Disposition(
                ParametricSectorMtbddDisposition::Unsupported { .. }
            )
        )
    }));
}

fn factor_clause(source_ordinal: usize) -> NormalizedBadClause {
    clause(
        DirectBadFormulaClause::Atom(literal(0, NormalizedBadLiteralPolarity::EqualZero)),
        source_ordinal,
        NormalizedBadClauseRole::AtomicEqualZeroFactor,
    )
}

#[test]
fn factor_and_ordinary_same_locus_boolean_absorption_is_exact() {
    let tautology = ir(
        1,
        vec![
            dnf_attempt(
                0,
                vec![
                    factor_clause(0),
                    clause(
                        DirectBadFormulaClause::Atom(literal(0, NormalizedBadLiteralPolarity::NonZero)),
                        1,
                        NormalizedBadClauseRole::Ordinary,
                    ),
                ],
                vec![NormalizedFactorZeroSource::new(0, 0)],
            ),
            false_attempt(1),
        ],
    );
    let function = compile(&tautology);
    for zero in [false, true] {
        assert_eq!(
            function.classify_assignment(&[zero]).unwrap(),
            &ParametricSectorMtbddDisposition::DescendingRule {
                candidate_ordinal: 1,
            }
        );
    }

    let absorption = ir(
        2,
        vec![
            dnf_attempt(
                0,
                vec![
                    factor_clause(0),
                    clause(
                        DirectBadFormulaClause::Conjunction(
                            literal(0, NormalizedBadLiteralPolarity::NonZero),
                            literal(1, NormalizedBadLiteralPolarity::EqualZero),
                        ),
                        1,
                        NormalizedBadClauseRole::Ordinary,
                    ),
                ],
                vec![NormalizedFactorZeroSource::new(0, 0)],
            ),
            false_attempt(1),
        ],
    );
    let function = compile(&absorption);
    for x_zero in [false, true] {
        for y_zero in [false, true] {
            assert_eq!(
                function.classify_assignment(&[x_zero, y_zero]).unwrap(),
                &ParametricSectorMtbddDisposition::DescendingRule {
                    candidate_ordinal: usize::from(x_zero || y_zero),
                }
            );
        }
    }
}

#[test]
fn constant_false_cutoff_constructs_no_dead_suffix_or_fallback() {
    let normalized = ir(
        2,
        vec![
            false_attempt(0),
            unsupported(1),
            dnf_attempt(
                2,
                vec![clause(
                    DirectBadFormulaClause::Conjunction(
                        literal(0, NormalizedBadLiteralPolarity::EqualZero),
                        literal(1, NormalizedBadLiteralPolarity::NonZero),
                    ),
                    0,
                    NormalizedBadClauseRole::Ordinary,
                )],
                Vec::new(),
            ),
        ],
    );
    let mut limits = ParametricSectorMtbddLimits::default();
    limits.max_formula_compile_steps = 1;
    limits.max_priority_candidate_pairs = 1;
    limits.max_unsupported_references = 0;
    limits.dag.max_nodes = 0;
    limits.dag.max_unique_table_entries = 0;
    limits.dag.max_retained_child_references = 0;
    limits.dag.max_terminals = 3;
    limits.dag.max_terminal_index_entries = 3;
    limits.dag.max_retained_terminal_payload_handles = 6;
    let function = ParametricSectorMtbddCompiler::compile(&normalized, limits).unwrap();
    assert_eq!(function.stats().formula_compile_steps, 1);
    assert_eq!(function.stats().priority_candidate_pairs, 1);
    assert_eq!(function.stats().unsupported_attempts, 1);
    assert_eq!(function.stats().unsupported_references, 0);
    assert_eq!(function.rooted().nodes().len(), 0);
    assert_eq!(function.rooted().terminal_payloads().len(), 3);
    assert!(function.rooted().terminal_payloads().iter().all(|payload| {
        !matches!(
            payload,
            ParametricSectorMtbddTerminalPayload::Disposition(
                ParametricSectorMtbddDisposition::Unsupported { .. }
            )
        )
    }));
    for assignment in [[false, false], [false, true], [true, false], [true, true]] {
        assert_eq!(
            function.classify_assignment(&assignment).unwrap(),
            &ParametricSectorMtbddDisposition::DescendingRule {
                candidate_ordinal: 0
            }
        );
    }
}

fn manual_rooted(
    atom_count: usize,
    swapped_boolean_roles: bool,
    roots: usize,
    root_payload: ParametricSectorMtbddTerminalPayload,
    root_is_boolean: bool,
) -> CoverageDecisionDagRootedView {
    let mut dag = CoverageDecisionDag::new(atom_count, CoverageDecisionDagLimits::default()).unwrap();
    let false_payload = if swapped_boolean_roles {
        ParametricSectorMtbddTerminalPayload::BooleanTrue
    } else {
        ParametricSectorMtbddTerminalPayload::BooleanFalse
    };
    let true_payload = if swapped_boolean_roles {
        ParametricSectorMtbddTerminalPayload::BooleanFalse
    } else {
        ParametricSectorMtbddTerminalPayload::BooleanTrue
    };
    let when_false = dag.intern_terminal(false_payload).unwrap();
    let when_true = dag.intern_terminal(true_payload).unwrap();
    let boolean = dag.boolean_terminals(when_false, when_true).unwrap();
    let root = if root_is_boolean {
        when_false
    } else {
        dag.intern_terminal(root_payload).unwrap()
    };
    let root_list = vec![root; roots];
    dag.export_rooted(&root_list, boolean).unwrap()
}

fn manual_malformed_node_rooted() -> CoverageDecisionDagRootedView {
    let mut dag = CoverageDecisionDag::new(1, CoverageDecisionDagLimits::default()).unwrap();
    let when_false = dag
        .intern_terminal(ParametricSectorMtbddTerminalPayload::BooleanFalse)
        .unwrap();
    let when_true = dag
        .intern_terminal(ParametricSectorMtbddTerminalPayload::BooleanTrue)
        .unwrap();
    let boolean = dag.boolean_terminals(when_false, when_true).unwrap();
    let uncovered = dag
        .intern_terminal(ParametricSectorMtbddTerminalPayload::Disposition(
            ParametricSectorMtbddDisposition::Uncovered,
        ))
        .unwrap();
    let out_of_range = dag
        .intern_terminal(ParametricSectorMtbddTerminalPayload::Disposition(
            ParametricSectorMtbddDisposition::DescendingRule {
                candidate_ordinal: 1,
            },
        ))
        .unwrap();
    let root = dag.branch(0, uncovered, out_of_range).unwrap();
    dag.export_rooted(&[root], boolean).unwrap()
}

#[test]
fn typed_root_validation_rejects_boolean_and_payload_tampering() {
    let empty = ir(0, Vec::new());
    let uncovered = || {
        ParametricSectorMtbddTerminalPayload::Disposition(ParametricSectorMtbddDisposition::Uncovered)
    };
    let boolean_root = manual_rooted(0, false, 1, uncovered(), true);
    assert!(matches!(
        validate_typed_final_root(&boolean_root, &empty, 0, typed_root_limits(16)),
        Err(ParametricSectorMtbddError::BooleanTerminalReachable)
    ));
    let swapped = manual_rooted(0, true, 1, uncovered(), false);
    assert!(matches!(
        validate_typed_final_root(&swapped, &empty, 0, typed_root_limits(16)),
        Err(ParametricSectorMtbddError::MalformedRootedView)
    ));
    let two_roots = manual_rooted(0, false, 2, uncovered(), false);
    assert!(matches!(
        validate_typed_final_root(&two_roots, &empty, 0, typed_root_limits(16)),
        Err(ParametricSectorMtbddError::MalformedRootedView)
    ));

    let unsupported_ir = ir(0, vec![unsupported(0)]);
    let bad_descending = manual_rooted(
        0,
        false,
        1,
        ParametricSectorMtbddTerminalPayload::Disposition(
            ParametricSectorMtbddDisposition::DescendingRule {
                candidate_ordinal: 0,
            },
        ),
        false,
    );
    assert!(matches!(
        validate_typed_final_root(&bad_descending, &unsupported_ir, 0, typed_root_limits(16)),
        Err(ParametricSectorMtbddError::DispositionCandidateIsNotCertified {
            candidate_ordinal: 0
        })
    ));

    let unsupported_empty = manual_rooted(
        0,
        false,
        1,
        ParametricSectorMtbddTerminalPayload::Disposition(
            ParametricSectorMtbddDisposition::Unsupported {
                candidate_ordinals: Vec::new(),
            },
        ),
        false,
    );
    assert!(matches!(
        validate_typed_final_root(&unsupported_empty, &empty, 0, typed_root_limits(16)),
        Err(ParametricSectorMtbddError::UnsupportedFallbackMismatch)
    ));

    let wrong_atom_count = manual_rooted(1, false, 1, uncovered(), false);
    assert!(matches!(
        validate_typed_final_root(&wrong_atom_count, &empty, 0, typed_root_limits(16)),
        Err(ParametricSectorMtbddError::MalformedRootedView)
    ));

    let out_of_range = manual_rooted(
        0,
        false,
        1,
        ParametricSectorMtbddTerminalPayload::Disposition(
            ParametricSectorMtbddDisposition::DescendingRule {
                candidate_ordinal: 1,
            },
        ),
        false,
    );
    assert!(matches!(
        validate_typed_final_root(&out_of_range, &empty, 0, typed_root_limits(16)),
        Err(ParametricSectorMtbddError::DispositionCandidateOutOfRange {
            candidate_ordinal: 1,
            attempt_count: 0,
        })
    ));

    let exact_fallback_ir = ir(0, vec![unsupported(0), true_attempt(1), unsupported(2)]);
    for ordinals in [vec![2, 0], vec![0], vec![0, 1, 2]] {
        let malformed = manual_rooted(
            0,
            false,
            1,
            ParametricSectorMtbddTerminalPayload::Disposition(
                ParametricSectorMtbddDisposition::Unsupported {
                    candidate_ordinals: ordinals,
                },
            ),
            false,
        );
        assert!(matches!(
            validate_typed_final_root(&malformed, &exact_fallback_ir, 0, typed_root_limits(16)),
            Err(ParametricSectorMtbddError::UnsupportedFallbackMismatch)
        ));
    }
}

fn assert_typed_root_one_below(
    rooted: &CoverageDecisionDagRootedView,
    empty: &NormalizedCoverageIr,
    set: fn(&mut ParametricSectorMtbddLimits, usize),
    value: usize,
    resource: &'static str,
) {
    let mut limits = typed_root_limits(16);
    set(&mut limits, value - 1);
    assert!(matches!(
        validate_typed_final_root(rooted, empty, 1, limits),
        Err(ParametricSectorMtbddError::ResourceLimit {
            resource: actual_resource,
            requested,
            limit,
        }) if actual_resource == resource && requested == value && limit == value - 1
    ));
}

#[test]
fn typed_root_resources_are_preflighted_on_a_malformed_payload_path() {
    let empty = ir(0, Vec::new());
    let rooted = manual_malformed_node_rooted();
    let node_mark_entries = rooted.nodes().len();
    let terminal_mark_entries = rooted.terminal_payloads().len();
    let stack_entries = node_mark_entries + 1;
    let stack_pushes = 3;

    let mut exact = typed_root_limits(16);
    exact.max_typed_root_node_mark_entries = node_mark_entries;
    exact.max_typed_root_terminal_mark_entries = terminal_mark_entries;
    exact.max_typed_root_stack_entries = stack_entries;
    exact.max_typed_root_stack_pushes = stack_pushes;
    assert!(matches!(
        validate_typed_final_root(&rooted, &empty, 1, exact),
        Err(ParametricSectorMtbddError::DispositionCandidateOutOfRange {
            candidate_ordinal: 1,
            attempt_count: 0,
        })
    ));

    assert_typed_root_one_below(
        &rooted,
        &empty,
        |limits, value| limits.max_typed_root_node_mark_entries = value,
        node_mark_entries,
        "typed-root node-mark entries",
    );
    assert_typed_root_one_below(
        &rooted,
        &empty,
        |limits, value| limits.max_typed_root_terminal_mark_entries = value,
        terminal_mark_entries,
        "typed-root terminal-mark entries",
    );
    assert_typed_root_one_below(
        &rooted,
        &empty,
        |limits, value| limits.max_typed_root_stack_entries = value,
        stack_entries,
        "typed-root traversal stack entries",
    );
    assert_typed_root_one_below(
        &rooted,
        &empty,
        |limits, value| limits.max_typed_root_stack_pushes = value,
        stack_pushes,
        "typed-root traversal stack pushes",
    );
}

fn resource_fixture() -> NormalizedCoverageIr {
    ir(
        5,
        vec![
            unsupported(0),
            dnf_attempt(
                1,
                vec![
                    clause(
                        DirectBadFormulaClause::Atom(literal(0, NormalizedBadLiteralPolarity::EqualZero)),
                        0,
                        NormalizedBadClauseRole::Ordinary,
                    ),
                    clause(
                        DirectBadFormulaClause::Atom(literal(3, NormalizedBadLiteralPolarity::EqualZero)),
                        2,
                        NormalizedBadClauseRole::AtomicEqualZeroFactor,
                    ),
                    clause(
                        DirectBadFormulaClause::Atom(literal(4, NormalizedBadLiteralPolarity::EqualZero)),
                        3,
                        NormalizedBadClauseRole::AtomicEqualZeroFactor,
                    ),
                    clause(
                        DirectBadFormulaClause::Conjunction(
                            literal(1, NormalizedBadLiteralPolarity::NonZero),
                            literal(2, NormalizedBadLiteralPolarity::EqualZero),
                        ),
                        1,
                        NormalizedBadClauseRole::Ordinary,
                    ),
                ],
                vec![
                    NormalizedFactorZeroSource::new(3, 1),
                    NormalizedFactorZeroSource::new(4, 2),
                ],
            ),
            true_attempt(2),
        ],
    )
}

fn assert_outer_limit(
    result: Result<ParametricSectorMtbddDecisionFunction, ParametricSectorMtbddError>,
    resource: &'static str,
    requested: usize,
    limit: usize,
) {
    assert!(matches!(
        result,
        Err(ParametricSectorMtbddError::ResourceLimit {
            resource: actual_resource,
            requested: actual_requested,
            limit: actual_limit,
        }) if actual_resource == resource
            && actual_requested == requested
            && actual_limit == limit
    ));
}

fn assert_core_limit(
    result: Result<ParametricSectorMtbddDecisionFunction, ParametricSectorMtbddError>,
    resource: &'static str,
    requested: usize,
    limit: usize,
) {
    assert!(matches!(
        result,
        Err(ParametricSectorMtbddError::Core(
            CoverageDecisionDagError::ResourceLimit {
                resource: actual_resource,
                requested: actual_requested,
                limit: actual_limit,
            }
        )) if actual_resource == resource
            && actual_requested == requested
            && actual_limit == limit
    ));
}

fn outer_one_below(
    normalized: &NormalizedCoverageIr,
    set: fn(&mut ParametricSectorMtbddLimits, usize),
    value: usize,
    resource: &'static str,
) {
    let mut limits = ParametricSectorMtbddLimits::default();
    set(&mut limits, value - 1);
    assert_outer_limit(
        ParametricSectorMtbddCompiler::compile(normalized, limits),
        resource,
        value,
        value - 1,
    );
}

fn core_one_below(
    normalized: &NormalizedCoverageIr,
    set: fn(&mut ParametricSectorMtbddLimits, usize),
    value: usize,
    resource: &'static str,
) {
    let mut limits = ParametricSectorMtbddLimits::default();
    set(&mut limits, value - 1);
    assert_core_limit(
        ParametricSectorMtbddCompiler::compile(normalized, limits),
        resource,
        value,
        value - 1,
    );
}

#[test]
fn every_mtbdd_compilation_resource_limit_has_exact_and_one_below_evidence() {
    let normalized = resource_fixture();
    let baseline = compile(&normalized);
    let stats = baseline.stats();
    assert!(stats.base_structural_loci > 0);
    assert!(stats.attempts > 0);
    assert!(stats.normalized_clauses > 0);
    assert!(stats.normalized_literals > 0);
    assert!(stats.clause_source_references > 0);
    assert!(stats.factor_lists > 0);
    assert!(stats.factor_references > 0);
    assert!(stats.atom_staging_entries > 0);
    assert!(stats.atom_sort_scratch_entries > 0);
    assert!(stats.atom_sort_comparisons > 0);
    assert!(stats.atom_dedup_scans > 0);
    assert!(stats.atoms > 0);
    assert!(stats.atom_lookup_comparisons > 0);
    assert!(stats.formula_compile_steps > 0);
    assert!(stats.priority_candidate_pairs > 0);
    assert!(stats.unsupported_references > 0);
    assert!(stats.typed_root_node_mark_entries > 0);
    assert!(stats.typed_root_terminal_mark_entries > 0);
    assert!(stats.typed_root_stack_entries > 0);
    assert!(stats.typed_root_stack_pushes > 0);
    assert!(stats.typed_root_visits > 0);

    let mut exact = ParametricSectorMtbddLimits::default();
    exact.max_base_structural_loci = stats.base_structural_loci;
    exact.max_attempts = stats.attempts;
    exact.max_normalized_clauses = stats.normalized_clauses;
    exact.max_normalized_literals = stats.normalized_literals;
    exact.max_clause_source_references = stats.clause_source_references;
    exact.max_factor_lists = stats.factor_lists;
    exact.max_factor_references = stats.factor_references;
    exact.max_atom_staging_entries = stats.atom_staging_entries;
    exact.max_atom_sort_scratch_entries = stats.atom_sort_scratch_entries;
    exact.max_atom_sort_comparisons = stats.atom_sort_comparisons;
    exact.max_atom_dedup_scans = stats.atom_dedup_scans;
    exact.max_atoms = stats.atoms;
    exact.max_atom_lookup_comparisons = stats.atom_lookup_comparisons;
    exact.max_formula_compile_steps = stats.formula_compile_steps;
    exact.max_priority_candidate_pairs = stats.priority_candidate_pairs;
    exact.max_unsupported_references = stats.unsupported_references;
    exact.max_typed_root_node_mark_entries = stats.typed_root_node_mark_entries;
    exact.max_typed_root_terminal_mark_entries = stats.typed_root_terminal_mark_entries;
    exact.max_typed_root_stack_entries = stats.typed_root_stack_entries;
    exact.max_typed_root_stack_pushes = stats.typed_root_stack_pushes;
    exact.max_typed_root_visits = stats.typed_root_visits;
    let exact_function = ParametricSectorMtbddCompiler::compile(&normalized, exact).unwrap();
    assert_eq!(exact_function.rooted(), baseline.rooted());

    outer_one_below(&normalized, |l, v| l.max_base_structural_loci = v, stats.base_structural_loci, "base structural loci");
    outer_one_below(&normalized, |l, v| l.max_attempts = v, stats.attempts, "normalized coverage attempts");
    outer_one_below(&normalized, |l, v| l.max_normalized_clauses = v, stats.normalized_clauses, "normalized bad clauses");
    outer_one_below(&normalized, |l, v| l.max_normalized_literals = v, stats.normalized_literals, "normalized bad literals");
    outer_one_below(
        &normalized,
        |l, v| l.max_clause_source_references = v,
        stats.clause_source_references,
        "normalized clause source references",
    );
    outer_one_below(&normalized, |l, v| l.max_factor_lists = v, stats.factor_lists, "normalized factor lists");
    outer_one_below(&normalized, |l, v| l.max_factor_references = v, stats.factor_references, "normalized factor references");
    outer_one_below(
        &normalized,
        |l, v| l.max_atom_staging_entries = v,
        stats.atom_staging_entries,
        "normalized MTBDD atom staging entries",
    );
    outer_one_below(
        &normalized,
        |l, v| l.max_atom_sort_scratch_entries = v,
        stats.atom_sort_scratch_entries,
        "normalized MTBDD atom sort scratch entries",
    );
    outer_one_below(
        &normalized,
        |l, v| l.max_atom_sort_comparisons = v,
        stats.atom_sort_comparisons,
        "normalized MTBDD atom sort comparisons",
    );
    outer_one_below(
        &normalized,
        |l, v| l.max_atom_dedup_scans = v,
        stats.atom_dedup_scans,
        "normalized MTBDD atom dedup scans",
    );
    outer_one_below(&normalized, |l, v| l.max_atoms = v, stats.atoms, "normalized MTBDD atoms");
    core_one_below(
        &normalized,
        |l, v| l.max_atom_lookup_comparisons = v,
        stats.atom_lookup_comparisons,
        "MTBDD atom lookup comparisons",
    );
    core_one_below(
        &normalized,
        |l, v| l.max_formula_compile_steps = v,
        stats.formula_compile_steps,
        "MTBDD formula compile steps",
    );
    core_one_below(
        &normalized,
        |l, v| l.max_priority_candidate_pairs = v,
        stats.priority_candidate_pairs,
        "MTBDD priority candidate pairs",
    );
    core_one_below(
        &normalized,
        |l, v| l.max_unsupported_references = v,
        stats.unsupported_references,
        "MTBDD unsupported fallback references",
    );
    outer_one_below(
        &normalized,
        |l, v| l.max_typed_root_node_mark_entries = v,
        stats.typed_root_node_mark_entries,
        "typed-root node-mark entries",
    );
    outer_one_below(
        &normalized,
        |l, v| l.max_typed_root_terminal_mark_entries = v,
        stats.typed_root_terminal_mark_entries,
        "typed-root terminal-mark entries",
    );
    outer_one_below(
        &normalized,
        |l, v| l.max_typed_root_stack_entries = v,
        stats.typed_root_stack_entries,
        "typed-root traversal stack entries",
    );
    outer_one_below(
        &normalized,
        |l, v| l.max_typed_root_stack_pushes = v,
        stats.typed_root_stack_pushes,
        "typed-root traversal stack pushes",
    );
    outer_one_below(
        &normalized,
        |l, v| l.max_typed_root_visits = v,
        stats.typed_root_visits,
        "typed final-root visits",
    );
}

#[test]
fn classification_budget_and_rooted_rebuild_are_enforced() {
    let normalized = ir(0, Vec::new());
    let mut exact = ParametricSectorMtbddLimits::default();
    exact.max_classification_visits = 1;
    let function = ParametricSectorMtbddCompiler::compile(&normalized, exact).unwrap();
    assert_eq!(
        function.classify_assignment(&[]).unwrap(),
        &ParametricSectorMtbddDisposition::Uncovered
    );
    let rebuilt =
        CoverageDecisionDag::rebuild_rooted(function.rooted(), CoverageDecisionDagLimits::default())
            .unwrap();
    assert_eq!(rebuilt.roots().len(), 1);
    assert_eq!(rebuilt.dag().retained_stats(), function.rooted().retained_stats());

    let mut below = ParametricSectorMtbddLimits::default();
    below.max_classification_visits = 0;
    let function = ParametricSectorMtbddCompiler::compile(&normalized, below).unwrap();
    assert!(matches!(
        function.classify_assignment(&[]),
        Err(ParametricSectorMtbddError::ResourceLimit {
            resource: "MTBDD classification visits",
            requested: 1,
            limit: 0,
        })
    ));
    assert!(matches!(
        function.classify_assignment(&[false]),
        Err(ParametricSectorMtbddError::AssignmentArityMismatch {
            expected: 0,
            actual: 1
        })
    ));
}

#[test]
fn multi_node_classification_budget_has_exact_and_one_below_evidence() {
    let normalized = ir(
        2,
        vec![
            dnf_attempt(
                0,
                vec![clause(
                    DirectBadFormulaClause::Conjunction(
                        literal(0, NormalizedBadLiteralPolarity::EqualZero),
                        literal(1, NormalizedBadLiteralPolarity::EqualZero),
                    ),
                    0,
                    NormalizedBadClauseRole::Ordinary,
                )],
                Vec::new(),
            ),
            false_attempt(1),
        ],
    );
    let mut exact = ParametricSectorMtbddLimits::default();
    exact.max_classification_visits = 3;
    let function = ParametricSectorMtbddCompiler::compile(&normalized, exact).unwrap();
    assert_eq!(
        function.classify_assignment(&[true, true]).unwrap(),
        &ParametricSectorMtbddDisposition::DescendingRule {
            candidate_ordinal: 1,
        }
    );

    let mut below = ParametricSectorMtbddLimits::default();
    below.max_classification_visits = 2;
    let function = ParametricSectorMtbddCompiler::compile(&normalized, below).unwrap();
    assert!(matches!(
        function.classify_assignment(&[true, true]),
        Err(ParametricSectorMtbddError::ResourceLimit {
            resource: "MTBDD classification visits",
            requested: 3,
            limit: 2,
        })
    ));
}

#[test]
fn production_and_independent_reference_agree_for_all_small_assignments() {
    let normalized = resource_fixture();
    let function = compile(&normalized);
    for mask in 0usize..(1usize << normalized.base_structural_locus_count()) {
        let zero = (0..normalized.base_structural_locus_count())
            .map(|bit| mask & (1 << bit) != 0)
            .collect::<Vec<_>>();
        assert_eq!(
            function.classify_assignment(&zero).unwrap(),
            &reference_disposition_for_assignment(&normalized, &zero).unwrap(),
            "assignment mask {mask:05b}"
        );
    }
}

#[test]
fn a_typed_root_within_exact_walk_limits_validates() {
    let empty = ir(0, Vec::new());
    let mut dag = CoverageDecisionDag::new(1, CoverageDecisionDagLimits::default()).unwrap();
    let when_false = dag
        .intern_terminal(ParametricSectorMtbddTerminalPayload::BooleanFalse)
        .unwrap();
    let when_true = dag
        .intern_terminal(ParametricSectorMtbddTerminalPayload::BooleanTrue)
        .unwrap();
    let boolean = dag.boolean_terminals(when_false, when_true).unwrap();
    let uncovered = dag
        .intern_terminal(ParametricSectorMtbddTerminalPayload::Disposition(
            ParametricSectorMtbddDisposition::Uncovered,
        ))
        .unwrap();
    let below = dag.branch(0, when_false, uncovered);
    assert!(below.is_ok());
    let rooted = dag.export_rooted(&[uncovered], boolean).unwrap();
    let nodes = rooted.nodes().len();
    let terminals = rooted.terminal_payloads().len();
    let mut exact = typed_root_limits(2 + nodes + terminals);
    exact.max_typed_root_node_mark_entries = nodes;
    exact.max_typed_root_terminal_mark_entries = terminals;
    exact.max_typed_root_stack_entries = nodes + 1;
    exact.max_typed_root_stack_pushes = 1 + 2 * nodes;
    let stats = validate_typed_final_root(&rooted, &empty, 1, exact).unwrap();
    assert_eq!(stats.visits, 3);
    assert_eq!(stats.stack_pushes, 1);
    assert_eq!(stats.node_mark_entries, nodes);
    assert_eq!(stats.terminal_mark_entries, terminals);
}

#[test]
fn classification_succeeds_when_the_visit_limit_covers_one_entry_per_atom() {
    let normalized = ir(
        2,
        vec![dnf_attempt(
            0,
            vec![clause(
                DirectBadFormulaClause::Conjunction(
                    literal(0, NormalizedBadLiteralPolarity::EqualZero),
                    literal(1, NormalizedBadLiteralPolarity::NonZero),
                ),
                0,
                NormalizedBadClauseRole::Ordinary,
            )],
            Vec::new(),
        )],
    );
    let atoms = compile(&normalized).atoms().len();
    assert!(atoms >= 1 && atoms <= 2);
    let limits = ParametricSectorMtbddLimits {
        max_classification_visits: atoms + 1,
        ..ParametricSectorMtbddLimits::default()
    };
    let function = ParametricSectorMtbddCompiler::compile(&normalized, limits).unwrap();
    for zero in [[false, false], [false, true], [true, false], [true, true]] {
        let disposition = function.classify_assignment(&zero).unwrap();
        assert_eq!(disposition, &reference_disposition_for_assignment(&normalized, &zero).unwrap());
    }
}

#[test]
fn an_ir_of_unsupported_attempts_compiles_within_exact_fallback_limits() {
    let normalized = ir(2, vec![unsupported(0), unsupported(1)]);
    let mut limits = ParametricSectorMtbddLimits::default();
    limits.max_unsupported_references = 2;
    limits.dag.max_terminals = 3;
    limits.dag.max_terminal_index_entries = 3;
    limits.dag.max_retained_terminal_payload_handles = 6;
    limits.dag.max_roots = 1;
    limits.max_typed_root_terminal_mark_entries = 3;
    limits.max_typed_root_stack_entries = 1;
    limits.max_typed_root_visits = 5;
    limits.max_typed_root_stack_pushes = 1;
    let function = ParametricSectorMtbddCompiler::compile(&normalized, limits).unwrap();
    assert_eq!(function.rooted().nodes().len(), 0);
    assert_eq!(function.rooted().terminal_payloads().len(), 3);
    for zero in [[false, false], [true, false], [false, true], [true, true]] {
        assert_eq!(
            function.classify_assignment(&zero).unwrap(),
            &ParametricSectorMtbddDisposition::Unsupported {
                candidate_ordinals: vec![0, 1],
            }
        );
    }
    let mut one_below = limits;
    one_below.dag.max_terminals = 2;
    assert!(ParametricSectorMtbddCompiler::compile(&normalized, one_below).is_err());
}
