//! Baseline reduced decision DAG for normalized sector-coverage formulas.

use vstd::prelude::*;
use crate::coverage_decision_dag::{
    CoverageDecisionBooleanTerminals, CoverageDecisionDag, CoverageDecisionDagError,
    CoverageDecisionDagLimits, CoverageDecisionDagRetainedStats, CoverageDecisionDagRootedView,
    CoverageDecisionDagWorkStats, CoverageDecisionNode, CoverageDecisionRef, arena_wf, eval_ref,
    ite_value, priority_value, ref_below,
};
use crate::parametric_sector_formula_ir::{
    DirectBadFormulaClause, NormalizedBadClause, NormalizedBadClauseRole, NormalizedBadFormulaBody,
    NormalizedBadLiteral, NormalizedBadLiteralPolarity, NormalizedCoverageAttempt,
    NormalizedCoverageIr, NormalizedFactorZeroSource, ParametricSectorFormulaIrError,
    attempt_in_range, attempt_ordinal, clause_holds, clause_in_range, clauses_in_range,
    factors_consistent, factors_in_range, formula_holds, lemma_dnf_split, literal_holds,
    some_factor_zero, some_ordinary_clause_holds, body_in_range,
};

verus! {

pub const PARAMETRIC_SECTOR_MTBDD_ATOM_ORDER_V1: &'static str =
    "rustred-coverage-polynomial-zero-by-base-structural-locus-v1";

/// Dense decision atom: one base structural locus tested by the DAG.
#[derive(Clone, Copy, Debug, PartialEq, Eq, Hash, Structural)]
pub struct ParametricSectorMtbddAtom {
    pub structural_locus_ordinal: usize,
}

impl ParametricSectorMtbddAtom {
    pub fn structural_locus_ordinal(self) -> (r: usize)
        ensures
            r == self.structural_locus_ordinal,
    {
        self.structural_locus_ordinal
    }
}

#[derive(Clone, Debug, PartialEq, Eq)]
pub enum ParametricSectorMtbddDisposition {
    DescendingRule { candidate_ordinal: usize },
    Uncovered,
    Unsupported { candidate_ordinals: Vec<usize> },
}

#[derive(Clone, Debug, PartialEq, Eq)]
pub enum ParametricSectorMtbddTerminalPayload {
    BooleanFalse,
    BooleanTrue,
    Disposition(ParametricSectorMtbddDisposition),
}

/// Mathematical content of a disposition.
pub enum DispositionView {
    DescendingRule(usize),
    Uncovered,
    Unsupported(Seq<usize>),
}

pub enum PayloadView {
    BooleanFalse,
    BooleanTrue,
    Disposition(DispositionView),
}

impl ParametricSectorMtbddDisposition {
    pub open spec fn view(&self) -> DispositionView {
        match self {
            ParametricSectorMtbddDisposition::DescendingRule { candidate_ordinal } =>
                DispositionView::DescendingRule(*candidate_ordinal),
            ParametricSectorMtbddDisposition::Uncovered => DispositionView::Uncovered,
            ParametricSectorMtbddDisposition::Unsupported { candidate_ordinals } =>
                DispositionView::Unsupported(candidate_ordinals@),
        }
    }
}

impl ParametricSectorMtbddTerminalPayload {
    pub open spec fn view(&self) -> PayloadView {
        match self {
            ParametricSectorMtbddTerminalPayload::BooleanFalse => PayloadView::BooleanFalse,
            ParametricSectorMtbddTerminalPayload::BooleanTrue => PayloadView::BooleanTrue,
            ParametricSectorMtbddTerminalPayload::Disposition(d) => PayloadView::Disposition(d.view()),
        }
    }
}

pub fn usize_slices_eq(left: &[usize], right: &[usize]) -> (r: bool)
    ensures
        r == (left@ == right@),
{
    if left.len() != right.len() {
        return false;
    }
    let mut i: usize = 0;
    while i < left.len()
        invariant
            i <= left@.len(),
            left@.len() == right@.len(),
            forall|j: int| 0 <= j < i ==> left@[j] == right@[j],
        decreases left@.len() - i,
    {
        if left[i] != right[i] {
            return false;
        }
        i += 1;
    }
    assert(left@ =~= right@);
    true
}

pub fn disposition_eq(left: &ParametricSectorMtbddDisposition, right: &ParametricSectorMtbddDisposition) -> (r: bool)
    ensures
        r == (left.view() == right.view()),
{
    match (left, right) {
        (
            ParametricSectorMtbddDisposition::DescendingRule { candidate_ordinal: a },
            ParametricSectorMtbddDisposition::DescendingRule { candidate_ordinal: b },
        ) => *a == *b,
        (ParametricSectorMtbddDisposition::Uncovered, ParametricSectorMtbddDisposition::Uncovered) => true,
        (
            ParametricSectorMtbddDisposition::Unsupported { candidate_ordinals: a },
            ParametricSectorMtbddDisposition::Unsupported { candidate_ordinals: b },
        ) => usize_slices_eq(a.as_slice(), b.as_slice()),
        _ => false,
    }
}

pub fn payload_eq(left: &ParametricSectorMtbddTerminalPayload, right: &ParametricSectorMtbddTerminalPayload) -> (r: bool)
    ensures
        r == (left.view() == right.view()),
{
    match (left, right) {
        (ParametricSectorMtbddTerminalPayload::BooleanFalse, ParametricSectorMtbddTerminalPayload::BooleanFalse) => true,
        (ParametricSectorMtbddTerminalPayload::BooleanTrue, ParametricSectorMtbddTerminalPayload::BooleanTrue) => true,
        (ParametricSectorMtbddTerminalPayload::Disposition(a), ParametricSectorMtbddTerminalPayload::Disposition(b)) => disposition_eq(a, b),
        _ => false,
    }
}


pub fn clone_usizes(source: &[usize]) -> (r: Vec<usize>)
    ensures
        r@ == source@,
{
    let mut out: Vec<usize> = Vec::new();
    let mut i: usize = 0;
    while i < source.len()
        invariant
            i <= source@.len(),
            out@ == source@.subrange(0, i as int),
        decreases source@.len() - i,
    {
        out.push(source[i]);
        i += 1;
        proof {
            assert(out@ =~= source@.subrange(0, i as int));
        }
    }
    assert(out@ =~= source@);
    out
}

pub fn clone_disposition(d: &ParametricSectorMtbddDisposition) -> (r: ParametricSectorMtbddDisposition)
    ensures
        r.view() == d.view(),
{
    match d {
        ParametricSectorMtbddDisposition::DescendingRule { candidate_ordinal } =>
            ParametricSectorMtbddDisposition::DescendingRule { candidate_ordinal: *candidate_ordinal },
        ParametricSectorMtbddDisposition::Uncovered => ParametricSectorMtbddDisposition::Uncovered,
        ParametricSectorMtbddDisposition::Unsupported { candidate_ordinals } =>
            ParametricSectorMtbddDisposition::Unsupported { candidate_ordinals: clone_usizes(candidate_ordinals.as_slice()) },
    }
}

pub fn clone_payload(p: &ParametricSectorMtbddTerminalPayload) -> (r: ParametricSectorMtbddTerminalPayload)
    ensures
        r.view() == p.view(),
{
    match p {
        ParametricSectorMtbddTerminalPayload::BooleanFalse => ParametricSectorMtbddTerminalPayload::BooleanFalse,
        ParametricSectorMtbddTerminalPayload::BooleanTrue => ParametricSectorMtbddTerminalPayload::BooleanTrue,
        ParametricSectorMtbddTerminalPayload::Disposition(d) => ParametricSectorMtbddTerminalPayload::Disposition(clone_disposition(d)),
    }
}

#[derive(Clone, Copy, Debug, PartialEq, Eq)]
pub struct ParametricSectorMtbddLimits {
    pub dag: CoverageDecisionDagLimits,
    pub max_base_structural_loci: usize,
    pub max_attempts: usize,
    pub max_normalized_clauses: usize,
    pub max_normalized_literals: usize,
    pub max_clause_source_references: usize,
    pub max_factor_lists: usize,
    pub max_factor_references: usize,
    pub max_atom_staging_entries: usize,
    pub max_atom_sort_scratch_entries: usize,
    pub max_atom_sort_comparisons: usize,
    pub max_atom_dedup_scans: usize,
    pub max_atoms: usize,
    pub max_atom_lookup_comparisons: usize,
    pub max_formula_compile_steps: usize,
    pub max_priority_candidate_pairs: usize,
    pub max_unsupported_references: usize,
    pub max_typed_root_node_mark_entries: usize,
    pub max_typed_root_terminal_mark_entries: usize,
    pub max_typed_root_stack_entries: usize,
    pub max_typed_root_stack_pushes: usize,
    pub max_typed_root_visits: usize,
    pub max_classification_visits: usize,
}

impl Default for ParametricSectorMtbddLimits {
    fn default() -> (r: Self)
        ensures
            r.max_attempts == 1_000_000,
            r.max_classification_visits == 16_000_000,
    {
        ParametricSectorMtbddLimits {
            dag: CoverageDecisionDagLimits::default_limits(),
            max_base_structural_loci: 16_000_000,
            max_attempts: 1_000_000,
            max_normalized_clauses: 16_000_000,
            max_normalized_literals: 32_000_000,
            max_clause_source_references: 32_000_000,
            max_factor_lists: 1_000_000,
            max_factor_references: 32_000_000,
            max_atom_staging_entries: 32_000_000,
            max_atom_sort_scratch_entries: 32_000_000,
            max_atom_sort_comparisons: 1_000_000_000,
            max_atom_dedup_scans: 32_000_000,
            max_atoms: 16_000_000,
            max_atom_lookup_comparisons: 256_000_000,
            max_formula_compile_steps: 256_000_000,
            max_priority_candidate_pairs: 16_000_000,
            max_unsupported_references: 16_000_000,
            max_typed_root_node_mark_entries: 16_000_000,
            max_typed_root_terminal_mark_entries: 1_000_000,
            max_typed_root_stack_entries: 16_000_001,
            max_typed_root_stack_pushes: 32_000_001,
            max_typed_root_visits: 16_000_000,
            max_classification_visits: 16_000_000,
        }
    }
}

#[derive(Clone, Copy, Debug, Default, PartialEq, Eq)]
pub struct ParametricSectorMtbddStats {
    pub base_structural_loci: usize,
    pub attempts: usize,
    pub certified_attempts: usize,
    pub unsupported_attempts: usize,
    pub normalized_clauses: usize,
    pub normalized_literals: usize,
    pub clause_source_references: usize,
    pub factor_lists: usize,
    pub factor_references: usize,
    pub atom_staging_entries: usize,
    pub atom_sort_scratch_entries: usize,
    pub atom_sort_comparisons: usize,
    pub atom_dedup_scans: usize,
    pub atoms: usize,
    pub atom_lookup_comparisons: usize,
    pub formula_compile_steps: usize,
    pub priority_candidate_pairs: usize,
    pub unsupported_references: usize,
    pub typed_root_node_mark_entries: usize,
    pub typed_root_terminal_mark_entries: usize,
    pub typed_root_stack_entries: usize,
    pub typed_root_stack_pushes: usize,
    pub typed_root_visits: usize,
    pub arena_retained_before_export: CoverageDecisionDagRetainedStats,
    pub rooted_retained: CoverageDecisionDagRetainedStats,
    pub dag_work: CoverageDecisionDagWorkStats,
}

pub fn zero_stats() -> (r: ParametricSectorMtbddStats)
    ensures
        r.normalized_literals == 0,
        r.atom_staging_entries == 0,
        r.atom_sort_comparisons == 0,
        r.atom_dedup_scans == 0,
        r.unsupported_attempts == 0,
        r.certified_attempts == 0,
        r.attempts == 0,
        r.base_structural_loci == 0,
{
    let empty_retained = CoverageDecisionDagRetainedStats {
        nodes: 0,
        unique_table_entries: 0,
        child_references: 0,
        terminals: 0,
        terminal_index_entries: 0,
        terminal_payload_handles: 0,
    };
    ParametricSectorMtbddStats {
        base_structural_loci: 0,
        attempts: 0,
        certified_attempts: 0,
        unsupported_attempts: 0,
        normalized_clauses: 0,
        normalized_literals: 0,
        clause_source_references: 0,
        factor_lists: 0,
        factor_references: 0,
        atom_staging_entries: 0,
        atom_sort_scratch_entries: 0,
        atom_sort_comparisons: 0,
        atom_dedup_scans: 0,
        atoms: 0,
        atom_lookup_comparisons: 0,
        formula_compile_steps: 0,
        priority_candidate_pairs: 0,
        unsupported_references: 0,
        typed_root_node_mark_entries: 0,
        typed_root_terminal_mark_entries: 0,
        typed_root_stack_entries: 0,
        typed_root_stack_pushes: 0,
        typed_root_visits: 0,
        arena_retained_before_export: empty_retained,
        rooted_retained: empty_retained,
        dag_work: CoverageDecisionDagWorkStats { branch_calls: 0, apply_steps: 0, terminal_interning_calls: 0 },
    }
}

#[derive(Clone, Debug, PartialEq, Eq)]
pub enum ParametricSectorMtbddError {
    ResourceLimit { resource: &'static str, requested: usize, limit: usize },
    ResourceCountOverflow { resource: &'static str },
    AllocationFailure { resource: &'static str, requested: usize },
    AssignmentArityMismatch { expected: usize, actual: usize },
    BooleanTerminalReachable,
    DispositionCandidateOutOfRange { candidate_ordinal: usize, attempt_count: usize },
    DispositionCandidateIsNotCertified { candidate_ordinal: usize },
    UnsupportedFallbackMismatch,
    MalformedRootedView,
    FormulaIr(ParametricSectorFormulaIrError),
    Core(CoverageDecisionDagError),
}

pub fn checked_add(resource: &'static str, left: usize, right: usize) -> (r: Result<usize, ParametricSectorMtbddError>)
    ensures
        r matches Ok(v) ==> v == left + right,
        r is Err <==> left + right > usize::MAX,
        r matches Err(e) ==> e == (ParametricSectorMtbddError::ResourceCountOverflow { resource }),
{
    match left.checked_add(right) {
        Some(v) => Ok(v),
        None => Err(ParametricSectorMtbddError::ResourceCountOverflow { resource }),
    }
}

pub fn check_limit(resource: &'static str, requested: usize, limit: usize) -> (r: Result<(), ParametricSectorMtbddError>)
    ensures
        r is Ok <==> requested <= limit,
        r matches Err(e) ==> e == (ParametricSectorMtbddError::ResourceLimit { resource, requested, limit }),
{
    if requested > limit {
        Err(ParametricSectorMtbddError::ResourceLimit { resource, requested, limit })
    } else {
        Ok(())
    }
}

pub fn bounded_add(resource: &'static str, current: usize, delta: usize, limit: usize) -> (r: Result<usize, ParametricSectorMtbddError>)
    ensures
        r matches Ok(v) ==> v == current + delta && v <= limit,
        r is Ok <==> current + delta <= limit,
        r matches Err(e) ==> (current + delta > usize::MAX && e == (ParametricSectorMtbddError::ResourceCountOverflow { resource }))
            || (current + delta <= usize::MAX && e == (ParametricSectorMtbddError::ResourceLimit { resource, requested: (current + delta) as usize, limit })),
{
    let requested = checked_add(resource, current, delta)?;
    check_limit(resource, requested, limit)?;
    Ok(requested)
}

/// Charge one unit of a DAG-side counter.
pub fn charge_core_counter(resource: &'static str, counter: &mut usize, limit: usize) -> (r: Result<(), CoverageDecisionDagError>)
    ensures
        r is Ok <==> *old(counter) + 1 <= limit,
        r is Ok ==> *final(counter) == *old(counter) + 1,
        r is Err ==> *final(counter) == *old(counter),
        r matches Err(e) ==> (*old(counter) == usize::MAX && e == (CoverageDecisionDagError::ResourceCountOverflow { resource }))
            || (*old(counter) < usize::MAX && e == (CoverageDecisionDagError::ResourceLimit { resource, requested: (*old(counter) + 1) as usize, limit })),
{
    let current = *counter;
    if current == usize::MAX {
        return Err(CoverageDecisionDagError::ResourceCountOverflow { resource });
    }
    let requested = current + 1;
    if requested > limit {
        return Err(CoverageDecisionDagError::ResourceLimit { resource, requested, limit });
    }
    *counter = requested;
    Ok(())
}


pub open spec fn count_unsupported(attempts: Seq<NormalizedCoverageAttempt>, n: int) -> nat
    decreases n,
{
    if n <= 0 {
        0
    } else {
        count_unsupported(attempts, n - 1) + if attempts[n - 1] is Unsupported { 1nat } else { 0nat }
    }
}

/// Census of the normalized IR under the outer limits.
pub fn census_ir(ir: &NormalizedCoverageIr, limits: ParametricSectorMtbddLimits) -> (r: Result<ParametricSectorMtbddStats, ParametricSectorMtbddError>)
    ensures
        r matches Ok(st) ==> {
            &&& st.base_structural_loci == ir.spec_base_count()
            &&& st.attempts == ir.spec_attempts().len()
            &&& st.unsupported_attempts == count_unsupported(ir.spec_attempts(), ir.spec_attempts().len() as int)
            &&& st.certified_attempts + st.unsupported_attempts == st.attempts
            &&& st.normalized_literals <= limits.max_normalized_literals
            &&& st.atom_staging_entries == 0
            &&& st.atom_sort_comparisons == 0
            &&& st.atom_dedup_scans == 0
            &&& only_unsupported(ir.spec_attempts()) ==> st.normalized_literals == 0
        },
        ir.spec_base_count() <= limits.max_base_structural_loci && ir.spec_attempts().len() <= limits.max_attempts
            && only_unsupported(ir.spec_attempts()) ==> r is Ok,
        ir.spec_base_count() > limits.max_base_structural_loci ==> r == Err::<ParametricSectorMtbddStats, ParametricSectorMtbddError>(
            ParametricSectorMtbddError::ResourceLimit {
                resource: "base structural loci",
                requested: ir.spec_base_count(),
                limit: limits.max_base_structural_loci,
            }),
        ir.spec_base_count() <= limits.max_base_structural_loci && ir.spec_attempts().len() > limits.max_attempts
            ==> r == Err::<ParametricSectorMtbddStats, ParametricSectorMtbddError>(
            ParametricSectorMtbddError::ResourceLimit {
                resource: "normalized coverage attempts",
                requested: ir.spec_attempts().len() as usize,
                limit: limits.max_attempts,
            }),
{
    check_limit("base structural loci", ir.base_structural_locus_count(), limits.max_base_structural_loci)?;
    let attempts = ir.attempts();
    check_limit("normalized coverage attempts", attempts.len(), limits.max_attempts)?;
    let mut stats = zero_stats();
    stats.base_structural_loci = ir.base_structural_locus_count();
    stats.attempts = attempts.len();
    let mut i: usize = 0;
    while i < attempts.len()
        invariant
            i <= attempts@.len(),
            attempts@ == ir.spec_attempts(),
            ir.spec_base_count() <= limits.max_base_structural_loci,
            attempts@.len() <= limits.max_attempts,
            stats.base_structural_loci == ir.spec_base_count(),
            stats.attempts == attempts@.len(),
            stats.unsupported_attempts == count_unsupported(attempts@, i as int),
            stats.certified_attempts + stats.unsupported_attempts == i,
            stats.normalized_literals <= limits.max_normalized_literals,
            stats.atom_staging_entries == 0,
            stats.atom_sort_comparisons == 0,
            stats.atom_dedup_scans == 0,
            only_unsupported(attempts@) ==> stats.normalized_literals == 0,
        decreases attempts@.len() - i,
    {
        match &attempts[i] {
            NormalizedCoverageAttempt::Unsupported { .. } => {
                stats.unsupported_attempts = stats.unsupported_attempts + 1;
            },
            NormalizedCoverageAttempt::Certified(formula) => {
                stats.certified_attempts = stats.certified_attempts + 1;
                match &formula.body {
                    NormalizedBadFormulaBody::False => {},
                    NormalizedBadFormulaBody::True { sources } => {
                        stats.clause_source_references = bounded_add(
                            "normalized clause source references",
                            stats.clause_source_references,
                            sources.len(),
                            limits.max_clause_source_references,
                        )?;
                    },
                    NormalizedBadFormulaBody::Dnf { clauses, atomic_equal_zero_factors } => {
                        stats.normalized_clauses = bounded_add(
                            "normalized bad clauses",
                            stats.normalized_clauses,
                            clauses.len(),
                            limits.max_normalized_clauses,
                        )?;
                        let mut c: usize = 0;
                        while c < clauses.len()
                            invariant
                                c <= clauses@.len(),
                                stats.normalized_literals <= limits.max_normalized_literals,
                                ir.spec_base_count() <= limits.max_base_structural_loci,
                                attempts@ == ir.spec_attempts(),
                                attempts@.len() <= limits.max_attempts,
                                stats.base_structural_loci == ir.spec_base_count(),
                                stats.attempts == attempts@.len(),
                                stats.unsupported_attempts == count_unsupported(attempts@, i as int),
                                stats.certified_attempts + stats.unsupported_attempts == i + 1,
                                stats.atom_staging_entries == 0,
                                stats.atom_sort_comparisons == 0,
                                stats.atom_dedup_scans == 0,
                                i < attempts@.len(),
                                !(attempts@[i as int] is Unsupported),
                            decreases clauses@.len() - c,
                        {
                            let clause = &clauses[c];
                            stats.normalized_literals = bounded_add(
                                "normalized bad literals",
                                stats.normalized_literals,
                                clause.body.atom_count(),
                                limits.max_normalized_literals,
                            )?;
                            stats.clause_source_references = bounded_add(
                                "normalized clause source references",
                                stats.clause_source_references,
                                clause.sources.len(),
                                limits.max_clause_source_references,
                            )?;
                            c += 1;
                        }
                        if atomic_equal_zero_factors.len() != 0 {
                            stats.factor_lists = bounded_add(
                                "normalized factor lists",
                                stats.factor_lists,
                                1,
                                limits.max_factor_lists,
                            )?;
                        }
                        stats.factor_references = bounded_add(
                            "normalized factor references",
                            stats.factor_references,
                            atomic_equal_zero_factors.len(),
                            limits.max_factor_references,
                        )?;
                    },
                }
            },
        }
        i += 1;
    }
    Ok(stats)
}

/// The census counts of `b` are those of `a`.
pub open spec fn census_kept(a: ParametricSectorMtbddStats, b: ParametricSectorMtbddStats) -> bool {
    &&& b.base_structural_loci == a.base_structural_loci
    &&& b.attempts == a.attempts
    &&& b.certified_attempts == a.certified_attempts
    &&& b.unsupported_attempts == a.unsupported_attempts
}

pub open spec fn atoms_in_range(atoms: Seq<ParametricSectorMtbddAtom>, count: usize) -> bool {
    forall|i: int| 0 <= i < atoms.len() ==> (#[trigger] atoms[i]).structural_locus_ordinal < count
}

pub fn stage_dense_atom(
    atoms: &mut Vec<ParametricSectorMtbddAtom>,
    structural_locus_ordinal: usize,
    limits: ParametricSectorMtbddLimits,
    stats: &mut ParametricSectorMtbddStats,
) -> (r: Result<(), ParametricSectorMtbddError>)
    ensures
        r is Ok ==> final(atoms)@ == old(atoms)@.push((ParametricSectorMtbddAtom { structural_locus_ordinal }))
            && final(stats).atom_staging_entries == old(stats).atom_staging_entries + 1,
        r is Err ==> final(atoms)@ == old(atoms)@,
        r is Ok <==> old(stats).atom_staging_entries + 1 <= limits.max_atom_staging_entries,
        final(stats).atom_sort_comparisons == old(stats).atom_sort_comparisons,
        final(stats).atom_dedup_scans == old(stats).atom_dedup_scans,
        census_kept(*old(stats), *final(stats)),
{
    let staged = bounded_add(
        "normalized MTBDD atom staging entries",
        stats.atom_staging_entries,
        1,
        limits.max_atom_staging_entries,
    )?;
    atoms.push(ParametricSectorMtbddAtom { structural_locus_ordinal });
    stats.atom_staging_entries = staged;
    Ok(())
}

/// One bottom-up merge pass: each pair of adjacent sorted runs of `width`
/// in `source` is merged into the same range of `destination`.
pub fn merge_dense_atom_runs(
    source: &[ParametricSectorMtbddAtom],
    destination: &mut Vec<ParametricSectorMtbddAtom>,
    width: usize,
    limits: ParametricSectorMtbddLimits,
    stats: &mut ParametricSectorMtbddStats,
    Ghost(count): Ghost<usize>,
) -> (r: Result<(), ParametricSectorMtbddError>)
    requires
        old(destination)@.len() == source@.len(),
        width >= 1,
        atoms_in_range(source@, count),
        atoms_in_range(old(destination)@, count),
    ensures
        final(destination)@.len() == source@.len(),
        atoms_in_range(final(destination)@, count),
        census_kept(*old(stats), *final(stats)),
        *final(stats) == (ParametricSectorMtbddStats { atom_sort_comparisons: final(stats).atom_sort_comparisons, ..*old(stats) }),
        old(stats).atom_sort_comparisons <= final(stats).atom_sort_comparisons <= old(stats).atom_sort_comparisons
            + source@.len(),
        old(stats).atom_sort_comparisons + source@.len() <= limits.max_atom_sort_comparisons ==> r is Ok,
{
    let len = source.len();
    let run_width = if width > usize::MAX / 2 { usize::MAX } else { width * 2 };
    let mut start: usize = 0;
    while start < len
        invariant
            start <= len,
            len == source@.len(),
            destination@.len() == len,
            atoms_in_range(destination@, count),
            atoms_in_range(source@, count),
            width >= 1,
            run_width >= 1,
            census_kept(*old(stats), *stats),
            *stats == (ParametricSectorMtbddStats { atom_sort_comparisons: stats.atom_sort_comparisons, ..*old(stats) }),
            old(stats).atom_sort_comparisons <= stats.atom_sort_comparisons <= old(stats).atom_sort_comparisons + start,
        decreases len - start,
    {
        let middle = if width > len - start { len } else { start + width };
        let end = if run_width > len - start { len } else { start + run_width };
        let mid = if middle > end { end } else { middle };
        let mut left = start;
        let mut right = mid;
        let mut output = start;
        while output < end
            invariant
                start <= left <= mid,
                mid <= right <= end,
                end <= len,
                start < end,
                len == source@.len(),
                destination@.len() == len,
                atoms_in_range(destination@, count),
                atoms_in_range(source@, count),
                output == start + (left - start) + (right - mid),
                output <= end,
                census_kept(*old(stats), *stats),
                *stats == (ParametricSectorMtbddStats { atom_sort_comparisons: stats.atom_sort_comparisons, ..*old(stats) }),
                old(stats).atom_sort_comparisons <= stats.atom_sort_comparisons <= old(stats).atom_sort_comparisons
                    + output,
            decreases end - output,
        {
            let take_left = if left == mid {
                false
            } else if right == end {
                true
            } else {
                stats.atom_sort_comparisons = bounded_add(
                    "normalized MTBDD atom sort comparisons",
                    stats.atom_sort_comparisons,
                    1,
                    limits.max_atom_sort_comparisons,
                )?;
                source[left].structural_locus_ordinal <= source[right].structural_locus_ordinal
            };
            if take_left {
                destination.set(output, source[left]);
                left += 1;
            } else {
                destination.set(output, source[right]);
                right += 1;
            }
            output += 1;
        }
        start = end;
    }
    Ok(())
}

/// Width of the runs after one more merge pass over `len` atoms.
pub open spec fn next_run_width(width: nat, len: nat) -> nat {
    if width > len / 2 {
        len
    } else {
        width * 2
    }
}

/// Merge passes a bottom-up sort of `len` atoms makes from runs of `width`.
pub open spec fn merge_passes(width: nat, len: nat) -> nat
    decreases len - width,
{
    if width == 0 || width >= len {
        0
    } else {
        1 + merge_passes(next_run_width(width, len), len)
    }
}

/// Stable bounded merge sort of the staged atoms by locus ordinal.
pub fn bounded_sort_dense_atoms(
    atoms: &mut Vec<ParametricSectorMtbddAtom>,
    limits: ParametricSectorMtbddLimits,
    stats: &mut ParametricSectorMtbddStats,
    Ghost(count): Ghost<usize>,
) -> (r: Result<(), ParametricSectorMtbddError>)
    requires
        atoms_in_range(old(atoms)@, count),
    ensures
        final(atoms)@.len() == old(atoms)@.len(),
        atoms_in_range(final(atoms)@, count),
        old(atoms)@.len() > limits.max_atom_sort_scratch_entries ==> r is Err,
        census_kept(*old(stats), *final(stats)),
        old(atoms)@.len() <= limits.max_atom_sort_scratch_entries && old(stats).atom_sort_comparisons + old(atoms)@.len()
            * merge_passes(1, old(atoms)@.len()) <= limits.max_atom_sort_comparisons ==> r is Ok,
        final(stats).atom_dedup_scans == old(stats).atom_dedup_scans,
{
    let ghost budget: int = old(stats).atom_sort_comparisons + old(atoms)@.len() * merge_passes(1, old(atoms)@.len());
    check_limit(
        "normalized MTBDD atom sort scratch entries",
        atoms.len(),
        limits.max_atom_sort_scratch_entries,
    )?;
    let mut scratch: Vec<ParametricSectorMtbddAtom> = Vec::new();
    let mut k: usize = 0;
    while k < atoms.len()
        invariant
            k <= atoms@.len(),
            scratch@ == atoms@.subrange(0, k as int),
            atoms@ == old(atoms)@,
        decreases atoms@.len() - k,
    {
        scratch.push(atoms[k]);
        k += 1;
        proof {
            assert(scratch@ =~= atoms@.subrange(0, k as int));
        }
    }
    proof {
        assert(scratch@ =~= atoms@);
    }
    stats.atom_sort_scratch_entries = scratch.len();
    let len = atoms.len();
    assert(stats.atom_sort_comparisons == old(stats).atom_sort_comparisons);
    let mut width: usize = 1;
    let mut data_in_atoms = true;
    while width < len
        invariant
            atoms@.len() == len,
            scratch@.len() == len,
            atoms_in_range(atoms@, count),
            atoms_in_range(scratch@, count),
            width >= 1,
            len == old(atoms)@.len(),
            census_kept(*old(stats), *stats),
            budget == old(stats).atom_sort_comparisons + len * merge_passes(1, len as nat),
            stats.atom_sort_comparisons + len * merge_passes(width as nat, len as nat) <= budget,
            stats.atom_dedup_scans == old(stats).atom_dedup_scans,
        decreases len - width,
    {
        proof {
            let p = merge_passes(next_run_width(width as nat, len as nat), len as nat);
            assert(merge_passes(width as nat, len as nat) == 1 + p);
            assert(len * (1 + p) == len + len * p) by (nonlinear_arith);
            assert(next_run_width(width as nat, len as nat) == (if width > len / 2 { len as int } else { width * 2 }));
        }
        if data_in_atoms {
            merge_dense_atom_runs(atoms.as_slice(), &mut scratch, width, limits, stats, Ghost(count))?;
        } else {
            merge_dense_atom_runs(scratch.as_slice(), atoms, width, limits, stats, Ghost(count))?;
        }
        data_in_atoms = !data_in_atoms;
        width = if width > len / 2 { len } else { width * 2 };
    }
    if !data_in_atoms {
        let mut j: usize = 0;
        while j < len
            invariant
                j <= len,
                atoms@.len() == len,
                scratch@.len() == len,
                atoms_in_range(atoms@, count),
                atoms_in_range(scratch@, count),
                census_kept(*old(stats), *stats),
                stats.atom_dedup_scans == old(stats).atom_dedup_scans,
            decreases len - j,
        {
            atoms.set(j, scratch[j]);
            j += 1;
        }
    }
    Ok(())
}

/// Remove adjacent duplicate loci, keeping the first of each run.
pub fn bounded_dedup_dense_atoms(
    atoms: &mut Vec<ParametricSectorMtbddAtom>,
    limits: ParametricSectorMtbddLimits,
    stats: &mut ParametricSectorMtbddStats,
    Ghost(count): Ghost<usize>,
) -> (r: Result<(), ParametricSectorMtbddError>)
    requires
        atoms_in_range(old(atoms)@, count),
    ensures
        census_kept(*old(stats), *final(stats)),
        final(atoms)@.len() <= old(atoms)@.len(),
        atoms_in_range(final(atoms)@, count),
        r is Ok ==> forall|i: int| 0 < i < final(atoms)@.len() ==> (#[trigger] final(atoms)@[i]).structural_locus_ordinal != final(atoms)@[i - 1].structural_locus_ordinal,
        r is Ok <==> old(atoms)@.len() == 0 || old(stats).atom_dedup_scans + old(atoms)@.len() <= limits.max_atom_dedup_scans,
        r matches Ok(_) ==> final(stats).atom_dedup_scans == old(stats).atom_dedup_scans + old(atoms)@.len(),
{
    let len = atoms.len();
    let mut retained: usize = 0;
    let mut scanned: usize = 0;
    while scanned < len
        invariant
            retained <= scanned <= len,
            atoms@.len() == len,
            len == old(atoms)@.len(),
            atoms_in_range(atoms@, count),
            census_kept(*old(stats), *stats),
            stats.atom_dedup_scans == old(stats).atom_dedup_scans + scanned,
            scanned > 0 ==> stats.atom_dedup_scans <= limits.max_atom_dedup_scans,
            forall|i: int| 0 < i < retained ==> (#[trigger] atoms@[i]).structural_locus_ordinal != atoms@[i - 1].structural_locus_ordinal,
        decreases len - scanned,
    {
        stats.atom_dedup_scans = bounded_add(
            "normalized MTBDD atom dedup scans",
            stats.atom_dedup_scans,
            1,
            limits.max_atom_dedup_scans,
        )?;
        if retained == 0 || atoms[retained - 1].structural_locus_ordinal != atoms[scanned].structural_locus_ordinal {
            let value = atoms[scanned];
            atoms.set(retained, value);
            retained += 1;
        }
        scanned += 1;
    }
    atoms.truncate(retained);
    Ok(())
}

/// Atoms staged from `clauses`: one per literal.
pub open spec fn clauses_atom_total(clauses: Seq<NormalizedBadClause>) -> nat
    decreases clauses.len(),
{
    if clauses.len() == 0 {
        0
    } else {
        clauses_atom_total(clauses.drop_last()) + clauses.last().body.spec_atom_count()
    }
}

/// Atoms staged from one attempt: the literals of a certified DNF.
pub open spec fn attempt_atom_total(attempt: NormalizedCoverageAttempt) -> nat {
    match attempt {
        NormalizedCoverageAttempt::Certified(f) => match f.body {
            NormalizedBadFormulaBody::Dnf { clauses, .. } => clauses_atom_total(clauses@),
            _ => 0,
        },
        NormalizedCoverageAttempt::Unsupported { .. } => 0,
    }
}

/// Atoms staged from `attempts`.
pub open spec fn attempts_atom_total(attempts: Seq<NormalizedCoverageAttempt>) -> nat
    decreases attempts.len(),
{
    if attempts.len() == 0 {
        0
    } else {
        attempts_atom_total(attempts.drop_last()) + attempt_atom_total(attempts.last())
    }
}

pub proof fn lemma_clauses_atom_total_mono(clauses: Seq<NormalizedBadClause>, i: int, n: int)
    requires
        0 <= i <= n <= clauses.len(),
    ensures
        clauses_atom_total(clauses.take(i)) <= clauses_atom_total(clauses.take(n)),
    decreases n - i,
{
    if i < n {
        lemma_clauses_atom_total_mono(clauses, i, n - 1);
        assert(clauses.take(n).drop_last() =~= clauses.take(n - 1));
    }
}

pub proof fn lemma_attempts_atom_total_mono(attempts: Seq<NormalizedCoverageAttempt>, i: int, n: int)
    requires
        0 <= i <= n <= attempts.len(),
    ensures
        attempts_atom_total(attempts.take(i)) <= attempts_atom_total(attempts.take(n)),
    decreases n - i,
{
    if i < n {
        lemma_attempts_atom_total_mono(attempts, i, n - 1);
        assert(attempts.take(n).drop_last() =~= attempts.take(n - 1));
    }
}

/// The dense-atom budget that a build from `ir` stays within when every
/// staged atom is distinct: staging, sort scratch and comparisons, dedup
/// scans and the atom count.
pub open spec fn dense_atoms_within_budget(
    ir: NormalizedCoverageIr,
    literal_count: usize,
    limits: ParametricSectorMtbddLimits,
    stats: ParametricSectorMtbddStats,
) -> bool {
    let n = attempts_atom_total(ir.spec_attempts());
    &&& literal_count <= limits.max_atom_staging_entries
    &&& stats.atom_staging_entries + n <= limits.max_atom_staging_entries
    &&& n <= limits.max_atom_sort_scratch_entries
    &&& stats.atom_sort_comparisons + n * merge_passes(1, n) <= limits.max_atom_sort_comparisons
    &&& (n == 0 || stats.atom_dedup_scans + n <= limits.max_atom_dedup_scans)
    &&& n <= limits.max_atoms
}

pub fn build_dense_atoms(
    ir: &NormalizedCoverageIr,
    literal_count: usize,
    limits: ParametricSectorMtbddLimits,
    stats: &mut ParametricSectorMtbddStats,
) -> (r: Result<Vec<ParametricSectorMtbddAtom>, ParametricSectorMtbddError>)
    requires
        ir.wf(),
    ensures
        census_kept(*old(stats), *final(stats)),
        r matches Ok(atoms) ==> atoms_in_range(atoms@, ir.spec_base_count()) && atoms@.len() <= limits.max_atoms
            && atoms@.len() == final(stats).atoms
            && forall|i: int| 0 < i < atoms@.len() ==> (#[trigger] atoms@[i]).structural_locus_ordinal != atoms@[i - 1].structural_locus_ordinal,
        dense_atoms_within_budget(*ir, literal_count, limits, *old(stats)) ==> r is Ok,
{
    let ghost budget_ok = dense_atoms_within_budget(*ir, literal_count, limits, *old(stats));
    let ghost n: nat = attempts_atom_total(ir.spec_attempts());
    check_limit("normalized MTBDD atom staging entries", literal_count, limits.max_atom_staging_entries)?;
    let base = ir.base_structural_locus_count();
    let mut atoms: Vec<ParametricSectorMtbddAtom> = Vec::new();
    let attempts = ir.attempts();
    let mut i: usize = 0;
    while i < attempts.len()
        invariant
            i <= attempts@.len(),
            attempts@ == ir.spec_attempts(),
            base == ir.spec_base_count(),
            ir.wf(),
            atoms_in_range(atoms@, base),
            census_kept(*old(stats), *stats),
            budget_ok == dense_atoms_within_budget(*ir, literal_count, limits, *old(stats)),
            n == attempts_atom_total(ir.spec_attempts()),
            atoms@.len() == attempts_atom_total(attempts@.take(i as int)),
            stats.atom_staging_entries == old(stats).atom_staging_entries + atoms@.len(),
            stats.atom_sort_comparisons == old(stats).atom_sort_comparisons,
            stats.atom_dedup_scans == old(stats).atom_dedup_scans,
        decreases attempts@.len() - i,
    {
        proof {
            assert(attempt_in_range(attempts@[i as int], base));
            assert(attempts@.take(i + 1).drop_last() =~= attempts@.take(i as int));
            assert(attempts@.take(attempts@.len() as int) =~= attempts@);
            lemma_attempts_atom_total_mono(attempts@, i + 1, attempts@.len() as int);
        }
        if let NormalizedCoverageAttempt::Certified(formula) = &attempts[i] {
            if let NormalizedBadFormulaBody::Dnf { clauses, .. } = &formula.body {
                let mut c: usize = 0;
                let ghost before: nat = atoms@.len();
                assert(before + clauses_atom_total(clauses@) == attempts_atom_total(attempts@.take(i + 1)));
                assert(clauses@.take(0) =~= Seq::<NormalizedBadClause>::empty());
                while c < clauses.len()
                    invariant
                        c <= clauses@.len(),
                        clauses_in_range(clauses@, base),
                        atoms_in_range(atoms@, base),
                        census_kept(*old(stats), *stats),
                        budget_ok == dense_atoms_within_budget(*ir, literal_count, limits, *old(stats)),
                        budget_ok ==> before + clauses_atom_total(clauses@) <= n,
                        budget_ok ==> old(stats).atom_staging_entries + n <= limits.max_atom_staging_entries,
                        atoms@.len() == before + clauses_atom_total(clauses@.take(c as int)),
                        stats.atom_staging_entries == old(stats).atom_staging_entries + atoms@.len(),
                        stats.atom_sort_comparisons == old(stats).atom_sort_comparisons,
                        stats.atom_dedup_scans == old(stats).atom_dedup_scans,
                    decreases clauses@.len() - c,
                {
                    proof {
                        assert(clause_in_range(clauses@[c as int].body, base));
                        assert(clauses@.take(c + 1).drop_last() =~= clauses@.take(c as int));
                        assert(clauses@.take(clauses@.len() as int) =~= clauses@);
                        lemma_clauses_atom_total_mono(clauses@, c + 1, clauses@.len() as int);
                    }
                    match clauses[c].body {
                        DirectBadFormulaClause::Atom(literal) => {
                            stage_dense_atom(&mut atoms, literal.structural_locus_ordinal, limits, stats)?;
                        },
                        DirectBadFormulaClause::Conjunction(left, right) => {
                            stage_dense_atom(&mut atoms, left.structural_locus_ordinal, limits, stats)?;
                            stage_dense_atom(&mut atoms, right.structural_locus_ordinal, limits, stats)?;
                        },
                    }
                    c += 1;
                }
                assert(clauses@.take(clauses@.len() as int) =~= clauses@);
            }
        }
        i += 1;
    }
    assert(attempts@.take(attempts@.len() as int) =~= attempts@);
    bounded_sort_dense_atoms(&mut atoms, limits, stats, Ghost(base))?;
    bounded_dedup_dense_atoms(&mut atoms, limits, stats, Ghost(base))?;
    check_limit("normalized MTBDD atoms", atoms.len(), limits.max_atoms)?;
    stats.atoms = atoms.len();
    Ok(atoms)
}

/// Atoms in strictly increasing locus order.
pub open spec fn atoms_increasing(atoms: Seq<ParametricSectorMtbddAtom>) -> bool {
    forall|i: int, j: int| 0 <= i < j < atoms.len() ==> (#[trigger] atoms[i]).structural_locus_ordinal < (#[trigger] atoms[j]).structural_locus_ordinal
}

/// Dense atom whose locus is `locus`, found by binary search.
pub fn dense_atom_for_locus(
    atoms: &[ParametricSectorMtbddAtom],
    locus: usize,
    comparisons: &mut usize,
    limit: usize,
) -> (r: Result<usize, CoverageDecisionDagError>)
    ensures
        r matches Ok(i) ==> i < atoms@.len() && atoms@[i as int].structural_locus_ordinal == locus,
        *old(comparisons) <= *final(comparisons) <= *old(comparisons) + atoms@.len(),
        atoms_increasing(atoms@) && (exists|i: int| 0 <= i < atoms@.len() && (#[trigger] atoms@[i]).structural_locus_ordinal == locus)
            && *old(comparisons) + atoms@.len() <= limit ==> r is Ok,
{
    let ghost present = atoms_increasing(atoms@) && (exists|i: int|
        0 <= i < atoms@.len() && (#[trigger] atoms@[i]).structural_locus_ordinal == locus);
    let mut low: usize = 0;
    let mut high: usize = atoms.len();
    while low < high
        invariant
            low <= high <= atoms@.len(),
            *old(comparisons) <= *comparisons,
            *comparisons + (high - low) <= *old(comparisons) + atoms@.len(),
            present == (atoms_increasing(atoms@) && (exists|i: int|
                0 <= i < atoms@.len() && (#[trigger] atoms@[i]).structural_locus_ordinal == locus)),
            present ==> exists|i: int| low <= i < high && (#[trigger] atoms@[i]).structural_locus_ordinal == locus,
        decreases high - low,
    {
        charge_core_counter("MTBDD atom lookup comparisons", comparisons, limit)?;
        let middle = low + (high - low) / 2;
        let value = atoms[middle].structural_locus_ordinal;
        if value < locus {
            low = middle + 1;
        } else if value > locus {
            high = middle;
        } else {
            return Ok(middle);
        }
    }
    Err(CoverageDecisionDagError::InternalVariableOrderMismatch)
}


/// Assignment of the dense atoms induced by a base-locus assignment.
pub open spec fn dense_assignment(atoms: Seq<ParametricSectorMtbddAtom>, zero: Seq<bool>) -> Seq<bool> {
    Seq::new(atoms.len(), |i: int| zero[atoms[i].structural_locus_ordinal as int])
}

pub open spec fn terminal_index(r: CoverageDecisionRef) -> nat {
    match r {
        CoverageDecisionRef::Terminal(t) => t as nat,
        CoverageDecisionRef::Node(_) => 0,
    }
}

/// Terminal ordinal representing a Boolean value.
pub open spec fn bool_value(b: bool, boolean: CoverageDecisionBooleanTerminals) -> nat {
    if b {
        terminal_index(boolean.when_true)
    } else {
        terminal_index(boolean.when_false)
    }
}

pub open spec fn booleans_ok(dag: CoverageDecisionDag, boolean: CoverageDecisionBooleanTerminals) -> bool {
    &&& boolean.when_false is Terminal
    &&& boolean.when_true is Terminal
    &&& boolean.when_false != boolean.when_true
    &&& dag.valid_ref(boolean.when_false)
    &&& dag.valid_ref(boolean.when_true)
}

/// `x` computes the Boolean function `f` of the base-locus assignment.
pub open spec fn computes(
    dag: CoverageDecisionDag,
    x: CoverageDecisionRef,
    atoms: Seq<ParametricSectorMtbddAtom>,
    boolean: CoverageDecisionBooleanTerminals,
    f: spec_fn(Seq<bool>) -> bool,
) -> bool {
    forall|zero: Seq<bool>| #[trigger] dag.eval(x, dense_assignment(atoms, zero)) == bool_value(f(zero), boolean)
}

pub proof fn lemma_booleans_preserved(a: CoverageDecisionDag, b: CoverageDecisionDag, boolean: CoverageDecisionBooleanTerminals)
    requires
        booleans_ok(a, boolean),
        a.preserved_in(&b),
    ensures
        booleans_ok(b, boolean),
        b.spec_atom_count() == a.spec_atom_count(),
{
    a.lemma_preserved_facts(&b);
}

pub proof fn lemma_computes_preserved(
    a: CoverageDecisionDag,
    b: CoverageDecisionDag,
    x: CoverageDecisionRef,
    atoms: Seq<ParametricSectorMtbddAtom>,
    boolean: CoverageDecisionBooleanTerminals,
    f: spec_fn(Seq<bool>) -> bool,
)
    requires
        a.valid_ref(x),
        computes(a, x, atoms, boolean, f),
        a.preserved_in(&b),
    ensures
        computes(b, x, atoms, boolean, f),
        b.valid_ref(x),
{
    a.lemma_preserved_facts(&b);
    assert forall|zero: Seq<bool>| #[trigger] b.eval(x, dense_assignment(atoms, zero)) == bool_value(f(zero), boolean) by {
        assert(a.eval(x, dense_assignment(atoms, zero)) == bool_value(f(zero), boolean));
    }
}

pub fn compile_literal(
    dag: &mut CoverageDecisionDag,
    literal: NormalizedBadLiteral,
    atoms: &[ParametricSectorMtbddAtom],
    boolean: CoverageDecisionBooleanTerminals,
    comparisons: &mut usize,
    steps: &mut usize,
    limits: ParametricSectorMtbddLimits,
) -> (r: Result<CoverageDecisionRef, CoverageDecisionDagError>)
    requires
        old(dag).wf(),
        booleans_ok(*old(dag), boolean),
        atoms@.len() == old(dag).spec_atom_count(),
    ensures
        final(dag).wf(),
        old(dag).extended_by(final(dag)),
        old(dag).preserved_in(final(dag)),
        r matches Ok(x) ==> final(dag).valid_ref(x) && computes(*final(dag), x, atoms@, boolean, |zero: Seq<bool>| literal_holds(literal, zero)),
{
    proof {
        old(dag).lemma_preserved_refl();
    }
    charge_core_counter("MTBDD formula compile steps", steps, limits.max_formula_compile_steps)?;
    let atom = dense_atom_for_locus(atoms, literal.structural_locus_ordinal, comparisons, limits.max_atom_lookup_comparisons)?;
    proof {
        dag.lemma_terminal_facts(terminal_index(boolean.when_false) as usize, Seq::empty());
        dag.lemma_terminal_facts(terminal_index(boolean.when_true) as usize, Seq::empty());
    }
    let x = match literal.polarity {
        NormalizedBadLiteralPolarity::EqualZero => dag.branch(atom, boolean.when_false, boolean.when_true)?,
        NormalizedBadLiteralPolarity::NonZero => dag.branch(atom, boolean.when_true, boolean.when_false)?,
    };
    proof {
        let f = |zero: Seq<bool>| literal_holds(literal, zero);
        assert forall|zero: Seq<bool>| #[trigger] dag.eval(x, dense_assignment(atoms@, zero)) == bool_value(f(zero), boolean) by {
            let a = dense_assignment(atoms@, zero);
            old(dag).lemma_terminal_facts(terminal_index(boolean.when_false) as usize, a);
            old(dag).lemma_terminal_facts(terminal_index(boolean.when_true) as usize, a);
            assert(a[atom as int] == zero[literal.structural_locus_ordinal as int]);
        }
    }
    Ok(x)
}

pub open spec fn some_factor_zero_from(factors: Seq<NormalizedFactorZeroSource>, start: int, zero: Seq<bool>) -> bool {
    exists|j: int| start <= j < factors.len() && zero[#[trigger] factors[j].structural_locus_ordinal as int]
}

pub open spec fn ordinary_prefix_holds(clauses: Seq<NormalizedBadClause>, k: int, zero: Seq<bool>) -> bool {
    exists|i: int| 0 <= i < k && clauses[i].role == NormalizedBadClauseRole::Ordinary
        && #[trigger] clause_holds(clauses[i].body, zero)
}

/// Decision function of a bad formula: true terminal exactly where the
/// formula holds.
pub fn compile_formula(
    dag: &mut CoverageDecisionDag,
    body: &NormalizedBadFormulaBody,
    atoms: &[ParametricSectorMtbddAtom],
    boolean: CoverageDecisionBooleanTerminals,
    comparisons: &mut usize,
    steps: &mut usize,
    limits: ParametricSectorMtbddLimits,
) -> (r: Result<CoverageDecisionRef, CoverageDecisionDagError>)
    requires
        old(dag).wf(),
        booleans_ok(*old(dag), boolean),
        atoms@.len() == old(dag).spec_atom_count(),
        match *body {
            NormalizedBadFormulaBody::Dnf { clauses, atomic_equal_zero_factors } => factors_consistent(clauses@, atomic_equal_zero_factors@),
            _ => true,
        },
    ensures
        final(dag).wf(),
        old(dag).extended_by(final(dag)),
        old(dag).preserved_in(final(dag)),
        r matches Ok(x) ==> final(dag).valid_ref(x) && computes(*final(dag), x, atoms@, boolean, |zero: Seq<bool>| formula_holds(*body, zero)),
{
    proof {
        old(dag).lemma_preserved_refl();
    }
    charge_core_counter("MTBDD formula compile steps", steps, limits.max_formula_compile_steps)?;
    match body {
        NormalizedBadFormulaBody::False => {
            proof {
                assert forall|zero: Seq<bool>| #[trigger] dag.eval(boolean.when_false, dense_assignment(atoms@, zero)) == bool_value(formula_holds(*body, zero), boolean) by {
                    dag.lemma_terminal_facts(terminal_index(boolean.when_false) as usize, dense_assignment(atoms@, zero));
                }
            }
            Ok(boolean.when_false)
        },
        NormalizedBadFormulaBody::True { .. } => {
            proof {
                assert forall|zero: Seq<bool>| #[trigger] dag.eval(boolean.when_true, dense_assignment(atoms@, zero)) == bool_value(formula_holds(*body, zero), boolean) by {
                    dag.lemma_terminal_facts(terminal_index(boolean.when_true) as usize, dense_assignment(atoms@, zero));
                }
            }
            Ok(boolean.when_true)
        },
        NormalizedBadFormulaBody::Dnf { clauses, atomic_equal_zero_factors } => {
            let ghost start = *dag;
            let mut root = boolean.when_false;
            proof {
                assert forall|zero: Seq<bool>| #[trigger] dag.eval(root, dense_assignment(atoms@, zero))
                    == bool_value(some_factor_zero_from(atomic_equal_zero_factors@, atomic_equal_zero_factors@.len() as int, zero), boolean) by {
                    dag.lemma_terminal_facts(terminal_index(boolean.when_false) as usize, dense_assignment(atoms@, zero));
                }
            }
            let mut j = atomic_equal_zero_factors.len();
            while j > 0
                invariant
                    j <= atomic_equal_zero_factors@.len(),
                    dag.wf(),
                    old(dag).extended_by(dag),
                    old(dag).preserved_in(dag),
                    booleans_ok(*dag, boolean),
                    atoms@.len() == dag.spec_atom_count(),
                    dag.valid_ref(root),
                    forall|zero: Seq<bool>| #[trigger] dag.eval(root, dense_assignment(atoms@, zero))
                        == bool_value(some_factor_zero_from(atomic_equal_zero_factors@, j as int, zero), boolean),
                decreases j,
            {
                charge_core_counter("MTBDD formula compile steps", steps, limits.max_formula_compile_steps)?;
                let locus = atomic_equal_zero_factors[j - 1].structural_locus_ordinal;
                let atom = dense_atom_for_locus(atoms, locus, comparisons, limits.max_atom_lookup_comparisons)?;
                let ghost before = *dag;
                proof {
                    dag.lemma_terminal_facts(terminal_index(boolean.when_true) as usize, Seq::empty());
                    dag.lemma_ref_facts();
                }
                let root_top_ok = match root {
                    CoverageDecisionRef::Node(n) => dag.nodes()[n].atom > atom,
                    CoverageDecisionRef::Terminal(_) => true,
                };
                if !root_top_ok {
                    return Err(CoverageDecisionDagError::InternalVariableOrderMismatch);
                }
                proof {
                    assert(dag.top(root) > atom) by {
                        match root {
                            CoverageDecisionRef::Terminal(t) => {
                                dag.lemma_terminal_facts(t, Seq::empty());
                            },
                            CoverageDecisionRef::Node(n) => {
                                dag.lemma_top_node(n);
                            },
                        }
                    }
                }
                let next = match dag.branch(atom, root, boolean.when_true) {
                    Ok(x) => x,
                    Err(e) => {
                        proof {
                            crate::coverage_decision_dag::lemma_extended_trans(old(dag), &before, dag);
                            crate::coverage_decision_dag::lemma_preserved_trans(old(dag), &before, dag);
                        }
                        return Err(e);
                    },
                };
                proof {
                    crate::coverage_decision_dag::lemma_extended_trans(old(dag), &before, dag);
                    crate::coverage_decision_dag::lemma_preserved_trans(old(dag), &before, dag);
                    lemma_booleans_preserved(before, *dag, boolean);
                    assert forall|zero: Seq<bool>| #[trigger] dag.eval(next, dense_assignment(atoms@, zero))
                        == bool_value(some_factor_zero_from(atomic_equal_zero_factors@, j - 1, zero), boolean) by {
                        let a = dense_assignment(atoms@, zero);
                        before.lemma_terminal_facts(terminal_index(boolean.when_true) as usize, a);
                        assert(before.eval(root, a) == bool_value(some_factor_zero_from(atomic_equal_zero_factors@, j as int, zero), boolean));
                        assert(a[atom as int] == zero[locus as int]);
                        if zero[locus as int] {
                            assert(some_factor_zero_from(atomic_equal_zero_factors@, j - 1, zero));
                        } else {
                            if some_factor_zero_from(atomic_equal_zero_factors@, j - 1, zero) {
                                let w = choose|w: int| j - 1 <= w < atomic_equal_zero_factors@.len() && zero[#[trigger] atomic_equal_zero_factors@[w].structural_locus_ordinal as int];
                                assert(w != j - 1);
                                assert(some_factor_zero_from(atomic_equal_zero_factors@, j as int, zero));
                            }
                            if some_factor_zero_from(atomic_equal_zero_factors@, j as int, zero) {
                                let w = choose|w: int| j <= w < atomic_equal_zero_factors@.len() && zero[#[trigger] atomic_equal_zero_factors@[w].structural_locus_ordinal as int];
                                assert(some_factor_zero_from(atomic_equal_zero_factors@, j - 1, zero));
                            }
                        }
                    }
                }
                root = next;
                j = j - 1;
            }
            let mut c: usize = 0;
            while c < clauses.len()
                invariant
                    c <= clauses@.len(),
                    dag.wf(),
                    old(dag).extended_by(dag),
                    old(dag).preserved_in(dag),
                    booleans_ok(*dag, boolean),
                    atoms@.len() == dag.spec_atom_count(),
                    dag.valid_ref(root),
                    forall|zero: Seq<bool>| #[trigger] dag.eval(root, dense_assignment(atoms@, zero))
                        == bool_value(some_factor_zero_from(atomic_equal_zero_factors@, 0, zero) || ordinary_prefix_holds(clauses@, c as int, zero), boolean),
                decreases clauses@.len() - c,
            {
                let clause = &clauses[c];
                if clause.role == NormalizedBadClauseRole::AtomicEqualZeroFactor {
                    proof {
                        assert forall|zero: Seq<bool>| #[trigger] ordinary_prefix_holds(clauses@, c + 1, zero) == ordinary_prefix_holds(clauses@, c as int, zero) by {
                            if ordinary_prefix_holds(clauses@, c + 1, zero) {
                                let w = choose|w: int| 0 <= w < c + 1 && clauses@[w].role == NormalizedBadClauseRole::Ordinary && #[trigger] clause_holds(clauses@[w].body, zero);
                                assert(w != c);
                            }
                        }
                    }
                    c += 1;
                    continue;
                }
                charge_core_counter("MTBDD formula compile steps", steps, limits.max_formula_compile_steps)?;
                let ghost before = *dag;
                let clause_root = match clause.body {
                    DirectBadFormulaClause::Atom(literal) => {
                        match compile_literal(dag, literal, atoms, boolean, comparisons, steps, limits) {
                            Ok(x) => x,
                            Err(e) => {
                                proof {
                                    crate::coverage_decision_dag::lemma_extended_trans(old(dag), &before, dag);
                                    crate::coverage_decision_dag::lemma_preserved_trans(old(dag), &before, dag);
                                }
                                return Err(e);
                            },
                        }
                    },
                    DirectBadFormulaClause::Conjunction(left, right) => {
                        let l = match compile_literal(dag, left, atoms, boolean, comparisons, steps, limits) {
                            Ok(x) => x,
                            Err(e) => {
                                proof {
                                    crate::coverage_decision_dag::lemma_extended_trans(old(dag), &before, dag);
                                    crate::coverage_decision_dag::lemma_preserved_trans(old(dag), &before, dag);
                                }
                                return Err(e);
                            },
                        };
                        let ghost mid = *dag;
                        proof {
                            lemma_booleans_preserved(before, mid, boolean);
                        }
                        let rr = match compile_literal(dag, right, atoms, boolean, comparisons, steps, limits) {
                            Ok(x) => x,
                            Err(e) => {
                                proof {
                                    crate::coverage_decision_dag::lemma_extended_trans(&before, &mid, dag);
                                    crate::coverage_decision_dag::lemma_preserved_trans(&before, &mid, dag);
                                    crate::coverage_decision_dag::lemma_extended_trans(old(dag), &before, dag);
                                    crate::coverage_decision_dag::lemma_preserved_trans(old(dag), &before, dag);
                                }
                                return Err(e);
                            },
                        };
                        let ghost mid2 = *dag;
                        proof {
                            lemma_computes_preserved(mid, mid2, l, atoms@, boolean, |zero: Seq<bool>| literal_holds(left, zero));
                            lemma_booleans_preserved(mid, mid2, boolean);
                            crate::coverage_decision_dag::lemma_extended_trans(&before, &mid, &mid2);
                            crate::coverage_decision_dag::lemma_preserved_trans(&before, &mid, &mid2);
                        }
                        let z = match dag.boolean_and(l, rr, boolean) {
                            Ok(x) => x,
                            Err(e) => {
                                proof {
                                    crate::coverage_decision_dag::lemma_extended_trans(&before, &mid2, dag);
                                    crate::coverage_decision_dag::lemma_preserved_trans(&before, &mid2, dag);
                                    crate::coverage_decision_dag::lemma_extended_trans(old(dag), &before, dag);
                                    crate::coverage_decision_dag::lemma_preserved_trans(old(dag), &before, dag);
                                }
                                return Err(e);
                            },
                        };
                        proof {
                            crate::coverage_decision_dag::lemma_extended_trans(&before, &mid2, dag);
                            crate::coverage_decision_dag::lemma_preserved_trans(&before, &mid2, dag);
                            assert forall|zero: Seq<bool>| #[trigger] dag.eval(z, dense_assignment(atoms@, zero))
                                == bool_value(clause_holds(clause.body, zero), boolean) by {
                                let a = dense_assignment(atoms@, zero);
                                assert(mid2.eval(l, a) == bool_value(literal_holds(left, zero), boolean));
                                assert(mid2.eval(rr, a) == bool_value(literal_holds(right, zero), boolean));
                                mid2.lemma_terminal_facts(terminal_index(boolean.when_false) as usize, a);
                            }
                        }
                        z
                    },
                };
                let ghost after_clause = *dag;
                proof {
                    crate::coverage_decision_dag::lemma_extended_trans(old(dag), &before, dag);
                    crate::coverage_decision_dag::lemma_preserved_trans(old(dag), &before, dag);
                    lemma_booleans_preserved(before, after_clause, boolean);
                    before.lemma_preserved_facts(&after_clause);
                    assert forall|zero: Seq<bool>| #[trigger] after_clause.eval(clause_root, dense_assignment(atoms@, zero))
                        == bool_value(clause_holds(clause.body, zero), boolean) by {
                        let a = dense_assignment(atoms@, zero);
                        match clause.body {
                            DirectBadFormulaClause::Atom(literal) => {
                                assert(after_clause.eval(clause_root, a) == bool_value(literal_holds(literal, zero), boolean));
                            },
                            _ => {},
                        }
                    }
                }
                let next = match dag.boolean_or(root, clause_root, boolean) {
                    Ok(x) => x,
                    Err(e) => {
                        proof {
                            crate::coverage_decision_dag::lemma_extended_trans(old(dag), &after_clause, dag);
                            crate::coverage_decision_dag::lemma_preserved_trans(old(dag), &after_clause, dag);
                        }
                        return Err(e);
                    },
                };
                proof {
                    crate::coverage_decision_dag::lemma_extended_trans(old(dag), &after_clause, dag);
                    crate::coverage_decision_dag::lemma_preserved_trans(old(dag), &after_clause, dag);
                    lemma_booleans_preserved(after_clause, *dag, boolean);
                    assert forall|zero: Seq<bool>| #[trigger] dag.eval(next, dense_assignment(atoms@, zero))
                        == bool_value(some_factor_zero_from(atomic_equal_zero_factors@, 0, zero) || ordinary_prefix_holds(clauses@, c + 1, zero), boolean) by {
                        let a = dense_assignment(atoms@, zero);
                        assert(before.eval(root, a) == after_clause.eval(root, a));
                        after_clause.lemma_terminal_facts(terminal_index(boolean.when_true) as usize, a);
                        assert(clauses@[c as int].role == NormalizedBadClauseRole::Ordinary);
                        if ordinary_prefix_holds(clauses@, c + 1, zero) && !ordinary_prefix_holds(clauses@, c as int, zero) {
                            let w = choose|w: int| 0 <= w < c + 1 && clauses@[w].role == NormalizedBadClauseRole::Ordinary && #[trigger] clause_holds(clauses@[w].body, zero);
                            assert(w == c);
                        }
                        if clause_holds(clause.body, zero) {
                            assert(clause_holds(clauses@[c as int].body, zero));
                        }
                    }
                }
                root = next;
                c += 1;
            }
            proof {
                assert forall|zero: Seq<bool>| #[trigger] dag.eval(root, dense_assignment(atoms@, zero)) == bool_value(formula_holds(*body, zero), boolean) by {
                    lemma_dnf_split(clauses@, atomic_equal_zero_factors@, zero);
                    assert(some_factor_zero_from(atomic_equal_zero_factors@, 0, zero) == some_factor_zero(atomic_equal_zero_factors@, zero));
                    assert(ordinary_prefix_holds(clauses@, clauses@.len() as int, zero) == some_ordinary_clause_holds(clauses@, zero));
                }
            }
            Ok(root)
        },
    }
}


// ---------------------------------------------------------------------------
// Reference semantics of a normalized coverage IR.
// ---------------------------------------------------------------------------

/// Source ordinal of the first certified attempt among the first `n` whose bad
/// formula does not hold under `zero`.
pub open spec fn first_failing(attempts: Seq<NormalizedCoverageAttempt>, n: int, zero: Seq<bool>) -> Option<usize>
    decreases n,
{
    if n <= 0 {
        None
    } else {
        match first_failing(attempts, n - 1, zero) {
            Some(o) => Some(o),
            None => match attempts[n - 1] {
                NormalizedCoverageAttempt::Certified(f) => if !formula_holds(f.body, zero) {
                    Some(f.source_attempt_ordinal)
                } else {
                    None
                },
                NormalizedCoverageAttempt::Unsupported { .. } => None,
            },
        }
    }
}

/// Source ordinals of the unsupported attempts among the first `n`, in order.
pub open spec fn unsupported_ordinals(attempts: Seq<NormalizedCoverageAttempt>, n: int) -> Seq<usize>
    decreases n,
{
    if n <= 0 {
        Seq::empty()
    } else {
        match attempts[n - 1] {
            NormalizedCoverageAttempt::Unsupported { source_attempt_ordinal } =>
                unsupported_ordinals(attempts, n - 1).push(source_attempt_ordinal),
            NormalizedCoverageAttempt::Certified(_) => unsupported_ordinals(attempts, n - 1),
        }
    }
}

/// Disposition when no certified candidate applies.
pub open spec fn fallback_view(attempts: Seq<NormalizedCoverageAttempt>) -> DispositionView {
    let u = unsupported_ordinals(attempts, attempts.len() as int);
    if u.len() == 0 {
        DispositionView::Uncovered
    } else {
        DispositionView::Unsupported(u)
    }
}

/// Disposition of an assignment: the first certified candidate whose bad
/// formula does not hold descends; otherwise the unsupported fallback.
pub open spec fn reference_view(attempts: Seq<NormalizedCoverageAttempt>, zero: Seq<bool>) -> DispositionView {
    match first_failing(attempts, attempts.len() as int, zero) {
        Some(o) => DispositionView::DescendingRule(o),
        None => fallback_view(attempts),
    }
}

pub proof fn lemma_first_failing_stable(attempts: Seq<NormalizedCoverageAttempt>, n: int, m: int, zero: Seq<bool>)
    requires
        n <= m,
        first_failing(attempts, n, zero) is Some,
    ensures
        first_failing(attempts, m, zero) == first_failing(attempts, n, zero),
    decreases m - n,
{
    if n < m {
        lemma_first_failing_stable(attempts, n, m - 1, zero);
    }
}

pub proof fn lemma_unsupported_count(attempts: Seq<NormalizedCoverageAttempt>, n: int)
    requires
        0 <= n <= attempts.len(),
    ensures
        unsupported_ordinals(attempts, n).len() == count_unsupported(attempts, n),
    decreases n,
{
    if n > 0 {
        lemma_unsupported_count(attempts, n - 1);
    }
}

/// Appending a pair to a priority list is choosing, in place of the old
/// fallback, what the new pair selects.
pub proof fn lemma_priority_push(vals: Seq<(nat, nat)>, p: (nat, nat), fb: nat, when_true: CoverageDecisionRef)
    ensures
        priority_value(vals.push(p), fb, when_true) == priority_value(vals, priority_value(seq![p], fb, when_true), when_true),
    decreases vals.len(),
{
    let inner = priority_value(seq![p], fb, when_true);
    if vals.len() == 0 {
        assert(vals.push(p) =~= seq![p]);
    } else {
        assert(vals.push(p).drop_first() =~= vals.drop_first().push(p));
        lemma_priority_push(vals.drop_first(), p, fb, when_true);
        assert(seq![p].drop_first() =~= Seq::<(nat, nat)>::empty());
    }
}

/// Every priority list built so far selects, for each assignment, the first
/// failing candidate among the first `n` attempts, or the fallback.
pub open spec fn priority_matches(
    dag: CoverageDecisionDag,
    candidates: Seq<(CoverageDecisionRef, CoverageDecisionRef)>,
    atoms: Seq<ParametricSectorMtbddAtom>,
    boolean: CoverageDecisionBooleanTerminals,
    attempts: Seq<NormalizedCoverageAttempt>,
    n: int,
) -> bool {
    forall|zero: Seq<bool>, fb: nat| {
        let v = #[trigger] priority_value(dag.candidate_values(candidates, dense_assignment(atoms, zero)), fb, boolean.when_true);
        match first_failing(attempts, n, zero) {
            None => v == fb,
            Some(o) => v < dag.terminal_count() && dag.terminal_view(v as int) == PayloadView::Disposition(DispositionView::DescendingRule(o)),
        }
    }
}

pub open spec fn candidates_valid(dag: CoverageDecisionDag, candidates: Seq<(CoverageDecisionRef, CoverageDecisionRef)>) -> bool {
    forall|i: int| 0 <= i < candidates.len() ==> dag.valid_ref(#[trigger] candidates[i].0) && dag.valid_ref(candidates[i].1)
}

pub proof fn lemma_priority_matches_preserved(
    a: CoverageDecisionDag,
    b: CoverageDecisionDag,
    candidates: Seq<(CoverageDecisionRef, CoverageDecisionRef)>,
    atoms: Seq<ParametricSectorMtbddAtom>,
    boolean: CoverageDecisionBooleanTerminals,
    attempts: Seq<NormalizedCoverageAttempt>,
    n: int,
)
    requires
        a.preserved_in(&b),
        candidates_valid(a, candidates),
        priority_matches(a, candidates, atoms, boolean, attempts, n),
    ensures
        candidates_valid(b, candidates),
        priority_matches(b, candidates, atoms, boolean, attempts, n),
{
    a.lemma_preserved_facts(&b);
    assert forall|i: int| 0 <= i < candidates.len() implies b.valid_ref(#[trigger] candidates[i].0) && b.valid_ref(candidates[i].1) by {
        assert(a.valid_ref(candidates[i].0));
        assert(a.valid_ref(candidates[i].1));
    }
    assert forall|zero: Seq<bool>, fb: nat| {
        let v = #[trigger] priority_value(b.candidate_values(candidates, dense_assignment(atoms, zero)), fb, boolean.when_true);
        match first_failing(attempts, n, zero) {
            None => v == fb,
            Some(o) => v < b.terminal_count() && b.terminal_view(v as int) == PayloadView::Disposition(DispositionView::DescendingRule(o)),
        }
    } by {
        let d = dense_assignment(atoms, zero);
        a.lemma_candidate_values_preserved(&b, candidates, d);
        let v = priority_value(a.candidate_values(candidates, d), fb, boolean.when_true);
        if first_failing(attempts, n, zero) is Some {
            assert(v < a.terminal_count());
            assert(b.terminal_view(v as int) == a.terminal_view(v as int));
        }
    }
}

pub proof fn lemma_candidate_values_push(
    dag: CoverageDecisionDag,
    candidates: Seq<(CoverageDecisionRef, CoverageDecisionRef)>,
    c: (CoverageDecisionRef, CoverageDecisionRef),
    d: Seq<bool>,
)
    ensures
        dag.candidate_values(candidates.push(c), d) == dag.candidate_values(candidates, d).push((dag.eval(c.0, d), dag.eval(c.1, d))),
{
    dag.lemma_candidate_values(candidates.push(c), d);
    dag.lemma_candidate_values(candidates, d);
    assert(dag.candidate_values(candidates.push(c), d) =~= dag.candidate_values(candidates, d).push((dag.eval(c.0, d), dag.eval(c.1, d))));
}

/// A candidate whose bad function is not constantly true joins the list.
pub proof fn lemma_priority_step_certified(
    dag: CoverageDecisionDag,
    candidates: Seq<(CoverageDecisionRef, CoverageDecisionRef)>,
    atoms: Seq<ParametricSectorMtbddAtom>,
    boolean: CoverageDecisionBooleanTerminals,
    attempts: Seq<NormalizedCoverageAttempt>,
    n: int,
    bad: CoverageDecisionRef,
    applies: usize,
)
    requires
        0 <= n < attempts.len(),
        attempts[n] is Certified,
        booleans_ok(dag, boolean),
        priority_matches(dag, candidates, atoms, boolean, attempts, n),
        computes(dag, bad, atoms, boolean, |zero: Seq<bool>| formula_holds(attempts[n]->Certified_0.body, zero)),
        applies < dag.terminal_count(),
        dag.terminal_view(applies as int) == PayloadView::Disposition(DispositionView::DescendingRule(attempts[n]->Certified_0.source_attempt_ordinal)),
    ensures
        priority_matches(dag, candidates.push((bad, CoverageDecisionRef::Terminal(applies))), atoms, boolean, attempts, n + 1),
{
    let f = attempts[n]->Certified_0;
    let c = (bad, CoverageDecisionRef::Terminal(applies));
    assert forall|zero: Seq<bool>, fb: nat| {
        let v = #[trigger] priority_value(dag.candidate_values(candidates.push(c), dense_assignment(atoms, zero)), fb, boolean.when_true);
        match first_failing(attempts, n + 1, zero) {
            None => v == fb,
            Some(o) => v < dag.terminal_count() && dag.terminal_view(v as int) == PayloadView::Disposition(DispositionView::DescendingRule(o)),
        }
    } by {
        let d = dense_assignment(atoms, zero);
        lemma_candidate_values_push(dag, candidates, c, d);
        dag.lemma_terminal_facts(applies, d);
        let holds = formula_holds(f.body, zero);
        assert(dag.eval(bad, d) == bool_value(holds, boolean));
        let p = (dag.eval(bad, d), dag.eval(c.1, d));
        lemma_priority_push(dag.candidate_values(candidates, d), p, fb, boolean.when_true);
        let x = priority_value(seq![p], fb, boolean.when_true);
        assert(seq![p].drop_first() =~= Seq::<(nat, nat)>::empty());
        assert(priority_value(Seq::<(nat, nat)>::empty(), fb, boolean.when_true) == fb);
        assert(seq![p][0] == p);
        if holds {
            assert(boolean.when_true == CoverageDecisionRef::Terminal(terminal_index(boolean.when_true) as usize));
            assert(x == fb);
        } else {
            assert(x == applies);
        }
        assert(priority_value(dag.candidate_values(candidates, d), x, boolean.when_true) == priority_value(
            dag.candidate_values(candidates, d), x, boolean.when_true));
    }
}

/// A candidate whose bad function is constantly true never applies.
pub proof fn lemma_priority_step_skip(
    dag: CoverageDecisionDag,
    candidates: Seq<(CoverageDecisionRef, CoverageDecisionRef)>,
    atoms: Seq<ParametricSectorMtbddAtom>,
    boolean: CoverageDecisionBooleanTerminals,
    attempts: Seq<NormalizedCoverageAttempt>,
    n: int,
)
    requires
        0 <= n < attempts.len(),
        booleans_ok(dag, boolean),
        priority_matches(dag, candidates, atoms, boolean, attempts, n),
        attempts[n] is Certified ==> computes(dag, boolean.when_true, atoms, boolean, |zero: Seq<bool>| formula_holds(attempts[n]->Certified_0.body, zero)),
    ensures
        priority_matches(dag, candidates, atoms, boolean, attempts, n + 1),
        forall|zero: Seq<bool>| #[trigger] first_failing(attempts, n + 1, zero) == first_failing(attempts, n, zero),
{
    assert forall|zero: Seq<bool>| #[trigger] first_failing(attempts, n + 1, zero) == first_failing(attempts, n, zero) by {
        if attempts[n] is Certified {
            let d = dense_assignment(atoms, zero);
            dag.lemma_terminal_facts(terminal_index(boolean.when_true) as usize, d);
            assert(dag.eval(boolean.when_true, d) == bool_value(formula_holds(attempts[n]->Certified_0.body, zero), boolean));
        }
    }
    assert forall|zero: Seq<bool>, fb: nat| {
        let v = #[trigger] priority_value(dag.candidate_values(candidates, dense_assignment(atoms, zero)), fb, boolean.when_true);
        match first_failing(attempts, n + 1, zero) {
            None => v == fb,
            Some(o) => v < dag.terminal_count() && dag.terminal_view(v as int) == PayloadView::Disposition(DispositionView::DescendingRule(o)),
        }
    } by {
        assert(first_failing(attempts, n + 1, zero) == first_failing(attempts, n, zero));
    }
}


/// The disposition every assignment reaches from `root` of `view` is the
/// reference disposition of `attempts`.
pub open spec fn view_decides(
    view: CoverageDecisionDagRootedView,
    root: CoverageDecisionRef,
    atoms: Seq<ParametricSectorMtbddAtom>,
    attempts: Seq<NormalizedCoverageAttempt>,
) -> bool {
    forall|zero: Seq<bool>| {
        let k = #[trigger] eval_ref(view.nodes@, root, dense_assignment(atoms, zero));
        &&& k < view.terminal_payloads@.len()
        &&& view.terminal_payloads@[k as int].view() == PayloadView::Disposition(reference_view(attempts, zero))
    }
}

/// Priority composition of every certified candidate over the unsupported
/// fallback, exported with its single root.
proof fn lemma_only_unsupported_counts(attempts: Seq<NormalizedCoverageAttempt>, n: int)
    requires
        only_unsupported(attempts),
        0 <= n <= attempts.len(),
    ensures
        count_unsupported(attempts, n) == n,
        attempts_atom_total(attempts.take(n)) == 0,
    decreases n,
{
    if n > 0 {
        lemma_only_unsupported_counts(attempts, n - 1);
        assert(attempts[n - 1] is Unsupported);
        assert(attempts.take(n).drop_last() =~= attempts.take(n - 1));
    } else {
        assert(attempts.take(0) =~= Seq::<NormalizedCoverageAttempt>::empty());
    }
}

/// The inputs on which compilation builds no candidate DAG: every attempt
/// is unsupported, the census is within its limits, the DAG holds the two
/// Boolean terminals and the fallback, and the typed-root walk over those
/// three terminals is within its limits.
pub open spec fn fallback_compile_admitted(ir: NormalizedCoverageIr, limits: ParametricSectorMtbddLimits) -> bool {
    &&& only_unsupported(ir.spec_attempts())
    &&& ir.spec_base_count() <= limits.max_base_structural_loci
    &&& ir.spec_attempts().len() <= limits.max_attempts
    &&& ir.spec_attempts().len() <= limits.max_unsupported_references
    &&& limits.max_atoms <= limits.dag.max_atoms
    &&& fallback_dag_admitted(limits.dag)
    &&& 3 <= limits.max_typed_root_terminal_mark_entries
    &&& 1 <= limits.max_typed_root_stack_entries
    &&& 5 <= limits.max_typed_root_visits
    &&& 1 <= limits.max_typed_root_stack_pushes
}

/// Every attempt of `attempts` is unsupported (there may be none).
pub open spec fn only_unsupported(attempts: Seq<NormalizedCoverageAttempt>) -> bool {
    forall|i: int| 0 <= i < attempts.len() ==> #[trigger] attempts[i] is Unsupported
}

/// A DAG with these limits holds the two Boolean terminals and a fallback
/// terminal, and exports one root.
pub open spec fn fallback_dag_admitted(limits: CoverageDecisionDagLimits) -> bool {
    &&& 3 <= limits.max_terminals
    &&& 3 <= limits.max_terminal_index_entries
    &&& 6 <= limits.max_retained_terminal_payload_handles
    &&& 1 <= limits.max_roots
}

proof fn lemma_only_unsupported_reference(attempts: Seq<NormalizedCoverageAttempt>, n: int, zero: Seq<bool>)
    requires
        only_unsupported(attempts),
        n <= attempts.len(),
    ensures
        first_failing(attempts, n, zero) is None,
    decreases n,
{
    if n > 0 {
        lemma_only_unsupported_reference(attempts, n - 1, zero);
        assert(attempts[n - 1] is Unsupported);
    }
}

fn compile_rooted(
    dag: &mut CoverageDecisionDag,
    ir: &NormalizedCoverageIr,
    atoms: &[ParametricSectorMtbddAtom],
    unsupported_attempts: usize,
    limits: ParametricSectorMtbddLimits,
    atom_lookup_comparisons: &mut usize,
    formula_compile_steps: &mut usize,
    priority_candidate_pairs: &mut usize,
    unsupported_references: &mut usize,
) -> (r: Result<CoverageDecisionDagRootedView, CoverageDecisionDagError>)
    requires
        old(dag).wf(),
        ir.wf(),
        atoms@.len() == old(dag).spec_atom_count(),
        unsupported_attempts == count_unsupported(ir.spec_attempts(), ir.spec_attempts().len() as int),
    ensures
        final(dag).wf(),
        r matches Ok(view) ==> {
            &&& view.wf()
            &&& view.roots@.len() == 1
            &&& view.atom_count == atoms@.len()
            &&& view.nodes@ == final(dag).spec_nodes()
            &&& view.terminal_payloads@.len() == final(dag).terminal_count()
            &&& view_decides(view, view.roots@[0], atoms@, ir.spec_attempts())
        },
        only_unsupported(ir.spec_attempts()) && old(dag).terminal_count() == 0 && old(dag).node_count() == 0
            && fallback_dag_admitted(old(dag).spec_limits()) && unsupported_attempts <= limits.max_unsupported_references
            ==> (r matches Ok(view) && view.nodes@.len() == 0 && view.terminal_payloads@.len() <= 3
            && typed_root_shape_ok(view, atoms@.len() as usize)),
{
    let ghost good = only_unsupported(ir.spec_attempts()) && old(dag).terminal_count() == 0 && old(dag).node_count() == 0
        && fallback_dag_admitted(old(dag).spec_limits()) && unsupported_attempts <= limits.max_unsupported_references;
    proof {
        old(dag).lemma_wf_bounds();
    }
    let ghost g0 = *dag;
    let boolean_false = dag.intern_terminal(ParametricSectorMtbddTerminalPayload::BooleanFalse)?;
    let ghost g1 = *dag;
    let boolean_true = dag.intern_terminal(ParametricSectorMtbddTerminalPayload::BooleanTrue)?;
    proof {
        g0.lemma_preserved_facts(&g1);
        g1.lemma_preserved_facts(dag);
        if good {
            assert(boolean_false matches CoverageDecisionRef::Terminal(k) && dag.terminal_view(k as int) == PayloadView::BooleanFalse);
            assert(boolean_true matches CoverageDecisionRef::Terminal(k) && dag.terminal_view(k as int) == PayloadView::BooleanTrue);
            assert(boolean_false != boolean_true);
        }
    }
    let ghost g2 = *dag;
    let boolean = dag.boolean_terminals(boolean_false, boolean_true)?;
    let attempts = ir.attempts();
    let mut candidates: Vec<(CoverageDecisionRef, CoverageDecisionRef)> = Vec::new();
    let mut cutoff = false;
    let mut i: usize = 0;
    proof {
        g0.lemma_preserved_facts(&g1);
        g1.lemma_preserved_facts(dag);
        assert forall|zero: Seq<bool>, fb: nat| {
            let v = #[trigger] priority_value(dag.candidate_values(candidates@, dense_assignment(atoms@, zero)), fb, boolean.when_true);
            match first_failing(attempts@, 0, zero) {
                None => v == fb,
                Some(o) => v < dag.terminal_count() && dag.terminal_view(v as int) == PayloadView::Disposition(DispositionView::DescendingRule(o)),
            }
        } by {
            dag.lemma_candidate_values(candidates@, dense_assignment(atoms@, zero));
            assert(dag.candidate_values(candidates@, dense_assignment(atoms@, zero)) =~= Seq::<(nat, nat)>::empty());
        }
    }
    while i < attempts.len() && !cutoff
        invariant
            good ==> *dag == g2 && candidates@.len() == 0 && !cutoff && only_unsupported(attempts@),
            good ==> dag.node_count() == 0 && dag.terminal_count() <= 2 && fallback_dag_admitted(dag.spec_limits())
                && unsupported_attempts <= limits.max_unsupported_references,
            good ==> (boolean.when_false matches CoverageDecisionRef::Terminal(k) && dag.terminal_view(k as int) == PayloadView::BooleanFalse),
            good ==> (boolean.when_true matches CoverageDecisionRef::Terminal(k) && dag.terminal_view(k as int) == PayloadView::BooleanTrue),
            i <= attempts@.len(),
            attempts@ == ir.spec_attempts(),
            ir.wf(),
            dag.wf(),
            booleans_ok(*dag, boolean),
            atoms@.len() == dag.spec_atom_count(),
            candidates_valid(*dag, candidates@),
            priority_matches(*dag, candidates@, atoms@, boolean, attempts@, i as int),
            cutoff ==> forall|zero: Seq<bool>| #[trigger] first_failing(attempts@, i as int, zero) is Some,
        decreases attempts@.len() - i,
    {
        proof {
            assert(attempt_in_range(attempts@[i as int], ir.spec_base_count()));
        }
        match &attempts[i] {
            NormalizedCoverageAttempt::Unsupported { .. } => {
                proof {
                    lemma_priority_step_skip(*dag, candidates@, atoms@, boolean, attempts@, i as int);
                }
            },
            NormalizedCoverageAttempt::Certified(formula) => {
                let ghost before = *dag;
                let bad = compile_formula(dag, &formula.body, atoms, boolean, atom_lookup_comparisons, formula_compile_steps, limits)?;
                proof {
                    lemma_priority_matches_preserved(before, *dag, candidates@, atoms@, boolean, attempts@, i as int);
                    lemma_booleans_preserved(before, *dag, boolean);
                }
                if bad == boolean.when_true {
                    proof {
                        lemma_priority_step_skip(*dag, candidates@, atoms@, boolean, attempts@, i as int);
                    }
                } else {
                    charge_core_counter("MTBDD priority candidate pairs", priority_candidate_pairs, limits.max_priority_candidate_pairs)?;
                    let ghost mid = *dag;
                    let applies = dag.intern_terminal(
                        ParametricSectorMtbddTerminalPayload::Disposition(
                            ParametricSectorMtbddDisposition::DescendingRule { candidate_ordinal: formula.source_attempt_ordinal },
                        ),
                    )?;
                    proof {
                        lemma_priority_matches_preserved(mid, *dag, candidates@, atoms@, boolean, attempts@, i as int);
                        lemma_booleans_preserved(mid, *dag, boolean);
                        lemma_computes_preserved(mid, *dag, bad, atoms@, boolean, |zero: Seq<bool>| formula_holds(formula.body, zero));
                        lemma_priority_step_certified(*dag, candidates@, atoms@, boolean, attempts@, i as int, bad, applies->Terminal_0);
                    }
                    candidates.push((bad, applies));
                    if bad == boolean.when_false {
                        cutoff = true;
                        proof {
                            assert forall|zero: Seq<bool>| #[trigger] first_failing(attempts@, i + 1, zero) is Some by {
                                let d = dense_assignment(atoms@, zero);
                                dag.lemma_terminal_facts(terminal_index(boolean.when_false) as usize, d);
                                assert(dag.eval(boolean.when_false, d) == bool_value(formula_holds(formula.body, zero), boolean));
                            }
                        }
                    }
                }
            },
        }
        proof {
            if cutoff && !(attempts@[i as int] is Certified) {
                assert forall|zero: Seq<bool>| #[trigger] first_failing(attempts@, i + 1, zero) is Some by {
                    assert(first_failing(attempts@, i as int, zero) is Some);
                }
            }
        }
        i += 1;
    }
    let ghost len = attempts@.len() as int;
    let fallback = if cutoff {
        boolean.when_false
    } else {
        if unsupported_attempts > limits.max_unsupported_references {
            return Err(
                CoverageDecisionDagError::ResourceLimit {
                    resource: "MTBDD unsupported fallback references",
                    requested: unsupported_attempts,
                    limit: limits.max_unsupported_references,
                },
            );
        }
        let mut unsupported: Vec<usize> = Vec::new();
        let mut j: usize = 0;
        while j < attempts.len()
            invariant
                j <= attempts@.len(),
                unsupported@ == unsupported_ordinals(attempts@, j as int),
            decreases attempts@.len() - j,
        {
            if let NormalizedCoverageAttempt::Unsupported { source_attempt_ordinal } = &attempts[j] {
                unsupported.push(*source_attempt_ordinal);
            }
            j += 1;
        }
        *unsupported_references = unsupported.len();
        let fallback_disposition = if unsupported.len() == 0 {
            ParametricSectorMtbddDisposition::Uncovered
        } else {
            ParametricSectorMtbddDisposition::Unsupported { candidate_ordinals: unsupported }
        };
        proof {
            assert(fallback_disposition.view() == fallback_view(attempts@));
        }
        let ghost before = *dag;
        let t = dag.intern_terminal(ParametricSectorMtbddTerminalPayload::Disposition(fallback_disposition))?;
        proof {
            lemma_priority_matches_preserved(before, *dag, candidates@, atoms@, boolean, attempts@, i as int);
            before.lemma_preserved_facts(dag);
        }
        t
    };
    proof {
        if good {
            assert(i == attempts@.len());
        }
    }
    let ghost d1 = *dag;
    proof {
        dag.lemma_ref_facts();
    }
    let ghost d1b = *dag;
    let root = dag.compose_candidate_priority(candidates.as_slice(), boolean, fallback)?;
    let roots = vec![root];
    proof {
        d1b.lemma_preserved_facts(dag);
        if good {
            assert(roots@.len() == 1 && roots@[0] == root);
            assert(dag.valid_ref(roots@[0]));
        }
    }
    let view = dag.export_rooted(roots.as_slice(), boolean)?;
    proof {
        if good {
            dag.lemma_wf_bounds();
            assert(view.nodes@.len() == 0);
            if let CoverageDecisionRef::Terminal(k) = boolean.when_false {
                assert(view.terminal_payloads@[k as int].view() == PayloadView::BooleanFalse);
            }
            if let CoverageDecisionRef::Terminal(k) = boolean.when_true {
                assert(view.terminal_payloads@[k as int].view() == PayloadView::BooleanTrue);
            }
            assert(typed_root_shape_ok(view, atoms@.len() as usize));
        }
    }
    proof {
        d1.lemma_preserved_facts(dag);
        assert forall|zero: Seq<bool>| {
            let k = #[trigger] eval_ref(view.nodes@, view.roots@[0], dense_assignment(atoms@, zero));
            &&& k < view.terminal_payloads@.len()
            &&& view.terminal_payloads@[k as int].view() == PayloadView::Disposition(reference_view(attempts@, zero))
        } by {
            let d = dense_assignment(atoms@, zero);
            let fb = d1.eval(fallback, d);
            let v = priority_value(d1.candidate_values(candidates@, d), fb, boolean.when_true);
            assert(view.roots@[0] == root);
            assert(dag.eval(root, d) == v);
            if cutoff {
                lemma_first_failing_stable(attempts@, i as int, len, zero);
            } else {
                d1.lemma_terminal_facts(fallback->Terminal_0, d);
            }
            assert(d1.terminal_view(v as int) == dag.terminal_view(v as int));
        }
    }
    Ok(view)
}


// ---------------------------------------------------------------------------
// Typed validation of the exported root.
// ---------------------------------------------------------------------------

/// Resources used by one typed-root validation.
#[derive(Clone, Copy, Debug, Default, PartialEq, Eq)]
pub struct TypedRootValidationStats {
    pub node_mark_entries: usize,
    pub terminal_mark_entries: usize,
    pub stack_entries: usize,
    pub stack_pushes: usize,
    pub visits: usize,
}

/// A terminal payload that a reachable path may end in: a disposition that
/// names a certified attempt, or the exact unsupported fallback.
pub open spec fn payload_typed(p: PayloadView, attempts: Seq<NormalizedCoverageAttempt>) -> bool {
    let u = unsupported_ordinals(attempts, attempts.len() as int);
    match p {
        PayloadView::Disposition(DispositionView::DescendingRule(o)) => o < attempts.len() && attempts[o as int] is Certified,
        PayloadView::Disposition(DispositionView::Uncovered) => u.len() == 0,
        PayloadView::Disposition(DispositionView::Unsupported(s)) => u.len() != 0 && s == u,
        _ => false,
    }
}

/// `r` is a terminal of `view` carrying payload `p`.
pub open spec fn endpoint_is(view: CoverageDecisionDagRootedView, r: CoverageDecisionRef, p: PayloadView) -> bool {
    match r {
        CoverageDecisionRef::Terminal(t) => t < view.terminal_payloads@.len() && view.terminal_payloads@[t as int].view() == p,
        CoverageDecisionRef::Node(_) => false,
    }
}

/// Single root, expected atom count, and distinct Boolean endpoints carrying
/// the Boolean payloads.
pub open spec fn typed_root_shape_ok(view: CoverageDecisionDagRootedView, expected_atom_count: usize) -> bool {
    &&& view.roots@.len() == 1
    &&& view.atom_count == expected_atom_count
    &&& view.boolean_false != view.boolean_true
    &&& endpoint_is(view, view.boolean_false, PayloadView::BooleanFalse)
    &&& endpoint_is(view, view.boolean_true, PayloadView::BooleanTrue)
}

pub open spec fn seen_ref(x: CoverageDecisionRef, node_seen: Seq<bool>, terminal_seen: Seq<bool>) -> bool {
    match x {
        CoverageDecisionRef::Node(i) => i < node_seen.len() && node_seen[i as int],
        CoverageDecisionRef::Terminal(t) => t < terminal_seen.len() && terminal_seen[t as int],
    }
}

pub open spec fn covered(x: CoverageDecisionRef, stack: Seq<CoverageDecisionRef>, node_seen: Seq<bool>, terminal_seen: Seq<bool>) -> bool {
    stack.contains(x) || seen_ref(x, node_seen, terminal_seen)
}

/// Both children of every seen node are covered.
pub open spec fn children_covered(
    nodes: Seq<CoverageDecisionNode>,
    stack: Seq<CoverageDecisionRef>,
    node_seen: Seq<bool>,
    terminal_seen: Seq<bool>,
) -> bool {
    forall|i: int| 0 <= i < nodes.len() && #[trigger] node_seen[i] ==> covered(nodes[i].when_true, stack, node_seen, terminal_seen)
        && covered(nodes[i].when_false, stack, node_seen, terminal_seen)
}

/// In a well-formed arena, a seen set closed under children contains the
/// terminal reached from any of its members.
pub proof fn lemma_closed_eval(
    nodes: Seq<CoverageDecisionNode>,
    node_seen: Seq<bool>,
    terminal_seen: Seq<bool>,
    atom_count: nat,
    x: CoverageDecisionRef,
    a: Seq<bool>,
)
    requires
        arena_wf(nodes, terminal_seen.len(), atom_count),
        node_seen.len() == nodes.len(),
        children_covered(nodes, Seq::empty(), node_seen, terminal_seen),
        seen_ref(x, node_seen, terminal_seen),
    ensures
        eval_ref(nodes, x, a) < terminal_seen.len(),
        terminal_seen[eval_ref(nodes, x, a) as int],
    decreases crate::coverage_decision_dag::ref_rank(x),
{
    match x {
        CoverageDecisionRef::Terminal(_) => {},
        CoverageDecisionRef::Node(i) => {
            assert(node_seen[i as int]);
            assert(crate::coverage_decision_dag::node_wf(nodes, i as int, terminal_seen.len(), atom_count));
            let n = nodes[i as int];
            let next = if a[n.atom as int] { n.when_true } else { n.when_false };
            assert(!Seq::<CoverageDecisionRef>::empty().contains(next));
            lemma_closed_eval(nodes, node_seen, terminal_seen, atom_count, next, a);
        },
    }
}

/// Push one reference onto the validation stack within its limits.
pub fn push_typed_root_reference(
    stack: &mut Vec<CoverageDecisionRef>,
    reference: CoverageDecisionRef,
    limits: ParametricSectorMtbddLimits,
    stats: &mut TypedRootValidationStats,
) -> (r: Result<(), ParametricSectorMtbddError>)
    ensures
        r is Ok <==> old(stack)@.len() + 1 <= limits.max_typed_root_stack_entries
            && old(stats).stack_pushes + 1 <= limits.max_typed_root_stack_pushes,
        r is Ok ==> final(stack)@ == old(stack)@.push(reference)
            && *final(stats) == (TypedRootValidationStats { stack_pushes: (old(stats).stack_pushes + 1) as usize, ..*old(stats) }),
        r is Err ==> final(stack)@ == old(stack)@ && *final(stats) == *old(stats),
        old(stack)@.len() + 1 > limits.max_typed_root_stack_entries && old(stack)@.len() < usize::MAX ==> r == Err::<(), ParametricSectorMtbddError>(
            ParametricSectorMtbddError::ResourceLimit {
                resource: "typed-root traversal stack entries",
                requested: (old(stack)@.len() + 1) as usize,
                limit: limits.max_typed_root_stack_entries,
            }),
        old(stack)@.len() + 1 <= limits.max_typed_root_stack_entries && old(stats).stack_pushes + 1 > limits.max_typed_root_stack_pushes
            && old(stats).stack_pushes < usize::MAX ==> r == Err::<(), ParametricSectorMtbddError>(
            ParametricSectorMtbddError::ResourceLimit {
                resource: "typed-root traversal stack pushes",
                requested: (old(stats).stack_pushes + 1) as usize,
                limit: limits.max_typed_root_stack_pushes,
            }),
{
    let requested_entries = checked_add("typed-root traversal stack entries", stack.len(), 1)?;
    check_limit("typed-root traversal stack entries", requested_entries, limits.max_typed_root_stack_entries)?;
    let requested_pushes = bounded_add(
        "typed-root traversal stack pushes",
        stats.stack_pushes,
        1,
        limits.max_typed_root_stack_pushes,
    )?;
    stack.push(reference);
    stats.stack_pushes = requested_pushes;
    Ok(())
}

/// `actual` lists exactly the unsupported attempts' ordinals, in order.
pub fn unsupported_ordinals_match(ir: &NormalizedCoverageIr, actual: &[usize]) -> (r: bool)
    ensures
        r == (actual@ == unsupported_ordinals(ir.spec_attempts(), ir.spec_attempts().len() as int)),
{
    let attempts = ir.attempts();
    let mut k: usize = 0;
    let mut i: usize = 0;
    while i < attempts.len()
        invariant
            i <= attempts@.len(),
            attempts@ == ir.spec_attempts(),
            k <= actual@.len(),
            actual@.subrange(0, k as int) == unsupported_ordinals(attempts@, i as int),
        decreases attempts@.len() - i,
    {
        if let NormalizedCoverageAttempt::Unsupported { source_attempt_ordinal } = &attempts[i] {
            if k >= actual.len() || actual[k] != *source_attempt_ordinal {
                proof {
                    lemma_unsupported_prefix_grows(attempts@, i as int + 1, attempts@.len() as int);
                    assert(unsupported_ordinals(attempts@, i as int + 1).len() == k + 1);
                    if actual@ == unsupported_ordinals(attempts@, attempts@.len() as int) {
                        assert(actual@[k as int] == unsupported_ordinals(attempts@, attempts@.len() as int)[k as int]);
                        assert(unsupported_ordinals(attempts@, i as int + 1)[k as int] == *source_attempt_ordinal);
                    }
                }
                return false;
            }
            k += 1;
            proof {
                assert(actual@.subrange(0, k as int) =~= actual@.subrange(0, k - 1).push(actual@[k - 1]));
            }
        }
        i += 1;
    }
    proof {
        assert(actual@.subrange(0, actual@.len() as int) =~= actual@);
    }
    k == actual.len()
}

/// Later prefixes of the unsupported ordinals extend earlier ones.
pub proof fn lemma_unsupported_prefix_grows(attempts: Seq<NormalizedCoverageAttempt>, n: int, m: int)
    requires
        0 <= n <= m,
    ensures
        unsupported_ordinals(attempts, n).len() <= unsupported_ordinals(attempts, m).len(),
        unsupported_ordinals(attempts, m).subrange(0, unsupported_ordinals(attempts, n).len() as int) == unsupported_ordinals(attempts, n),
    decreases m - n,
{
    if n < m {
        lemma_unsupported_prefix_grows(attempts, n, m - 1);
        let p = unsupported_ordinals(attempts, n);
        let q = unsupported_ordinals(attempts, m - 1);
        let r = unsupported_ordinals(attempts, m);
        assert(r.subrange(0, p.len() as int) =~= q.subrange(0, p.len() as int));
    } else {
        assert(unsupported_ordinals(attempts, m).subrange(0, unsupported_ordinals(attempts, m).len() as int) =~= unsupported_ordinals(attempts, m));
    }
}


fn unmarked(n: usize) -> (r: Vec<bool>)
    ensures
        r@.len() == n,
        forall|i: int| 0 <= i < n ==> !#[trigger] r@[i],
{
    let mut marks: Vec<bool> = Vec::new();
    let mut i: usize = 0;
    while i < n
        invariant
            i <= n,
            marks@.len() == i,
            forall|j: int| 0 <= j < i ==> !#[trigger] marks@[j],
        decreases n - i,
    {
        marks.push(false);
        i += 1;
    }
    marks
}

fn endpoint_carries_boolean(rooted: &CoverageDecisionDagRootedView, r: CoverageDecisionRef, value: bool) -> (ok: bool)
    ensures
        ok == endpoint_is(*rooted, r, if value { PayloadView::BooleanTrue } else { PayloadView::BooleanFalse }),
{
    match r {
        CoverageDecisionRef::Terminal(t) => {
            if t >= rooted.terminal_payloads.len() {
                return false;
            }
            match &rooted.terminal_payloads[t] {
                ParametricSectorMtbddTerminalPayload::BooleanFalse => !value,
                ParametricSectorMtbddTerminalPayload::BooleanTrue => value,
                ParametricSectorMtbddTerminalPayload::Disposition(_) => false,
            }
        },
        CoverageDecisionRef::Node(_) => false,
    }
}

fn count_unsupported_attempts(attempts: &[NormalizedCoverageAttempt]) -> (r: usize)
    ensures
        r == unsupported_ordinals(attempts@, attempts@.len() as int).len(),
{
    let mut count: usize = 0;
    let mut i: usize = 0;
    while i < attempts.len()
        invariant
            i <= attempts@.len(),
            count == unsupported_ordinals(attempts@, i as int).len(),
            count <= i,
        decreases attempts@.len() - i,
    {
        if let NormalizedCoverageAttempt::Unsupported { .. } = &attempts[i] {
            count += 1;
        }
        i += 1;
    }
    count
}

pub proof fn lemma_pop_contains(s: Seq<CoverageDecisionRef>, y: CoverageDecisionRef)
    requires
        s.len() > 0,
        s.contains(y),
        y != s[s.len() - 1],
    ensures
        s.subrange(0, s.len() - 1).contains(y),
{
    let j = choose|j: int| 0 <= j < s.len() && s[j] == y;
    assert(s.subrange(0, s.len() - 1)[j] == y);
}

/// Popping `x` and marking it seen keeps every covered reference covered.
pub proof fn lemma_cover_after_pop(
    nodes: Seq<CoverageDecisionNode>,
    before: Seq<CoverageDecisionRef>,
    after: Seq<CoverageDecisionRef>,
    x: CoverageDecisionRef,
    ns0: Seq<bool>,
    ts0: Seq<bool>,
    ns1: Seq<bool>,
    ts1: Seq<bool>,
)
    requires
        forall|y: CoverageDecisionRef| before.contains(y) && y != x ==> #[trigger] after.contains(y),
        seen_ref(x, ns1, ts1),
        ns1.len() == ns0.len(),
        ts1.len() == ts0.len(),
        forall|i: int| 0 <= i < ns0.len() && #[trigger] ns0[i] ==> ns1[i],
        forall|t: int| 0 <= t < ts0.len() && #[trigger] ts0[t] ==> ts1[t],
        children_covered(nodes, before, ns0, ts0),
        forall|i: int| 0 <= i < nodes.len() && #[trigger] ns1[i] && !ns0[i] ==> covered(nodes[i].when_true, after, ns1, ts1)
            && covered(nodes[i].when_false, after, ns1, ts1),
    ensures
        children_covered(nodes, after, ns1, ts1),
        forall|y: CoverageDecisionRef| covered(y, before, ns0, ts0) ==> #[trigger] covered(y, after, ns1, ts1),
{
    assert forall|y: CoverageDecisionRef| covered(y, before, ns0, ts0) implies #[trigger] covered(y, after, ns1, ts1) by {
        if before.contains(y) && y != x {
            assert(after.contains(y));
        } else if y == x {
        } else {
            match y {
                CoverageDecisionRef::Node(i) => { assert(ns0[i as int]); },
                CoverageDecisionRef::Terminal(t) => { assert(ts0[t as int]); },
            }
        }
    }
    assert forall|i: int| 0 <= i < nodes.len() && #[trigger] ns1[i] implies covered(nodes[i].when_true, after, ns1, ts1)
        && covered(nodes[i].when_false, after, ns1, ts1) by {
        if ns0[i] {
            assert(covered(nodes[i].when_true, before, ns0, ts0));
            assert(covered(nodes[i].when_false, before, ns0, ts0));
        }
    }
}

/// `to` is `from` or is reached from it by following child references of
/// `nodes` downwards.
pub open spec fn reaches(nodes: Seq<CoverageDecisionNode>, from: CoverageDecisionRef, to: CoverageDecisionRef) -> bool
    decreases crate::coverage_decision_dag::ref_rank(from),
{
    if from == to {
        true
    } else {
        match from {
            CoverageDecisionRef::Node(i) => {
                if i < nodes.len() {
                    let n = nodes[i as int];
                    ||| (crate::coverage_decision_dag::ref_rank(n.when_true) < crate::coverage_decision_dag::ref_rank(from)
                        && reaches(nodes, n.when_true, to))
                    ||| (crate::coverage_decision_dag::ref_rank(n.when_false) < crate::coverage_decision_dag::ref_rank(from)
                        && reaches(nodes, n.when_false, to))
                } else {
                    false
                }
            },
            CoverageDecisionRef::Terminal(_) => false,
        }
    }
}

/// Number of marked entries.
pub open spec fn marked_count(s: Seq<bool>) -> nat
    decreases s.len(),
{
    if s.len() == 0 {
        0
    } else {
        marked_count(s.drop_last()) + if s.last() {
            1nat
        } else {
            0nat
        }
    }
}

proof fn lemma_marked_count_bound(s: Seq<bool>)
    ensures
        marked_count(s) <= s.len(),
    decreases s.len(),
{
    if s.len() > 0 {
        lemma_marked_count_bound(s.drop_last());
    }
}

proof fn lemma_marked_count_none(s: Seq<bool>)
    requires
        forall|i: int| 0 <= i < s.len() ==> !#[trigger] s[i],
    ensures
        marked_count(s) == 0,
    decreases s.len(),
{
    if s.len() > 0 {
        lemma_marked_count_none(s.drop_last());
    }
}

proof fn lemma_marked_count_mark(s: Seq<bool>, i: int)
    requires
        0 <= i < s.len(),
        !s[i],
    ensures
        marked_count(s.update(i, true)) == marked_count(s) + 1,
        marked_count(s) < s.len(),
    decreases s.len(),
{
    let t = s.update(i, true);
    if i == s.len() - 1 {
        assert(t.drop_last() =~= s.drop_last());
        lemma_marked_count_bound(s.drop_last());
    } else {
        assert(t.drop_last() =~= s.drop_last().update(i, true));
        lemma_marked_count_mark(s.drop_last(), i);
    }
}

/// In a well-formed arena, both children of a node reached from `from` are
/// reached from it too.
proof fn lemma_reaches_children(
    nodes: Seq<CoverageDecisionNode>,
    terminals: nat,
    atom_count: nat,
    from: CoverageDecisionRef,
    i: usize,
)
    requires
        arena_wf(nodes, terminals, atom_count),
        i < nodes.len(),
        reaches(nodes, from, CoverageDecisionRef::Node(i)),
    ensures
        reaches(nodes, from, nodes[i as int].when_true),
        reaches(nodes, from, nodes[i as int].when_false),
    decreases crate::coverage_decision_dag::ref_rank(from),
{
    let target = CoverageDecisionRef::Node(i);
    assert(crate::coverage_decision_dag::node_wf(nodes, i as int, terminals, atom_count));
    let n = nodes[i as int];
    assert(reaches(nodes, n.when_true, n.when_true));
    assert(reaches(nodes, n.when_false, n.when_false));
    if from != target {
        match from {
            CoverageDecisionRef::Node(j) => {
                let m = nodes[j as int];
                if crate::coverage_decision_dag::ref_rank(m.when_true) < crate::coverage_decision_dag::ref_rank(from)
                    && reaches(nodes, m.when_true, target) {
                    lemma_reaches_children(nodes, terminals, atom_count, m.when_true, i);
                } else {
                    lemma_reaches_children(nodes, terminals, atom_count, m.when_false, i);
                }
            },
            CoverageDecisionRef::Terminal(_) => {},
        }
    }
}

/// In a well-formed arena, whatever is reached from an in-range reference
/// is in range.
proof fn lemma_reaches_below(
    nodes: Seq<CoverageDecisionNode>,
    terminals: nat,
    atom_count: nat,
    from: CoverageDecisionRef,
    to: CoverageDecisionRef,
)
    requires
        arena_wf(nodes, terminals, atom_count),
        ref_below(from, nodes.len(), terminals),
        reaches(nodes, from, to),
    ensures
        ref_below(to, nodes.len(), terminals),
    decreases crate::coverage_decision_dag::ref_rank(from),
{
    if from != to {
        match from {
            CoverageDecisionRef::Node(j) => {
                assert(crate::coverage_decision_dag::node_wf(nodes, j as int, terminals, atom_count));
                let m = nodes[j as int];
                if crate::coverage_decision_dag::ref_rank(m.when_true) < crate::coverage_decision_dag::ref_rank(from)
                    && reaches(nodes, m.when_true, to) {
                    lemma_reaches_below(nodes, terminals, atom_count, m.when_true, to);
                } else {
                    lemma_reaches_below(nodes, terminals, atom_count, m.when_false, to);
                }
            },
            CoverageDecisionRef::Terminal(_) => {},
        }
    }
}

/// The inputs on which the typed-root check succeeds: a well-formed rooted
/// view of the expected shape, every terminal reached from whose root is a
/// disposition consistent with `ir`, and a walk that visits each node and
/// terminal once within every limit.
pub open spec fn typed_root_admitted(
    rooted: CoverageDecisionDagRootedView,
    ir: NormalizedCoverageIr,
    expected_atom_count: usize,
    limits: ParametricSectorMtbddLimits,
) -> bool {
    let n = rooted.nodes@.len();
    let t = rooted.terminal_payloads@.len();
    &&& typed_root_shape_ok(rooted, expected_atom_count)
    &&& rooted.wf()
    &&& n <= limits.max_typed_root_node_mark_entries
    &&& t <= limits.max_typed_root_terminal_mark_entries
    &&& n + 1 <= limits.max_typed_root_stack_entries
    &&& 2 + n + t <= limits.max_typed_root_visits
    &&& 1 + 2 * n <= limits.max_typed_root_stack_pushes
    &&& forall|x: usize|
        #[trigger] reaches(rooted.nodes@, rooted.roots@[0], CoverageDecisionRef::Terminal(x)) ==> payload_typed(
            rooted.terminal_payloads@[x as int].view(),
            ir.spec_attempts(),
        )
}

/// Check, from the exported rooted view alone, that every terminal reachable
/// from its single root is a disposition consistent with `ir`.
pub fn validate_typed_final_root(
    rooted: &CoverageDecisionDagRootedView,
    ir: &NormalizedCoverageIr,
    expected_atom_count: usize,
    limits: ParametricSectorMtbddLimits,
) -> (r: Result<TypedRootValidationStats, ParametricSectorMtbddError>)
    ensures
        !typed_root_shape_ok(*rooted, expected_atom_count) ==> r == Err::<TypedRootValidationStats, ParametricSectorMtbddError>(
            ParametricSectorMtbddError::MalformedRootedView),
        typed_root_shape_ok(*rooted, expected_atom_count) && rooted.nodes@.len() > limits.max_typed_root_node_mark_entries
            ==> r == Err::<TypedRootValidationStats, ParametricSectorMtbddError>(ParametricSectorMtbddError::ResourceLimit {
                resource: "typed-root node-mark entries",
                requested: rooted.nodes@.len() as usize,
                limit: limits.max_typed_root_node_mark_entries,
            }),
        typed_root_shape_ok(*rooted, expected_atom_count) && rooted.nodes@.len() <= limits.max_typed_root_node_mark_entries
            && rooted.terminal_payloads@.len() > limits.max_typed_root_terminal_mark_entries
            ==> r == Err::<TypedRootValidationStats, ParametricSectorMtbddError>(ParametricSectorMtbddError::ResourceLimit {
                resource: "typed-root terminal-mark entries",
                requested: rooted.terminal_payloads@.len() as usize,
                limit: limits.max_typed_root_terminal_mark_entries,
            }),
        typed_root_shape_ok(*rooted, expected_atom_count) && rooted.nodes@.len() <= limits.max_typed_root_node_mark_entries
            && rooted.terminal_payloads@.len() <= limits.max_typed_root_terminal_mark_entries
            && rooted.nodes@.len() + 1 > limits.max_typed_root_stack_entries && rooted.nodes@.len() < usize::MAX
            ==> r == Err::<TypedRootValidationStats, ParametricSectorMtbddError>(ParametricSectorMtbddError::ResourceLimit {
                resource: "typed-root traversal stack entries",
                requested: (rooted.nodes@.len() + 1) as usize,
                limit: limits.max_typed_root_stack_entries,
            }),
        r matches Ok(st) ==> {
            &&& typed_root_shape_ok(*rooted, expected_atom_count)
            &&& st.node_mark_entries == rooted.nodes@.len()
            &&& st.terminal_mark_entries == rooted.terminal_payloads@.len()
            &&& st.stack_entries == rooted.nodes@.len() + 1
            &&& st.visits <= limits.max_typed_root_visits
            &&& st.stack_pushes <= limits.max_typed_root_stack_pushes
        },
        r is Ok && rooted.wf() ==> forall|a: Seq<bool>| {
            let k = #[trigger] eval_ref(rooted.nodes@, rooted.roots@[0], a);
            &&& k < rooted.terminal_payloads@.len()
            &&& payload_typed(rooted.terminal_payloads@[k as int].view(), ir.spec_attempts())
        },
        typed_root_admitted(*rooted, *ir, expected_atom_count, limits) ==> r is Ok,
{
    if rooted.roots.len() != 1 || rooted.atom_count != expected_atom_count || rooted.boolean_false == rooted.boolean_true {
        return Err(ParametricSectorMtbddError::MalformedRootedView);
    }
    if !endpoint_carries_boolean(rooted, rooted.boolean_false, false) || !endpoint_carries_boolean(rooted, rooted.boolean_true, true) {
        return Err(ParametricSectorMtbddError::MalformedRootedView);
    }
    let node_count = rooted.nodes.len();
    let terminal_count = rooted.terminal_payloads.len();
    check_limit("typed-root node-mark entries", node_count, limits.max_typed_root_node_mark_entries)?;
    let mut node_seen = unmarked(node_count);
    check_limit("typed-root terminal-mark entries", terminal_count, limits.max_typed_root_terminal_mark_entries)?;
    let mut terminal_seen = unmarked(terminal_count);
    let stack_entries = checked_add("typed-root traversal stack entries", node_count, 1)?;
    check_limit("typed-root traversal stack entries", stack_entries, limits.max_typed_root_stack_entries)?;
    let mut stack: Vec<CoverageDecisionRef> = Vec::new();
    let mut stats = TypedRootValidationStats {
        node_mark_entries: node_count,
        terminal_mark_entries: terminal_count,
        stack_entries,
        stack_pushes: 0,
        visits: 0,
    };
    push_typed_root_reference(&mut stack, rooted.roots[0], limits, &mut stats)?;
    let attempts = ir.attempts();
    let expected_unsupported_count = count_unsupported_attempts(attempts);
    stats.visits = bounded_add("typed final-root visits", 0, 2, limits.max_typed_root_visits)?;
    let ghost nodes = rooted.nodes@;
    let ghost payloads = rooted.terminal_payloads@;
    let ghost good = typed_root_admitted(*rooted, *ir, expected_atom_count, limits);
    let ghost root = rooted.roots@[0];
    proof {
        assert(stack@[0] == rooted.roots@[0]);
        lemma_marked_count_none(node_seen@);
        lemma_marked_count_none(terminal_seen@);
        assert(reaches(nodes, root, root));
    }
    while stack.len() > 0
        invariant
            good == typed_root_admitted(*rooted, *ir, expected_atom_count, limits),
            root == rooted.roots@[0],
            good ==> forall|j: int| 0 <= j < stack@.len() ==> reaches(nodes, root, #[trigger] stack@[j]),
            good ==> stats.visits == 2 + marked_count(node_seen@) + marked_count(terminal_seen@),
            good ==> stats.stack_pushes == 1 + 2 * marked_count(node_seen@),
            good ==> stack@.len() <= 1 + marked_count(node_seen@),
            nodes == rooted.nodes@,
            payloads == rooted.terminal_payloads@,
            attempts@ == ir.spec_attempts(),
            typed_root_shape_ok(*rooted, expected_atom_count),
            node_seen@.len() == nodes.len(),
            terminal_seen@.len() == payloads.len(),
            node_count == nodes.len(),
            terminal_count == payloads.len(),
            stats.node_mark_entries == nodes.len(),
            stats.terminal_mark_entries == payloads.len(),
            stats.stack_entries == nodes.len() + 1,
            nodes.len() <= limits.max_typed_root_node_mark_entries,
            payloads.len() <= limits.max_typed_root_terminal_mark_entries,
            nodes.len() + 1 <= limits.max_typed_root_stack_entries,
            stats.stack_pushes <= limits.max_typed_root_stack_pushes,
            stats.visits <= limits.max_typed_root_visits,
            expected_unsupported_count == unsupported_ordinals(attempts@, attempts@.len() as int).len(),
            children_covered(nodes, stack@, node_seen@, terminal_seen@),
            covered(rooted.roots@[0], stack@, node_seen@, terminal_seen@),
            forall|t: int| 0 <= t < payloads.len() && #[trigger] terminal_seen@[t] ==> payload_typed(payloads[t].view(), attempts@),
        decreases 2 * (limits.max_typed_root_stack_pushes - stats.stack_pushes) + stack@.len(),
    {
        let ghost before = stack@;
        let ghost ns0 = node_seen@;
        let ghost ts0 = terminal_seen@;
        let reference = stack.pop().unwrap();
        proof {
            assert forall|y: CoverageDecisionRef| before.contains(y) && y != reference implies #[trigger] stack@.contains(y) by {
                lemma_pop_contains(before, y);
            }
            if good {
                assert(reaches(nodes, root, before[before.len() - 1]));
                assert(forall|j: int| 0 <= j < stack@.len() ==> stack@[j] == before[j]);
                lemma_reaches_below(nodes, payloads.len(), rooted.atom_count as nat, root, reference);
                lemma_marked_count_bound(node_seen@);
                lemma_marked_count_bound(terminal_seen@);
            }
        }
        match reference {
            CoverageDecisionRef::Terminal(id) => {
                if id >= terminal_count {
                    return Err(ParametricSectorMtbddError::MalformedRootedView);
                }
                if terminal_seen[id] {
                    proof {
                        lemma_cover_after_pop(nodes, before, stack@, reference, ns0, ts0, node_seen@, terminal_seen@);
                    }
                    continue;
                }
                proof {
                    lemma_marked_count_mark(terminal_seen@, id as int);
                }
                stats.visits = bounded_add("typed final-root visits", stats.visits, 1, limits.max_typed_root_visits)?;
                match &rooted.terminal_payloads[id] {
                    ParametricSectorMtbddTerminalPayload::BooleanFalse | ParametricSectorMtbddTerminalPayload::BooleanTrue => {
                        return Err(ParametricSectorMtbddError::BooleanTerminalReachable);
                    },
                    ParametricSectorMtbddTerminalPayload::Disposition(ParametricSectorMtbddDisposition::DescendingRule { candidate_ordinal }) => {
                        if *candidate_ordinal >= attempts.len() {
                            return Err(
                                ParametricSectorMtbddError::DispositionCandidateOutOfRange {
                                    candidate_ordinal: *candidate_ordinal,
                                    attempt_count: attempts.len(),
                                },
                            );
                        }
                        if let NormalizedCoverageAttempt::Unsupported { .. } = &attempts[*candidate_ordinal] {
                            return Err(
                                ParametricSectorMtbddError::DispositionCandidateIsNotCertified { candidate_ordinal: *candidate_ordinal },
                            );
                        }
                    },
                    ParametricSectorMtbddTerminalPayload::Disposition(ParametricSectorMtbddDisposition::Uncovered) => {
                        if expected_unsupported_count != 0 {
                            return Err(ParametricSectorMtbddError::UnsupportedFallbackMismatch);
                        }
                    },
                    ParametricSectorMtbddTerminalPayload::Disposition(ParametricSectorMtbddDisposition::Unsupported { candidate_ordinals }) => {
                        if expected_unsupported_count == 0 || !unsupported_ordinals_match(ir, candidate_ordinals.as_slice()) {
                            return Err(ParametricSectorMtbddError::UnsupportedFallbackMismatch);
                        }
                    },
                }
                terminal_seen.set(id, true);
                proof {
                    lemma_cover_after_pop(nodes, before, stack@, reference, ns0, ts0, node_seen@, terminal_seen@);
                }
            },
            CoverageDecisionRef::Node(id) => {
                if id >= node_count {
                    return Err(ParametricSectorMtbddError::MalformedRootedView);
                }
                if node_seen[id] {
                    proof {
                        lemma_cover_after_pop(nodes, before, stack@, reference, ns0, ts0, node_seen@, terminal_seen@);
                    }
                    continue;
                }
                proof {
                    lemma_marked_count_mark(node_seen@, id as int);
                    if good {
                        lemma_reaches_children(nodes, payloads.len(), rooted.atom_count as nat, root, id);
                    }
                }
                node_seen.set(id, true);
                stats.visits = bounded_add("typed final-root visits", stats.visits, 1, limits.max_typed_root_visits)?;
                let node = rooted.nodes[id];
                let ghost popped = stack@;
                push_typed_root_reference(&mut stack, node.when_true, limits, &mut stats)?;
                push_typed_root_reference(&mut stack, node.when_false, limits, &mut stats)?;
                proof {
                    assert(stack@ == popped.push(node.when_true).push(node.when_false));
                    assert(stack@[popped.len() as int] == node.when_true);
                    assert(stack@[popped.len() as int + 1] == node.when_false);
                    assert forall|y: CoverageDecisionRef| before.contains(y) && y != reference implies #[trigger] stack@.contains(y) by {
                        assert(popped.contains(y));
                        let j = choose|j: int| 0 <= j < popped.len() && popped[j] == y;
                        assert(stack@[j] == y);
                    }
                    lemma_cover_after_pop(nodes, before, stack@, reference, ns0, ts0, node_seen@, terminal_seen@);
                }
            },
        }
    }
    proof {
        assert(stack@ =~= Seq::<CoverageDecisionRef>::empty());
        if rooted.wf() {
            assert forall|a: Seq<bool>| {
                let k = #[trigger] eval_ref(rooted.nodes@, rooted.roots@[0], a);
                &&& k < rooted.terminal_payloads@.len()
                &&& payload_typed(rooted.terminal_payloads@[k as int].view(), ir.spec_attempts())
            } by {
                lemma_closed_eval(nodes, node_seen@, terminal_seen@, rooted.atom_count as nat, rooted.roots@[0], a);
            }
        }
    }
    Ok(stats)
}


// ---------------------------------------------------------------------------
// The compiled decision function.
// ---------------------------------------------------------------------------

/// Number of entries visited by a walk from `r` to its terminal.
pub open spec fn path_visits(nodes: Seq<CoverageDecisionNode>, r: CoverageDecisionRef, a: Seq<bool>) -> nat
    decreases crate::coverage_decision_dag::ref_rank(r),
{
    match r {
        CoverageDecisionRef::Terminal(_) => 1,
        CoverageDecisionRef::Node(i) => {
            if i < nodes.len() {
                let n = nodes[i as int];
                let next = if a[n.atom as int] { n.when_true } else { n.when_false };
                if crate::coverage_decision_dag::ref_rank(next) < crate::coverage_decision_dag::ref_rank(r) {
                    1 + path_visits(nodes, next, a)
                } else {
                    1
                }
            } else {
                1
            }
        },
    }
}

/// In a well-formed arena every walk tests each atom at most once, so a walk
/// from `r` visits at most one entry per atom from `r`'s top atom on, plus its
/// terminal.
pub proof fn lemma_path_visits_bound(
    nodes: Seq<CoverageDecisionNode>,
    terminals: nat,
    atom_count: nat,
    r: CoverageDecisionRef,
    a: Seq<bool>,
)
    requires
        arena_wf(nodes, terminals, atom_count),
        ref_below(r, nodes.len(), terminals),
    ensures
        path_visits(nodes, r, a) + crate::coverage_decision_dag::top_atom(nodes, r, atom_count) <= atom_count + 1,
    decreases crate::coverage_decision_dag::ref_rank(r),
{
    if let CoverageDecisionRef::Node(i) = r {
        assert(crate::coverage_decision_dag::node_wf(nodes, i as int, terminals, atom_count));
        let n = nodes[i as int];
        let next = if a[n.atom as int] { n.when_true } else { n.when_false };
        lemma_path_visits_bound(nodes, terminals, atom_count, next, a);
    }
}

/// Reduced decision DAG over the dense atoms of a normalized coverage IR,
/// with a single root that classifies every base-locus assignment.
pub struct ParametricSectorMtbddDecisionFunction {
    formula_schema: &'static str,
    order_schema: &'static str,
    base_structural_locus_count: usize,
    atoms: Vec<ParametricSectorMtbddAtom>,
    rooted: CoverageDecisionDagRootedView,
    limits: ParametricSectorMtbddLimits,
    stats: ParametricSectorMtbddStats,
    attempts: Ghost<Seq<NormalizedCoverageAttempt>>,
}

impl ParametricSectorMtbddDecisionFunction {
    #[verifier::type_invariant]
    spec fn decides_reference(self) -> bool {
        &&& self.order_schema == PARAMETRIC_SECTOR_MTBDD_ATOM_ORDER_V1
        &&& self.rooted.wf()
        &&& self.rooted.roots@.len() == 1
        &&& self.atoms@.len() == self.rooted.atom_count
        &&& atoms_in_range(self.atoms@, self.base_structural_locus_count)
        &&& view_decides(self.rooted, self.rooted.roots@[0], self.atoms@, self.attempts@)
    }

    /// Attempts of the IR this function was compiled from.
    pub closed spec fn spec_attempts(self) -> Seq<NormalizedCoverageAttempt> {
        self.attempts@
    }

    pub closed spec fn spec_base_count(self) -> usize {
        self.base_structural_locus_count
    }

    pub closed spec fn spec_atoms(self) -> Seq<ParametricSectorMtbddAtom> {
        self.atoms@
    }

    pub closed spec fn spec_rooted(self) -> CoverageDecisionDagRootedView {
        self.rooted
    }

    pub closed spec fn spec_limits(self) -> ParametricSectorMtbddLimits {
        self.limits
    }

    pub closed spec fn spec_stats(self) -> ParametricSectorMtbddStats {
        self.stats
    }

    pub closed spec fn spec_formula_schema(self) -> &'static str {
        self.formula_schema
    }

    /// Entries visited when classifying `zero`.
    pub closed spec fn classification_visits(self, zero: Seq<bool>) -> nat {
        path_visits(self.rooted.nodes@, self.rooted.roots@[0], dense_assignment(self.atoms@, zero))
    }

    pub fn formula_schema(&self) -> (r: &'static str)
        ensures
            r == self.spec_formula_schema(),
    {
        self.formula_schema
    }

    pub fn order_schema(&self) -> (r: &'static str)
        ensures
            r == PARAMETRIC_SECTOR_MTBDD_ATOM_ORDER_V1,
    {
        proof {
            use_type_invariant(self);
        }
        self.order_schema
    }

    pub fn atoms(&self) -> (r: &[ParametricSectorMtbddAtom])
        ensures
            r@ == self.spec_atoms(),
    {
        self.atoms.as_slice()
    }

    pub fn base_structural_locus_count(&self) -> (r: usize)
        ensures
            r == self.spec_base_count(),
    {
        self.base_structural_locus_count
    }

    pub fn rooted(&self) -> (r: &CoverageDecisionDagRootedView)
        ensures
            *r == self.spec_rooted(),
            r.wf(),
            r.roots@.len() == 1,
            r.atom_count == self.spec_atoms().len(),
            atoms_in_range(self.spec_atoms(), self.spec_base_count()),
            view_decides(*r, r.roots@[0], self.spec_atoms(), self.spec_attempts()),
    {
        proof {
            use_type_invariant(self);
        }
        &self.rooted
    }

    pub fn limits(&self) -> (r: ParametricSectorMtbddLimits)
        ensures
            r == self.spec_limits(),
    {
        self.limits
    }

    pub fn stats(&self) -> (r: ParametricSectorMtbddStats)
        ensures
            r == self.spec_stats(),
    {
        self.stats
    }

    /// Disposition of one assignment, saying for each base structural locus
    /// whether its coverage polynomial vanishes.
    pub fn classify_assignment(&self, zero_by_base_structural_locus: &[bool]) -> (r: Result<
        &ParametricSectorMtbddDisposition,
        ParametricSectorMtbddError,
    >)
        ensures
            zero_by_base_structural_locus@.len() != self.spec_base_count() ==> r == Err::<&ParametricSectorMtbddDisposition, ParametricSectorMtbddError>(
                ParametricSectorMtbddError::AssignmentArityMismatch {
                    expected: self.spec_base_count(),
                    actual: zero_by_base_structural_locus@.len() as usize,
                }),
            zero_by_base_structural_locus@.len() == self.spec_base_count() ==> (r is Ok <==> self.classification_visits(
                zero_by_base_structural_locus@,
            ) <= self.spec_limits().max_classification_visits),
            r matches Ok(d) ==> d.view() == reference_view(self.spec_attempts(), zero_by_base_structural_locus@),
            self.classification_visits(zero_by_base_structural_locus@) <= self.spec_atoms().len() + 1,
            zero_by_base_structural_locus@.len() == self.spec_base_count() && self.spec_atoms().len() + 1
                <= self.spec_limits().max_classification_visits ==> r is Ok,
            zero_by_base_structural_locus@.len() == self.spec_base_count() && self.classification_visits(zero_by_base_structural_locus@)
                > self.spec_limits().max_classification_visits && self.spec_limits().max_classification_visits < usize::MAX
                ==> r == Err::<&ParametricSectorMtbddDisposition, ParametricSectorMtbddError>(ParametricSectorMtbddError::ResourceLimit {
                resource: "MTBDD classification visits",
                requested: (self.spec_limits().max_classification_visits + 1) as usize,
                limit: self.spec_limits().max_classification_visits,
            }),
    {
        proof {
            use_type_invariant(self);
            lemma_path_visits_bound(
                self.rooted.nodes@,
                self.rooted.terminal_payloads@.len(),
                self.rooted.atom_count as nat,
                self.rooted.roots@[0],
                dense_assignment(self.atoms@, zero_by_base_structural_locus@),
            );
        }
        if zero_by_base_structural_locus.len() != self.base_structural_locus_count {
            return Err(
                ParametricSectorMtbddError::AssignmentArityMismatch {
                    expected: self.base_structural_locus_count,
                    actual: zero_by_base_structural_locus.len(),
                },
            );
        }
        let ghost zero = zero_by_base_structural_locus@;
        let ghost d = dense_assignment(self.atoms@, zero);
        let ghost nodes = self.rooted.nodes@;
        let ghost root = self.rooted.roots@[0];
        let mut reference = self.rooted.roots[0];
        let mut visits: usize = 0;
        proof {
            assert(self.rooted.roots@[0] == root);
        }
        loop
            invariant
                self.decides_reference(),
                zero == zero_by_base_structural_locus@,
                zero.len() == self.base_structural_locus_count,
                d == dense_assignment(self.atoms@, zero),
                nodes == self.rooted.nodes@,
                root == self.rooted.roots@[0],
                ref_below(reference, nodes.len(), self.rooted.terminal_payloads@.len()),
                eval_ref(nodes, reference, d) == eval_ref(nodes, root, d),
                visits + path_visits(nodes, reference, d) == path_visits(nodes, root, d),
                visits <= self.limits.max_classification_visits,
                path_visits(nodes, root, d) <= self.atoms@.len() + 1,
            decreases crate::coverage_decision_dag::ref_rank(reference),
        {
            visits = bounded_add("MTBDD classification visits", visits, 1, self.limits.max_classification_visits)?;
            match reference {
                CoverageDecisionRef::Terminal(id) => {
                    let payload = &self.rooted.terminal_payloads[id];
                    proof {
                        assert(eval_ref(nodes, root, d) == id);
                    }
                    return match payload {
                        ParametricSectorMtbddTerminalPayload::Disposition(disposition) => Ok(disposition),
                        _ => Err(ParametricSectorMtbddError::BooleanTerminalReachable),
                    };
                },
                CoverageDecisionRef::Node(id) => {
                    proof {
                        assert(crate::coverage_decision_dag::node_wf(nodes, id as int, self.rooted.terminal_payloads@.len(), self.rooted.atom_count as nat));
                    }
                    let node = self.rooted.nodes[id];
                    let atom = self.atoms[node.atom];
                    proof {
                        assert(d[node.atom as int] == zero[atom.structural_locus_ordinal as int]);
                    }
                    reference = if zero_by_base_structural_locus[atom.structural_locus_ordinal] {
                        node.when_true
                    } else {
                        node.when_false
                    };
                },
            }
        }
    }
}

/// Compiler from normalized coverage IR to its decision function.
pub struct ParametricSectorMtbddCompiler;

impl ParametricSectorMtbddCompiler {
    pub fn compile(ir: &NormalizedCoverageIr, limits: ParametricSectorMtbddLimits) -> (r: Result<
        ParametricSectorMtbddDecisionFunction,
        ParametricSectorMtbddError,
    >)
        requires
            ir.wf(),
        ensures
            r matches Ok(f) ==> {
                &&& f.spec_attempts() == ir.spec_attempts()
                &&& f.spec_base_count() == ir.spec_base_count()
                &&& f.spec_limits() == limits
                &&& f.spec_stats().base_structural_loci == ir.spec_base_count()
                &&& f.spec_stats().attempts == ir.spec_attempts().len()
                &&& f.spec_stats().unsupported_attempts == count_unsupported(ir.spec_attempts(), ir.spec_attempts().len() as int)
                &&& f.spec_stats().certified_attempts + f.spec_stats().unsupported_attempts == f.spec_stats().attempts
                &&& f.spec_stats().atoms == f.spec_atoms().len()
                &&& f.spec_rooted().atom_count == f.spec_atoms().len()
                &&& f.spec_rooted().roots@.len() == 1
                &&& atoms_in_range(f.spec_atoms(), ir.spec_base_count())
                &&& forall|i: int| 0 < i < f.spec_atoms().len() ==> (#[trigger] f.spec_atoms()[i]).structural_locus_ordinal != f.spec_atoms()[i - 1].structural_locus_ordinal
            },
            ir.spec_base_count() > limits.max_base_structural_loci ==> r == Err::<ParametricSectorMtbddDecisionFunction, ParametricSectorMtbddError>(
                ParametricSectorMtbddError::ResourceLimit {
                    resource: "base structural loci",
                    requested: ir.spec_base_count(),
                    limit: limits.max_base_structural_loci,
                }),
            ir.spec_base_count() <= limits.max_base_structural_loci && ir.spec_attempts().len() > limits.max_attempts
                ==> r == Err::<ParametricSectorMtbddDecisionFunction, ParametricSectorMtbddError>(
                ParametricSectorMtbddError::ResourceLimit {
                    resource: "normalized coverage attempts",
                    requested: ir.spec_attempts().len() as usize,
                    limit: limits.max_attempts,
                }),
            fallback_compile_admitted(*ir, limits) ==> r is Ok,
    {
        let ghost good = fallback_compile_admitted(*ir, limits);
        let mut stats = census_ir(ir, limits)?;
        proof {
            if good {
                lemma_only_unsupported_counts(ir.spec_attempts(), ir.spec_attempts().len() as int);
                assert(ir.spec_attempts().take(ir.spec_attempts().len() as int) =~= ir.spec_attempts());
            }
        }
        let atoms = build_dense_atoms(ir, stats.normalized_literals, limits, &mut stats)?;
        let mut dag = match CoverageDecisionDag::new(atoms.len(), limits.dag) {
            Ok(dag) => dag,
            Err(e) => return Err(ParametricSectorMtbddError::Core(e)),
        };
        let mut atom_lookup_comparisons: usize = 0;
        let mut formula_compile_steps: usize = 0;
        let mut priority_candidate_pairs: usize = 0;
        let mut unsupported_references: usize = 0;
        let rooted = match compile_rooted(
            &mut dag,
            ir,
            atoms.as_slice(),
            stats.unsupported_attempts,
            limits,
            &mut atom_lookup_comparisons,
            &mut formula_compile_steps,
            &mut priority_candidate_pairs,
            &mut unsupported_references,
        ) {
            Ok(rooted) => rooted,
            Err(e) => return Err(ParametricSectorMtbddError::Core(e)),
        };
        stats.atom_lookup_comparisons = atom_lookup_comparisons;
        stats.formula_compile_steps = formula_compile_steps;
        stats.priority_candidate_pairs = priority_candidate_pairs;
        stats.unsupported_references = unsupported_references;
        proof {
            dag.lemma_wf_bounds();
        }
        stats.arena_retained_before_export = dag.retained_stats();
        stats.rooted_retained = rooted.retained_stats();
        stats.dag_work = dag.stats().work;
        proof {
            if good {
                let root = rooted.roots@[0];
                assert forall|x: usize|
                    #[trigger] reaches(rooted.nodes@, root, CoverageDecisionRef::Terminal(x)) implies payload_typed(
                    rooted.terminal_payloads@[x as int].view(),
                    ir.spec_attempts(),
                ) by {
                    assert(root == CoverageDecisionRef::Terminal(x));
                    let zero = Seq::<bool>::empty();
                    let k = eval_ref(rooted.nodes@, root, dense_assignment(atoms@, zero));
                    assert(k == x);
                    lemma_only_unsupported_reference(ir.spec_attempts(), ir.spec_attempts().len() as int, zero);
                    lemma_unsupported_count(ir.spec_attempts(), ir.spec_attempts().len() as int);
                }
                assert(typed_root_admitted(rooted, *ir, atoms@.len() as usize, limits));
            }
        }
        let typed_root = validate_typed_final_root(&rooted, ir, atoms.len(), limits)?;
        stats.typed_root_node_mark_entries = typed_root.node_mark_entries;
        stats.typed_root_terminal_mark_entries = typed_root.terminal_mark_entries;
        stats.typed_root_stack_entries = typed_root.stack_entries;
        stats.typed_root_stack_pushes = typed_root.stack_pushes;
        stats.typed_root_visits = typed_root.visits;
        Ok(
            ParametricSectorMtbddDecisionFunction {
                formula_schema: ir.schema(),
                order_schema: PARAMETRIC_SECTOR_MTBDD_ATOM_ORDER_V1,
                base_structural_locus_count: ir.base_structural_locus_count(),
                atoms,
                rooted,
                limits,
                stats,
                attempts: Ghost(ir.spec_attempts()),
            },
        )
    }
}

/// Truth value of a bad formula under an assignment of the base loci.
pub fn evaluate_formula(body: &NormalizedBadFormulaBody, zero: &[bool]) -> (r: bool)
    requires
        match *body {
            NormalizedBadFormulaBody::Dnf { clauses, .. } => clauses_in_range(clauses@, zero@.len() as usize),
            _ => true,
        },
    ensures
        r == formula_holds(*body, zero@),
{
    match body {
        NormalizedBadFormulaBody::False => false,
        NormalizedBadFormulaBody::True { .. } => true,
        NormalizedBadFormulaBody::Dnf { clauses, .. } => {
            let mut c: usize = 0;
            while c < clauses.len()
                invariant
                    c <= clauses@.len(),
                    clauses_in_range(clauses@, zero@.len() as usize),
                    formula_holds(*body, zero@) == (exists|i: int| 0 <= i < clauses@.len() && #[trigger] clause_holds(clauses@[i].body, zero@)),
                    forall|i: int| 0 <= i < c ==> !#[trigger] clause_holds(clauses@[i].body, zero@),
                decreases clauses@.len() - c,
            {
                proof {
                    assert(clause_in_range(clauses@[c as int].body, zero@.len() as usize));
                }
                let holds = match clauses[c].body {
                    DirectBadFormulaClause::Atom(atom) => literal_value(atom, zero),
                    DirectBadFormulaClause::Conjunction(left, right) => literal_value(left, zero) && literal_value(right, zero),
                };
                proof {
                    assert(holds == clause_holds(clauses@[c as int].body, zero@));
                }
                if holds {
                    proof {
                        assert(clause_holds(clauses@[c as int].body, zero@));
                    }
                    return true;
                }
                c += 1;
            }
            false
        },
    }
}

fn literal_value(literal: NormalizedBadLiteral, zero: &[bool]) -> (r: bool)
    requires
        literal.structural_locus_ordinal < zero@.len(),
    ensures
        r == literal_holds(literal, zero@),
{
    match literal.polarity {
        NormalizedBadLiteralPolarity::EqualZero => zero[literal.structural_locus_ordinal],
        NormalizedBadLiteralPolarity::NonZero => !zero[literal.structural_locus_ordinal],
    }
}

/// Disposition of one assignment computed directly from the IR, without a
/// decision DAG.
pub fn reference_disposition_for_assignment(ir: &NormalizedCoverageIr, zero_by_base_structural_locus: &[bool]) -> (r: Result<
    ParametricSectorMtbddDisposition,
    ParametricSectorMtbddError,
>)
    requires
        ir.wf(),
    ensures
        zero_by_base_structural_locus@.len() != ir.spec_base_count() ==> r == Err::<ParametricSectorMtbddDisposition, ParametricSectorMtbddError>(
            ParametricSectorMtbddError::AssignmentArityMismatch {
                expected: ir.spec_base_count(),
                actual: zero_by_base_structural_locus@.len() as usize,
            }),
        zero_by_base_structural_locus@.len() == ir.spec_base_count() ==> r is Ok,
        r matches Ok(d) ==> d.view() == reference_view(ir.spec_attempts(), zero_by_base_structural_locus@),
{
    if zero_by_base_structural_locus.len() != ir.base_structural_locus_count() {
        return Err(
            ParametricSectorMtbddError::AssignmentArityMismatch {
                expected: ir.base_structural_locus_count(),
                actual: zero_by_base_structural_locus.len(),
            },
        );
    }
    let ghost zero = zero_by_base_structural_locus@;
    let attempts = ir.attempts();
    let mut i: usize = 0;
    while i < attempts.len()
        invariant
            i <= attempts@.len(),
            attempts@ == ir.spec_attempts(),
            ir.wf(),
            zero == zero_by_base_structural_locus@,
            zero.len() == ir.spec_base_count(),
            first_failing(attempts@, i as int, zero) is None,
        decreases attempts@.len() - i,
    {
        proof {
            assert(attempt_in_range(attempts@[i as int], ir.spec_base_count()));
        }
        if let NormalizedCoverageAttempt::Certified(formula) = &attempts[i] {
            if !evaluate_formula(&formula.body, zero_by_base_structural_locus) {
                proof {
                    lemma_first_failing_stable(attempts@, i as int + 1, attempts@.len() as int, zero);
                }
                return Ok(ParametricSectorMtbddDisposition::DescendingRule { candidate_ordinal: formula.source_attempt_ordinal });
            }
        }
        i += 1;
    }
    let mut unsupported: Vec<usize> = Vec::new();
    let mut j: usize = 0;
    while j < attempts.len()
        invariant
            j <= attempts@.len(),
            unsupported@ == unsupported_ordinals(attempts@, j as int),
        decreases attempts@.len() - j,
    {
        if let NormalizedCoverageAttempt::Unsupported { source_attempt_ordinal } = &attempts[j] {
            unsupported.push(*source_attempt_ordinal);
        }
        j += 1;
    }
    if unsupported.len() == 0 {
        Ok(ParametricSectorMtbddDisposition::Uncovered)
    } else {
        Ok(ParametricSectorMtbddDisposition::Unsupported { candidate_ordinals: unsupported })
    }
}

} // verus!
