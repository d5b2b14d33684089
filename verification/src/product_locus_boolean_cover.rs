//! Bounded Boolean expansion of product loci on one residual leaf.
//!
//! Product equalities become positive CNF clauses over structural-locus
//! atoms, product nonzero predicates become factor-wise nonzero facts, and a
//! deterministic zero-first Shannon/DPLL transcript partitions the leaf into
//! disjoint Boolean paths.  A clause holds when one of its atoms is zero.

use std::sync::Arc;
use vstd::prelude::*;
use crate::live_leaf_queue::{
    case_position, find_case, find_locus, find_witness, locus_position, witness_position,
    CoordinateEqualityLocusCertificate, GeneratedSectorLiveLeafQueueCertificate, GeneratedSectorLiveLeafQueueError,
    ProductZeroDecomposition, SymbolicSectorPredicate,
};
use crate::parametric_elimination::{byte_len, text_eq, ParametricCoefficientContext};
use crate::sector_mask::{in_orthant, lemma_point_in_orthant_inequalities, SectorFoundationError, SectorMask, SectorOrthantSide};

verus! {

pub const RESIDUAL_PRODUCT_LOCUS_BOOLEAN_COVER_V1_SCHEMA: &'static str =
    "rustred-residual-product-locus-boolean-cover-v1";

#[derive(Clone, Copy, Debug, PartialEq, Eq, Structural)]
pub struct ResidualProductLocusBooleanCoverLimits {
    pub max_family_fingerprint_bytes: usize,
    pub max_context_fingerprint_bytes: usize,
    pub max_source_identity_bytes_referenced: usize,
    pub max_sector_arity: usize,
    pub max_source_predicates: usize,
    pub max_base_unit_checks: usize,
    pub max_structural_locus_lookup_comparisons: usize,
    pub max_product_witness_lookup_comparisons: usize,
    pub max_atoms: usize,
    pub max_atom_lookup_comparisons: usize,
    pub max_referenced_locus_terms: usize,
    pub max_root_clauses: usize,
    pub max_root_literals: usize,
    pub max_root_nonzero_facts: usize,
    pub max_factor_references_expanded: usize,
    pub max_subsumption_comparisons: usize,
    pub max_coordinate_recognition_checks: usize,
    pub max_coordinate_contradiction_comparisons: usize,
    pub max_dpll_nodes: usize,
    pub max_dpll_branches: usize,
    pub max_dpll_depth: usize,
    pub max_frontier_states: usize,
    pub max_path_facts: usize,
    pub max_propagations: usize,
    pub max_retained_propagation_entries: usize,
    pub max_clauses_per_state: usize,
    pub max_literals_per_state: usize,
    pub max_retained_node_clauses: usize,
    pub max_retained_node_literals: usize,
    /// Aggregate atom ordinals owned by exhausted-clause empty witnesses.
    pub max_retained_empty_reason_ordinals: usize,
    pub max_retained_state_bytes: usize,
    pub max_peak_frontier_bytes: usize,
    pub max_peak_simplification_scratch_bytes: usize,
    pub max_terminals: usize,
    pub max_payload_comparison_units: usize,
    pub max_payload_comparison_bytes: usize,
}

impl Default for ResidualProductLocusBooleanCoverLimits {
    fn default() -> (r: Self)
        ensures
            r.max_dpll_nodes == 16_000_000,
            r.max_atoms == 16_000_000,
    {
        ResidualProductLocusBooleanCoverLimits {
            max_family_fingerprint_bytes: 1024 * 1024,
            max_context_fingerprint_bytes: 1024 * 1024,
            max_source_identity_bytes_referenced: 1024 * 1024 * 1024,
            max_sector_arity: 16_000_000,
            max_source_predicates: 4_000_000,
            max_base_unit_checks: 4_000_000,
            max_structural_locus_lookup_comparisons: 256_000_000,
            max_product_witness_lookup_comparisons: 256_000_000,
            max_atoms: 16_000_000,
            max_atom_lookup_comparisons: 256_000_000,
            max_referenced_locus_terms: 256_000_000,
            max_root_clauses: 16_000_000,
            max_root_literals: 64_000_000,
            max_root_nonzero_facts: 64_000_000,
            max_factor_references_expanded: 64_000_000,
            max_subsumption_comparisons: 256_000_000,
            max_coordinate_recognition_checks: 16_000_000,
            max_coordinate_contradiction_comparisons: 256_000_000,
            max_dpll_nodes: 16_000_000,
            max_dpll_branches: 16_000_000,
            max_dpll_depth: 16_000_000,
            max_frontier_states: 16_000_000,
            max_path_facts: 256_000_000,
            max_propagations: 256_000_000,
            max_retained_propagation_entries: 256_000_000,
            max_clauses_per_state: 16_000_000,
            max_literals_per_state: 64_000_000,
            max_retained_node_clauses: 256_000_000,
            max_retained_node_literals: 1_073_741_824,
            max_retained_empty_reason_ordinals: 1_073_741_824,
            max_retained_state_bytes: 8_589_934_592u64 as usize,
            max_peak_frontier_bytes: 4_294_967_296u64 as usize,
            max_peak_simplification_scratch_bytes: 4_294_967_296u64 as usize,
            max_terminals: 16_000_000,
            max_payload_comparison_units: 64_000_000_000u64 as usize,
            max_payload_comparison_bytes: 68_719_476_736u64 as usize,
        }
    }
}

#[derive(Clone, Copy, Debug, Default, PartialEq, Eq, Structural)]
pub struct ResidualProductLocusBooleanCoverStats {
    pub source_predicates: usize,
    pub base_unit_checks: usize,
    pub structural_locus_lookup_comparisons: usize,
    pub product_witness_lookup_comparisons: usize,
    pub atoms: usize,
    pub atom_lookup_comparisons: usize,
    pub referenced_locus_terms: usize,
    pub root_clauses: usize,
    pub root_literals: usize,
    pub root_nonzero_facts: usize,
    pub product_equalities_expanded: usize,
    pub product_nonzero_predicates_expanded: usize,
    pub factor_references_expanded: usize,
    pub duplicate_literals_removed: usize,
    pub duplicate_or_subsumed_clauses_removed: usize,
    pub subsumption_comparisons: usize,
    pub coordinate_recognition_checks: usize,
    pub coordinate_contradiction_comparisons: usize,
    pub dpll_nodes: usize,
    pub dpll_branches: usize,
    pub propagations: usize,
    pub retained_propagation_entries: usize,
    pub path_facts: usize,
    pub retained_node_clauses: usize,
    pub retained_node_literals: usize,
    pub retained_empty_reason_ordinals: usize,
    pub retained_state_bytes: usize,
    pub peak_frontier_states: usize,
    pub peak_frontier_bytes: usize,
    pub peak_simplification_scratch_bytes: usize,
    pub ready_terminals: usize,
    pub proved_empty_terminals: usize,
    pub payload_comparison_units: usize,
    pub payload_comparison_bytes: usize,
}

impl ResidualProductLocusBooleanCoverStats {
    pub fn source_predicates(self) -> (r: usize)
        ensures
            r == self.source_predicates,
    {
        self.source_predicates
    }

    pub fn base_unit_checks(self) -> (r: usize)
        ensures
            r == self.base_unit_checks,
    {
        self.base_unit_checks
    }

    pub fn structural_locus_lookup_comparisons(self) -> (r: usize)
        ensures
            r == self.structural_locus_lookup_comparisons,
    {
        self.structural_locus_lookup_comparisons
    }

    pub fn product_witness_lookup_comparisons(self) -> (r: usize)
        ensures
            r == self.product_witness_lookup_comparisons,
    {
        self.product_witness_lookup_comparisons
    }

    pub fn atoms(self) -> (r: usize)
        ensures
            r == self.atoms,
    {
        self.atoms
    }

    pub fn atom_lookup_comparisons(self) -> (r: usize)
        ensures
            r == self.atom_lookup_comparisons,
    {
        self.atom_lookup_comparisons
    }

    pub fn referenced_locus_terms(self) -> (r: usize)
        ensures
            r == self.referenced_locus_terms,
    {
        self.referenced_locus_terms
    }

    pub fn root_clauses(self) -> (r: usize)
        ensures
            r == self.root_clauses,
    {
        self.root_clauses
    }

    pub fn root_literals(self) -> (r: usize)
        ensures
            r == self.root_literals,
    {
        self.root_literals
    }

    pub fn root_nonzero_facts(self) -> (r: usize)
        ensures
            r == self.root_nonzero_facts,
    {
        self.root_nonzero_facts
    }

    pub fn product_equalities_expanded(self) -> (r: usize)
        ensures
            r == self.product_equalities_expanded,
    {
        self.product_equalities_expanded
    }

    pub fn product_nonzero_predicates_expanded(self) -> (r: usize)
        ensures
            r == self.product_nonzero_predicates_expanded,
    {
        self.product_nonzero_predicates_expanded
    }

    pub fn factor_references_expanded(self) -> (r: usize)
        ensures
            r == self.factor_references_expanded,
    {
        self.factor_references_expanded
    }

    pub fn duplicate_literals_removed(self) -> (r: usize)
        ensures
            r == self.duplicate_literals_removed,
    {
        self.duplicate_literals_removed
    }

    pub fn duplicate_or_subsumed_clauses_removed(self) -> (r: usize)
        ensures
            r == self.duplicate_or_subsumed_clauses_removed,
    {
        self.duplicate_or_subsumed_clauses_removed
    }

    pub fn subsumption_comparisons(self) -> (r: usize)
        ensures
            r == self.subsumption_comparisons,
    {
        self.subsumption_comparisons
    }

    pub fn coordinate_recognition_checks(self) -> (r: usize)
        ensures
            r == self.coordinate_recognition_checks,
    {
        self.coordinate_recognition_checks
    }

    pub fn coordinate_contradiction_comparisons(self) -> (r: usize)
        ensures
            r == self.coordinate_contradiction_comparisons,
    {
        self.coordinate_contradiction_comparisons
    }

    pub fn dpll_nodes(self) -> (r: usize)
        ensures
            r == self.dpll_nodes,
    {
        self.dpll_nodes
    }

    pub fn dpll_branches(self) -> (r: usize)
        ensures
            r == self.dpll_branches,
    {
        self.dpll_branches
    }

    pub fn propagations(self) -> (r: usize)
        ensures
            r == self.propagations,
    {
        self.propagations
    }

    pub fn retained_propagation_entries(self) -> (r: usize)
        ensures
            r == self.retained_propagation_entries,
    {
        self.retained_propagation_entries
    }

    pub fn path_facts(self) -> (r: usize)
        ensures
            r == self.path_facts,
    {
        self.path_facts
    }

    pub fn retained_node_clauses(self) -> (r: usize)
        ensures
            r == self.retained_node_clauses,
    {
        self.retained_node_clauses
    }

    pub fn retained_node_literals(self) -> (r: usize)
        ensures
            r == self.retained_node_literals,
    {
        self.retained_node_literals
    }

    pub fn retained_empty_reason_ordinals(self) -> (r: usize)
        ensures
            r == self.retained_empty_reason_ordinals,
    {
        self.retained_empty_reason_ordinals
    }

    pub fn retained_state_bytes(self) -> (r: usize)
        ensures
            r == self.retained_state_bytes,
    {
        self.retained_state_bytes
    }

    pub fn peak_frontier_states(self) -> (r: usize)
        ensures
            r == self.peak_frontier_states,
    {
        self.peak_frontier_states
    }

    pub fn peak_frontier_bytes(self) -> (r: usize)
        ensures
            r == self.peak_frontier_bytes,
    {
        self.peak_frontier_bytes
    }

    pub fn peak_simplification_scratch_bytes(self) -> (r: usize)
        ensures
            r == self.peak_simplification_scratch_bytes,
    {
        self.peak_simplification_scratch_bytes
    }

    pub fn ready_terminals(self) -> (r: usize)
        ensures
            r == self.ready_terminals,
    {
        self.ready_terminals
    }

    pub fn proved_empty_terminals(self) -> (r: usize)
        ensures
            r == self.proved_empty_terminals,
    {
        self.proved_empty_terminals
    }

    pub fn payload_comparison_units(self) -> (r: usize)
        ensures
            r == self.payload_comparison_units,
    {
        self.payload_comparison_units
    }

    pub fn payload_comparison_bytes(self) -> (r: usize)
        ensures
            r == self.payload_comparison_bytes,
    {
        self.payload_comparison_bytes
    }

}

#[derive(Clone, Copy, Debug, PartialEq, Eq, Structural)]
pub enum ResidualProductLocusBooleanPolarity {
    EqualZero,
    NonZero,
}

/// The branch taken from a parent node: one atom decided zero or nonzero.
#[derive(Clone, Copy, Debug, PartialEq, Eq, Structural)]
pub struct ResidualProductLocusBooleanDecision {
    pub atom_locus_ordinal: usize,
    pub polarity: ResidualProductLocusBooleanPolarity,
}

impl ResidualProductLocusBooleanDecision {
    pub fn atom_locus_ordinal(self) -> (r: usize)
        ensures
            r == self.atom_locus_ordinal,
    {
        self.atom_locus_ordinal
    }

    pub fn polarity(self) -> (r: ResidualProductLocusBooleanPolarity)
        ensures
            r == self.polarity,
    {
        self.polarity
    }
}

/// Why a Boolean path contains no point.
#[derive(Clone, Debug, PartialEq, Eq)]
pub enum ResidualProductLocusBooleanEmptyReason {
    OppositeFacts { atom_locus_ordinal: usize },
    ExhaustedClause { atom_locus_ordinals: Vec<usize> },
    OrthantViolation { atom_locus_ordinal: usize, index: usize, value: i64, side: SectorOrthantSide },
    ConflictingCoordinateEqualities {
        first_atom_locus_ordinal: usize,
        second_atom_locus_ordinal: usize,
        index: usize,
        first_value: i64,
        second_value: i64,
    },
    CoordinateEqualityNonzero {
        equality_atom_locus_ordinal: usize,
        nonzero_atom_locus_ordinal: usize,
        index: usize,
        value: i64,
    },
}

#[derive(Clone, Debug, PartialEq, Eq)]
pub enum ResidualProductLocusBooleanNodeOutcome {
    /// A satisfiable Boolean component: its equal-zero atoms are the rows to
    /// recognize, its nonzero atoms are retained guards.
    ReadyForAffineRecognition,
    ProvedEmpty(ResidualProductLocusBooleanEmptyReason),
    Branched { atom_locus_ordinal: usize },
}

/// One node of the DPLL transcript.
#[derive(Clone, Debug, PartialEq, Eq)]
pub struct ResidualProductLocusBooleanNode {
    pub ordinal: usize,
    pub parent_ordinal: Option<usize>,
    pub decision_from_parent: Option<ResidualProductLocusBooleanDecision>,
    pub depth: usize,
    pub equal_zero_atoms: Vec<usize>,
    pub nonzero_atoms: Vec<usize>,
    pub propagated_zero_atoms: Vec<usize>,
    pub remaining_clauses: Vec<Vec<usize>>,
    pub outcome: ResidualProductLocusBooleanNodeOutcome,
}

impl ResidualProductLocusBooleanNode {
    pub fn ordinal(&self) -> (r: usize)
        ensures
            r == self.ordinal,
    {
        self.ordinal
    }

    pub fn parent_ordinal(&self) -> (r: Option<usize>)
        ensures
            r == self.parent_ordinal,
    {
        self.parent_ordinal
    }

    pub fn decision_from_parent(&self) -> (r: Option<ResidualProductLocusBooleanDecision>)
        ensures
            r == self.decision_from_parent,
    {
        self.decision_from_parent
    }

    pub fn depth(&self) -> (r: usize)
        ensures
            r == self.depth,
    {
        self.depth
    }

    pub fn equal_zero_atoms(&self) -> (r: &[usize])
        ensures
            r@ == self.equal_zero_atoms@,
    {
        self.equal_zero_atoms.as_slice()
    }

    pub fn nonzero_atoms(&self) -> (r: &[usize])
        ensures
            r@ == self.nonzero_atoms@,
    {
        self.nonzero_atoms.as_slice()
    }

    /// Unit-propagation order at this node; decisions inherited from
    /// ancestors stay in `equal_zero_atoms` only.
    pub fn propagated_zero_atoms(&self) -> (r: &[usize])
        ensures
            r@ == self.propagated_zero_atoms@,
    {
        self.propagated_zero_atoms.as_slice()
    }

    pub fn remaining_clauses(&self) -> (r: &[Vec<usize>])
        ensures
            r@ == self.remaining_clauses@,
    {
        self.remaining_clauses.as_slice()
    }

    pub fn outcome(&self) -> (r: &ResidualProductLocusBooleanNodeOutcome)
        ensures
            *r == self.outcome,
    {
        &self.outcome
    }

    pub fn is_terminal(&self) -> (r: bool)
        ensures
            r == !(self.outcome is Branched),
    {
        match self.outcome {
            ResidualProductLocusBooleanNodeOutcome::Branched { .. } => false,
            _ => true,
        }
    }
}

#[derive(Clone, Debug, PartialEq, Eq)]
pub enum ResidualProductLocusBooleanCoverError {
    SchemaMismatch,
    WrongFamily,
    WrongContext,
    SourceQueueMismatch,
    IndependentNestedPayloadComparisonUnsupported { component: &'static str },
    FreshExtractionAllocationMismatch,
    Queue(GeneratedSectorLiveLeafQueueError),
    WorkItemNotFound { ordinal: usize },
    SourceCaseNotFound { case: usize },
    SourceBindingMismatch,
    StructuralLocusNotFound { predicate_ordinal: usize },
    StructuralLocusOrdinalOutOfRange { ordinal: usize },
    ResourceCountOverflow { resource: &'static str },
    ResourceLimit { resource: &'static str, requested: usize, limit: usize },
    ReplayMismatch,
    TerminalEvaluationMismatch,
    Sector(SectorFoundationError),
}

pub fn checked_add(resource: &'static str, left: usize, right: usize) -> (r: Result<usize, ResidualProductLocusBooleanCoverError>)
    ensures
        left + right <= usize::MAX ==> r == Ok::<usize, ResidualProductLocusBooleanCoverError>((left + right) as usize),
        left + right > usize::MAX ==> r == Err::<usize, ResidualProductLocusBooleanCoverError>(
            ResidualProductLocusBooleanCoverError::ResourceCountOverflow { resource }),
{
    match left.checked_add(right) {
        Some(v) => Ok(v),
        None => Err(ResidualProductLocusBooleanCoverError::ResourceCountOverflow { resource }),
    }
}

pub fn checked_mul(resource: &'static str, left: usize, right: usize) -> (r: Result<usize, ResidualProductLocusBooleanCoverError>)
    ensures
        left * right <= usize::MAX ==> r == Ok::<usize, ResidualProductLocusBooleanCoverError>((left * right) as usize),
        left * right > usize::MAX ==> r == Err::<usize, ResidualProductLocusBooleanCoverError>(
            ResidualProductLocusBooleanCoverError::ResourceCountOverflow { resource }),
{
    match left.checked_mul(right) {
        Some(v) => Ok(v),
        None => Err(ResidualProductLocusBooleanCoverError::ResourceCountOverflow { resource }),
    }
}

pub fn check_limit(resource: &'static str, requested: usize, limit: usize) -> (r: Result<(), ResidualProductLocusBooleanCoverError>)
    ensures
        requested <= limit ==> r is Ok,
        requested > limit ==> r == Err::<(), ResidualProductLocusBooleanCoverError>(
            ResidualProductLocusBooleanCoverError::ResourceLimit { resource, requested, limit }),
{
    if requested > limit {
        Err(ResidualProductLocusBooleanCoverError::ResourceLimit { resource, requested, limit })
    } else {
        Ok(())
    }
}

pub fn bounded_add(resource: &'static str, current: usize, additional: usize, limit: usize) -> (r: Result<usize, ResidualProductLocusBooleanCoverError>)
    ensures
        current + additional <= limit ==> r == Ok::<usize, ResidualProductLocusBooleanCoverError>((current + additional) as usize),
        r matches Ok(v) ==> v == current + additional && v <= limit,
        current + additional > usize::MAX ==> r == Err::<usize, ResidualProductLocusBooleanCoverError>(
            ResidualProductLocusBooleanCoverError::ResourceCountOverflow { resource }),
        limit < current + additional <= usize::MAX ==> r == Err::<usize, ResidualProductLocusBooleanCoverError>(
            ResidualProductLocusBooleanCoverError::ResourceLimit { resource, requested: (current + additional) as usize, limit }),
{
    let requested = checked_add(resource, current, additional)?;
    check_limit(resource, requested, limit)?;
    Ok(requested)
}

impl ResidualProductLocusBooleanCoverStats {
    /// All counters zero.
    pub fn zero() -> (r: Self)
        ensures
            r.source_predicates == 0,
            r.base_unit_checks == 0,
            r.structural_locus_lookup_comparisons == 0,
            r.product_witness_lookup_comparisons == 0,
            r.atoms == 0,
            r.atom_lookup_comparisons == 0,
            r.referenced_locus_terms == 0,
            r.root_clauses == 0,
            r.root_literals == 0,
            r.root_nonzero_facts == 0,
            r.product_equalities_expanded == 0,
            r.product_nonzero_predicates_expanded == 0,
            r.factor_references_expanded == 0,
            r.duplicate_literals_removed == 0,
            r.duplicate_or_subsumed_clauses_removed == 0,
            r.subsumption_comparisons == 0,
            r.coordinate_recognition_checks == 0,
            r.coordinate_contradiction_comparisons == 0,
            r.dpll_nodes == 0,
            r.dpll_branches == 0,
            r.propagations == 0,
            r.retained_propagation_entries == 0,
            r.path_facts == 0,
            r.retained_node_clauses == 0,
            r.retained_node_literals == 0,
            r.retained_empty_reason_ordinals == 0,
            r.retained_state_bytes == 0,
            r.peak_frontier_states == 0,
            r.peak_frontier_bytes == 0,
            r.peak_simplification_scratch_bytes == 0,
            r.ready_terminals == 0,
            r.proved_empty_terminals == 0,
            r.payload_comparison_units == 0,
            r.payload_comparison_bytes == 0,
    {
        ResidualProductLocusBooleanCoverStats {
            source_predicates: 0,
            base_unit_checks: 0,
            structural_locus_lookup_comparisons: 0,
            product_witness_lookup_comparisons: 0,
            atoms: 0,
            atom_lookup_comparisons: 0,
            referenced_locus_terms: 0,
            root_clauses: 0,
            root_literals: 0,
            root_nonzero_facts: 0,
            product_equalities_expanded: 0,
            product_nonzero_predicates_expanded: 0,
            factor_references_expanded: 0,
            duplicate_literals_removed: 0,
            duplicate_or_subsumed_clauses_removed: 0,
            subsumption_comparisons: 0,
            coordinate_recognition_checks: 0,
            coordinate_contradiction_comparisons: 0,
            dpll_nodes: 0,
            dpll_branches: 0,
            propagations: 0,
            retained_propagation_entries: 0,
            path_facts: 0,
            retained_node_clauses: 0,
            retained_node_literals: 0,
            retained_empty_reason_ordinals: 0,
            retained_state_bytes: 0,
            peak_frontier_states: 0,
            peak_frontier_bytes: 0,
            peak_simplification_scratch_bytes: 0,
            ready_terminals: 0,
            proved_empty_terminals: 0,
            payload_comparison_units: 0,
            payload_comparison_bytes: 0,
        }
    }
}

/// Kind of a polynomial predicate of a source leaf.
#[derive(Clone, Copy, Debug, PartialEq, Eq, Structural)]
pub enum SymbolicPolynomialPredicateKind {
    EqualZero,
    NonZero,
}

#[derive(Clone, Copy, Debug, PartialEq, Eq, Structural)]
pub enum BaseFieldPredicateResolution {
    Discharge,
    Contradiction,
}

/// A predicate on a polynomial free of the indices is decided by whether the
/// polynomial itself is zero: it then always holds or never holds.
pub fn resolve_base_field_predicate(kind: SymbolicPolynomialPredicateKind, polynomial_is_zero: bool) -> (r: BaseFieldPredicateResolution)
    ensures
        (r == BaseFieldPredicateResolution::Discharge) <==> ((kind == SymbolicPolynomialPredicateKind::EqualZero) == polynomial_is_zero),
{
    match (kind, polynomial_is_zero) {
        (SymbolicPolynomialPredicateKind::EqualZero, true) | (SymbolicPolynomialPredicateKind::NonZero, false) => BaseFieldPredicateResolution::Discharge,
        (SymbolicPolynomialPredicateKind::EqualZero, false) | (SymbolicPolynomialPredicateKind::NonZero, true) => BaseFieldPredicateResolution::Contradiction,
    }
}

/// `core::slice::from_ref`: std documents it as converting a reference into
/// a slice of length one holding the referenced value.
pub assume_specification<T>[ core::slice::from_ref::<T> ](s: &T) -> (r: &[T])
    ensures
        r@ == seq![*s],
;

/// Atoms standing for a product predicate: its witnessed factors, or the
/// product locus itself.
pub fn product_predicate_atoms<'a>(product_locus_ordinal: &'a usize, factor_locus_ordinals: Option<&'a [usize]>) -> (r: &'a [usize])
    ensures
        factor_locus_ordinals matches Some(f) ==> r@ == f@,
        factor_locus_ordinals is None ==> r@ == seq![*product_locus_ordinal],
{
    match factor_locus_ordinals {
        Some(factors) => factors,
        None => core::slice::from_ref(product_locus_ordinal),
    }
}


// ---------------------------------------------------------------------------
// Boolean semantics.  An assignment is the set of atoms whose locus
// polynomial vanishes.
// ---------------------------------------------------------------------------

/// A positive clause holds when one of its atoms vanishes.
pub open spec fn clause_holds(clause: Seq<usize>, zero: Set<usize>) -> bool {
    exists|i: int| 0 <= i < clause.len() && zero.contains(#[trigger] clause[i])
}

pub open spec fn cnf_holds(clauses: Seq<Vec<usize>>, zero: Set<usize>) -> bool {
    forall|j: int| 0 <= j < clauses.len() ==> #[trigger] clause_holds(clauses[j]@, zero)
}

/// Every zero fact vanishes and no nonzero fact does.
pub open spec fn facts_hold(zero_facts: Seq<usize>, nonzero_facts: Seq<usize>, zero: Set<usize>) -> bool {
    &&& forall|i: int| 0 <= i < zero_facts.len() ==> zero.contains(#[trigger] zero_facts[i])
    &&& forall|i: int| 0 <= i < nonzero_facts.len() ==> !zero.contains(#[trigger] nonzero_facts[i])
}

pub open spec fn strictly_sorted(s: Seq<usize>) -> bool {
    forall|i: int, j: int| 0 <= i < j < s.len() ==> s[i] < s[j]
}

pub open spec fn clauses_sorted(clauses: Seq<Vec<usize>>) -> bool {
    forall|j: int| 0 <= j < clauses.len() ==> strictly_sorted(#[trigger] clauses[j]@)
}

/// Membership in a strictly sorted slice by binary search.
pub fn contains_sorted(facts: &[usize], atom: usize) -> (r: bool)
    requires
        strictly_sorted(facts@),
    ensures
        r == facts@.contains(atom),
{
    let mut low: usize = 0;
    let mut high: usize = facts.len();
    while low < high
        invariant
            low <= high <= facts@.len(),
            strictly_sorted(facts@),
            forall|i: int| 0 <= i < low ==> facts@[i] < atom,
            forall|i: int| high <= i < facts@.len() ==> facts@[i] > atom,
        decreases high - low,
    {
        let middle = low + (high - low) / 2;
        if facts[middle] < atom {
            low = middle + 1;
        } else if facts[middle] > atom {
            high = middle;
        } else {
            return true;
        }
    }
    false
}

/// Position at which `atom` sits or would be inserted in a strictly sorted
/// slice.
fn sorted_position(facts: &[usize], atom: usize) -> (r: (bool, usize))
    requires
        strictly_sorted(facts@),
    ensures
        r.1 <= facts@.len(),
        forall|i: int| 0 <= i < r.1 ==> facts@[i] < atom,
        r.0 ==> r.1 < facts@.len() && facts@[r.1 as int] == atom,
        !r.0 ==> forall|i: int| r.1 <= i < facts@.len() ==> facts@[i] > atom,
{
    let mut low: usize = 0;
    let mut high: usize = facts.len();
    while low < high
        invariant
            low <= high <= facts@.len(),
            strictly_sorted(facts@),
            forall|i: int| 0 <= i < low ==> facts@[i] < atom,
            forall|i: int| high <= i < facts@.len() ==> facts@[i] > atom,
        decreases high - low,
    {
        let middle = low + (high - low) / 2;
        if facts[middle] < atom {
            low = middle + 1;
        } else if facts[middle] > atom {
            high = middle;
        } else {
            return (true, middle);
        }
    }
    (false, low)
}

/// Insert `atom` into a strictly sorted fact list unless already present.
pub fn insert_fact(facts: &mut Vec<usize>, atom: usize)
    requires
        strictly_sorted(old(facts)@),
    ensures
        strictly_sorted(final(facts)@),
        forall|x: usize| #[trigger] final(facts)@.contains(x) <==> (old(facts)@.contains(x) || x == atom),
        final(facts)@.len() <= old(facts)@.len() + 1,
{
    let (found, position) = sorted_position(facts.as_slice(), atom);
    if !found {
        facts.insert(position, atom);
        proof {
            let o = old(facts)@;
            let n = facts@;
            assert(n == o.insert(position as int, atom));
            assert forall|x: usize| #[trigger] n.contains(x) <==> (o.contains(x) || x == atom) by {
                if n.contains(x) {
                    let k = choose|k: int| 0 <= k < n.len() && n[k] == x;
                    if k < position {
                        assert(o[k] == x);
                    } else if k > position {
                        assert(o[k - 1] == x);
                    }
                }
                if o.contains(x) {
                    let k = choose|k: int| 0 <= k < o.len() && o[k] == x;
                    if k < position {
                        assert(n[k] == x);
                    } else {
                        assert(n[k + 1] == x);
                    }
                }
                if x == atom {
                    assert(n[position as int] == atom);
                }
            }
        }
    } else {
        proof {
            assert forall|x: usize| #[trigger] facts@.contains(x) <==> (old(facts)@.contains(x) || x == atom) by {
                if x == atom {
                    assert(facts@[position as int] == atom);
                }
            }
        }
    }
}

/// Smallest atom present in both strictly sorted lists.
pub fn first_intersection(left: &[usize], right: &[usize]) -> (r: Option<usize>)
    requires
        strictly_sorted(left@),
        strictly_sorted(right@),
    ensures
        r matches Some(a) ==> left@.contains(a) && right@.contains(a),
        r is None ==> forall|a: usize| !(#[trigger] left@.contains(a) && right@.contains(a)),
{
    let mut i: usize = 0;
    let mut j: usize = 0;
    while i < left.len() && j < right.len()
        invariant
            i <= left@.len(),
            j <= right@.len(),
            strictly_sorted(left@),
            strictly_sorted(right@),
            forall|a: int, b: int| 0 <= a < i && 0 <= b < right@.len() ==> left@[a] != right@[b],
            forall|a: int, b: int| 0 <= a < left@.len() && 0 <= b < j ==> left@[a] != right@[b],
        decreases left@.len() - i + right@.len() - j,
    {
        if left[i] == right[j] {
            return Some(left[i]);
        }
        if left[i] < right[j] {
            i += 1;
        } else {
            j += 1;
        }
    }
    proof {
        assert forall|x: usize| !(#[trigger] left@.contains(x) && right@.contains(x)) by {
            if left@.contains(x) && right@.contains(x) {
                let a = choose|a: int| 0 <= a < left@.len() && left@[a] == x;
                let b = choose|b: int| 0 <= b < right@.len() && right@[b] == x;
            }
        }
    }
    None
}

/// Whether every atom of `left` occurs in `right`, for strictly sorted lists.
pub fn sorted_subset(left: &[usize], right: &[usize]) -> (r: bool)
    requires
        strictly_sorted(left@),
        strictly_sorted(right@),
    ensures
        r <==> forall|i: int| 0 <= i < left@.len() ==> right@.contains(#[trigger] left@[i]),
{
    let mut i: usize = 0;
    let mut j: usize = 0;
    while i < left.len() && j < right.len()
        invariant
            i <= left@.len(),
            j <= right@.len(),
            strictly_sorted(left@),
            strictly_sorted(right@),
            forall|a: int| 0 <= a < i ==> right@.contains(#[trigger] left@[a]),
            i < left@.len() ==> forall|b: int| 0 <= b < j ==> right@[b] < left@[i as int],
        decreases left@.len() - i + right@.len() - j,
    {
        if left[i] == right[j] {
            proof {
                assert(right@.contains(left@[i as int]));
            }
            i += 1;
            j += 1;
        } else if left[i] > right[j] {
            j += 1;
        } else {
            proof {
                if right@.contains(left@[i as int]) {
                    let b = choose|b: int| 0 <= b < right@.len() && right@[b] == left@[i as int];
                    if b < j {
                    } else if b > j {
                    }
                }
            }
            return false;
        }
    }
    proof {
        if i < left@.len() {
            if right@.contains(left@[i as int]) {
                let b = choose|b: int| 0 <= b < right@.len() && right@[b] == left@[i as int];
            }
        }
    }
    i == left.len()
}


/// Strictly sorted copy of a clause without repeated atoms.
pub fn sort_dedup_clause(clause: &[usize]) -> (r: Vec<usize>)
    ensures
        strictly_sorted(r@),
        forall|x: usize| #[trigger] r@.contains(x) <==> clause@.contains(x),
        r@.len() <= clause@.len(),
{
    let mut out: Vec<usize> = Vec::new();
    let mut i: usize = 0;
    while i < clause.len()
        invariant
            i <= clause@.len(),
            strictly_sorted(out@),
            out@.len() <= i,
            forall|x: usize| #[trigger] out@.contains(x) <==> clause@.subrange(0, i as int).contains(x),
        decreases clause@.len() - i,
    {
        let ghost before = out@;
        insert_fact(&mut out, clause[i]);
        proof {
            assert forall|x: usize| #[trigger] out@.contains(x) <==> clause@.subrange(0, i + 1).contains(x) by {
                let p = clause@.subrange(0, i as int);
                let q = clause@.subrange(0, i + 1);
                assert(q == p.push(clause@[i as int]));
                assert(before.contains(x) <==> p.contains(x));
                if x == clause@[i as int] {
                    assert(q[i as int] == x);
                }
                if p.contains(x) {
                    let k = choose|k: int| 0 <= k < p.len() && p[k] == x;
                    assert(q[k] == x);
                }
                if q.contains(x) {
                    let k = choose|k: int| 0 <= k < q.len() && q[k] == x;
                    if k < i {
                        assert(p[k] == x);
                    }
                }
            }
        }
        i += 1;
    }
    proof {
        assert(clause@.subrange(0, clause@.len() as int) =~= clause@);
    }
    out
}

pub proof fn lemma_clause_holds_same_atoms(a: Seq<usize>, b: Seq<usize>, zero: Set<usize>)
    requires
        forall|x: usize| #[trigger] a.contains(x) ==> b.contains(x),
    ensures
        clause_holds(a, zero) ==> clause_holds(b, zero),
{
    if clause_holds(a, zero) {
        let i = choose|i: int| 0 <= i < a.len() && zero.contains(#[trigger] a[i]);
        assert(a.contains(a[i]));
        let k = choose|k: int| 0 <= k < b.len() && b[k] == a[i];
        assert(zero.contains(b[k]));
    }
}

/// Canonical clause order: shorter clauses first, then lexicographic.
pub open spec fn clause_lt(a: Seq<usize>, b: Seq<usize>) -> bool {
    ||| a.len() < b.len()
    ||| a.len() == b.len() && exists|k: int| 0 <= k < a.len() && a[k] < b[k] && forall|i: int| 0 <= i < k ==> #[trigger] a[i] == b[i]
}

pub proof fn lemma_clause_lt_asymmetric(a: Seq<usize>, b: Seq<usize>)
    ensures
        clause_lt(a, b) ==> !clause_lt(b, a),
{
    if clause_lt(a, b) && clause_lt(b, a) {
        let k1 = choose|k: int| 0 <= k < a.len() && a[k] < b[k] && forall|i: int| 0 <= i < k ==> #[trigger] a[i] == b[i];
        let k2 = choose|k: int| 0 <= k < b.len() && b[k] < a[k] && forall|i: int| 0 <= i < k ==> #[trigger] b[i] == a[i];
        if k1 < k2 {
            assert(b[k1] == a[k1]);
        } else if k2 < k1 {
            assert(a[k2] == b[k2]);
        }
    }
}

pub fn clause_less(a: &[usize], b: &[usize]) -> (r: bool)
    ensures
        r == clause_lt(a@, b@),
{
    if a.len() != b.len() {
        return a.len() < b.len();
    }
    let mut k: usize = 0;
    while k < a.len()
        invariant
            k <= a@.len(),
            a@.len() == b@.len(),
            forall|i: int| 0 <= i < k ==> #[trigger] a@[i] == b@[i],
        decreases a@.len() - k,
    {
        if a[k] != b[k] {
            proof {
                if a@[k as int] > b@[k as int] && clause_lt(a@, b@) {
                    let j = choose|j: int| 0 <= j < a@.len() && a@[j] < b@[j] && forall|i: int| 0 <= i < j ==> #[trigger] a@[i] == b@[i];
                    if j < k {
                    } else if j > k {
                        assert(a@[k as int] == b@[k as int]);
                    }
                }
            }
            return a[k] < b[k];
        }
        k += 1;
    }
    proof {
        if clause_lt(a@, b@) {
            let j = choose|j: int| 0 <= j < a@.len() && a@[j] < b@[j] && forall|i: int| 0 <= i < j ==> #[trigger] a@[i] == b@[i];
        }
    }
    false
}

/// `v` is the view of some clause of `s`.
pub open spec fn holds_clause(s: Seq<Vec<usize>>, v: Seq<usize>) -> bool {
    exists|i: int| 0 <= i < s.len() && #[trigger] s[i]@ == v
}

pub proof fn lemma_cnf_same_clauses(a: Seq<Vec<usize>>, b: Seq<Vec<usize>>, zero: Set<usize>)
    requires
        forall|v: Seq<usize>| #[trigger] holds_clause(b, v) ==> holds_clause(a, v),
    ensures
        cnf_holds(a, zero) ==> cnf_holds(b, zero),
{
    if cnf_holds(a, zero) {
        assert forall|j: int| 0 <= j < b.len() implies #[trigger] clause_holds(b[j]@, zero) by {
            assert(holds_clause(b, b[j]@));
            let i = choose|i: int| 0 <= i < a.len() && #[trigger] a[i]@ == b[j]@;
            assert(clause_holds(a[i]@, zero));
        }
    }
}

/// Clauses in order of nondecreasing length: the first is a shortest one.
pub open spec fn clauses_by_length(clauses: Seq<Vec<usize>>) -> bool {
    forall|i: int, j: int| 0 <= i <= j < clauses.len() ==> (#[trigger] clauses[i])@.len() <= (#[trigger] clauses[j])@.len()
}

proof fn lemma_clause_lengths_sorted(s: Seq<Vec<usize>>, i: int, j: int)
    requires
        forall|k: int| 0 < k < s.len() ==> !clause_lt(#[trigger] s[k]@, s[k - 1]@),
        0 <= i <= j < s.len(),
    ensures
        s[i]@.len() <= s[j]@.len(),
    decreases j - i,
{
    if i < j {
        lemma_clause_lengths_sorted(s, i, j - 1);
        assert(!clause_lt(s[j]@, s[j - 1]@));
    }
}

proof fn lemma_by_length_push(before: Seq<Vec<usize>>, c: Vec<usize>)
    requires
        clauses_by_length(before),
        before.len() > 0 ==> before.last()@.len() <= c@.len(),
    ensures
        clauses_by_length(before.push(c)),
{
    let after = before.push(c);
    assert forall|a: int, b: int| 0 <= a <= b < after.len() implies (#[trigger] after[a])@.len() <= (#[trigger] after[b])@.len() by {
        if b == before.len() && a < b {
            assert(after[a] == before[a]);
            assert(before[a]@.len() <= before[before.len() - 1]@.len());
        } else if b < before.len() {
            assert(after[a] == before[a]);
            assert(after[b] == before[b]);
        }
    }
}

/// Stable insertion sort of clauses into canonical order.
pub fn sort_clauses(clauses: Vec<Vec<usize>>) -> (r: Vec<Vec<usize>>)
    ensures
        r@.len() == clauses@.len(),
        forall|v: Seq<usize>| #[trigger] holds_clause(r@, v) <==> holds_clause(clauses@, v),
        forall|j: int| 0 < j < r@.len() ==> !clause_lt(#[trigger] r@[j]@, r@[j - 1]@),
{
    let ghost input = clauses@;
    let mut remaining = clauses;
    let mut sorted: Vec<Vec<usize>> = Vec::new();
    while remaining.len() > 0
        invariant
            sorted@.len() + remaining@.len() == input.len(),
            forall|v: Seq<usize>| #[trigger] holds_clause(input, v) <==> (holds_clause(sorted@, v) || holds_clause(remaining@, v)),
            forall|j: int| 0 < j < sorted@.len() ==> !clause_lt(#[trigger] sorted@[j]@, sorted@[j - 1]@),
        decreases remaining@.len(),
    {
        let ghost before_remaining = remaining@;
        let ghost before_sorted = sorted@;
        let clause = remaining.pop().unwrap();
        let mut position: usize = 0;
        while position < sorted.len() && !clause_less(clause.as_slice(), sorted[position].as_slice())
            invariant
                position <= sorted@.len(),
                sorted@ == before_sorted,
                forall|j: int| 0 <= j < position ==> !clause_lt(clause@, #[trigger] sorted@[j]@),
            decreases sorted@.len() - position,
        {
            position += 1;
        }
        let ghost cv = clause@;
        sorted.insert(position, clause);
        proof {
            let n = sorted@;
            assert(n == before_sorted.insert(position as int, clause));
            assert forall|j: int| 0 < j < n.len() implies !clause_lt(#[trigger] n[j]@, n[j - 1]@) by {
                if j < position {
                    assert(n[j] == before_sorted[j]);
                    assert(n[j - 1] == before_sorted[j - 1]);
                } else if j == position {
                    assert(n[j]@ == cv);
                    assert(n[j - 1] == before_sorted[j - 1]);
                } else if j == position + 1 {
                    assert(n[j] == before_sorted[j - 1]);
                    assert(n[j - 1]@ == cv);
                    assert(clause_lt(cv, before_sorted[j - 1]@));
                    lemma_clause_lt_asymmetric(cv, before_sorted[j - 1]@);
                } else {
                    assert(n[j] == before_sorted[j - 1]);
                    assert(n[j - 1] == before_sorted[j - 2]);
                }
            }
            assert(before_remaining == remaining@.push(clause));
            assert forall|v: Seq<usize>| #[trigger] holds_clause(input, v) <==> (holds_clause(n, v) || holds_clause(remaining@, v)) by {
                if holds_clause(before_sorted, v) {
                    let i = choose|i: int| 0 <= i < before_sorted.len() && #[trigger] before_sorted[i]@ == v;
                    if i < position {
                        assert(n[i]@ == v);
                    } else {
                        assert(n[i + 1]@ == v);
                    }
                }
                if holds_clause(before_remaining, v) {
                    let i = choose|i: int| 0 <= i < before_remaining.len() && #[trigger] before_remaining[i]@ == v;
                    if i < remaining@.len() {
                        assert(remaining@[i]@ == v);
                    } else {
                        assert(n[position as int]@ == v);
                    }
                }
                if holds_clause(n, v) {
                    let i = choose|i: int| 0 <= i < n.len() && #[trigger] n[i]@ == v;
                    if i < position {
                        assert(before_sorted[i]@ == v);
                    } else if i == position {
                        assert(before_remaining[remaining@.len() as int]@ == v);
                    } else {
                        assert(before_sorted[i - 1]@ == v);
                    }
                }
                if holds_clause(remaining@, v) {
                    let i = choose|i: int| 0 <= i < remaining@.len() && #[trigger] remaining@[i]@ == v;
                    assert(before_remaining[i]@ == v);
                }
            }
        }
    }
    proof {
        assert forall|v: Seq<usize>| #[trigger] holds_clause(sorted@, v) <==> holds_clause(input, v) by {
            if holds_clause(remaining@, v) {
                let i = choose|i: int| 0 <= i < remaining@.len() && #[trigger] remaining@[i]@ == v;
            }
        }
    }
    sorted
}


pub fn copy_atoms(source: &[usize]) -> (r: Vec<usize>)
    ensures
        r@ == source@,
{
    let mut out: Vec<usize> = Vec::new();
    let mut i: usize = 0;
    while i < source.len()
        invariant
            i <= source@.len(),
            out@ == source@.subrange(0, i as int),
        decreases source@.len() - i,
    {
        out.push(source[i]);
        i += 1;
        proof {
            assert(out@ =~= source@.subrange(0, i as int));
        }
    }
    proof {
        assert(out@ =~= source@);
    }
    out
}

/// Every atom of `small` occurs in `large`.
pub open spec fn atoms_within(small: Seq<usize>, large: Seq<usize>) -> bool {
    forall|i: int| 0 <= i < small.len() ==> large.contains(#[trigger] small[i])
}

/// Some clause of `clauses` contains `x`.
pub open spec fn cnf_mentions(clauses: Seq<Vec<usize>>, x: usize) -> bool {
    exists|j: int| 0 <= j < clauses.len() && #[trigger] clauses[j]@.contains(x)
}

/// Every clause has an atom.
pub open spec fn clauses_nonempty(clauses: Seq<Vec<usize>>) -> bool {
    forall|j: int| 0 <= j < clauses.len() ==> (#[trigger] clauses[j]@).len() > 0
}

/// Some clause of `clauses` has all its atoms in `c`.
pub open spec fn subsumed_by(clauses: Seq<Vec<usize>>, c: Seq<usize>) -> bool {
    exists|x: int| 0 <= x < clauses.len() && atoms_within(#[trigger] clauses[x]@, c)
}

/// Counters that a canonicalization of `clauses` cannot exhaust: every
/// literal may be a removed duplicate, every pair of clauses may be compared
/// and every clause may be removed.
pub open spec fn canonicalize_within_budget(
    clauses: Seq<Vec<usize>>,
    stats: ResidualProductLocusBooleanCoverStats,
    limits: ResidualProductLocusBooleanCoverLimits,
) -> bool {
    &&& stats.duplicate_literals_removed + literal_count(clauses) <= usize::MAX
    &&& stats.subsumption_comparisons + clauses.len() * clauses.len() <= limits.max_subsumption_comparisons
    &&& stats.duplicate_or_subsumed_clauses_removed + clauses.len() <= usize::MAX
}

/// `b` differs from `a` at most in the counters of clause canonicalization.
pub open spec fn canonical_counts_kept(a: ResidualProductLocusBooleanCoverStats, b: ResidualProductLocusBooleanCoverStats) -> bool {
    b == (ResidualProductLocusBooleanCoverStats {
        duplicate_literals_removed: b.duplicate_literals_removed,
        duplicate_or_subsumed_clauses_removed: b.duplicate_or_subsumed_clauses_removed,
        subsumption_comparisons: b.subsumption_comparisons,
        ..a
    })
}

/// Canonical CNF: each clause strictly sorted, clauses in canonical order,
/// duplicate and subsumed clauses removed.  The CNF keeps its meaning.
#[verifier::spinoff_prover]
pub fn canonicalize_clauses(
    clauses: Vec<Vec<usize>>,
    stats: &mut ResidualProductLocusBooleanCoverStats,
    limits: ResidualProductLocusBooleanCoverLimits,
) -> (r: Result<Vec<Vec<usize>>, ResidualProductLocusBooleanCoverError>)
    ensures
        r matches Ok(out) ==> {
            &&& clauses_sorted(out@)
            &&& clauses_by_length(out@)
            &&& out@.len() <= clauses@.len()
            &&& forall|zero: Set<usize>| #[trigger] cnf_holds(out@, zero) == cnf_holds(clauses@, zero)
            &&& forall|x: usize| #[trigger] cnf_mentions(out@, x) ==> cnf_mentions(clauses@, x)
            &&& clauses_nonempty(clauses@) ==> clauses_nonempty(out@)
        },
        final(stats).propagations == old(stats).propagations,
        canonical_counts_kept(*old(stats), *final(stats)),
        canonicalize_within_budget(clauses@, *old(stats), limits) ==> r is Ok,
{
    let ghost budget_ok = canonicalize_within_budget(clauses@, *old(stats), limits);
    let ghost n = clauses@.len();
    let mut deduped: Vec<Vec<usize>> = Vec::new();
    let mut i: usize = 0;
    proof {
        assert(clauses@.subrange(0, clauses@.len() as int) =~= clauses@);
    }
    while i < clauses.len()
        invariant
            i <= clauses@.len(),
            deduped@.len() == i,
            stats.propagations == old(stats).propagations,
            canonical_counts_kept(*old(stats), *stats),
            budget_ok == canonicalize_within_budget(clauses@, *old(stats), limits),
            clauses@.subrange(0, clauses@.len() as int) == clauses@,
            stats.duplicate_literals_removed <= old(stats).duplicate_literals_removed + literal_count(
                clauses@.subrange(0, i as int),
            ),
            stats.subsumption_comparisons == old(stats).subsumption_comparisons,
            stats.duplicate_or_subsumed_clauses_removed == old(stats).duplicate_or_subsumed_clauses_removed,
            forall|j: int| 0 <= j < i ==> strictly_sorted(#[trigger] deduped@[j]@),
            forall|j: int, x: usize| 0 <= j < i ==> (#[trigger] deduped@[j]@.contains(x) <==> clauses@[j]@.contains(x)),
        decreases clauses@.len() - i,
    {
        proof {
            assert(clauses@.subrange(0, i + 1).drop_last() =~= clauses@.subrange(0, i as int));
            lemma_literal_count_prefix(clauses@, i + 1, clauses@.len() as int);
        }
        let clause = sort_dedup_clause(clauses[i].as_slice());
        let removed = clauses[i].len() - clause.len();
        stats.duplicate_literals_removed = checked_add("duplicate literals removed", stats.duplicate_literals_removed, removed)?;
        deduped.push(clause);
        i += 1;
    }
    proof {
        assert forall|zero: Set<usize>| #[trigger] cnf_holds(deduped@, zero) == cnf_holds(clauses@, zero) by {
            assert forall|j: int| 0 <= j < clauses@.len() implies #[trigger] clause_holds(deduped@[j]@, zero) == clause_holds(clauses@[j]@, zero) by {
                lemma_clause_holds_same_atoms(deduped@[j]@, clauses@[j]@, zero);
                lemma_clause_holds_same_atoms(clauses@[j]@, deduped@[j]@, zero);
            }
            if cnf_holds(deduped@, zero) {
                assert forall|j: int| 0 <= j < clauses@.len() implies #[trigger] clause_holds(clauses@[j]@, zero) by {
                    assert(clause_holds(deduped@[j]@, zero));
                }
            }
            if cnf_holds(clauses@, zero) {
                assert forall|j: int| 0 <= j < deduped@.len() implies #[trigger] clause_holds(deduped@[j]@, zero) by {
                    assert(clause_holds(clauses@[j]@, zero));
                }
            }
        }
    }
    proof {
        assert forall|x: usize| #[trigger] cnf_mentions(deduped@, x) implies cnf_mentions(clauses@, x) by {
            let j = choose|j: int| 0 <= j < deduped@.len() && #[trigger] deduped@[j]@.contains(x);
            assert(clauses@[j]@.contains(x));
        }
        if clauses_nonempty(clauses@) {
            assert forall|j: int| 0 <= j < deduped@.len() implies (#[trigger] deduped@[j]@).len() > 0 by {
                assert(clauses@[j]@.len() > 0);
                assert(clauses@[j]@.contains(clauses@[j]@[0]));
                assert(deduped@[j]@.contains(clauses@[j]@[0]));
            }
        }
    }
    let ghost deduped_view = deduped@;
    let sorted = sort_clauses(deduped);
    proof {
        assert forall|j: int| 0 <= j < sorted@.len() implies strictly_sorted(#[trigger] sorted@[j]@) by {
            assert(holds_clause(sorted@, sorted@[j]@));
            let k = choose|k: int| 0 <= k < deduped_view.len() && #[trigger] deduped_view[k]@ == sorted@[j]@;
        }
        assert forall|zero: Set<usize>| #[trigger] cnf_holds(sorted@, zero) == cnf_holds(deduped_view, zero) by {
            lemma_cnf_same_clauses(sorted@, deduped_view, zero);
            lemma_cnf_same_clauses(deduped_view, sorted@, zero);
        }
        assert forall|x: usize| #[trigger] cnf_mentions(sorted@, x) implies cnf_mentions(clauses@, x) by {
            let j = choose|j: int| 0 <= j < sorted@.len() && #[trigger] sorted@[j]@.contains(x);
            assert(holds_clause(sorted@, sorted@[j]@));
            let k = choose|k: int| 0 <= k < deduped_view.len() && #[trigger] deduped_view[k]@ == sorted@[j]@;
            assert(cnf_mentions(deduped_view, x));
        }
        if clauses_nonempty(clauses@) {
            assert forall|j: int| 0 <= j < sorted@.len() implies (#[trigger] sorted@[j]@).len() > 0 by {
                assert(holds_clause(sorted@, sorted@[j]@));
                let k = choose|k: int| 0 <= k < deduped_view.len() && #[trigger] deduped_view[k]@ == sorted@[j]@;
                assert(deduped_view[k]@.len() > 0);
            }
        }
    }
    proof {
        assert forall|i: int, j: int| 0 <= i <= j < sorted@.len() implies (#[trigger] sorted@[i])@.len()
            <= (#[trigger] sorted@[j])@.len() by {
            lemma_clause_lengths_sorted(sorted@, i, j);
        }
    }
    let mut retained: Vec<Vec<usize>> = Vec::new();
    let mut k: usize = 0;
    let ghost mut last_len: nat = 0;
    while k < sorted.len()
        invariant
            k <= sorted@.len(),
            retained@.len() <= k,
            stats.propagations == old(stats).propagations,
            canonical_counts_kept(*old(stats), *stats),
            sorted@.len() == n,
            budget_ok == canonicalize_within_budget(clauses@, *old(stats), limits),
            clauses@.len() == n,
            stats.subsumption_comparisons <= old(stats).subsumption_comparisons + k * n,
            stats.duplicate_or_subsumed_clauses_removed <= old(stats).duplicate_or_subsumed_clauses_removed + k,
            clauses_sorted(sorted@),
            clauses_sorted(retained@),
            clauses_by_length(sorted@),
            clauses_by_length(retained@),
            retained@.len() > 0 ==> retained@.last()@.len() <= last_len,
            k < n ==> last_len <= sorted@[k as int]@.len(),
            forall|v: Seq<usize>| #[trigger] holds_clause(retained@, v) ==> holds_clause(sorted@, v),
            forall|j: int| 0 <= j < k ==> subsumed_by(retained@, #[trigger] sorted@[j]@),
            forall|x: usize| #[trigger] cnf_mentions(sorted@, x) ==> cnf_mentions(clauses@, x),
            clauses_nonempty(clauses@) ==> clauses_nonempty(sorted@),
        decreases sorted@.len() - k,
    {
        let candidate = sorted[k].as_slice();
        let mut subsumed = false;
        let mut e: usize = 0;
        proof {
            assert((k + 1) * n == k * n + n) by (nonlinear_arith);
            assert(budget_ok ==> (k + 1) * n <= n * n) by (nonlinear_arith)
                requires
                    k + 1 <= n,
            ;
        }
        while e < retained.len()
            invariant_except_break
                !subsumed,
            invariant
                e <= retained@.len(),
                retained@.len() <= k,
                k < n,
                stats.propagations == old(stats).propagations,
            canonical_counts_kept(*old(stats), *stats),
                budget_ok == canonicalize_within_budget(clauses@, *old(stats), limits),
                clauses@.len() == n,
                sorted@.len() == n,
                (k + 1) * n == k * n + n,
                budget_ok ==> (k + 1) * n <= n * n,
                !subsumed ==> stats.subsumption_comparisons <= old(stats).subsumption_comparisons + k * n + e,
                subsumed ==> stats.subsumption_comparisons <= old(stats).subsumption_comparisons + k * n + retained@.len(),
                !subsumed ==> stats.duplicate_or_subsumed_clauses_removed <= old(stats).duplicate_or_subsumed_clauses_removed + k,
                subsumed ==> stats.duplicate_or_subsumed_clauses_removed <= old(stats).duplicate_or_subsumed_clauses_removed + k + 1,
                clauses_sorted(sorted@),
                clauses_sorted(retained@),
                k < sorted@.len(),
                candidate@ == sorted@[k as int]@,
                subsumed ==> subsumed_by(retained@, sorted@[k as int]@),
            decreases retained@.len() - e,
        {
            stats.subsumption_comparisons = bounded_add(
                "clause subsumption comparisons",
                stats.subsumption_comparisons,
                1,
                limits.max_subsumption_comparisons,
            )?;
            proof {
                assert(strictly_sorted(retained@[e as int]@));
                assert(strictly_sorted(sorted@[k as int]@));
            }
            if sorted_subset(retained[e].as_slice(), candidate) {
                stats.duplicate_or_subsumed_clauses_removed = checked_add(
                    "duplicate or subsumed clauses removed",
                    stats.duplicate_or_subsumed_clauses_removed,
                    1,
                )?;
                subsumed = true;
                proof {
                    assert(atoms_within(retained@[e as int]@, sorted@[k as int]@));
                }
                break;
            }
            e += 1;
        }
        if !subsumed {
            let copy = copy_atoms(candidate);
            let ghost before = retained@;
            retained.push(copy);
            proof {
                assert(retained@ == before.push(copy));
                lemma_by_length_push(before, copy);
                last_len = sorted@[k as int]@.len();
                assert forall|v: Seq<usize>| #[trigger] holds_clause(retained@, v) implies holds_clause(sorted@, v) by {
                    let i = choose|i: int| 0 <= i < retained@.len() && #[trigger] retained@[i]@ == v;
                    if i < before.len() {
                        assert(before[i]@ == v);
                        assert(holds_clause(before, v));
                    } else {
                        assert(sorted@[k as int]@ == v);
                    }
                }
                assert(atoms_within(retained@[before.len() as int]@, sorted@[k as int]@)) by {
                    assert forall|a: int| 0 <= a < retained@[before.len() as int]@.len() implies sorted@[k as int]@.contains(#[trigger] retained@[before.len() as int]@[a]) by {
                        assert(sorted@[k as int]@[a] == retained@[before.len() as int]@[a]);
                    }
                }
                assert forall|j: int| 0 <= j < k + 1 implies subsumed_by(retained@, #[trigger] sorted@[j]@) by {
                    if j < k {
                        assert(subsumed_by(before, sorted@[j]@));
                        let x = choose|x: int| 0 <= x < before.len() && atoms_within(#[trigger] before[x]@, sorted@[j]@);
                        assert(retained@[x] == before[x]);
                    } else {
                        assert(atoms_within(retained@[before.len() as int]@, sorted@[j]@));
                    }
                }
            }
        }
        proof {
            if k + 1 < n {
                assert(sorted@[k as int]@.len() <= sorted@[k + 1]@.len());
            }
        }
        k += 1;
    }
    proof {
        assert forall|x: usize| #[trigger] cnf_mentions(retained@, x) implies cnf_mentions(clauses@, x) by {
            let j = choose|j: int| 0 <= j < retained@.len() && #[trigger] retained@[j]@.contains(x);
            assert(holds_clause(retained@, retained@[j]@));
            let k = choose|k: int| 0 <= k < sorted@.len() && #[trigger] sorted@[k]@ == retained@[j]@;
            assert(cnf_mentions(sorted@, x));
        }
        if clauses_nonempty(clauses@) {
            assert forall|j: int| 0 <= j < retained@.len() implies (#[trigger] retained@[j]@).len() > 0 by {
                assert(holds_clause(retained@, retained@[j]@));
                let k = choose|k: int| 0 <= k < sorted@.len() && #[trigger] sorted@[k]@ == retained@[j]@;
                assert(sorted@[k]@.len() > 0);
            }
        }
        assert forall|zero: Set<usize>| #[trigger] cnf_holds(retained@, zero) == cnf_holds(sorted@, zero) by {
            lemma_cnf_same_clauses(sorted@, retained@, zero);
            if cnf_holds(retained@, zero) {
                assert forall|j: int| 0 <= j < sorted@.len() implies #[trigger] clause_holds(sorted@[j]@, zero) by {
                    assert(subsumed_by(retained@, sorted@[j]@));
                    let x = choose|x: int| 0 <= x < retained@.len() && atoms_within(#[trigger] retained@[x]@, sorted@[j]@);
                    assert(clause_holds(retained@[x]@, zero));
                    lemma_clause_holds_same_atoms(retained@[x]@, sorted@[j]@, zero);
                }
            }
        }
    }
    Ok(retained)
}


/// Insert an atom ordinal into the strictly sorted atom set by binary search.
pub fn insert_unique_atom(
    atoms: &mut Vec<usize>,
    ordinal: usize,
    stats: &mut ResidualProductLocusBooleanCoverStats,
    limits: ResidualProductLocusBooleanCoverLimits,
) -> (r: Result<(), ResidualProductLocusBooleanCoverError>)
    requires
        strictly_sorted(old(atoms)@),
    ensures
        strictly_sorted(final(atoms)@),
        r is Ok ==> forall|x: usize| #[trigger] final(atoms)@.contains(x) <==> (old(atoms)@.contains(x) || x == ordinal),
        r is Ok && !old(atoms)@.contains(ordinal) ==> old(atoms)@.len() + 1 <= limits.max_atoms,
        r is Err ==> final(atoms)@ == old(atoms)@,
        old(atoms)@.len() == 0 && limits.max_atoms == 0 ==> r == Err::<(), ResidualProductLocusBooleanCoverError>(
            ResidualProductLocusBooleanCoverError::ResourceLimit { resource: "Boolean atoms", requested: 1, limit: 0 }),
        old(atoms)@.len() > 0 && old(stats).atom_lookup_comparisons == limits.max_atom_lookup_comparisons
            && limits.max_atom_lookup_comparisons < usize::MAX ==> r == Err::<(), ResidualProductLocusBooleanCoverError>(
            ResidualProductLocusBooleanCoverError::ResourceLimit {
                resource: "Boolean atom lookup comparisons",
                requested: (limits.max_atom_lookup_comparisons + 1) as usize,
                limit: limits.max_atom_lookup_comparisons,
            }),
        *final(stats) == (ResidualProductLocusBooleanCoverStats {
            atom_lookup_comparisons: final(stats).atom_lookup_comparisons,
            ..*old(stats)
        }),
        old(stats).atom_lookup_comparisons <= final(stats).atom_lookup_comparisons <= old(stats).atom_lookup_comparisons
            + old(atoms)@.len(),
        old(stats).atom_lookup_comparisons + old(atoms)@.len() <= limits.max_atom_lookup_comparisons && old(atoms)@.len()
            + 1 <= limits.max_atoms ==> r is Ok,
        final(atoms)@.len() <= old(atoms)@.len() + 1,
{
    let mut low: usize = 0;
    let mut high: usize = atoms.len();
    while low < high
        invariant
            low <= high <= atoms@.len(),
            atoms@ == old(atoms)@,
            *stats == (ResidualProductLocusBooleanCoverStats {
                atom_lookup_comparisons: stats.atom_lookup_comparisons,
                ..*old(stats)
            }),
            old(stats).atom_lookup_comparisons <= stats.atom_lookup_comparisons,
            stats.atom_lookup_comparisons + (high - low) <= old(stats).atom_lookup_comparisons + atoms@.len(),
            strictly_sorted(atoms@),
            forall|i: int| 0 <= i < low ==> atoms@[i] < ordinal,
            forall|i: int| high <= i < atoms@.len() ==> atoms@[i] > ordinal,
            low == 0 && high == atoms@.len() ==> stats.atom_lookup_comparisons == old(stats).atom_lookup_comparisons,
            old(atoms)@.len() > 0 && old(stats).atom_lookup_comparisons == limits.max_atom_lookup_comparisons
                && limits.max_atom_lookup_comparisons < usize::MAX ==> low == 0 && high == atoms@.len(),
        decreases high - low,
    {
        stats.atom_lookup_comparisons = bounded_add(
            "Boolean atom lookup comparisons",
            stats.atom_lookup_comparisons,
            1,
            limits.max_atom_lookup_comparisons,
        )?;
        let middle = low + (high - low) / 2;
        if atoms[middle] < ordinal {
            low = middle + 1;
        } else if atoms[middle] > ordinal {
            high = middle;
        } else {
            proof {
                assert forall|x: usize| #[trigger] atoms@.contains(x) <==> (old(atoms)@.contains(x) || x == ordinal) by {
                    if x == ordinal {
                        assert(atoms@[middle as int] == x);
                    }
                }
            }
            return Ok(());
        }
    }
    proof {
        if old(atoms)@.contains(ordinal) {
            let k = choose|k: int| 0 <= k < old(atoms)@.len() && old(atoms)@[k] == ordinal;
        }
    }
    let requested = checked_add("Boolean atoms", atoms.len(), 1)?;
    check_limit("Boolean atoms", requested, limits.max_atoms)?;
    atoms.insert(low, ordinal);
    proof {
        let o = old(atoms)@;
        let n = atoms@;
        assert(n == o.insert(low as int, ordinal));
        assert forall|x: usize| #[trigger] n.contains(x) <==> (o.contains(x) || x == ordinal) by {
            if n.contains(x) {
                let k = choose|k: int| 0 <= k < n.len() && n[k] == x;
                if k < low {
                    assert(o[k] == x);
                } else if k > low {
                    assert(o[k - 1] == x);
                }
            }
            if o.contains(x) {
                let k = choose|k: int| 0 <= k < o.len() && o[k] == x;
                if k < low {
                    assert(n[k] == x);
                } else {
                    assert(n[k + 1] == x);
                }
            }
            if x == ordinal {
                assert(n[low as int] == ordinal);
            }
        }
    }
    Ok(())
}

/// Coordinate metadata of each atom: `Some((index, value))` when the atom's
/// locus is the coordinate equality `n[index] == value`.
pub open spec fn coordinates_sorted(coordinates: Seq<(usize, Option<(usize, i64)>)>) -> bool {
    forall|i: int, j: int| 0 <= i < j < coordinates.len() ==> coordinates[i].0 < coordinates[j].0
}

pub open spec fn coordinate_of(coordinates: Seq<(usize, Option<(usize, i64)>)>, atom: usize) -> Option<(usize, i64)> {
    if exists|i: int| 0 <= i < coordinates.len() && #[trigger] coordinates[i].0 == atom {
        coordinates[choose|i: int| 0 <= i < coordinates.len() && #[trigger] coordinates[i].0 == atom].1
    } else {
        None
    }
}

pub fn coordinate_for(coordinates: &[(usize, Option<(usize, i64)>)], atom: usize) -> (r: Option<(usize, i64)>)
    requires
        coordinates_sorted(coordinates@),
    ensures
        r == coordinate_of(coordinates@, atom),
{
    let mut low: usize = 0;
    let mut high: usize = coordinates.len();
    while low < high
        invariant
            low <= high <= coordinates@.len(),
            coordinates_sorted(coordinates@),
            forall|i: int| 0 <= i < low ==> coordinates@[i].0 < atom,
            forall|i: int| high <= i < coordinates@.len() ==> coordinates@[i].0 > atom,
        decreases high - low,
    {
        let middle = low + (high - low) / 2;
        if coordinates[middle].0 < atom {
            low = middle + 1;
        } else if coordinates[middle].0 > atom {
            high = middle;
        } else {
            proof {
                assert(coordinates@[middle as int].0 == atom);
                let i = choose|i: int| 0 <= i < coordinates@.len() && #[trigger] coordinates@[i].0 == atom;
                if i < middle {
                } else if i > middle {
                }
                assert(i == middle);
            }
            return coordinates[middle].1;
        }
    }
    proof {
        if exists|i: int| 0 <= i < coordinates@.len() && #[trigger] coordinates@[i].0 == atom {
            let i = choose|i: int| 0 <= i < coordinates@.len() && #[trigger] coordinates@[i].0 == atom;
        }
    }
    None
}

/// One pending DPLL state: the path facts so far and the residual CNF.
#[derive(Debug)]
pub struct BooleanState {
    pub parent_ordinal: Option<usize>,
    pub decision_from_parent: Option<ResidualProductLocusBooleanDecision>,
    pub depth: usize,
    pub zero: Vec<usize>,
    pub nonzero: Vec<usize>,
    pub clauses: Vec<Vec<usize>>,
}

/// The assignments a state stands for.
pub open spec fn state_holds(state: BooleanState, zero: Set<usize>) -> bool {
    facts_hold(state.zero@, state.nonzero@, zero) && cnf_holds(state.clauses@, zero)
}

/// Sorted fact lists and strictly sorted nonempty clauses.
pub open spec fn state_wf(state: BooleanState) -> bool {
    &&& strictly_sorted(state.zero@)
    &&& strictly_sorted(state.nonzero@)
    &&& clauses_sorted(state.clauses@)
}

pub open spec fn literal_count(clauses: Seq<Vec<usize>>) -> nat
    decreases clauses.len(),
{
    if clauses.len() == 0 {
        0
    } else {
        literal_count(clauses.drop_last()) + clauses.last()@.len()
    }
}

/// A machine word takes at least one byte.
pub proof fn lemma_word_at_least_one()
    ensures
        vstd::layout::size_of::<usize>() >= 1,
{
    broadcast use vstd::layout::layout_of_primitives;

    assert(vstd::layout::size_of::<usize>() * 8 == usize::BITS);
}

/// A product with a positive factor is at least the other factor.
pub proof fn lemma_mul_at_least(x: nat, k: nat)
    requires
        k >= 1,
    ensures
        x <= x * k,
{
    assert(x <= x * k) by (nonlinear_arith)
        requires
            k >= 1,
    ;
}

/// Total number of literals, failing on overflow.
pub fn literal_total(clauses: &[Vec<usize>], resource: &'static str) -> (r: Result<usize, ResidualProductLocusBooleanCoverError>)
    ensures
        r matches Ok(v) ==> v == literal_count(clauses@),
        r is Err ==> r == Err::<usize, ResidualProductLocusBooleanCoverError>(ResidualProductLocusBooleanCoverError::ResourceCountOverflow { resource }),
        literal_count(clauses@) <= usize::MAX ==> r is Ok,
{
    let mut sum: usize = 0;
    let mut i: usize = 0;
    while i < clauses.len()
        invariant
            i <= clauses@.len(),
            sum == literal_count(clauses@.subrange(0, i as int)),
        decreases clauses@.len() - i,
    {
        proof {
            assert(clauses@.subrange(0, i + 1).drop_last() =~= clauses@.subrange(0, i as int));
            lemma_literal_count_prefix(clauses@, i + 1, clauses@.len() as int);
            assert(clauses@.subrange(0, clauses@.len() as int) =~= clauses@);
        }
        sum = checked_add(resource, sum, clauses[i].len())?;
        i += 1;
    }
    proof {
        assert(clauses@.subrange(0, clauses@.len() as int) =~= clauses@);
    }
    Ok(sum)
}

pub proof fn lemma_literal_count_prefix(clauses: Seq<Vec<usize>>, i: int, n: int)
    requires
        0 <= i <= n <= clauses.len(),
    ensures
        literal_count(clauses.subrange(0, i)) <= literal_count(clauses.subrange(0, n)),
    decreases n - i,
{
    if i < n {
        lemma_literal_count_prefix(clauses, i, n - 1);
        assert(clauses.subrange(0, n).drop_last() =~= clauses.subrange(0, n - 1));
    }
}

/// Logical owned bytes of a state of the given shape.
pub open spec fn state_shape_bytes(zero_facts: nat, nonzero_facts: nat, clauses: nat, literals: nat) -> nat {
    vstd::layout::size_of::<BooleanState>() + clauses * vstd::layout::size_of::<Vec<usize>>() + (zero_facts
        + nonzero_facts + literals) * vstd::layout::size_of::<usize>()
}

/// Words of scratch a simplification of a state of the given shape may hold.
pub open spec fn simplification_scratch_words(clauses: nat, literals: nat, zero_facts: nat, propagations: nat) -> nat {
    6 * clauses + 2 * literals + 3 * (zero_facts + propagations) + propagations + 16
}

/// Logical owned bytes of a state of the given shape: the state header, one
/// vector header per clause, and one word per fact and literal.
pub fn state_bytes_from_shape(
    zero_facts: usize,
    nonzero_facts: usize,
    clauses: usize,
    literals: usize,
) -> (r: Result<usize, ResidualProductLocusBooleanCoverError>)
    ensures
        r is Ok <==> state_shape_bytes(zero_facts as nat, nonzero_facts as nat, clauses as nat, literals as nat) <= usize::MAX,
        r matches Ok(v) ==> v == state_shape_bytes(zero_facts as nat, nonzero_facts as nat, clauses as nat, literals as nat),
        r is Err ==> r == Err::<usize, ResidualProductLocusBooleanCoverError>(
            ResidualProductLocusBooleanCoverError::ResourceCountOverflow { resource: "DPLL state bytes" }),
{
    proof {
        lemma_word_at_least_one();
        lemma_mul_at_least((zero_facts + nonzero_facts + literals) as nat, vstd::layout::size_of::<usize>());
    }
    let fact_entries = checked_add("DPLL state bytes", zero_facts, nonzero_facts)?;
    let payload_entries = checked_add("DPLL state bytes", fact_entries, literals)?;
    let payload_bytes = checked_mul("DPLL state bytes", payload_entries, core::mem::size_of::<usize>())?;
    let clause_header_bytes = checked_mul("DPLL state bytes", clauses, core::mem::size_of::<Vec<usize>>())?;
    let body = checked_add("DPLL state bytes", clause_header_bytes, payload_bytes)?;
    checked_add("DPLL state bytes", core::mem::size_of::<BooleanState>(), body)
}

pub fn state_bytes(state: &BooleanState) -> (r: Result<usize, ResidualProductLocusBooleanCoverError>)
    ensures
        r is Ok <==> state_shape_bytes(state.zero@.len(), state.nonzero@.len(), state.clauses@.len(), literal_count(state.clauses@))
            <= usize::MAX,
        r matches Ok(v) ==> v == state_shape_bytes(
            state.zero@.len(),
            state.nonzero@.len(),
            state.clauses@.len(),
            literal_count(state.clauses@),
        ),
        r is Err ==> r == Err::<usize, ResidualProductLocusBooleanCoverError>(
            ResidualProductLocusBooleanCoverError::ResourceCountOverflow { resource: "DPLL state bytes" }),
{
    proof {
        lemma_word_at_least_one();
        lemma_mul_at_least(
            (state.zero@.len() + state.nonzero@.len() + literal_count(state.clauses@)) as nat,
            vstd::layout::size_of::<usize>(),
        );
    }
    let literals = literal_total(state.clauses.as_slice(), "DPLL state bytes")?;
    state_bytes_from_shape(state.zero.len(), state.nonzero.len(), state.clauses.len(), literals)
}

/// Additional scratch a simplification of `state` may hold: six vector
/// headers per clause, two copies of every literal, three words per
/// coordinate fact, one transcript word per propagation and a fixed margin.
pub fn simplification_scratch_bytes(state: &BooleanState, maximum_new_propagations: usize) -> (r: Result<
    usize,
    ResidualProductLocusBooleanCoverError,
>)
    ensures
        r is Ok <==> simplification_scratch_words(
            state.clauses@.len(),
            literal_count(state.clauses@),
            state.zero@.len(),
            maximum_new_propagations as nat,
        ) * vstd::layout::size_of::<usize>() <= usize::MAX,
        r matches Ok(v) ==> v == simplification_scratch_words(
            state.clauses@.len(),
            literal_count(state.clauses@),
            state.zero@.len(),
            maximum_new_propagations as nat,
        ) * vstd::layout::size_of::<usize>(),
        r is Err ==> r == Err::<usize, ResidualProductLocusBooleanCoverError>(
            ResidualProductLocusBooleanCoverError::ResourceCountOverflow { resource: "DPLL simplification scratch bytes" }),
{
    proof {
        lemma_word_at_least_one();
        lemma_mul_at_least(
            simplification_scratch_words(
                state.clauses@.len(),
                literal_count(state.clauses@),
                state.zero@.len(),
                maximum_new_propagations as nat,
            ),
            vstd::layout::size_of::<usize>(),
        );
    }
    let literals = literal_total(state.clauses.as_slice(), "DPLL simplification scratch bytes")?;
    let clause_words = checked_mul("DPLL simplification scratch bytes", state.clauses.len(), 6)?;
    let literal_words = checked_mul("DPLL simplification scratch bytes", literals, 2)?;
    let coordinate_facts = checked_add("DPLL simplification scratch bytes", state.zero.len(), maximum_new_propagations)?;
    let coordinate_words = checked_mul("DPLL simplification scratch bytes", coordinate_facts, 3)?;
    let mut words = checked_add("DPLL simplification scratch bytes", 0, clause_words)?;
    words = checked_add("DPLL simplification scratch bytes", words, literal_words)?;
    words = checked_add("DPLL simplification scratch bytes", words, coordinate_words)?;
    words = checked_add("DPLL simplification scratch bytes", words, maximum_new_propagations)?;
    words = checked_add("DPLL simplification scratch bytes", words, 16)?;
    checked_mul("DPLL simplification scratch bytes", words, core::mem::size_of::<usize>())
}

pub fn copy_clauses(source: &[Vec<usize>]) -> (r: Vec<Vec<usize>>)
    ensures
        r@.len() == source@.len(),
        forall|j: int| 0 <= j < source@.len() ==> (#[trigger] r@[j])@ == source@[j]@,
{
    let mut out: Vec<Vec<usize>> = Vec::new();
    let mut i: usize = 0;
    while i < source.len()
        invariant
            i <= source@.len(),
            out@.len() == i,
            forall|j: int| 0 <= j < i ==> (#[trigger] out@[j])@ == source@[j]@,
        decreases source@.len() - i,
    {
        out.push(copy_atoms(source[i].as_slice()));
        i += 1;
    }
    out
}

/// Two clause lists with equal views.
pub open spec fn same_clauses(a: Seq<Vec<usize>>, b: Seq<Vec<usize>>) -> bool {
    a.len() == b.len() && forall|j: int| 0 <= j < a.len() ==> (#[trigger] a[j])@ == b[j]@
}

pub fn clone_state(state: &BooleanState) -> (r: BooleanState)
    ensures
        r.parent_ordinal == state.parent_ordinal,
        r.decision_from_parent == state.decision_from_parent,
        r.depth == state.depth,
        r.zero@ == state.zero@,
        r.nonzero@ == state.nonzero@,
        same_clauses(r.clauses@, state.clauses@),
{
    BooleanState {
        parent_ordinal: state.parent_ordinal,
        decision_from_parent: state.decision_from_parent,
        depth: state.depth,
        zero: copy_atoms(state.zero.as_slice()),
        nonzero: copy_atoms(state.nonzero.as_slice()),
        clauses: copy_clauses(state.clauses.as_slice()),
    }
}


/// Side of the orthant the sector assigns to `index`.
pub open spec fn sector_side(active: Seq<bool>, index: usize) -> SectorOrthantSide {
    if active[index as int] {
        SectorOrthantSide::AtLeastOne
    } else {
        SectorOrthantSide::AtMostZero
    }
}

pub open spec fn side_accepts(side: SectorOrthantSide, value: i64) -> bool {
    match side {
        SectorOrthantSide::AtLeastOne => value >= 1,
        SectorOrthantSide::AtMostZero => value <= 0,
    }
}

/// A coordinate reason names zero (and nonzero) facts whose coordinate
/// equalities no integer point of the sector satisfies together.
pub open spec fn coordinate_reason_valid(
    reason: ResidualProductLocusBooleanEmptyReason,
    zero_facts: Seq<usize>,
    nonzero_facts: Seq<usize>,
    coordinates: Seq<(usize, Option<(usize, i64)>)>,
    active: Seq<bool>,
) -> bool {
    match reason {
        ResidualProductLocusBooleanEmptyReason::OrthantViolation { atom_locus_ordinal, index, value, side } => {
            &&& zero_facts.contains(atom_locus_ordinal)
            &&& coordinate_of(coordinates, atom_locus_ordinal) == Some((index, value))
            &&& index < active.len()
            &&& side == sector_side(active, index)
            &&& !side_accepts(side, value)
        },
        ResidualProductLocusBooleanEmptyReason::ConflictingCoordinateEqualities {
            first_atom_locus_ordinal,
            second_atom_locus_ordinal,
            index,
            first_value,
            second_value,
        } => {
            &&& zero_facts.contains(first_atom_locus_ordinal)
            &&& zero_facts.contains(second_atom_locus_ordinal)
            &&& coordinate_of(coordinates, first_atom_locus_ordinal) == Some((index, first_value))
            &&& coordinate_of(coordinates, second_atom_locus_ordinal) == Some((index, second_value))
            &&& first_value != second_value
        },
        ResidualProductLocusBooleanEmptyReason::CoordinateEqualityNonzero {
            equality_atom_locus_ordinal,
            nonzero_atom_locus_ordinal,
            index,
            value,
        } => {
            &&& zero_facts.contains(equality_atom_locus_ordinal)
            &&& nonzero_facts.contains(nonzero_atom_locus_ordinal)
            &&& coordinate_of(coordinates, equality_atom_locus_ordinal) == Some((index, value))
            &&& coordinate_of(coordinates, nonzero_atom_locus_ordinal) == Some((index, value))
        },
        _ => false,
    }
}

/// Contradictions among the coordinate equalities of a state's facts and
/// its sector's orthant.
/// A zero fact whose coordinate equality, if any, names a sector index and
/// a value on the sector's side of that index.
pub open spec fn zero_fact_in_orthant(coordinates: Seq<(usize, Option<(usize, i64)>)>, atom: usize, active: Seq<bool>) -> bool {
    coordinate_of(coordinates, atom) matches Some((index, value)) ==> index < active.len() && side_accepts(
        sector_side(active, index),
        value,
    )
}

/// Every zero fact whose coordinate equality names a sector index sets that
/// index on the sector's side: at least one when the index is active, at most
/// zero when it is not.
pub open spec fn zero_facts_respect_orthant(
    zero: Seq<usize>,
    coordinates: Seq<(usize, Option<(usize, i64)>)>,
    active: Seq<bool>,
) -> bool {
    forall|i: int|
        0 <= i < zero.len() ==> (coordinate_of(coordinates, #[trigger] zero[i]) matches Some((index, value)) ==> (index
            < active.len() ==> (active[index as int] ==> value >= 1) && (!active[index as int] ==> value <= 0)))
}

/// The sector side of an index accepts exactly the values of its orthant:
/// an active index accepts the values at least one, an inactive index the
/// values at most zero.
pub proof fn lemma_side_accepts_inequalities(active: Seq<bool>, index: usize, value: i64)
    requires
        index < active.len(),
    ensures
        active[index as int] ==> (side_accepts(sector_side(active, index), value) <==> value >= 1),
        !active[index as int] ==> (side_accepts(sector_side(active, index), value) <==> value <= 0),
        !active[index as int] && value > 0 ==> !side_accepts(sector_side(active, index), value),
        active[index as int] && value < 1 ==> !side_accepts(sector_side(active, index), value),
{
}

/// An orthant violation is a valid coordinate reason exactly when its atom
/// is a zero fact whose coordinate equality sets a sector index to a value
/// off the sector's side (below one at an active index, above zero at an
/// inactive one), and the reason names the index's side.
pub proof fn lemma_orthant_violation_valid(
    atom: usize,
    index: usize,
    value: i64,
    side: SectorOrthantSide,
    zero_facts: Seq<usize>,
    nonzero_facts: Seq<usize>,
    coordinates: Seq<(usize, Option<(usize, i64)>)>,
    active: Seq<bool>,
)
    ensures
        coordinate_reason_valid(
            ResidualProductLocusBooleanEmptyReason::OrthantViolation { atom_locus_ordinal: atom, index, value, side },
            zero_facts,
            nonzero_facts,
            coordinates,
            active,
        ) <==> {
            &&& zero_facts.contains(atom)
            &&& coordinate_of(coordinates, atom) == Some((index, value))
            &&& index < active.len()
            &&& side == (if active[index as int] { SectorOrthantSide::AtLeastOne } else { SectorOrthantSide::AtMostZero })
            &&& ((active[index as int] && value < 1) || (!active[index as int] && value > 0))
        },
{
}

/// A state whose zero facts put a coordinate off the sector's orthant (an
/// active index below one or an inactive index above zero) has a valid
/// orthant-violation reason, and so does not respect the orthant.
pub proof fn lemma_orthant_violation_found(
    zero_facts: Seq<usize>,
    nonzero_facts: Seq<usize>,
    coordinates: Seq<(usize, Option<(usize, i64)>)>,
    active: Seq<bool>,
    q: int,
)
    requires
        0 <= q < zero_facts.len(),
        coordinate_of(coordinates, zero_facts[q]) matches Some((index, value)) && index < active.len() && (
        (active[index as int] && value < 1) || (!active[index as int] && value > 0)),
    ensures
        !zero_facts_respect_orthant(zero_facts, coordinates, active),
        coordinate_reason_valid(
            ResidualProductLocusBooleanEmptyReason::OrthantViolation {
                atom_locus_ordinal: zero_facts[q],
                index: coordinate_of(coordinates, zero_facts[q])->Some_0.0,
                value: coordinate_of(coordinates, zero_facts[q])->Some_0.1,
                side: sector_side(active, coordinate_of(coordinates, zero_facts[q])->Some_0.0),
            },
            zero_facts,
            nonzero_facts,
            coordinates,
            active,
        ),
{
    assert(zero_facts.contains(zero_facts[q]));
}

/// Comparisons among `n` zero facts taken pairwise: `n * (n - 1) / 2`.
pub open spec fn pairs_below(n: nat) -> nat
    decreases n,
{
    if n == 0 {
        0
    } else {
        pairs_below((n - 1) as nat) + (n - 1) as nat
    }
}

pub proof fn lemma_pairs_below(n: nat)
    ensures
        2 * pairs_below(n) == n * (if n == 0 { 0 } else { n - 1 }),
    decreases n,
{
    if n > 0 {
        lemma_pairs_below((n - 1) as nat);
        let m = (n - 1) as nat;
        assert(2 * pairs_below(m) == m * (if m == 0 { 0 } else { m - 1 }));
        assert(m * (if m == 0 { 0 } else { m - 1 }) + 2 * m == n * m) by (nonlinear_arith)
            requires
                n == m + 1,
        ;
    }
}

pub proof fn lemma_pairs_below_mono(i: nat, n: nat)
    requires
        i <= n,
    ensures
        pairs_below(i) <= pairs_below(n),
    decreases n - i,
{
    if i < n {
        lemma_pairs_below_mono(i, (n - 1) as nat);
    }
}

/// A coordinate check of a state with zero facts `zero` and `nonzero_facts`
/// nonzero facts that cannot exhaust its scratch or comparison budget, and
/// whose zero facts' coordinate indices lie in the sector.
pub open spec fn coordinate_check_within_budget(
    zero: Seq<usize>,
    nonzero_facts: nat,
    coordinates: Seq<(usize, Option<(usize, i64)>)>,
    arity: nat,
    stats: ResidualProductLocusBooleanCoverStats,
    limits: ResidualProductLocusBooleanCoverLimits,
) -> bool {
    let z = zero.len();
    &&& vstd::layout::size_of::<Vec<(usize, usize, i64)>>() + z * vstd::layout::size_of::<(usize, usize, i64)>()
        <= limits.max_peak_simplification_scratch_bytes
    &&& 2 * pairs_below(z) <= usize::MAX
    &&& stats.coordinate_contradiction_comparisons + pairs_below(z) + z * nonzero_facts
        <= limits.max_coordinate_contradiction_comparisons
    &&& forall|i: int|
        0 <= i < z ==> (#[trigger] coordinate_of(coordinates, zero[i]) matches Some((index, _)) ==> index < arity)
}

/// `b` differs from `a` at most in the coordinate-contradiction comparisons
/// and the peak simplification scratch bytes.
pub open spec fn coordinate_counts_kept(a: ResidualProductLocusBooleanCoverStats, b: ResidualProductLocusBooleanCoverStats) -> bool {
    b == (ResidualProductLocusBooleanCoverStats {
        coordinate_contradiction_comparisons: b.coordinate_contradiction_comparisons,
        peak_simplification_scratch_bytes: b.peak_simplification_scratch_bytes,
        ..a
    })
}

pub fn coordinate_contradiction(
    state: &BooleanState,
    sector: &SectorMask,
    coordinates: &[(usize, Option<(usize, i64)>)],
    stats: &mut ResidualProductLocusBooleanCoverStats,
    limits: ResidualProductLocusBooleanCoverLimits,
) -> (r: Result<Option<ResidualProductLocusBooleanEmptyReason>, ResidualProductLocusBooleanCoverError>)
    requires
        coordinates_sorted(coordinates@),
    ensures
        r matches Ok(Some(reason)) ==> coordinate_reason_valid(reason, state.zero@, state.nonzero@, coordinates@, sector.spec_active()),
        final(stats).propagations == old(stats).propagations,
        coordinate_counts_kept(*old(stats), *final(stats)),
        coordinate_check_within_budget(state.zero@, state.nonzero@.len(), coordinates@, sector.spec_active().len(), *old(stats), limits)
            ==> r is Ok,
        r matches Ok(None) ==> forall|reason: ResidualProductLocusBooleanEmptyReason|
            !#[trigger] coordinate_reason_valid(reason, state.zero@, state.nonzero@, coordinates@, sector.spec_active()),
        r matches Ok(None) ==> zero_facts_respect_orthant(state.zero@, coordinates@, sector.spec_active()),
        r matches Ok(Some(ResidualProductLocusBooleanEmptyReason::OrthantViolation { atom_locus_ordinal, index, value, side }))
            ==> index < sector.spec_active().len() && ((sector.spec_active()[index as int] && value < 1) || (
            !sector.spec_active()[index as int] && value > 0)),
{
    let ghost active_view = sector.spec_active();
    let ghost budget_ok = coordinate_check_within_budget(
        state.zero@,
        state.nonzero@.len(),
        coordinates@,
        sector.spec_active().len(),
        *old(stats),
        limits,
    );
    let ghost z: nat = state.zero@.len();
    let ghost base: nat = old(stats).coordinate_contradiction_comparisons as nat;
    let coordinate_payload_bytes = checked_mul(
        "DPLL simplification scratch bytes",
        state.zero.len(),
        core::mem::size_of::<(usize, usize, i64)>(),
    )?;
    let coordinate_scratch_bytes = checked_add(
        "DPLL simplification scratch bytes",
        core::mem::size_of::<Vec<(usize, usize, i64)>>(),
        coordinate_payload_bytes,
    )?;
    check_limit(
        "peak DPLL simplification scratch bytes",
        coordinate_scratch_bytes,
        limits.max_peak_simplification_scratch_bytes,
    )?;
    if coordinate_scratch_bytes > stats.peak_simplification_scratch_bytes {
        stats.peak_simplification_scratch_bytes = coordinate_scratch_bytes;
    }
    let zero_len = state.zero.len();
    let below = if zero_len == 0 { 0 } else { zero_len - 1 };
    proof {
        lemma_pairs_below(z);
        assert(below * zero_len == 2 * pairs_below(z)) by (nonlinear_arith)
            requires
                2 * pairs_below(z) == z * (if z == 0 { 0 } else { z - 1 }),
                below == (if z == 0 { 0 } else { z - 1 }),
                zero_len == z,
        ;
    }
    let zero_pairs = checked_mul("coordinate contradiction comparisons", below, zero_len)? / 2;
    assert(zero_pairs == pairs_below(z));
    let zero_nonzero_pairs = checked_mul("coordinate contradiction comparisons", zero_len, state.nonzero.len())?;
    let maximum_comparisons = checked_add("coordinate contradiction comparisons", zero_pairs, zero_nonzero_pairs)?;
    check_limit(
        "coordinate contradiction comparisons",
        checked_add(
            "coordinate contradiction comparisons",
            stats.coordinate_contradiction_comparisons,
            maximum_comparisons,
        )?,
        limits.max_coordinate_contradiction_comparisons,
    )?;
    let mut zero_coordinates: Vec<(usize, usize, i64)> = Vec::new();
    let mut i: usize = 0;
    while i < state.zero.len()
        invariant
            i <= state.zero@.len(),
            coordinates_sorted(coordinates@),
            stats.propagations == old(stats).propagations,
            coordinate_counts_kept(*old(stats), *stats),
            budget_ok == coordinate_check_within_budget(
                state.zero@,
                state.nonzero@.len(),
                coordinates@,
                sector.spec_active().len(),
                *old(stats),
                limits,
            ),
            z == state.zero@.len(),
            base == old(stats).coordinate_contradiction_comparisons,
            zero_coordinates@.len() <= i,
            budget_ok ==> stats.coordinate_contradiction_comparisons <= base + pairs_below(i as nat),
            forall|j: int|
                0 <= j < i ==> zero_fact_in_orthant(coordinates@, #[trigger] state.zero@[j], active_view),
            forall|j: int|
                0 <= j < i ==> (coordinate_of(coordinates@, #[trigger] state.zero@[j]) matches Some((x, v)) ==> exists|t: int|
                    0 <= t < zero_coordinates@.len() && #[trigger] zero_coordinates@[t] == (state.zero@[j], x, v)),
            forall|t1: int, t2: int|
                0 <= t1 < zero_coordinates@.len() && 0 <= t2 < zero_coordinates@.len() && (#[trigger] zero_coordinates@[t1]).1
                    == (#[trigger] zero_coordinates@[t2]).1 ==> zero_coordinates@[t1].2 == zero_coordinates@[t2].2,
            active_view == sector.spec_active(),

            forall|k: int| 0 <= k < zero_coordinates@.len() ==> {
                &&& state.zero@.contains((#[trigger] zero_coordinates@[k]).0)
                &&& coordinate_of(coordinates@, zero_coordinates@[k].0) == Some((zero_coordinates@[k].1, zero_coordinates@[k].2))
            },
        decreases state.zero@.len() - i,
    {
        let atom = state.zero[i];
        proof {
            assert(state.zero@.contains(atom));
        }
        if let Some((index, value)) = coordinate_for(coordinates, atom) {
            proof {
                if budget_ok {
                    assert(index < sector.spec_active().len());
                }
                lemma_pairs_below_mono(i as nat + 1, z);
            }
            let active = match sector.is_active(index) {
                Ok(active) => active,
                Err(e) => return Err(ResidualProductLocusBooleanCoverError::Sector(e)),
            };
            let side = if active { SectorOrthantSide::AtLeastOne } else { SectorOrthantSide::AtMostZero };
            let accepts = match side {
                SectorOrthantSide::AtLeastOne => value >= 1,
                SectorOrthantSide::AtMostZero => value <= 0,
            };
            if !accepts {
                proof {
                    lemma_side_accepts_inequalities(active_view, index, value);
                }
                return Ok(Some(
                    ResidualProductLocusBooleanEmptyReason::OrthantViolation { atom_locus_ordinal: atom, index, value, side },
                ));
            }
            let mut k: usize = 0;
            while k < zero_coordinates.len()
                invariant
                    k <= zero_coordinates@.len(),
                    budget_ok == coordinate_check_within_budget(
                        state.zero@,
                        state.nonzero@.len(),
                        coordinates@,
                        sector.spec_active().len(),
                        *old(stats),
                        limits,
                    ),
                    base == old(stats).coordinate_contradiction_comparisons,
                    zero_coordinates@.len() <= i,
                    i < z,
                    z == state.zero@.len(),
                    budget_ok ==> base + pairs_below(z) + z * state.nonzero@.len()
                        <= limits.max_coordinate_contradiction_comparisons,
                    pairs_below(i as nat + 1) == pairs_below(i as nat) + i,
                    pairs_below(i as nat + 1) <= pairs_below(z),
                    budget_ok ==> stats.coordinate_contradiction_comparisons <= base + pairs_below(i as nat) + k,
                    state.zero@.contains(atom),
                    atom == state.zero@[i as int],
                    index < active_view.len(),
                    side_accepts(sector_side(active_view, index), value),
                    forall|t: int| 0 <= t < k ==> (#[trigger] zero_coordinates@[t]).1 == index ==> zero_coordinates@[t].2 == value,
                    forall|j: int|
                        0 <= j < i ==> zero_fact_in_orthant(coordinates@, #[trigger] state.zero@[j], active_view),
                    forall|j: int|
                        0 <= j < i ==> (coordinate_of(coordinates@, #[trigger] state.zero@[j]) matches Some((x, v)) ==> exists|t: int|
                            0 <= t < zero_coordinates@.len() && #[trigger] zero_coordinates@[t] == (state.zero@[j], x, v)),
                    forall|t1: int, t2: int|
                        0 <= t1 < zero_coordinates@.len() && 0 <= t2 < zero_coordinates@.len() && (#[trigger] zero_coordinates@[t1]).1
                            == (#[trigger] zero_coordinates@[t2]).1 ==> zero_coordinates@[t1].2 == zero_coordinates@[t2].2,
                    active_view == sector.spec_active(),

                    coordinate_of(coordinates@, atom) == Some((index, value)),
                    stats.propagations == old(stats).propagations,
            coordinate_counts_kept(*old(stats), *stats),
                    forall|t: int| 0 <= t < zero_coordinates@.len() ==> {
                        &&& state.zero@.contains((#[trigger] zero_coordinates@[t]).0)
                        &&& coordinate_of(coordinates@, zero_coordinates@[t].0) == Some((zero_coordinates@[t].1, zero_coordinates@[t].2))
                    },
                decreases zero_coordinates@.len() - k,
            {
                stats.coordinate_contradiction_comparisons = bounded_add(
                    "coordinate contradiction comparisons",
                    stats.coordinate_contradiction_comparisons,
                    1,
                    limits.max_coordinate_contradiction_comparisons,
                )?;
                let (other_atom, other_index, other_value) = zero_coordinates[k];
                proof {
                    assert(state.zero@.contains(zero_coordinates@[k as int].0));
                }
                if index == other_index && value != other_value {
                    return Ok(Some(
                        ResidualProductLocusBooleanEmptyReason::ConflictingCoordinateEqualities {
                            first_atom_locus_ordinal: other_atom,
                            second_atom_locus_ordinal: atom,
                            index,
                            first_value: other_value,
                            second_value: value,
                        },
                    ));
                }
                k += 1;
            }
            let ghost zc_before = zero_coordinates@;
            zero_coordinates.push((atom, index, value));
            proof {
                let zc = zero_coordinates@;
                assert forall|j: int|
                    0 <= j < i + 1 implies (coordinate_of(coordinates@, #[trigger] state.zero@[j]) matches Some((x, v)) ==> exists|t: int|
                    0 <= t < zc.len() && #[trigger] zc[t] == (state.zero@[j], x, v)) by {
                    if j < i {
                        if let Some((x, v)) = coordinate_of(coordinates@, state.zero@[j]) {
                            let t = choose|t: int| 0 <= t < zc_before.len() && #[trigger] zc_before[t] == (state.zero@[j], x, v);
                            assert(zc[t] == zc_before[t]);
                        }
                    } else {
                        assert(zc[zc_before.len() as int] == (state.zero@[j], index, value));
                    }
                }
                assert forall|t1: int, t2: int|
                    0 <= t1 < zc.len() && 0 <= t2 < zc.len() && (#[trigger] zc[t1]).1 == (#[trigger] zc[t2]).1 implies zc[t1].2
                    == zc[t2].2 by {
                    if t1 < zc_before.len() && t2 < zc_before.len() {
                        assert(zc[t1] == zc_before[t1] && zc[t2] == zc_before[t2]);
                    } else if t1 < zc_before.len() {
                        assert(zc[t1] == zc_before[t1]);
                    } else if t2 < zc_before.len() {
                        assert(zc[t2] == zc_before[t2]);
                    }
                }
                assert(zero_fact_in_orthant(coordinates@, state.zero@[i as int], active_view));
            }
        } else {
            proof {
                assert(zero_fact_in_orthant(coordinates@, state.zero@[i as int], active_view));
            }
        }
        i += 1;
    }
    let mut j: usize = 0;
    while j < state.nonzero.len()
        invariant
            j <= state.nonzero@.len(),
            budget_ok == coordinate_check_within_budget(
                state.zero@,
                state.nonzero@.len(),
                coordinates@,
                sector.spec_active().len(),
                *old(stats),
                limits,
            ),
            base == old(stats).coordinate_contradiction_comparisons,
            zero_coordinates@.len() <= z,
            z == state.zero@.len(),
            budget_ok ==> base + pairs_below(z) + z * state.nonzero@.len() <= limits.max_coordinate_contradiction_comparisons,
            budget_ok ==> stats.coordinate_contradiction_comparisons <= base + pairs_below(z) + j * z,
            forall|j: int|
                0 <= j < state.zero@.len() ==> zero_fact_in_orthant(coordinates@, #[trigger] state.zero@[j], active_view),
            forall|j: int|
                0 <= j < state.zero@.len() ==> (coordinate_of(coordinates@, #[trigger] state.zero@[j]) matches Some((x, v))
                    ==> exists|t: int| 0 <= t < zero_coordinates@.len() && #[trigger] zero_coordinates@[t] == (state.zero@[j], x, v)),
            forall|t1: int, t2: int|
                0 <= t1 < zero_coordinates@.len() && 0 <= t2 < zero_coordinates@.len() && (#[trigger] zero_coordinates@[t1]).1
                    == (#[trigger] zero_coordinates@[t2]).1 ==> zero_coordinates@[t1].2 == zero_coordinates@[t2].2,
            active_view == sector.spec_active(),
            forall|n: int|
                0 <= n < j ==> (coordinate_of(coordinates@, #[trigger] state.nonzero@[n]) matches Some((x, v)) ==> forall|t: int|
                    0 <= t < zero_coordinates@.len() ==> !(#[trigger] zero_coordinates@[t].1 == x && zero_coordinates@[t].2 == v)),

            coordinates_sorted(coordinates@),
            stats.propagations == old(stats).propagations,
            coordinate_counts_kept(*old(stats), *stats),
            forall|k: int| 0 <= k < zero_coordinates@.len() ==> {
                &&& state.zero@.contains((#[trigger] zero_coordinates@[k]).0)
                &&& coordinate_of(coordinates@, zero_coordinates@[k].0) == Some((zero_coordinates@[k].1, zero_coordinates@[k].2))
            },
        decreases state.nonzero@.len() - j,
    {
        let nonzero_atom = state.nonzero[j];
        proof {
            assert(state.nonzero@.contains(nonzero_atom));
        }
        if let Some((index, value)) = coordinate_for(coordinates, nonzero_atom) {
            let mut k: usize = 0;
            proof {
                assert((j + 1) * z == j * z + z) by (nonlinear_arith);
                assert((j + 1) * z <= state.nonzero@.len() * z) by (nonlinear_arith)
                    requires
                        j + 1 <= state.nonzero@.len(),
                ;
                assert(state.nonzero@.len() * z == z * state.nonzero@.len()) by (nonlinear_arith);
            }
            while k < zero_coordinates.len()
                invariant
                    k <= zero_coordinates@.len(),
                    budget_ok == coordinate_check_within_budget(
                        state.zero@,
                        state.nonzero@.len(),
                        coordinates@,
                        sector.spec_active().len(),
                        *old(stats),
                        limits,
                    ),
                    base == old(stats).coordinate_contradiction_comparisons,
                    zero_coordinates@.len() <= z,
                    j < state.nonzero@.len(),
                    (j + 1) * z == j * z + z,
                    (j + 1) * z <= z * state.nonzero@.len(),
                    budget_ok ==> base + pairs_below(z) + z * state.nonzero@.len()
                        <= limits.max_coordinate_contradiction_comparisons,
                    budget_ok ==> stats.coordinate_contradiction_comparisons <= base + pairs_below(z) + j * z + k,
                    nonzero_atom == state.nonzero@[j as int],
                    forall|t: int| 0 <= t < k ==> !(#[trigger] zero_coordinates@[t].1 == index && zero_coordinates@[t].2 == value),
                    forall|j: int|
                        0 <= j < state.zero@.len() ==> zero_fact_in_orthant(coordinates@, #[trigger] state.zero@[j], active_view),
                    forall|j: int|
                        0 <= j < state.zero@.len() ==> (coordinate_of(coordinates@, #[trigger] state.zero@[j]) matches Some((x, v))
                            ==> exists|t: int| 0 <= t < zero_coordinates@.len() && #[trigger] zero_coordinates@[t] == (state.zero@[j], x, v)),
                    forall|t1: int, t2: int|
                        0 <= t1 < zero_coordinates@.len() && 0 <= t2 < zero_coordinates@.len() && (#[trigger] zero_coordinates@[t1]).1
                            == (#[trigger] zero_coordinates@[t2]).1 ==> zero_coordinates@[t1].2 == zero_coordinates@[t2].2,
                    active_view == sector.spec_active(),
                    forall|n: int|
                        0 <= n < j ==> (coordinate_of(coordinates@, #[trigger] state.nonzero@[n]) matches Some((x, v)) ==> forall|t: int|
                            0 <= t < zero_coordinates@.len() ==> !(#[trigger] zero_coordinates@[t].1 == x && zero_coordinates@[t].2 == v)),

                    state.nonzero@.contains(nonzero_atom),
                    coordinate_of(coordinates@, nonzero_atom) == Some((index, value)),
                    stats.propagations == old(stats).propagations,
            coordinate_counts_kept(*old(stats), *stats),
                    forall|t: int| 0 <= t < zero_coordinates@.len() ==> {
                        &&& state.zero@.contains((#[trigger] zero_coordinates@[t]).0)
                        &&& coordinate_of(coordinates@, zero_coordinates@[t].0) == Some((zero_coordinates@[t].1, zero_coordinates@[t].2))
                    },
                decreases zero_coordinates@.len() - k,
            {
                stats.coordinate_contradiction_comparisons = bounded_add(
                    "coordinate contradiction comparisons",
                    stats.coordinate_contradiction_comparisons,
                    1,
                    limits.max_coordinate_contradiction_comparisons,
                )?;
                let (zero_atom, zero_index, zero_value) = zero_coordinates[k];
                proof {
                    assert(state.zero@.contains(zero_coordinates@[k as int].0));
                }
                if zero_index == index && zero_value == value {
                    return Ok(Some(
                        ResidualProductLocusBooleanEmptyReason::CoordinateEqualityNonzero {
                            equality_atom_locus_ordinal: zero_atom,
                            nonzero_atom_locus_ordinal: nonzero_atom,
                            index,
                            value,
                        },
                    ));
                }
                k += 1;
            }
        }
        proof {
            assert((j + 1) * z == j * z + z) by (nonlinear_arith);
        }
        j += 1;
    }
    proof {
        let zc = zero_coordinates@;
        assert forall|reason: ResidualProductLocusBooleanEmptyReason|
            !#[trigger] coordinate_reason_valid(reason, state.zero@, state.nonzero@, coordinates@, sector.spec_active()) by {
            match reason {
                ResidualProductLocusBooleanEmptyReason::OrthantViolation { atom_locus_ordinal, index, value, side } => {
                    if state.zero@.contains(atom_locus_ordinal) {
                        let q = choose|q: int| 0 <= q < state.zero@.len() && state.zero@[q] == atom_locus_ordinal;
                        assert(zero_fact_in_orthant(coordinates@, state.zero@[q], active_view));
                    }
                },
                ResidualProductLocusBooleanEmptyReason::ConflictingCoordinateEqualities {
                    first_atom_locus_ordinal,
                    second_atom_locus_ordinal,
                    index,
                    first_value,
                    second_value,
                } => {
                    if coordinate_reason_valid(reason, state.zero@, state.nonzero@, coordinates@, sector.spec_active()) {
                        let q1 = choose|q: int| 0 <= q < state.zero@.len() && state.zero@[q] == first_atom_locus_ordinal;
                        let q2 = choose|q: int| 0 <= q < state.zero@.len() && state.zero@[q] == second_atom_locus_ordinal;
                        assert(coordinate_of(coordinates@, state.zero@[q1]) == Some((index, first_value)));
                        assert(coordinate_of(coordinates@, state.zero@[q2]) == Some((index, second_value)));
                        let t1 = choose|t: int| 0 <= t < zc.len() && #[trigger] zc[t] == (state.zero@[q1], index, first_value);
                        let t2 = choose|t: int| 0 <= t < zc.len() && #[trigger] zc[t] == (state.zero@[q2], index, second_value);
                        assert(zc[t1].1 == zc[t2].1);
                    }
                },
                ResidualProductLocusBooleanEmptyReason::CoordinateEqualityNonzero {
                    equality_atom_locus_ordinal,
                    nonzero_atom_locus_ordinal,
                    index,
                    value,
                } => {
                    if coordinate_reason_valid(reason, state.zero@, state.nonzero@, coordinates@, sector.spec_active()) {
                        let q = choose|q: int| 0 <= q < state.zero@.len() && state.zero@[q] == equality_atom_locus_ordinal;
                        let n = choose|n: int| 0 <= n < state.nonzero@.len() && state.nonzero@[n] == nonzero_atom_locus_ordinal;
                        assert(coordinate_of(coordinates@, state.zero@[q]) == Some((index, value)));
                        assert(coordinate_of(coordinates@, state.nonzero@[n]) == Some((index, value)));
                        let t = choose|t: int| 0 <= t < zc.len() && #[trigger] zc[t] == (state.zero@[q], index, value);
                        assert(!(zc[t].1 == index && zc[t].2 == value));
                    }
                },
                _ => {},
            }
        }
        assert forall|q: int| 0 <= q < state.zero@.len() implies (coordinate_of(coordinates@, #[trigger] state.zero@[q]) matches Some((
            index,
            value,
        )) ==> (index < active_view.len() ==> (active_view[index as int] ==> value >= 1) && (!active_view[index as int]
            ==> value <= 0))) by {
            assert(zero_fact_in_orthant(coordinates@, state.zero@[q], active_view));
            if let Some((index, value)) = coordinate_of(coordinates@, state.zero@[q]) {
                lemma_side_accepts_inequalities(active_view, index, value);
            }
        }
    }
    Ok(None)
}


pub proof fn lemma_cnf_push(s: Seq<Vec<usize>>, c: Vec<usize>, zero: Set<usize>)
    ensures
        cnf_holds(s.push(c), zero) == (cnf_holds(s, zero) && clause_holds(c@, zero)),
{
    let t = s.push(c);
    if cnf_holds(s, zero) && clause_holds(c@, zero) {
        assert forall|j: int| 0 <= j < t.len() implies #[trigger] clause_holds(t[j]@, zero) by {
            if j < s.len() {
                assert(t[j] == s[j]);
                assert(clause_holds(s[j]@, zero));
            }
        }
    }
    if cnf_holds(t, zero) {
        assert forall|j: int| 0 <= j < s.len() implies #[trigger] clause_holds(s[j]@, zero) by {
            assert(t[j] == s[j]);
            assert(clause_holds(t[j]@, zero));
        }
        assert(clause_holds(t[s.len() as int]@, zero));
    }
}


/// Literals of `clause` that are not nonzero facts, in order; `Err` carries
/// nothing and means the clause is satisfied by a zero fact.
fn reduce_clause(clause: &[usize], zero: &[usize], nonzero: &[usize]) -> (r: Option<Vec<usize>>)
    requires
        strictly_sorted(clause@),
        strictly_sorted(zero@),
        strictly_sorted(nonzero@),
    ensures
        r is None <==> exists|i: int| 0 <= i < clause@.len() && zero@.contains(#[trigger] clause@[i]),
        r matches Some(rest) ==> {
            &&& strictly_sorted(rest@)
            &&& forall|x: usize| #[trigger] rest@.contains(x) <==> (clause@.contains(x) && !nonzero@.contains(x))
            &&& forall|x: usize| rest@.contains(x) ==> !zero@.contains(x)
            &&& rest@.len() <= clause@.len()
        },
{
    let mut i: usize = 0;
    while i < clause.len()
        invariant
            i <= clause@.len(),
            strictly_sorted(zero@),
            forall|k: int| 0 <= k < i ==> !zero@.contains(#[trigger] clause@[k]),
        decreases clause@.len() - i,
    {
        if contains_sorted(zero, clause[i]) {
            return None;
        }
        i += 1;
    }
    let mut rest: Vec<usize> = Vec::new();
    let mut k: usize = 0;
    while k < clause.len()
        invariant
            k <= clause@.len(),
            strictly_sorted(clause@),
            strictly_sorted(nonzero@),
            strictly_sorted(rest@),
            rest@.len() <= k,
            forall|t: int| 0 <= t < rest@.len() ==> exists|j: int| 0 <= j < k && clause@[j] == #[trigger] rest@[t],
            forall|x: usize| #[trigger] rest@.contains(x) <==> (clause@.subrange(0, k as int).contains(x) && !nonzero@.contains(x)),
        decreases clause@.len() - k,
    {
        let atom = clause[k];
        let ghost before = rest@;
        if !contains_sorted(nonzero, atom) {
            rest.push(atom);
        }
        proof {
            let p = clause@.subrange(0, k as int);
            let q = clause@.subrange(0, k + 1);
            assert(q == p.push(atom));
            assert forall|t: int| 0 <= t < rest@.len() implies exists|j: int| 0 <= j < k + 1 && clause@[j] == #[trigger] rest@[t] by {
                if t < before.len() {
                    assert(rest@[t] == before[t]);
                    let j = choose|j: int| 0 <= j < k && clause@[j] == #[trigger] before[t];
                } else {
                    assert(clause@[k as int] == rest@[t]);
                }
            }
            if rest@.len() > before.len() {
                assert forall|a: int, b: int| 0 <= a < b < rest@.len() implies rest@[a] < rest@[b] by {
                    if b == before.len() {
                        let j = choose|j: int| 0 <= j < k && clause@[j] == #[trigger] before[a];
                        assert(rest@[a] == before[a]);
                    } else {
                        assert(rest@[a] == before[a]);
                        assert(rest@[b] == before[b]);
                    }
                }
            }
            assert forall|x: usize| #[trigger] rest@.contains(x) <==> (q.contains(x) && !nonzero@.contains(x)) by {
                if before.contains(x) {
                    let t = choose|t: int| 0 <= t < before.len() && before[t] == x;
                    assert(rest@[t] == x);
                }
                if p.contains(x) {
                    let t = choose|t: int| 0 <= t < p.len() && p[t] == x;
                    assert(q[t] == x);
                }
                if q.contains(x) {
                    let t = choose|t: int| 0 <= t < q.len() && q[t] == x;
                    if t < k {
                        assert(p[t] == x);
                    }
                }
                if rest@.contains(x) {
                    let t = choose|t: int| 0 <= t < rest@.len() && rest@[t] == x;
                    if t < before.len() {
                        assert(before[t] == x);
                    } else {
                        assert(q[k as int] == x);
                    }
                }
                if x == atom && !nonzero@.contains(x) {
                    assert(rest@[before.len() as int] == x);
                }
            }
        }
        k += 1;
    }
    proof {
        assert(clause@.subrange(0, clause@.len() as int) =~= clause@);
        assert forall|x: usize| rest@.contains(x) implies !zero@.contains(x) by {
            let t = choose|t: int| 0 <= t < rest@.len() && rest@[t] == x;
            let j = choose|j: int| 0 <= j < clause@.len() && clause@[j] == #[trigger] rest@[t];
        }
        if exists|i: int| 0 <= i < clause@.len() && zero@.contains(#[trigger] clause@[i]) {
            let i = choose|i: int| 0 <= i < clause@.len() && zero@.contains(#[trigger] clause@[i]);
        }
    }
    Some(rest)
}

/// Under the facts, a clause satisfied by a zero fact holds, and otherwise
/// the clause holds exactly when its reduction does.
pub proof fn lemma_reduced_clause(
    clause: Seq<usize>,
    rest: Option<Seq<usize>>,
    zero_facts: Seq<usize>,
    nonzero_facts: Seq<usize>,
    zero: Set<usize>,
)
    requires
        facts_hold(zero_facts, nonzero_facts, zero),
        rest is None ==> exists|i: int| 0 <= i < clause.len() && zero_facts.contains(#[trigger] clause[i]),
        rest matches Some(r) ==> forall|x: usize| #[trigger] r.contains(x) <==> (clause.contains(x) && !nonzero_facts.contains(x)),
    ensures
        rest is None ==> clause_holds(clause, zero),
        rest matches Some(r) ==> (clause_holds(r, zero) == clause_holds(clause, zero)),
{
    match rest {
        None => {
            let i = choose|i: int| 0 <= i < clause.len() && zero_facts.contains(#[trigger] clause[i]);
            let k = choose|k: int| 0 <= k < zero_facts.len() && zero_facts[k] == clause[i];
            assert(zero.contains(zero_facts[k]));
        },
        Some(r) => {
            lemma_clause_holds_same_atoms(r, clause, zero);
            if clause_holds(clause, zero) {
                let i = choose|i: int| 0 <= i < clause.len() && zero.contains(#[trigger] clause[i]);
                assert(clause.contains(clause[i]));
                if nonzero_facts.contains(clause[i]) {
                    let k = choose|k: int| 0 <= k < nonzero_facts.len() && nonzero_facts[k] == clause[i];
                    assert(!zero.contains(nonzero_facts[k]));
                }
                assert(r.contains(clause[i]));
                let t = choose|t: int| 0 <= t < r.len() && r[t] == clause[i];
                assert(zero.contains(r[t]));
            }
        },
    }
}


pub open spec fn distinct(s: Seq<usize>) -> bool {
    forall|i: int, j: int| 0 <= i < j < s.len() ==> s[i] != s[j]
}

/// `later` keeps the node identity of `earlier`, its nonzero facts and all
/// its zero facts.
pub open spec fn refines_facts(earlier: BooleanState, later: BooleanState) -> bool {
    &&& later.parent_ordinal == earlier.parent_ordinal
    &&& later.decision_from_parent == earlier.decision_from_parent
    &&& later.depth == earlier.depth
    &&& later.nonzero@ == earlier.nonzero@
    &&& forall|x: usize| #[trigger] earlier.zero@.contains(x) ==> later.zero@.contains(x)
}

/// Propagation transcript `props` extends `earlier_props`, lists distinct
/// atoms, and each is a zero fact of `zero_facts`.
pub open spec fn transcript_ok(earlier_props: Seq<usize>, props: Seq<usize>, zero_facts: Seq<usize>) -> bool {
    &&& earlier_props.len() <= props.len()
    &&& props.subrange(0, earlier_props.len() as int) == earlier_props
    &&& distinct(props)
    &&& forall|i: int| 0 <= i < props.len() ==> zero_facts.contains(#[trigger] props[i])
}

pub open spec fn empty_by_facts(reason: ResidualProductLocusBooleanEmptyReason) -> bool {
    reason is OppositeFacts || reason is ExhaustedClause
}

/// `b` differs from `a` at most in the counters that simplification
/// charges: propagations, empty-reason ordinals, coordinate comparisons,
/// scratch peak and clause canonicalization.
pub open spec fn simplify_counts_kept(a: ResidualProductLocusBooleanCoverStats, b: ResidualProductLocusBooleanCoverStats) -> bool {
    b == (ResidualProductLocusBooleanCoverStats {
        propagations: b.propagations,
        retained_empty_reason_ordinals: b.retained_empty_reason_ordinals,
        coordinate_contradiction_comparisons: b.coordinate_contradiction_comparisons,
        peak_simplification_scratch_bytes: b.peak_simplification_scratch_bytes,
        duplicate_literals_removed: b.duplicate_literals_removed,
        duplicate_or_subsumed_clauses_removed: b.duplicate_or_subsumed_clauses_removed,
        subsumption_comparisons: b.subsumption_comparisons,
        ..a
    })
}

/// Unit propagation to a fixed point, with contradiction detection.  The
/// state keeps exactly the assignments it stood for.
pub fn simplify_state(
    state: &mut BooleanState,
    sector: &SectorMask,
    coordinates: &[(usize, Option<(usize, i64)>)],
    node_propagations: &mut Vec<usize>,
    stats: &mut ResidualProductLocusBooleanCoverStats,
    limits: ResidualProductLocusBooleanCoverLimits,
) -> (r: Result<Option<ResidualProductLocusBooleanEmptyReason>, ResidualProductLocusBooleanCoverError>)
    requires
        state_wf(*old(state)),
        coordinates_sorted(coordinates@),
        transcript_ok(old(node_propagations)@, old(node_propagations)@, old(state).zero@),
    ensures
        refines_facts(*old(state), *final(state)),
        r is Ok ==> state_wf(*final(state)),
        r matches Ok(None) ==> clauses_nonempty(final(state).clauses@),
        r matches Ok(None) ==> clauses_by_length(final(state).clauses@),
        r matches Ok(None) ==> zero_facts_respect_orthant(final(state).zero@, coordinates@, sector.spec_active()),
        r is Ok ==> transcript_ok(old(node_propagations)@, final(node_propagations)@, final(state).zero@),
        r is Ok ==> forall|zero: Set<usize>| #[trigger] state_holds(*final(state), zero) == state_holds(*old(state), zero),
        r matches Ok(Some(reason)) ==> (empty_by_facts(reason) ==> forall|zero: Set<usize>| !#[trigger] state_holds(*final(state), zero)),
        r matches Ok(Some(reason)) ==> (!empty_by_facts(reason) ==> coordinate_reason_valid(
            reason,
            final(state).zero@,
            final(state).nonzero@,
            coordinates@,
            sector.spec_active(),
        )),
        simplify_counts_kept(*old(stats), *final(stats)),
        old(state).clauses@.len() == 0 && coordinate_check_within_budget(
            old(state).zero@,
            old(state).nonzero@.len(),
            coordinates@,
            sector.spec_active().len(),
            *old(stats),
            limits,
        ) && canonicalize_within_budget(Seq::empty(), *old(stats), limits) ==> r is Ok && final(state).zero@
            == old(state).zero@ && final(state).nonzero@ == old(state).nonzero@ && final(state).clauses@.len() == 0
            && final(node_propagations)@ == old(node_propagations)@,
{
    let ghost good = old(state).clauses@.len() == 0 && coordinate_check_within_budget(
        old(state).zero@,
        old(state).nonzero@.len(),
        coordinates@,
        sector.spec_active().len(),
        *old(stats),
        limits,
    ) && canonicalize_within_budget(Seq::empty(), *old(stats), limits);
    loop
        invariant
            simplify_counts_kept(*old(stats), *stats),
            good ==> *stats == *old(stats) && *state == *old(state) && node_propagations@ == old(node_propagations)@,
            good == (old(state).clauses@.len() == 0 && coordinate_check_within_budget(
                old(state).zero@,
                old(state).nonzero@.len(),
                coordinates@,
                sector.spec_active().len(),
                *old(stats),
                limits,
            ) && canonicalize_within_budget(Seq::empty(), *old(stats), limits)),
            state_wf(*state),
            coordinates_sorted(coordinates@),
            refines_facts(*old(state), *state),
            transcript_ok(old(node_propagations)@, node_propagations@, state.zero@),
            forall|zero: Set<usize>| #[trigger] state_holds(*state, zero) == state_holds(*old(state), zero),
        decreases limits.max_propagations - stats.propagations,
    {
        if let Some(atom) = first_intersection(state.zero.as_slice(), state.nonzero.as_slice()) {
            proof {
                assert forall|zero: Set<usize>| !#[trigger] state_holds(*state, zero) by {
                    let i = choose|i: int| 0 <= i < state.zero@.len() && state.zero@[i] == atom;
                    let k = choose|k: int| 0 <= k < state.nonzero@.len() && state.nonzero@[k] == atom;
                }
            }
            return Ok(Some(ResidualProductLocusBooleanEmptyReason::OppositeFacts { atom_locus_ordinal: atom }));
        }
        if let Some(reason) = coordinate_contradiction(state, sector, coordinates, stats, limits)? {
            return Ok(Some(reason));
        }
        let ghost zero_checked = state.zero@;
        let ghost propagations_before = stats.propagations;
        let mut simplified: Vec<Vec<usize>> = Vec::new();
        let mut i: usize = 0;
        while i < state.clauses.len()
            invariant
                i <= state.clauses@.len(),
                state_wf(*state),
                refines_facts(*old(state), *state),
                transcript_ok(old(node_propagations)@, node_propagations@, state.zero@),
                forall|zero: Set<usize>| #[trigger] state_holds(*state, zero) == state_holds(*old(state), zero),
                stats.propagations == propagations_before,
                simplify_counts_kept(*old(stats), *stats),
                state.zero@ == zero_checked,
                zero_facts_respect_orthant(zero_checked, coordinates@, sector.spec_active()),
                simplified@.len() <= i,
                good ==> stats.subsumption_comparisons == old(stats).subsumption_comparisons,
                good == (old(state).clauses@.len() == 0 && coordinate_check_within_budget(
                    old(state).zero@,
                    old(state).nonzero@.len(),
                    coordinates@,
                    sector.spec_active().len(),
                    *old(stats),
                    limits,
                ) && canonicalize_within_budget(Seq::empty(), *old(stats), limits)),
                good ==> state.clauses@.len() == 0,
                clauses_sorted(simplified@),
                clauses_nonempty(simplified@),
                forall|x: usize| #[trigger] cnf_mentions(simplified@, x) ==> !state.zero@.contains(x),
                forall|zero: Set<usize>| facts_hold(state.zero@, state.nonzero@, zero) ==> (#[trigger] cnf_holds(simplified@, zero)
                    == cnf_holds(state.clauses@.subrange(0, i as int), zero)),
            decreases state.clauses@.len() - i,
        {
            proof {
                assert(strictly_sorted(state.clauses@[i as int]@));
            }
            let reduced = reduce_clause(state.clauses[i].as_slice(), state.zero.as_slice(), state.nonzero.as_slice());
            let ghost before = simplified@;
            let ghost c = state.clauses@[i as int]@;
            match reduced {
                None => {},
                Some(rest) => {
                    if rest.len() == 0 {
                        let clause_len = state.clauses[i].len();
                        let retained_empty_reason_ordinals = bounded_add(
                            "retained empty-reason ordinals",
                            stats.retained_empty_reason_ordinals,
                            clause_len,
                            limits.max_retained_empty_reason_ordinals,
                        )?;
                        let exhausted = copy_atoms(state.clauses[i].as_slice());
                        stats.retained_empty_reason_ordinals = retained_empty_reason_ordinals;
                        proof {
                            assert forall|zero: Set<usize>| !#[trigger] state_holds(*state, zero) by {
                                if state_holds(*state, zero) {
                                    assert(clause_holds(state.clauses@[i as int]@, zero));
                                    let t = choose|t: int| 0 <= t < c.len() && zero.contains(#[trigger] c[t]);
                                    assert(c.contains(c[t]));
                                    assert(!rest@.contains(c[t]));
                                    let k = choose|k: int| 0 <= k < state.nonzero@.len() && state.nonzero@[k] == c[t];
                                }
                            }
                        }
                        return Ok(Some(ResidualProductLocusBooleanEmptyReason::ExhaustedClause { atom_locus_ordinals: exhausted }));
                    }
                    simplified.push(rest);
                },
            }
            proof {
                let p = state.clauses@.subrange(0, i as int);
                let q = state.clauses@.subrange(0, i + 1);
                assert(q == p.push(state.clauses@[i as int]));
                assert forall|zero: Set<usize>| facts_hold(state.zero@, state.nonzero@, zero) implies (#[trigger] cnf_holds(simplified@, zero)
                    == cnf_holds(q, zero)) by {
                    lemma_cnf_push(p, state.clauses@[i as int], zero);
                    match reduced {
                        None => {
                            lemma_reduced_clause(c, None, state.zero@, state.nonzero@, zero);
                        },
                        Some(rest) => {
                            lemma_reduced_clause(c, Some(rest@), state.zero@, state.nonzero@, zero);
                            lemma_cnf_push(before, rest, zero);
                        },
                    }
                }
                assert forall|x: usize| #[trigger] cnf_mentions(simplified@, x) implies !state.zero@.contains(x) by {
                    let j = choose|j: int| 0 <= j < simplified@.len() && #[trigger] simplified@[j]@.contains(x);
                    if j < before.len() {
                        assert(simplified@[j] == before[j]);
                        assert(cnf_mentions(before, x));
                    }
                }
            }
            i += 1;
        }
        proof {
            assert(state.clauses@.subrange(0, state.clauses@.len() as int) =~= state.clauses@);
        }
        let ghost simplified_view = simplified@;
        let canonical = canonicalize_clauses(simplified, stats, limits)?;
        check_limit("clauses per DPLL state", canonical.len(), limits.max_clauses_per_state)?;
        let literals = literal_total(canonical.as_slice(), "literals per DPLL state")?;
        check_limit("literals per DPLL state", literals, limits.max_literals_per_state)?;
        let ghost before_clauses = *state;
        state.clauses = canonical;
        proof {
            assert forall|zero: Set<usize>| #[trigger] state_holds(*state, zero) == state_holds(*old(state), zero) by {
                assert(state_holds(before_clauses, zero) == state_holds(*old(state), zero));
            }
        }
        let mut unit_index: usize = 0;
        while unit_index < state.clauses.len() && state.clauses[unit_index].len() != 1
            invariant
                unit_index <= state.clauses@.len(),
            decreases state.clauses@.len() - unit_index,
        {
            unit_index += 1;
        }
        if unit_index == state.clauses.len() {
            return Ok(None);
        }
        let unit = state.clauses[unit_index][0];
        proof {
            assert(state.clauses@[unit_index as int]@.contains(unit));
            assert(cnf_mentions(state.clauses@, unit));
            assert(cnf_mentions(simplified_view, unit));
            assert(!state.zero@.contains(unit));
        }
        if !contains_sorted(state.zero.as_slice(), unit) {
            let next_propagations = checked_add("DPLL propagations", stats.propagations, 1)?;
            check_limit("DPLL propagations", next_propagations, limits.max_propagations)?;
            let next_retained = checked_add(
                "retained DPLL propagation entries",
                checked_add("retained DPLL propagation entries", stats.retained_propagation_entries, node_propagations.len())?,
                1,
            )?;
            check_limit("retained DPLL propagation entries", next_retained, limits.max_retained_propagation_entries)?;
            let ghost s1 = *state;
            let ghost props_before = node_propagations@;
            insert_fact(&mut state.zero, unit);
            stats.propagations = next_propagations;
            node_propagations.push(unit);
            proof {
                assert forall|zero: Set<usize>| #[trigger] state_holds(*state, zero) == state_holds(s1, zero) by {
                    if state_holds(s1, zero) {
                        assert(clause_holds(s1.clauses@[unit_index as int]@, zero));
                        let t = choose|t: int| 0 <= t < s1.clauses@[unit_index as int]@.len() && zero.contains(#[trigger] s1.clauses@[unit_index as int]@[t]);
                        assert forall|k: int| 0 <= k < state.zero@.len() implies zero.contains(#[trigger] state.zero@[k]) by {
                            assert(state.zero@.contains(state.zero@[k]));
                            if s1.zero@.contains(state.zero@[k]) {
                                let m = choose|m: int| 0 <= m < s1.zero@.len() && s1.zero@[m] == state.zero@[k];
                            }
                        }
                    }
                    if state_holds(*state, zero) {
                        assert forall|k: int| 0 <= k < s1.zero@.len() implies zero.contains(#[trigger] s1.zero@[k]) by {
                            assert(s1.zero@.contains(s1.zero@[k]));
                            assert(state.zero@.contains(s1.zero@[k]));
                            let m = choose|m: int| 0 <= m < state.zero@.len() && state.zero@[m] == s1.zero@[k];
                        }
                    }
                }
                let props = node_propagations@;
                assert(props.subrange(0, old(node_propagations)@.len() as int) =~= props_before.subrange(0, old(node_propagations)@.len() as int));
                assert forall|a: int, b: int| 0 <= a < b < props.len() implies props[a] != props[b] by {
                    if b == props_before.len() {
                        assert(s1.zero@.contains(props_before[a]));
                    } else {
                        assert(props[a] == props_before[a]);
                        assert(props[b] == props_before[b]);
                    }
                }
                assert forall|k: int| 0 <= k < props.len() implies state.zero@.contains(#[trigger] props[k]) by {
                    if k < props_before.len() {
                        assert(s1.zero@.contains(props_before[k]));
                    }
                }
            }
        }
    }
}


// ---------------------------------------------------------------------------
// The DPLL transcript as a partition of the root assignments.
// ---------------------------------------------------------------------------

/// The assignments a node stands for: its path facts and remaining CNF.
pub open spec fn node_holds(node: ResidualProductLocusBooleanNode, zero: Set<usize>) -> bool {
    facts_hold(node.equal_zero_atoms@, node.nonzero_atoms@, zero) && cnf_holds(node.remaining_clauses@, zero)
}

/// A terminal (not branched) node standing for `zero`.
pub open spec fn terminal_holds(node: ResidualProductLocusBooleanNode, zero: Set<usize>) -> bool {
    !(node.outcome is Branched) && node_holds(node, zero)
}

pub open spec fn frontier_disjoint(frontier: Seq<BooleanState>) -> bool {
    forall|i: int, j: int, zero: Set<usize>|
        0 <= i < j < frontier.len() ==> !(#[trigger] state_holds(frontier[i], zero) && #[trigger] state_holds(frontier[j], zero))
}

pub open spec fn nodes_disjoint(nodes: Seq<ResidualProductLocusBooleanNode>) -> bool {
    forall|k: int, l: int, zero: Set<usize>|
        0 <= k < l < nodes.len() ==> !(#[trigger] terminal_holds(nodes[k], zero) && #[trigger] terminal_holds(nodes[l], zero))
}

pub open spec fn frontier_nodes_disjoint(frontier: Seq<BooleanState>, nodes: Seq<ResidualProductLocusBooleanNode>) -> bool {
    forall|i: int, k: int, zero: Set<usize>|
        0 <= i < frontier.len() && 0 <= k < nodes.len() ==> !(#[trigger] state_holds(frontier[i], zero) && #[trigger] terminal_holds(nodes[k], zero))
}

pub open spec fn covered(frontier: Seq<BooleanState>, nodes: Seq<ResidualProductLocusBooleanNode>, zero: Set<usize>) -> bool {
    ||| exists|i: int| 0 <= i < frontier.len() && #[trigger] state_holds(frontier[i], zero)
    ||| exists|k: int| 0 <= k < nodes.len() && #[trigger] terminal_holds(nodes[k], zero)
}

/// Frontier states and terminal nodes partition the assignments of `root`.
pub open spec fn partitions(root: BooleanState, frontier: Seq<BooleanState>, nodes: Seq<ResidualProductLocusBooleanNode>) -> bool {
    &&& frontier_disjoint(frontier)
    &&& nodes_disjoint(nodes)
    &&& frontier_nodes_disjoint(frontier, nodes)
    &&& forall|i: int, zero: Set<usize>| 0 <= i < frontier.len() && #[trigger] state_holds(frontier[i], zero) ==> state_holds(root, zero)
    &&& forall|k: int, zero: Set<usize>| 0 <= k < nodes.len() && #[trigger] terminal_holds(nodes[k], zero) ==> state_holds(root, zero)
    &&& forall|zero: Set<usize>| state_holds(root, zero) ==> #[trigger] covered(frontier, nodes, zero)
}

/// Replacing the last frontier state by a terminal node for exactly the
/// same assignments keeps the partition.
pub proof fn lemma_partition_terminal(
    root: BooleanState,
    frontier: Seq<BooleanState>,
    nodes: Seq<ResidualProductLocusBooleanNode>,
    node: ResidualProductLocusBooleanNode,
)
    requires
        frontier.len() > 0,
        partitions(root, frontier, nodes),
        !(node.outcome is Branched),
        forall|zero: Set<usize>| #[trigger] node_holds(node, zero) == state_holds(frontier.last(), zero),
    ensures
        partitions(root, frontier.drop_last(), nodes.push(node)),
{
    let f = frontier.drop_last();
    let n = nodes.push(node);
    let last = frontier.len() - 1;
    assert forall|i: int, j: int, zero: Set<usize>| 0 <= i < j < f.len() implies !(#[trigger] state_holds(f[i], zero) && #[trigger] state_holds(f[j], zero)) by {
        assert(f[i] == frontier[i] && f[j] == frontier[j]);
    }
    assert forall|k: int, l: int, zero: Set<usize>| 0 <= k < l < n.len() implies !(#[trigger] terminal_holds(n[k], zero) && #[trigger] terminal_holds(n[l], zero)) by {
        if l < nodes.len() {
            assert(n[k] == nodes[k] && n[l] == nodes[l]);
        } else {
            assert(n[k] == nodes[k] && n[l] == node);
            if terminal_holds(n[k], zero) && terminal_holds(n[l], zero) {
                assert(state_holds(frontier[last], zero));
                assert(!(state_holds(frontier[last], zero) && terminal_holds(nodes[k], zero)));
            }
        }
    }
    assert forall|i: int, k: int, zero: Set<usize>| 0 <= i < f.len() && 0 <= k < n.len() implies !(#[trigger] state_holds(f[i], zero) && #[trigger] terminal_holds(n[k], zero)) by {
        assert(f[i] == frontier[i]);
        if k < nodes.len() {
            assert(n[k] == nodes[k]);
        } else {
            assert(n[k] == node);
            if state_holds(f[i], zero) && terminal_holds(n[k], zero) {
                assert(state_holds(frontier[last], zero));
                assert(!(state_holds(frontier[i], zero) && state_holds(frontier[last], zero)));
            }
        }
    }
    assert forall|i: int, zero: Set<usize>| 0 <= i < f.len() && #[trigger] state_holds(f[i], zero) implies state_holds(root, zero) by {
        assert(f[i] == frontier[i]);
    }
    assert forall|k: int, zero: Set<usize>| 0 <= k < n.len() && #[trigger] terminal_holds(n[k], zero) implies state_holds(root, zero) by {
        if k < nodes.len() {
            assert(n[k] == nodes[k]);
        } else {
            assert(state_holds(frontier[last], zero));
        }
    }
    assert forall|zero: Set<usize>| state_holds(root, zero) implies #[trigger] covered(f, n, zero) by {
        assert(covered(frontier, nodes, zero));
        if exists|i: int| 0 <= i < frontier.len() && #[trigger] state_holds(frontier[i], zero) {
            let i = choose|i: int| 0 <= i < frontier.len() && #[trigger] state_holds(frontier[i], zero);
            if i < last {
                assert(state_holds(f[i], zero));
            } else {
                assert(terminal_holds(n[nodes.len() as int], zero));
            }
        } else {
            let k = choose|k: int| 0 <= k < nodes.len() && #[trigger] terminal_holds(nodes[k], zero);
            assert(terminal_holds(n[k], zero));
        }
    }
}

/// Replacing the last frontier state by its two branches on one atom, and
/// recording the branched node, keeps the partition.
pub proof fn lemma_partition_branch(
    root: BooleanState,
    frontier: Seq<BooleanState>,
    nodes: Seq<ResidualProductLocusBooleanNode>,
    node: ResidualProductLocusBooleanNode,
    nonzero_child: BooleanState,
    zero_child: BooleanState,
    atom: usize,
)
    requires
        frontier.len() > 0,
        partitions(root, frontier, nodes),
        node.outcome is Branched,
        forall|zero: Set<usize>| #[trigger] state_holds(nonzero_child, zero) == (state_holds(frontier.last(), zero) && !zero.contains(atom)),
        forall|zero: Set<usize>| #[trigger] state_holds(zero_child, zero) == (state_holds(frontier.last(), zero) && zero.contains(atom)),
    ensures
        partitions(root, frontier.drop_last().push(nonzero_child).push(zero_child), nodes.push(node)),
{
    let f = frontier.drop_last().push(nonzero_child).push(zero_child);
    let n = nodes.push(node);
    let last = frontier.len() - 1;
    assert forall|i: int, j: int, zero: Set<usize>| 0 <= i < j < f.len() implies !(#[trigger] state_holds(f[i], zero) && #[trigger] state_holds(f[j], zero)) by {
        if j < last {
            assert(f[i] == frontier[i] && f[j] == frontier[j]);
        } else if i < last {
            assert(f[i] == frontier[i]);
            if state_holds(f[i], zero) && state_holds(f[j], zero) {
                assert(state_holds(frontier[last], zero));
                assert(!(state_holds(frontier[i], zero) && state_holds(frontier[last], zero)));
            }
        } else {
            assert(f[i] == nonzero_child && f[j] == zero_child);
        }
    }
    assert forall|k: int, l: int, zero: Set<usize>| 0 <= k < l < n.len() implies !(#[trigger] terminal_holds(n[k], zero) && #[trigger] terminal_holds(n[l], zero)) by {
        assert(n[k] == nodes[k]);
        if l < nodes.len() {
            assert(n[l] == nodes[l]);
        }
    }
    assert forall|i: int, k: int, zero: Set<usize>| 0 <= i < f.len() && 0 <= k < n.len() implies !(#[trigger] state_holds(f[i], zero) && #[trigger] terminal_holds(n[k], zero)) by {
        if k < nodes.len() {
            assert(n[k] == nodes[k]);
            if i < last {
                assert(f[i] == frontier[i]);
            } else if state_holds(f[i], zero) && terminal_holds(n[k], zero) {
                assert(state_holds(frontier[last], zero));
                assert(!(state_holds(frontier[last], zero) && terminal_holds(nodes[k], zero)));
            }
        }
    }
    assert forall|i: int, zero: Set<usize>| 0 <= i < f.len() && #[trigger] state_holds(f[i], zero) implies state_holds(root, zero) by {
        if i < last {
            assert(f[i] == frontier[i]);
        } else {
            assert(state_holds(frontier[last], zero));
        }
    }
    assert forall|k: int, zero: Set<usize>| 0 <= k < n.len() && #[trigger] terminal_holds(n[k], zero) implies state_holds(root, zero) by {
        assert(n[k] == nodes[k]);
    }
    assert forall|zero: Set<usize>| state_holds(root, zero) implies #[trigger] covered(f, n, zero) by {
        assert(covered(frontier, nodes, zero));
        if exists|i: int| 0 <= i < frontier.len() && #[trigger] state_holds(frontier[i], zero) {
            let i = choose|i: int| 0 <= i < frontier.len() && #[trigger] state_holds(frontier[i], zero);
            if i < last {
                assert(state_holds(f[i], zero));
            } else if zero.contains(atom) {
                assert(state_holds(f[last + 1], zero));
            } else {
                assert(state_holds(f[last], zero));
            }
        } else {
            let k = choose|k: int| 0 <= k < nodes.len() && #[trigger] terminal_holds(nodes[k], zero);
            assert(terminal_holds(n[k], zero));
        }
    }
}


pub open spec fn decision_in_facts(d: ResidualProductLocusBooleanDecision, zero: Seq<usize>, nonzero: Seq<usize>) -> bool {
    match d.polarity {
        ResidualProductLocusBooleanPolarity::EqualZero => zero.contains(d.atom_locus_ordinal),
        ResidualProductLocusBooleanPolarity::NonZero => nonzero.contains(d.atom_locus_ordinal),
    }
}

/// Parent link of a node or pending state: the root has neither parent nor
/// decision; any other entry hangs below an earlier branched node, one level
/// deeper, on that node's branch atom, and keeps its decision as a fact.
pub open spec fn link_ok(
    nodes: Seq<ResidualProductLocusBooleanNode>,
    parent: Option<usize>,
    decision: Option<ResidualProductLocusBooleanDecision>,
    depth: usize,
    zero: Seq<usize>,
    nonzero: Seq<usize>,
    bound: int,
) -> bool {
    match (parent, decision) {
        (None, None) => true,
        (Some(p), Some(d)) => {
            &&& p < bound
            &&& p < nodes.len()
            &&& depth == nodes[p as int].depth + 1
            &&& nodes[p as int].outcome == (ResidualProductLocusBooleanNodeOutcome::Branched { atom_locus_ordinal: d.atom_locus_ordinal })
            &&& decision_in_facts(d, zero, nonzero)
        },
        _ => false,
    }
}

/// Node `k` of a transcript: at its ordinal, linked to its parent, with its
/// propagations distinct and among its zero facts.
pub open spec fn node_linked(nodes: Seq<ResidualProductLocusBooleanNode>, k: int) -> bool {
    let n = nodes[k];
    &&& n.ordinal == k
    &&& link_ok(nodes, n.parent_ordinal, n.decision_from_parent, n.depth, n.equal_zero_atoms@, n.nonzero_atoms@, k)
    &&& (n.parent_ordinal is None ==> k == 0)
    &&& distinct(n.propagated_zero_atoms@)
    &&& forall|i: int| 0 <= i < n.propagated_zero_atoms@.len() ==> n.equal_zero_atoms@.contains(#[trigger] n.propagated_zero_atoms@[i])
}

/// What each terminal outcome says about its node.
pub open spec fn outcome_justified(
    node: ResidualProductLocusBooleanNode,
    coordinates: Seq<(usize, Option<(usize, i64)>)>,
    active: Seq<bool>,
) -> bool {
    match node.outcome {
        ResidualProductLocusBooleanNodeOutcome::ReadyForAffineRecognition => node.remaining_clauses@.len() == 0
            && zero_facts_respect_orthant(node.equal_zero_atoms@, coordinates, active),
        ResidualProductLocusBooleanNodeOutcome::ProvedEmpty(reason) => if empty_by_facts(reason) {
            forall|zero: Set<usize>| !#[trigger] node_holds(node, zero)
        } else {
            coordinate_reason_valid(reason, node.equal_zero_atoms@, node.nonzero_atoms@, coordinates, active)
        },
        ResidualProductLocusBooleanNodeOutcome::Branched { .. } => zero_facts_respect_orthant(
            node.equal_zero_atoms@,
            coordinates,
            active,
        ),
    }
}

/// In a transcript whose outcomes are justified, a node with a zero fact
/// whose coordinate equality puts an active index below one, or an inactive
/// index above zero, ends proved empty: it is neither ready nor branched.
pub proof fn lemma_orthant_violation_ends_empty(
    nodes: Seq<ResidualProductLocusBooleanNode>,
    coordinates: Seq<(usize, Option<(usize, i64)>)>,
    active: Seq<bool>,
    k: int,
    q: int,
)
    requires
        0 <= k < nodes.len(),
        forall|j: int| 0 <= j < nodes.len() ==> outcome_justified(#[trigger] nodes[j], coordinates, active),
        0 <= q < nodes[k].equal_zero_atoms@.len(),
        coordinate_of(coordinates, nodes[k].equal_zero_atoms@[q]) matches Some((index, value)) && index < active.len() && (
        (active[index as int] && value < 1) || (!active[index as int] && value > 0)),
    ensures
        nodes[k].outcome is ProvedEmpty,
{
    lemma_orthant_violation_found(nodes[k].equal_zero_atoms@, nodes[k].nonzero_atoms@, coordinates, active, q);
    assert(outcome_justified(nodes[k], coordinates, active));
}

pub proof fn lemma_link_grows(
    nodes: Seq<ResidualProductLocusBooleanNode>,
    node: ResidualProductLocusBooleanNode,
    parent: Option<usize>,
    decision: Option<ResidualProductLocusBooleanDecision>,
    depth: usize,
    zero: Seq<usize>,
    nonzero: Seq<usize>,
    bound: int,
)
    requires
        link_ok(nodes, parent, decision, depth, zero, nonzero, bound),
    ensures
        link_ok(nodes.push(node), parent, decision, depth, zero, nonzero, bound),
{
    if let Some(p) = parent {
        assert(nodes.push(node)[p as int] == nodes[p as int]);
    }
}

pub proof fn lemma_cnf_same(a: Seq<Vec<usize>>, b: Seq<Vec<usize>>, zero: Set<usize>)
    requires
        same_clauses(a, b),
    ensures
        cnf_holds(a, zero) == cnf_holds(b, zero),
{
    if cnf_holds(a, zero) {
        assert forall|j: int| 0 <= j < b.len() implies #[trigger] clause_holds(b[j]@, zero) by {
            assert(clause_holds(a[j]@, zero));
        }
    }
    if cnf_holds(b, zero) {
        assert forall|j: int| 0 <= j < a.len() implies #[trigger] clause_holds(a[j]@, zero) by {
            assert(clause_holds(b[j]@, zero));
        }
    }
}

/// Adding one fact to a sorted fact list: the facts hold exactly when the
/// old ones do and the new one does.
pub proof fn lemma_fact_added(old_facts: Seq<usize>, new_facts: Seq<usize>, atom: usize, zero: Set<usize>, vanishes: bool)
    requires
        forall|x: usize| #[trigger] new_facts.contains(x) <==> (old_facts.contains(x) || x == atom),
    ensures
        (forall|i: int| 0 <= i < new_facts.len() ==> (zero.contains(#[trigger] new_facts[i]) == vanishes))
            == ((forall|i: int| 0 <= i < old_facts.len() ==> (zero.contains(#[trigger] old_facts[i]) == vanishes)) && zero.contains(atom) == vanishes),
{
    if forall|i: int| 0 <= i < new_facts.len() ==> (zero.contains(#[trigger] new_facts[i]) == vanishes) {
        assert forall|i: int| 0 <= i < old_facts.len() implies (zero.contains(#[trigger] old_facts[i]) == vanishes) by {
            assert(old_facts.contains(old_facts[i]));
            assert(new_facts.contains(old_facts[i]));
            let k = choose|k: int| 0 <= k < new_facts.len() && new_facts[k] == old_facts[i];
        }
        assert(new_facts.contains(atom));
        let k = choose|k: int| 0 <= k < new_facts.len() && new_facts[k] == atom;
    }
    if (forall|i: int| 0 <= i < old_facts.len() ==> (zero.contains(#[trigger] old_facts[i]) == vanishes)) && zero.contains(atom) == vanishes {
        assert forall|i: int| 0 <= i < new_facts.len() implies (zero.contains(#[trigger] new_facts[i]) == vanishes) by {
            assert(new_facts.contains(new_facts[i]));
            if new_facts[i] != atom {
                let k = choose|k: int| 0 <= k < old_facts.len() && old_facts[k] == new_facts[i];
            }
        }
    }
}


/// The decision that reaches the child of a node branching on `atom`.
pub open spec fn branch_decision(atom: usize, polarity: ResidualProductLocusBooleanPolarity) -> ResidualProductLocusBooleanDecision {
    ResidualProductLocusBooleanDecision { atom_locus_ordinal: atom, polarity }
}

/// Node `j` of `nodes` is reached from node `k` by decision `d`.
pub open spec fn child_of(nodes: Seq<ResidualProductLocusBooleanNode>, j: int, k: int, d: ResidualProductLocusBooleanDecision) -> bool {
    nodes[j].parent_ordinal == Some(k as usize) && nodes[j].decision_from_parent == Some(d)
}

/// Pending state `s` is reached from node `k` by decision `d`.
pub open spec fn state_child_of(s: BooleanState, k: int, d: ResidualProductLocusBooleanDecision) -> bool {
    s.parent_ordinal == Some(k as usize) && s.decision_from_parent == Some(d)
}

/// A branched node of a finished transcript branches on the smallest atom
/// of its first remaining clause, a shortest one; its equal-zero child is
/// the very next node, and its nonzero child comes after that.
pub open spec fn branch_complete(nodes: Seq<ResidualProductLocusBooleanNode>, k: int) -> bool {
    match nodes[k].outcome {
        ResidualProductLocusBooleanNodeOutcome::Branched { atom_locus_ordinal } => {
            &&& nodes[k].remaining_clauses@.len() > 0
            &&& nodes[k].remaining_clauses@[0]@.len() > 0
            &&& atom_locus_ordinal == nodes[k].remaining_clauses@[0]@[0]
            &&& strictly_sorted(nodes[k].remaining_clauses@[0]@)
            &&& clauses_by_length(nodes[k].remaining_clauses@)
            &&& k + 1 < nodes.len()
            &&& child_of(nodes, k + 1, k, branch_decision(atom_locus_ordinal, ResidualProductLocusBooleanPolarity::EqualZero))
            &&& exists|j: int|
                k + 1 < j < nodes.len() && #[trigger] child_of(
                    nodes,
                    j,
                    k,
                    branch_decision(atom_locus_ordinal, ResidualProductLocusBooleanPolarity::NonZero),
                )
        },
        _ => true,
    }
}

/// While the DPLL runs, each branched node's children are nodes already or
/// still pending on the frontier (the equal-zero child on top).
spec fn branch_pending(nodes: Seq<ResidualProductLocusBooleanNode>, frontier: Seq<BooleanState>, k: int) -> bool {
    match nodes[k].outcome {
        ResidualProductLocusBooleanNodeOutcome::Branched { atom_locus_ordinal } => {
            let zd = branch_decision(atom_locus_ordinal, ResidualProductLocusBooleanPolarity::EqualZero);
            let nd = branch_decision(atom_locus_ordinal, ResidualProductLocusBooleanPolarity::NonZero);
            &&& nodes[k].remaining_clauses@.len() > 0
            &&& nodes[k].remaining_clauses@[0]@.len() > 0
            &&& atom_locus_ordinal == nodes[k].remaining_clauses@[0]@[0]
            &&& strictly_sorted(nodes[k].remaining_clauses@[0]@)
            &&& clauses_by_length(nodes[k].remaining_clauses@)
            &&& ((k + 1 < nodes.len() && child_of(nodes, k + 1, k, zd)) || (k + 1 == nodes.len() && frontier.len() > 0
                && state_child_of(frontier.last(), k, zd)))
            &&& ((exists|j: int| k + 1 < j < nodes.len() && #[trigger] child_of(nodes, j, k, nd)) || (exists|i: int|
                0 <= i < frontier.len() && #[trigger] state_child_of(frontier[i], k, nd)))
        },
        _ => true,
    }
}

/// The terminal nodes stand for exactly the assignments of `root`.
pub open spec fn terminals_cover(root: BooleanState, nodes: Seq<ResidualProductLocusBooleanNode>) -> bool {
    forall|zero: Set<usize>| #[trigger] state_holds(root, zero)
        <==> exists|k: int| 0 <= k < nodes.len() && #[trigger] terminal_holds(nodes[k], zero)
}

/// One DPLL step keeps every branched node's children accounted for: the
/// popped state becomes node `before.len()`, and a branched node pushes its
/// nonzero child and then its equal-zero child.
proof fn lemma_branch_pending_step(
    before: Seq<ResidualProductLocusBooleanNode>,
    before_frontier: Seq<BooleanState>,
    after_frontier: Seq<BooleanState>,
    node: ResidualProductLocusBooleanNode,
    popped: BooleanState,
)
    requires
        before_frontier.len() > 0,
        popped == before_frontier.last(),
        node.parent_ordinal == popped.parent_ordinal,
        node.decision_from_parent == popped.decision_from_parent,
        forall|k: int| 0 <= k < before.len() ==> #[trigger] branch_pending(before, before_frontier, k),
        match node.outcome {
            ResidualProductLocusBooleanNodeOutcome::Branched { atom_locus_ordinal } => {
                &&& node.remaining_clauses@.len() > 0
                &&& node.remaining_clauses@[0]@.len() > 0
                &&& atom_locus_ordinal == node.remaining_clauses@[0]@[0]
                &&& strictly_sorted(node.remaining_clauses@[0]@)
                &&& clauses_by_length(node.remaining_clauses@)
                &&& after_frontier.len() == before_frontier.len() + 1
                &&& forall|i: int| 0 <= i < before_frontier.len() - 1 ==> after_frontier[i] == before_frontier[i]
                &&& state_child_of(
                    after_frontier[before_frontier.len() - 1],
                    before.len() as int,
                    branch_decision(atom_locus_ordinal, ResidualProductLocusBooleanPolarity::NonZero),
                )
                &&& state_child_of(
                    after_frontier[before_frontier.len() as int],
                    before.len() as int,
                    branch_decision(atom_locus_ordinal, ResidualProductLocusBooleanPolarity::EqualZero),
                )
            },
            _ => after_frontier == before_frontier.drop_last(),
        },
    ensures
        forall|k: int| 0 <= k < before.len() + 1 ==> #[trigger] branch_pending(before.push(node), after_frontier, k),
{
    let nodes = before.push(node);
    let last = before_frontier.len() - 1;
    assert forall|k: int| 0 <= k < before.len() + 1 implies #[trigger] branch_pending(nodes, after_frontier, k) by {
        if k < before.len() {
            assert(nodes[k] == before[k]);
            assert(branch_pending(before, before_frontier, k));
            if let ResidualProductLocusBooleanNodeOutcome::Branched { atom_locus_ordinal } = before[k].outcome {
                let zd = branch_decision(atom_locus_ordinal, ResidualProductLocusBooleanPolarity::EqualZero);
                let nd = branch_decision(atom_locus_ordinal, ResidualProductLocusBooleanPolarity::NonZero);
                if k + 1 < before.len() {
                    assert(nodes[k + 1] == before[k + 1]);
                    assert(child_of(nodes, k + 1, k, zd));
                } else {
                    assert(state_child_of(popped, k, zd));
                    assert(nodes[k + 1] == node);
                    assert(child_of(nodes, k + 1, k, zd));
                }
                if exists|j: int| k + 1 < j < before.len() && #[trigger] child_of(before, j, k, nd) {
                    let j = choose|j: int| k + 1 < j < before.len() && #[trigger] child_of(before, j, k, nd);
                    assert(nodes[j] == before[j]);
                    assert(child_of(nodes, j, k, nd));
                } else {
                    let i = choose|i: int| 0 <= i < before_frontier.len() && #[trigger] state_child_of(before_frontier[i], k, nd);
                    if i < last {
                        assert(after_frontier[i] == before_frontier[i]);
                        assert(state_child_of(after_frontier[i], k, nd));
                    } else {
                        assert(before_frontier[i] == popped);
                        assert(k + 1 < before.len());
                        assert(nodes[before.len() as int] == node);
                        assert(child_of(nodes, before.len() as int, k, nd));
                    }
                }
            }
        } else {
            assert(nodes[k] == node);
            if let ResidualProductLocusBooleanNodeOutcome::Branched { atom_locus_ordinal } = node.outcome {
                let nd = branch_decision(atom_locus_ordinal, ResidualProductLocusBooleanPolarity::NonZero);
                assert(after_frontier.last() == after_frontier[before_frontier.len() as int]);
                assert(state_child_of(after_frontier[last], k, nd));
            }
        }
    }
}

/// A root state without clauses, whose single DPLL node (ready, or proved
/// empty by its facts or coordinates) fits every limit the run checks.
pub open spec fn single_node_dpll_admitted(
    initial: BooleanState,
    coordinates: Seq<(usize, Option<(usize, i64)>)>,
    arity: nat,
    stats: ResidualProductLocusBooleanCoverStats,
    limits: ResidualProductLocusBooleanCoverLimits,
) -> bool {
    let z = initial.zero@.len();
    let nz = initial.nonzero@.len();
    let c = coordinates.len();
    let bytes = state_shape_bytes(z, nz, 0, 0);
    let word = vstd::layout::size_of::<usize>();
    &&& initial.clauses@.len() == 0
    &&& 1 <= limits.max_frontier_states
    &&& bytes <= limits.max_peak_frontier_bytes
    &&& 1 <= limits.max_dpll_nodes
    &&& initial.depth <= limits.max_dpll_depth
    &&& stats.path_facts + z + nz + c <= limits.max_path_facts
    &&& stats.retained_node_clauses <= limits.max_retained_node_clauses
    &&& stats.retained_node_literals <= limits.max_retained_node_literals
    &&& stats.retained_state_bytes + bytes + 2 * (c * word) <= limits.max_retained_state_bytes
    &&& simplification_scratch_words(0, 0, z, c) * word <= limits.max_peak_simplification_scratch_bytes
    &&& coordinate_check_within_budget(initial.zero@, nz, coordinates, arity, stats, limits)
    &&& canonicalize_within_budget(Seq::empty(), stats, limits)
    &&& stats.retained_propagation_entries <= limits.max_retained_propagation_entries
    &&& stats.ready_terminals + stats.proved_empty_terminals + 1 <= limits.max_terminals
    &&& stats.dpll_nodes < usize::MAX
}

/// The counters a single-node run reads are those of `a`.
spec fn dpll_counts_same(a: ResidualProductLocusBooleanCoverStats, b: ResidualProductLocusBooleanCoverStats) -> bool {
    &&& b.path_facts == a.path_facts
    &&& b.retained_node_clauses == a.retained_node_clauses
    &&& b.retained_node_literals == a.retained_node_literals
    &&& b.retained_state_bytes == a.retained_state_bytes
    &&& b.retained_propagation_entries == a.retained_propagation_entries
    &&& b.ready_terminals == a.ready_terminals
    &&& b.proved_empty_terminals == a.proved_empty_terminals
    &&& b.dpll_nodes == a.dpll_nodes
    &&& b.coordinate_contradiction_comparisons == a.coordinate_contradiction_comparisons
    &&& b.subsumption_comparisons == a.subsumption_comparisons
    &&& b.duplicate_literals_removed == a.duplicate_literals_removed
    &&& b.duplicate_or_subsumed_clauses_removed == a.duplicate_or_subsumed_clauses_removed
}

/// Zero-first DPLL over the root state: every popped state is simplified
/// and becomes a proved-empty terminal, a ready terminal, or a node branching
/// on the smallest atom of its first (shortest) clause.
pub fn build_dpll_cover(
    initial: BooleanState,
    sector: &SectorMask,
    coordinates: &[(usize, Option<(usize, i64)>)],
    stats: &mut ResidualProductLocusBooleanCoverStats,
    limits: ResidualProductLocusBooleanCoverLimits,
) -> (r: Result<Vec<ResidualProductLocusBooleanNode>, ResidualProductLocusBooleanCoverError>)
    requires
        state_wf(initial),
        initial.parent_ordinal is None,
        initial.decision_from_parent is None,
        coordinates_sorted(coordinates@),
    ensures
        r matches Ok(nodes) ==> {
            &&& nodes@.len() <= limits.max_dpll_nodes
            &&& forall|k: int| 0 <= k < nodes@.len() ==> node_linked(nodes@, k)
            &&& forall|k: int| 0 <= k < nodes@.len() ==> outcome_justified(#[trigger] nodes@[k], coordinates@, sector.spec_active())
            &&& terminals_cover(initial, nodes@)
            &&& nodes_disjoint(nodes@)
            &&& forall|k: int| 0 <= k < nodes@.len() ==> #[trigger] branch_complete(nodes@, k)
        },
        limits.max_frontier_states < 1 ==> r == Err::<Vec<ResidualProductLocusBooleanNode>, ResidualProductLocusBooleanCoverError>(
            ResidualProductLocusBooleanCoverError::ResourceLimit { resource: "DPLL frontier states", requested: 1, limit: limits.max_frontier_states })
            && *final(stats) == *old(stats),
        limits.max_frontier_states >= 1 && initial.clauses@.len() > limits.max_clauses_per_state
            ==> r == Err::<Vec<ResidualProductLocusBooleanNode>, ResidualProductLocusBooleanCoverError>(
            ResidualProductLocusBooleanCoverError::ResourceLimit {
                resource: "clauses per DPLL state",
                requested: initial.clauses@.len() as usize,
                limit: limits.max_clauses_per_state,
            }) && *final(stats) == *old(stats),
        limits.max_frontier_states >= 1 && initial.clauses@.len() <= limits.max_clauses_per_state
            && limits.max_literals_per_state < literal_count(initial.clauses@) <= usize::MAX
            ==> r == Err::<Vec<ResidualProductLocusBooleanNode>, ResidualProductLocusBooleanCoverError>(
            ResidualProductLocusBooleanCoverError::ResourceLimit {
                resource: "literals per DPLL state",
                requested: literal_count(initial.clauses@) as usize,
                limit: limits.max_literals_per_state,
            }) && *final(stats) == *old(stats),
        single_node_dpll_admitted(initial, coordinates@, sector.spec_active().len(), *old(stats), limits) ==> r is Ok,
{
    let ghost good = single_node_dpll_admitted(initial, coordinates@, sector.spec_active().len(), *old(stats), limits);
    check_limit("DPLL frontier states", 1, limits.max_frontier_states)?;
    check_limit("clauses per DPLL state", initial.clauses.len(), limits.max_clauses_per_state)?;
    let initial_literals = literal_total(initial.clauses.as_slice(), "literals per DPLL state")?;
    check_limit("literals per DPLL state", initial_literals, limits.max_literals_per_state)?;
    let initial_bytes = state_bytes(&initial)?;
    check_limit("peak DPLL frontier bytes", initial_bytes, limits.max_peak_frontier_bytes)?;
    let ghost root = initial;
    let mut frontier: Vec<BooleanState> = Vec::new();
    frontier.push(initial);
    let mut frontier_bytes = initial_bytes;
    stats.peak_frontier_states = 1;
    stats.peak_frontier_bytes = initial_bytes;
    let mut nodes: Vec<ResidualProductLocusBooleanNode> = Vec::new();
    proof {
        assert(frontier@[0] == root);
        assert forall|zero: Set<usize>| state_holds(root, zero) implies #[trigger] covered(frontier@, nodes@, zero) by {
            assert(state_holds(frontier@[0], zero));
        }
    }
    while frontier.len() > 0
        invariant
            coordinates_sorted(coordinates@),
            root == initial,
            limits.max_frontier_states >= 1,
            root.clauses@.len() <= limits.max_clauses_per_state,
            literal_count(root.clauses@) <= limits.max_literals_per_state,
            partitions(root, frontier@, nodes@),
            nodes@.len() <= limits.max_dpll_nodes,
            forall|k: int| 0 <= k < nodes@.len() ==> node_linked(nodes@, k),
            forall|k: int| 0 <= k < nodes@.len() ==> outcome_justified(#[trigger] nodes@[k], coordinates@, sector.spec_active()),
            forall|i: int| 0 <= i < frontier@.len() ==> state_wf(#[trigger] frontier@[i]),
            forall|i: int| 0 <= i < frontier@.len() ==> link_ok(
                nodes@,
                (#[trigger] frontier@[i]).parent_ordinal,
                frontier@[i].decision_from_parent,
                frontier@[i].depth,
                frontier@[i].zero@,
                frontier@[i].nonzero@,
                nodes@.len() as int,
            ),
            forall|i: int| 0 <= i < frontier@.len() && (#[trigger] frontier@[i]).parent_ordinal is None ==> nodes@.len() == 0,
            nodes@.len() == 0 ==> frontier@.len() == 1,
            forall|k: int| 0 <= k < nodes@.len() ==> #[trigger] branch_pending(nodes@, frontier@, k),
            good == single_node_dpll_admitted(initial, coordinates@, sector.spec_active().len(), *old(stats), limits),
            good ==> (nodes@.len() == 0 && frontier@ == seq![root] && dpll_counts_same(*old(stats), *stats)
                && frontier_bytes == state_shape_bytes(root.zero@.len(), root.nonzero@.len(), 0, 0)) || frontier@.len() == 0,
        decreases limits.max_dpll_nodes - nodes@.len(),
    {
        let ghost before_frontier = frontier@;
        let mut state = frontier.pop().unwrap();
        let ghost popped = state;
        proof {
            assert(popped == before_frontier[before_frontier.len() - 1]);
            assert(state_wf(popped));
        }
        let current_state_bytes = state_bytes(&state)?;
        frontier_bytes = match frontier_bytes.checked_sub(current_state_bytes) {
            Some(v) => v,
            None => return Err(ResidualProductLocusBooleanCoverError::ResourceCountOverflow { resource: "DPLL frontier bytes" }),
        };
        let node_ordinal = nodes.len();
        check_limit("DPLL nodes", checked_add("DPLL nodes", node_ordinal, 1)?, limits.max_dpll_nodes)?;
        check_limit("DPLL depth", state.depth, limits.max_dpll_depth)?;

        let current_clauses = state.clauses.len();
        let current_literals = literal_total(state.clauses.as_slice(), "retained node literals")?;
        let current_path_facts = checked_add("retained path facts", state.zero.len(), state.nonzero.len())?;
        let conservative_path_facts = checked_add("retained path facts", current_path_facts, coordinates.len())?;
        check_limit(
            "retained path facts",
            checked_add("retained path facts", stats.path_facts, conservative_path_facts)?,
            limits.max_path_facts,
        )?;
        check_limit(
            "retained node clauses",
            checked_add("retained node clauses", stats.retained_node_clauses, current_clauses)?,
            limits.max_retained_node_clauses,
        )?;
        check_limit(
            "retained node literals",
            checked_add("retained node literals", stats.retained_node_literals, current_literals)?,
            limits.max_retained_node_literals,
        )?;
        let growth_words = checked_mul("retained DPLL state bytes", coordinates.len(), core::mem::size_of::<usize>())?;
        let conservative_growth_bytes = checked_mul("retained DPLL state bytes", growth_words, 2)?;
        let conservative_state_bytes = checked_add("retained DPLL state bytes", current_state_bytes, conservative_growth_bytes)?;
        check_limit(
            "retained DPLL state bytes",
            checked_add("retained DPLL state bytes", stats.retained_state_bytes, conservative_state_bytes)?,
            limits.max_retained_state_bytes,
        )?;
        let scratch_bytes = simplification_scratch_bytes(&state, coordinates.len())?;
        check_limit("peak DPLL simplification scratch bytes", scratch_bytes, limits.max_peak_simplification_scratch_bytes)?;
        if scratch_bytes > stats.peak_simplification_scratch_bytes {
            stats.peak_simplification_scratch_bytes = scratch_bytes;
        }

        let mut node_propagations: Vec<usize> = Vec::new();
        proof {
            assert(node_propagations@.subrange(0, 0) =~= node_propagations@);
        }
        let contradiction = simplify_state(&mut state, sector, coordinates, &mut node_propagations, stats, limits)?;
        proof {
            assert(node_propagations@.subrange(0, 0) =~= Seq::<usize>::empty());
        }
        let node_clauses = state.clauses.len();
        let node_literals = literal_total(state.clauses.as_slice(), "retained node literals")?;
        let path_facts = checked_add("path facts", state.zero.len(), state.nonzero.len())?;
        let propagation_bytes = checked_mul("retained DPLL state bytes", node_propagations.len(), core::mem::size_of::<usize>())?;
        let retained_bytes = checked_add("retained DPLL state bytes", state_bytes(&state)?, propagation_bytes)?;
        let next_path_facts = checked_add("retained path facts", stats.path_facts, path_facts)?;
        check_limit("retained path facts", next_path_facts, limits.max_path_facts)?;
        let next_node_clauses = checked_add("retained node clauses", stats.retained_node_clauses, node_clauses)?;
        check_limit("retained node clauses", next_node_clauses, limits.max_retained_node_clauses)?;
        let next_node_literals = checked_add("retained node literals", stats.retained_node_literals, node_literals)?;
        check_limit("retained node literals", next_node_literals, limits.max_retained_node_literals)?;
        let next_state_bytes = checked_add("retained DPLL state bytes", stats.retained_state_bytes, retained_bytes)?;
        check_limit("retained DPLL state bytes", next_state_bytes, limits.max_retained_state_bytes)?;
        let next_retained_propagations = checked_add(
            "retained DPLL propagation entries",
            stats.retained_propagation_entries,
            node_propagations.len(),
        )?;
        check_limit("retained DPLL propagation entries", next_retained_propagations, limits.max_retained_propagation_entries)?;

        let ghost frontier_after_pop = frontier@;
        let ghost simplified = state;
        let outcome = match contradiction {
            Some(reason) => {
                let total = checked_add("Boolean terminals", stats.ready_terminals, stats.proved_empty_terminals)?;
                check_limit("Boolean terminals", checked_add("Boolean terminals", total, 1)?, limits.max_terminals)?;
                stats.proved_empty_terminals = checked_add("proved-empty Boolean terminals", stats.proved_empty_terminals, 1)?;
                ResidualProductLocusBooleanNodeOutcome::ProvedEmpty(reason)
            },
            None => {
                if state.clauses.len() == 0 {
                    let total = checked_add("Boolean terminals", stats.ready_terminals, stats.proved_empty_terminals)?;
                    check_limit("Boolean terminals", checked_add("Boolean terminals", total, 1)?, limits.max_terminals)?;
                    stats.ready_terminals = checked_add("ready Boolean terminals", stats.ready_terminals, 1)?;
                    ResidualProductLocusBooleanNodeOutcome::ReadyForAffineRecognition
                } else {
                    proof {
                        assert(state.clauses@[0]@.len() > 0);
                    }
                    let atom = state.clauses[0][0];
                    stats.dpll_branches = bounded_add("DPLL branches", stats.dpll_branches, 1, limits.max_dpll_branches)?;
                    let child_depth = checked_add("DPLL depth", state.depth, 1)?;
                    check_limit("DPLL depth", child_depth, limits.max_dpll_depth)?;
                    let requested_frontier = checked_add("DPLL frontier states", frontier.len(), 2)?;
                    check_limit("DPLL frontier states", requested_frontier, limits.max_frontier_states)?;
                    let guaranteed_pending_nodes = checked_add("DPLL nodes", checked_add("DPLL nodes", frontier.len(), 2)?, 1)?;
                    let guaranteed_node_demand = checked_add("DPLL nodes", nodes.len(), guaranteed_pending_nodes)?;
                    check_limit("DPLL nodes", guaranteed_node_demand, limits.max_dpll_nodes)?;
                    let mut frontier_path_facts: usize = 0;
                    let mut f: usize = 0;
                    assert(!good);
                    while f < frontier.len()
                        invariant
                            !good,
                            good == single_node_dpll_admitted(initial, coordinates@, sector.spec_active().len(), *old(stats), limits),
                            f <= frontier@.len(),
                            root == initial,
                            limits.max_frontier_states >= 1,
                            root.clauses@.len() <= limits.max_clauses_per_state,
                            literal_count(root.clauses@) <= limits.max_literals_per_state,
                        decreases frontier@.len() - f,
                    {
                        let pending_facts = checked_add("retained path facts", frontier[f].zero.len(), frontier[f].nonzero.len())?;
                        frontier_path_facts = checked_add("retained path facts", frontier_path_facts, pending_facts)?;
                        f += 1;
                    }
                    let child_path_facts = checked_add("retained path facts", path_facts, 1)?;
                    let two_child_path_facts = checked_mul("retained path facts", child_path_facts, 2)?;
                    let mut demand = checked_add("retained path facts", 0, stats.path_facts)?;
                    demand = checked_add("retained path facts", demand, path_facts)?;
                    demand = checked_add("retained path facts", demand, frontier_path_facts)?;
                    demand = checked_add("retained path facts", demand, two_child_path_facts)?;
                    check_limit("retained path facts", demand, limits.max_path_facts)?;
                    let doubled_state = checked_mul("DPLL frontier bytes", retained_bytes, 2)?;
                    let two_words = checked_mul("DPLL frontier bytes", core::mem::size_of::<usize>(), 2)?;
                    let conservative_child_bytes = checked_add("DPLL frontier bytes", doubled_state, two_words)?;
                    let conservative_frontier = checked_add("DPLL frontier bytes", frontier_bytes, conservative_child_bytes)?;
                    check_limit("peak DPLL frontier bytes", conservative_frontier, limits.max_peak_frontier_bytes)?;

                    let mut nonzero_child = clone_state(&state);
                    nonzero_child.parent_ordinal = Some(node_ordinal);
                    nonzero_child.decision_from_parent = Some(
                        ResidualProductLocusBooleanDecision { atom_locus_ordinal: atom, polarity: ResidualProductLocusBooleanPolarity::NonZero },
                    );
                    nonzero_child.depth = child_depth;
                    insert_fact(&mut nonzero_child.nonzero, atom);
                    let mut zero_child = clone_state(&state);
                    zero_child.parent_ordinal = Some(node_ordinal);
                    zero_child.decision_from_parent = Some(
                        ResidualProductLocusBooleanDecision { atom_locus_ordinal: atom, polarity: ResidualProductLocusBooleanPolarity::EqualZero },
                    );
                    zero_child.depth = child_depth;
                    insert_fact(&mut zero_child.zero, atom);
                    let nonzero_bytes = state_bytes(&nonzero_child)?;
                    let zero_bytes = state_bytes(&zero_child)?;
                    let requested_bytes = checked_add(
                        "DPLL frontier bytes",
                        checked_add("DPLL frontier bytes", frontier_bytes, nonzero_bytes)?,
                        zero_bytes,
                    )?;
                    check_limit("peak DPLL frontier bytes", requested_bytes, limits.max_peak_frontier_bytes)?;
                    proof {
                        assert forall|zero: Set<usize>| #[trigger] state_holds(nonzero_child, zero) == (state_holds(simplified, zero) && !zero.contains(atom)) by {
                            lemma_cnf_same(nonzero_child.clauses@, simplified.clauses@, zero);
                            lemma_fact_added(simplified.nonzero@, nonzero_child.nonzero@, atom, zero, false);
                        }
                        assert forall|zero: Set<usize>| #[trigger] state_holds(zero_child, zero) == (state_holds(simplified, zero) && zero.contains(atom)) by {
                            lemma_cnf_same(zero_child.clauses@, simplified.clauses@, zero);
                            lemma_fact_added(simplified.zero@, zero_child.zero@, atom, zero, true);
                        }
                        assert(nonzero_child.nonzero@.contains(atom));
                        assert(zero_child.zero@.contains(atom));
                    }
                    frontier.push(nonzero_child);
                    frontier.push(zero_child);
                    frontier_bytes = requested_bytes;
                    if requested_frontier > stats.peak_frontier_states {
                        stats.peak_frontier_states = requested_frontier;
                    }
                    if requested_bytes > stats.peak_frontier_bytes {
                        stats.peak_frontier_bytes = requested_bytes;
                    }
                    ResidualProductLocusBooleanNodeOutcome::Branched { atom_locus_ordinal: atom }
                }
            },
        };

        stats.path_facts = next_path_facts;
        stats.retained_node_clauses = next_node_clauses;
        stats.retained_node_literals = next_node_literals;
        stats.retained_state_bytes = next_state_bytes;
        stats.retained_propagation_entries = next_retained_propagations;
        stats.dpll_nodes = checked_add("DPLL nodes", stats.dpll_nodes, 1)?;
        let node = ResidualProductLocusBooleanNode {
            ordinal: node_ordinal,
            parent_ordinal: state.parent_ordinal,
            decision_from_parent: state.decision_from_parent,
            depth: state.depth,
            equal_zero_atoms: state.zero,
            nonzero_atoms: state.nonzero,
            propagated_zero_atoms: node_propagations,
            remaining_clauses: state.clauses,
            outcome,
        };
        let ghost nodes_before = nodes@;
        nodes.push(node);
        proof {
            assert forall|zero: Set<usize>| #[trigger] node_holds(node, zero) == state_holds(popped, zero) by {
                assert(state_holds(simplified, zero) == state_holds(popped, zero));
            }
            if node.outcome is Branched {
                lemma_partition_branch(
                    root,
                    before_frontier,
                    nodes_before,
                    node,
                    frontier@[frontier_after_pop.len() as int],
                    frontier@[frontier_after_pop.len() as int + 1],
                    node.outcome->atom_locus_ordinal,
                );
                assert(frontier@ =~= before_frontier.drop_last().push(frontier@[frontier_after_pop.len() as int]).push(frontier@[frontier_after_pop.len() as int + 1]));
            } else {
                lemma_partition_terminal(root, before_frontier, nodes_before, node);
                assert(frontier@ =~= before_frontier.drop_last());
            }
            if node.outcome is ProvedEmpty {
                let reason = node.outcome->ProvedEmpty_0;
                assert(contradiction == Some(reason));
                if empty_by_facts(reason) {
                    assert forall|zero: Set<usize>| !#[trigger] node_holds(node, zero) by {
                        assert(state_holds(simplified, zero) == state_holds(popped, zero));
                    }
                }
            }
            assert(outcome_justified(node, coordinates@, sector.spec_active()));
            assert forall|k: int| 0 <= k < nodes@.len() implies node_linked(nodes@, k) by {
                if k < nodes_before.len() {
                    assert(nodes@[k] == nodes_before[k]);
                    assert(node_linked(nodes_before, k));
                    lemma_link_grows(nodes_before, node, nodes_before[k].parent_ordinal, nodes_before[k].decision_from_parent,
                        nodes_before[k].depth, nodes_before[k].equal_zero_atoms@, nodes_before[k].nonzero_atoms@, k);
                } else {
                    assert(link_ok(nodes_before, popped.parent_ordinal, popped.decision_from_parent, popped.depth, popped.zero@, popped.nonzero@,
                        nodes_before.len() as int));
                    lemma_link_grows(nodes_before, node, popped.parent_ordinal, popped.decision_from_parent, popped.depth, popped.zero@,
                        popped.nonzero@, nodes_before.len() as int);
                    if let Some(d) = popped.decision_from_parent {
                        if d.polarity == ResidualProductLocusBooleanPolarity::EqualZero {
                            assert(popped.zero@.contains(d.atom_locus_ordinal));
                            assert(node.equal_zero_atoms@.contains(d.atom_locus_ordinal));
                        }
                    }
                }
            }
            assert forall|k: int| 0 <= k < nodes@.len() implies outcome_justified(#[trigger] nodes@[k], coordinates@, sector.spec_active()) by {
                if k < nodes_before.len() {
                    assert(nodes@[k] == nodes_before[k]);
                }
            }
            lemma_branch_pending_step(nodes_before, before_frontier, frontier@, node, popped);
            assert forall|i: int| 0 <= i < frontier@.len() implies state_wf(#[trigger] frontier@[i]) && link_ok(
                nodes@,
                frontier@[i].parent_ordinal,
                frontier@[i].decision_from_parent,
                frontier@[i].depth,
                frontier@[i].zero@,
                frontier@[i].nonzero@,
                nodes@.len() as int,
            ) && (frontier@[i].parent_ordinal is None ==> nodes@.len() == 0) by {
                if i < frontier_after_pop.len() {
                    assert(frontier@[i] == before_frontier[i]);
                    let g = before_frontier[i];
                    lemma_link_grows(nodes_before, node, g.parent_ordinal, g.decision_from_parent, g.depth, g.zero@, g.nonzero@,
                        nodes_before.len() as int);
                    if g.parent_ordinal is None {
                        assert(nodes_before.len() == 0);
                        assert(before_frontier.len() == 1);
                    }
                } else {
                    assert(nodes@[node_ordinal as int] == node);
                }
            }
        }
    }
    proof {
        assert forall|k: int| 0 <= k < nodes@.len() implies #[trigger] branch_complete(nodes@, k) by {
            assert(branch_pending(nodes@, frontier@, k));
        }
        assert forall|zero: Set<usize>| #[trigger] state_holds(root, zero)
            <==> exists|k: int| 0 <= k < nodes@.len() && #[trigger] terminal_holds(nodes@[k], zero) by {
            if state_holds(root, zero) {
                assert(covered(frontier@, nodes@, zero));
            }
            if exists|k: int| 0 <= k < nodes@.len() && #[trigger] terminal_holds(nodes@[k], zero) {
                let k = choose|k: int| 0 <= k < nodes@.len() && #[trigger] terminal_holds(nodes@[k], zero);
            }
        }
        assert(terminals_cover(root, nodes@));
    }
    Ok(nodes)
}


// ---------------------------------------------------------------------------
// The cover of one live leaf.
// ---------------------------------------------------------------------------

/// `Arc::ptr_eq`: std documents that it is true when both pointers address
/// the same allocation, which then holds one value.
#[verifier::external_body]
pub(crate) fn same_allocation<T>(a: &Arc<T>, b: &Arc<T>) -> (r: bool)
    ensures
        r ==> *a == *b,
{
    Arc::ptr_eq(a, b)
}

/// `Arc::clone`: std documents it as another pointer to the same
/// allocation, hence to the same value.
#[verifier::external_body]
pub(crate) fn share<T>(a: &Arc<T>) -> (r: Arc<T>)
    ensures
        r == *a,
{
    Arc::clone(a)
}

/// No atom of `atoms` vanishes.
pub open spec fn all_nonzero(atoms: Seq<usize>, zero: Set<usize>) -> bool {
    forall|i: int| 0 <= i < atoms.len() ==> !zero.contains(#[trigger] atoms[i])
}

/// Atoms standing for the locus `locus` of `queue`: its witnessed factors,
/// or the locus itself.
pub open spec fn locus_atoms(queue: GeneratedSectorLiveLeafQueueCertificate, locus: int) -> Seq<usize> {
    match witness_position(queue.product_zero_decompositions@, locus) {
        Some(w) => queue.product_zero_decompositions@[w].factor_locus_ordinals@,
        None => seq![locus as usize],
    }
}

/// Boolean meaning of one predicate when the atoms in `zero` vanish: a
/// predicate on an index-free polynomial always or never holds; an equality
/// holds when one of its atoms vanishes; a nonzero predicate holds when none
/// does.
pub open spec fn predicate_holds(
    queue: GeneratedSectorLiveLeafQueueCertificate,
    predicate: SymbolicSectorPredicate,
    zero: Set<usize>,
) -> bool {
    match locus_position(queue.structural_loci@, predicate.polynomial) {
        None => false,
        Some(l) => {
            let locus = queue.structural_loci@[l];
            if !locus.depends_on_indices {
                (predicate.kind == SymbolicPolynomialPredicateKind::EqualZero) == locus.is_zero
            } else if predicate.kind == SymbolicPolynomialPredicateKind::EqualZero {
                clause_holds(locus_atoms(queue, l), zero)
            } else {
                all_nonzero(locus_atoms(queue, l), zero)
            }
        },
    }
}

/// Every predicate of `case` holds.
pub open spec fn leaf_holds(
    queue: GeneratedSectorLiveLeafQueueCertificate,
    predicates: Seq<SymbolicSectorPredicate>,
    zero: Set<usize>,
) -> bool {
    forall|i: int| 0 <= i < predicates.len() ==> #[trigger] predicate_holds(queue, predicates[i], zero)
}

/// The root CNF and nonzero facts hold.
pub open spec fn root_holds(clauses: Seq<Vec<usize>>, nonzero: Seq<usize>, zero: Set<usize>) -> bool {
    cnf_holds(clauses, zero) && all_nonzero(nonzero, zero)
}

/// Boolean cover of one live leaf: the root CNF of its predicates and the
/// zero-first DPLL transcript partitioning it.  Its fields are what a
/// decoder would reconstruct, so replay trusts none of them.
#[derive(Clone, Debug)]
pub struct ResidualProductLocusBooleanCoverCertificate {
    pub schema: &'static str,
    pub family_fingerprint: String,
    pub context_fingerprint: String,
    pub sector: SectorMask,
    pub source_queue: Arc<GeneratedSectorLiveLeafQueueCertificate>,
    pub source_work_item_ordinal: usize,
    pub source_case: usize,
    pub source_extraction: Arc<CoordinateEqualityLocusCertificate>,
    pub atoms: Vec<usize>,
    pub root_clauses: Vec<Vec<usize>>,
    pub root_nonzero_atoms: Vec<usize>,
    pub nodes: Vec<ResidualProductLocusBooleanNode>,
    pub limits: ResidualProductLocusBooleanCoverLimits,
    pub stats: ResidualProductLocusBooleanCoverStats,
}

/// The scope checks of a cover pass: schema, fingerprint sizes and the
/// family and context fingerprints.
pub open spec fn scope_ok(
    schema: Seq<char>,
    family_fingerprint: Seq<char>,
    context_fingerprint: Seq<char>,
    family: Seq<char>,
    context: ParametricCoefficientContext,
    limits: ResidualProductLocusBooleanCoverLimits,
) -> bool {
    &&& schema == RESIDUAL_PRODUCT_LOCUS_BOOLEAN_COVER_V1_SCHEMA@
    &&& byte_len(family_fingerprint) <= limits.max_family_fingerprint_bytes
    &&& byte_len(family) <= limits.max_family_fingerprint_bytes
    &&& byte_len(context_fingerprint) <= limits.max_context_fingerprint_bytes
    &&& byte_len(context.fingerprint@) <= limits.max_context_fingerprint_bytes
    &&& family_fingerprint == family
    &&& context_fingerprint == context.fingerprint@
}

/// Checks the cover's scope against `family` and `context`.
pub fn validate_scope(
    schema: &str,
    family_fingerprint: &str,
    context_fingerprint: &str,
    family: &str,
    context: &ParametricCoefficientContext,
    limits: ResidualProductLocusBooleanCoverLimits,
) -> (r: Result<(), ResidualProductLocusBooleanCoverError>)
    ensures
        r is Ok <==> scope_ok(schema@, family_fingerprint@, context_fingerprint@, family@, *context, limits),
        schema@ != RESIDUAL_PRODUCT_LOCUS_BOOLEAN_COVER_V1_SCHEMA@ ==> r == Err::<(), ResidualProductLocusBooleanCoverError>(
            ResidualProductLocusBooleanCoverError::SchemaMismatch,
        ),
{
    if !text_eq(schema, RESIDUAL_PRODUCT_LOCUS_BOOLEAN_COVER_V1_SCHEMA) {
        return Err(ResidualProductLocusBooleanCoverError::SchemaMismatch);
    }
    check_limit("family fingerprint bytes", family_fingerprint.len(), limits.max_family_fingerprint_bytes)?;
    check_limit("family fingerprint bytes", family.len(), limits.max_family_fingerprint_bytes)?;
    check_limit("context fingerprint bytes", context_fingerprint.len(), limits.max_context_fingerprint_bytes)?;
    check_limit("context fingerprint bytes", context.fingerprint.as_str().len(), limits.max_context_fingerprint_bytes)?;
    if !text_eq(family_fingerprint, family) {
        return Err(ResidualProductLocusBooleanCoverError::WrongFamily);
    }
    if !text_eq(context_fingerprint, context.fingerprint.as_str()) {
        return Err(ResidualProductLocusBooleanCoverError::WrongContext);
    }
    Ok(())
}

/// Builds the root CNF and nonzero facts of the predicates of one case.
/// Largest factor list among `decompositions`.
pub open spec fn factor_bound(decompositions: Seq<ProductZeroDecomposition>) -> nat
    decreases decompositions.len(),
{
    if decompositions.len() == 0 {
        0
    } else {
        let rest = factor_bound(decompositions.drop_last());
        let last = decompositions.last().factor_locus_ordinals@.len();
        if rest < last {
            last
        } else {
            rest
        }
    }
}

pub proof fn lemma_factor_bound(decompositions: Seq<ProductZeroDecomposition>)
    ensures
        forall|w: int|
            0 <= w < decompositions.len() ==> (#[trigger] decompositions[w]).factor_locus_ordinals@.len() <= factor_bound(
                decompositions,
            ),
    decreases decompositions.len(),
{
    if decompositions.len() > 0 {
        let rest = decompositions.drop_last();
        lemma_factor_bound(rest);
        assert forall|w: int|
            0 <= w < decompositions.len() implies (#[trigger] decompositions[w]).factor_locus_ordinals@.len()
            <= factor_bound(decompositions) by {
            if w < rest.len() {
                assert(decompositions[w] == rest[w]);
            }
        }
    }
}

pub proof fn lemma_step_bound(p: nat, total: nat, x: nat)
    ensures
        (p + 1) * x == p * x + x,
        p + 1 <= total ==> (p + 1) * x <= total * x,
{
    assert((p + 1) * x == p * x + x) by (nonlinear_arith);
    if p + 1 <= total {
        lemma_mul_le(p + 1, total, x);
    }
}

/// A root-fact build from `predicates` that cannot exhaust its counters:
/// every predicate's polynomial is a retained locus, and every counter has
/// room for each predicate's largest charge.
pub open spec fn root_facts_within_budget(
    queue: GeneratedSectorLiveLeafQueueCertificate,
    predicates: Seq<SymbolicSectorPredicate>,
    stats: ResidualProductLocusBooleanCoverStats,
    limits: ResidualProductLocusBooleanCoverLimits,
) -> bool {
    let np = predicates.len();
    let nl = queue.structural_loci@.len();
    let nw = queue.product_zero_decompositions@.len();
    let nf = factor_bound(queue.product_zero_decompositions@);
    &&& forall|i: int| 0 <= i < np ==> (#[trigger] locus_position(queue.structural_loci@, predicates[i].polynomial)) is Some
    &&& stats.structural_locus_lookup_comparisons + np * nl <= limits.max_structural_locus_lookup_comparisons
    &&& stats.base_unit_checks + np <= limits.max_base_unit_checks
    &&& stats.product_witness_lookup_comparisons + np * nw <= limits.max_product_witness_lookup_comparisons
    &&& stats.product_equalities_expanded + np <= usize::MAX
    &&& stats.product_nonzero_predicates_expanded + np <= usize::MAX
    &&& stats.factor_references_expanded + np * nf <= limits.max_factor_references_expanded
    &&& np <= limits.max_root_clauses
    &&& np * (nf + 1) <= limits.max_root_literals
    &&& np * (nf + 1) <= limits.max_root_nonzero_facts
}

fn root_facts(
    queue: &GeneratedSectorLiveLeafQueueCertificate,
    predicates: &Vec<SymbolicSectorPredicate>,
    stats: &mut ResidualProductLocusBooleanCoverStats,
    limits: ResidualProductLocusBooleanCoverLimits,
) -> (r: Result<(Vec<Vec<usize>>, Vec<usize>, usize), ResidualProductLocusBooleanCoverError>)
    ensures
        r matches Ok((clauses, nonzero, literals)) ==> {
            &&& forall|zero: Set<usize>| #[trigger] root_holds(clauses@, nonzero@, zero) == leaf_holds(*queue, predicates@, zero)
            &&& literals == literal_count(clauses@)
        },
        root_facts_within_budget(*queue, predicates@, *old(stats), limits) ==> r is Ok,
{
    let ghost budget_ok = root_facts_within_budget(*queue, predicates@, *old(stats), limits);
    let ghost np: nat = predicates@.len();
    let ghost nl: nat = queue.structural_loci@.len();
    let ghost nw: nat = queue.product_zero_decompositions@.len();
    let ghost nf: nat = factor_bound(queue.product_zero_decompositions@);
    proof {
        lemma_factor_bound(queue.product_zero_decompositions@);
    }
    let mut clauses: Vec<Vec<usize>> = Vec::new();
    let mut nonzero: Vec<usize> = Vec::new();
    let mut raw_root_literals: usize = 0;
    let mut predicate_ordinal: usize = 0;
    proof {
        assert forall|zero: Set<usize>| #[trigger] root_holds(clauses@, nonzero@, zero) == leaf_holds(
            *queue,
            predicates@.take(0),
            zero,
        ) by {}
    }
    while predicate_ordinal < predicates.len()
        invariant
            predicate_ordinal <= predicates@.len(),
            raw_root_literals == literal_count(clauses@),
            budget_ok == root_facts_within_budget(*queue, predicates@, *old(stats), limits),
            np == predicates@.len(),
            nl == queue.structural_loci@.len(),
            nw == queue.product_zero_decompositions@.len(),
            nf == factor_bound(queue.product_zero_decompositions@),
            forall|w: int|
                0 <= w < queue.product_zero_decompositions@.len() ==> (#[trigger] queue.product_zero_decompositions@[w]).factor_locus_ordinals@.len()
                    <= nf,
            budget_ok ==> {
                let p = predicate_ordinal as nat;
                &&& stats.structural_locus_lookup_comparisons <= old(stats).structural_locus_lookup_comparisons + p * nl
                &&& stats.base_unit_checks <= old(stats).base_unit_checks + p
                &&& stats.product_witness_lookup_comparisons <= old(stats).product_witness_lookup_comparisons + p * nw
                &&& stats.product_equalities_expanded <= old(stats).product_equalities_expanded + p
                &&& stats.product_nonzero_predicates_expanded <= old(stats).product_nonzero_predicates_expanded + p
                &&& stats.factor_references_expanded <= old(stats).factor_references_expanded + p * nf
                &&& clauses@.len() <= p
                &&& raw_root_literals <= p * (nf + 1)
                &&& nonzero@.len() <= p * (nf + 1)
            },
            forall|zero: Set<usize>| #[trigger] root_holds(clauses@, nonzero@, zero) == leaf_holds(
                *queue,
                predicates@.take(predicate_ordinal as int),
                zero,
            ),
        decreases predicates@.len() - predicate_ordinal,
    {
        let predicate = predicates[predicate_ordinal];
        proof {
            lemma_step_bound(predicate_ordinal as nat, np, nl);
            lemma_step_bound(predicate_ordinal as nat, np, nw);
            lemma_step_bound(predicate_ordinal as nat, np, nf);
            lemma_step_bound(predicate_ordinal as nat, np, nf + 1);
            if budget_ok {
                assert(locus_position(queue.structural_loci@, predicates@[predicate_ordinal as int].polynomial) is Some);
            }
        }
        let ghost before_clauses = clauses@;
        let ghost before_nonzero = nonzero@;
        let ghost prefix = predicates@.take(predicate_ordinal as int);
        let ghost next = predicates@.take(predicate_ordinal as int + 1);
        proof {
            assert(next =~= prefix.push(predicate));
            assert forall|zero: Set<usize>| #[trigger] leaf_holds(*queue, next, zero) == (leaf_holds(*queue, prefix, zero)
                && predicate_holds(*queue, predicate, zero)) by {
                if leaf_holds(*queue, prefix, zero) && predicate_holds(*queue, predicate, zero) {
                    assert forall|i: int| 0 <= i < next.len() implies #[trigger] predicate_holds(*queue, next[i], zero) by {
                        if i < prefix.len() {
                            assert(next[i] == prefix[i]);
                        }
                    }
                }
                if leaf_holds(*queue, next, zero) {
                    assert(predicate_holds(*queue, next[predicate_ordinal as int], zero));
                    assert forall|i: int| 0 <= i < prefix.len() implies #[trigger] predicate_holds(*queue, prefix[i], zero) by {
                        assert(predicate_holds(*queue, next[i], zero));
                    }
                }
            }
        }
        stats.structural_locus_lookup_comparisons = bounded_add(
            "structural-locus lookup comparisons",
            stats.structural_locus_lookup_comparisons,
            queue.structural_loci.len(),
            limits.max_structural_locus_lookup_comparisons,
        )?;
        let locus = match find_locus(&queue.structural_loci, predicate.polynomial) {
            Some(locus) => locus,
            None => {
                return Err(ResidualProductLocusBooleanCoverError::StructuralLocusNotFound { predicate_ordinal });
            },
        };
        stats.base_unit_checks = bounded_add("base-field unit checks", stats.base_unit_checks, 1, limits.max_base_unit_checks)?;
        let retained = &queue.structural_loci[locus];
        if !retained.depends_on_indices {
            match resolve_base_field_predicate(predicate.kind, retained.is_zero) {
                BaseFieldPredicateResolution::Discharge => {
                    predicate_ordinal = predicate_ordinal + 1;
                    continue;
                },
                BaseFieldPredicateResolution::Contradiction => {
                    check_limit("root clauses", checked_add("root clauses", clauses.len(), 1)?, limits.max_root_clauses)?;
                    let empty: Vec<usize> = Vec::new();
                    let ghost empty_clause = empty;
                    clauses.push(empty);
                    proof {
                        assert forall|zero: Set<usize>| #[trigger] root_holds(clauses@, nonzero@, zero) == leaf_holds(
                            *queue,
                            next,
                            zero,
                        ) by {
                            lemma_cnf_push(before_clauses, empty_clause, zero);
                            assert(!clause_holds(empty_clause@, zero));
                        }
                        lemma_literal_count_push(before_clauses, empty_clause);
                    }
                    predicate_ordinal = predicate_ordinal + 1;
                    continue;
                },
            }
        }
        stats.product_witness_lookup_comparisons = bounded_add(
            "product-witness lookup comparisons",
            stats.product_witness_lookup_comparisons,
            queue.product_zero_decompositions.len(),
            limits.max_product_witness_lookup_comparisons,
        )?;
        let witness = find_witness(&queue.product_zero_decompositions, locus);
        let factors: Option<&[usize]> = match witness {
            Some(w) => Some(queue.product_zero_decompositions[w].factor_locus_ordinals.as_slice()),
            None => None,
        };
        match predicate.kind {
            SymbolicPolynomialPredicateKind::EqualZero => {
                if let Some(w) = witness {
                    stats.product_equalities_expanded = checked_add(
                        "expanded product equalities",
                        stats.product_equalities_expanded,
                        1,
                    )?;
                    stats.factor_references_expanded = bounded_add(
                        "expanded product factor references",
                        stats.factor_references_expanded,
                        queue.product_zero_decompositions[w].factor_locus_ordinals.len(),
                        limits.max_factor_references_expanded,
                    )?;
                }
                let values = product_predicate_atoms(&locus, factors);
                let requested_clauses = checked_add("root clauses", clauses.len(), 1)?;
                check_limit("root clauses", requested_clauses, limits.max_root_clauses)?;
                let requested_literals = checked_add("root literals", raw_root_literals, values.len())?;
                check_limit("root literals", requested_literals, limits.max_root_literals)?;
                let clause = copy_atoms(values);
                clauses.push(clause);
                raw_root_literals = requested_literals;
                proof {
                    assert(values@ == locus_atoms(*queue, locus as int));
                    assert forall|zero: Set<usize>| #[trigger] root_holds(clauses@, nonzero@, zero) == leaf_holds(
                        *queue,
                        next,
                        zero,
                    ) by {
                        lemma_cnf_push(before_clauses, clause, zero);
                        assert(root_holds(before_clauses, before_nonzero, zero) == leaf_holds(*queue, prefix, zero));
                        assert(leaf_holds(*queue, next, zero) == (leaf_holds(*queue, prefix, zero) && predicate_holds(
                            *queue,
                            predicate,
                            zero,
                        )));
                        assert(predicate_holds(*queue, predicate, zero) == clause_holds(
                            locus_atoms(*queue, locus as int),
                            zero,
                        ));
                    }
                    lemma_literal_count_push(before_clauses, clause);
                }
            },
            SymbolicPolynomialPredicateKind::NonZero => {
                if let Some(w) = witness {
                    stats.product_nonzero_predicates_expanded = checked_add(
                        "expanded product nonzero predicates",
                        stats.product_nonzero_predicates_expanded,
                        1,
                    )?;
                    stats.factor_references_expanded = bounded_add(
                        "expanded product factor references",
                        stats.factor_references_expanded,
                        queue.product_zero_decompositions[w].factor_locus_ordinals.len(),
                        limits.max_factor_references_expanded,
                    )?;
                }
                let values = product_predicate_atoms(&locus, factors);
                let requested = checked_add("root nonzero facts", nonzero.len(), values.len())?;
                check_limit("root nonzero facts", requested, limits.max_root_nonzero_facts)?;
                let mut k: usize = 0;
                while k < values.len()
                    invariant
                        k <= values@.len(),
                        nonzero@ == before_nonzero + values@.take(k as int),
                    decreases values@.len() - k,
                {
                    nonzero.push(values[k]);
                    k = k + 1;
                    assert(nonzero@ =~= before_nonzero + values@.take(k as int));
                }
                proof {
                    assert(values@.take(values@.len() as int) =~= values@);
                    assert(values@ == locus_atoms(*queue, locus as int));
                    assert forall|zero: Set<usize>| #[trigger] root_holds(clauses@, nonzero@, zero) == leaf_holds(
                        *queue,
                        next,
                        zero,
                    ) by {
                        assert(root_holds(before_clauses, before_nonzero, zero) == leaf_holds(*queue, prefix, zero));
                        assert(leaf_holds(*queue, next, zero) == (leaf_holds(*queue, prefix, zero) && predicate_holds(
                            *queue,
                            predicate,
                            zero,
                        )));
                        assert(predicate_holds(*queue, predicate, zero) == all_nonzero(
                            locus_atoms(*queue, locus as int),
                            zero,
                        ));
                        if all_nonzero(before_nonzero, zero) && all_nonzero(values@, zero) {
                            assert forall|i: int| 0 <= i < nonzero@.len() implies !zero.contains(#[trigger] nonzero@[i]) by {
                                if i < before_nonzero.len() {
                                    assert(nonzero@[i] == before_nonzero[i]);
                                } else {
                                    assert(nonzero@[i] == values@[i - before_nonzero.len()]);
                                }
                            }
                        }
                        if all_nonzero(nonzero@, zero) {
                            assert forall|i: int| 0 <= i < before_nonzero.len() implies !zero.contains(#[trigger] before_nonzero[i]) by {
                                assert(nonzero@[i] == before_nonzero[i]);
                            }
                            assert forall|i: int| 0 <= i < values@.len() implies !zero.contains(#[trigger] values@[i]) by {
                                assert(nonzero@[before_nonzero.len() + i] == values@[i]);
                            }
                        }
                    }
                }
            },
        }
        predicate_ordinal = predicate_ordinal + 1;
    }
    proof {
        assert(predicates@.take(predicates@.len() as int) =~= predicates@);
    }
    Ok((clauses, nonzero, raw_root_literals))
}

pub proof fn lemma_literal_count_push(clauses: Seq<Vec<usize>>, clause: Vec<usize>)
    ensures
        literal_count(clauses.push(clause)) == literal_count(clauses) + clause@.len(),
{
    assert(clauses.push(clause).drop_last() =~= clauses);
}


/// Sorted set of every atom of the root facts and clauses.
fn collect_atoms(
    nonzero: &Vec<usize>,
    clauses: &Vec<Vec<usize>>,
    stats: &mut ResidualProductLocusBooleanCoverStats,
    limits: ResidualProductLocusBooleanCoverLimits,
) -> (r: Result<Vec<usize>, ResidualProductLocusBooleanCoverError>)
    ensures
        r matches Ok(atoms) ==> strictly_sorted(atoms@) && forall|x: usize|
            #[trigger] atoms@.contains(x) <==> (nonzero@.contains(x) || cnf_mentions(clauses@, x)),
        ({
            let n = nonzero@.len() + literal_count(clauses@);
            old(stats).atom_lookup_comparisons + n * n <= limits.max_atom_lookup_comparisons && n <= limits.max_atoms
        }) ==> r is Ok,
{
    let ghost n: nat = nonzero@.len() + literal_count(clauses@);
    let ghost budget_ok = old(stats).atom_lookup_comparisons + n * n <= limits.max_atom_lookup_comparisons && n
        <= limits.max_atoms;
    let mut atoms: Vec<usize> = Vec::new();
    let mut i: usize = 0;
    while i < nonzero.len()
        invariant
            i <= nonzero@.len(),
            strictly_sorted(atoms@),
            forall|x: usize| #[trigger] atoms@.contains(x) <==> nonzero@.take(i as int).contains(x),
            n == nonzero@.len() + literal_count(clauses@),
            budget_ok == (old(stats).atom_lookup_comparisons + n * n <= limits.max_atom_lookup_comparisons && n
                <= limits.max_atoms),
            atoms@.len() <= i,
            stats.atom_lookup_comparisons <= old(stats).atom_lookup_comparisons + i * n,
        decreases nonzero@.len() - i,
    {
        proof {
            assert((i + 1) * n == i * n + n) by (nonlinear_arith);
            assert((i + 1) * n <= n * n) by (nonlinear_arith)
                requires
                    i + 1 <= n,
            ;
        }
        let ghost before = atoms@;
        insert_unique_atom(&mut atoms, nonzero[i], stats, limits)?;
        proof {
            assert forall|x: usize| #[trigger] atoms@.contains(x) <==> nonzero@.take(i + 1).contains(x) by {
                assert(nonzero@.take(i + 1) =~= nonzero@.take(i as int).push(nonzero@[i as int]));
                if x == nonzero@[i as int] {
                    assert(nonzero@.take(i + 1)[i as int] == x);
                }
            }
        }
        i = i + 1;
    }
    assert(nonzero@.take(nonzero@.len() as int) =~= nonzero@);
    let mut c: usize = 0;
    proof {
        assert(clauses@.subrange(0, clauses@.len() as int) =~= clauses@);
        assert(clauses@.subrange(0, 0) =~= Seq::<Vec<usize>>::empty());
    }
    while c < clauses.len()
        invariant
            c <= clauses@.len(),
            strictly_sorted(atoms@),
            n == nonzero@.len() + literal_count(clauses@),
            clauses@.subrange(0, clauses@.len() as int) == clauses@,
            budget_ok == (old(stats).atom_lookup_comparisons + n * n <= limits.max_atom_lookup_comparisons && n
                <= limits.max_atoms),
            atoms@.len() <= nonzero@.len() + literal_count(clauses@.subrange(0, c as int)),
            stats.atom_lookup_comparisons <= old(stats).atom_lookup_comparisons + (nonzero@.len() + literal_count(
                clauses@.subrange(0, c as int),
            )) * n,
            forall|x: usize| #[trigger] atoms@.contains(x) <==> (nonzero@.contains(x) || cnf_mentions(
                clauses@.take(c as int),
                x,
            )),
        decreases clauses@.len() - c,
    {
        let clause = &clauses[c];
        let mut k: usize = 0;
        let ghost base: nat = nonzero@.len() + literal_count(clauses@.subrange(0, c as int));
        proof {
            assert(clauses@.subrange(0, c + 1).drop_last() =~= clauses@.subrange(0, c as int));
            lemma_literal_count_prefix(clauses@, c + 1, clauses@.len() as int);
        }
        while k < clause.len()
            invariant
                k <= clause@.len(),
                c < clauses@.len(),
                clause == &clauses@[c as int],
                strictly_sorted(atoms@),
                budget_ok == (old(stats).atom_lookup_comparisons + n * n <= limits.max_atom_lookup_comparisons && n
                    <= limits.max_atoms),
                base + clause@.len() <= n,
                n == nonzero@.len() + literal_count(clauses@),
                atoms@.len() <= base + k,
                stats.atom_lookup_comparisons <= old(stats).atom_lookup_comparisons + (base + k) * n,
                forall|x: usize| #[trigger] atoms@.contains(x) <==> (nonzero@.contains(x) || cnf_mentions(
                    clauses@.take(c as int),
                    x,
                ) || clause@.take(k as int).contains(x)),
            decreases clause@.len() - k,
        {
            proof {
                assert((base + k + 1) * n == (base + k) * n + n) by (nonlinear_arith);
                assert((base + k + 1) * n <= n * n) by (nonlinear_arith)
                    requires
                        base + k + 1 <= n,
                ;
            }
            insert_unique_atom(&mut atoms, clause[k], stats, limits)?;
            proof {
                assert forall|x: usize| #[trigger] atoms@.contains(x) <==> (nonzero@.contains(x) || cnf_mentions(
                    clauses@.take(c as int),
                    x,
                ) || clause@.take(k + 1).contains(x)) by {
                    assert(clause@.take(k + 1) =~= clause@.take(k as int).push(clause@[k as int]));
                    if x == clause@[k as int] {
                        assert(clause@.take(k + 1)[k as int] == x);
                    }
                    if clause@.take(k as int).contains(x) {
                        let t = choose|t: int| 0 <= t < clause@.take(k as int).len() && clause@.take(k as int)[t] == x;
                        assert(clause@.take(k + 1)[t] == x);
                    }
                }
            }
            k = k + 1;
        }
        proof {
            assert(clause@.take(clause@.len() as int) =~= clause@);
            let next = clauses@.take(c + 1);
            assert forall|x: usize| cnf_mentions(next, x) <==> (cnf_mentions(clauses@.take(c as int), x)
                || clause@.contains(x)) by {
                if cnf_mentions(next, x) {
                    let j = choose|j: int| 0 <= j < next.len() && #[trigger] next[j]@.contains(x);
                    if j < c {
                        assert(clauses@.take(c as int)[j] == next[j]);
                    }
                }
                if cnf_mentions(clauses@.take(c as int), x) {
                    let j = choose|j: int| 0 <= j < c && #[trigger] clauses@.take(c as int)[j]@.contains(x);
                    assert(next[j] == clauses@.take(c as int)[j]);
                }
                if clause@.contains(x) {
                    assert(next[c as int] == *clause);
                }
            }
        }
        c = c + 1;
    }
    assert(clauses@.take(clauses@.len() as int) =~= clauses@);
    Ok(atoms)
}

/// Locus terms referenced by `atoms`.
pub open spec fn locus_terms_total(queue: GeneratedSectorLiveLeafQueueCertificate, atoms: Seq<usize>) -> nat
    decreases atoms.len(),
{
    if atoms.len() == 0 {
        0
    } else {
        locus_terms_total(queue, atoms.drop_last()) + queue.structural_loci@[atoms.last() as int].term_count as nat
    }
}

pub proof fn lemma_locus_terms_total_mono(queue: GeneratedSectorLiveLeafQueueCertificate, atoms: Seq<usize>, i: int, n: int)
    requires
        0 <= i <= n <= atoms.len(),
    ensures
        locus_terms_total(queue, atoms.take(i)) <= locus_terms_total(queue, atoms.take(n)),
    decreases n - i,
{
    if i < n {
        lemma_locus_terms_total_mono(queue, atoms, i, n - 1);
        assert(atoms.take(n).drop_last() =~= atoms.take(n - 1));
    }
}

/// Charges the referenced locus terms of every atom and pairs each atom with
/// its coordinate equality, in atom order.
fn atom_coordinates(
    queue: &GeneratedSectorLiveLeafQueueCertificate,
    atoms: &Vec<usize>,
    stats: &mut ResidualProductLocusBooleanCoverStats,
    limits: ResidualProductLocusBooleanCoverLimits,
) -> (r: Result<Vec<(usize, Option<(usize, i64)>)>, ResidualProductLocusBooleanCoverError>)
    requires
        strictly_sorted(atoms@),
    ensures
        r matches Ok(coordinates) ==> coordinates_sorted(coordinates@) && coordinates@.len() == atoms@.len(),
        r matches Ok(coordinates) ==> forall|j: int|
            0 <= j < atoms@.len() ==> #[trigger] coordinates@[j] == (atoms@[j], queue.structural_loci@[atoms@[j] as int].coordinate),
        r is Ok <==> (forall|j: int| 0 <= j < atoms@.len() ==> #[trigger] atoms@[j] < queue.structural_loci@.len()) && (
        atoms@.len() == 0 || old(stats).referenced_locus_terms + locus_terms_total(*queue, atoms@)
            <= limits.max_referenced_locus_terms) && old(stats).coordinate_recognition_checks + atoms@.len()
            <= limits.max_coordinate_recognition_checks,
{
    let ghost admitted = (forall|j: int| 0 <= j < atoms@.len() ==> #[trigger] atoms@[j] < queue.structural_loci@.len()) && (
    atoms@.len() == 0 || old(stats).referenced_locus_terms + locus_terms_total(*queue, atoms@)
        <= limits.max_referenced_locus_terms) && old(stats).coordinate_recognition_checks + atoms@.len()
        <= limits.max_coordinate_recognition_checks;
    let mut i: usize = 0;
    proof {
        assert(atoms@.take(atoms@.len() as int) =~= atoms@);
        assert(atoms@.take(0) =~= Seq::<usize>::empty());
    }
    while i < atoms.len()
        invariant
            i <= atoms@.len(),
            atoms@.take(atoms@.len() as int) == atoms@,
            admitted == ((forall|j: int| 0 <= j < atoms@.len() ==> #[trigger] atoms@[j] < queue.structural_loci@.len()) && (
            atoms@.len() == 0 || old(stats).referenced_locus_terms + locus_terms_total(*queue, atoms@)
                <= limits.max_referenced_locus_terms) && old(stats).coordinate_recognition_checks + atoms@.len()
                <= limits.max_coordinate_recognition_checks),
            forall|j: int| 0 <= j < i ==> #[trigger] atoms@[j] < queue.structural_loci@.len(),
            stats.referenced_locus_terms == old(stats).referenced_locus_terms + locus_terms_total(*queue, atoms@.take(i as int)),
            i > 0 ==> stats.referenced_locus_terms <= limits.max_referenced_locus_terms,
            stats.coordinate_recognition_checks == old(stats).coordinate_recognition_checks,
        decreases atoms@.len() - i,
    {
        proof {
            assert(atoms@.take(i + 1).drop_last() =~= atoms@.take(i as int));
            lemma_locus_terms_total_mono(*queue, atoms@, i + 1, atoms@.len() as int);
        }
        let ordinal = atoms[i];
        if ordinal >= queue.structural_loci.len() {
            return Err(ResidualProductLocusBooleanCoverError::StructuralLocusOrdinalOutOfRange { ordinal });
        }
        stats.referenced_locus_terms = bounded_add(
            "referenced structural-locus terms",
            stats.referenced_locus_terms,
            queue.structural_loci[ordinal].term_count,
            limits.max_referenced_locus_terms,
        )?;
        i = i + 1;
    }
    stats.atoms = atoms.len();
    let requested_coordinate_checks = checked_add(
        "coordinate recognition checks",
        stats.coordinate_recognition_checks,
        atoms.len(),
    )?;
    check_limit("coordinate recognition checks", requested_coordinate_checks, limits.max_coordinate_recognition_checks)?;
    let mut coordinates: Vec<(usize, Option<(usize, i64)>)> = Vec::new();
    let mut k: usize = 0;
    while k < atoms.len()
        invariant
            k <= atoms@.len(),
            strictly_sorted(atoms@),
            coordinates@.len() == k,
            forall|j: int| 0 <= j < k ==> (#[trigger] coordinates@[j]).0 == atoms@[j],
            forall|j: int|
                0 <= j < k ==> #[trigger] coordinates@[j] == (atoms@[j], queue.structural_loci@[atoms@[j] as int].coordinate),
            forall|j: int| 0 <= j < atoms@.len() ==> #[trigger] atoms@[j] < queue.structural_loci@.len(),
        decreases atoms@.len() - k,
    {
        let ordinal = atoms[k];
        if ordinal >= queue.structural_loci.len() {
            return Err(ResidualProductLocusBooleanCoverError::StructuralLocusOrdinalOutOfRange { ordinal });
        }
        coordinates.push((ordinal, queue.structural_loci[ordinal].coordinate));
        k = k + 1;
    }
    stats.coordinate_recognition_checks = requested_coordinate_checks;
    proof {
        assert forall|a: int, b: int| 0 <= a < b < coordinates@.len() implies coordinates@[a].0 < coordinates@[b].0 by {
            assert(coordinates@[a].0 == atoms@[a] && coordinates@[b].0 == atoms@[b]);
        }
    }
    Ok(coordinates)
}

/// The cover's root facts are exactly the Boolean meaning of case `c` of
/// `queue`, and its DPLL terminals partition that meaning.
pub open spec fn case_covered(
    cover: ResidualProductLocusBooleanCoverCertificate,
    queue: GeneratedSectorLiveLeafQueueCertificate,
    c: int,
) -> bool {
    &&& 0 <= c < queue.cases@.len()
    &&& queue.cases@[c].id == cover.source_case
    &&& forall|zero: Set<usize>| #[trigger] root_holds(cover.root_clauses@, cover.root_nonzero_atoms@, zero)
        == leaf_holds(queue, queue.cases@[c].predicates@, zero)
    &&& forall|zero: Set<usize>| #[trigger] leaf_holds(queue, queue.cases@[c].predicates@, zero) <==> exists|k: int|
        0 <= k < cover.nodes@.len() && #[trigger] terminal_holds(cover.nodes@[k], zero)
}

/// What a successful compilation of work item `ordinal` of `queue`
/// produced: a cover bound to the item, whose root facts are exactly the
/// Boolean meaning of the item's case and whose DPLL terminals partition
/// that meaning.
pub open spec fn compiled_from(
    cover: ResidualProductLocusBooleanCoverCertificate,
    family: Seq<char>,
    context: ParametricCoefficientContext,
    queue: GeneratedSectorLiveLeafQueueCertificate,
    ordinal: usize,
    limits: ResidualProductLocusBooleanCoverLimits,
) -> bool {
    &&& ordinal < queue.work_items@.len()
    &&& cover.schema@ == RESIDUAL_PRODUCT_LOCUS_BOOLEAN_COVER_V1_SCHEMA@
    &&& cover.family_fingerprint@ == family
    &&& cover.context_fingerprint@ == context.fingerprint@
    &&& cover.sector.spec_active() == queue.sector.spec_active()
    &&& *cover.source_queue == queue
    &&& cover.source_work_item_ordinal == ordinal
    &&& cover.source_case == queue.work_items@[ordinal as int].source_case
    &&& *cover.source_extraction == *queue.work_items@[ordinal as int].extraction
    &&& cover.limits == limits
    &&& exists|c: int| #[trigger] case_covered(cover, queue, c)
    &&& strictly_sorted(cover.atoms@)
    &&& strictly_sorted(cover.root_nonzero_atoms@)
    &&& clauses_sorted(cover.root_clauses@)
    &&& nodes_disjoint(cover.nodes@)
    &&& forall|k: int| 0 <= k < cover.nodes@.len() ==> node_linked(cover.nodes@, k)
}

/// Scope, fingerprint sizes, sector arity and the work-item ordinal all pass,
/// so compilation reaches work item `ordinal` of `queue`.
pub open spec fn work_item_reached(
    family: Seq<char>,
    context: ParametricCoefficientContext,
    queue: GeneratedSectorLiveLeafQueueCertificate,
    ordinal: usize,
    limits: ResidualProductLocusBooleanCoverLimits,
) -> bool {
    &&& scope_ok(
        RESIDUAL_PRODUCT_LOCUS_BOOLEAN_COVER_V1_SCHEMA@,
        queue.family_fingerprint@,
        queue.context_fingerprint@,
        family,
        context,
        limits,
    )
    &&& queue.sector.spec_active().len() <= limits.max_sector_arity
    &&& ordinal < queue.work_items@.len()
}

/// Work item `ordinal` sits at its own ordinal, agrees with its extraction,
/// and the queue's sector is the one the partition was discovered in.
pub open spec fn binding_ok(queue: GeneratedSectorLiveLeafQueueCertificate, ordinal: usize) -> bool {
    let item = queue.work_items@[ordinal as int];
    &&& item.ordinal == ordinal
    &&& item.extraction.source_case == item.source_case
    &&& item.extraction.partition_matches_coverage
    &&& queue.sector.spec_active() == queue.discovery_sector.spec_active()
}

/// Compiles the Boolean cover of work item `source_work_item_ordinal` of a
/// queue the caller has already replayed.
pub fn compile_replayed(
    family: &str,
    context: &ParametricCoefficientContext,
    queue: Arc<GeneratedSectorLiveLeafQueueCertificate>,
    source_work_item_ordinal: usize,
    limits: ResidualProductLocusBooleanCoverLimits,
) -> (r: Result<ResidualProductLocusBooleanCoverCertificate, ResidualProductLocusBooleanCoverError>)
    ensures
        !scope_ok(
            RESIDUAL_PRODUCT_LOCUS_BOOLEAN_COVER_V1_SCHEMA@,
            queue.family_fingerprint@,
            queue.context_fingerprint@,
            family@,
            *context,
            limits,
        ) ==> r is Err,
        scope_ok(
            RESIDUAL_PRODUCT_LOCUS_BOOLEAN_COVER_V1_SCHEMA@,
            queue.family_fingerprint@,
            queue.context_fingerprint@,
            family@,
            *context,
            limits,
        ) && byte_len(family@) <= limits.max_family_fingerprint_bytes && queue.sector.spec_active().len()
            <= limits.max_sector_arity && source_work_item_ordinal >= queue.work_items@.len() ==> r == Err::<
            ResidualProductLocusBooleanCoverCertificate,
            ResidualProductLocusBooleanCoverError,
        >(ResidualProductLocusBooleanCoverError::WorkItemNotFound { ordinal: source_work_item_ordinal }),
        work_item_reached(family@, *context, *queue, source_work_item_ordinal, limits) && !binding_ok(
            *queue,
            source_work_item_ordinal,
        ) ==> r == Err::<ResidualProductLocusBooleanCoverCertificate, ResidualProductLocusBooleanCoverError>(
            ResidualProductLocusBooleanCoverError::SourceBindingMismatch,
        ),
        work_item_reached(family@, *context, *queue, source_work_item_ordinal, limits) && binding_ok(
            *queue,
            source_work_item_ordinal,
        ) && queue.source_identity_bytes <= limits.max_source_identity_bytes_referenced && case_position(
            queue.cases@,
            queue.work_items@[source_work_item_ordinal as int].source_case,
        ) is None ==> r == Err::<ResidualProductLocusBooleanCoverCertificate, ResidualProductLocusBooleanCoverError>(
            ResidualProductLocusBooleanCoverError::SourceCaseNotFound {
                case: queue.work_items@[source_work_item_ordinal as int].source_case,
            },
        ),
        work_item_reached(family@, *context, *queue, source_work_item_ordinal, limits) && binding_ok(
            *queue,
            source_work_item_ordinal,
        ) && queue.source_identity_bytes > limits.max_source_identity_bytes_referenced ==> r == Err::<ResidualProductLocusBooleanCoverCertificate, ResidualProductLocusBooleanCoverError>(
            ResidualProductLocusBooleanCoverError::ResourceLimit {
                resource: "source partition identity bytes referenced",
                requested: queue.source_identity_bytes,
                limit: limits.max_source_identity_bytes_referenced,
            },
        ),
        forall|p: int|
            #![trigger queue.cases@[p]]
            work_item_reached(family@, *context, *queue, source_work_item_ordinal, limits) && binding_ok(*queue, source_work_item_ordinal)
                && queue.source_identity_bytes <= limits.max_source_identity_bytes_referenced
                && case_position(queue.cases@, queue.work_items@[source_work_item_ordinal as int].source_case) == Some(p)
                && queue.cases@[p].predicates@.len() > limits.max_source_predicates ==> r == Err::<ResidualProductLocusBooleanCoverCertificate, ResidualProductLocusBooleanCoverError>(
            ResidualProductLocusBooleanCoverError::ResourceLimit {
                resource: "source predicates",
                requested: queue.cases@[p].predicates@.len() as usize,
                limit: limits.max_source_predicates,
            },
        ),
        r matches Ok(cover) ==> compiled_from(cover, family@, *context, *queue, source_work_item_ordinal, limits),
{
    match compile_replayed_inner(family, context, queue, source_work_item_ordinal, None, limits) {
        Ok((certificate, _census)) => Ok(certificate),
        Err(error) => Err(error),
    }
}

/// Raw construction sizes that the canonical statistics discard: the
/// initial reserves and the root CNF before canonicalization.
#[derive(Clone, Copy, Debug, PartialEq, Eq)]
pub struct ResidualProductLocusBooleanRawTransientCensus {
    pub initial_clause_reserve_entries: usize,
    pub initial_nonzero_reserve_entries: usize,
    pub raw_root_clauses: usize,
    pub raw_root_literals: usize,
    pub raw_root_nonzero_facts: usize,
}

fn compile_replayed_inner(
    family: &str,
    context: &ParametricCoefficientContext,
    queue: Arc<GeneratedSectorLiveLeafQueueCertificate>,
    source_work_item_ordinal: usize,
    source_case_position: Option<usize>,
    limits: ResidualProductLocusBooleanCoverLimits,
) -> (r: Result<
    (ResidualProductLocusBooleanCoverCertificate, ResidualProductLocusBooleanRawTransientCensus),
    ResidualProductLocusBooleanCoverError,
>)
    ensures
        !scope_ok(
            RESIDUAL_PRODUCT_LOCUS_BOOLEAN_COVER_V1_SCHEMA@,
            queue.family_fingerprint@,
            queue.context_fingerprint@,
            family@,
            *context,
            limits,
        ) ==> r is Err,
        scope_ok(
            RESIDUAL_PRODUCT_LOCUS_BOOLEAN_COVER_V1_SCHEMA@,
            queue.family_fingerprint@,
            queue.context_fingerprint@,
            family@,
            *context,
            limits,
        ) && byte_len(family@) <= limits.max_family_fingerprint_bytes && queue.sector.spec_active().len()
            <= limits.max_sector_arity && source_work_item_ordinal >= queue.work_items@.len() ==> r == Err::<
            (ResidualProductLocusBooleanCoverCertificate, ResidualProductLocusBooleanRawTransientCensus),
            ResidualProductLocusBooleanCoverError,
        >(ResidualProductLocusBooleanCoverError::WorkItemNotFound { ordinal: source_work_item_ordinal }),
        work_item_reached(family@, *context, *queue, source_work_item_ordinal, limits) && !binding_ok(
            *queue,
            source_work_item_ordinal,
        ) ==> r == Err::<
            (ResidualProductLocusBooleanCoverCertificate, ResidualProductLocusBooleanRawTransientCensus),
            ResidualProductLocusBooleanCoverError,
        >(ResidualProductLocusBooleanCoverError::SourceBindingMismatch),
        work_item_reached(family@, *context, *queue, source_work_item_ordinal, limits) && binding_ok(
            *queue,
            source_work_item_ordinal,
        ) && queue.source_identity_bytes <= limits.max_source_identity_bytes_referenced && source_case_position is None
            && case_position(queue.cases@, queue.work_items@[source_work_item_ordinal as int].source_case) is None
            ==> r == Err::<
            (ResidualProductLocusBooleanCoverCertificate, ResidualProductLocusBooleanRawTransientCensus),
            ResidualProductLocusBooleanCoverError,
        >(
            ResidualProductLocusBooleanCoverError::SourceCaseNotFound {
                case: queue.work_items@[source_work_item_ordinal as int].source_case,
            },
        ),
        work_item_reached(family@, *context, *queue, source_work_item_ordinal, limits) && binding_ok(
            *queue,
            source_work_item_ordinal,
        ) && queue.source_identity_bytes > limits.max_source_identity_bytes_referenced ==> r == Err::<
            (ResidualProductLocusBooleanCoverCertificate, ResidualProductLocusBooleanRawTransientCensus),
            ResidualProductLocusBooleanCoverError,
        >(
            ResidualProductLocusBooleanCoverError::ResourceLimit {
                resource: "source partition identity bytes referenced",
                requested: queue.source_identity_bytes,
                limit: limits.max_source_identity_bytes_referenced,
            },
        ),
        forall|p: int|
            #![trigger queue.cases@[p]]
            work_item_reached(family@, *context, *queue, source_work_item_ordinal, limits) && binding_ok(*queue, source_work_item_ordinal)
                && queue.source_identity_bytes <= limits.max_source_identity_bytes_referenced && source_case_position is None
                && case_position(queue.cases@, queue.work_items@[source_work_item_ordinal as int].source_case) == Some(p)
                && queue.cases@[p].predicates@.len() > limits.max_source_predicates ==> r == Err::<
            (ResidualProductLocusBooleanCoverCertificate, ResidualProductLocusBooleanRawTransientCensus),
            ResidualProductLocusBooleanCoverError,
        >(
            ResidualProductLocusBooleanCoverError::ResourceLimit {
                resource: "source predicates",
                requested: queue.cases@[p].predicates@.len() as usize,
                limit: limits.max_source_predicates,
            },
        ),
        r matches Ok((cover, _census)) ==> compiled_from(cover, family@, *context, *queue, source_work_item_ordinal, limits),
        r matches Ok((cover, _census)) ==> source_case_position matches Some(p) ==> case_covered(cover, *queue, p as int),
{
    validate_scope(
        RESIDUAL_PRODUCT_LOCUS_BOOLEAN_COVER_V1_SCHEMA,
        queue.family_fingerprint.as_str(),
        queue.context_fingerprint.as_str(),
        family,
        context,
        limits,
    )?;
    check_limit("family fingerprint bytes", family.len(), limits.max_family_fingerprint_bytes)?;
    check_limit("context fingerprint bytes", context.fingerprint.as_str().len(), limits.max_context_fingerprint_bytes)?;
    check_limit("Boolean cover sector arity", queue.sector.arity(), limits.max_sector_arity)?;
    if source_work_item_ordinal >= queue.work_items.len() {
        return Err(ResidualProductLocusBooleanCoverError::WorkItemNotFound { ordinal: source_work_item_ordinal });
    }
    let item = &queue.work_items[source_work_item_ordinal];
    if item.ordinal != source_work_item_ordinal || item.extraction.source_case != item.source_case
        || !item.extraction.partition_matches_coverage || !queue.sector.same_as(&queue.discovery_sector) {
        return Err(ResidualProductLocusBooleanCoverError::SourceBindingMismatch);
    }
    let retained_source_case = item.source_case;
    let retained_source_extraction = share(&item.extraction);
    check_limit(
        "source partition identity bytes referenced",
        queue.source_identity_bytes,
        limits.max_source_identity_bytes_referenced,
    )?;
    let found_case = match source_case_position {
        Some(position) => if position < queue.cases.len() && queue.cases[position].id == item.source_case {
            Some(position)
        } else {
            None
        },
        None => find_case(&queue.cases, item.source_case),
    };
    let case_index = match found_case {
        Some(index) => index,
        None => {
            return Err(ResidualProductLocusBooleanCoverError::SourceCaseNotFound { case: item.source_case });
        },
    };
    assert(case_index < queue.cases@.len() && queue.cases@[case_index as int].id == item.source_case);
    let predicates = &queue.cases[case_index].predicates;
    check_limit("source predicates", predicates.len(), limits.max_source_predicates)?;
    let mut stats = ResidualProductLocusBooleanCoverStats::zero();
    stats.source_predicates = predicates.len();
    let initial_clause_reserve_entries = if predicates.len() < limits.max_root_clauses {
        predicates.len()
    } else {
        limits.max_root_clauses
    };
    let initial_nonzero_reserve_entries = if predicates.len() < limits.max_root_nonzero_facts {
        predicates.len()
    } else {
        limits.max_root_nonzero_facts
    };
    let (raw_clauses, raw_nonzero, raw_literals) = root_facts(&queue, predicates, &mut stats, limits)?;
    let census = ResidualProductLocusBooleanRawTransientCensus {
        initial_clause_reserve_entries,
        initial_nonzero_reserve_entries,
        raw_root_clauses: raw_clauses.len(),
        raw_root_literals: raw_literals,
        raw_root_nonzero_facts: raw_nonzero.len(),
    };
    let ghost raw_clauses_view = raw_clauses@;
    let clauses = canonicalize_clauses(raw_clauses, &mut stats, limits)?;
    let nonzero = sort_dedup_clause(raw_nonzero.as_slice());
    stats.duplicate_literals_removed = checked_add(
        "duplicate literals removed",
        stats.duplicate_literals_removed,
        raw_nonzero.len() - nonzero.len(),
    )?;
    let root_literals = literal_total(clauses.as_slice(), "root literals")?;
    check_limit("root clauses", clauses.len(), limits.max_root_clauses)?;
    check_limit("root literals", root_literals, limits.max_root_literals)?;
    stats.root_clauses = clauses.len();
    stats.root_literals = root_literals;
    stats.root_nonzero_facts = nonzero.len();
    let atoms = collect_atoms(&nonzero, &clauses, &mut stats, limits)?;
    let coordinates = atom_coordinates(&queue, &atoms, &mut stats, limits)?;
    check_limit("clauses per DPLL state", clauses.len(), limits.max_clauses_per_state)?;
    check_limit("literals per DPLL state", root_literals, limits.max_literals_per_state)?;
    check_limit("DPLL frontier states", 1, limits.max_frontier_states)?;
    check_limit("DPLL nodes", 1, limits.max_dpll_nodes)?;
    check_limit("retained path facts", nonzero.len(), limits.max_path_facts)?;
    check_limit("retained node clauses", clauses.len(), limits.max_retained_node_clauses)?;
    check_limit("retained node literals", root_literals, limits.max_retained_node_literals)?;
    let initial_state_bytes = state_bytes_from_shape(0, nonzero.len(), clauses.len(), root_literals)?;
    check_limit("retained DPLL state bytes", initial_state_bytes, limits.max_retained_state_bytes)?;
    check_limit("peak DPLL frontier bytes", initial_state_bytes, limits.max_peak_frontier_bytes)?;
    let initial = BooleanState {
        parent_ordinal: None,
        decision_from_parent: None,
        depth: 0,
        zero: Vec::new(),
        nonzero: copy_atoms(nonzero.as_slice()),
        clauses: copy_clauses(clauses.as_slice()),
    };
    let ghost root = initial;
    proof {
        assert forall|zero: Set<usize>| #[trigger] state_holds(root, zero) == root_holds(clauses@, nonzero@, zero) by {
            lemma_cnf_same_views(root.clauses@, clauses@, zero);
            assert(root.zero@.len() == 0);
        }
        assert forall|zero: Set<usize>| #[trigger] root_holds(clauses@, nonzero@, zero) == root_holds(
            raw_clauses_view,
            raw_nonzero@,
            zero,
        ) by {
            assert(cnf_holds(clauses@, zero) == cnf_holds(raw_clauses_view, zero));
            if all_nonzero(raw_nonzero@, zero) {
                assert forall|i: int| 0 <= i < nonzero@.len() implies !zero.contains(#[trigger] nonzero@[i]) by {
                    assert(nonzero@.contains(nonzero@[i]));
                    assert(raw_nonzero@.contains(nonzero@[i]));
                }
            }
            if all_nonzero(nonzero@, zero) {
                assert forall|i: int| 0 <= i < raw_nonzero@.len() implies !zero.contains(#[trigger] raw_nonzero@[i]) by {
                    assert(raw_nonzero@.contains(raw_nonzero@[i]));
                    assert(nonzero@.contains(raw_nonzero@[i]));
                }
            }
        }
        assert(clauses_sorted(root.clauses@)) by {
            lemma_clauses_sorted_same_views(clauses@, root.clauses@);
        }
    }
    let nodes = build_dpll_cover(initial, &queue.sector, coordinates.as_slice(), &mut stats, limits)?;
    let ghost predicates_view = predicates@;
    let ghost clauses_view = clauses@;
    let ghost nonzero_view = nonzero@;
    let ghost nodes_view = nodes@;
    proof {
        assert(predicates_view == (*queue).cases@[case_index as int].predicates@);
        assert forall|zero: Set<usize>| #[trigger] leaf_holds(*queue, predicates_view, zero) <==> exists|k: int|
            0 <= k < nodes@.len() && #[trigger] terminal_holds(nodes@[k], zero) by {
            assert(state_holds(root, zero) == root_holds(clauses@, nonzero@, zero));
            assert(root_holds(clauses@, nonzero@, zero) == root_holds(raw_clauses_view, raw_nonzero@, zero));
            assert(root_holds(raw_clauses_view, raw_nonzero@, zero) == leaf_holds(*queue, predicates_view, zero));
        }
        assert forall|zero: Set<usize>| #[trigger] root_holds(clauses@, nonzero@, zero) == leaf_holds(
            *queue,
            predicates_view,
            zero,
        ) by {
            assert(root_holds(clauses@, nonzero@, zero) == root_holds(raw_clauses_view, raw_nonzero@, zero));
            assert(root_holds(raw_clauses_view, raw_nonzero@, zero) == leaf_holds(*queue, predicates_view, zero));
        }
    }
    let mut certificate = ResidualProductLocusBooleanCoverCertificate {
        schema: RESIDUAL_PRODUCT_LOCUS_BOOLEAN_COVER_V1_SCHEMA,
        family_fingerprint: family.to_owned(),
        context_fingerprint: context.fingerprint.clone(),
        sector: queue.sector.clone_mask(),
        source_queue: queue,
        source_work_item_ordinal,
        source_case: retained_source_case,
        source_extraction: retained_source_extraction,
        atoms,
        root_clauses: clauses,
        root_nonzero_atoms: nonzero,
        nodes,
        limits,
        stats,
    };
    let (units, bytes) = cover_owned_payload_comparison_census(&certificate, limits)?;
    certificate.stats.payload_comparison_units = units;
    certificate.stats.payload_comparison_bytes = bytes;
    proof {
        let q = *certificate.source_queue;
        assert(source_work_item_ordinal < q.work_items@.len());
        assert(certificate.schema@ == RESIDUAL_PRODUCT_LOCUS_BOOLEAN_COVER_V1_SCHEMA@);
        assert(certificate.family_fingerprint@ == family@);
        assert(certificate.context_fingerprint@ == context.fingerprint@);
        assert(certificate.sector.spec_active() == q.sector.spec_active());
        assert(certificate.source_case == q.work_items@[source_work_item_ordinal as int].source_case);
        assert(*certificate.source_extraction == *q.work_items@[source_work_item_ordinal as int].extraction);
        assert(q.cases@[case_index as int].predicates@ == predicates_view);
        assert forall|zero: Set<usize>| #[trigger] root_holds(certificate.root_clauses@, certificate.root_nonzero_atoms@, zero)
            == leaf_holds(q, q.cases@[case_index as int].predicates@, zero) by {
            assert(root_holds(clauses_view, nonzero_view, zero) == leaf_holds(q, predicates_view, zero));
        }
        assert forall|zero: Set<usize>| #[trigger] leaf_holds(q, q.cases@[case_index as int].predicates@, zero) <==> exists|k: int|
            0 <= k < certificate.nodes@.len() && #[trigger] terminal_holds(certificate.nodes@[k], zero) by {
            assert(leaf_holds(q, predicates_view, zero) <==> exists|k: int|
                0 <= k < nodes_view.len() && #[trigger] terminal_holds(nodes_view[k], zero));
            assert(certificate.nodes@ == nodes_view);
            if leaf_holds(q, predicates_view, zero) {
                let k = choose|k: int| 0 <= k < nodes_view.len() && #[trigger] terminal_holds(nodes_view[k], zero);
                assert(terminal_holds(certificate.nodes@[k], zero));
            }
            if exists|k: int| 0 <= k < certificate.nodes@.len() && #[trigger] terminal_holds(certificate.nodes@[k], zero) {
                let k = choose|k: int|
                    0 <= k < certificate.nodes@.len() && #[trigger] terminal_holds(certificate.nodes@[k], zero);
                assert(terminal_holds(nodes_view[k], zero));
            }
        }
        assert(case_covered(certificate, q, case_index as int));
        assert(strictly_sorted(certificate.atoms@));
        assert(strictly_sorted(certificate.root_nonzero_atoms@));
        assert(clauses_sorted(certificate.root_clauses@));
        assert(nodes_disjoint(certificate.nodes@));
    }
    Ok((certificate, census))
}

pub proof fn lemma_cnf_same_views(a: Seq<Vec<usize>>, b: Seq<Vec<usize>>, zero: Set<usize>)
    requires
        same_clauses(a, b),
    ensures
        cnf_holds(a, zero) == cnf_holds(b, zero),
{
    if cnf_holds(a, zero) {
        assert forall|j: int| 0 <= j < b.len() implies #[trigger] clause_holds(b[j]@, zero) by {
            assert(clause_holds(a[j]@, zero));
        }
    }
    if cnf_holds(b, zero) {
        assert forall|j: int| 0 <= j < a.len() implies #[trigger] clause_holds(a[j]@, zero) by {
            assert(clause_holds(b[j]@, zero));
        }
    }
}

pub proof fn lemma_clauses_sorted_same_views(a: Seq<Vec<usize>>, b: Seq<Vec<usize>>)
    requires
        same_clauses(b, a),
        clauses_sorted(a),
    ensures
        clauses_sorted(b),
{
    assert forall|j: int| 0 <= j < b.len() implies strictly_sorted(#[trigger] b[j]@) by {
        assert(strictly_sorted(a[j]@));
    }
}


/// Fixed scalar and discriminant comparison allowance of one cover, and of
/// one Boolean node.
pub const COVER_PAYLOAD_FIXED_COMPARISON_UNITS: usize = 128;
pub const BOOLEAN_NODE_FIXED_COMPARISON_UNITS: usize = 16;

/// Sum of a sequence of counts.
pub open spec fn count_sum(values: Seq<usize>) -> nat
    decreases values.len(),
{
    if values.len() == 0 {
        0
    } else {
        count_sum(values.drop_last()) + values.last() as nat
    }
}

pub proof fn lemma_count_sum_prefix(values: Seq<usize>, i: int, n: int)
    requires
        0 <= i <= n <= values.len(),
    ensures
        count_sum(values.subrange(0, i)) <= count_sum(values.subrange(0, n)),
    decreases n - i,
{
    if i < n {
        lemma_count_sum_prefix(values, i, n - 1);
        assert(values.subrange(0, n).drop_last() =~= values.subrange(0, n - 1));
    }
}

/// Sum of `values`, failing on overflow.
fn checked_sum(resource: &'static str, values: &[usize]) -> (r: Result<usize, ResidualProductLocusBooleanCoverError>)
    ensures
        r is Ok <==> count_sum(values@) <= usize::MAX,
        r matches Ok(v) ==> v == count_sum(values@),
        r is Err ==> r == Err::<usize, ResidualProductLocusBooleanCoverError>(
            ResidualProductLocusBooleanCoverError::ResourceCountOverflow { resource }),
{
    let mut sum: usize = 0;
    let mut i: usize = 0;
    proof {
        assert(values@.subrange(0, values@.len() as int) =~= values@);
    }
    while i < values.len()
        invariant
            i <= values@.len(),
            sum == count_sum(values@.subrange(0, i as int)),
            values@.subrange(0, values@.len() as int) == values@,
        decreases values@.len() - i,
    {
        proof {
            assert(values@.subrange(0, i + 1).drop_last() =~= values@.subrange(0, i as int));
            lemma_count_sum_prefix(values@, i + 1, values@.len() as int);
        }
        sum = checked_add(resource, sum, values[i])?;
        i = i + 1;
    }
    Ok(sum)
}

/// Terminal nodes: one for every node that does not branch.
pub open spec fn node_terminal_count(n: ResidualProductLocusBooleanNode) -> nat {
    if n.outcome is Branched {
        0
    } else {
        1
    }
}

pub open spec fn node_terminal_count_of() -> spec_fn(ResidualProductLocusBooleanNode) -> nat {
    |n: ResidualProductLocusBooleanNode| node_terminal_count(n)
}

pub broadcast proof fn lemma_count_sum_push(values: Seq<usize>, x: usize)
    ensures
        #[trigger] count_sum(values.push(x)) == count_sum(values) + x,
{
    assert(values.push(x).drop_last() =~= values);
}

pub proof fn lemma_mul_le(a: nat, b: nat, k: nat)
    requires
        a <= b,
    ensures
        a * k <= b * k,
{
    assert(a * k <= b * k) by (nonlinear_arith)
        requires
            a <= b,
    ;
}

/// Fixed comparison units of one side of a payload comparison of `c`.
pub open spec fn census_min_units(c: ResidualProductLocusBooleanCoverCertificate) -> nat {
    (COVER_PAYLOAD_FIXED_COMPARISON_UNITS + c.sector.spec_active().len() + c.atoms@.len() + c.root_clauses@.len()
        + c.root_nonzero_atoms@.len() + c.nodes@.len() * BOOLEAN_NODE_FIXED_COMPARISON_UNITS) as nat
}

/// Fixed logical bytes of one side of a payload comparison of `c`.
pub open spec fn census_min_bytes(c: ResidualProductLocusBooleanCoverCertificate) -> nat {
    let word = vstd::layout::size_of::<usize>();
    (vstd::layout::size_of::<ResidualProductLocusBooleanCoverCertificate>() + byte_len(c.schema@) + byte_len(
        c.family_fingerprint@,
    ) + byte_len(c.context_fingerprint@) + c.sector.spec_active().len() * vstd::layout::size_of::<bool>()
        + c.atoms@.len() * word + c.root_clauses@.len() * vstd::layout::size_of::<Vec<usize>>()
        + c.root_nonzero_atoms@.len() * word + c.nodes@.len() * vstd::layout::size_of::<ResidualProductLocusBooleanNode>()) as nat
}

/// Comparison units of a checked comparison of two equal copies of `c`.
pub open spec fn census_units(c: ResidualProductLocusBooleanCoverCertificate) -> nat {
    2 * (census_min_units(c) + literal_count(c.root_clauses@) + nodes_total(c.nodes@, node_path_facts_of())
        + nodes_total(c.nodes@, node_propagations_of()) + nodes_total(c.nodes@, node_clause_count_of()) + nodes_total(
        c.nodes@,
        node_literal_count_of(),
    ) + nodes_total(c.nodes@, node_empty_ordinals_of()) + nodes_total(c.nodes@, node_terminal_count_of()))
}

/// Logical bytes read by a checked comparison of two equal copies of `c`.
pub open spec fn census_bytes(c: ResidualProductLocusBooleanCoverCertificate) -> nat {
    2 * (census_min_bytes(c) + (literal_count(c.root_clauses@) + nodes_total(c.nodes@, node_path_facts_of())
        + nodes_total(c.nodes@, node_propagations_of()) + nodes_total(c.nodes@, node_literal_count_of())
        + nodes_total(c.nodes@, node_empty_ordinals_of())) * vstd::layout::size_of::<usize>() + nodes_total(
        c.nodes@,
        node_clause_count_of(),
    ) * vstd::layout::size_of::<Vec<usize>>())
}

/// A payload comparison of `c` within `limits`: every outer and retained
/// shape, the terminal count, and the comparison units and bytes.
pub open spec fn census_within(c: ResidualProductLocusBooleanCoverCertificate, limits: ResidualProductLocusBooleanCoverLimits) -> bool {
    &&& byte_len(c.family_fingerprint@) <= limits.max_family_fingerprint_bytes
    &&& byte_len(c.context_fingerprint@) <= limits.max_context_fingerprint_bytes
    &&& c.sector.spec_active().len() <= limits.max_sector_arity
    &&& c.atoms@.len() <= limits.max_atoms
    &&& c.root_clauses@.len() <= limits.max_root_clauses
    &&& c.root_nonzero_atoms@.len() <= limits.max_root_nonzero_facts
    &&& c.nodes@.len() <= limits.max_dpll_nodes
    &&& literal_count(c.root_clauses@) <= limits.max_root_literals
    &&& nodes_total(c.nodes@, node_path_facts_of()) <= limits.max_path_facts
    &&& nodes_total(c.nodes@, node_propagations_of()) <= limits.max_retained_propagation_entries
    &&& nodes_total(c.nodes@, node_clause_count_of()) <= limits.max_retained_node_clauses
    &&& nodes_total(c.nodes@, node_literal_count_of()) <= limits.max_retained_node_literals
    &&& nodes_total(c.nodes@, node_empty_ordinals_of()) <= limits.max_retained_empty_reason_ordinals
    &&& nodes_total(c.nodes@, node_terminal_count_of()) <= limits.max_terminals
    &&& census_units(c) <= limits.max_payload_comparison_units
    &&& census_bytes(c) <= limits.max_payload_comparison_bytes
}

/// Comparison units and logical bytes a checked comparison of two equal
/// copies of `certificate`'s own payload reads, checked against `limits`
/// before any node is walked.
#[verifier::rlimit(80)]
fn cover_owned_payload_comparison_census(
    certificate: &ResidualProductLocusBooleanCoverCertificate,
    limits: ResidualProductLocusBooleanCoverLimits,
) -> (r: Result<(usize, usize), ResidualProductLocusBooleanCoverError>)
    ensures
        r matches Ok((units, bytes)) ==> units <= limits.max_payload_comparison_units && bytes
            <= limits.max_payload_comparison_bytes,
        r matches Err(e) ==> e is ResourceLimit || e is ResourceCountOverflow,
        r is Ok <==> census_within(*certificate, limits),
        r matches Ok((units, bytes)) ==> units == census_units(*certificate) && bytes == census_bytes(*certificate),
{
    broadcast use lemma_count_sum_push;

    let ghost within = census_within(*certificate, limits);
    let ghost nodes = certificate.nodes@;
    proof {
        lemma_word_at_least_one();
        assert(certificate.root_clauses@.subrange(0, certificate.root_clauses@.len() as int) =~= certificate.root_clauses@);
        assert(nodes.take(nodes.len() as int) =~= nodes);
        assert(nodes.take(0) =~= Seq::<ResidualProductLocusBooleanNode>::empty());
    }
    let usize_bytes = core::mem::size_of::<usize>();
    let clause_header_bytes = core::mem::size_of::<Vec<usize>>();
    check_limit("family fingerprint bytes", certificate.family_fingerprint.as_str().len(), limits.max_family_fingerprint_bytes)?;
    check_limit(
        "context fingerprint bytes",
        certificate.context_fingerprint.as_str().len(),
        limits.max_context_fingerprint_bytes,
    )?;
    check_limit("Boolean cover sector arity", certificate.sector.arity(), limits.max_sector_arity)?;
    check_limit("Boolean atoms", certificate.atoms.len(), limits.max_atoms)?;
    check_limit("root clauses", certificate.root_clauses.len(), limits.max_root_clauses)?;
    check_limit("root nonzero facts", certificate.root_nonzero_atoms.len(), limits.max_root_nonzero_facts)?;
    check_limit("DPLL nodes", certificate.nodes.len(), limits.max_dpll_nodes)?;
    let node_units = checked_mul(
        "payload comparison units",
        certificate.nodes.len(),
        BOOLEAN_NODE_FIXED_COMPARISON_UNITS,
    )?;
    let unit_parts = [
        COVER_PAYLOAD_FIXED_COMPARISON_UNITS,
        certificate.sector.arity(),
        certificate.atoms.len(),
        certificate.root_clauses.len(),
        certificate.root_nonzero_atoms.len(),
        node_units,
    ];
    proof {
        let parts = unit_parts@;
        assert(parts =~= Seq::<usize>::empty().push(unit_parts[0]).push(unit_parts[1]).push(unit_parts[2]).push(
            unit_parts[3],
        ).push(unit_parts[4]).push(unit_parts[5]));
        assert(count_sum(parts) == census_min_units(*certificate));
    }
    let minimum_one_side_units = checked_sum("payload comparison units", &unit_parts)?;
    check_limit(
        "payload comparison units",
        checked_mul("payload comparison units", minimum_one_side_units, 2)?,
        limits.max_payload_comparison_units,
    )?;
    let byte_parts = [
        core::mem::size_of::<ResidualProductLocusBooleanCoverCertificate>(),
        certificate.schema.len(),
        certificate.family_fingerprint.as_str().len(),
        certificate.context_fingerprint.as_str().len(),
        checked_mul("payload comparison bytes", certificate.sector.arity(), core::mem::size_of::<bool>())?,
        checked_mul("payload comparison bytes", certificate.atoms.len(), usize_bytes)?,
        checked_mul("payload comparison bytes", certificate.root_clauses.len(), clause_header_bytes)?,
        checked_mul("payload comparison bytes", certificate.root_nonzero_atoms.len(), usize_bytes)?,
        checked_mul(
            "payload comparison bytes",
            certificate.nodes.len(),
            core::mem::size_of::<ResidualProductLocusBooleanNode>(),
        )?,
    ];
    proof {
        let parts = byte_parts@;
        assert(parts =~= Seq::<usize>::empty().push(byte_parts[0]).push(byte_parts[1]).push(byte_parts[2]).push(
            byte_parts[3],
        ).push(byte_parts[4]).push(byte_parts[5]).push(byte_parts[6]).push(byte_parts[7]).push(byte_parts[8]));
        assert(count_sum(parts) == census_min_bytes(*certificate));
    }
    let minimum_one_side_bytes = checked_sum("payload comparison bytes", &byte_parts)?;
    check_limit(
        "payload comparison bytes",
        checked_mul("payload comparison bytes", minimum_one_side_bytes, 2)?,
        limits.max_payload_comparison_bytes,
    )?;
    let mut root_literals: usize = 0;
    let mut c: usize = 0;
    while c < certificate.root_clauses.len()
        invariant
            c <= certificate.root_clauses@.len(),
            byte_len(certificate.family_fingerprint@) <= limits.max_family_fingerprint_bytes,
            byte_len(certificate.context_fingerprint@) <= limits.max_context_fingerprint_bytes,
            certificate.sector.spec_active().len() <= limits.max_sector_arity,
            certificate.atoms@.len() <= limits.max_atoms,
            certificate.root_clauses@.len() <= limits.max_root_clauses,
            certificate.root_nonzero_atoms@.len() <= limits.max_root_nonzero_facts,
            certificate.nodes@.len() <= limits.max_dpll_nodes,
            within == census_within(*certificate, limits),
            nodes == certificate.nodes@,
            usize_bytes == vstd::layout::size_of::<usize>(),
            clause_header_bytes == vstd::layout::size_of::<Vec<usize>>(),
            minimum_one_side_units == census_min_units(*certificate),
            minimum_one_side_bytes == census_min_bytes(*certificate),
            certificate.root_clauses@.subrange(0, certificate.root_clauses@.len() as int) == certificate.root_clauses@,
            root_literals == literal_count(certificate.root_clauses@.subrange(0, c as int)),
            root_literals <= limits.max_root_literals,
        decreases certificate.root_clauses@.len() - c,
    {
        proof {
            assert(certificate.root_clauses@.subrange(0, c + 1).drop_last() =~= certificate.root_clauses@.subrange(0, c as int));
            lemma_literal_count_prefix(certificate.root_clauses@, c + 1, certificate.root_clauses@.len() as int);
        }
        root_literals = bounded_add("root literals", root_literals, certificate.root_clauses[c].len(), limits.max_root_literals)?;
        c = c + 1;
    }
    let mut path_facts: usize = 0;
    let mut propagation_entries: usize = 0;
    let mut node_clauses: usize = 0;
    let mut node_literals: usize = 0;
    let mut empty_reason_ordinals: usize = 0;
    let mut terminals: usize = 0;
    let mut n: usize = 0;
    while n < certificate.nodes.len()
        invariant
            n <= certificate.nodes@.len(),
            byte_len(certificate.family_fingerprint@) <= limits.max_family_fingerprint_bytes,
            byte_len(certificate.context_fingerprint@) <= limits.max_context_fingerprint_bytes,
            certificate.sector.spec_active().len() <= limits.max_sector_arity,
            certificate.atoms@.len() <= limits.max_atoms,
            certificate.root_clauses@.len() <= limits.max_root_clauses,
            certificate.root_nonzero_atoms@.len() <= limits.max_root_nonzero_facts,
            certificate.nodes@.len() <= limits.max_dpll_nodes,
            within == census_within(*certificate, limits),
            nodes == certificate.nodes@,
            usize_bytes == vstd::layout::size_of::<usize>(),
            clause_header_bytes == vstd::layout::size_of::<Vec<usize>>(),
            minimum_one_side_units == census_min_units(*certificate),
            minimum_one_side_bytes == census_min_bytes(*certificate),
            nodes.take(nodes.len() as int) == nodes,
            root_literals == literal_count(certificate.root_clauses@),
            path_facts == nodes_total(nodes.take(n as int), node_path_facts_of()),
            propagation_entries == nodes_total(nodes.take(n as int), node_propagations_of()),
            node_clauses == nodes_total(nodes.take(n as int), node_clause_count_of()),
            node_literals == nodes_total(nodes.take(n as int), node_literal_count_of()),
            empty_reason_ordinals == nodes_total(nodes.take(n as int), node_empty_ordinals_of()),
            terminals == nodes_total(nodes.take(n as int), node_terminal_count_of()),
            root_literals <= limits.max_root_literals,
            path_facts <= limits.max_path_facts,
            propagation_entries <= limits.max_retained_propagation_entries,
            node_clauses <= limits.max_retained_node_clauses,
            node_literals <= limits.max_retained_node_literals,
            empty_reason_ordinals <= limits.max_retained_empty_reason_ordinals,
            terminals <= limits.max_terminals,
        decreases certificate.nodes@.len() - n,
    {
        proof {
            lemma_nodes_total_step(nodes, node_path_facts_of(), n as int);
            lemma_nodes_total_step(nodes, node_propagations_of(), n as int);
            lemma_nodes_total_step(nodes, node_clause_count_of(), n as int);
            lemma_nodes_total_step(nodes, node_literal_count_of(), n as int);
            lemma_nodes_total_step(nodes, node_empty_ordinals_of(), n as int);
            lemma_nodes_total_step(nodes, node_terminal_count_of(), n as int);
            lemma_nodes_total_mono(nodes, node_path_facts_of(), n + 1, nodes.len() as int);
            lemma_nodes_total_mono(nodes, node_propagations_of(), n + 1, nodes.len() as int);
            lemma_nodes_total_mono(nodes, node_clause_count_of(), n + 1, nodes.len() as int);
            lemma_nodes_total_mono(nodes, node_literal_count_of(), n + 1, nodes.len() as int);
            lemma_nodes_total_mono(nodes, node_empty_ordinals_of(), n + 1, nodes.len() as int);
            lemma_nodes_total_mono(nodes, node_terminal_count_of(), n + 1, nodes.len() as int);
        }
        let node = &certificate.nodes[n];
        path_facts = bounded_add(
            "retained path facts",
            path_facts,
            checked_add("retained path facts", node.equal_zero_atoms.len(), node.nonzero_atoms.len())?,
            limits.max_path_facts,
        )?;
        propagation_entries = bounded_add(
            "retained DPLL propagation entries",
            propagation_entries,
            node.propagated_zero_atoms.len(),
            limits.max_retained_propagation_entries,
        )?;
        node_clauses = bounded_add(
            "retained node clauses",
            node_clauses,
            node.remaining_clauses.len(),
            limits.max_retained_node_clauses,
        )?;
        proof {
            lemma_mul_le(node_clauses as nat, nodes_total(nodes, node_clause_count_of()), vstd::layout::size_of::<Vec<usize>>());
        }
        check_limit(
            "payload comparison units",
            checked_mul(
                "payload comparison units",
                checked_add("payload comparison units", minimum_one_side_units, node_clauses)?,
                2,
            )?,
            limits.max_payload_comparison_units,
        )?;
        check_limit(
            "payload comparison bytes",
            checked_mul(
                "payload comparison bytes",
                checked_add(
                    "payload comparison bytes",
                    minimum_one_side_bytes,
                    checked_mul("payload comparison bytes", node_clauses, clause_header_bytes)?,
                )?,
                2,
            )?,
            limits.max_payload_comparison_bytes,
        )?;
        let ghost lit_before: nat = node_literals as nat;
        let mut k: usize = 0;
        proof {
            assert(node.remaining_clauses@.subrange(0, node.remaining_clauses@.len() as int) =~= node.remaining_clauses@);
        }
        while k < node.remaining_clauses.len()
            invariant
                k <= node.remaining_clauses@.len(),
                node == &certificate.nodes@[n as int],
                n < certificate.nodes@.len(),
            byte_len(certificate.family_fingerprint@) <= limits.max_family_fingerprint_bytes,
            byte_len(certificate.context_fingerprint@) <= limits.max_context_fingerprint_bytes,
            certificate.sector.spec_active().len() <= limits.max_sector_arity,
            certificate.atoms@.len() <= limits.max_atoms,
            certificate.root_clauses@.len() <= limits.max_root_clauses,
            certificate.root_nonzero_atoms@.len() <= limits.max_root_nonzero_facts,
            certificate.nodes@.len() <= limits.max_dpll_nodes,
            within == census_within(*certificate, limits),
            nodes == certificate.nodes@,
            usize_bytes == vstd::layout::size_of::<usize>(),
            clause_header_bytes == vstd::layout::size_of::<Vec<usize>>(),
            minimum_one_side_units == census_min_units(*certificate),
            minimum_one_side_bytes == census_min_bytes(*certificate),
                node.remaining_clauses@.subrange(0, node.remaining_clauses@.len() as int) == node.remaining_clauses@,
                lit_before == nodes_total(nodes.take(n as int), node_literal_count_of()),
                lit_before + node_literal_count(nodes[n as int]) == nodes_total(nodes.take(n + 1), node_literal_count_of()),
                nodes_total(nodes.take(n + 1), node_literal_count_of()) <= nodes_total(nodes, node_literal_count_of()),
                node_literals == lit_before + literal_count(node.remaining_clauses@.subrange(0, k as int)),
                node_literals <= limits.max_retained_node_literals,
            decreases node.remaining_clauses@.len() - k,
        {
            proof {
                assert(node.remaining_clauses@.subrange(0, k + 1).drop_last() =~= node.remaining_clauses@.subrange(0, k as int));
                lemma_literal_count_prefix(node.remaining_clauses@, k + 1, node.remaining_clauses@.len() as int);
            }
            node_literals = bounded_add(
                "retained node literals",
                node_literals,
                node.remaining_clauses[k].len(),
                limits.max_retained_node_literals,
            )?;
            k = k + 1;
        }
        if let ResidualProductLocusBooleanNodeOutcome::ProvedEmpty(
            ResidualProductLocusBooleanEmptyReason::ExhaustedClause { atom_locus_ordinals },
        ) = &node.outcome {
            empty_reason_ordinals = bounded_add(
                "retained empty-reason ordinals",
                empty_reason_ordinals,
                atom_locus_ordinals.len(),
                limits.max_retained_empty_reason_ordinals,
            )?;
        }
        if node.is_terminal() {
            terminals = bounded_add("Boolean terminals", terminals, 1, limits.max_terminals)?;
        }
        n = n + 1;
    }
    let total_unit_parts = [
        minimum_one_side_units,
        root_literals,
        path_facts,
        propagation_entries,
        node_clauses,
        node_literals,
        empty_reason_ordinals,
        terminals,
    ];
    proof {
        let parts = total_unit_parts@;
        assert(parts =~= Seq::<usize>::empty().push(total_unit_parts[0]).push(total_unit_parts[1]).push(
            total_unit_parts[2],
        ).push(total_unit_parts[3]).push(total_unit_parts[4]).push(total_unit_parts[5]).push(total_unit_parts[6]).push(
            total_unit_parts[7],
        ));
        assert(2 * count_sum(parts) == census_units(*certificate));
    }
    let one_side_units = checked_sum("payload comparison units", &total_unit_parts)?;
    let units = checked_mul("payload comparison units", one_side_units, 2)?;
    check_limit("payload comparison units", units, limits.max_payload_comparison_units)?;
    let entry_parts = [root_literals, path_facts, propagation_entries, node_literals, empty_reason_ordinals];
    proof {
        let parts = entry_parts@;
        assert(parts =~= Seq::<usize>::empty().push(entry_parts[0]).push(entry_parts[1]).push(entry_parts[2]).push(
            entry_parts[3],
        ).push(entry_parts[4]));
    }
    let variable_usize_entries = checked_sum("payload comparison bytes", &entry_parts)?;
    let one_side_bytes = checked_add(
        "payload comparison bytes",
        minimum_one_side_bytes,
        checked_add(
            "payload comparison bytes",
            checked_mul("payload comparison bytes", variable_usize_entries, usize_bytes)?,
            checked_mul("payload comparison bytes", node_clauses, clause_header_bytes)?,
        )?,
    )?;
    let bytes = checked_mul("payload comparison bytes", one_side_bytes, 2)?;
    check_limit("payload comparison bytes", bytes, limits.max_payload_comparison_bytes)?;
    Ok((units, bytes))
}

fn atoms_eq(a: &Vec<usize>, b: &Vec<usize>) -> (r: bool)
    ensures
        r == (a@ == b@),
{
    if a.len() != b.len() {
        return false;
    }
    let mut i: usize = 0;
    while i < a.len()
        invariant
            a@.len() == b@.len(),
            i <= a@.len(),
            forall|k: int| 0 <= k < i ==> a@[k] == b@[k],
        decreases a@.len() - i,
    {
        if a[i] != b[i] {
            return false;
        }
        i = i + 1;
    }
    assert(a@ =~= b@);
    true
}

fn clauses_eq(a: &Vec<Vec<usize>>, b: &Vec<Vec<usize>>) -> (r: bool)
    ensures
        r == same_clauses(a@, b@),
{
    if a.len() != b.len() {
        return false;
    }
    let mut i: usize = 0;
    while i < a.len()
        invariant
            a@.len() == b@.len(),
            i <= a@.len(),
            forall|k: int| 0 <= k < i ==> (#[trigger] a@[k])@ == b@[k]@,
        decreases a@.len() - i,
    {
        if !atoms_eq(&a[i], &b[i]) {
            return false;
        }
        i = i + 1;
    }
    true
}

/// Two empty-path reasons with the same content.
pub open spec fn reason_same(a: ResidualProductLocusBooleanEmptyReason, b: ResidualProductLocusBooleanEmptyReason) -> bool {
    match a {
        ResidualProductLocusBooleanEmptyReason::ExhaustedClause { atom_locus_ordinals: x } => match b {
            ResidualProductLocusBooleanEmptyReason::ExhaustedClause { atom_locus_ordinals: y } => x@ == y@,
            _ => false,
        },
        _ => a == b,
    }
}

/// Two node outcomes with the same content.
pub open spec fn outcome_same(a: ResidualProductLocusBooleanNodeOutcome, b: ResidualProductLocusBooleanNodeOutcome) -> bool {
    match a {
        ResidualProductLocusBooleanNodeOutcome::ProvedEmpty(x) => match b {
            ResidualProductLocusBooleanNodeOutcome::ProvedEmpty(y) => reason_same(x, y),
            _ => false,
        },
        _ => a == b,
    }
}

/// Two transcript nodes with the same content.
pub open spec fn node_same(a: ResidualProductLocusBooleanNode, b: ResidualProductLocusBooleanNode) -> bool {
    &&& a.ordinal == b.ordinal
    &&& a.parent_ordinal == b.parent_ordinal
    &&& a.decision_from_parent == b.decision_from_parent
    &&& a.depth == b.depth
    &&& a.equal_zero_atoms@ == b.equal_zero_atoms@
    &&& a.nonzero_atoms@ == b.nonzero_atoms@
    &&& a.propagated_zero_atoms@ == b.propagated_zero_atoms@
    &&& same_clauses(a.remaining_clauses@, b.remaining_clauses@)
    &&& outcome_same(a.outcome, b.outcome)
}

/// Two transcripts with the same nodes in the same order.
pub open spec fn nodes_same(a: Seq<ResidualProductLocusBooleanNode>, b: Seq<ResidualProductLocusBooleanNode>) -> bool {
    a.len() == b.len() && forall|i: int| 0 <= i < a.len() ==> node_same(#[trigger] a[i], b[i])
}

/// Two covers with the same own payload: everything but the shared queue
/// and extraction allocations.
pub open spec fn cover_local_same(
    a: ResidualProductLocusBooleanCoverCertificate,
    b: ResidualProductLocusBooleanCoverCertificate,
) -> bool {
    &&& a.schema@ == b.schema@
    &&& a.family_fingerprint@ == b.family_fingerprint@
    &&& a.context_fingerprint@ == b.context_fingerprint@
    &&& a.sector.spec_active() == b.sector.spec_active()
    &&& a.source_work_item_ordinal == b.source_work_item_ordinal
    &&& a.source_case == b.source_case
    &&& a.atoms@ == b.atoms@
    &&& same_clauses(a.root_clauses@, b.root_clauses@)
    &&& a.root_nonzero_atoms@ == b.root_nonzero_atoms@
    &&& nodes_same(a.nodes@, b.nodes@)
    &&& a.limits == b.limits
    &&& a.stats == b.stats
}

fn reason_eq(a: &ResidualProductLocusBooleanEmptyReason, b: &ResidualProductLocusBooleanEmptyReason) -> (r: bool)
    ensures
        r == reason_same(*a, *b),
{
    match (a, b) {
        (
            ResidualProductLocusBooleanEmptyReason::OppositeFacts { atom_locus_ordinal: x },
            ResidualProductLocusBooleanEmptyReason::OppositeFacts { atom_locus_ordinal: y },
        ) => *x == *y,
        (
            ResidualProductLocusBooleanEmptyReason::ExhaustedClause { atom_locus_ordinals: x },
            ResidualProductLocusBooleanEmptyReason::ExhaustedClause { atom_locus_ordinals: y },
        ) => atoms_eq(x, y),
        (
            ResidualProductLocusBooleanEmptyReason::OrthantViolation { atom_locus_ordinal: a1, index: a2, value: a3, side: a4 },
            ResidualProductLocusBooleanEmptyReason::OrthantViolation { atom_locus_ordinal: b1, index: b2, value: b3, side: b4 },
        ) => *a1 == *b1 && *a2 == *b2 && *a3 == *b3 && *a4 == *b4,
        (
            ResidualProductLocusBooleanEmptyReason::ConflictingCoordinateEqualities {
                first_atom_locus_ordinal: a1,
                second_atom_locus_ordinal: a2,
                index: a3,
                first_value: a4,
                second_value: a5,
            },
            ResidualProductLocusBooleanEmptyReason::ConflictingCoordinateEqualities {
                first_atom_locus_ordinal: b1,
                second_atom_locus_ordinal: b2,
                index: b3,
                first_value: b4,
                second_value: b5,
            },
        ) => *a1 == *b1 && *a2 == *b2 && *a3 == *b3 && *a4 == *b4 && *a5 == *b5,
        (
            ResidualProductLocusBooleanEmptyReason::CoordinateEqualityNonzero {
                equality_atom_locus_ordinal: a1,
                nonzero_atom_locus_ordinal: a2,
                index: a3,
                value: a4,
            },
            ResidualProductLocusBooleanEmptyReason::CoordinateEqualityNonzero {
                equality_atom_locus_ordinal: b1,
                nonzero_atom_locus_ordinal: b2,
                index: b3,
                value: b4,
            },
        ) => *a1 == *b1 && *a2 == *b2 && *a3 == *b3 && *a4 == *b4,
        _ => false,
    }
}

fn outcome_eq(a: &ResidualProductLocusBooleanNodeOutcome, b: &ResidualProductLocusBooleanNodeOutcome) -> (r: bool)
    ensures
        r == outcome_same(*a, *b),
{
    match (a, b) {
        (
            ResidualProductLocusBooleanNodeOutcome::ReadyForAffineRecognition,
            ResidualProductLocusBooleanNodeOutcome::ReadyForAffineRecognition,
        ) => true,
        (ResidualProductLocusBooleanNodeOutcome::ProvedEmpty(x), ResidualProductLocusBooleanNodeOutcome::ProvedEmpty(y)) => reason_eq(
            x,
            y,
        ),
        (
            ResidualProductLocusBooleanNodeOutcome::Branched { atom_locus_ordinal: x },
            ResidualProductLocusBooleanNodeOutcome::Branched { atom_locus_ordinal: y },
        ) => *x == *y,
        _ => false,
    }
}

fn node_eq(a: &ResidualProductLocusBooleanNode, b: &ResidualProductLocusBooleanNode) -> (r: bool)
    ensures
        r == node_same(*a, *b),
{
    a.ordinal == b.ordinal && a.parent_ordinal == b.parent_ordinal && a.decision_from_parent == b.decision_from_parent
        && a.depth == b.depth && atoms_eq(&a.equal_zero_atoms, &b.equal_zero_atoms) && atoms_eq(
        &a.nonzero_atoms,
        &b.nonzero_atoms,
    ) && atoms_eq(&a.propagated_zero_atoms, &b.propagated_zero_atoms) && clauses_eq(
        &a.remaining_clauses,
        &b.remaining_clauses,
    ) && outcome_eq(&a.outcome, &b.outcome)
}

fn nodes_eq(a: &Vec<ResidualProductLocusBooleanNode>, b: &Vec<ResidualProductLocusBooleanNode>) -> (r: bool)
    ensures
        r == nodes_same(a@, b@),
{
    if a.len() != b.len() {
        return false;
    }
    let mut i: usize = 0;
    while i < a.len()
        invariant
            a@.len() == b@.len(),
            i <= a@.len(),
            forall|k: int| 0 <= k < i ==> node_same(#[trigger] a@[k], b@[k]),
        decreases a@.len() - i,
    {
        if !node_eq(&a[i], &b[i]) {
            return false;
        }
        i = i + 1;
    }
    true
}

impl ResidualProductLocusBooleanCoverCertificate {
    pub fn schema(&self) -> (r: &'static str)
        ensures
            r == self.schema,
    {
        self.schema
    }

    pub fn family_fingerprint(&self) -> (r: &str)
        ensures
            r@ == self.family_fingerprint@,
    {
        self.family_fingerprint.as_str()
    }

    pub fn context_fingerprint(&self) -> (r: &str)
        ensures
            r@ == self.context_fingerprint@,
    {
        self.context_fingerprint.as_str()
    }

    pub fn sector(&self) -> (r: &SectorMask)
        ensures
            *r == self.sector,
    {
        &self.sector
    }

    pub fn source_queue(&self) -> (r: &Arc<GeneratedSectorLiveLeafQueueCertificate>)
        ensures
            *r == self.source_queue,
    {
        &self.source_queue
    }

    pub fn source_work_item_ordinal(&self) -> (r: usize)
        ensures
            r == self.source_work_item_ordinal,
    {
        self.source_work_item_ordinal
    }

    pub fn source_case(&self) -> (r: usize)
        ensures
            r == self.source_case,
    {
        self.source_case
    }

    pub fn source_extraction(&self) -> (r: &Arc<CoordinateEqualityLocusCertificate>)
        ensures
            *r == self.source_extraction,
    {
        &self.source_extraction
    }

    pub fn atom_locus_ordinals(&self) -> (r: &[usize])
        ensures
            r@ == self.atoms@,
    {
        self.atoms.as_slice()
    }

    pub fn root_clauses(&self) -> (r: &[Vec<usize>])
        ensures
            r@ == self.root_clauses@,
    {
        self.root_clauses.as_slice()
    }

    pub fn root_nonzero_atoms(&self) -> (r: &[usize])
        ensures
            r@ == self.root_nonzero_atoms@,
    {
        self.root_nonzero_atoms.as_slice()
    }

    pub fn nodes(&self) -> (r: &[ResidualProductLocusBooleanNode])
        ensures
            r@ == self.nodes@,
    {
        self.nodes.as_slice()
    }

    /// Ordinals of the terminal (not branched) nodes, in transcript order.
    pub fn terminals(&self) -> (r: Vec<usize>)
        ensures
            forall|i: int| 0 <= i < r@.len() ==> r@[i] < self.nodes@.len() && !(self.nodes@[r@[i] as int].outcome is Branched),
            forall|k: int| 0 <= k < self.nodes@.len() && !(self.nodes@[k].outcome is Branched) ==> r@.contains(k as usize),
            forall|i: int, j: int| 0 <= i < j < r@.len() ==> r@[i] < r@[j],
    {
        let mut out: Vec<usize> = Vec::new();
        let mut k: usize = 0;
        while k < self.nodes.len()
            invariant
                k <= self.nodes@.len(),
                forall|i: int| 0 <= i < out@.len() ==> out@[i] < k && !(self.nodes@[out@[i] as int].outcome is Branched),
                forall|m: int| 0 <= m < k && !(self.nodes@[m].outcome is Branched) ==> out@.contains(m as usize),
                forall|i: int, j: int| 0 <= i < j < out@.len() ==> out@[i] < out@[j],
            decreases self.nodes@.len() - k,
        {
            if self.nodes[k].is_terminal() {
                let ghost before = out@;
                out.push(k);
                proof {
                    assert forall|m: int| 0 <= m < k + 1 && !(self.nodes@[m].outcome is Branched) implies out@.contains(
                        m as usize,
                    ) by {
                        if m < k {
                            let t = choose|t: int| 0 <= t < before.len() && before[t] == m as usize;
                            assert(out@[t] == m as usize);
                        } else {
                            assert(out@[before.len() as int] == k);
                        }
                    }
                }
            }
            k = k + 1;
        }
        out
    }

    pub fn limits(&self) -> (r: ResidualProductLocusBooleanCoverLimits)
        ensures
            r == self.limits,
    {
        self.limits
    }

    pub fn stats(&self) -> (r: ResidualProductLocusBooleanCoverStats)
        ensures
            r == self.stats,
    {
        self.stats
    }

    /// Checked equality of the cover's own payload.  The comparison budget
    /// is charged from both shapes first; the nested queue and extraction
    /// must be the very same allocations, and independently allocated ones
    /// are refused rather than compared.
    pub fn payload_eq_checked(&self, other: &Self) -> (r: Result<bool, ResidualProductLocusBooleanCoverError>)
        ensures
            r matches Ok(true) ==> cover_local_same(*self, *other) && *self.source_queue == *other.source_queue
                && *self.source_extraction == *other.source_extraction,
            r matches Ok(false) ==> !cover_local_same(*self, *other) || self.source_extraction.source_case
                != other.source_extraction.source_case,
            r matches Err(e) && e is IndependentNestedPayloadComparisonUnsupported ==> cover_local_same(*self, *other),
    {
        let (self_units, self_bytes) = cover_owned_payload_comparison_census(self, self.limits)?;
        let (other_units, other_bytes) = cover_owned_payload_comparison_census(other, self.limits)?;
        check_limit(
            "payload comparison units",
            if self_units < other_units { other_units } else { self_units },
            self.limits.max_payload_comparison_units,
        )?;
        check_limit(
            "payload comparison bytes",
            if self_bytes < other_bytes { other_bytes } else { self_bytes },
            self.limits.max_payload_comparison_bytes,
        )?;
        let local_equal = text_eq(self.schema, other.schema) && self.family_fingerprint == other.family_fingerprint
            && self.context_fingerprint == other.context_fingerprint && self.sector.same_as(&other.sector)
            && self.source_work_item_ordinal == other.source_work_item_ordinal && self.source_case == other.source_case
            && atoms_eq(&self.atoms, &other.atoms) && clauses_eq(&self.root_clauses, &other.root_clauses) && atoms_eq(
            &self.root_nonzero_atoms,
            &other.root_nonzero_atoms,
        ) && nodes_eq(&self.nodes, &other.nodes) && self.limits == other.limits && self.stats == other.stats;
        if !local_equal {
            return Ok(false);
        }
        if !same_allocation(&self.source_queue, &other.source_queue) {
            return Err(
                ResidualProductLocusBooleanCoverError::IndependentNestedPayloadComparisonUnsupported {
                    component: "source queue",
                },
            );
        }
        if !same_allocation(&self.source_extraction, &other.source_extraction) {
            if self.source_extraction.source_case != other.source_extraction.source_case {
                return Ok(false);
            }
            return Err(
                ResidualProductLocusBooleanCoverError::IndependentNestedPayloadComparisonUnsupported {
                    component: "source extraction",
                },
            );
        }
        Ok(true)
    }

    /// Boolean form of the checked comparison: a refused comparison reads
    /// as unequal.
    pub fn payload_eq(&self, other: &Self) -> (r: bool)
        ensures
            r ==> cover_local_same(*self, *other) && *self.source_queue == *other.source_queue
                && *self.source_extraction == *other.source_extraction,
    {
        match self.payload_eq_checked(other) {
            Ok(equal) => equal,
            Err(_) => false,
        }
    }

    /// Recompiles the cover from its own retained queue and compares.
    pub fn replay(&self, family: &str, context: &ParametricCoefficientContext) -> (r: Result<
        (),
        ResidualProductLocusBooleanCoverError,
    >)
        ensures
            !scope_ok(
                self.schema@,
                self.family_fingerprint@,
                self.context_fingerprint@,
                family@,
                *context,
                self.limits,
            ) ==> r is Err,
            r is Ok ==> exists|cover: ResidualProductLocusBooleanCoverCertificate|
                compiled_from(cover, family@, *context, *self.source_queue, self.source_work_item_ordinal, self.limits)
                    && cover_local_same(*self, cover) && *cover.source_queue == *self.source_queue
                    && *cover.source_extraction == *self.source_extraction,
    {
        self.replay_with_queue(family, context, share(&self.source_queue))
    }

    /// Recompiles the cover from `queue`, which must be the retained queue
    /// allocation itself, and compares the complete payload.
    pub fn replay_with_queue(
        &self,
        family: &str,
        context: &ParametricCoefficientContext,
        queue: Arc<GeneratedSectorLiveLeafQueueCertificate>,
    ) -> (r: Result<(), ResidualProductLocusBooleanCoverError>)
        ensures
            !scope_ok(
                self.schema@,
                self.family_fingerprint@,
                self.context_fingerprint@,
                family@,
                *context,
                self.limits,
            ) ==> r is Err,
            scope_ok(
                self.schema@,
                self.family_fingerprint@,
                self.context_fingerprint@,
                family@,
                *context,
                self.limits,
            ) && *queue != *self.source_queue ==> r == Err::<(), ResidualProductLocusBooleanCoverError>(
                ResidualProductLocusBooleanCoverError::IndependentNestedPayloadComparisonUnsupported {
                    component: "source queue",
                },
            ),
            r is Ok ==> *queue == *self.source_queue,
            r is Ok ==> exists|cover: ResidualProductLocusBooleanCoverCertificate|
                compiled_from(cover, family@, *context, *queue, self.source_work_item_ordinal, self.limits)
                    && cover_local_same(*self, cover) && *cover.source_queue == *self.source_queue
                    && *cover.source_extraction == *self.source_extraction,
    {
        validate_scope(
            self.schema,
            self.family_fingerprint.as_str(),
            self.context_fingerprint.as_str(),
            family,
            context,
            self.limits,
        )?;
        if !same_allocation(&self.source_queue, &queue) {
            return Err(
                ResidualProductLocusBooleanCoverError::IndependentNestedPayloadComparisonUnsupported {
                    component: "source queue",
                },
            );
        }
        if let Err(error) = queue.replay(family, context) {
            return Err(ResidualProductLocusBooleanCoverError::Queue(error));
        }
        let rebuilt = compile_replayed(family, context, queue, self.source_work_item_ordinal, self.limits)?;
        if self.payload_eq_checked(&rebuilt)? {
            Ok(())
        } else {
            Err(ResidualProductLocusBooleanCoverError::ReplayMismatch)
        }
    }

    /// The unique ready terminal whose facts hold at an integer point, given
    /// which structural loci vanish there; `None` when the point is outside
    /// the sector or no ready terminal holds.
    pub fn ready_terminal_for_indices(
        &self,
        context: &ParametricCoefficientContext,
        indices: &[i64],
        locus_vanishes: &[bool],
    ) -> (r: Result<Option<&ResidualProductLocusBooleanNode>, ResidualProductLocusBooleanCoverError>)
        ensures
            self.context_fingerprint@ != context.fingerprint@ ==> r == Err::<
                Option<&ResidualProductLocusBooleanNode>,
                ResidualProductLocusBooleanCoverError,
            >(ResidualProductLocusBooleanCoverError::WrongContext),
            r matches Ok(Some(node)) ==> exists|k: int|
                0 <= k < self.nodes@.len() && self.nodes@[k] == *node && node.outcome
                    is ReadyForAffineRecognition && facts_hold(
                    node.equal_zero_atoms@,
                    node.nonzero_atoms@,
                    vanishing_set(locus_vanishes@),
                ),
            r matches Ok(None) ==> (exists|i: int|
                0 <= i < indices@.len() && !#[trigger] in_orthant(self.sector.spec_active()[i], indices@[i])) || (forall|k: int|
                0 <= k < self.nodes@.len() && self.nodes@[k].outcome is ReadyForAffineRecognition ==> !facts_hold(
                    self.nodes@[k].equal_zero_atoms@,
                    self.nodes@[k].nonzero_atoms@,
                    vanishing_set(locus_vanishes@),
                )),
            self.context_fingerprint@ == context.fingerprint@ && indices@.len() == self.sector.spec_active().len()
                && (exists|i: int| 0 <= i < indices@.len() && !#[trigger] in_orthant(self.sector.spec_active()[i], indices@[i]))
                ==> r == Ok::<Option<&ResidualProductLocusBooleanNode>, ResidualProductLocusBooleanCoverError>(None),
            self.context_fingerprint@ == context.fingerprint@ && indices@.len() == self.sector.spec_active().len()
                && (exists|i: int|
                0 <= i < indices@.len() && ((self.sector.spec_active()[i] && #[trigger] indices@[i] < 1) || (
                !self.sector.spec_active()[i] && indices@[i] > 0)))
                ==> r == Ok::<Option<&ResidualProductLocusBooleanNode>, ResidualProductLocusBooleanCoverError>(None),
            self.context_fingerprint@ == context.fingerprint@ && indices@.len() == self.sector.spec_active().len()
                && (forall|i: int| 0 <= i < indices@.len() ==> #[trigger] in_orthant(self.sector.spec_active()[i], indices@[i]))
                && ready_facts_in_range(self.nodes@, locus_vanishes@.len()) ==> (r is Ok <==> !two_ready_hold(
                self.nodes@,
                locus_vanishes@,
            )) && (two_ready_hold(self.nodes@, locus_vanishes@) ==> r == Err::<
                Option<&ResidualProductLocusBooleanNode>,
                ResidualProductLocusBooleanCoverError,
            >(ResidualProductLocusBooleanCoverError::TerminalEvaluationMismatch)),
    {
        if !text_eq(self.context_fingerprint.as_str(), context.fingerprint.as_str()) {
            return Err(ResidualProductLocusBooleanCoverError::WrongContext);
        }
        proof {
            if indices@.len() == self.sector.spec_active().len() && (exists|i: int|
                0 <= i < indices@.len() && ((self.sector.spec_active()[i] && #[trigger] indices@[i] < 1) || (
                !self.sector.spec_active()[i] && indices@[i] > 0))) {
                let i = choose|i: int|
                    0 <= i < indices@.len() && ((self.sector.spec_active()[i] && #[trigger] indices@[i] < 1) || (
                    !self.sector.spec_active()[i] && indices@[i] > 0));
                assert(!in_orthant(self.sector.spec_active()[i], indices@[i]));
            }
        }
        if !self.sector.contains_indices(indices).map_err(|e: SectorFoundationError| ResidualProductLocusBooleanCoverError::Sector(e))? {
            return Ok(None);
        }
        proof {
            lemma_point_in_orthant_inequalities(self.sector.spec_active(), indices@);
        }
        let mut found: Option<&ResidualProductLocusBooleanNode> = None;
        let mut k: usize = 0;
        while k < self.nodes.len()
            invariant
                self.context_fingerprint@ == context.fingerprint@,
                k <= self.nodes@.len(),
                found matches Some(node) ==> exists|m: int|
                    0 <= m < k && self.nodes@[m] == *node && node.outcome is ReadyForAffineRecognition && facts_hold(
                        node.equal_zero_atoms@,
                        node.nonzero_atoms@,
                        vanishing_set(locus_vanishes@),
                    ),
                found is None ==> forall|m: int|
                    0 <= m < k && self.nodes@[m].outcome is ReadyForAffineRecognition ==> !facts_hold(
                        self.nodes@[m].equal_zero_atoms@,
                        self.nodes@[m].nonzero_atoms@,
                        vanishing_set(locus_vanishes@),
                    ),
                found is Some ==> exists|m: int| 0 <= m < k && #[trigger] ready_holds(self.nodes@[m], locus_vanishes@),
                indices@.len() == self.sector.spec_active().len(),
                forall|i: int| 0 <= i < indices@.len() ==> #[trigger] in_orthant(self.sector.spec_active()[i], indices@[i]),
                forall|i: int|
                    0 <= i < indices@.len() ==> (self.sector.spec_active()[i] ==> #[trigger] indices@[i] >= 1) && (
                    !self.sector.spec_active()[i] ==> indices@[i] <= 0),
                !(exists|a: int, b: int|
                    0 <= a < b < k && #[trigger] ready_holds(self.nodes@[a], locus_vanishes@) && #[trigger] ready_holds(
                        self.nodes@[b],
                        locus_vanishes@,
                    )),
            decreases self.nodes@.len() - k,
        {
            let node = &self.nodes[k];
            proof {
                if ready_facts_in_range(self.nodes@, locus_vanishes@.len()) && node.outcome is ReadyForAffineRecognition {
                    assert(ready_facts_fit(self.nodes@[k as int], locus_vanishes@.len()));
                }
            }
            if let ResidualProductLocusBooleanNodeOutcome::ReadyForAffineRecognition = node.outcome {
                let holds = facts_hold_at(&node.equal_zero_atoms, &node.nonzero_atoms, locus_vanishes)?;
                if holds {
                    if found.is_some() {
                        proof {
                            let m = choose|m: int| 0 <= m < k && #[trigger] ready_holds(self.nodes@[m], locus_vanishes@);
                            assert(ready_holds(self.nodes@[k as int], locus_vanishes@));
                            assert(two_ready_hold(self.nodes@, locus_vanishes@));
                        }
                        return Err(ResidualProductLocusBooleanCoverError::TerminalEvaluationMismatch);
                    }
                    found = Some(node);
                    assert(ready_holds(self.nodes@[k as int], locus_vanishes@));
                }
            }
            proof {
                assert forall|a: int, b: int|
                    0 <= a < b < k + 1 && #[trigger] ready_holds(self.nodes@[a], locus_vanishes@) implies !#[trigger] ready_holds(
                    self.nodes@[b],
                    locus_vanishes@,
                ) by {
                    if b == k && ready_holds(self.nodes@[b], locus_vanishes@) {
                        assert(found is Some);
                    }
                }
            }
            k = k + 1;
        }
        Ok(found)
    }
}

/// A ready node whose facts hold where `locus_vanishes` says which loci
/// vanish.
pub open spec fn ready_holds(node: ResidualProductLocusBooleanNode, locus_vanishes: Seq<bool>) -> bool {
    node.outcome is ReadyForAffineRecognition && facts_hold(
        node.equal_zero_atoms@,
        node.nonzero_atoms@,
        vanishing_set(locus_vanishes),
    )
}

/// Two distinct ready nodes hold at once.
pub open spec fn two_ready_hold(nodes: Seq<ResidualProductLocusBooleanNode>, locus_vanishes: Seq<bool>) -> bool {
    exists|a: int, b: int|
        0 <= a < b < nodes.len() && #[trigger] ready_holds(nodes[a], locus_vanishes) && #[trigger] ready_holds(
            nodes[b],
            locus_vanishes,
        )
}

/// Every fact of a node names a locus below `count`.
pub open spec fn ready_facts_fit(node: ResidualProductLocusBooleanNode, count: nat) -> bool {
    &&& forall|j: int| 0 <= j < node.equal_zero_atoms@.len() ==> #[trigger] node.equal_zero_atoms@[j] < count
    &&& forall|j: int| 0 <= j < node.nonzero_atoms@.len() ==> #[trigger] node.nonzero_atoms@[j] < count
}

/// Every ready node's facts name loci below `count`.
pub open spec fn ready_facts_in_range(nodes: Seq<ResidualProductLocusBooleanNode>, count: nat) -> bool {
    forall|k: int|
        0 <= k < nodes.len() && (#[trigger] nodes[k]).outcome is ReadyForAffineRecognition ==> ready_facts_fit(nodes[k], count)
}

/// The loci that vanish under `locus_vanishes`.
pub open spec fn vanishing_set(locus_vanishes: Seq<bool>) -> Set<usize> {
    Set::new(|x: usize| x < locus_vanishes.len() && locus_vanishes[x as int])
}

pub proof fn lemma_vanishing_set(locus_vanishes: Seq<bool>, x: usize)
    ensures
        vanishing_set(locus_vanishes).contains(x) == (x < locus_vanishes.len() && locus_vanishes[x as int]),
{
}

/// Whether the zero facts vanish and the nonzero facts do not, given which
/// structural loci vanish.
fn facts_hold_at(zero_facts: &Vec<usize>, nonzero_facts: &Vec<usize>, locus_vanishes: &[bool]) -> (r: Result<
    bool,
    ResidualProductLocusBooleanCoverError,
>)
    ensures
        r matches Ok(b) ==> b == facts_hold(zero_facts@, nonzero_facts@, vanishing_set(locus_vanishes@)),
        (forall|k: int| 0 <= k < zero_facts@.len() ==> #[trigger] zero_facts@[k] < locus_vanishes@.len()) && (forall|k: int|
            0 <= k < nonzero_facts@.len() ==> #[trigger] nonzero_facts@[k] < locus_vanishes@.len()) ==> r is Ok,
        r matches Err(e) ==> exists|ordinal: usize|
            e == (ResidualProductLocusBooleanCoverError::StructuralLocusOrdinalOutOfRange { ordinal }) && ordinal
                >= locus_vanishes@.len() && (zero_facts@.contains(ordinal) || nonzero_facts@.contains(ordinal)),
{
    let ghost zero = vanishing_set(locus_vanishes@);
    let mut i: usize = 0;
    while i < zero_facts.len()
        invariant
            zero == vanishing_set(locus_vanishes@),
            i <= zero_facts@.len(),
            forall|k: int| 0 <= k < i ==> zero.contains(#[trigger] zero_facts@[k]),
        decreases zero_facts@.len() - i,
    {
        let ordinal = zero_facts[i];
        if ordinal >= locus_vanishes.len() {
            assert(zero_facts@.contains(ordinal));
            return Err(ResidualProductLocusBooleanCoverError::StructuralLocusOrdinalOutOfRange { ordinal });
        }
        proof {
            lemma_vanishing_set(locus_vanishes@, ordinal);
        }
        if !locus_vanishes[ordinal] {
            assert(!zero.contains(zero_facts@[i as int]));
            return Ok(false);
        }
        i = i + 1;
    }
    let mut j: usize = 0;
    while j < nonzero_facts.len()
        invariant
            zero == vanishing_set(locus_vanishes@),
            j <= nonzero_facts@.len(),
            forall|k: int| 0 <= k < zero_facts@.len() ==> zero.contains(#[trigger] zero_facts@[k]),
            forall|k: int| 0 <= k < j ==> !zero.contains(#[trigger] nonzero_facts@[k]),
        decreases nonzero_facts@.len() - j,
    {
        let ordinal = nonzero_facts[j];
        if ordinal >= locus_vanishes.len() {
            assert(nonzero_facts@.contains(ordinal));
            return Err(ResidualProductLocusBooleanCoverError::StructuralLocusOrdinalOutOfRange { ordinal });
        }
        proof {
            lemma_vanishing_set(locus_vanishes@, ordinal);
        }
        if locus_vanishes[ordinal] {
            assert(zero.contains(nonzero_facts@[j as int]));
            return Ok(false);
        }
        j = j + 1;
    }
    Ok(true)
}

/// Compiler of the Boolean cover of one live leaf.
pub struct ResidualProductLocusBooleanCoverCompiler;

impl ResidualProductLocusBooleanCoverCompiler {
    /// Compiles the cover of one work item; the cover retains the work
    /// item's own extraction allocation.
    pub fn compile(
        family: &str,
        context: &ParametricCoefficientContext,
        queue: Arc<GeneratedSectorLiveLeafQueueCertificate>,
        source_work_item_ordinal: usize,
        limits: ResidualProductLocusBooleanCoverLimits,
    ) -> (r: Result<ResidualProductLocusBooleanCoverCertificate, ResidualProductLocusBooleanCoverError>)
        ensures
            !scope_ok(
                RESIDUAL_PRODUCT_LOCUS_BOOLEAN_COVER_V1_SCHEMA@,
                queue.family_fingerprint@,
                queue.context_fingerprint@,
                family@,
                *context,
                limits,
            ) ==> r is Err,
            scope_ok(
                RESIDUAL_PRODUCT_LOCUS_BOOLEAN_COVER_V1_SCHEMA@,
                queue.family_fingerprint@,
                queue.context_fingerprint@,
                family@,
                *context,
                limits,
            ) && byte_len(family@) <= limits.max_family_fingerprint_bytes && queue.sector.spec_active().len()
                <= limits.max_sector_arity && source_work_item_ordinal >= queue.work_items@.len() ==> r == Err::<
                ResidualProductLocusBooleanCoverCertificate,
                ResidualProductLocusBooleanCoverError,
            >(ResidualProductLocusBooleanCoverError::WorkItemNotFound { ordinal: source_work_item_ordinal }),
            work_item_reached(family@, *context, *queue, source_work_item_ordinal, limits) && !binding_ok(
                *queue,
                source_work_item_ordinal,
            ) ==> r == Err::<ResidualProductLocusBooleanCoverCertificate, ResidualProductLocusBooleanCoverError>(
                ResidualProductLocusBooleanCoverError::SourceBindingMismatch,
            ),
            work_item_reached(family@, *context, *queue, source_work_item_ordinal, limits) && binding_ok(
                *queue,
                source_work_item_ordinal,
            ) && queue.source_identity_bytes <= limits.max_source_identity_bytes_referenced && case_position(
                queue.cases@,
                queue.work_items@[source_work_item_ordinal as int].source_case,
            ) is None ==> r == Err::<ResidualProductLocusBooleanCoverCertificate, ResidualProductLocusBooleanCoverError>(
                ResidualProductLocusBooleanCoverError::SourceCaseNotFound {
                    case: queue.work_items@[source_work_item_ordinal as int].source_case,
                },
            ),
            work_item_reached(family@, *context, *queue, source_work_item_ordinal, limits) && binding_ok(
                *queue,
                source_work_item_ordinal,
            ) && queue.source_identity_bytes > limits.max_source_identity_bytes_referenced ==> r == Err::<ResidualProductLocusBooleanCoverCertificate, ResidualProductLocusBooleanCoverError>(
                ResidualProductLocusBooleanCoverError::ResourceLimit {
                    resource: "source partition identity bytes referenced",
                    requested: queue.source_identity_bytes,
                    limit: limits.max_source_identity_bytes_referenced,
                },
            ),
            forall|p: int|
                #![trigger queue.cases@[p]]
                work_item_reached(family@, *context, *queue, source_work_item_ordinal, limits) && binding_ok(*queue, source_work_item_ordinal)
                    && queue.source_identity_bytes <= limits.max_source_identity_bytes_referenced
                    && case_position(queue.cases@, queue.work_items@[source_work_item_ordinal as int].source_case) == Some(p)
                    && queue.cases@[p].predicates@.len() > limits.max_source_predicates ==> r == Err::<ResidualProductLocusBooleanCoverCertificate, ResidualProductLocusBooleanCoverError>(
                ResidualProductLocusBooleanCoverError::ResourceLimit {
                    resource: "source predicates",
                    requested: queue.cases@[p].predicates@.len() as usize,
                    limit: limits.max_source_predicates,
                },
            ),
            r matches Ok(cover) ==> compiled_from(cover, family@, *context, *queue, source_work_item_ordinal, limits),
    {
        if let Err(error) = queue.replay(family, context) {
            return Err(ResidualProductLocusBooleanCoverError::Queue(error));
        }
        let certificate = compile_replayed(family, context, queue, source_work_item_ordinal, limits)?;
        if source_work_item_ordinal >= certificate.source_queue.work_items.len() {
            return Err(ResidualProductLocusBooleanCoverError::WorkItemNotFound { ordinal: source_work_item_ordinal });
        }
        if !same_allocation(
            &certificate.source_extraction,
            &certificate.source_queue.work_items[source_work_item_ordinal].extraction,
        ) {
            return Err(ResidualProductLocusBooleanCoverError::FreshExtractionAllocationMismatch);
        }
        Ok(certificate)
    }
}


// ---------------------------------------------------------------------------
// Memory envelopes.
// ---------------------------------------------------------------------------

/// Bytes of one clause header: the larger of the vector header used while
/// compiling and the boxed-slice header of a retained clause.
pub open spec fn clause_header_size() -> nat {
    if vstd::layout::size_of::<Vec<usize>>() < vstd::layout::size_of::<Box<[usize]>>() {
        vstd::layout::size_of::<Box<[usize]>>()
    } else {
        vstd::layout::size_of::<Vec<usize>>()
    }
}

/// Control words and alignment slack of the `Arc` sealing one `T`.
pub open spec fn arc_control_bytes<T>() -> nat {
    2 * vstd::layout::size_of::<usize>() + if vstd::layout::align_of::<T>() >= 1 {
        (vstd::layout::align_of::<T>() - 1) as nat
    } else {
        0
    }
}

/// Conservative allocation of one shared string of `length` bytes: the
/// payload plus two reference counts and one word of header slack.
pub open spec fn arc_str_bytes(length: nat) -> nat {
    length + 3 * vstd::layout::size_of::<usize>()
}

/// Retained bytes of a cover of the given shape.
pub open spec fn retained_bytes_of_shape(
    family_fingerprint_bytes: nat,
    context_fingerprint_bytes: nat,
    sector_owned_bytes: nat,
    atoms: nat,
    root_clauses: nat,
    root_literals: nat,
    root_nonzero_atoms: nat,
    nodes: nat,
    path_facts: nat,
    propagations: nat,
    node_clauses: nat,
    node_literals: nat,
    empty_reason_ordinals: nat,
) -> nat {
    let word = vstd::layout::size_of::<usize>();
    arc_control_bytes::<ResidualProductLocusBooleanCoverCertificate>() + vstd::layout::size_of::<
        ResidualProductLocusBooleanCoverCertificate,
    >() + arc_str_bytes(family_fingerprint_bytes) + arc_str_bytes(context_fingerprint_bytes) + sector_owned_bytes
        + atoms * word + root_clauses * clause_header_size() + root_literals * word + root_nonzero_atoms * word + nodes
        * vstd::layout::size_of::<ResidualProductLocusBooleanNode>() + path_facts * word + propagations * word
        + node_clauses * clause_header_size() + node_literals * word + empty_reason_ordinals * word
}

fn fixed_arc_control_and_padding_bytes<T>() -> (r: Result<usize, ResidualProductLocusBooleanCoverError>)
    ensures
        r is Ok <==> arc_control_bytes::<T>() <= usize::MAX,
        r matches Ok(v) ==> v == arc_control_bytes::<T>(),
        r is Err ==> r == Err::<usize, ResidualProductLocusBooleanCoverError>(
            ResidualProductLocusBooleanCoverError::ResourceCountOverflow { resource: "Boolean cover retained Arc bytes" }),
{
    proof {
        lemma_word_at_least_one();
    }
    let align = core::mem::align_of::<T>();
    let slack: usize = if align >= 1 { align - 1 } else { 0 };
    checked_add(
        "Boolean cover retained Arc bytes",
        checked_mul("Boolean cover retained Arc bytes", 2, core::mem::size_of::<usize>())?,
        slack,
    )
}

fn arc_str_allocation_byte_upper_bound(length: usize) -> (r: Result<usize, ResidualProductLocusBooleanCoverError>)
    ensures
        r is Ok <==> arc_str_bytes(length as nat) <= usize::MAX,
        r matches Ok(v) ==> v == arc_str_bytes(length as nat),
        r is Err ==> r == Err::<usize, ResidualProductLocusBooleanCoverError>(
            ResidualProductLocusBooleanCoverError::ResourceCountOverflow { resource: "Boolean cover retained fingerprint bytes" }),
{
    proof {
        lemma_word_at_least_one();
    }
    checked_add(
        "Boolean cover retained fingerprint bytes",
        length,
        checked_mul("Boolean cover retained fingerprint bytes", 3, core::mem::size_of::<usize>())?,
    )
}

/// Retained owned bytes of a cover of the given shape, failing on overflow.
pub fn cover_retained_owned_logical_bytes_upper_bound_from_shape(
    family_fingerprint_bytes: usize,
    context_fingerprint_bytes: usize,
    sector_owned_bytes: usize,
    atoms: usize,
    root_clauses: usize,
    root_literals: usize,
    root_nonzero_atoms: usize,
    nodes: usize,
    path_facts: usize,
    propagations: usize,
    node_clauses: usize,
    node_literals: usize,
    empty_reason_ordinals: usize,
) -> (r: Result<usize, ResidualProductLocusBooleanCoverError>)
    ensures
        r matches Ok(v) ==> v == retained_bytes_of_shape(
            family_fingerprint_bytes as nat,
            context_fingerprint_bytes as nat,
            sector_owned_bytes as nat,
            atoms as nat,
            root_clauses as nat,
            root_literals as nat,
            root_nonzero_atoms as nat,
            nodes as nat,
            path_facts as nat,
            propagations as nat,
            node_clauses as nat,
            node_literals as nat,
            empty_reason_ordinals as nat,
        ),
        r is Ok <==> retained_bytes_of_shape(
            family_fingerprint_bytes as nat,
            context_fingerprint_bytes as nat,
            sector_owned_bytes as nat,
            atoms as nat,
            root_clauses as nat,
            root_literals as nat,
            root_nonzero_atoms as nat,
            nodes as nat,
            path_facts as nat,
            propagations as nat,
            node_clauses as nat,
            node_literals as nat,
            empty_reason_ordinals as nat,
        ) <= usize::MAX,
        r is Err ==> r->Err_0 is ResourceCountOverflow,
{
    proof {
        lemma_word_at_least_one();
    }
    let word = core::mem::size_of::<usize>();
    let vec_header = core::mem::size_of::<Vec<usize>>();
    let box_header = core::mem::size_of::<Box<[usize]>>();
    let clause_header_bytes = if vec_header < box_header { box_header } else { vec_header };
    let resource = "Boolean cover retained owned bytes";
    let mut total = fixed_arc_control_and_padding_bytes::<ResidualProductLocusBooleanCoverCertificate>()?;
    total = checked_add(resource, total, core::mem::size_of::<ResidualProductLocusBooleanCoverCertificate>())?;
    total = checked_add(resource, total, arc_str_allocation_byte_upper_bound(family_fingerprint_bytes)?)?;
    total = checked_add(resource, total, arc_str_allocation_byte_upper_bound(context_fingerprint_bytes)?)?;
    total = checked_add(resource, total, sector_owned_bytes)?;
    total = checked_add(resource, total, checked_mul("Boolean cover retained atoms", atoms, word)?)?;
    total = checked_add(
        resource,
        total,
        checked_mul("Boolean cover retained root clause headers", root_clauses, clause_header_bytes)?,
    )?;
    total = checked_add(resource, total, checked_mul("Boolean cover retained root literals", root_literals, word)?)?;
    total = checked_add(
        resource,
        total,
        checked_mul("Boolean cover retained root nonzero atoms", root_nonzero_atoms, word)?,
    )?;
    total = checked_add(
        resource,
        total,
        checked_mul(
            "Boolean cover retained nodes",
            nodes,
            core::mem::size_of::<ResidualProductLocusBooleanNode>(),
        )?,
    )?;
    total = checked_add(resource, total, checked_mul("Boolean cover retained path facts", path_facts, word)?)?;
    total = checked_add(resource, total, checked_mul("Boolean cover retained propagations", propagations, word)?)?;
    total = checked_add(
        resource,
        total,
        checked_mul("Boolean cover retained node clause headers", node_clauses, clause_header_bytes)?,
    )?;
    total = checked_add(resource, total, checked_mul("Boolean cover retained node literals", node_literals, word)?)?;
    total = checked_add(
        resource,
        total,
        checked_mul("Boolean cover retained empty-reason ordinals", empty_reason_ordinals, word)?,
    )?;
    Ok(total)
}

/// Bytes live while the root CNF is built: the raw clause array at its
/// reserved size, the canonical clause array, one copy of the raw literals
/// and the raw nonzero facts at their reserved size.
pub open spec fn root_build_bytes(
    initial_clause_reserve_entries: nat,
    initial_nonzero_reserve_entries: nat,
    raw_root_clauses: nat,
    raw_root_literals: nat,
    raw_root_nonzero_facts: nat,
) -> nat {
    let clause_outer = if initial_clause_reserve_entries < raw_root_clauses {
        raw_root_clauses
    } else {
        initial_clause_reserve_entries
    };
    let nonzero_entries = if initial_nonzero_reserve_entries < raw_root_nonzero_facts {
        raw_root_nonzero_facts
    } else {
        initial_nonzero_reserve_entries
    };
    clause_outer * vstd::layout::size_of::<Vec<usize>>() + raw_root_clauses * vstd::layout::size_of::<Vec<usize>>()
        + raw_root_literals * vstd::layout::size_of::<usize>() + nonzero_entries * vstd::layout::size_of::<usize>()
}

fn root_build_owned_logical_bytes_upper_bound(
    initial_clause_reserve_entries: usize,
    initial_nonzero_reserve_entries: usize,
    raw_root_clauses: usize,
    raw_root_literals: usize,
    raw_root_nonzero_facts: usize,
) -> (r: Result<usize, ResidualProductLocusBooleanCoverError>)
    ensures
        r matches Ok(v) ==> v == root_build_bytes(
            initial_clause_reserve_entries as nat,
            initial_nonzero_reserve_entries as nat,
            raw_root_clauses as nat,
            raw_root_literals as nat,
            raw_root_nonzero_facts as nat,
        ),
        r is Ok <==> root_build_bytes(
            initial_clause_reserve_entries as nat,
            initial_nonzero_reserve_entries as nat,
            raw_root_clauses as nat,
            raw_root_literals as nat,
            raw_root_nonzero_facts as nat,
        ) <= usize::MAX,
        r is Err ==> r->Err_0 is ResourceCountOverflow,
{
    let raw_clause_outer_entries = if initial_clause_reserve_entries < raw_root_clauses {
        raw_root_clauses
    } else {
        initial_clause_reserve_entries
    };
    let raw_nonzero_entries = if initial_nonzero_reserve_entries < raw_root_nonzero_facts {
        raw_root_nonzero_facts
    } else {
        initial_nonzero_reserve_entries
    };
    let resource = "Boolean cover raw root build bytes";
    let mut total = checked_mul(
        "Boolean cover raw root clause headers",
        raw_clause_outer_entries,
        core::mem::size_of::<Vec<usize>>(),
    )?;
    total = checked_add(
        resource,
        total,
        checked_mul("Boolean cover canonical root clause headers", raw_root_clauses, core::mem::size_of::<Vec<usize>>())?,
    )?;
    total = checked_add(
        resource,
        total,
        checked_mul("Boolean cover raw root literals", raw_root_literals, core::mem::size_of::<usize>())?,
    )?;
    total = checked_add(
        resource,
        total,
        checked_mul("Boolean cover raw root nonzero facts", raw_nonzero_entries, core::mem::size_of::<usize>())?,
    )?;
    Ok(total)
}

/// Peak bytes of one compilation: two retained envelopes, the root build,
/// the coordinate metadata, and the peak frontier and simplification
/// scratch, which may coexist.
pub open spec fn compilation_peak_bytes(
    retained_owned_bytes: nat,
    root_build: nat,
    atoms: nat,
    peak_frontier_bytes: nat,
    peak_simplification_scratch_bytes: nat,
) -> nat {
    2 * retained_owned_bytes + root_build + atoms * vstd::layout::size_of::<(usize, Option<(usize, i64)>)>()
        + peak_frontier_bytes + peak_simplification_scratch_bytes
}

fn compilation_owned_logical_peak_upper_bound_from_shape(
    retained_owned_bytes: usize,
    root_build: usize,
    atoms: usize,
    peak_frontier_bytes: usize,
    peak_simplification_scratch_bytes: usize,
) -> (r: Result<usize, ResidualProductLocusBooleanCoverError>)
    ensures
        r matches Ok(v) ==> v == compilation_peak_bytes(
            retained_owned_bytes as nat,
            root_build as nat,
            atoms as nat,
            peak_frontier_bytes as nat,
            peak_simplification_scratch_bytes as nat,
        ),
        r is Ok <==> compilation_peak_bytes(
            retained_owned_bytes as nat,
            root_build as nat,
            atoms as nat,
            peak_frontier_bytes as nat,
            peak_simplification_scratch_bytes as nat,
        ) <= usize::MAX,
        r is Err ==> r->Err_0 is ResourceCountOverflow,
{
    let resource = "Boolean cover compilation peak upper bound";
    let mut total = checked_mul(resource, retained_owned_bytes, 2)?;
    total = checked_add(resource, total, root_build)?;
    total = checked_add(
        resource,
        total,
        checked_mul(
            "Boolean cover compilation coordinate metadata",
            atoms,
            core::mem::size_of::<(usize, Option<(usize, i64)>)>(),
        )?,
    )?;
    total = checked_add(resource, total, peak_frontier_bytes)?;
    total = checked_add(resource, total, peak_simplification_scratch_bytes)?;
    Ok(total)
}

/// Path facts retained by one node.
pub open spec fn node_path_facts(n: ResidualProductLocusBooleanNode) -> nat {
    n.equal_zero_atoms@.len() + n.nonzero_atoms@.len()
}

/// Propagation entries retained by one node.
pub open spec fn node_propagations(n: ResidualProductLocusBooleanNode) -> nat {
    n.propagated_zero_atoms@.len()
}

/// Residual clauses retained by one node.
pub open spec fn node_clause_count(n: ResidualProductLocusBooleanNode) -> nat {
    n.remaining_clauses@.len()
}

/// Residual literals retained by one node.
pub open spec fn node_literal_count(n: ResidualProductLocusBooleanNode) -> nat {
    literal_count(n.remaining_clauses@)
}

/// Atom ordinals owned by one node's exhausted-clause witness.
pub open spec fn node_empty_ordinals(n: ResidualProductLocusBooleanNode) -> nat {
    match n.outcome {
        ResidualProductLocusBooleanNodeOutcome::ProvedEmpty(
            ResidualProductLocusBooleanEmptyReason::ExhaustedClause { atom_locus_ordinals },
        ) => atom_locus_ordinals@.len(),
        _ => 0,
    }
}

pub open spec fn node_path_facts_of() -> spec_fn(ResidualProductLocusBooleanNode) -> nat {
    |n: ResidualProductLocusBooleanNode| node_path_facts(n)
}

pub open spec fn node_propagations_of() -> spec_fn(ResidualProductLocusBooleanNode) -> nat {
    |n: ResidualProductLocusBooleanNode| node_propagations(n)
}

pub open spec fn node_clause_count_of() -> spec_fn(ResidualProductLocusBooleanNode) -> nat {
    |n: ResidualProductLocusBooleanNode| node_clause_count(n)
}

pub open spec fn node_literal_count_of() -> spec_fn(ResidualProductLocusBooleanNode) -> nat {
    |n: ResidualProductLocusBooleanNode| node_literal_count(n)
}

pub open spec fn node_empty_ordinals_of() -> spec_fn(ResidualProductLocusBooleanNode) -> nat {
    |n: ResidualProductLocusBooleanNode| node_empty_ordinals(n)
}

/// Sum of `f` over `nodes`.
pub open spec fn nodes_total(nodes: Seq<ResidualProductLocusBooleanNode>, f: spec_fn(ResidualProductLocusBooleanNode) -> nat) -> nat
    decreases nodes.len(),
{
    if nodes.len() == 0 {
        0
    } else {
        nodes_total(nodes.drop_last(), f) + f(nodes.last())
    }
}

pub proof fn lemma_nodes_total_step(
    nodes: Seq<ResidualProductLocusBooleanNode>,
    f: spec_fn(ResidualProductLocusBooleanNode) -> nat,
    i: int,
)
    requires
        0 <= i < nodes.len(),
    ensures
        nodes_total(nodes.take(i + 1), f) == nodes_total(nodes.take(i), f) + f(nodes[i]),
{
    assert(nodes.take(i + 1).drop_last() =~= nodes.take(i));
}

pub proof fn lemma_nodes_total_mono(
    nodes: Seq<ResidualProductLocusBooleanNode>,
    f: spec_fn(ResidualProductLocusBooleanNode) -> nat,
    i: int,
    n: int,
)
    requires
        0 <= i <= n <= nodes.len(),
    ensures
        nodes_total(nodes.take(i), f) <= nodes_total(nodes.take(n), f),
    decreases n - i,
{
    if i < n {
        lemma_nodes_total_mono(nodes, f, i, n - 1);
        lemma_nodes_total_step(nodes, f, n - 1);
    }
}

/// Every outer and cumulative shape of `c` within its own limits.
pub open spec fn cover_shape_within_limits(c: ResidualProductLocusBooleanCoverCertificate) -> bool {
    let l = c.limits;
    &&& byte_len(c.family_fingerprint@) <= l.max_family_fingerprint_bytes
    &&& byte_len(c.context_fingerprint@) <= l.max_context_fingerprint_bytes
    &&& c.sector.spec_active().len() <= l.max_sector_arity
    &&& c.atoms@.len() <= l.max_atoms
    &&& c.root_clauses@.len() <= l.max_root_clauses
    &&& c.root_nonzero_atoms@.len() <= l.max_root_nonzero_facts
    &&& c.nodes@.len() <= l.max_dpll_nodes
    &&& literal_count(c.root_clauses@) <= l.max_root_literals
    &&& nodes_total(c.nodes@, node_path_facts_of()) <= l.max_path_facts
    &&& nodes_total(c.nodes@, node_propagations_of()) <= l.max_retained_propagation_entries
    &&& nodes_total(c.nodes@, node_clause_count_of()) <= l.max_retained_node_clauses
    &&& nodes_total(c.nodes@, node_literal_count_of()) <= l.max_retained_node_literals
    &&& nodes_total(c.nodes@, node_empty_ordinals_of()) <= l.max_retained_empty_reason_ordinals
}

/// Retained owned bytes of the shape of `c`.
pub open spec fn cover_retained_bytes(c: ResidualProductLocusBooleanCoverCertificate) -> nat {
    retained_bytes_of_shape(
        byte_len(c.family_fingerprint@) as nat,
        byte_len(c.context_fingerprint@) as nat,
        c.sector.spec_active().len() * vstd::layout::size_of::<bool>(),
        c.atoms@.len(),
        c.root_clauses@.len(),
        literal_count(c.root_clauses@),
        c.root_nonzero_atoms@.len(),
        c.nodes@.len(),
        nodes_total(c.nodes@, node_path_facts_of()),
        nodes_total(c.nodes@, node_propagations_of()),
        nodes_total(c.nodes@, node_clause_count_of()),
        nodes_total(c.nodes@, node_literal_count_of()),
        nodes_total(c.nodes@, node_empty_ordinals_of()),
    )
}

/// Retained owned bytes of `certificate`, after checking every outer and
/// cumulative shape against its limits.
fn cover_retained_owned_logical_bytes_upper_bound(
    certificate: &ResidualProductLocusBooleanCoverCertificate,
) -> (r: Result<usize, ResidualProductLocusBooleanCoverError>)
    ensures
        r is Ok <==> cover_shape_within_limits(*certificate) && cover_retained_bytes(*certificate) <= usize::MAX,
        r matches Ok(v) ==> v == cover_retained_bytes(*certificate),
{
    let ghost shape_ok = cover_shape_within_limits(*certificate);
    let ghost nodes = certificate.nodes@;
    proof {
        assert(certificate.root_clauses@.subrange(0, certificate.root_clauses@.len() as int) =~= certificate.root_clauses@);
        assert(nodes.take(nodes.len() as int) =~= nodes);
        assert(nodes.take(0) =~= Seq::<ResidualProductLocusBooleanNode>::empty());
    }
    let limits = certificate.limits;
    check_limit("family fingerprint bytes", certificate.family_fingerprint.as_str().len(), limits.max_family_fingerprint_bytes)?;
    check_limit(
        "context fingerprint bytes",
        certificate.context_fingerprint.as_str().len(),
        limits.max_context_fingerprint_bytes,
    )?;
    check_limit("Boolean cover sector arity", certificate.sector.arity(), limits.max_sector_arity)?;
    check_limit("Boolean atoms", certificate.atoms.len(), limits.max_atoms)?;
    check_limit("root clauses", certificate.root_clauses.len(), limits.max_root_clauses)?;
    check_limit("root nonzero facts", certificate.root_nonzero_atoms.len(), limits.max_root_nonzero_facts)?;
    check_limit("DPLL nodes", certificate.nodes.len(), limits.max_dpll_nodes)?;
    let mut root_literals: usize = 0;
    let mut c: usize = 0;
    while c < certificate.root_clauses.len()
        invariant
            c <= certificate.root_clauses@.len(),
            limits == certificate.limits,
            shape_ok == cover_shape_within_limits(*certificate),
            nodes == certificate.nodes@,
            byte_len(certificate.family_fingerprint@) <= limits.max_family_fingerprint_bytes,
            byte_len(certificate.context_fingerprint@) <= limits.max_context_fingerprint_bytes,
            certificate.sector.spec_active().len() <= limits.max_sector_arity,
            certificate.atoms@.len() <= limits.max_atoms,
            certificate.root_clauses@.len() <= limits.max_root_clauses,
            certificate.root_nonzero_atoms@.len() <= limits.max_root_nonzero_facts,
            certificate.nodes@.len() <= limits.max_dpll_nodes,
            certificate.root_clauses@.subrange(0, certificate.root_clauses@.len() as int) == certificate.root_clauses@,
            root_literals == literal_count(certificate.root_clauses@.subrange(0, c as int)),
            root_literals <= limits.max_root_literals,
        decreases certificate.root_clauses@.len() - c,
    {
        proof {
            assert(certificate.root_clauses@.subrange(0, c + 1).drop_last() =~= certificate.root_clauses@.subrange(0, c as int));
            lemma_literal_count_prefix(certificate.root_clauses@, c + 1, certificate.root_clauses@.len() as int);
        }
        root_literals = checked_add("Boolean cover retained root literals", root_literals, certificate.root_clauses[c].len())?;
        check_limit("root literals", root_literals, limits.max_root_literals)?;
        c = c + 1;
    }
    let mut path_facts: usize = 0;
    let mut propagations: usize = 0;
    let mut node_clauses: usize = 0;
    let mut node_literals: usize = 0;
    let mut empty_reason_ordinals: usize = 0;
    let mut n: usize = 0;
    while n < certificate.nodes.len()
        invariant
            n <= certificate.nodes@.len(),
            limits == certificate.limits,
            shape_ok == cover_shape_within_limits(*certificate),
            nodes == certificate.nodes@,
            byte_len(certificate.family_fingerprint@) <= limits.max_family_fingerprint_bytes,
            byte_len(certificate.context_fingerprint@) <= limits.max_context_fingerprint_bytes,
            certificate.sector.spec_active().len() <= limits.max_sector_arity,
            certificate.atoms@.len() <= limits.max_atoms,
            certificate.root_clauses@.len() <= limits.max_root_clauses,
            certificate.root_nonzero_atoms@.len() <= limits.max_root_nonzero_facts,
            certificate.nodes@.len() <= limits.max_dpll_nodes,
            nodes.take(nodes.len() as int) == nodes,
            root_literals == literal_count(certificate.root_clauses@),
            root_literals <= limits.max_root_literals,
            path_facts == nodes_total(nodes.take(n as int), node_path_facts_of()),
            propagations == nodes_total(nodes.take(n as int), node_propagations_of()),
            node_clauses == nodes_total(nodes.take(n as int), node_clause_count_of()),
            node_literals == nodes_total(nodes.take(n as int), node_literal_count_of()),
            empty_reason_ordinals == nodes_total(nodes.take(n as int), node_empty_ordinals_of()),
            path_facts <= limits.max_path_facts,
            propagations <= limits.max_retained_propagation_entries,
            node_clauses <= limits.max_retained_node_clauses,
            node_literals <= limits.max_retained_node_literals,
            empty_reason_ordinals <= limits.max_retained_empty_reason_ordinals,
        decreases certificate.nodes@.len() - n,
    {
        proof {
            lemma_nodes_total_step(nodes, node_path_facts_of(), n as int);
            lemma_nodes_total_step(nodes, node_propagations_of(), n as int);
            lemma_nodes_total_step(nodes, node_clause_count_of(), n as int);
            lemma_nodes_total_step(nodes, node_literal_count_of(), n as int);
            lemma_nodes_total_step(nodes, node_empty_ordinals_of(), n as int);
            lemma_nodes_total_mono(nodes, node_path_facts_of(), n + 1, nodes.len() as int);
            lemma_nodes_total_mono(nodes, node_propagations_of(), n + 1, nodes.len() as int);
            lemma_nodes_total_mono(nodes, node_clause_count_of(), n + 1, nodes.len() as int);
            lemma_nodes_total_mono(nodes, node_literal_count_of(), n + 1, nodes.len() as int);
            lemma_nodes_total_mono(nodes, node_empty_ordinals_of(), n + 1, nodes.len() as int);
        }
        let node = &certificate.nodes[n];
        let ghost lit_before: nat = node_literals as nat;
        path_facts = checked_add(
            "Boolean cover retained path facts",
            path_facts,
            checked_add("Boolean cover retained path facts", node.equal_zero_atoms.len(), node.nonzero_atoms.len())?,
        )?;
        check_limit("path facts", path_facts, limits.max_path_facts)?;
        propagations = checked_add("Boolean cover retained propagations", propagations, node.propagated_zero_atoms.len())?;
        check_limit("retained propagation entries", propagations, limits.max_retained_propagation_entries)?;
        node_clauses = checked_add("Boolean cover retained node clauses", node_clauses, node.remaining_clauses.len())?;
        check_limit("retained node clauses", node_clauses, limits.max_retained_node_clauses)?;
        let mut k: usize = 0;
        proof {
            assert(node.remaining_clauses@.subrange(0, node.remaining_clauses@.len() as int) =~= node.remaining_clauses@);
        }
        while k < node.remaining_clauses.len()
            invariant
                k <= node.remaining_clauses@.len(),
                node == &certificate.nodes@[n as int],
                n < certificate.nodes@.len(),
            limits == certificate.limits,
            shape_ok == cover_shape_within_limits(*certificate),
            nodes == certificate.nodes@,
            byte_len(certificate.family_fingerprint@) <= limits.max_family_fingerprint_bytes,
            byte_len(certificate.context_fingerprint@) <= limits.max_context_fingerprint_bytes,
            certificate.sector.spec_active().len() <= limits.max_sector_arity,
            certificate.atoms@.len() <= limits.max_atoms,
            certificate.root_clauses@.len() <= limits.max_root_clauses,
            certificate.root_nonzero_atoms@.len() <= limits.max_root_nonzero_facts,
            certificate.nodes@.len() <= limits.max_dpll_nodes,
                node.remaining_clauses@.subrange(0, node.remaining_clauses@.len() as int) == node.remaining_clauses@,
                lit_before == nodes_total(nodes.take(n as int), node_literal_count_of()),
                lit_before + node_literal_count(nodes[n as int]) == nodes_total(nodes.take(n + 1), node_literal_count_of()),
                nodes_total(nodes.take(n + 1), node_literal_count_of()) <= nodes_total(nodes, node_literal_count_of()),
                node_literals == lit_before + literal_count(node.remaining_clauses@.subrange(0, k as int)),
                node_literals <= limits.max_retained_node_literals,
            decreases node.remaining_clauses@.len() - k,
        {
            proof {
                assert(node.remaining_clauses@.subrange(0, k + 1).drop_last() =~= node.remaining_clauses@.subrange(0, k as int));
                lemma_literal_count_prefix(node.remaining_clauses@, k + 1, node.remaining_clauses@.len() as int);
            }
            node_literals = checked_add("Boolean cover retained node literals", node_literals, node.remaining_clauses[k].len())?;
            check_limit("retained node literals", node_literals, limits.max_retained_node_literals)?;
            k = k + 1;
        }
        if let ResidualProductLocusBooleanNodeOutcome::ProvedEmpty(
            ResidualProductLocusBooleanEmptyReason::ExhaustedClause { atom_locus_ordinals },
        ) = &node.outcome {
            empty_reason_ordinals = checked_add(
                "Boolean cover retained empty-reason ordinals",
                empty_reason_ordinals,
                atom_locus_ordinals.len(),
            )?;
            check_limit("retained empty-reason ordinals", empty_reason_ordinals, limits.max_retained_empty_reason_ordinals)?;
        }
        n = n + 1;
    }
    proof {
        broadcast use vstd::layout::layout_of_primitives;

        assert(vstd::layout::size_of::<bool>() == 1);
    }
    let sector_owned_bytes = match certificate.sector.owned_retained_byte_bound() {
        Some(bytes) => bytes,
        None => {
            return Err(
                ResidualProductLocusBooleanCoverError::ResourceCountOverflow { resource: "Boolean cover retained sector bytes" },
            );
        },
    };
    cover_retained_owned_logical_bytes_upper_bound_from_shape(
        certificate.family_fingerprint.as_str().len(),
        certificate.context_fingerprint.as_str().len(),
        sector_owned_bytes,
        certificate.atoms.len(),
        certificate.root_clauses.len(),
        root_literals,
        certificate.root_nonzero_atoms.len(),
        certificate.nodes.len(),
        path_facts,
        propagations,
        node_clauses,
        node_literals,
        empty_reason_ordinals,
    )
}

/// Root build bytes of a raw transient census.
pub open spec fn transient_root_build_bytes(transient: ResidualProductLocusBooleanRawTransientCensus) -> nat {
    root_build_bytes(
        transient.initial_clause_reserve_entries as nat,
        transient.initial_nonzero_reserve_entries as nat,
        transient.raw_root_clauses as nat,
        transient.raw_root_literals as nat,
        transient.raw_root_nonzero_facts as nat,
    )
}

/// Compilation peak bytes of `c` built through `transient`.
pub open spec fn cover_peak_bytes(
    c: ResidualProductLocusBooleanCoverCertificate,
    transient: ResidualProductLocusBooleanRawTransientCensus,
) -> nat {
    compilation_peak_bytes(
        cover_retained_bytes(c),
        transient_root_build_bytes(transient),
        c.atoms@.len(),
        c.stats.peak_frontier_bytes as nat,
        c.stats.peak_simplification_scratch_bytes as nat,
    )
}

fn cover_compilation_owned_logical_peak_upper_bound(
    certificate: &ResidualProductLocusBooleanCoverCertificate,
    transient: ResidualProductLocusBooleanRawTransientCensus,
) -> (r: Result<usize, ResidualProductLocusBooleanCoverError>)
    ensures
        r is Ok <==> transient_root_build_bytes(transient) <= usize::MAX && cover_shape_within_limits(*certificate)
            && cover_retained_bytes(*certificate) <= usize::MAX && cover_peak_bytes(*certificate, transient) <= usize::MAX,
        r matches Ok(v) ==> v == cover_peak_bytes(*certificate, transient),
{
    let root_build = root_build_owned_logical_bytes_upper_bound(
        transient.initial_clause_reserve_entries,
        transient.initial_nonzero_reserve_entries,
        transient.raw_root_clauses,
        transient.raw_root_literals,
        transient.raw_root_nonzero_facts,
    )?;
    compilation_owned_logical_peak_upper_bound_from_shape(
        cover_retained_owned_logical_bytes_upper_bound(certificate)?,
        root_build,
        certificate.atoms.len(),
        certificate.stats.peak_frontier_bytes,
        certificate.stats.peak_simplification_scratch_bytes,
    )
}

/// Preflight memory bounds of a cover not yet built, from the limits alone.
#[derive(Clone, Copy, Debug, PartialEq, Eq, Structural)]
pub struct ResidualProductLocusBooleanMemoryEnvelope {
    pub retained_owned_logical_bytes_upper_bound: usize,
    pub compilation_owned_logical_peak_upper_bound: usize,
}

impl ResidualProductLocusBooleanMemoryEnvelope {
    pub fn retained_owned_logical_bytes_upper_bound(self) -> (r: usize)
        ensures
            r == self.retained_owned_logical_bytes_upper_bound,
    {
        self.retained_owned_logical_bytes_upper_bound
    }

    pub fn compilation_owned_logical_peak_upper_bound(self) -> (r: usize)
        ensures
            r == self.compilation_owned_logical_peak_upper_bound,
    {
        self.compilation_owned_logical_peak_upper_bound
    }
}

/// Retained bytes of the largest cover the limits admit.
pub open spec fn limits_retained_bytes(limits: ResidualProductLocusBooleanCoverLimits) -> nat {
    retained_bytes_of_shape(
        limits.max_family_fingerprint_bytes as nat,
        limits.max_context_fingerprint_bytes as nat,
        (limits.max_sector_arity as nat) * vstd::layout::size_of::<bool>(),
        limits.max_atoms as nat,
        limits.max_root_clauses as nat,
        limits.max_root_literals as nat,
        limits.max_root_nonzero_facts as nat,
        limits.max_dpll_nodes as nat,
        limits.max_path_facts as nat,
        limits.max_retained_propagation_entries as nat,
        limits.max_retained_node_clauses as nat,
        limits.max_retained_node_literals as nat,
        limits.max_retained_empty_reason_ordinals as nat,
    )
}

/// Root build bytes of the largest root CNF the limits admit.
pub open spec fn limits_root_build_bytes(limits: ResidualProductLocusBooleanCoverLimits) -> nat {
    root_build_bytes(
        (if limits.max_source_predicates < limits.max_root_clauses {
            limits.max_source_predicates
        } else {
            limits.max_root_clauses
        }) as nat,
        (if limits.max_source_predicates < limits.max_root_nonzero_facts {
            limits.max_source_predicates
        } else {
            limits.max_root_nonzero_facts
        }) as nat,
        limits.max_root_clauses as nat,
        limits.max_root_literals as nat,
        limits.max_root_nonzero_facts as nat,
    )
}

/// Compilation peak bytes of the largest cover the limits admit.
pub open spec fn limits_peak_bytes(limits: ResidualProductLocusBooleanCoverLimits) -> nat {
    compilation_peak_bytes(
        limits_retained_bytes(limits),
        limits_root_build_bytes(limits),
        limits.max_atoms as nat,
        limits.max_peak_frontier_bytes as nat,
        limits.max_peak_simplification_scratch_bytes as nat,
    )
}

/// Memory envelope of any cover the limits admit: every shape coordinate
/// taken at its hard limit.
pub fn residual_product_locus_boolean_memory_envelope_from_limits(
    limits: ResidualProductLocusBooleanCoverLimits,
) -> (r: Result<ResidualProductLocusBooleanMemoryEnvelope, ResidualProductLocusBooleanCoverError>)
    ensures
        r is Ok <==> limits_retained_bytes(limits) <= usize::MAX && limits_root_build_bytes(limits) <= usize::MAX
            && limits_peak_bytes(limits) <= usize::MAX,
        r matches Ok(envelope) ==> envelope.retained_owned_logical_bytes_upper_bound == limits_retained_bytes(limits)
            && envelope.compilation_owned_logical_peak_upper_bound == limits_peak_bytes(limits),
        r is Err ==> r->Err_0 is ResourceCountOverflow,
{
    proof {
        broadcast use vstd::layout::layout_of_primitives;

        assert(vstd::layout::size_of::<bool>() == 1);
    }
    let sector_owned_bytes = checked_mul("Boolean cover retained sector bytes", limits.max_sector_arity, core::mem::size_of::<bool>())?;
    let retained = cover_retained_owned_logical_bytes_upper_bound_from_shape(
        limits.max_family_fingerprint_bytes,
        limits.max_context_fingerprint_bytes,
        sector_owned_bytes,
        limits.max_atoms,
        limits.max_root_clauses,
        limits.max_root_literals,
        limits.max_root_nonzero_facts,
        limits.max_dpll_nodes,
        limits.max_path_facts,
        limits.max_retained_propagation_entries,
        limits.max_retained_node_clauses,
        limits.max_retained_node_literals,
        limits.max_retained_empty_reason_ordinals,
    )?;
    let clause_reserve = if limits.max_source_predicates < limits.max_root_clauses {
        limits.max_source_predicates
    } else {
        limits.max_root_clauses
    };
    let nonzero_reserve = if limits.max_source_predicates < limits.max_root_nonzero_facts {
        limits.max_source_predicates
    } else {
        limits.max_root_nonzero_facts
    };
    let root_build = root_build_owned_logical_bytes_upper_bound(
        clause_reserve,
        nonzero_reserve,
        limits.max_root_clauses,
        limits.max_root_literals,
        limits.max_root_nonzero_facts,
    )?;
    let peak = compilation_owned_logical_peak_upper_bound_from_shape(
        retained,
        root_build,
        limits.max_atoms,
        limits.max_peak_frontier_bytes,
        limits.max_peak_simplification_scratch_bytes,
    )?;
    Ok(ResidualProductLocusBooleanMemoryEnvelope {
        retained_owned_logical_bytes_upper_bound: retained,
        compilation_owned_logical_peak_upper_bound: peak,
    })
}

impl ResidualProductLocusBooleanCoverCertificate {
    /// Retained owned bytes of this cover's shape.
    pub fn recompute_retained_owned_logical_bytes_upper_bound(&self) -> (r: Result<
        usize,
        ResidualProductLocusBooleanCoverError,
    >)
        ensures
            r is Ok <==> cover_shape_within_limits(*self) && cover_retained_bytes(*self) <= usize::MAX,
            r matches Ok(v) ==> v == cover_retained_bytes(*self),
    {
        cover_retained_owned_logical_bytes_upper_bound(self)
    }

    /// Comparison units and bytes of this cover's own payload.
    pub fn recompute_payload_comparison_census(&self) -> (r: Result<(usize, usize), ResidualProductLocusBooleanCoverError>)
        ensures
            r matches Ok((units, bytes)) ==> units <= self.limits.max_payload_comparison_units && bytes
                <= self.limits.max_payload_comparison_bytes,
            r is Ok <==> census_within(*self, self.limits),
            r matches Ok((units, bytes)) ==> units == census_units(*self) && bytes == census_bytes(*self),
    {
        cover_owned_payload_comparison_census(self, self.limits)
    }
}

// ---------------------------------------------------------------------------
// Replay sessions.
// ---------------------------------------------------------------------------

/// Proof that one queue allocation belongs to a family and context; covers
/// of its work items are compiled at authenticated case positions.
pub struct ResidualProductLocusBooleanReplaySession<'scope> {
    family: &'scope str,
    context: &'scope ParametricCoefficientContext,
    queue: &'scope Arc<GeneratedSectorLiveLeafQueueCertificate>,
}

/// A cover with its retained and compilation-peak memory bounds.
pub struct ResidualProductLocusBooleanV2Compilation {
    pub certificate: ResidualProductLocusBooleanCoverCertificate,
    pub retained_owned_logical_bytes_upper_bound: usize,
    pub compilation_owned_logical_peak_upper_bound: usize,
}

impl ResidualProductLocusBooleanV2Compilation {
    pub fn into_parts(self) -> (r: (ResidualProductLocusBooleanCoverCertificate, usize, usize))
        ensures
            r == (self.certificate, self.retained_owned_logical_bytes_upper_bound, self.compilation_owned_logical_peak_upper_bound),
    {
        (self.certificate, self.retained_owned_logical_bytes_upper_bound, self.compilation_owned_logical_peak_upper_bound)
    }
}

impl<'scope> ResidualProductLocusBooleanReplaySession<'scope> {
    pub closed spec fn spec_family(&self) -> Seq<char> {
        self.family@
    }

    pub closed spec fn spec_context(&self) -> ParametricCoefficientContext {
        *self.context
    }

    pub closed spec fn spec_queue(&self) -> GeneratedSectorLiveLeafQueueCertificate {
        **self.queue
    }

    /// Replays `queue` for `family` and `context` and binds the three.
    pub fn replay(
        family: &'scope str,
        context: &'scope ParametricCoefficientContext,
        queue: &'scope Arc<GeneratedSectorLiveLeafQueueCertificate>,
    ) -> (r: Result<Self, GeneratedSectorLiveLeafQueueError>)
        ensures
            r is Ok <==> queue.family_fingerprint@ == family@ && queue.context_fingerprint@ == context.fingerprint@,
            r matches Ok(session) ==> session.spec_family() == family@ && session.spec_context() == *context
                && session.spec_queue() == **queue,
    {
        queue.replay(family, context)?;
        Ok(ResidualProductLocusBooleanReplaySession { family, context, queue })
    }

    /// Whether `queue` is the very allocation this session replayed.
    pub fn authenticates_queue(&self, queue: &Arc<GeneratedSectorLiveLeafQueueCertificate>) -> (r: bool)
        ensures
            r ==> **queue == self.spec_queue(),
    {
        same_allocation(self.queue, queue)
    }

    pub fn family_fingerprint(&self) -> (r: &str)
        ensures
            r@ == self.spec_family(),
    {
        self.family
    }

    pub fn context_fingerprint(&self) -> (r: &str)
        ensures
            r@ == self.spec_context().fingerprint@,
    {
        self.context.fingerprint.as_str()
    }

    /// Compiles work item `source_work_item_ordinal` with its case at
    /// `source_case_position` of the replayed queue.
    pub fn compile_replayed_at_case_position(
        &self,
        source_work_item_ordinal: usize,
        source_case_position: usize,
        limits: ResidualProductLocusBooleanCoverLimits,
    ) -> (r: Result<ResidualProductLocusBooleanCoverCertificate, ResidualProductLocusBooleanCoverError>)
        ensures
            r matches Ok(cover) ==> compiled_from(
                cover,
                self.spec_family(),
                self.spec_context(),
                self.spec_queue(),
                source_work_item_ordinal,
                limits,
            ) && case_covered(cover, self.spec_queue(), source_case_position as int),
    {
        match compile_replayed_inner(
            self.family,
            self.context,
            share(self.queue),
            source_work_item_ordinal,
            Some(source_case_position),
            limits,
        ) {
            Ok((certificate, _census)) => Ok(certificate),
            Err(error) => Err(error),
        }
    }

    /// As `compile_replayed_at_case_position`, with the cover's retained and
    /// compilation-peak memory bounds.
    pub fn compile_replayed_at_case_position_with_census(
        &self,
        source_work_item_ordinal: usize,
        source_case_position: usize,
        limits: ResidualProductLocusBooleanCoverLimits,
    ) -> (r: Result<ResidualProductLocusBooleanV2Compilation, ResidualProductLocusBooleanCoverError>)
        ensures
            r matches Ok(compiled) ==> compiled_from(
                compiled.certificate,
                self.spec_family(),
                self.spec_context(),
                self.spec_queue(),
                source_work_item_ordinal,
                limits,
            ) && case_covered(compiled.certificate, self.spec_queue(), source_case_position as int),
    {
        let (certificate, census) = compile_replayed_inner(
            self.family,
            self.context,
            share(self.queue),
            source_work_item_ordinal,
            Some(source_case_position),
            limits,
        )?;
        let retained = cover_retained_owned_logical_bytes_upper_bound(&certificate)?;
        let peak = cover_compilation_owned_logical_peak_upper_bound(&certificate, census)?;
        Ok(ResidualProductLocusBooleanV2Compilation {
            certificate,
            retained_owned_logical_bytes_upper_bound: retained,
            compilation_owned_logical_peak_upper_bound: peak,
        })
    }
}

} // verus!
