//! Bounded lazy residual paths over authenticated sector-coverage MTBDDs.
//!
//! The cursor owns one shared reference to a stage-1 coverage certificate
//! and walks its rooted decision DAG depth first, nonzero branch before
//! equal-zero branch.  It retains only the current root-to-reference
//! frontier: no visited set, no leaf partition and no list of paths.  Each
//! call yields the next root-to-terminal path that ends in a residual
//! (uncovered or unsupported) terminal accepted by the cursor's request.

use std::sync::Arc;
use vstd::prelude::*;
use crate::coverage_decision_dag::{CoverageDecisionNode, CoverageDecisionRef, arena_wf, eval_ref, node_wf, ref_below, ref_rank};
use crate::parametric_elimination::text_eq;
use crate::parametric_sector_mtbdd::{
    DispositionView, ParametricSectorMtbddAtom, ParametricSectorMtbddDisposition, ParametricSectorMtbddTerminalPayload,
    PayloadView, atoms_in_range, dense_assignment, reference_view, view_decides,
};
use crate::parametric_sector_mtbdd_certificate::{
    PARAMETRIC_SECTOR_MTBDD_COVERAGE_V5_STAGE1_SCHEMA, ParametricSectorMtbddCoverageCertificate,
    ParametricSectorMtbddCoverageError,
};
use crate::product_locus_boolean_cover::{same_allocation, share};

verus! {

pub const PARAMETRIC_SECTOR_RESIDUAL_PATH_CURSOR_V1_SCHEMA: &'static str = "rustred-parametric-sector-residual-path-cursor-v1";

pub const PARAMETRIC_SECTOR_RESIDUAL_PATH_V1_SCHEMA: &'static str = "rustred-parametric-sector-residual-path-v1";

pub const PARAMETRIC_SECTOR_RESIDUAL_PATH_BRANCH_ORDER_V1: &'static str =
    "rustred-parametric-sector-residual-path-nonzero-before-equal-zero-v1";

/// Residual terminal requested by one lazy lookup.
#[derive(Clone, Copy, Debug, PartialEq, Eq, Hash, Structural)]
pub enum ParametricSectorResidualPathRequest {
    AnyResidual,
    Uncovered,
    Unsupported,
}

#[derive(Clone, Copy, Debug, PartialEq, Eq, Hash, Structural)]
pub enum ParametricSectorResidualPathTerminalKind {
    Uncovered,
    Unsupported,
}

pub open spec fn request_accepts(
    request: ParametricSectorResidualPathRequest,
    kind: ParametricSectorResidualPathTerminalKind,
) -> bool {
    match request {
        ParametricSectorResidualPathRequest::AnyResidual => true,
        ParametricSectorResidualPathRequest::Uncovered => kind is Uncovered,
        ParametricSectorResidualPathRequest::Unsupported => kind is Unsupported,
    }
}

impl ParametricSectorResidualPathRequest {
    pub fn accepts(self, terminal: ParametricSectorResidualPathTerminalKind) -> (r: bool)
        ensures
            r == request_accepts(self, terminal),
    {
        match self {
            ParametricSectorResidualPathRequest::AnyResidual => true,
            ParametricSectorResidualPathRequest::Uncovered => matches!(terminal, ParametricSectorResidualPathTerminalKind::Uncovered),
            ParametricSectorResidualPathRequest::Unsupported => matches!(terminal, ParametricSectorResidualPathTerminalKind::Unsupported),
        }
    }
}

/// Exact truth value of one base structural locus on a residual path: a
/// false edge means that the locus polynomial is nonzero, a true edge that
/// it vanishes.
#[derive(Clone, Copy, Debug, PartialEq, Eq, Hash, Structural)]
pub enum ParametricSectorResidualPathPolarity {
    NonZero,
    EqualZero,
}

/// Complete provenance of one branch on a path.
#[derive(Clone, Copy, Debug, PartialEq, Eq, Hash, Structural)]
pub struct ParametricSectorResidualPathDecision {
    pub node_ordinal: usize,
    pub atom_ordinal: usize,
    pub structural_locus_ordinal: usize,
    pub polarity: ParametricSectorResidualPathPolarity,
}

impl ParametricSectorResidualPathDecision {
    pub fn node_ordinal(self) -> (r: usize)
        ensures
            r == self.node_ordinal,
    {
        self.node_ordinal
    }

    pub fn atom_ordinal(self) -> (r: usize)
        ensures
            r == self.atom_ordinal,
    {
        self.atom_ordinal
    }

    pub fn structural_locus_ordinal(self) -> (r: usize)
        ensures
            r == self.structural_locus_ordinal,
    {
        self.structural_locus_ordinal
    }

    pub fn polarity(self) -> (r: ParametricSectorResidualPathPolarity)
        ensures
            r == self.polarity,
    {
        self.polarity
    }
}

/// Independent resource envelope for the traversal and the one retained
/// path.
#[derive(Clone, Copy, Debug, PartialEq, Eq, Structural)]
pub struct ParametricSectorResidualPathLimits {
    pub max_reference_visits: usize,
    pub max_node_visits: usize,
    pub max_terminal_visits: usize,
    pub max_branch_traversals: usize,
    pub max_backtracks: usize,
    pub max_depth: usize,
    pub max_frontier_capacity_entries: usize,
    pub max_cursor_retained_bytes: usize,
    pub max_descending_terminals_skipped: usize,
    pub max_filtered_residual_terminals: usize,
    pub max_paths_yielded: usize,
    pub max_total_path_decisions_copied: usize,
    pub max_path_decisions: usize,
    pub max_path_retained_bytes: usize,
    pub max_unsupported_candidate_references: usize,
}

impl Default for ParametricSectorResidualPathLimits {
    fn default() -> (r: Self)
        ensures
            r.max_reference_visits == 256_000_000,
            r.max_depth == 16_000_000,
            r.max_cursor_retained_bytes == 1024 * 1024 * 1024,
    {
        ParametricSectorResidualPathLimits {
            max_reference_visits: 256_000_000,
            max_node_visits: 256_000_000,
            max_terminal_visits: 256_000_000,
            max_branch_traversals: 256_000_000,
            max_backtracks: 256_000_000,
            max_depth: 16_000_000,
            max_frontier_capacity_entries: 16_000_000,
            max_cursor_retained_bytes: 1024 * 1024 * 1024,
            max_descending_terminals_skipped: 16_000_000,
            max_filtered_residual_terminals: 16_000_000,
            max_paths_yielded: 16_000_000,
            max_total_path_decisions_copied: 256_000_000,
            max_path_decisions: 16_000_000,
            max_path_retained_bytes: 1024 * 1024 * 1024,
            max_unsupported_candidate_references: 16_000_000,
        }
    }
}

/// Work and retention census of one cursor.
#[derive(Clone, Copy, Debug, PartialEq, Eq, Structural)]
pub struct ParametricSectorResidualPathCursorStats {
    pub source_references: usize,
    pub reference_visits: usize,
    pub node_visits: usize,
    pub terminal_visits: usize,
    pub branch_traversals: usize,
    pub backtracks: usize,
    pub maximum_depth: usize,
    pub peak_frontier_capacity_entries: usize,
    pub peak_cursor_retained_bytes: usize,
    pub descending_terminals_skipped: usize,
    pub uncovered_terminals_visited: usize,
    pub unsupported_terminals_visited: usize,
    pub filtered_residual_terminals: usize,
    pub paths_yielded: usize,
    pub total_path_decisions_copied: usize,
    pub structural_locus_translations: usize,
}

impl ParametricSectorResidualPathCursorStats {
    pub fn source_references(self) -> (r: usize)
        ensures
            r == self.source_references,
    {
        self.source_references
    }

    pub fn reference_visits(self) -> (r: usize)
        ensures
            r == self.reference_visits,
    {
        self.reference_visits
    }

    pub fn node_visits(self) -> (r: usize)
        ensures
            r == self.node_visits,
    {
        self.node_visits
    }

    pub fn terminal_visits(self) -> (r: usize)
        ensures
            r == self.terminal_visits,
    {
        self.terminal_visits
    }

    pub fn branch_traversals(self) -> (r: usize)
        ensures
            r == self.branch_traversals,
    {
        self.branch_traversals
    }

    pub fn backtracks(self) -> (r: usize)
        ensures
            r == self.backtracks,
    {
        self.backtracks
    }

    pub fn maximum_depth(self) -> (r: usize)
        ensures
            r == self.maximum_depth,
    {
        self.maximum_depth
    }

    pub fn peak_frontier_capacity_entries(self) -> (r: usize)
        ensures
            r == self.peak_frontier_capacity_entries,
    {
        self.peak_frontier_capacity_entries
    }

    pub fn peak_cursor_retained_bytes(self) -> (r: usize)
        ensures
            r == self.peak_cursor_retained_bytes,
    {
        self.peak_cursor_retained_bytes
    }

    pub fn descending_terminals_skipped(self) -> (r: usize)
        ensures
            r == self.descending_terminals_skipped,
    {
        self.descending_terminals_skipped
    }

    pub fn uncovered_terminals_visited(self) -> (r: usize)
        ensures
            r == self.uncovered_terminals_visited,
    {
        self.uncovered_terminals_visited
    }

    pub fn unsupported_terminals_visited(self) -> (r: usize)
        ensures
            r == self.unsupported_terminals_visited,
    {
        self.unsupported_terminals_visited
    }

    pub fn filtered_residual_terminals(self) -> (r: usize)
        ensures
            r == self.filtered_residual_terminals,
    {
        self.filtered_residual_terminals
    }

    pub fn paths_yielded(self) -> (r: usize)
        ensures
            r == self.paths_yielded,
    {
        self.paths_yielded
    }

    pub fn total_path_decisions_copied(self) -> (r: usize)
        ensures
            r == self.total_path_decisions_copied,
    {
        self.total_path_decisions_copied
    }

    pub fn structural_locus_translations(self) -> (r: usize)
        ensures
            r == self.structural_locus_translations,
    {
        self.structural_locus_translations
    }
}

/// Census of one retained path.
#[derive(Clone, Copy, Debug, PartialEq, Eq, Structural)]
pub struct ParametricSectorResidualPathStats {
    pub decisions: usize,
    pub nonzero_decisions: usize,
    pub equal_zero_decisions: usize,
    pub unsupported_candidate_references: usize,
    pub retained_path_bytes: usize,
}

impl ParametricSectorResidualPathStats {
    pub fn decisions(self) -> (r: usize)
        ensures
            r == self.decisions,
    {
        self.decisions
    }

    pub fn nonzero_decisions(self) -> (r: usize)
        ensures
            r == self.nonzero_decisions,
    {
        self.nonzero_decisions
    }

    pub fn equal_zero_decisions(self) -> (r: usize)
        ensures
            r == self.equal_zero_decisions,
    {
        self.equal_zero_decisions
    }

    pub fn unsupported_candidate_references(self) -> (r: usize)
        ensures
            r == self.unsupported_candidate_references,
    {
        self.unsupported_candidate_references
    }

    pub fn retained_path_bytes(self) -> (r: usize)
        ensures
            r == self.retained_path_bytes,
    {
        self.retained_path_bytes
    }
}

#[derive(Clone, Debug, PartialEq, Eq)]
pub enum ParametricSectorResidualPathError {
    SourceSchemaMismatch,
    SourceReplay(ParametricSectorMtbddCoverageError),
    MalformedRootCount { actual: usize },
    NodeOutOfRange { ordinal: usize, node_count: usize },
    TerminalOutOfRange { ordinal: usize, terminal_count: usize },
    AtomOutOfRange { ordinal: usize, atom_count: usize },
    StructuralLocusOutOfRange { ordinal: usize, locus_count: usize },
    SourceShapeMismatch,
    BooleanTerminalReachable,
    TerminalDispositionMismatch,
    PathReplayMismatch,
    ResourceLimit { resource: &'static str, requested: usize, limit: usize },
    ResourceCountOverflow { resource: &'static str },
    AllocationFailure { resource: &'static str, requested: usize },
    CursorPoisoned,
}

// ---------------------------------------------------------------------------
// Paths of the rooted DAG in traversal order.
// ---------------------------------------------------------------------------

/// A root-to-terminal path: its branch decisions and the terminal reached.
pub struct ResidualPathView {
    pub decisions: Seq<ParametricSectorResidualPathDecision>,
    pub terminal: nat,
}

/// The decision recorded when node `i` is left along `polarity`.
pub open spec fn decision_for(
    nodes: Seq<CoverageDecisionNode>,
    atoms: Seq<ParametricSectorMtbddAtom>,
    i: usize,
    polarity: ParametricSectorResidualPathPolarity,
) -> ParametricSectorResidualPathDecision {
    ParametricSectorResidualPathDecision {
        node_ordinal: i,
        atom_ordinal: nodes[i as int].atom,
        structural_locus_ordinal: atoms[nodes[i as int].atom as int].structural_locus_ordinal,
        polarity,
    }
}

/// Child of `n` along `polarity`: nonzero is the false edge.
pub open spec fn branch_ref(n: CoverageDecisionNode, polarity: ParametricSectorResidualPathPolarity) -> CoverageDecisionRef {
    match polarity {
        ParametricSectorResidualPathPolarity::NonZero => n.when_false,
        ParametricSectorResidualPathPolarity::EqualZero => n.when_true,
    }
}

/// `paths` with `prefix` put in front of each.
pub open spec fn prefixed(paths: Seq<ResidualPathView>, prefix: Seq<ParametricSectorResidualPathDecision>) -> Seq<
    ResidualPathView,
> {
    Seq::new(paths.len(), |k: int| ResidualPathView { decisions: prefix + paths[k].decisions, terminal: paths[k].terminal })
}

/// Every path from `r` to a terminal, nonzero branches before equal-zero
/// branches.
pub open spec fn all_paths(nodes: Seq<CoverageDecisionNode>, atoms: Seq<ParametricSectorMtbddAtom>, r: CoverageDecisionRef) -> Seq<
    ResidualPathView,
>
    decreases ref_rank(r),
{
    match r {
        CoverageDecisionRef::Terminal(t) => seq![ResidualPathView { decisions: Seq::empty(), terminal: t as nat }],
        CoverageDecisionRef::Node(i) => {
            if i < nodes.len() && ref_rank(nodes[i as int].when_false) < ref_rank(r) && ref_rank(nodes[i as int].when_true)
                < ref_rank(r) {
                prefixed(
                    all_paths(nodes, atoms, nodes[i as int].when_false),
                    seq![decision_for(nodes, atoms, i, ParametricSectorResidualPathPolarity::NonZero)],
                ) + prefixed(
                    all_paths(nodes, atoms, nodes[i as int].when_true),
                    seq![decision_for(nodes, atoms, i, ParametricSectorResidualPathPolarity::EqualZero)],
                )
            } else {
                Seq::empty()
            }
        },
    }
}

/// Reference reached from `root` by following `frontier`.
pub open spec fn path_end(nodes: Seq<CoverageDecisionNode>, root: CoverageDecisionRef, frontier: Seq<ParametricSectorResidualPathDecision>) -> CoverageDecisionRef {
    if frontier.len() == 0 {
        root
    } else {
        branch_ref(nodes[frontier.last().node_ordinal as int], frontier.last().polarity)
    }
}

/// `frontier` is a walk from `root` whose decisions name the nodes they
/// leave.
pub open spec fn path_valid(
    nodes: Seq<CoverageDecisionNode>,
    atoms: Seq<ParametricSectorMtbddAtom>,
    root: CoverageDecisionRef,
    frontier: Seq<ParametricSectorResidualPathDecision>,
) -> bool {
    forall|j: int|
        0 <= j < frontier.len() ==> {
            &&& (#[trigger] frontier[j]).node_ordinal < nodes.len()
            &&& frontier[j] == decision_for(nodes, atoms, frontier[j].node_ordinal, frontier[j].polarity)
            &&& path_end(nodes, root, frontier.take(j)) == CoverageDecisionRef::Node(frontier[j].node_ordinal)
        }
}

/// Paths still owed by the nonzero decisions of `frontier[..j]`: for each
/// of them, deepest first, every path through its equal-zero branch.
pub open spec fn pending(
    nodes: Seq<CoverageDecisionNode>,
    atoms: Seq<ParametricSectorMtbddAtom>,
    frontier: Seq<ParametricSectorResidualPathDecision>,
    j: int,
) -> Seq<ResidualPathView>
    decreases j,
{
    if j <= 0 {
        Seq::empty()
    } else {
        let d = frontier[j - 1];
        let rest = pending(nodes, atoms, frontier, j - 1);
        match d.polarity {
            ParametricSectorResidualPathPolarity::NonZero => prefixed(
                all_paths(nodes, atoms, nodes[d.node_ordinal as int].when_true),
                frontier.take(j - 1).push(decision_for(nodes, atoms, d.node_ordinal, ParametricSectorResidualPathPolarity::EqualZero)),
            ) + rest,
            ParametricSectorResidualPathPolarity::EqualZero => rest,
        }
    }
}

/// The traversal stands at `current` below `frontier`: `visited`, then
/// every path through `current`, then the pending paths, are all paths.
pub open spec fn dfs_at(
    nodes: Seq<CoverageDecisionNode>,
    atoms: Seq<ParametricSectorMtbddAtom>,
    root: CoverageDecisionRef,
    visited: Seq<ResidualPathView>,
    frontier: Seq<ParametricSectorResidualPathDecision>,
    current: CoverageDecisionRef,
) -> bool {
    visited + prefixed(all_paths(nodes, atoms, current), frontier) + pending(nodes, atoms, frontier, frontier.len() as int)
        == all_paths(nodes, atoms, root)
}

/// The traversal has just visited the terminal below `frontier`.
pub open spec fn dfs_after(
    nodes: Seq<CoverageDecisionNode>,
    atoms: Seq<ParametricSectorMtbddAtom>,
    root: CoverageDecisionRef,
    visited: Seq<ResidualPathView>,
    frontier: Seq<ParametricSectorResidualPathDecision>,
) -> bool {
    visited + pending(nodes, atoms, frontier, frontier.len() as int) == all_paths(nodes, atoms, root)
}

/// Kind of a residual disposition; descending rules have none.
pub open spec fn disposition_kind(d: ParametricSectorMtbddDisposition) -> Option<ParametricSectorResidualPathTerminalKind> {
    match d {
        ParametricSectorMtbddDisposition::DescendingRule { .. } => None,
        ParametricSectorMtbddDisposition::Uncovered => Some(ParametricSectorResidualPathTerminalKind::Uncovered),
        ParametricSectorMtbddDisposition::Unsupported { .. } => Some(ParametricSectorResidualPathTerminalKind::Unsupported),
    }
}

/// The certificate's terminal kind is the kind of the disposition its
/// terminal holds.
pub open spec fn terminal_kind_matches(c: ParametricSectorResidualPathCertificate) -> bool {
    &&& c.spec_terminal_ordinal() < source_payloads(c.spec_source()).len()
    &&& source_payloads(c.spec_source())[c.spec_terminal_ordinal() as int] matches ParametricSectorMtbddTerminalPayload::Disposition(
        d,
    ) && disposition_kind(d) == Some(c.spec_terminal_kind())
}

/// A path ends in a residual terminal whose kind `request` accepts.
pub open spec fn path_accepted(
    payloads: Seq<ParametricSectorMtbddTerminalPayload>,
    request: ParametricSectorResidualPathRequest,
) -> spec_fn(ResidualPathView) -> bool {
    |p: ResidualPathView|
        p.terminal < payloads.len() && match payloads[p.terminal as int] {
            ParametricSectorMtbddTerminalPayload::Disposition(d) => match disposition_kind(d) {
                Some(kind) => request_accepts(request, kind),
                None => false,
            },
            _ => false,
        }
}

// Accessors of the certificate's rooted DAG.
pub open spec fn source_nodes(source: ParametricSectorMtbddCoverageCertificate) -> Seq<CoverageDecisionNode> {
    source.spec_decision().spec_rooted().nodes@
}

pub open spec fn source_atoms(source: ParametricSectorMtbddCoverageCertificate) -> Seq<ParametricSectorMtbddAtom> {
    source.spec_decision().spec_atoms()
}

pub open spec fn source_payloads(source: ParametricSectorMtbddCoverageCertificate) -> Seq<ParametricSectorMtbddTerminalPayload> {
    source.spec_decision().spec_rooted().terminal_payloads@
}

pub open spec fn source_root(source: ParametricSectorMtbddCoverageCertificate) -> CoverageDecisionRef {
    source.spec_decision().spec_rooted().roots@[0]
}

/// Every root-to-terminal path of `source` ending in a residual terminal
/// accepted by `request`, in nonzero-first depth-first order.
pub open spec fn residual_paths(
    source: ParametricSectorMtbddCoverageCertificate,
    request: ParametricSectorResidualPathRequest,
) -> Seq<ResidualPathView> {
    all_paths(source_nodes(source), source_atoms(source), source_root(source)).filter(
        path_accepted(source_payloads(source), request),
    )
}

// ---------------------------------------------------------------------------
// Lemmas on traversal order.
// ---------------------------------------------------------------------------

proof fn lemma_prefixed_add(x: Seq<ResidualPathView>, y: Seq<ResidualPathView>, prefix: Seq<ParametricSectorResidualPathDecision>)
    ensures
        prefixed(x + y, prefix) == prefixed(x, prefix) + prefixed(y, prefix),
{
    assert(prefixed(x + y, prefix) =~= prefixed(x, prefix) + prefixed(y, prefix));
}

proof fn lemma_prefixed_compose(
    paths: Seq<ResidualPathView>,
    inner: Seq<ParametricSectorResidualPathDecision>,
    outer: Seq<ParametricSectorResidualPathDecision>,
)
    ensures
        prefixed(prefixed(paths, inner), outer) == prefixed(paths, outer + inner),
{
    assert forall|k: int| 0 <= k < paths.len() implies (outer + inner) + paths[k].decisions == outer + (inner
        + paths[k].decisions) by {
        assert((outer + inner) + paths[k].decisions =~= outer + (inner + paths[k].decisions));
    }
    assert(prefixed(prefixed(paths, inner), outer) =~= prefixed(paths, outer + inner));
}

proof fn lemma_prefixed_empty(paths: Seq<ResidualPathView>)
    ensures
        prefixed(paths, Seq::empty()) == paths,
{
    assert forall|k: int| 0 <= k < paths.len() implies Seq::<ParametricSectorResidualPathDecision>::empty() + paths[k].decisions
        == paths[k].decisions by {
        assert(Seq::<ParametricSectorResidualPathDecision>::empty() + paths[k].decisions =~= paths[k].decisions);
    }
    assert(prefixed(paths, Seq::empty()) =~= paths);
}

/// `pending` reads only the first `j` decisions.
proof fn lemma_pending_prefix(
    nodes: Seq<CoverageDecisionNode>,
    atoms: Seq<ParametricSectorMtbddAtom>,
    a: Seq<ParametricSectorResidualPathDecision>,
    b: Seq<ParametricSectorResidualPathDecision>,
    j: int,
)
    requires
        0 <= j <= a.len(),
        j <= b.len(),
        a.take(j) == b.take(j),
    ensures
        pending(nodes, atoms, a, j) == pending(nodes, atoms, b, j),
    decreases j,
{
    if j > 0 {
        assert(a[j - 1] == a.take(j)[j - 1]);
        assert(b[j - 1] == b.take(j)[j - 1]);
        assert(a.take(j - 1) =~= a.take(j).take(j - 1));
        assert(b.take(j - 1) =~= b.take(j).take(j - 1));
        lemma_pending_prefix(nodes, atoms, a, b, j - 1);
    }
}

/// Unfolding the paths through node `i`.
proof fn lemma_all_paths_node(
    nodes: Seq<CoverageDecisionNode>,
    atoms: Seq<ParametricSectorMtbddAtom>,
    i: usize,
    terminals: nat,
    prefix: Seq<ParametricSectorResidualPathDecision>,
)
    requires
        i < nodes.len(),
        node_wf(nodes, i as int, terminals, atoms.len()),
    ensures
        prefixed(all_paths(nodes, atoms, CoverageDecisionRef::Node(i)), prefix) == prefixed(
            all_paths(nodes, atoms, nodes[i as int].when_false),
            prefix.push(decision_for(nodes, atoms, i, ParametricSectorResidualPathPolarity::NonZero)),
        ) + prefixed(
            all_paths(nodes, atoms, nodes[i as int].when_true),
            prefix.push(decision_for(nodes, atoms, i, ParametricSectorResidualPathPolarity::EqualZero)),
        ),
{
    let n = nodes[i as int];
    let nz = decision_for(nodes, atoms, i, ParametricSectorResidualPathPolarity::NonZero);
    let ez = decision_for(nodes, atoms, i, ParametricSectorResidualPathPolarity::EqualZero);
    let af = all_paths(nodes, atoms, n.when_false);
    let at = all_paths(nodes, atoms, n.when_true);
    assert(all_paths(nodes, atoms, CoverageDecisionRef::Node(i)) == prefixed(af, seq![nz]) + prefixed(at, seq![ez]));
    lemma_prefixed_add(prefixed(af, seq![nz]), prefixed(at, seq![ez]), prefix);
    lemma_prefixed_compose(af, seq![nz], prefix);
    lemma_prefixed_compose(at, seq![ez], prefix);
    assert(prefix + seq![nz] =~= prefix.push(nz));
    assert(prefix + seq![ez] =~= prefix.push(ez));
}

/// Leaving node `i` along its nonzero branch.
#[verifier::rlimit(40)]
#[verifier::spinoff_prover]
proof fn lemma_descend(
    nodes: Seq<CoverageDecisionNode>,
    atoms: Seq<ParametricSectorMtbddAtom>,
    root: CoverageDecisionRef,
    visited: Seq<ResidualPathView>,
    frontier: Seq<ParametricSectorResidualPathDecision>,
    i: usize,
    terminals: nat,
)
    requires
        arena_wf(nodes, terminals, atoms.len()),
        i < nodes.len(),
        path_valid(nodes, atoms, root, frontier),
        path_end(nodes, root, frontier) == CoverageDecisionRef::Node(i),
        dfs_at(nodes, atoms, root, visited, frontier, CoverageDecisionRef::Node(i)),
    ensures
        path_valid(nodes, atoms, root, frontier.push(decision_for(nodes, atoms, i, ParametricSectorResidualPathPolarity::NonZero))),
        path_end(nodes, root, frontier.push(decision_for(nodes, atoms, i, ParametricSectorResidualPathPolarity::NonZero)))
            == nodes[i as int].when_false,
        dfs_at(
            nodes,
            atoms,
            root,
            visited,
            frontier.push(decision_for(nodes, atoms, i, ParametricSectorResidualPathPolarity::NonZero)),
            nodes[i as int].when_false,
        ),
{
    let nz = decision_for(nodes, atoms, i, ParametricSectorResidualPathPolarity::NonZero);
    let ez = decision_for(nodes, atoms, i, ParametricSectorResidualPathPolarity::EqualZero);
    let f2 = frontier.push(nz);
    let len = frontier.len() as int;
    assert(node_wf(nodes, i as int, terminals, atoms.len()));
    lemma_all_paths_node(nodes, atoms, i, terminals, frontier);
    let af = prefixed(all_paths(nodes, atoms, nodes[i as int].when_false), f2);
    let at = prefixed(all_paths(nodes, atoms, nodes[i as int].when_true), frontier.push(ez));
    assert(f2.take(len) =~= frontier);
    assert(frontier.take(len) =~= frontier);
    assert(f2[len] == nz);
    lemma_pending_prefix(nodes, atoms, f2, frontier, len);
    assert(pending(nodes, atoms, f2, len + 1) == at + pending(nodes, atoms, frontier, len));
    assert(visited + af + (at + pending(nodes, atoms, frontier, len)) =~= visited + (af + at) + pending(nodes, atoms, frontier, len));
    assert forall|j: int| 0 <= j < f2.len() implies {
        &&& (#[trigger] f2[j]).node_ordinal < nodes.len()
        &&& f2[j] == decision_for(nodes, atoms, f2[j].node_ordinal, f2[j].polarity)
        &&& path_end(nodes, root, f2.take(j)) == CoverageDecisionRef::Node(f2[j].node_ordinal)
    } by {
        if j < len {
            assert(f2[j] == frontier[j]);
            assert(f2.take(j) =~= frontier.take(j));
        } else {
            assert(f2.take(j) =~= frontier);
        }
    }
}

/// Visiting the terminal `t` below `frontier`.
proof fn lemma_visit_terminal(
    nodes: Seq<CoverageDecisionNode>,
    atoms: Seq<ParametricSectorMtbddAtom>,
    root: CoverageDecisionRef,
    visited: Seq<ResidualPathView>,
    frontier: Seq<ParametricSectorResidualPathDecision>,
    t: usize,
)
    requires
        dfs_at(nodes, atoms, root, visited, frontier, CoverageDecisionRef::Terminal(t)),
    ensures
        dfs_after(nodes, atoms, root, visited.push((ResidualPathView { decisions: frontier, terminal: t as nat })), frontier),
{
    let x = ResidualPathView { decisions: frontier, terminal: t as nat };
    assert(frontier + Seq::<ParametricSectorResidualPathDecision>::empty() =~= frontier);
    assert(prefixed(all_paths(nodes, atoms, CoverageDecisionRef::Terminal(t)), frontier) =~= seq![x]);
    assert(visited + seq![x] =~= visited.push(x));
}

/// Turning the deepest nonzero decision into its equal-zero branch.
#[verifier::rlimit(40)]
#[verifier::spinoff_prover]
proof fn lemma_flip(
    nodes: Seq<CoverageDecisionNode>,
    atoms: Seq<ParametricSectorMtbddAtom>,
    root: CoverageDecisionRef,
    visited: Seq<ResidualPathView>,
    frontier: Seq<ParametricSectorResidualPathDecision>,
)
    requires
        path_valid(nodes, atoms, root, frontier),
        frontier.len() > 0,
        frontier.last().polarity == ParametricSectorResidualPathPolarity::NonZero,
        dfs_after(nodes, atoms, root, visited, frontier),
    ensures
        ({
            let last = frontier.last();
            let f2 = frontier.update(
                frontier.len() - 1,
                (ParametricSectorResidualPathDecision { polarity: ParametricSectorResidualPathPolarity::EqualZero, ..last }),
            );
            &&& path_valid(nodes, atoms, root, f2)
            &&& path_end(nodes, root, f2) == nodes[last.node_ordinal as int].when_true
            &&& dfs_at(nodes, atoms, root, visited, f2, nodes[last.node_ordinal as int].when_true)
        }),
{
    let len = frontier.len() as int;
    let last = frontier.last();
    assert(last == frontier[len - 1]);
    let ez = decision_for(nodes, atoms, last.node_ordinal, ParametricSectorResidualPathPolarity::EqualZero);
    let f2 = frontier.update(len - 1, ParametricSectorResidualPathDecision { polarity: ParametricSectorResidualPathPolarity::EqualZero, ..last });
    let g = frontier.take(len - 1);
    assert(f2 =~= g.push(ez));
    assert(f2.take(len - 1) =~= g);
    assert(frontier.take(len - 1) =~= g);
    lemma_pending_prefix(nodes, atoms, f2, frontier, len - 1);
    assert(pending(nodes, atoms, f2, len) == pending(nodes, atoms, f2, len - 1));
    let at = prefixed(all_paths(nodes, atoms, nodes[last.node_ordinal as int].when_true), f2);
    assert(pending(nodes, atoms, frontier, len) == at + pending(nodes, atoms, frontier, len - 1));
    assert(visited + at + pending(nodes, atoms, frontier, len - 1) =~= visited + (at + pending(nodes, atoms, frontier, len - 1)));
    assert forall|j: int| 0 <= j < f2.len() implies {
        &&& (#[trigger] f2[j]).node_ordinal < nodes.len()
        &&& f2[j] == decision_for(nodes, atoms, f2[j].node_ordinal, f2[j].polarity)
        &&& path_end(nodes, root, f2.take(j)) == CoverageDecisionRef::Node(f2[j].node_ordinal)
    } by {
        assert(f2.take(j) =~= frontier.take(j));
        if j < len - 1 {
            assert(f2[j] == frontier[j]);
        } else {
            assert(frontier[j] == last);
        }
    }
}

/// Dropping the deepest decision once both its branches are done.
proof fn lemma_pop(
    nodes: Seq<CoverageDecisionNode>,
    atoms: Seq<ParametricSectorMtbddAtom>,
    root: CoverageDecisionRef,
    visited: Seq<ResidualPathView>,
    frontier: Seq<ParametricSectorResidualPathDecision>,
)
    requires
        path_valid(nodes, atoms, root, frontier),
        frontier.len() > 0,
        frontier.last().polarity == ParametricSectorResidualPathPolarity::EqualZero,
        dfs_after(nodes, atoms, root, visited, frontier),
    ensures
        path_valid(nodes, atoms, root, frontier.drop_last()),
        dfs_after(nodes, atoms, root, visited, frontier.drop_last()),
{
    let len = frontier.len() as int;
    let g = frontier.drop_last();
    assert(frontier[len - 1] == frontier.last());
    assert(g.take(len - 1) =~= frontier.take(len - 1));
    lemma_pending_prefix(nodes, atoms, g, frontier, len - 1);
    assert forall|j: int| 0 <= j < g.len() implies {
        &&& (#[trigger] g[j]).node_ordinal < nodes.len()
        &&& g[j] == decision_for(nodes, atoms, g[j].node_ordinal, g[j].polarity)
        &&& path_end(nodes, root, g.take(j)) == CoverageDecisionRef::Node(g[j].node_ordinal)
    } by {
        assert(g[j] == frontier[j]);
        assert(g.take(j) =~= frontier.take(j));
    }
}

/// A valid walk ends at an existing reference, tests strictly increasing
/// atoms, and so is no longer than the atom count; a walk ending at a node
/// is strictly shorter.
proof fn lemma_path_facts(
    nodes: Seq<CoverageDecisionNode>,
    atoms: Seq<ParametricSectorMtbddAtom>,
    root: CoverageDecisionRef,
    frontier: Seq<ParametricSectorResidualPathDecision>,
    terminals: nat,
)
    requires
        arena_wf(nodes, terminals, atoms.len()),
        ref_below(root, nodes.len(), terminals),
        path_valid(nodes, atoms, root, frontier),
    ensures
        ref_below(path_end(nodes, root, frontier), nodes.len(), terminals),
        frontier.len() <= atoms.len(),
        path_end(nodes, root, frontier) matches CoverageDecisionRef::Node(i) ==> nodes[i as int].atom >= frontier.len()
            && frontier.len() < atoms.len(),
    decreases frontier.len(),
{
    if frontier.len() > 0 {
        let len = frontier.len() as int;
        let g = frontier.drop_last();
        let last = frontier.last();
        assert(frontier[len - 1] == last);
        assert forall|j: int| 0 <= j < g.len() implies {
            &&& (#[trigger] g[j]).node_ordinal < nodes.len()
            &&& g[j] == decision_for(nodes, atoms, g[j].node_ordinal, g[j].polarity)
            &&& path_end(nodes, root, g.take(j)) == CoverageDecisionRef::Node(g[j].node_ordinal)
        } by {
            assert(g[j] == frontier[j]);
            assert(g.take(j) =~= frontier.take(j));
        }
        lemma_path_facts(nodes, atoms, root, g, terminals);
        assert(frontier.take(len - 1) =~= g);
        assert(path_end(nodes, root, g) == CoverageDecisionRef::Node(last.node_ordinal));
        assert(node_wf(nodes, last.node_ordinal as int, terminals, atoms.len()));
    }
    if let CoverageDecisionRef::Node(i) = path_end(nodes, root, frontier) {
        assert(node_wf(nodes, i as int, terminals, atoms.len()));
    }
}

/// With no decision left, everything has been visited.
proof fn lemma_exhausted(
    nodes: Seq<CoverageDecisionNode>,
    atoms: Seq<ParametricSectorMtbddAtom>,
    root: CoverageDecisionRef,
    visited: Seq<ResidualPathView>,
    frontier: Seq<ParametricSectorResidualPathDecision>,
)
    requires
        frontier.len() == 0,
        dfs_after(nodes, atoms, root, visited, frontier),
    ensures
        visited == all_paths(nodes, atoms, root),
{
    assert(visited + Seq::<ResidualPathView>::empty() =~= visited);
}

/// The traversal starts at the root with nothing visited.
proof fn lemma_start(nodes: Seq<CoverageDecisionNode>, atoms: Seq<ParametricSectorMtbddAtom>, root: CoverageDecisionRef)
    ensures
        dfs_at(nodes, atoms, root, Seq::empty(), Seq::empty(), root),
        path_valid(nodes, atoms, root, Seq::empty()),
{
    lemma_prefixed_empty(all_paths(nodes, atoms, root));
    assert(Seq::<ResidualPathView>::empty() + all_paths(nodes, atoms, root) + Seq::<ResidualPathView>::empty()
        =~= all_paths(nodes, atoms, root));
}

proof fn lemma_start_at(source: &ParametricSectorMtbddCoverageCertificate)
    ensures
        dfs_at(source_nodes(*source), source_atoms(*source), source_root(*source), Seq::empty(), Seq::empty(), source_root(*source)),
        path_valid(source_nodes(*source), source_atoms(*source), source_root(*source), Seq::empty()),
{
    lemma_start(source_nodes(*source), source_atoms(*source), source_root(*source));
}

proof fn lemma_filter_push(s: Seq<ResidualPathView>, x: ResidualPathView, p: spec_fn(ResidualPathView) -> bool)
    ensures
        s.push(x).filter(p) == if p(x) {
            s.filter(p).push(x)
        } else {
            s.filter(p)
        },
{
    reveal(Seq::filter);
    assert(s.push(x).drop_last() =~= s);
}

/// The accepted paths already visited are a prefix of all accepted paths.
proof fn lemma_visited_prefix(visited: Seq<ResidualPathView>, rest: Seq<ResidualPathView>, p: spec_fn(ResidualPathView) -> bool)
    ensures
        (visited + rest).filter(p).len() >= visited.filter(p).len(),
        (visited + rest).filter(p).take(visited.filter(p).len() as int) == visited.filter(p),
{
    Seq::filter_distributes_over_add(visited, rest, p);
    assert((visited.filter(p) + rest.filter(p)).take(visited.filter(p).len() as int) =~= visited.filter(p));
}

proof fn lemma_next_accepted(
    visited: Seq<ResidualPathView>,
    x: ResidualPathView,
    rest: Seq<ResidualPathView>,
    p: spec_fn(ResidualPathView) -> bool,
)
    requires
        p(x),
    ensures
        (visited.push(x) + rest).filter(p).len() > visited.filter(p).len(),
        (visited.push(x) + rest).filter(p)[visited.filter(p).len() as int] == x,
{
    Seq::filter_distributes_over_add(visited.push(x), rest, p);
    lemma_filter_push(visited, x, p);
}

// ---------------------------------------------------------------------------
// Resource budget.
// ---------------------------------------------------------------------------

/// Number of root-to-terminal paths of `source`.
pub open spec fn source_path_count(source: ParametricSectorMtbddCoverageCertificate) -> nat {
    all_paths(source_nodes(source), source_atoms(source), source_root(source)).len()
}

/// Steps one call of `next_path` can take at most on any work counter.
pub open spec fn traversal_budget(source: ParametricSectorMtbddCoverageCertificate) -> nat {
    let a = source_atoms(source).len();
    2 * (a + 2) * (a + 2) * (source_path_count(source) + 2)
}

/// Limits under which a call of `next_path` cannot run out: every work
/// counter has room for a whole traversal, every retained size has room
/// for a path through every atom, every unsupported terminal fits, and no
/// root-to-terminal path ends in a Boolean terminal.
pub open spec fn budget_allows(
    source: ParametricSectorMtbddCoverageCertificate,
    limits: ParametricSectorResidualPathLimits,
    stats: ParametricSectorResidualPathCursorStats,
) -> bool {
    let a = source_atoms(source).len();
    let w = traversal_budget(source);
    let payloads = source_payloads(source);
    let paths = all_paths(source_nodes(source), source_atoms(source), source_root(source));
    let entry = vstd::layout::size_of::<ParametricSectorResidualPathDecision>();
    &&& stats.reference_visits + w <= limits.max_reference_visits
    &&& stats.node_visits + w <= limits.max_node_visits
    &&& stats.terminal_visits + w <= limits.max_terminal_visits
    &&& stats.uncovered_terminals_visited + w <= limits.max_terminal_visits
    &&& stats.unsupported_terminals_visited + w <= limits.max_terminal_visits
    &&& stats.branch_traversals + w <= limits.max_branch_traversals
    &&& stats.backtracks + w <= limits.max_backtracks
    &&& stats.descending_terminals_skipped + w <= limits.max_descending_terminals_skipped
    &&& stats.filtered_residual_terminals + w <= limits.max_filtered_residual_terminals
    &&& stats.paths_yielded + 1 <= limits.max_paths_yielded
    &&& stats.total_path_decisions_copied + a <= limits.max_total_path_decisions_copied
    &&& a <= limits.max_depth
    &&& a <= limits.max_path_decisions
    &&& 2 * a <= limits.max_frontier_capacity_entries
    &&& vstd::layout::size_of::<ParametricSectorResidualPathCursor>() + 2 * a * entry <= limits.max_cursor_retained_bytes
    &&& vstd::layout::size_of::<ParametricSectorResidualPathCertificate>() + a * entry <= limits.max_path_retained_bytes
    &&& forall|t: int|
        0 <= t < payloads.len() ==> (#[trigger] payloads[t] matches ParametricSectorMtbddTerminalPayload::Disposition(
            ParametricSectorMtbddDisposition::Unsupported { candidate_ordinals },
        ) ==> candidate_ordinals@.len() <= limits.max_unsupported_candidate_references)
    &&& forall|k: int|
        0 <= k < paths.len() ==> (#[trigger] paths[k]).terminal < payloads.len() && payloads[paths[k].terminal as int] is Disposition
}

proof fn lemma_budget_arith(a: nat, paths: nat, phi: nat)
    requires
        phi <= (paths + 2) * (a + 2),
    ensures
        phi <= 2 * (a + 2) * (a + 2) * (paths + 2),
        2 * phi <= 2 * (a + 2) * (a + 2) * (paths + 2),
        (a + 1) * phi <= 2 * (a + 2) * (a + 2) * (paths + 2),
{
    let q = (paths + 2) * (a + 2);
    assert(2 * (a + 2) * (a + 2) * (paths + 2) == 2 * (a + 2) * q) by (nonlinear_arith)
        requires
            q == (paths + 2) * (a + 2),
    ;
    assert((a + 1) * phi <= (a + 1) * q) by (nonlinear_arith)
        requires
            phi <= q,
    ;
    assert((a + 1) * q <= 2 * (a + 2) * q) by (nonlinear_arith);
    assert(2 * phi <= 2 * (a + 2) * q) by (nonlinear_arith)
        requires
            phi <= q,
    ;
}

proof fn lemma_rem_step(rem: nat, k: nat)
    ensures
        (rem + 1) * k == rem * k + k,
{
    assert((rem + 1) * k == rem * k + k) by (nonlinear_arith);
}

/// `k * d + k <= k * total` when `d < total`.
proof fn lemma_mul_step(k: nat, d: nat, total: nat)
    ensures
        d < total ==> k * d + k <= k * total,
{
    if d < total {
        assert(k * d + k == k * (d + 1)) by (nonlinear_arith);
        assert(k * (d + 1) <= k * total) by (nonlinear_arith)
            requires
                d + 1 <= total,
        ;
    }
}

/// `k * (d + m) == k * d + k * m`, and `k * m >= k` when `m >= 1`.
proof fn lemma_mul_grow(k: nat, d: nat, m: nat)
    ensures
        k * (d + m) == k * d + k * m,
        m >= 1 ==> k * m >= k,
{
    assert(k * (d + m) == k * d + k * m) by (nonlinear_arith);
    if m >= 1 {
        assert(k * m >= k) by (nonlinear_arith)
            requires
                m >= 1,
        ;
    }
}

// ---------------------------------------------------------------------------
// Checked arithmetic and limits.
// ---------------------------------------------------------------------------

fn checked_add(resource: &'static str, left: usize, right: usize) -> (r: Result<usize, ParametricSectorResidualPathError>)
    ensures
        left + right <= usize::MAX ==> r == Ok::<usize, ParametricSectorResidualPathError>((left + right) as usize),
        left + right > usize::MAX ==> r == Err::<usize, ParametricSectorResidualPathError>(
            ParametricSectorResidualPathError::ResourceCountOverflow { resource },
        ),
{
    match left.checked_add(right) {
        Some(v) => Ok(v),
        None => Err(ParametricSectorResidualPathError::ResourceCountOverflow { resource }),
    }
}

fn checked_mul(resource: &'static str, left: usize, right: usize) -> (r: Result<usize, ParametricSectorResidualPathError>)
    ensures
        left * right <= usize::MAX ==> r == Ok::<usize, ParametricSectorResidualPathError>((left * right) as usize),
        left * right > usize::MAX ==> r == Err::<usize, ParametricSectorResidualPathError>(
            ParametricSectorResidualPathError::ResourceCountOverflow { resource },
        ),
{
    match left.checked_mul(right) {
        Some(v) => Ok(v),
        None => Err(ParametricSectorResidualPathError::ResourceCountOverflow { resource }),
    }
}

fn check_limit(resource: &'static str, requested: usize, limit: usize) -> (r: Result<(), ParametricSectorResidualPathError>)
    ensures
        requested <= limit ==> r is Ok,
        requested > limit ==> r == Err::<(), ParametricSectorResidualPathError>(
            ParametricSectorResidualPathError::ResourceLimit { resource, requested, limit },
        ),
{
    if requested > limit {
        Err(ParametricSectorResidualPathError::ResourceLimit { resource, requested, limit })
    } else {
        Ok(())
    }
}

/// Count one more unit of `counter` against `limit`; the counter is left
/// alone on failure.
fn charge_next(resource: &'static str, counter: &mut usize, limit: usize) -> (r: Result<(), ParametricSectorResidualPathError>)
    ensures
        *old(counter) + 1 <= limit ==> r is Ok,
        r is Ok ==> *final(counter) == *old(counter) + 1 && *final(counter) <= limit,
        r is Err ==> *final(counter) == *old(counter),
{
    let requested = checked_add(resource, *counter, 1)?;
    check_limit(resource, requested, limit)?;
    *counter = requested;
    Ok(())
}

/// Bytes a cursor retains with a frontier reservation of `capacity`.
fn cursor_retained_bytes(capacity: usize) -> (r: Result<usize, ParametricSectorResidualPathError>)
    ensures
        r matches Ok(v) ==> v == vstd::layout::size_of::<ParametricSectorResidualPathCursor>() + capacity
            * vstd::layout::size_of::<ParametricSectorResidualPathDecision>(),
        vstd::layout::size_of::<ParametricSectorResidualPathCursor>() + capacity * vstd::layout::size_of::<
            ParametricSectorResidualPathDecision,
        >() <= usize::MAX ==> r is Ok,
{
    let entry = core::mem::size_of::<ParametricSectorResidualPathDecision>();
    let frontier = checked_mul("residual-path cursor retained bytes", capacity, entry)?;
    checked_add("residual-path cursor retained bytes", core::mem::size_of::<ParametricSectorResidualPathCursor>(), frontier)
}

proof fn lemma_bytes_monotone(small: nat, large: nat)
    requires
        small <= large,
    ensures
        vstd::layout::size_of::<ParametricSectorResidualPathCursor>() + small * vstd::layout::size_of::<
            ParametricSectorResidualPathDecision,
        >() <= vstd::layout::size_of::<ParametricSectorResidualPathCursor>() + large * vstd::layout::size_of::<
            ParametricSectorResidualPathDecision,
        >(),
        vstd::layout::size_of::<ParametricSectorResidualPathCertificate>() + small * vstd::layout::size_of::<
            ParametricSectorResidualPathDecision,
        >() <= vstd::layout::size_of::<ParametricSectorResidualPathCertificate>() + large * vstd::layout::size_of::<
            ParametricSectorResidualPathDecision,
        >(),
{
    let e = vstd::layout::size_of::<ParametricSectorResidualPathDecision>();
    assert(small * e <= large * e) by (nonlinear_arith)
        requires
            small <= large,
    ;
}

/// `Vec::try_reserve_exact`: whatever the outcome, the contents are
/// unchanged; whether the allocator grants the request is not stated.
#[verifier::external_body]
fn try_reserve_exact_entries<T>(v: &mut Vec<T>, additional: usize) -> (r: Result<(), std::collections::TryReserveError>)
    ensures
        final(v)@ == old(v)@,
{
    v.try_reserve_exact(additional)
}

// ---------------------------------------------------------------------------
// Reading the source certificate.
// ---------------------------------------------------------------------------

/// The source's rooted DAG is well formed, singly rooted over its dense
/// atoms, and its locus table matches its decision function.
pub open spec fn source_shape(source: ParametricSectorMtbddCoverageCertificate) -> bool {
    let rooted = source.spec_decision().spec_rooted();
    &&& rooted.wf()
    &&& rooted.roots@.len() == 1
    &&& rooted.atom_count == source.spec_decision().spec_atoms().len()
    &&& atoms_in_range(source.spec_decision().spec_atoms(), source.spec_decision().spec_base_count())
    &&& source.spec_source().base_structural_loci@.len() == source.spec_decision().spec_base_count()
    &&& view_decides(rooted, rooted.roots@[0], source.spec_decision().spec_atoms(), source.spec_decision().spec_attempts())
}

/// The source names the stage-1 schema, its decision function, locus table
/// and formula IR agree on the number of base loci, and the decision
/// function was compiled from the IR's formula schema.
pub open spec fn source_header_ok(source: ParametricSectorMtbddCoverageCertificate) -> bool {
    let decision = source.spec_decision();
    let normalized = source.spec_source();
    &&& source.spec_schema()@ == PARAMETRIC_SECTOR_MTBDD_COVERAGE_V5_STAGE1_SCHEMA@
    &&& decision.spec_base_count() == normalized.base_structural_loci@.len()
    &&& normalized.ir.spec_base_count() == normalized.base_structural_loci@.len()
    &&& decision.spec_formula_schema()@ == normalized.ir.spec_schema()@
}

fn validate_source_header(source: &ParametricSectorMtbddCoverageCertificate) -> (r: Result<(), ParametricSectorResidualPathError>)
    ensures
        r is Ok ==> source_shape(*source),
        r is Ok <==> source_header_ok(*source),
        source.spec_schema()@ != PARAMETRIC_SECTOR_MTBDD_COVERAGE_V5_STAGE1_SCHEMA@ ==> r == Err::<(), ParametricSectorResidualPathError>(
            ParametricSectorResidualPathError::SourceSchemaMismatch,
        ),
        source.spec_schema()@ == PARAMETRIC_SECTOR_MTBDD_COVERAGE_V5_STAGE1_SCHEMA@ && !source_header_ok(*source) ==> r == Err::<
            (),
            ParametricSectorResidualPathError,
        >(ParametricSectorResidualPathError::SourceShapeMismatch),
{
    if !text_eq(source.schema(), PARAMETRIC_SECTOR_MTBDD_COVERAGE_V5_STAGE1_SCHEMA) {
        return Err(ParametricSectorResidualPathError::SourceSchemaMismatch);
    }
    let decision = source.decision();
    let normalized = source.normalized();
    let _ = decision.rooted();
    let locus_count = normalized.base_structural_loci().len();
    if decision.base_structural_locus_count() != locus_count || normalized.ir().base_structural_locus_count() != locus_count
        || !text_eq(decision.formula_schema(), normalized.ir().schema()) {
        return Err(ParametricSectorResidualPathError::SourceShapeMismatch);
    }
    Ok(())
}

fn single_root(source: &ParametricSectorMtbddCoverageCertificate) -> (r: Result<CoverageDecisionRef, ParametricSectorResidualPathError>)
    ensures
        r matches Ok(root) ==> root == source_root(*source),
        source_shape(*source) ==> r is Ok,
{
    let roots = &source.decision().rooted().roots;
    if roots.len() != 1 {
        return Err(ParametricSectorResidualPathError::MalformedRootCount { actual: roots.len() });
    }
    Ok(roots[0])
}

fn terminal_payload(source: &ParametricSectorMtbddCoverageCertificate, terminal: usize) -> (r: Result<
    &ParametricSectorMtbddTerminalPayload,
    ParametricSectorResidualPathError,
>)
    ensures
        terminal < source_payloads(*source).len() ==> (r matches Ok(p) && *p == source_payloads(*source)[terminal as int]),
        terminal >= source_payloads(*source).len() ==> r is Err,
{
    let payloads = &source.decision().rooted().terminal_payloads;
    if terminal >= payloads.len() {
        return Err(ParametricSectorResidualPathError::TerminalOutOfRange { ordinal: terminal, terminal_count: payloads.len() });
    }
    Ok(&payloads[terminal])
}

fn terminal_disposition(source: &ParametricSectorMtbddCoverageCertificate, terminal: usize) -> (r: Result<
    &ParametricSectorMtbddDisposition,
    ParametricSectorResidualPathError,
>)
    ensures
        r matches Ok(d) ==> terminal < source_payloads(*source).len() && source_payloads(*source)[terminal as int]
            == ParametricSectorMtbddTerminalPayload::Disposition(*d),
        terminal < source_payloads(*source).len() && source_payloads(*source)[terminal as int] is Disposition ==> r is Ok,
{
    match terminal_payload(source, terminal)? {
        ParametricSectorMtbddTerminalPayload::Disposition(disposition) => Ok(disposition),
        _ => Err(ParametricSectorResidualPathError::BooleanTerminalReachable),
    }
}

/// Kind and unsupported-candidate count of a residual disposition.
fn residual_terminal_census(disposition: &ParametricSectorMtbddDisposition) -> (r: Result<
    (ParametricSectorResidualPathTerminalKind, usize),
    ParametricSectorResidualPathError,
>)
    ensures
        disposition is DescendingRule ==> r == Err::<(ParametricSectorResidualPathTerminalKind, usize), ParametricSectorResidualPathError>(
            ParametricSectorResidualPathError::TerminalDispositionMismatch,
        ),
        r matches Ok((kind, references)) ==> disposition_kind(*disposition) == Some(kind) && (match disposition {
            ParametricSectorMtbddDisposition::Unsupported { candidate_ordinals } => references == candidate_ordinals@.len(),
            _ => references == 0,
        }),
        !(disposition is DescendingRule) ==> r is Ok,
{
    match disposition {
        ParametricSectorMtbddDisposition::DescendingRule { .. } => Err(ParametricSectorResidualPathError::TerminalDispositionMismatch),
        ParametricSectorMtbddDisposition::Uncovered => Ok((ParametricSectorResidualPathTerminalKind::Uncovered, 0)),
        ParametricSectorMtbddDisposition::Unsupported { candidate_ordinals } => Ok(
            (ParametricSectorResidualPathTerminalKind::Unsupported, candidate_ordinals.len()),
        ),
    }
}

/// Number of nonzero decisions in `decisions`.
pub open spec fn nonzero_count(decisions: Seq<ParametricSectorResidualPathDecision>) -> nat
    decreases decisions.len(),
{
    if decisions.len() == 0 {
        0
    } else {
        nonzero_count(decisions.drop_last()) + if decisions.last().polarity is NonZero {
            1nat
        } else {
            0nat
        }
    }
}

fn path_stats(
    decisions: &Vec<ParametricSectorResidualPathDecision>,
    unsupported_candidate_references: usize,
    limits: ParametricSectorResidualPathLimits,
) -> (r: Result<ParametricSectorResidualPathStats, ParametricSectorResidualPathError>)
    ensures
        r matches Ok(stats) ==> {
            &&& stats.decisions == decisions@.len()
            &&& stats.nonzero_decisions == nonzero_count(decisions@)
            &&& stats.equal_zero_decisions == decisions@.len() - nonzero_count(decisions@)
            &&& stats.unsupported_candidate_references == unsupported_candidate_references
            &&& stats.retained_path_bytes == vstd::layout::size_of::<ParametricSectorResidualPathCertificate>()
                + decisions@.len() * vstd::layout::size_of::<ParametricSectorResidualPathDecision>()
            &&& decisions@.len() <= limits.max_depth && decisions@.len() <= limits.max_path_decisions
            &&& unsupported_candidate_references <= limits.max_unsupported_candidate_references
            &&& stats.retained_path_bytes <= limits.max_path_retained_bytes
        },
        decisions@.len() <= limits.max_depth && decisions@.len() <= limits.max_path_decisions
            && unsupported_candidate_references <= limits.max_unsupported_candidate_references
            && vstd::layout::size_of::<ParametricSectorResidualPathCertificate>() + decisions@.len()
            * vstd::layout::size_of::<ParametricSectorResidualPathDecision>() <= limits.max_path_retained_bytes ==> r is Ok,
{
    check_limit("residual-path depth", decisions.len(), limits.max_depth)?;
    check_limit("residual-path retained decisions", decisions.len(), limits.max_path_decisions)?;
    check_limit("residual-path unsupported candidate references", unsupported_candidate_references, limits.max_unsupported_candidate_references)?;
    let decision_bytes = checked_mul(
        "residual-path retained bytes",
        decisions.len(),
        core::mem::size_of::<ParametricSectorResidualPathDecision>(),
    )?;
    let retained_path_bytes = checked_add(
        "residual-path retained bytes",
        core::mem::size_of::<ParametricSectorResidualPathCertificate>(),
        decision_bytes,
    )?;
    check_limit("residual-path retained bytes", retained_path_bytes, limits.max_path_retained_bytes)?;
    let mut nonzero_decisions: usize = 0;
    let mut i: usize = 0;
    while i < decisions.len()
        invariant
            i <= decisions@.len(),
            nonzero_decisions == nonzero_count(decisions@.take(i as int)),
            nonzero_decisions <= i,
        decreases decisions@.len() - i,
    {
        assert(decisions@.take(i as int + 1).drop_last() =~= decisions@.take(i as int));
        if decisions[i].polarity == ParametricSectorResidualPathPolarity::NonZero {
            nonzero_decisions = nonzero_decisions + 1;
        }
        i = i + 1;
    }
    assert(decisions@.take(decisions@.len() as int) =~= decisions@);
    Ok(
        ParametricSectorResidualPathStats {
            decisions: decisions.len(),
            nonzero_decisions,
            equal_zero_decisions: decisions.len() - nonzero_decisions,
            unsupported_candidate_references,
            retained_path_bytes,
        },
    )
}

// ---------------------------------------------------------------------------
// Yielded paths.
// ---------------------------------------------------------------------------

/// One exact residual conjunction, bound to the source allocation of the
/// cursor that produced it.
pub struct ParametricSectorResidualPathCertificate {
    schema: &'static str,
    branch_order_schema: &'static str,
    source: Arc<ParametricSectorMtbddCoverageCertificate>,
    source_root: CoverageDecisionRef,
    request: ParametricSectorResidualPathRequest,
    yield_ordinal: usize,
    decisions: Vec<ParametricSectorResidualPathDecision>,
    terminal_ordinal: usize,
    terminal_kind: ParametricSectorResidualPathTerminalKind,
    limits: ParametricSectorResidualPathLimits,
    stats: ParametricSectorResidualPathStats,
}

impl ParametricSectorResidualPathCertificate {
    pub closed spec fn spec_schema(&self) -> &'static str {
        self.schema
    }

    pub closed spec fn spec_branch_order_schema(&self) -> &'static str {
        self.branch_order_schema
    }

    pub closed spec fn spec_source(&self) -> ParametricSectorMtbddCoverageCertificate {
        *self.source
    }

    pub closed spec fn spec_source_root(&self) -> CoverageDecisionRef {
        self.source_root
    }

    pub closed spec fn spec_request(&self) -> ParametricSectorResidualPathRequest {
        self.request
    }

    pub closed spec fn spec_yield_ordinal(&self) -> usize {
        self.yield_ordinal
    }

    pub closed spec fn spec_decisions(&self) -> Seq<ParametricSectorResidualPathDecision> {
        self.decisions@
    }

    pub closed spec fn spec_terminal_ordinal(&self) -> usize {
        self.terminal_ordinal
    }

    pub closed spec fn spec_terminal_kind(&self) -> ParametricSectorResidualPathTerminalKind {
        self.terminal_kind
    }

    pub closed spec fn spec_limits(&self) -> ParametricSectorResidualPathLimits {
        self.limits
    }

    pub closed spec fn spec_stats(&self) -> ParametricSectorResidualPathStats {
        self.stats
    }

    /// The path this certificate names.
    pub open spec fn path_view(&self) -> ResidualPathView {
        ResidualPathView { decisions: self.spec_decisions(), terminal: self.spec_terminal_ordinal() as nat }
    }

    pub fn schema(&self) -> (r: &'static str)
        ensures
            r == self.spec_schema(),
    {
        self.schema
    }

    pub fn branch_order_schema(&self) -> (r: &'static str)
        ensures
            r == self.spec_branch_order_schema(),
    {
        self.branch_order_schema
    }

    pub fn request(&self) -> (r: ParametricSectorResidualPathRequest)
        ensures
            r == self.spec_request(),
    {
        self.request
    }

    /// One-based ordinal among the paths accepted by the producing request.
    pub fn yield_ordinal(&self) -> (r: usize)
        ensures
            r == self.spec_yield_ordinal(),
    {
        self.yield_ordinal
    }

    pub fn decisions(&self) -> (r: &[ParametricSectorResidualPathDecision])
        ensures
            r@ == self.spec_decisions(),
    {
        self.decisions.as_slice()
    }

    pub fn terminal_ordinal(&self) -> (r: usize)
        ensures
            r == self.spec_terminal_ordinal(),
    {
        self.terminal_ordinal
    }

    pub fn terminal_kind(&self) -> (r: ParametricSectorResidualPathTerminalKind)
        ensures
            r == self.spec_terminal_kind(),
    {
        self.terminal_kind
    }

    pub fn limits(&self) -> (r: ParametricSectorResidualPathLimits)
        ensures
            r == self.spec_limits(),
    {
        self.limits
    }

    pub fn stats(&self) -> (r: ParametricSectorResidualPathStats)
        ensures
            r == self.spec_stats(),
    {
        self.stats
    }

    /// True when `source` is the allocation this path was produced from.
    pub fn same_source_allocation(&self, source: &Arc<ParametricSectorMtbddCoverageCertificate>) -> (r: bool)
        ensures
            r ==> self.spec_source() == **source,
    {
        same_allocation(&self.source, source)
    }

    /// Polynomial identity of the base structural locus tested by decision
    /// `decision_ordinal`.
    pub fn structural_locus(&self, decision_ordinal: usize) -> (r: Option<&u64>)
        ensures
            r == (if decision_ordinal < self.spec_decisions().len() && self.spec_decisions()[decision_ordinal as int].structural_locus_ordinal
                < self.spec_source().spec_source().base_structural_loci@.len() {
                Some(
                    &self.spec_source().spec_source().base_structural_loci@[self.spec_decisions()[decision_ordinal as int].structural_locus_ordinal as int],
                )
            } else {
                None
            }),
    {
        if decision_ordinal >= self.decisions.len() {
            return None;
        }
        let locus = self.decisions[decision_ordinal].structural_locus_ordinal;
        let loci = self.source.normalized().base_structural_loci();
        if locus >= loci.len() {
            return None;
        }
        Some(&loci[locus])
    }

    /// Disposition of the terminal this path ends in.
    pub fn terminal_disposition(&self) -> (r: Result<&ParametricSectorMtbddDisposition, ParametricSectorResidualPathError>)
        ensures
            r matches Ok(d) ==> self.spec_terminal_ordinal() < source_payloads(self.spec_source()).len()
                && source_payloads(self.spec_source())[self.spec_terminal_ordinal() as int]
                == ParametricSectorMtbddTerminalPayload::Disposition(*d),
            r is Ok <==> self.spec_terminal_ordinal() < source_payloads(self.spec_source()).len() && source_payloads(
                self.spec_source(),
            )[self.spec_terminal_ordinal() as int] is Disposition,
    {
        terminal_disposition(&self.source, self.terminal_ordinal)
    }

    /// Field-by-field equality, the source compared by allocation.
    pub fn payload_eq(&self, other: &Self) -> (r: bool)
        ensures
            r ==> {
                &&& self.path_view() == other.path_view()
                &&& self.spec_source() == other.spec_source()
                &&& self.spec_request() == other.spec_request()
                &&& self.spec_yield_ordinal() == other.spec_yield_ordinal()
                &&& self.spec_terminal_kind() == other.spec_terminal_kind()
                &&& self.spec_limits() == other.spec_limits()
                &&& self.spec_stats() == other.spec_stats()
                &&& self.spec_source_root() == other.spec_source_root()
            },
    {
        if !text_eq(self.schema, other.schema) || !text_eq(self.branch_order_schema, other.branch_order_schema) {
            return false;
        }
        if !same_allocation(&self.source, &other.source) {
            return false;
        }
        if self.source_root != other.source_root || self.request != other.request || self.yield_ordinal != other.yield_ordinal
            || self.terminal_ordinal != other.terminal_ordinal || self.terminal_kind != other.terminal_kind || self.limits
            != other.limits || self.stats != other.stats {
            return false;
        }
        if self.decisions.len() != other.decisions.len() {
            return false;
        }
        let mut i: usize = 0;
        while i < self.decisions.len()
            invariant
                i <= self.decisions@.len(),
                self.decisions@.len() == other.decisions@.len(),
                forall|j: int| 0 <= j < i ==> self.decisions@[j] == other.decisions@[j],
            decreases self.decisions@.len() - i,
        {
            if self.decisions[i] != other.decisions[i] {
                return false;
            }
            i = i + 1;
        }
        assert(self.decisions@ =~= other.decisions@);
        true
    }
}

// ---------------------------------------------------------------------------
// The cursor.
// ---------------------------------------------------------------------------

/// Resumable deterministic depth-first traversal.  A resource failure
/// poisons only this cursor; the shared source and every path already
/// yielded stay valid.
pub struct ParametricSectorResidualPathCursor {
    schema: &'static str,
    source: Arc<ParametricSectorMtbddCoverageCertificate>,
    source_root: CoverageDecisionRef,
    request: ParametricSectorResidualPathRequest,
    current: Option<CoverageDecisionRef>,
    frontier: Vec<ParametricSectorResidualPathDecision>,
    /// Frontier entries reserved so far, as requested from the allocator.
    frontier_capacity: usize,
    resume_after_terminal: bool,
    exhausted: bool,
    poisoned: bool,
    limits: ParametricSectorResidualPathLimits,
    stats: ParametricSectorResidualPathCursorStats,
    visited: Ghost<Seq<ResidualPathView>>,
}


impl ParametricSectorResidualPathCursor {
    pub closed spec fn spec_source(&self) -> ParametricSectorMtbddCoverageCertificate {
        *self.source
    }

    pub closed spec fn spec_request(&self) -> ParametricSectorResidualPathRequest {
        self.request
    }

    pub closed spec fn spec_limits(&self) -> ParametricSectorResidualPathLimits {
        self.limits
    }

    pub closed spec fn spec_stats(&self) -> ParametricSectorResidualPathCursorStats {
        self.stats
    }

    /// Entries reserved for the frontier.
    pub closed spec fn spec_frontier_capacity(&self) -> usize {
        self.frontier_capacity
    }

    pub closed spec fn spec_frontier(&self) -> Seq<ParametricSectorResidualPathDecision> {
        self.frontier@
    }

    pub closed spec fn spec_poisoned(&self) -> bool {
        self.poisoned
    }

    pub closed spec fn spec_exhausted(&self) -> bool {
        self.exhausted
    }

    /// Accepted residual paths visited so far, in order.
    pub closed spec fn spec_yielded(&self) -> Seq<ResidualPathView> {
        self.visited@.filter(path_accepted(source_payloads(*self.source), self.request))
    }

    closed spec fn traversal(&self) -> bool {
        let source = *self.source;
        let nodes = source_nodes(source);
        let atoms = source_atoms(source);
        let root = source_root(source);
        &&& source_shape(source)
        &&& self.source_root == root
        &&& path_valid(nodes, atoms, root, self.frontier@)
        &&& self.frontier@.len() <= self.frontier_capacity
        &&& self.frontier_capacity <= 2 * atoms.len()
        &&& self.frontier@.len() <= atoms.len()
        &&& self.stats.paths_yielded == self.visited@.filter(path_accepted(source_payloads(source), self.request)).len()
        &&& self.stats.structural_locus_translations == self.stats.node_visits
        &&& if self.exhausted {
            &&& self.current is None
            &&& !self.resume_after_terminal
            &&& self.visited@ == all_paths(nodes, atoms, root)
        } else if self.resume_after_terminal {
            &&& self.current is Some
            &&& dfs_after(nodes, atoms, root, self.visited@, self.frontier@)
        } else {
            &&& self.current == Some(path_end(nodes, root, self.frontier@))
            &&& dfs_at(nodes, atoms, root, self.visited@, self.frontier@, path_end(nodes, root, self.frontier@))
        }
    }

    /// A live cursor stands at an exact point of the depth-first traversal
    /// of its source; a poisoned one only refuses work.
    pub closed spec fn wf(&self) -> bool {
        &&& self.schema == PARAMETRIC_SECTOR_RESIDUAL_PATH_CURSOR_V1_SCHEMA
        &&& self.poisoned || self.traversal()
    }

    /// Number of paths the traversal has still to visit.
    closed spec fn remaining(&self) -> nat {
        let source = *self.source;
        (all_paths(source_nodes(source), source_atoms(source), source_root(source)).len() - self.visited@.len()) as nat
    }

    /// Traversal steps still possible: each remaining path costs a terminal
    /// visit and up to one descent per atom, a pending backtrack up to one
    /// flip, and each atom not yet on the frontier a descent.
    closed spec fn potential(&self) -> nat {
        let a = source_atoms(*self.source).len();
        self.remaining() * (a + 2) + (if self.resume_after_terminal {
            a + 1
        } else {
            0
        }) + (a - self.frontier@.len()) as nat
    }

    proof fn lemma_potential_bound(&self)
        requires
            self.traversal(),
        ensures
            self.potential() <= (source_path_count(*self.source) + 2) * (source_atoms(*self.source).len() + 2),
    {
        let a = source_atoms(self.spec_source()).len();
        let paths = source_path_count(self.spec_source());
        self.lemma_visited_bound();
        let rem = self.remaining();
        assert(rem <= paths);
        assert(rem * (a + 2) <= paths * (a + 2)) by (nonlinear_arith)
            requires
                rem <= paths,
        ;
        assert((paths + 2) * (a + 2) == paths * (a + 2) + 2 * (a + 2)) by (nonlinear_arith);
    }

    proof fn lemma_visited_bound(&self)
        requires
            self.traversal(),
        ensures
            self.visited@.len() <= all_paths(
                source_nodes(*self.source),
                source_atoms(*self.source),
                source_root(*self.source),
            ).len(),
    {
    }

    /// The yielded paths are exactly the first accepted residual paths of
    /// the source; an exhausted cursor has yielded all of them.
    pub proof fn lemma_yielded_prefix(&self)
        requires
            self.wf(),
            !self.spec_poisoned(),
        ensures
            self.spec_yielded().len() <= residual_paths(self.spec_source(), self.spec_request()).len(),
            residual_paths(self.spec_source(), self.spec_request()).take(self.spec_yielded().len() as int) == self.spec_yielded(),
            self.spec_exhausted() ==> self.spec_yielded() == residual_paths(self.spec_source(), self.spec_request()),
    {
        let source = *self.source;
        let nodes = source_nodes(source);
        let atoms = source_atoms(source);
        let root = source_root(source);
        let p = path_accepted(source_payloads(source), self.request);
        let all = all_paths(nodes, atoms, root);
        let visited = self.visited@;
        let rest = if self.exhausted {
            Seq::<ResidualPathView>::empty()
        } else if self.resume_after_terminal {
            pending(nodes, atoms, self.frontier@, self.frontier@.len() as int)
        } else {
            prefixed(all_paths(nodes, atoms, path_end(nodes, root, self.frontier@)), self.frontier@) + pending(
                nodes,
                atoms,
                self.frontier@,
                self.frontier@.len() as int,
            )
        };
        if self.exhausted {
            assert(visited + rest =~= all);
        } else if !self.resume_after_terminal {
            assert(visited + rest =~= all);
        }
        lemma_visited_prefix(visited, rest, p);
        if self.exhausted {
            assert(visited.filter(p).take(visited.filter(p).len() as int) =~= visited.filter(p));
        }
    }

    /// Start a traversal of `source` at its root.
    pub fn try_new(
        source: Arc<ParametricSectorMtbddCoverageCertificate>,
        request: ParametricSectorResidualPathRequest,
        limits: ParametricSectorResidualPathLimits,
    ) -> (r: Result<Self, ParametricSectorResidualPathError>)
        ensures
            r matches Ok(c) ==> {
                &&& c.wf()
                &&& !c.spec_poisoned()
                &&& c.spec_source() == *source
                &&& c.spec_request() == request
                &&& c.spec_limits() == limits
                &&& c.spec_yielded() == Seq::<ResidualPathView>::empty()
                &&& c.spec_frontier() == Seq::<ParametricSectorResidualPathDecision>::empty()
                &&& c.spec_stats().source_references == 1
                &&& c.spec_stats().reference_visits == 0
                &&& c.spec_stats().paths_yielded == 0
                &&& c.spec_stats().peak_cursor_retained_bytes == vstd::layout::size_of::<ParametricSectorResidualPathCursor>()
            },
            source.spec_schema()@ != PARAMETRIC_SECTOR_MTBDD_COVERAGE_V5_STAGE1_SCHEMA@ ==> r == Err::<
                Self,
                ParametricSectorResidualPathError,
            >(ParametricSectorResidualPathError::SourceSchemaMismatch),
            source.spec_schema()@ == PARAMETRIC_SECTOR_MTBDD_COVERAGE_V5_STAGE1_SCHEMA@ && !source_header_ok(*source) ==> r == Err::<
                Self,
                ParametricSectorResidualPathError,
            >(ParametricSectorResidualPathError::SourceShapeMismatch),
            source_header_ok(*source) && vstd::layout::size_of::<ParametricSectorResidualPathCursor>() > limits.max_cursor_retained_bytes
                ==> r == Err::<Self, ParametricSectorResidualPathError>(
                ParametricSectorResidualPathError::ResourceLimit {
                    resource: "residual-path cursor retained bytes",
                    requested: vstd::layout::size_of::<ParametricSectorResidualPathCursor>() as usize,
                    limit: limits.max_cursor_retained_bytes,
                },
            ),
            r is Ok <==> source_header_ok(*source) && vstd::layout::size_of::<ParametricSectorResidualPathCursor>()
                <= limits.max_cursor_retained_bytes,
    {
        validate_source_header(&source)?;
        let source_root = single_root(&source)?;
        let retained = core::mem::size_of::<Self>();
        check_limit("residual-path cursor retained bytes", retained, limits.max_cursor_retained_bytes)?;
        proof {
            lemma_start_at(&*source);
            reveal(Seq::filter);
        }
        Ok(
            ParametricSectorResidualPathCursor {
                schema: PARAMETRIC_SECTOR_RESIDUAL_PATH_CURSOR_V1_SCHEMA,
                source,
                source_root,
                request,
                current: Some(source_root),
                frontier: Vec::new(),
                frontier_capacity: 0,
                resume_after_terminal: false,
                exhausted: false,
                poisoned: false,
                limits,
                stats: ParametricSectorResidualPathCursorStats {
                    source_references: 1,
                    reference_visits: 0,
                    node_visits: 0,
                    terminal_visits: 0,
                    branch_traversals: 0,
                    backtracks: 0,
                    maximum_depth: 0,
                    peak_frontier_capacity_entries: 0,
                    peak_cursor_retained_bytes: retained,
                    descending_terminals_skipped: 0,
                    uncovered_terminals_visited: 0,
                    unsupported_terminals_visited: 0,
                    filtered_residual_terminals: 0,
                    paths_yielded: 0,
                    total_path_decisions_copied: 0,
                    structural_locus_translations: 0,
                },
                visited: Ghost(Seq::empty()),
            },
        )
    }

    pub fn schema(&self) -> (r: &'static str)
        ensures
            self.wf() ==> r == PARAMETRIC_SECTOR_RESIDUAL_PATH_CURSOR_V1_SCHEMA,
    {
        self.schema
    }

    pub fn branch_order_schema(&self) -> (r: &'static str)
        ensures
            r == PARAMETRIC_SECTOR_RESIDUAL_PATH_BRANCH_ORDER_V1,
    {
        PARAMETRIC_SECTOR_RESIDUAL_PATH_BRANCH_ORDER_V1
    }

    pub fn limits(&self) -> (r: ParametricSectorResidualPathLimits)
        ensures
            r == self.spec_limits(),
    {
        self.limits
    }

    pub fn request(&self) -> (r: ParametricSectorResidualPathRequest)
        ensures
            r == self.spec_request(),
    {
        self.request
    }

    pub fn stats(&self) -> (r: ParametricSectorResidualPathCursorStats)
        ensures
            r == self.spec_stats(),
    {
        self.stats
    }

    pub fn same_source_allocation(&self, source: &Arc<ParametricSectorMtbddCoverageCertificate>) -> (r: bool)
        ensures
            r ==> self.spec_source() == **source,
    {
        same_allocation(&self.source, source)
    }

    /// Decisions from the root to the current position.
    pub fn frontier(&self) -> (r: &[ParametricSectorResidualPathDecision])
        ensures
            r@ == self.spec_frontier(),
    {
        self.frontier.as_slice()
    }

    pub fn is_exhausted(&self) -> (r: bool)
        ensures
            r == self.spec_exhausted(),
    {
        self.exhausted
    }

    pub fn is_poisoned(&self) -> (r: bool)
        ensures
            r == self.spec_poisoned(),
    {
        self.poisoned
    }

    /// Bytes retained by the cursor and its frontier reservation.
    pub fn retained_bytes(&self) -> (r: Result<usize, ParametricSectorResidualPathError>)
        ensures
            r matches Ok(v) ==> v == vstd::layout::size_of::<ParametricSectorResidualPathCursor>()
                + self.spec_frontier_capacity() * vstd::layout::size_of::<ParametricSectorResidualPathDecision>(),
            r is Ok <==> vstd::layout::size_of::<ParametricSectorResidualPathCursor>() + self.spec_frontier_capacity()
                * vstd::layout::size_of::<ParametricSectorResidualPathDecision>() <= usize::MAX,
    {
        cursor_retained_bytes(self.frontier_capacity)
    }
}

impl ParametricSectorResidualPathCursor {
    /// `self` and `other` stand at the same point of the same walk; only
    /// the work counters and the frontier reservation may differ.
    closed spec fn same_walk(&self, other: &Self) -> bool {
        &&& self.schema == other.schema
        &&& self.source == other.source
        &&& self.source_root == other.source_root
        &&& self.request == other.request
        &&& self.current == other.current
        &&& self.frontier@ == other.frontier@
        &&& self.resume_after_terminal == other.resume_after_terminal
        &&& self.exhausted == other.exhausted
        &&& self.poisoned == other.poisoned
        &&& self.limits == other.limits
        &&& self.visited == other.visited
        &&& self.stats.paths_yielded == other.stats.paths_yielded
        &&& self.stats.node_visits == other.stats.node_visits
        &&& self.stats.structural_locus_translations == other.stats.structural_locus_translations
        &&& self.stats.reference_visits == other.stats.reference_visits
        &&& self.stats.terminal_visits == other.stats.terminal_visits
        &&& self.stats.branch_traversals == other.stats.branch_traversals
        &&& self.stats.backtracks == other.stats.backtracks
        &&& self.stats.descending_terminals_skipped == other.stats.descending_terminals_skipped
        &&& self.stats.uncovered_terminals_visited == other.stats.uncovered_terminals_visited
        &&& self.stats.unsupported_terminals_visited == other.stats.unsupported_terminals_visited
        &&& self.stats.filtered_residual_terminals == other.stats.filtered_residual_terminals
    }

    fn observe_frontier_capacity(&mut self) -> (r: Result<(), ParametricSectorResidualPathError>)
        ensures
            final(self).same_walk(&*old(self)),
            final(self).frontier_capacity == old(self).frontier_capacity,
            final(self).stats.total_path_decisions_copied == old(self).stats.total_path_decisions_copied,
            old(self).frontier_capacity <= old(self).limits.max_frontier_capacity_entries
                && vstd::layout::size_of::<ParametricSectorResidualPathCursor>() + old(self).frontier_capacity
                * vstd::layout::size_of::<ParametricSectorResidualPathDecision>() <= old(self).limits.max_cursor_retained_bytes
                ==> r is Ok,
    {
        let capacity = self.frontier_capacity;
        check_limit("residual-path frontier capacity entries", capacity, self.limits.max_frontier_capacity_entries)?;
        let retained = cursor_retained_bytes(capacity)?;
        check_limit("residual-path cursor retained bytes", retained, self.limits.max_cursor_retained_bytes)?;
        if capacity > self.stats.peak_frontier_capacity_entries {
            self.stats.peak_frontier_capacity_entries = capacity;
        }
        if retained > self.stats.peak_cursor_retained_bytes {
            self.stats.peak_cursor_retained_bytes = retained;
        }
        Ok(())
    }

    /// Reserve room for `next_depth` frontier entries, doubling the
    /// reservation so that frontier growth stays amortized.
    fn reserve_frontier_for_depth(&mut self, next_depth: usize) -> (r: Result<(), ParametricSectorResidualPathError>)
        ensures
            final(self).same_walk(&*old(self)),
            final(self).frontier_capacity >= old(self).frontier_capacity,
            final(self).stats.total_path_decisions_copied == old(self).stats.total_path_decisions_copied,
            r is Ok ==> final(self).frontier_capacity >= next_depth,
            ({
                let a = source_atoms(*old(self).source).len();
                &&& old(self).frontier@.len() < next_depth <= a
                &&& old(self).frontier_capacity <= 2 * a
            }) ==> final(self).frontier_capacity <= 2 * source_atoms(*old(self).source).len(),
            ({
                let a = source_atoms(*old(self).source).len();
                &&& old(self).frontier@.len() < next_depth <= a
                &&& old(self).frontier_capacity <= 2 * a
                &&& 2 * a <= old(self).limits.max_frontier_capacity_entries
                &&& vstd::layout::size_of::<ParametricSectorResidualPathCursor>() + 2 * a * vstd::layout::size_of::<
                    ParametricSectorResidualPathDecision,
                >() <= old(self).limits.max_cursor_retained_bytes
            }) ==> (r is Ok || r matches Err(ParametricSectorResidualPathError::AllocationFailure { .. })),
    {
        let ghost a = source_atoms(self.spec_source()).len();
        proof {
            if self.frontier_capacity <= 2 * a {
                lemma_bytes_monotone(self.frontier_capacity as nat, 2 * a);
            }
        }
        if self.frontier_capacity >= next_depth {
            return Ok(());
        }
        let doubled = if self.frontier_capacity == 0 {
            1
        } else {
            checked_mul("residual-path frontier growth entries", self.frontier_capacity, 2)?
        };
        let target = if doubled > next_depth {
            doubled
        } else {
            next_depth
        };
        proof {
            if target <= 2 * a {
                lemma_bytes_monotone(target as nat, 2 * a);
            }
        }
        check_limit("residual-path frontier capacity entries", target, self.limits.max_frontier_capacity_entries)?;
        check_limit("residual-path cursor retained bytes", cursor_retained_bytes(target)?, self.limits.max_cursor_retained_bytes)?;
        if target < self.frontier.len() {
            return Err(ParametricSectorResidualPathError::ResourceCountOverflow { resource: "residual-path frontier growth entries" });
        }
        let additional = target - self.frontier.len();
        if try_reserve_exact_entries(&mut self.frontier, additional).is_err() {
            return Err(ParametricSectorResidualPathError::AllocationFailure { resource: "residual-path frontier entries", requested: target });
        }
        self.frontier_capacity = target;
        self.observe_frontier_capacity()
    }

    /// Leave the current node along its nonzero (false) edge.
    fn descend_nonzero(&mut self, node_ordinal: usize) -> (r: Result<(), ParametricSectorResidualPathError>)
        requires
            old(self).traversal(),
            !old(self).poisoned,
            !old(self).exhausted,
            !old(self).resume_after_terminal,
            old(self).current == Some(CoverageDecisionRef::Node(node_ordinal)),
        ensures
            final(self).schema == old(self).schema,
            final(self).source == old(self).source,
            final(self).request == old(self).request,
            final(self).limits == old(self).limits,
            final(self).visited == old(self).visited,
            !final(self).poisoned,
            r is Ok ==> {
                &&& final(self).traversal()
                &&& !final(self).exhausted
                &&& !final(self).resume_after_terminal
                &&& final(self).potential() + 1 == old(self).potential()
                &&& final(self).stats.paths_yielded == old(self).stats.paths_yielded
                &&& final(self).stats.reference_visits == old(self).stats.reference_visits + 1
                &&& final(self).stats.node_visits == old(self).stats.node_visits + 1
                &&& final(self).stats.branch_traversals == old(self).stats.branch_traversals + 1
                &&& final(self).stats.terminal_visits == old(self).stats.terminal_visits
                &&& final(self).stats.backtracks == old(self).stats.backtracks
                &&& final(self).stats.descending_terminals_skipped == old(self).stats.descending_terminals_skipped
                &&& final(self).stats.uncovered_terminals_visited == old(self).stats.uncovered_terminals_visited
                &&& final(self).stats.unsupported_terminals_visited == old(self).stats.unsupported_terminals_visited
                &&& final(self).stats.filtered_residual_terminals == old(self).stats.filtered_residual_terminals
                &&& final(self).stats.total_path_decisions_copied == old(self).stats.total_path_decisions_copied
            },
            ({
                let a = source_atoms(*old(self).source).len();
                let l = old(self).limits;
                let st = old(self).stats;
                &&& st.reference_visits + 1 <= l.max_reference_visits
                &&& st.node_visits + 1 <= l.max_node_visits
                &&& st.branch_traversals + 1 <= l.max_branch_traversals
                &&& a <= l.max_depth
                &&& 2 * a <= l.max_frontier_capacity_entries
                &&& vstd::layout::size_of::<ParametricSectorResidualPathCursor>() + 2 * a * vstd::layout::size_of::<
                    ParametricSectorResidualPathDecision,
                >() <= l.max_cursor_retained_bytes
            }) ==> (r is Ok || r matches Err(ParametricSectorResidualPathError::AllocationFailure { .. })),
    {
        let ghost before = *self;
        proof {
            let source = self.spec_source();
            let rooted_v = source.spec_decision().spec_rooted();
            assert(ref_below(rooted_v.roots@[0], rooted_v.nodes@.len(), rooted_v.terminal_payloads@.len()));
            lemma_path_facts(
                source_nodes(source),
                source_atoms(source),
                source_root(source),
                self.frontier@,
                source_payloads(source).len(),
            );
            lemma_bytes_monotone((self.frontier@.len() + 1) as nat, 2 * source_atoms(source).len());
            assert(node_wf(source_nodes(source), node_ordinal as int, source_payloads(source).len(), rooted_v.atom_count as nat));
        }
        let rooted = self.source.decision().rooted();
        if node_ordinal >= rooted.nodes.len() {
            return Err(ParametricSectorResidualPathError::NodeOutOfRange { ordinal: node_ordinal, node_count: rooted.nodes.len() });
        }
        let node = rooted.nodes[node_ordinal];
        let atom_ordinal = node.atom;
        let atoms = self.source.decision().atoms();
        if atom_ordinal >= atoms.len() {
            return Err(ParametricSectorResidualPathError::AtomOutOfRange { ordinal: atom_ordinal, atom_count: atoms.len() });
        }
        let structural_locus_ordinal = atoms[atom_ordinal].structural_locus_ordinal;
        let locus_count = self.source.normalized().base_structural_loci().len();
        if structural_locus_ordinal >= locus_count {
            return Err(
                ParametricSectorResidualPathError::StructuralLocusOutOfRange { ordinal: structural_locus_ordinal, locus_count },
            );
        }
        let next_depth = checked_add("residual-path depth", self.frontier.len(), 1)?;
        check_limit("residual-path depth", next_depth, self.limits.max_depth)?;
        check_limit("residual-path frontier capacity entries", next_depth, self.limits.max_frontier_capacity_entries)?;
        check_limit("residual-path cursor retained bytes", cursor_retained_bytes(next_depth)?, self.limits.max_cursor_retained_bytes)?;
        let next_visits = checked_add("residual-path reference visits", self.stats.reference_visits, 1)?;
        check_limit("residual-path reference visits", next_visits, self.limits.max_reference_visits)?;
        let next_node_visits = checked_add("residual-path node visits", self.stats.node_visits, 1)?;
        check_limit("residual-path node visits", next_node_visits, self.limits.max_node_visits)?;
        let next_branches = checked_add("residual-path branch traversals", self.stats.branch_traversals, 1)?;
        check_limit("residual-path branch traversals", next_branches, self.limits.max_branch_traversals)?;
        self.reserve_frontier_for_depth(next_depth)?;
        let decision = ParametricSectorResidualPathDecision {
            node_ordinal,
            atom_ordinal,
            structural_locus_ordinal,
            polarity: ParametricSectorResidualPathPolarity::NonZero,
        };
        self.frontier.push(decision);
        self.stats.reference_visits = next_visits;
        self.stats.node_visits = next_node_visits;
        self.stats.branch_traversals = next_branches;
        self.stats.structural_locus_translations = next_node_visits;
        if next_depth > self.stats.maximum_depth {
            self.stats.maximum_depth = next_depth;
        }
        self.current = Some(node.when_false);
        proof {
            let source = *self.source;
            let nodes = source_nodes(source);
            let atoms_v = source_atoms(source);
            let root = source_root(source);
            assert(nodes[node_ordinal as int] == node);
            assert(decision == decision_for(nodes, atoms_v, node_ordinal, ParametricSectorResidualPathPolarity::NonZero));
            lemma_descend(
                nodes,
                atoms_v,
                root,
                before.visited@,
                before.frontier@,
                node_ordinal,
                source_payloads(source).len(),
            );
            assert(node_wf(nodes, node_ordinal as int, source_payloads(source).len(), atoms_v.len()));
        }
        Ok(())
    }

    /// Move past the terminal just visited: flip the deepest nonzero
    /// decision to its equal-zero edge, dropping finished decisions on the
    /// way; with none left the traversal is exhausted.
    fn advance_after_terminal(&mut self) -> (r: Result<bool, ParametricSectorResidualPathError>)
        requires
            old(self).traversal(),
            !old(self).poisoned,
            !old(self).exhausted,
            old(self).resume_after_terminal,
        ensures
            final(self).schema == old(self).schema,
            final(self).source == old(self).source,
            final(self).request == old(self).request,
            final(self).limits == old(self).limits,
            final(self).visited == old(self).visited,
            !final(self).poisoned,
            r matches Ok(true) ==> final(self).traversal() && !final(self).exhausted && !final(self).resume_after_terminal
                && final(self).stats.paths_yielded == old(self).stats.paths_yielded,
            r matches Ok(false) ==> final(self).traversal() && final(self).exhausted
                && final(self).stats.paths_yielded == old(self).stats.paths_yielded,
            r matches Ok(true) ==> {
                &&& final(self).frontier@.len() <= old(self).frontier@.len()
                &&& final(self).stats.backtracks <= old(self).stats.backtracks + (old(self).frontier@.len()
                    - final(self).frontier@.len()) + 1
                &&& final(self).stats.branch_traversals == old(self).stats.branch_traversals + 1
                &&& final(self).stats.reference_visits == old(self).stats.reference_visits
                &&& final(self).stats.node_visits == old(self).stats.node_visits
                &&& final(self).stats.terminal_visits == old(self).stats.terminal_visits
                &&& final(self).stats.descending_terminals_skipped == old(self).stats.descending_terminals_skipped
                &&& final(self).stats.uncovered_terminals_visited == old(self).stats.uncovered_terminals_visited
                &&& final(self).stats.unsupported_terminals_visited == old(self).stats.unsupported_terminals_visited
                &&& final(self).stats.filtered_residual_terminals == old(self).stats.filtered_residual_terminals
                &&& final(self).stats.total_path_decisions_copied == old(self).stats.total_path_decisions_copied
                &&& final(self).potential() + source_atoms(*old(self).source).len() + 1 == old(self).potential() + (old(
                    self,
                ).frontier@.len() - final(self).frontier@.len())
            },
            old(self).stats.backtracks + old(self).frontier@.len() + 1 <= old(self).limits.max_backtracks
                && old(self).stats.branch_traversals + 1 <= old(self).limits.max_branch_traversals ==> r is Ok,
    {
        let ghost start = *self;
        loop
            invariant
                start == *old(self),
                self.frontier@.len() <= start.frontier@.len(),
                self.stats.backtracks <= start.stats.backtracks + (start.frontier@.len() - self.frontier@.len()),
                self.stats.branch_traversals == start.stats.branch_traversals,
                self.stats.reference_visits == start.stats.reference_visits,
                self.stats.terminal_visits == start.stats.terminal_visits,
                self.stats.descending_terminals_skipped == start.stats.descending_terminals_skipped,
                self.stats.uncovered_terminals_visited == start.stats.uncovered_terminals_visited,
                self.stats.unsupported_terminals_visited == start.stats.unsupported_terminals_visited,
                self.stats.filtered_residual_terminals == start.stats.filtered_residual_terminals,
                self.stats.total_path_decisions_copied == start.stats.total_path_decisions_copied,
                self.potential() == start.potential() + (start.frontier@.len() - self.frontier@.len()),
                self.schema == start.schema,
                self.source == start.source,
                self.source_root == start.source_root,
                self.request == start.request,
                self.limits == start.limits,
                self.visited == start.visited,
                !self.poisoned,
                !self.exhausted,
                self.resume_after_terminal,
                self.current is Some,
                self.stats.paths_yielded == start.stats.paths_yielded,
                self.stats.node_visits == start.stats.node_visits,
                self.stats.structural_locus_translations == start.stats.structural_locus_translations,
                self.traversal(),
            decreases self.frontier@.len(),
        {
            let depth = self.frontier.len();
            if depth == 0 {
                self.current = None;
                self.exhausted = true;
                self.resume_after_terminal = false;
                proof {
                    let source = *self.source;
                    lemma_exhausted(source_nodes(source), source_atoms(source), source_root(source), self.visited@, self.frontier@);
                }
                return Ok(false);
            }
            let last = self.frontier[depth - 1];
            let next_backtracks = checked_add("residual-path backtracks", self.stats.backtracks, 1)?;
            check_limit("residual-path backtracks", next_backtracks, self.limits.max_backtracks)?;
            if last.polarity == ParametricSectorResidualPathPolarity::NonZero {
                let rooted = self.source.decision().rooted();
                if last.node_ordinal >= rooted.nodes.len() {
                    return Err(
                        ParametricSectorResidualPathError::NodeOutOfRange { ordinal: last.node_ordinal, node_count: rooted.nodes.len() },
                    );
                }
                let node = rooted.nodes[last.node_ordinal];
                if node.atom != last.atom_ordinal {
                    return Err(ParametricSectorResidualPathError::PathReplayMismatch);
                }
                let next_branches = checked_add("residual-path branch traversals", self.stats.branch_traversals, 1)?;
                check_limit("residual-path branch traversals", next_branches, self.limits.max_branch_traversals)?;
                let ghost before = *self;
                self.frontier.set(
                    depth - 1,
                    ParametricSectorResidualPathDecision { polarity: ParametricSectorResidualPathPolarity::EqualZero, ..last },
                );
                self.stats.backtracks = next_backtracks;
                self.stats.branch_traversals = next_branches;
                self.current = Some(node.when_true);
                self.resume_after_terminal = false;
                proof {
                    let source = *self.source;
                    assert(before.frontier@.last() == last);
                    lemma_flip(source_nodes(source), source_atoms(source), source_root(source), self.visited@, before.frontier@);
                    assert(source_nodes(source)[last.node_ordinal as int] == node);
                }
                return Ok(true);
            }
            let ghost before = *self;
            self.stats.backtracks = next_backtracks;
            self.frontier.pop();
            proof {
                let source = *self.source;
                assert(before.frontier@.last() == last);
                lemma_pop(source_nodes(source), source_atoms(source), source_root(source), self.visited@, before.frontier@);
                assert(self.frontier@ =~= before.frontier@.drop_last());
            }
        }
    }

    /// Copy the current frontier into a yielded path certificate.
    fn build_certificate(
        &mut self,
        yield_ordinal: usize,
        terminal_ordinal: usize,
        terminal_kind: ParametricSectorResidualPathTerminalKind,
        unsupported_references: usize,
    ) -> (r: Result<ParametricSectorResidualPathCertificate, ParametricSectorResidualPathError>)
        ensures
            final(self).same_walk(&*old(self)),
            final(self).frontier_capacity == old(self).frontier_capacity,
            r matches Ok(c) ==> {
                &&& c.spec_schema() == PARAMETRIC_SECTOR_RESIDUAL_PATH_V1_SCHEMA
                &&& c.spec_branch_order_schema() == PARAMETRIC_SECTOR_RESIDUAL_PATH_BRANCH_ORDER_V1
                &&& c.spec_source() == *old(self).source
                &&& c.spec_source_root() == old(self).source_root
                &&& c.spec_request() == old(self).request
                &&& c.spec_yield_ordinal() == yield_ordinal
                &&& c.spec_decisions() == old(self).frontier@
                &&& c.spec_terminal_ordinal() == terminal_ordinal
                &&& c.spec_terminal_kind() == terminal_kind
                &&& c.spec_limits() == old(self).limits
                &&& c.spec_stats().decisions == old(self).frontier@.len()
                &&& c.spec_stats().nonzero_decisions == nonzero_count(old(self).frontier@)
                &&& c.spec_stats().unsupported_candidate_references == unsupported_references
            },
            ({
                let l = old(self).limits;
                let n = old(self).frontier@.len();
                &&& old(self).stats.total_path_decisions_copied + n <= l.max_total_path_decisions_copied
                &&& n <= l.max_path_decisions
                &&& n <= l.max_depth
                &&& unsupported_references <= l.max_unsupported_candidate_references
                &&& vstd::layout::size_of::<ParametricSectorResidualPathCertificate>() + n * vstd::layout::size_of::<
                    ParametricSectorResidualPathDecision,
                >() <= l.max_path_retained_bytes
            }) ==> (r is Ok || r matches Err(ParametricSectorResidualPathError::AllocationFailure { .. })),
    {
        let next_total = checked_add("residual-path total decisions copied", self.stats.total_path_decisions_copied, self.frontier.len())?;
        check_limit("residual-path total decisions copied", next_total, self.limits.max_total_path_decisions_copied)?;
        check_limit("residual-path retained decisions", self.frontier.len(), self.limits.max_path_decisions)?;
        check_limit(
            "residual-path unsupported candidate references",
            unsupported_references,
            self.limits.max_unsupported_candidate_references,
        )?;
        let decision_bytes = checked_mul(
            "residual-path retained bytes",
            self.frontier.len(),
            core::mem::size_of::<ParametricSectorResidualPathDecision>(),
        )?;
        let logical_path_bytes = checked_add(
            "residual-path retained bytes",
            core::mem::size_of::<ParametricSectorResidualPathCertificate>(),
            decision_bytes,
        )?;
        check_limit("residual-path retained bytes", logical_path_bytes, self.limits.max_path_retained_bytes)?;
        let mut decisions: Vec<ParametricSectorResidualPathDecision> = Vec::new();
        if try_reserve_exact_entries(&mut decisions, self.frontier.len()).is_err() {
            return Err(
                ParametricSectorResidualPathError::AllocationFailure {
                    resource: "residual-path retained decisions",
                    requested: self.frontier.len(),
                },
            );
        }
        let mut i: usize = 0;
        while i < self.frontier.len()
            invariant
                i <= self.frontier@.len(),
                decisions@ == self.frontier@.take(i as int),
            decreases self.frontier@.len() - i,
        {
            decisions.push(self.frontier[i]);
            i = i + 1;
            assert(decisions@ =~= self.frontier@.take(i as int));
        }
        assert(decisions@ =~= self.frontier@);
        let stats = path_stats(&decisions, unsupported_references, self.limits)?;
        self.stats.total_path_decisions_copied = next_total;
        Ok(
            ParametricSectorResidualPathCertificate {
                schema: PARAMETRIC_SECTOR_RESIDUAL_PATH_V1_SCHEMA,
                branch_order_schema: PARAMETRIC_SECTOR_RESIDUAL_PATH_BRANCH_ORDER_V1,
                source: share(&self.source),
                source_root: self.source_root,
                request: self.request,
                yield_ordinal,
                decisions,
                terminal_ordinal,
                terminal_kind,
                limits: self.limits,
                stats,
            },
        )
    }
}

impl ParametricSectorResidualPathCursor {
    /// Work counters have grown from `start` by at most the potential
    /// spent since: one unit per step, two branch traversals, and one
    /// backtrack per atom plus one.
    closed spec fn spent_within(&self, start: Self, a: nat) -> bool {
        let d = start.potential() - self.potential();
        &&& self.stats.reference_visits <= start.stats.reference_visits + d
        &&& self.stats.node_visits <= start.stats.node_visits + d
        &&& self.stats.terminal_visits <= start.stats.terminal_visits + d
        &&& self.stats.descending_terminals_skipped <= start.stats.descending_terminals_skipped + d
        &&& self.stats.uncovered_terminals_visited <= start.stats.uncovered_terminals_visited + d
        &&& self.stats.unsupported_terminals_visited <= start.stats.unsupported_terminals_visited + d
        &&& self.stats.filtered_residual_terminals <= start.stats.filtered_residual_terminals + d
        &&& self.stats.branch_traversals <= start.stats.branch_traversals + 2 * d
        &&& self.stats.backtracks <= start.stats.backtracks + (a + 1) * d
    }

    /// One unit step (a descent or a terminal visit) keeps the spending
    /// within the potential.
    proof fn lemma_spent_step(&self, before: Self, start: Self, a: nat)
        requires
            before.spent_within(start, a),
            before.potential() <= start.potential(),
            self.potential() + 1 == before.potential(),
            self.stats.reference_visits <= before.stats.reference_visits + 1,
            self.stats.node_visits <= before.stats.node_visits + 1,
            self.stats.terminal_visits <= before.stats.terminal_visits + 1,
            self.stats.descending_terminals_skipped <= before.stats.descending_terminals_skipped + 1,
            self.stats.uncovered_terminals_visited <= before.stats.uncovered_terminals_visited + 1,
            self.stats.unsupported_terminals_visited <= before.stats.unsupported_terminals_visited + 1,
            self.stats.filtered_residual_terminals <= before.stats.filtered_residual_terminals + 1,
            self.stats.branch_traversals <= before.stats.branch_traversals + 1,
            self.stats.backtracks == before.stats.backtracks,
        ensures
            self.spent_within(start, a),
    {
        let d = (start.potential() - before.potential()) as nat;
        lemma_mul_grow(a + 1, d, 1);
    }

    /// A backtrack that pops `p` decisions and flips one keeps the spending
    /// within the potential.
    proof fn lemma_spent_advance(&self, before: Self, start: Self, a: nat)
        requires
            before.spent_within(start, a),
            before.potential() <= start.potential(),
            self.frontier@.len() <= before.frontier@.len() <= a,
            self.potential() + a + 1 == before.potential() + (before.frontier@.len() - self.frontier@.len()),
            self.stats.backtracks <= before.stats.backtracks + (before.frontier@.len() - self.frontier@.len()) + 1,
            self.stats.branch_traversals == before.stats.branch_traversals + 1,
            self.stats.reference_visits == before.stats.reference_visits,
            self.stats.node_visits == before.stats.node_visits,
            self.stats.terminal_visits == before.stats.terminal_visits,
            self.stats.descending_terminals_skipped == before.stats.descending_terminals_skipped,
            self.stats.uncovered_terminals_visited == before.stats.uncovered_terminals_visited,
            self.stats.unsupported_terminals_visited == before.stats.unsupported_terminals_visited,
            self.stats.filtered_residual_terminals == before.stats.filtered_residual_terminals,
        ensures
            self.spent_within(start, a),
            self.potential() < before.potential(),
    {
        let d = (start.potential() - before.potential()) as nat;
        let popped = (before.frontier@.len() - self.frontier@.len()) as nat;
        let m = (a + 1 - popped) as nat;
        lemma_mul_grow(a + 1, d, m);
    }

    /// With potential left, every counter still has room for one more step,
    /// and the backtrack counter for a whole backtrack.
    proof fn lemma_room(&self, start: Self, a: nat, w: nat)
        requires
            self.spent_within(start, a),
            1 <= self.potential() <= start.potential(),
            start.potential() <= w,
            2 * start.potential() <= w,
            (a + 1) * start.potential() <= w,
            self.frontier@.len() <= a,
            budget_allows(*start.source, start.limits, start.stats),
            w == traversal_budget(*start.source),
            a == source_atoms(*start.source).len(),
        ensures
            self.stats.reference_visits + 1 <= start.limits.max_reference_visits,
            self.stats.node_visits + 1 <= start.limits.max_node_visits,
            self.stats.terminal_visits + 1 <= start.limits.max_terminal_visits,
            self.stats.descending_terminals_skipped + 1 <= start.limits.max_descending_terminals_skipped,
            self.stats.uncovered_terminals_visited + 1 <= start.limits.max_terminal_visits,
            self.stats.unsupported_terminals_visited + 1 <= start.limits.max_terminal_visits,
            self.stats.filtered_residual_terminals + 1 <= start.limits.max_filtered_residual_terminals,
            self.stats.branch_traversals + 1 <= start.limits.max_branch_traversals,
            self.stats.backtracks + self.frontier@.len() + 1 <= start.limits.max_backtracks,
    {
        let d = (start.potential() - self.potential()) as nat;
        lemma_mul_step(a + 1, d, start.potential());
    }

    /// Visit the terminal at the current position: a descending rule is
    /// skipped, a residual terminal of another kind is filtered, and an
    /// accepted one is yielded.
    #[verifier::rlimit(40)]
    fn visit_terminal(&mut self, terminal: usize) -> (r: Result<
        Option<ParametricSectorResidualPathCertificate>,
        ParametricSectorResidualPathError,
    >)
        requires
            old(self).traversal(),
            !old(self).poisoned,
            !old(self).exhausted,
            !old(self).resume_after_terminal,
            old(self).current == Some(CoverageDecisionRef::Terminal(terminal)),
        ensures
            final(self).schema == old(self).schema,
            final(self).source == old(self).source,
            final(self).request == old(self).request,
            final(self).limits == old(self).limits,
            !final(self).poisoned,
            !final(self).exhausted,
            r is Ok ==> {
                &&& final(self).traversal()
                &&& final(self).resume_after_terminal
                &&& final(self).potential() + 1 == old(self).potential()
                &&& final(self).stats.reference_visits == old(self).stats.reference_visits + 1
                &&& final(self).stats.terminal_visits == old(self).stats.terminal_visits + 1
                &&& final(self).stats.descending_terminals_skipped <= old(self).stats.descending_terminals_skipped + 1
                &&& final(self).stats.uncovered_terminals_visited <= old(self).stats.uncovered_terminals_visited + 1
                &&& final(self).stats.unsupported_terminals_visited <= old(self).stats.unsupported_terminals_visited + 1
                &&& final(self).stats.filtered_residual_terminals <= old(self).stats.filtered_residual_terminals + 1
                &&& final(self).stats.node_visits == old(self).stats.node_visits
                &&& final(self).stats.branch_traversals == old(self).stats.branch_traversals
                &&& final(self).stats.backtracks == old(self).stats.backtracks
            },
            r matches Ok(None) ==> ({
                let p = path_accepted(source_payloads(*old(self).source), old(self).request);
                &&& final(self).visited@.filter(p) == old(self).visited@.filter(p)
                &&& final(self).stats.paths_yielded == old(self).stats.paths_yielded
                &&& final(self).stats.total_path_decisions_copied == old(self).stats.total_path_decisions_copied
            }),
            r matches Ok(Some(c)) ==> ({
                let p = path_accepted(source_payloads(*old(self).source), old(self).request);
                let all = residual_paths(*old(self).source, old(self).request);
                let before = old(self).visited@.filter(p);
                &&& before.len() < all.len()
                &&& c.path_view() == all[before.len() as int]
                &&& final(self).visited@.filter(p) == before.push(c.path_view())
                &&& c.spec_yield_ordinal() == final(self).visited@.filter(p).len()
                &&& c.spec_source() == *old(self).source
                &&& terminal_kind_matches(c)
                &&& c.spec_request() == old(self).request
                &&& c.spec_limits() == old(self).limits
                &&& c.spec_decisions() == final(self).frontier@
            }),
            ({
                let l = old(self).limits;
                let st = old(self).stats;
                let a = source_atoms(*old(self).source).len();
                let payloads = source_payloads(*old(self).source);
                &&& st.reference_visits + 1 <= l.max_reference_visits
                &&& st.terminal_visits + 1 <= l.max_terminal_visits
                &&& st.descending_terminals_skipped + 1 <= l.max_descending_terminals_skipped
                &&& st.uncovered_terminals_visited + 1 <= l.max_terminal_visits
                &&& st.unsupported_terminals_visited + 1 <= l.max_terminal_visits
                &&& st.filtered_residual_terminals + 1 <= l.max_filtered_residual_terminals
                &&& st.paths_yielded + 1 <= l.max_paths_yielded
                &&& st.total_path_decisions_copied + a <= l.max_total_path_decisions_copied
                &&& a <= l.max_path_decisions
                &&& a <= l.max_depth
                &&& vstd::layout::size_of::<ParametricSectorResidualPathCertificate>() + a * vstd::layout::size_of::<
                    ParametricSectorResidualPathDecision,
                >() <= l.max_path_retained_bytes
                &&& terminal < payloads.len()
                &&& payloads[terminal as int] is Disposition
                &&& (payloads[terminal as int] matches ParametricSectorMtbddTerminalPayload::Disposition(
                    ParametricSectorMtbddDisposition::Unsupported { candidate_ordinals },
                ) ==> candidate_ordinals@.len() <= l.max_unsupported_candidate_references)
            }) ==> (r is Ok || r matches Err(ParametricSectorResidualPathError::AllocationFailure { .. })),
    {
        let ghost source = self.spec_source();
        let ghost p = path_accepted(source_payloads(source), self.request);
        let ghost x = ResidualPathView { decisions: self.frontier@, terminal: terminal as nat };
        let ghost visited = self.visited@;
        let ghost rest = pending(source_nodes(source), source_atoms(source), self.frontier@, self.frontier@.len() as int);
        proof {
            lemma_visit_terminal(source_nodes(source), source_atoms(source), source_root(source), visited, self.frontier@, terminal);
            lemma_filter_push(visited, x, p);
            self.lemma_visited_bound();
            lemma_bytes_monotone(self.frontier@.len() as nat, source_atoms(source).len());
            let total = all_paths(source_nodes(source), source_atoms(source), source_root(source)).len();
            assert(visited.len() + 1 <= total);
            lemma_rem_step((total - visited.len() - 1) as nat, source_atoms(source).len() + 2);
        }
        charge_next("residual-path reference visits", &mut self.stats.reference_visits, self.limits.max_reference_visits)?;
        charge_next("residual-path terminal visits", &mut self.stats.terminal_visits, self.limits.max_terminal_visits)?;
        let payload = terminal_payload(&self.source, terminal)?;
        match payload {
            ParametricSectorMtbddTerminalPayload::Disposition(ParametricSectorMtbddDisposition::DescendingRule { .. }) => {
                charge_next(
                    "residual-path descending terminals skipped",
                    &mut self.stats.descending_terminals_skipped,
                    self.limits.max_descending_terminals_skipped,
                )?;
                self.resume_after_terminal = true;
                self.visited = Ghost(visited.push(x));
                Ok(None)
            },
            ParametricSectorMtbddTerminalPayload::Disposition(disposition) => {
                let (kind, unsupported_references) = residual_terminal_census(disposition)?;
                match kind {
                    ParametricSectorResidualPathTerminalKind::Uncovered => charge_next(
                        "residual-path uncovered terminals visited",
                        &mut self.stats.uncovered_terminals_visited,
                        self.limits.max_terminal_visits,
                    )?,
                    ParametricSectorResidualPathTerminalKind::Unsupported => charge_next(
                        "residual-path unsupported terminals visited",
                        &mut self.stats.unsupported_terminals_visited,
                        self.limits.max_terminal_visits,
                    )?,
                }
                self.resume_after_terminal = true;
                self.visited = Ghost(visited.push(x));
                if !self.request.accepts(kind) {
                    charge_next(
                        "residual-path filtered residual terminals",
                        &mut self.stats.filtered_residual_terminals,
                        self.limits.max_filtered_residual_terminals,
                    )?;
                    return Ok(None);
                }
                let next_paths = checked_add("residual paths yielded", self.stats.paths_yielded, 1)?;
                check_limit("residual paths yielded", next_paths, self.limits.max_paths_yielded)?;
                let certificate = self.build_certificate(next_paths, terminal, kind, unsupported_references)?;
                self.stats.paths_yielded = next_paths;
                proof {
                    lemma_next_accepted(visited, x, rest, p);
                }
                Ok(Some(certificate))
            },
            _ => Err(ParametricSectorResidualPathError::BooleanTerminalReachable),
        }
    }

    /// Walk on to the next accepted residual terminal.
    #[verifier::rlimit(60)]
    #[verifier::spinoff_prover]
    fn next_path_inner(&mut self) -> (r: Result<Option<ParametricSectorResidualPathCertificate>, ParametricSectorResidualPathError>)
        requires
            old(self).traversal(),
            !old(self).poisoned,
            !old(self).exhausted,
        ensures
            final(self).schema == old(self).schema,
            final(self).source == old(self).source,
            final(self).request == old(self).request,
            final(self).limits == old(self).limits,
            !final(self).poisoned,
            r is Ok ==> final(self).traversal(),
            r matches Ok(None) ==> final(self).exhausted,
            r matches Ok(Some(c)) ==> ({
                let p = path_accepted(source_payloads(*old(self).source), old(self).request);
                let all = residual_paths(*old(self).source, old(self).request);
                let before = old(self).visited@.filter(p);
                &&& before.len() < all.len()
                &&& c.path_view() == all[before.len() as int]
                &&& final(self).visited@.filter(p) == before.push(c.path_view())
                &&& c.spec_yield_ordinal() == final(self).visited@.filter(p).len()
                &&& c.spec_source() == *old(self).source
                &&& terminal_kind_matches(c)
                &&& c.spec_request() == old(self).request
                &&& c.spec_limits() == old(self).limits
                &&& c.spec_decisions() == final(self).frontier@
                &&& !final(self).exhausted
            }),
            budget_allows(*old(self).source, old(self).limits, old(self).stats) ==> (r is Ok || r matches Err(
                ParametricSectorResidualPathError::AllocationFailure { .. },
            )),
    {
        let ghost start = *self;
        let ghost p = path_accepted(source_payloads(self.spec_source()), self.request);
        let ghost a = source_atoms(self.spec_source()).len();
        let ghost budget = budget_allows(self.spec_source(), self.limits, self.stats);
        let ghost w = traversal_budget(self.spec_source());
        proof {
            self.lemma_potential_bound();
            lemma_budget_arith(a, source_path_count(self.spec_source()), self.potential());
        }
        loop
            invariant
                start == *old(self),
                p == path_accepted(source_payloads(*start.source), start.request),
                a == source_atoms(*self.source).len(),
                budget == budget_allows(*start.source, start.limits, start.stats),
                w == traversal_budget(*start.source),
                self.schema == start.schema,
                self.source == start.source,
                self.request == start.request,
                self.limits == start.limits,
                !self.poisoned,
                !self.exhausted,
                self.traversal(),
                self.visited@.filter(p) == start.visited@.filter(p),
                self.potential() <= start.potential(),
                start.potential() <= w,
                2 * start.potential() <= w,
                (a + 1) * start.potential() <= w,
                self.stats.paths_yielded == start.stats.paths_yielded,
                self.stats.total_path_decisions_copied == start.stats.total_path_decisions_copied,
                self.spent_within(start, a),
            decreases self.potential(),
        {
            if self.resume_after_terminal {
                let ghost before = *self;
                proof {
                    if budget {
                        self.lemma_room(start, a, w);
                    }
                }
                if !self.advance_after_terminal()? {
                    return Ok(None);
                }
                proof {
                    self.lemma_spent_advance(before, start, a);
                }
            }
            let ghost before = *self;
            proof {
                let source = self.spec_source();
                let rooted_v = source.spec_decision().spec_rooted();
                assert(ref_below(rooted_v.roots@[0], rooted_v.nodes@.len(), rooted_v.terminal_payloads@.len()));
                lemma_path_facts(source_nodes(source), source_atoms(source), source_root(source), self.frontier@, source_payloads(source).len());
            }
            let current = match self.current {
                Some(current) => current,
                None => {
                    self.exhausted = true;
                    return Ok(None);
                },
            };
            match current {
                CoverageDecisionRef::Node(node) => {
                    proof {
                        if budget {
                            self.lemma_room(start, a, w);
                        }
                    }
                    self.descend_nonzero(node)?;
                    proof {
                        self.lemma_spent_step(before, start, a);
                    }
                },
                CoverageDecisionRef::Terminal(terminal) => {
                    proof {
                        let source = self.spec_source();
                        let nodes = source_nodes(source);
                        let atoms = source_atoms(source);
                        let root = source_root(source);
                        let all = all_paths(nodes, atoms, root);
                        let x = ResidualPathView { decisions: self.frontier@, terminal: terminal as nat };
                        let rest = pending(nodes, atoms, self.frontier@, self.frontier@.len() as int);
                        lemma_visit_terminal(nodes, atoms, root, self.visited@, self.frontier@, terminal);
                        assert(self.visited@.push(x) + rest == all);
                        assert(all[self.visited@.len() as int] == (self.visited@.push(x) + rest)[self.visited@.len() as int]);
                        assert(all[self.visited@.len() as int] == x);
                        self.lemma_visited_bound();
                        let total = all.len();
                        lemma_rem_step((total - self.visited@.len() - 1) as nat, a + 2);
                        if budget {
                            self.lemma_room(start, a, w);
                        }
                    }
                    if let Some(certificate) = self.visit_terminal(terminal)? {
                        return Ok(Some(certificate));
                    }
                    proof {
                        self.lemma_spent_step(before, start, a);
                    }
                },
            }
        }
    }

    /// The next path matching the request bound at construction.
    /// Descending-rule terminals are always skipped, and each call resumes
    /// after the last yielded terminal rather than restarting at the root.
    pub fn next_path(&mut self) -> (r: Result<Option<ParametricSectorResidualPathCertificate>, ParametricSectorResidualPathError>)
        requires
            old(self).wf(),
        ensures
            final(self).wf(),
            final(self).spec_source() == old(self).spec_source(),
            final(self).spec_request() == old(self).spec_request(),
            final(self).spec_limits() == old(self).spec_limits(),
            old(self).spec_poisoned() ==> r == Err::<Option<ParametricSectorResidualPathCertificate>, ParametricSectorResidualPathError>(
                ParametricSectorResidualPathError::CursorPoisoned,
            ) && *final(self) == *old(self),
            !old(self).spec_poisoned() && old(self).spec_exhausted() ==> r == Ok::<
                Option<ParametricSectorResidualPathCertificate>,
                ParametricSectorResidualPathError,
            >(None) && *final(self) == *old(self),
            !old(self).spec_poisoned() && r is Err ==> final(self).spec_poisoned(),
            r is Ok ==> !final(self).spec_poisoned(),
            !old(self).spec_poisoned() && budget_allows(old(self).spec_source(), old(self).spec_limits(), old(self).spec_stats())
                ==> (r is Ok || r matches Err(ParametricSectorResidualPathError::AllocationFailure { .. })),
            r matches Ok(None) ==> final(self).spec_exhausted() && final(self).spec_yielded() == residual_paths(
                old(self).spec_source(),
                old(self).spec_request(),
            ),
            r matches Ok(Some(c)) ==> ({
                let all = residual_paths(old(self).spec_source(), old(self).spec_request());
                &&& old(self).spec_yielded().len() < all.len()
                &&& c.path_view() == all[old(self).spec_yielded().len() as int]
                &&& final(self).spec_yielded() == old(self).spec_yielded().push(c.path_view())
                &&& c.spec_yield_ordinal() == final(self).spec_yielded().len()
                &&& c.spec_source() == old(self).spec_source()
                &&& terminal_kind_matches(c)
                &&& c.spec_request() == old(self).spec_request()
                &&& c.spec_limits() == old(self).spec_limits()
                &&& c.spec_decisions() == final(self).spec_frontier()
                &&& !final(self).spec_exhausted()
            }),
    {
        if self.poisoned {
            return Err(ParametricSectorResidualPathError::CursorPoisoned);
        }
        if self.exhausted {
            return Ok(None);
        }
        let result = self.next_path_inner();
        if let Err(_) = &result {
            self.poisoned = true;
        }
        result
    }
}

impl ParametricSectorResidualPathCertificate {
    /// Reproduce this path from its source: a fresh cursor with the same
    /// request and limits must yield, as its `yield_ordinal`-th path, a path
    /// equal to this one field by field.
    pub fn replay(&self) -> (r: Result<(), ParametricSectorResidualPathError>)
        ensures
            r is Ok ==> ({
                let all = residual_paths(self.spec_source(), self.spec_request());
                &&& 1 <= self.spec_yield_ordinal() <= all.len()
                &&& self.path_view() == all[self.spec_yield_ordinal() - 1]
                &&& terminal_kind_matches(*self)
            }),
            self.spec_yield_ordinal() == 0 ==> r == Err::<(), ParametricSectorResidualPathError>(
                ParametricSectorResidualPathError::PathReplayMismatch,
            ),
    {
        if self.yield_ordinal == 0 {
            return Err(ParametricSectorResidualPathError::PathReplayMismatch);
        }
        let mut cursor = ParametricSectorResidualPathCursor::try_new(share(&self.source), self.request, self.limits)?;
        let mut replayed: Option<ParametricSectorResidualPathCertificate> = None;
        let mut k: usize = 0;
        while k < self.yield_ordinal
            invariant
                k <= self.yield_ordinal,
                cursor.wf(),
                !cursor.spec_poisoned(),
                cursor.spec_source() == self.spec_source(),
                cursor.spec_request() == self.spec_request(),
                cursor.spec_yielded().len() == k,
                k > 0 ==> (replayed matches Some(c) && c.path_view() == residual_paths(self.spec_source(), self.spec_request())[k - 1]
                    && c.spec_yield_ordinal() == k && k <= residual_paths(self.spec_source(), self.spec_request()).len()
                    && terminal_kind_matches(c)),
            decreases self.yield_ordinal - k,
        {
            match cursor.next_path()? {
                Some(path) => {
                    replayed = Some(path);
                },
                None => {
                    return Err(ParametricSectorResidualPathError::PathReplayMismatch);
                },
            }
            k = k + 1;
        }
        match &replayed {
            Some(path) => {
                if self.payload_eq(path) {
                    Ok(())
                } else {
                    Err(ParametricSectorResidualPathError::PathReplayMismatch)
                }
            },
            None => Err(ParametricSectorResidualPathError::PathReplayMismatch),
        }
    }
}

// ---------------------------------------------------------------------------
// What a path says about the points on it.
// ---------------------------------------------------------------------------

/// `zero` gives every base locus tested along `decisions` the value the
/// decision records: vanishing for an equal-zero decision, nonzero for a
/// nonzero one.
pub open spec fn loci_consistent(decisions: Seq<ParametricSectorResidualPathDecision>, zero: Seq<bool>) -> bool {
    forall|j: int|
        0 <= j < decisions.len() ==> zero[(#[trigger] decisions[j]).structural_locus_ordinal as int] == (decisions[j].polarity
            is EqualZero)
}

/// A dense atom assignment agreeing with a path's decisions reaches the
/// path's terminal.
proof fn lemma_path_evaluates(
    nodes: Seq<CoverageDecisionNode>,
    atoms: Seq<ParametricSectorMtbddAtom>,
    r: CoverageDecisionRef,
    terminals: nat,
    k: int,
    a: Seq<bool>,
)
    requires
        arena_wf(nodes, terminals, atoms.len()),
        ref_below(r, nodes.len(), terminals),
        0 <= k < all_paths(nodes, atoms, r).len(),
        forall|j: int|
            0 <= j < all_paths(nodes, atoms, r)[k].decisions.len() ==> a[(#[trigger] all_paths(nodes, atoms, r)[k].decisions[j]).atom_ordinal as int]
                == (all_paths(nodes, atoms, r)[k].decisions[j].polarity is EqualZero),
    ensures
        eval_ref(nodes, r, a) == all_paths(nodes, atoms, r)[k].terminal,
    decreases ref_rank(r),
{
    match r {
        CoverageDecisionRef::Terminal(_) => {},
        CoverageDecisionRef::Node(i) => {
            assert(node_wf(nodes, i as int, terminals, atoms.len()));
            let n = nodes[i as int];
            let nz = decision_for(nodes, atoms, i, ParametricSectorResidualPathPolarity::NonZero);
            let ez = decision_for(nodes, atoms, i, ParametricSectorResidualPathPolarity::EqualZero);
            let af = all_paths(nodes, atoms, n.when_false);
            let at = all_paths(nodes, atoms, n.when_true);
            let here = all_paths(nodes, atoms, r);
            assert(here == prefixed(af, seq![nz]) + prefixed(at, seq![ez]));
            if k < af.len() {
                let tail = af[k];
                assert(here[k] == prefixed(af, seq![nz])[k]);
                assert(here[k].decisions == seq![nz] + tail.decisions);
                assert(here[k].decisions[0] == nz);
                assert(a[n.atom as int] == false);
                assert forall|j: int| 0 <= j < tail.decisions.len() implies a[(#[trigger] tail.decisions[j]).atom_ordinal as int]
                    == (tail.decisions[j].polarity is EqualZero) by {
                    assert(here[k].decisions[j + 1] == tail.decisions[j]);
                }
                lemma_path_evaluates(nodes, atoms, n.when_false, terminals, k, a);
            } else {
                let m = k - af.len();
                let tail = at[m];
                assert(here[k] == prefixed(at, seq![ez])[m]);
                assert(here[k].decisions == seq![ez] + tail.decisions);
                assert(here[k].decisions[0] == ez);
                assert(a[n.atom as int] == true);
                assert forall|j: int| 0 <= j < tail.decisions.len() implies a[(#[trigger] tail.decisions[j]).atom_ordinal as int]
                    == (tail.decisions[j].polarity is EqualZero) by {
                    assert(here[k].decisions[j + 1] == tail.decisions[j]);
                }
                lemma_path_evaluates(nodes, atoms, n.when_true, terminals, m, a);
            }
        },
    }
}

/// Every decision on a path of the DAG names the atom and base locus of the
/// node it leaves.
proof fn lemma_path_decisions_wf(
    nodes: Seq<CoverageDecisionNode>,
    atoms: Seq<ParametricSectorMtbddAtom>,
    r: CoverageDecisionRef,
    terminals: nat,
    k: int,
)
    requires
        arena_wf(nodes, terminals, atoms.len()),
        ref_below(r, nodes.len(), terminals),
        0 <= k < all_paths(nodes, atoms, r).len(),
    ensures
        forall|j: int|
            0 <= j < all_paths(nodes, atoms, r)[k].decisions.len() ==> {
                let d = #[trigger] all_paths(nodes, atoms, r)[k].decisions[j];
                &&& d.node_ordinal < nodes.len()
                &&& d.atom_ordinal == nodes[d.node_ordinal as int].atom
                &&& d.atom_ordinal < atoms.len()
                &&& d.structural_locus_ordinal == atoms[d.atom_ordinal as int].structural_locus_ordinal
            },
    decreases ref_rank(r),
{
    match r {
        CoverageDecisionRef::Terminal(_) => {},
        CoverageDecisionRef::Node(i) => {
            assert(node_wf(nodes, i as int, terminals, atoms.len()));
            let n = nodes[i as int];
            let nz = decision_for(nodes, atoms, i, ParametricSectorResidualPathPolarity::NonZero);
            let ez = decision_for(nodes, atoms, i, ParametricSectorResidualPathPolarity::EqualZero);
            let af = all_paths(nodes, atoms, n.when_false);
            let at = all_paths(nodes, atoms, n.when_true);
            let here = all_paths(nodes, atoms, r);
            assert(here == prefixed(af, seq![nz]) + prefixed(at, seq![ez]));
            if k < af.len() {
                lemma_path_decisions_wf(nodes, atoms, n.when_false, terminals, k);
                assert(here[k] == prefixed(af, seq![nz])[k]);
                assert forall|j: int| 0 <= j < here[k].decisions.len() implies {
                    let d = #[trigger] here[k].decisions[j];
                    &&& d.node_ordinal < nodes.len()
                    &&& d.atom_ordinal == nodes[d.node_ordinal as int].atom
                    &&& d.atom_ordinal < atoms.len()
                    &&& d.structural_locus_ordinal == atoms[d.atom_ordinal as int].structural_locus_ordinal
                } by {
                    if j > 0 {
                        assert(here[k].decisions[j] == af[k].decisions[j - 1]);
                    }
                }
            } else {
                let m = k - af.len();
                lemma_path_decisions_wf(nodes, atoms, n.when_true, terminals, m);
                assert(here[k] == prefixed(at, seq![ez])[m]);
                assert forall|j: int| 0 <= j < here[k].decisions.len() implies {
                    let d = #[trigger] here[k].decisions[j];
                    &&& d.node_ordinal < nodes.len()
                    &&& d.atom_ordinal == nodes[d.node_ordinal as int].atom
                    &&& d.atom_ordinal < atoms.len()
                    &&& d.structural_locus_ordinal == atoms[d.atom_ordinal as int].structural_locus_ordinal
                } by {
                    if j > 0 {
                        assert(here[k].decisions[j] == at[m].decisions[j - 1]);
                    }
                }
            }
        },
    }
}

impl ParametricSectorResidualPathCursor {
    /// Every point on a residual path is residual: an assignment of the
    /// base loci that agrees with the decisions of the `i`-th residual path
    /// of the cursor's source is classified, by the source's reference
    /// semantics, exactly as the path's terminal, an uncovered or
    /// unsupported disposition of the requested kind.
    pub proof fn lemma_residual_path_points(&self, i: int, zero: Seq<bool>)
        requires
            self.wf(),
            !self.spec_poisoned(),
            0 <= i < residual_paths(self.spec_source(), self.spec_request()).len(),
            loci_consistent(residual_paths(self.spec_source(), self.spec_request())[i].decisions, zero),
        ensures
            ({
                let source = self.spec_source();
                let p = residual_paths(source, self.spec_request())[i];
                let view = reference_view(source.spec_decision().spec_attempts(), zero);
                &&& p.terminal < source_payloads(source).len()
                &&& source_payloads(source)[p.terminal as int].view() == PayloadView::Disposition(view)
                &&& view is Uncovered ==> request_accepts(self.spec_request(), ParametricSectorResidualPathTerminalKind::Uncovered)
                &&& view is Unsupported ==> request_accepts(self.spec_request(), ParametricSectorResidualPathTerminalKind::Unsupported)
                &&& !(view is DescendingRule)
            }),
    {
        let source = *self.source;
        let nodes = source_nodes(source);
        let atoms = source_atoms(source);
        let root = source_root(source);
        let rooted = source.spec_decision().spec_rooted();
        let terminals = source_payloads(source).len();
        let accept = path_accepted(source_payloads(source), self.request);
        let all = all_paths(nodes, atoms, root);
        let p = all.filter(accept)[i];
        all.lemma_filter_pred(accept, i);
        assert(all.filter(accept).contains(p));
        all.lemma_filter_contains_rev(accept, p);
        let k = choose|k: int| 0 <= k < all.len() && all[k] == p;
        assert(rooted.wf());
        assert(ref_below(rooted.roots@[0], rooted.nodes@.len(), terminals));
        lemma_path_decisions_wf(nodes, atoms, root, terminals, k);
        let a = dense_assignment(atoms, zero);
        assert forall|j: int| 0 <= j < all[k].decisions.len() implies a[(#[trigger] all[k].decisions[j]).atom_ordinal as int]
            == (all[k].decisions[j].polarity is EqualZero) by {
            let d = all[k].decisions[j];
            assert(p.decisions[j] == d);
            assert(zero[d.structural_locus_ordinal as int] == (d.polarity is EqualZero));
        }
        lemma_path_evaluates(nodes, atoms, root, terminals, k, a);
        assert(eval_ref(rooted.nodes@, rooted.roots@[0], dense_assignment(atoms, zero)) == p.terminal);
    }
}

} // verus!
