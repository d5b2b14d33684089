//! Reduced ordered multi-terminal decision DAG.
//!
//! Nodes live in an append-only arena: a node may only point at earlier
//! nodes or at interned terminals, every child tests a strictly larger atom
//! than its parent, and no node has equal children.  Terminals carry sector
//! dispositions or the two Boolean constants.  Every operation is charged
//! against explicit resource limits.

use vstd::prelude::*;
use crate::parametric_sector_mtbdd::{
    ParametricSectorMtbddTerminalPayload, PayloadView, clone_payload, payload_eq,
};

verus! {

#[derive(Clone, Copy, Debug, PartialEq, Eq, Structural)]
pub struct CoverageDecisionAtomId {
    pub ordinal: usize,
}

impl CoverageDecisionAtomId {
    pub fn new(ordinal: usize) -> (r: Self)
        ensures
            r.ordinal == ordinal,
    {
        CoverageDecisionAtomId { ordinal }
    }

    pub fn ordinal(self) -> (r: usize)
        ensures
            r == self.ordinal,
    {
        self.ordinal
    }
}

/// Reference to an arena node or an interned terminal, by ordinal.
#[derive(Clone, Copy, Debug, PartialEq, Eq, Structural)]
pub enum CoverageDecisionRef {
    Node(usize),
    Terminal(usize),
}

#[derive(Clone, Copy, Debug, PartialEq, Eq, Structural)]
pub struct CoverageDecisionNode {
    pub atom: usize,
    pub when_false: CoverageDecisionRef,
    pub when_true: CoverageDecisionRef,
}

impl CoverageDecisionNode {
    pub fn atom(self) -> (r: CoverageDecisionAtomId)
        ensures
            r.ordinal == self.atom,
    {
        CoverageDecisionAtomId { ordinal: self.atom }
    }

    pub fn when_false(self) -> (r: CoverageDecisionRef)
        ensures
            r == self.when_false,
    {
        self.when_false
    }

    pub fn when_true(self) -> (r: CoverageDecisionRef)
        ensures
            r == self.when_true,
    {
        self.when_true
    }
}

/// The two terminals that play the Boolean constants during formula
/// compilation.
#[derive(Clone, Copy, Debug, PartialEq, Eq, Structural)]
pub struct CoverageDecisionBooleanTerminals {
    pub when_false: CoverageDecisionRef,
    pub when_true: CoverageDecisionRef,
}

impl CoverageDecisionBooleanTerminals {
    pub fn when_false(self) -> (r: CoverageDecisionRef)
        ensures
            r == self.when_false,
    {
        self.when_false
    }

    pub fn when_true(self) -> (r: CoverageDecisionRef)
        ensures
            r == self.when_true,
    {
        self.when_true
    }
}

#[derive(Clone, Copy, Debug, PartialEq, Eq)]
pub struct CoverageDecisionDagLimits {
    pub max_atoms: usize,
    pub max_nodes: usize,
    pub max_unique_table_entries: usize,
    pub max_retained_child_references: usize,
    pub max_terminals: usize,
    pub max_terminal_index_entries: usize,
    pub max_retained_terminal_payload_handles: usize,
    pub max_apply_steps: usize,
    pub max_roots: usize,
}

impl CoverageDecisionDagLimits {
    pub fn default_limits() -> (r: Self)
        ensures
            r.max_nodes == 16_000_000,
            r.max_terminals == 1_000_000,
    {
        CoverageDecisionDagLimits {
            max_atoms: 16_000_000,
            max_nodes: 16_000_000,
            max_unique_table_entries: 16_000_000,
            max_retained_child_references: 32_000_000,
            max_terminals: 1_000_000,
            max_terminal_index_entries: 1_000_000,
            max_retained_terminal_payload_handles: 2_000_000,
            max_apply_steps: 256_000_000,
            max_roots: 1_000_000,
        }
    }
}

impl Default for CoverageDecisionDagLimits {
    fn default() -> (r: Self)
        ensures
            r.max_nodes == 16_000_000,
    {
        Self::default_limits()
    }
}

/// Retained shape: every counter is determined by the arena contents.
#[derive(Clone, Copy, Debug, Default, PartialEq, Eq)]
pub struct CoverageDecisionDagRetainedStats {
    pub nodes: usize,
    pub unique_table_entries: usize,
    pub child_references: usize,
    pub terminals: usize,
    pub terminal_index_entries: usize,
    pub terminal_payload_handles: usize,
}

#[derive(Clone, Copy, Debug, Default, PartialEq, Eq)]
pub struct CoverageDecisionDagWorkStats {
    pub branch_calls: usize,
    pub apply_steps: usize,
    pub terminal_interning_calls: usize,
}

#[derive(Clone, Copy, Debug, Default, PartialEq, Eq)]
pub struct CoverageDecisionDagStats {
    pub retained: CoverageDecisionDagRetainedStats,
    pub work: CoverageDecisionDagWorkStats,
}

#[derive(Clone, Debug, PartialEq, Eq)]
pub enum CoverageDecisionDagError {
    ResourceLimit { resource: &'static str, requested: usize, limit: usize },
    ResourceCountOverflow { resource: &'static str },
    AllocationFailure { resource: &'static str, requested: usize },
    InternalVariableOrderMismatch,
    InvalidReference,
    MalformedRootedView,
}

// ---------------------------------------------------------------------------
// Semantics of the arena.
// ---------------------------------------------------------------------------

pub open spec fn ref_rank(r: CoverageDecisionRef) -> nat {
    match r {
        CoverageDecisionRef::Node(i) => i as nat + 1,
        CoverageDecisionRef::Terminal(_) => 0,
    }
}

/// Terminal ordinal reached from `r` under an assignment of the atoms.
pub open spec fn eval_ref(nodes: Seq<CoverageDecisionNode>, r: CoverageDecisionRef, a: Seq<bool>) -> nat
    decreases ref_rank(r),
{
    match r {
        CoverageDecisionRef::Terminal(t) => t as nat,
        CoverageDecisionRef::Node(i) => {
            if i < nodes.len() {
                let n = nodes[i as int];
                let next = if a[n.atom as int] {
                    n.when_true
                } else {
                    n.when_false
                };
                if ref_rank(next) < ref_rank(r) {
                    eval_ref(nodes, next, a)
                } else {
                    0
                }
            } else {
                0
            }
        },
    }
}

/// A reference whose node ordinal is below `bound` or whose terminal exists.
pub open spec fn ref_below(r: CoverageDecisionRef, bound: nat, terminals: nat) -> bool {
    match r {
        CoverageDecisionRef::Node(i) => i < bound,
        CoverageDecisionRef::Terminal(t) => t < terminals,
    }
}

/// Atom tested first along `r`; terminals test nothing, so they sit above
/// every atom.
pub open spec fn top_atom(nodes: Seq<CoverageDecisionNode>, r: CoverageDecisionRef, atom_count: nat) -> nat {
    match r {
        CoverageDecisionRef::Node(i) => nodes[i as int].atom as nat,
        CoverageDecisionRef::Terminal(_) => atom_count,
    }
}

pub open spec fn node_wf(nodes: Seq<CoverageDecisionNode>, i: int, terminals: nat, atom_count: nat) -> bool {
    let n = nodes[i];
    &&& n.atom < atom_count
    &&& ref_below(n.when_false, i as nat, terminals)
    &&& ref_below(n.when_true, i as nat, terminals)
    &&& n.when_false != n.when_true
    &&& top_atom(nodes, n.when_false, atom_count) > n.atom
    &&& top_atom(nodes, n.when_true, atom_count) > n.atom
}

pub open spec fn arena_wf(nodes: Seq<CoverageDecisionNode>, terminals: nat, atom_count: nat) -> bool {
    forall|i: int| 0 <= i < nodes.len() ==> #[trigger] node_wf(nodes, i, terminals, atom_count)
}

pub open spec fn ite_value(f: nat, g: nat, h: nat, when_true: CoverageDecisionRef) -> nat {
    if when_true == CoverageDecisionRef::Terminal(f as usize) {
        g
    } else {
        h
    }
}

pub open spec fn min3(x: nat, y: nat, z: nat) -> nat {
    if x <= y && x <= z {
        x
    } else if y <= z {
        y
    } else {
        z
    }
}

/// Extending an arena never changes the value of an existing reference.
pub proof fn lemma_eval_extension(
    nodes: Seq<CoverageDecisionNode>,
    more: Seq<CoverageDecisionNode>,
    r: CoverageDecisionRef,
    a: Seq<bool>,
    terminals: nat,
    atom_count: nat,
)
    requires
        arena_wf(nodes, terminals, atom_count),
        nodes.len() <= more.len(),
        more.subrange(0, nodes.len() as int) == nodes,
        ref_below(r, nodes.len(), terminals),
    ensures
        eval_ref(more, r, a) == eval_ref(nodes, r, a),
    decreases ref_rank(r),
{
    match r {
        CoverageDecisionRef::Terminal(_) => {},
        CoverageDecisionRef::Node(i) => {
            assert(more[i as int] == nodes[i as int]);
            assert(node_wf(nodes, i as int, terminals, atom_count));
            let n = nodes[i as int];
            lemma_eval_extension(nodes, more, n.when_false, a, terminals, atom_count);
            lemma_eval_extension(nodes, more, n.when_true, a, terminals, atom_count);
        },
    }
}

/// From a valid reference of a well-formed arena every assignment reaches
/// an existing terminal.
pub proof fn lemma_eval_below(
    nodes: Seq<CoverageDecisionNode>,
    r: CoverageDecisionRef,
    a: Seq<bool>,
    terminals: nat,
    atom_count: nat,
)
    requires
        arena_wf(nodes, terminals, atom_count),
        ref_below(r, nodes.len(), terminals),
    ensures
        eval_ref(nodes, r, a) < terminals,
    decreases ref_rank(r),
{
    match r {
        CoverageDecisionRef::Terminal(_) => {},
        CoverageDecisionRef::Node(i) => {
            assert(node_wf(nodes, i as int, terminals, atom_count));
            let n = nodes[i as int];
            lemma_eval_below(nodes, n.when_false, a, terminals, atom_count);
            lemma_eval_below(nodes, n.when_true, a, terminals, atom_count);
        },
    }
}

/// No two nodes of the arena are equal: same atom and same children.
pub open spec fn distinct_nodes(nodes: Seq<CoverageDecisionNode>) -> bool {
    forall|i: int, j: int| 0 <= i < j < nodes.len() ==> #[trigger] nodes[i] != #[trigger] nodes[j]
}

/// Unfolding one node.
pub proof fn lemma_eval_node(
    nodes: Seq<CoverageDecisionNode>,
    i: usize,
    a: Seq<bool>,
    terminals: nat,
    atom_count: nat,
)
    requires
        arena_wf(nodes, terminals, atom_count),
        i < nodes.len(),
    ensures
        eval_ref(nodes, CoverageDecisionRef::Node(i), a) == if a[nodes[i as int].atom as int] {
            eval_ref(nodes, nodes[i as int].when_true, a)
        } else {
            eval_ref(nodes, nodes[i as int].when_false, a)
        },
{
    assert(node_wf(nodes, i as int, terminals, atom_count));
}

/// Rooted export of an arena together with the references of interest.
#[derive(Clone, Debug, PartialEq, Eq)]
pub struct CoverageDecisionDagRootedView {
    pub atom_count: usize,
    pub nodes: Vec<CoverageDecisionNode>,
    pub terminal_payloads: Vec<ParametricSectorMtbddTerminalPayload>,
    pub roots: Vec<CoverageDecisionRef>,
    pub boolean_false: CoverageDecisionRef,
    pub boolean_true: CoverageDecisionRef,
}

impl CoverageDecisionDagRootedView {
    pub open spec fn wf(&self) -> bool {
        &&& arena_wf(self.nodes@, self.terminal_payloads@.len(), self.atom_count as nat)
        &&& forall|i: int|
            0 <= i < self.roots@.len() ==> ref_below(
                #[trigger] self.roots@[i],
                self.nodes@.len(),
                self.terminal_payloads@.len(),
            )
    }

    pub fn atom_count(&self) -> (r: usize)
        ensures
            r == self.atom_count,
    {
        self.atom_count
    }

    pub fn nodes(&self) -> (r: &[CoverageDecisionNode])
        ensures
            r@ == self.nodes@,
    {
        self.nodes.as_slice()
    }

    pub fn terminal_payloads(&self) -> (r: &[ParametricSectorMtbddTerminalPayload])
        ensures
            r@ == self.terminal_payloads@,
    {
        self.terminal_payloads.as_slice()
    }

    pub fn roots(&self) -> (r: &[CoverageDecisionRef])
        ensures
            r@ == self.roots@,
    {
        self.roots.as_slice()
    }

    pub fn boolean_false(&self) -> (r: CoverageDecisionRef)
        ensures
            r == self.boolean_false,
    {
        self.boolean_false
    }

    pub fn boolean_true(&self) -> (r: CoverageDecisionRef)
        ensures
            r == self.boolean_true,
    {
        self.boolean_true
    }

    pub fn retained_stats(&self) -> (r: CoverageDecisionDagRetainedStats)
        requires
            self.nodes@.len() * 2 <= usize::MAX,
            self.terminal_payloads@.len() * 2 <= usize::MAX,
        ensures
            r.nodes == self.nodes@.len(),
            r.terminals == self.terminal_payloads@.len(),
    {
        retained_stats_from_shape(self.nodes.len(), self.terminal_payloads.len())
    }
}

pub fn retained_stats_from_shape(nodes: usize, terminals: usize) -> (r: CoverageDecisionDagRetainedStats)
    requires
        nodes * 2 <= usize::MAX,
        terminals * 2 <= usize::MAX,
    ensures
        r.nodes == nodes,
        r.unique_table_entries == nodes,
        r.child_references == nodes * 2,
        r.terminals == terminals,
        r.terminal_index_entries == terminals,
        r.terminal_payload_handles == terminals * 2,
{
    CoverageDecisionDagRetainedStats {
        nodes,
        unique_table_entries: nodes,
        child_references: nodes * 2,
        terminals,
        terminal_index_entries: terminals,
        terminal_payload_handles: terminals * 2,
    }
}

/// Append-only arena with hash-consed nodes and interned terminals.
#[derive(Debug)]
pub struct CoverageDecisionDag {
    atom_count: usize,
    limits: CoverageDecisionDagLimits,
    nodes: Vec<CoverageDecisionNode>,
    terminals: Vec<ParametricSectorMtbddTerminalPayload>,
    work: CoverageDecisionDagWorkStats,
}

impl CoverageDecisionDag {
    pub closed spec fn wf(&self) -> bool {
        &&& arena_wf(self.nodes@, self.terminals@.len(), self.atom_count as nat)
        &&& self.nodes@.len() <= self.limits.max_nodes
        &&& self.nodes@.len() <= self.limits.max_unique_table_entries
        &&& self.nodes@.len() * 2 <= self.limits.max_retained_child_references
        &&& self.terminals@.len() <= self.limits.max_terminals
        &&& self.terminals@.len() <= self.limits.max_terminal_index_entries
        &&& self.terminals@.len() * 2 <= self.limits.max_retained_terminal_payload_handles
    }

    pub closed spec fn spec_nodes(&self) -> Seq<CoverageDecisionNode> {
        self.nodes@
    }

    pub closed spec fn spec_terminals(&self) -> Seq<ParametricSectorMtbddTerminalPayload> {
        self.terminals@
    }

    pub closed spec fn spec_atom_count(&self) -> nat {
        self.atom_count as nat
    }

    pub closed spec fn valid_ref(&self, r: CoverageDecisionRef) -> bool {
        ref_below(r, self.nodes@.len(), self.terminals@.len())
    }

    pub closed spec fn eval(&self, r: CoverageDecisionRef, a: Seq<bool>) -> nat {
        eval_ref(self.nodes@, r, a)
    }

    pub closed spec fn top(&self, r: CoverageDecisionRef) -> nat {
        top_atom(self.nodes@, r, self.atom_count as nat)
    }

    /// `later` keeps every node and terminal of `self` at the same ordinal.
    pub closed spec fn extended_by(&self, later: &Self) -> bool {
        &&& self.atom_count == later.atom_count
        &&& self.limits == later.limits
        &&& self.nodes@.len() <= later.nodes@.len()
        &&& later.nodes@.subrange(0, self.nodes@.len() as int) == self.nodes@
        &&& self.terminals@.len() <= later.terminals@.len()
        &&& later.terminals@.subrange(0, self.terminals@.len() as int) == self.terminals@
    }

    /// Every reference valid in `self` stays valid in `later` with the same
    /// first atom and the same value under every assignment.
    pub closed spec fn preserved_in(&self, later: &Self) -> bool {
        &&& self.atom_count == later.atom_count
        &&& self.limits == later.limits
        &&& self.terminals@.len() <= later.terminals@.len()
        &&& forall|i: int| 0 <= i < self.terminals@.len() ==> later.terminals@[i] == #[trigger] self.terminals@[i]
        &&& forall|r: CoverageDecisionRef| #[trigger] self.valid_ref(r) ==> later.valid_ref(r) && later.top(r) == self.top(r)
        &&& forall|r: CoverageDecisionRef, a: Seq<bool>| self.valid_ref(r) ==> #[trigger] later.eval(r, a) == self.eval(r, a)
    }

    pub closed spec fn spec_limits(&self) -> CoverageDecisionDagLimits {
        self.limits
    }

    pub closed spec fn terminal_count(&self) -> nat {
        self.terminals@.len()
    }

    pub closed spec fn node_count(&self) -> nat {
        self.nodes@.len()
    }

    pub closed spec fn terminal_view(&self, k: int) -> PayloadView {
        self.terminals@[k].view()
    }

    proof fn lemma_preserved(&self, later: &Self)
        requires
            self.wf(),
            self.extended_by(later),
        ensures
            self.preserved_in(later),
    {
        assert forall|i: int| 0 <= i < self.terminals@.len() implies later.terminals@[i] == #[trigger] self.terminals@[i] by {
            assert(later.terminals@.subrange(0, self.terminals@.len() as int)[i] == later.terminals@[i]);
        }
        assert forall|r: CoverageDecisionRef| #[trigger] self.valid_ref(r) implies later.valid_ref(r) && later.top(r) == self.top(r) by {
            match r {
                CoverageDecisionRef::Node(i) => {
                    assert(later.nodes@.subrange(0, self.nodes@.len() as int)[i as int] == later.nodes@[i as int]);
                },
                _ => {},
            }
        }
        assert forall|r: CoverageDecisionRef, a: Seq<bool>| self.valid_ref(r) implies #[trigger] later.eval(r, a) == self.eval(r, a) by {
            lemma_eval_extension(self.nodes@, later.nodes@, r, a, self.terminals@.len(), self.atom_count as nat);
        }
    }

    pub fn new(atom_count: usize, limits: CoverageDecisionDagLimits) -> (r: Result<
        Self,
        CoverageDecisionDagError,
    >)
        ensures
            r matches Ok(dag) ==> dag.wf() && dag.node_count() == 0 && dag.terminal_count() == 0
                && dag.spec_atom_count() == atom_count && dag.spec_limits() == limits,
            r is Err <==> atom_count > limits.max_atoms,
    {
        if atom_count > limits.max_atoms {
            return Err(
                CoverageDecisionDagError::ResourceLimit {
                    resource: "coverage decision atoms",
                    requested: atom_count,
                    limit: limits.max_atoms,
                },
            );
        }
        Ok(
            CoverageDecisionDag {
                atom_count,
                limits,
                nodes: Vec::new(),
                terminals: Vec::new(),
                work: CoverageDecisionDagWorkStats {
                    branch_calls: 0,
                    apply_steps: 0,
                    terminal_interning_calls: 0,
                },
            },
        )
    }

    pub fn atom_count(&self) -> (r: usize)
        ensures
            r == self.spec_atom_count(),
    {
        self.atom_count
    }

    pub fn limits(&self) -> (r: CoverageDecisionDagLimits)
        ensures
            r == self.spec_limits(),
    {
        self.limits
    }

    pub fn nodes(&self) -> (r: &[CoverageDecisionNode])
        ensures
            r@ == self.spec_nodes(),
    {
        self.nodes.as_slice()
    }

    pub fn terminal_payloads(&self) -> (r: &[ParametricSectorMtbddTerminalPayload])
        ensures
            r@ == self.spec_terminals(),
    {
        self.terminals.as_slice()
    }

    pub fn retained_stats(&self) -> (r: CoverageDecisionDagRetainedStats)
        requires
            self.wf(),
        ensures
            r.nodes == self.node_count(),
            r.terminals == self.terminal_count(),
    {
        retained_stats_from_shape(self.nodes.len(), self.terminals.len())
    }

    pub fn stats(&self) -> (r: CoverageDecisionDagStats)
        requires
            self.wf(),
        ensures
            r.retained.nodes == self.node_count(),
    {
        CoverageDecisionDagStats {
            retained: retained_stats_from_shape(self.nodes.len(), self.terminals.len()),
            work: self.work,
        }
    }

    /// Return the terminal with an equal payload, interning it if new.
    pub fn intern_terminal(&mut self, payload: ParametricSectorMtbddTerminalPayload) -> (r: Result<
        CoverageDecisionRef,
        CoverageDecisionDagError,
    >)
        requires
            old(self).wf(),
        ensures
            final(self).wf(),
            old(self).extended_by(final(self)),
            old(self).preserved_in(final(self)),
            final(self).node_count() == old(self).node_count(),
            r matches Ok(t) ==> (t matches CoverageDecisionRef::Terminal(k) && k
                < final(self).terminal_count() && final(self).terminal_view(k as int)
                == payload.view() && final(self).valid_ref(t)),
            final(self).terminal_count() <= old(self).terminal_count() + 1,
            final(self).spec_limits() == old(self).spec_limits(),
            final(self).spec_atom_count() == old(self).spec_atom_count(),
            old(self).terminal_count() < old(self).spec_limits().max_terminals && old(self).terminal_count()
                < old(self).spec_limits().max_terminal_index_entries && old(self).terminal_count() * 2 + 2
                <= old(self).spec_limits().max_retained_terminal_payload_handles ==> r is Ok,
    {
        self.work.terminal_interning_calls = self.work.terminal_interning_calls.saturating_add(1);
        let mut k: usize = 0;
        while k < self.terminals.len()
            invariant
                k <= self.terminals@.len(),
                old(self).wf(),
                self.wf(),
                self.nodes@ == old(self).nodes@,
                self.terminals@ == old(self).terminals@,
                self.atom_count == old(self).atom_count,
                self.limits == old(self).limits,
            decreases self.terminals@.len() - k,
        {
            if payload_eq(&self.terminals[k], &payload) {
                proof {
                    assert(self.nodes@.subrange(0, self.nodes@.len() as int) =~= self.nodes@);
                    assert(self.terminals@.subrange(0, self.terminals@.len() as int) =~= self.terminals@);
                    old(self).lemma_preserved(self);
                }
                return Ok(CoverageDecisionRef::Terminal(k));
            }
            k += 1;
        }
        let count = self.terminals.len();
        proof {
            assert(self.nodes@.subrange(0, self.nodes@.len() as int) =~= self.nodes@);
            assert(self.terminals@.subrange(0, self.terminals@.len() as int) =~= self.terminals@);
            old(self).lemma_preserved(self);
        }
        if count >= self.limits.max_terminals {
            return Err(
                CoverageDecisionDagError::ResourceLimit {
                    resource: "coverage decision terminals",
                    requested: count + 1,
                    limit: self.limits.max_terminals,
                },
            );
        }
        if count >= self.limits.max_terminal_index_entries {
            return Err(
                CoverageDecisionDagError::ResourceLimit {
                    resource: "coverage decision terminal index entries",
                    requested: count + 1,
                    limit: self.limits.max_terminal_index_entries,
                },
            );
        }
        if self.limits.max_retained_terminal_payload_handles - count * 2 < 2 {
            return Err(
                CoverageDecisionDagError::ResourceLimit {
                    resource: "coverage decision retained terminal payload handles",
                    requested: (count * 2).saturating_add(2),
                    limit: self.limits.max_retained_terminal_payload_handles,
                },
            );
        }
        let ghost before = self.nodes@;
        self.terminals.push(payload);
        proof {
            assert(self.terminals@.subrange(0, count as int) =~= old(self).terminals@);
            assert forall|i: int| 0 <= i < self.nodes@.len() implies #[trigger] node_wf(
                self.nodes@,
                i,
                self.terminals@.len(),
                self.atom_count as nat,
            ) by {
                assert(node_wf(before, i, old(self).terminals@.len(), self.atom_count as nat));
            }
            assert(self.nodes@.subrange(0, self.nodes@.len() as int) =~= self.nodes@);
            old(self).lemma_preserved(self);
        }
        Ok(CoverageDecisionRef::Terminal(count))
    }

    pub fn boolean_terminals(
        &self,
        when_false: CoverageDecisionRef,
        when_true: CoverageDecisionRef,
    ) -> (r: Result<CoverageDecisionBooleanTerminals, CoverageDecisionDagError>)
        ensures
            r matches Ok(b) ==> b.when_false == when_false && b.when_true == when_true,
            r is Ok <==> (when_false is Terminal && when_true is Terminal && when_false
                != when_true && self.valid_ref(when_false) && self.valid_ref(when_true)),
    {
        let valid = match (when_false, when_true) {
            (CoverageDecisionRef::Terminal(f), CoverageDecisionRef::Terminal(t)) => f != t && f
                < self.terminals.len() && t < self.terminals.len(),
            _ => false,
        };
        if valid {
            Ok(CoverageDecisionBooleanTerminals { when_false, when_true })
        } else {
            Err(CoverageDecisionDagError::InvalidReference)
        }
    }

    fn check_ref(&self, r: CoverageDecisionRef) -> (ok: bool)
        ensures
            ok == self.valid_ref(r),
    {
        match r {
            CoverageDecisionRef::Node(i) => i < self.nodes.len(),
            CoverageDecisionRef::Terminal(t) => t < self.terminals.len(),
        }
    }

    fn top_of(&self, r: CoverageDecisionRef) -> (v: usize)
        requires
            self.valid_ref(r),
            self.wf(),
        ensures
            v == self.top(r),
    {
        match r {
            CoverageDecisionRef::Node(i) => self.nodes[i].atom,
            CoverageDecisionRef::Terminal(_) => self.atom_count,
        }
    }

    /// Node testing `atom` with the given children, reduced and hash-consed.
    pub fn branch(
        &mut self,
        atom: usize,
        when_false: CoverageDecisionRef,
        when_true: CoverageDecisionRef,
    ) -> (r: Result<CoverageDecisionRef, CoverageDecisionDagError>)
        requires
            old(self).wf(),
            atom < old(self).spec_atom_count(),
            old(self).valid_ref(when_false),
            old(self).valid_ref(when_true),
            old(self).top(when_false) > atom,
            old(self).top(when_true) > atom,
        ensures
            final(self).wf(),
            old(self).extended_by(final(self)),
            old(self).preserved_in(final(self)),
            final(self).terminal_count() == old(self).terminal_count(),
            r matches Ok(x) ==> {
                &&& final(self).valid_ref(x)
                &&& final(self).top(x) >= atom
                &&& forall|a: Seq<bool>|
                    #[trigger] final(self).eval(x, a) == if a[atom as int] {
                        old(self).eval(when_true, a)
                    } else {
                        old(self).eval(when_false, a)
                    }
            },
            final(self).node_count() <= old(self).node_count() + 1,
            (exists|i: int|
                0 <= i < old(self).node_count() && #[trigger] old(self).spec_nodes()[i] == (CoverageDecisionNode {
                    atom,
                    when_false,
                    when_true,
                })) ==> final(self).spec_nodes() == old(self).spec_nodes() && (r matches Ok(CoverageDecisionRef::Node(j))
                && j < old(self).node_count() && old(self).spec_nodes()[j as int] == (CoverageDecisionNode {
                atom,
                when_false,
                when_true,
            })),
            final(self).node_count() == old(self).node_count() + 1 ==> final(self).spec_nodes() == old(self).spec_nodes().push(
                (CoverageDecisionNode { atom, when_false, when_true }),
            ) && r == Ok::<CoverageDecisionRef, CoverageDecisionDagError>(CoverageDecisionRef::Node(old(self).node_count() as usize))
                && forall|i: int| 0 <= i < old(self).node_count() ==> #[trigger] old(self).spec_nodes()[i] != (CoverageDecisionNode {
                atom,
                when_false,
                when_true,
            }),
            distinct_nodes(old(self).spec_nodes()) ==> distinct_nodes(final(self).spec_nodes()),
            old(self).node_count() < old(self).spec_limits().max_nodes && old(self).node_count()
                < old(self).spec_limits().max_unique_table_entries && old(self).node_count() * 2 + 2
                <= old(self).spec_limits().max_retained_child_references ==> r is Ok,
    {
        self.work.branch_calls = self.work.branch_calls.saturating_add(1);
        proof {
            assert(self.nodes@.subrange(0, self.nodes@.len() as int) =~= self.nodes@);
            assert(self.terminals@.subrange(0, self.terminals@.len() as int) =~= self.terminals@);
            old(self).lemma_preserved(self);
        }
        if when_false == when_true {
            proof {
                assert forall|i: int| 0 <= i < self.nodes@.len() implies #[trigger] self.nodes@[i] != (CoverageDecisionNode {
                    atom,
                    when_false,
                    when_true,
                }) by {
                    assert(node_wf(self.nodes@, i, self.terminals@.len(), self.atom_count as nat));
                }
            }
            return Ok(when_false);
        }
        let mut i: usize = 0;
        while i < self.nodes.len()
            invariant
                i <= self.nodes@.len(),
                old(self).wf(),
                self.wf(),
                old(self).preserved_in(self),
                old(self).extended_by(self),
                self.nodes@ == old(self).nodes@,
                self.terminals@ == old(self).terminals@,
                self.atom_count == old(self).atom_count,
                self.limits == old(self).limits,
                forall|k: int| 0 <= k < i ==> #[trigger] self.nodes@[k] != (CoverageDecisionNode { atom, when_false, when_true }),
            decreases self.nodes@.len() - i,
        {
            let n = self.nodes[i];
            if n.atom == atom && n.when_false == when_false && n.when_true == when_true {
                proof {
                    assert forall|a: Seq<bool>| #[trigger] self.eval(CoverageDecisionRef::Node(i), a) == if a[atom as int] {
                        old(self).eval(when_true, a)
                    } else {
                        old(self).eval(when_false, a)
                    } by {
                        lemma_eval_node(self.nodes@, i, a, self.terminals@.len(), self.atom_count as nat);
                    }
                }
                return Ok(CoverageDecisionRef::Node(i));
            }
            i += 1;
        }
        let count = self.nodes.len();
        if count >= self.limits.max_nodes {
            return Err(
                CoverageDecisionDagError::ResourceLimit {
                    resource: "coverage decision nodes",
                    requested: count + 1,
                    limit: self.limits.max_nodes,
                },
            );
        }
        if count >= self.limits.max_unique_table_entries {
            return Err(
                CoverageDecisionDagError::ResourceLimit {
                    resource: "coverage decision unique-table entries",
                    requested: count + 1,
                    limit: self.limits.max_unique_table_entries,
                },
            );
        }
        if self.limits.max_retained_child_references - count * 2 < 2 {
            return Err(
                CoverageDecisionDagError::ResourceLimit {
                    resource: "coverage decision retained child references",
                    requested: (count * 2).saturating_add(2),
                    limit: self.limits.max_retained_child_references,
                },
            );
        }
        let node = CoverageDecisionNode { atom, when_false, when_true };
        let ghost before = self.nodes@;
        self.nodes.push(node);
        proof {
            assert(self.nodes@.subrange(0, count as int) =~= before);
            assert forall|j: int| 0 <= j < self.nodes@.len() implies #[trigger] node_wf(
                self.nodes@,
                j,
                self.terminals@.len(),
                self.atom_count as nat,
            ) by {
                if j < count {
                    assert(node_wf(before, j, self.terminals@.len(), self.atom_count as nat));
                    assert(self.nodes@[j] == before[j]);
                    let m = before[j];
                    match m.when_false {
                        CoverageDecisionRef::Node(c) => assert(self.nodes@[c as int] == before[c as int]),
                        _ => {},
                    }
                    match m.when_true {
                        CoverageDecisionRef::Node(c) => assert(self.nodes@[c as int] == before[c as int]),
                        _ => {},
                    }
                } else {
                    match when_false {
                        CoverageDecisionRef::Node(c) => assert(self.nodes@[c as int] == before[c as int]),
                        _ => {},
                    }
                    match when_true {
                        CoverageDecisionRef::Node(c) => assert(self.nodes@[c as int] == before[c as int]),
                        _ => {},
                    }
                }
            }
            assert forall|a: Seq<bool>| #[trigger] self.eval(CoverageDecisionRef::Node(count), a) == if a[atom as int] {
                old(self).eval(when_true, a)
            } else {
                old(self).eval(when_false, a)
            } by {
                lemma_eval_node(self.nodes@, count, a, self.terminals@.len(), self.atom_count as nat);
                lemma_eval_extension(before, self.nodes@, when_true, a, self.terminals@.len(), self.atom_count as nat);
                lemma_eval_extension(before, self.nodes@, when_false, a, self.terminals@.len(), self.atom_count as nat);
            }
            assert(self.terminals@.subrange(0, self.terminals@.len() as int) =~= self.terminals@);
            old(self).lemma_preserved(self);
            assert(self.nodes@ =~= before.push(node));
            if distinct_nodes(before) {
                assert forall|x: int, y: int| 0 <= x < y < self.nodes@.len() implies #[trigger] self.nodes@[x]
                    != #[trigger] self.nodes@[y] by {
                    assert(self.nodes@[x] == before[x]);
                    if y < count {
                        assert(self.nodes@[y] == before[y]);
                    }
                }
            }
        }
        Ok(CoverageDecisionRef::Node(count))
    }
}


impl CoverageDecisionDag {
    /// The two cofactors of `r` with respect to atom `v`, where `v` does not
    /// exceed the first atom tested along `r`.
    fn cofactors(&self, r: CoverageDecisionRef, v: usize) -> (pair: (CoverageDecisionRef, CoverageDecisionRef))
        requires
            self.wf(),
            self.valid_ref(r),
            v <= self.top(r),
            v < self.spec_atom_count(),
        ensures
            self.valid_ref(pair.0),
            self.valid_ref(pair.1),
            self.top(pair.0) > v,
            self.top(pair.1) > v,
            ref_rank(pair.0) <= ref_rank(r),
            ref_rank(pair.1) <= ref_rank(r),
            self.top(r) == v ==> ref_rank(pair.0) < ref_rank(r) && ref_rank(pair.1) < ref_rank(r),
            self.top(r) > v ==> pair.0 == r && pair.1 == r,
            forall|a: Seq<bool>| #![trigger self.eval(r, a)]
                self.eval(r, a) == if a[v as int] { self.eval(pair.1, a) } else { self.eval(pair.0, a) },
    {
        match r {
            CoverageDecisionRef::Node(i) => {
                let n = self.nodes[i];
                if n.atom == v {
                    proof {
                        assert(node_wf(self.nodes@, i as int, self.terminals@.len(), self.atom_count as nat));
                        assert forall|a: Seq<bool>| #![trigger self.eval(r, a)]
                            self.eval(r, a) == if a[v as int] { self.eval(n.when_true, a) } else { self.eval(n.when_false, a) } by {
                            lemma_eval_node(self.nodes@, i, a, self.terminals@.len(), self.atom_count as nat);
                        }
                    }
                    (n.when_false, n.when_true)
                } else {
                    (r, r)
                }
            },
            CoverageDecisionRef::Terminal(_) => (r, r),
        }
    }

    /// If-then-else over the arena: the result evaluates to `g` where `f`
    /// reaches the Boolean true terminal and to `h` elsewhere.
    pub fn ite(
        &mut self,
        f: CoverageDecisionRef,
        g: CoverageDecisionRef,
        h: CoverageDecisionRef,
        boolean: CoverageDecisionBooleanTerminals,
    ) -> (r: Result<CoverageDecisionRef, CoverageDecisionDagError>)
        requires
            old(self).wf(),
            old(self).valid_ref(f),
            old(self).valid_ref(g),
            old(self).valid_ref(h),
        ensures
            final(self).wf(),
            old(self).extended_by(final(self)),
            old(self).preserved_in(final(self)),
            final(self).terminal_count() == old(self).terminal_count(),
            r matches Ok(x) ==> {
                &&& final(self).valid_ref(x)
                &&& final(self).top(x) >= min3(old(self).top(f), old(self).top(g), old(self).top(h))
                &&& forall|a: Seq<bool>| #[trigger] final(self).eval(x, a) == ite_value(
                    old(self).eval(f, a),
                    old(self).eval(g, a),
                    old(self).eval(h, a),
                    boolean.when_true,
                )
            },
        decreases ref_rank(f) + ref_rank(g) + ref_rank(h),
    {
        proof {
            assert(self.nodes@.subrange(0, self.nodes@.len() as int) =~= self.nodes@);
            assert(self.terminals@.subrange(0, self.terminals@.len() as int) =~= self.terminals@);
            old(self).lemma_preserved(self);
        }
        if self.work.apply_steps >= self.limits.max_apply_steps {
            return Err(
                CoverageDecisionDagError::ResourceLimit {
                    resource: "coverage decision apply steps",
                    requested: self.work.apply_steps.saturating_add(1),
                    limit: self.limits.max_apply_steps,
                },
            );
        }
        self.work.apply_steps = self.work.apply_steps + 1;
        proof {
            assert(self.nodes@.subrange(0, self.nodes@.len() as int) =~= self.nodes@);
            assert(self.terminals@.subrange(0, self.terminals@.len() as int) =~= self.terminals@);
            old(self).lemma_preserved(self);
        }
        if let CoverageDecisionRef::Terminal(t) = f {
            if f == boolean.when_true {
                return Ok(g);
            } else {
                return Ok(h);
            }
        }
        if g == h {
            return Ok(g);
        }
        let tf = self.top_of(f);
        let tg = self.top_of(g);
        let th = self.top_of(h);
        let v = if tf <= tg && tf <= th {
            tf
        } else if tg <= th {
            tg
        } else {
            th
        };
        proof {
            assert(node_wf(self.nodes@, f->Node_0 as int, self.terminals@.len(), self.atom_count as nat));
        }
        let (f0, f1) = self.cofactors(f, v);
        let (g0, g1) = self.cofactors(g, v);
        let (h0, h1) = self.cofactors(h, v);
        let ghost s0 = *self;
        let r0 = self.ite(f0, g0, h0, boolean)?;
        let ghost s1 = *self;
        let r1 = match self.ite(f1, g1, h1, boolean) {
            Ok(x) => x,
            Err(e) => {
                proof {
                    lemma_extended_trans(&s0, &s1, self);
                    lemma_preserved_trans(&s0, &s1, self);
                }
                return Err(e);
            },
        };
        let ghost s2 = *self;
        proof {
            lemma_extended_trans(&s0, &s1, &s2);
            lemma_preserved_trans(&s0, &s1, &s2);
        }
        proof {
            assert(s1.valid_ref(r0));
            assert(s2.valid_ref(r0));
            assert(s2.top(r0) == s1.top(r0));
        }
        let r = match self.branch(v, r0, r1) {
            Ok(x) => x,
            Err(e) => {
                proof {
                    lemma_extended_trans(&s0, &s2, self);
                    lemma_preserved_trans(&s0, &s2, self);
                }
                return Err(e);
            },
        };
        proof {
            lemma_extended_trans(&s0, &s2, self);
            lemma_preserved_trans(&s0, &s2, self);
            assert forall|a: Seq<bool>| #[trigger] self.eval(r, a) == ite_value(
                old(self).eval(f, a),
                old(self).eval(g, a),
                old(self).eval(h, a),
                boolean.when_true,
            ) by {
                assert(self.eval(r, a) == if a[v as int] { s2.eval(r1, a) } else { s2.eval(r0, a) });
                assert(s2.eval(r0, a) == s1.eval(r0, a));
                assert(s0.eval(f, a) == old(self).eval(f, a));
                assert(s0.eval(g, a) == old(self).eval(g, a));
                assert(s0.eval(h, a) == old(self).eval(h, a));
                assert(s1.eval(f1, a) == s0.eval(f1, a));
                assert(s1.eval(g1, a) == s0.eval(g1, a));
                assert(s1.eval(h1, a) == s0.eval(h1, a));
            }
        }
        Ok(r)
    }
}

pub proof fn lemma_extended_trans(a: &CoverageDecisionDag, b: &CoverageDecisionDag, c: &CoverageDecisionDag)
    requires
        a.extended_by(b),
        b.extended_by(c),
    ensures
        a.extended_by(c),
{
    reveal_extended(a, b, c);
}

proof fn reveal_extended(a: &CoverageDecisionDag, b: &CoverageDecisionDag, c: &CoverageDecisionDag)
    requires
        a.extended_by(b),
        b.extended_by(c),
    ensures
        a.extended_by(c),
{
    assert(c.nodes@.subrange(0, a.nodes@.len() as int) =~= a.nodes@) by {
        assert forall|i: int| 0 <= i < a.nodes@.len() implies c.nodes@[i] == a.nodes@[i] by {
            assert(c.nodes@.subrange(0, b.nodes@.len() as int)[i] == b.nodes@[i]);
            assert(b.nodes@.subrange(0, a.nodes@.len() as int)[i] == a.nodes@[i]);
        }
    }
    assert(c.terminals@.subrange(0, a.terminals@.len() as int) =~= a.terminals@) by {
        assert forall|i: int| 0 <= i < a.terminals@.len() implies c.terminals@[i] == a.terminals@[i] by {
            assert(c.terminals@.subrange(0, b.terminals@.len() as int)[i] == b.terminals@[i]);
            assert(b.terminals@.subrange(0, a.terminals@.len() as int)[i] == a.terminals@[i]);
        }
    }
}

pub proof fn lemma_preserved_trans(a: &CoverageDecisionDag, b: &CoverageDecisionDag, c: &CoverageDecisionDag)
    requires
        a.preserved_in(b),
        b.preserved_in(c),
    ensures
        a.preserved_in(c),
{
    assert forall|r: CoverageDecisionRef, x: Seq<bool>| a.valid_ref(r) implies #[trigger] c.eval(r, x) == a.eval(r, x) by {
        assert(b.valid_ref(r));
        assert(c.eval(r, x) == b.eval(r, x));
        assert(b.eval(r, x) == a.eval(r, x));
    }
    assert forall|r: CoverageDecisionRef| #[trigger] a.valid_ref(r) implies c.valid_ref(r) && c.top(r) == a.top(r) by {
        assert(b.valid_ref(r));
    }
    assert forall|i: int| 0 <= i < a.terminals@.len() implies c.terminals@[i] == #[trigger] a.terminals@[i] by {
        assert(b.terminals@[i] == a.terminals@[i]);
    }
}

/// Value selected by a priority list of `(bad, applies)` pairs: the first pair
/// whose `bad` value is not the Boolean true terminal selects its `applies`
/// value; if every `bad` is true the fallback is selected.
pub open spec fn priority_value(vals: Seq<(nat, nat)>, fallback: nat, when_true: CoverageDecisionRef) -> nat
    decreases vals.len(),
{
    if vals.len() == 0 {
        fallback
    } else if when_true == CoverageDecisionRef::Terminal(vals[0].0 as usize) {
        priority_value(vals.drop_first(), fallback, when_true)
    } else {
        vals[0].1
    }
}

impl CoverageDecisionDag {
    pub closed spec fn candidate_values(&self, candidates: Seq<(CoverageDecisionRef, CoverageDecisionRef)>, a: Seq<bool>) -> Seq<(nat, nat)> {
        Seq::new(candidates.len(), |i: int| (self.eval(candidates[i].0, a), self.eval(candidates[i].1, a)))
    }

    pub proof fn lemma_candidate_values(&self, candidates: Seq<(CoverageDecisionRef, CoverageDecisionRef)>, a: Seq<bool>)
        ensures
            self.candidate_values(candidates, a).len() == candidates.len(),
            forall|i: int| 0 <= i < candidates.len() ==> #[trigger] self.candidate_values(candidates, a)[i] == (self.eval(candidates[i].0, a), self.eval(candidates[i].1, a)),
    {
    }

    pub fn boolean_and(
        &mut self,
        x: CoverageDecisionRef,
        y: CoverageDecisionRef,
        boolean: CoverageDecisionBooleanTerminals,
    ) -> (r: Result<CoverageDecisionRef, CoverageDecisionDagError>)
        requires
            old(self).wf(),
            old(self).valid_ref(x),
            old(self).valid_ref(y),
            old(self).valid_ref(boolean.when_false),
            boolean.when_false is Terminal,
        ensures
            final(self).wf(),
            old(self).extended_by(final(self)),
            old(self).preserved_in(final(self)),
            final(self).terminal_count() == old(self).terminal_count(),
            r matches Ok(z) ==> {
                &&& final(self).valid_ref(z)
                &&& forall|a: Seq<bool>| #[trigger] final(self).eval(z, a) == ite_value(
                    old(self).eval(x, a),
                    old(self).eval(y, a),
                    old(self).eval(boolean.when_false, a),
                    boolean.when_true,
                )
            },
    {
        self.ite(x, y, boolean.when_false, boolean)
    }

    pub fn boolean_or(
        &mut self,
        x: CoverageDecisionRef,
        y: CoverageDecisionRef,
        boolean: CoverageDecisionBooleanTerminals,
    ) -> (r: Result<CoverageDecisionRef, CoverageDecisionDagError>)
        requires
            old(self).wf(),
            old(self).valid_ref(x),
            old(self).valid_ref(y),
            old(self).valid_ref(boolean.when_true),
            boolean.when_true is Terminal,
        ensures
            final(self).wf(),
            old(self).extended_by(final(self)),
            old(self).preserved_in(final(self)),
            final(self).terminal_count() == old(self).terminal_count(),
            r matches Ok(z) ==> {
                &&& final(self).valid_ref(z)
                &&& forall|a: Seq<bool>| #[trigger] final(self).eval(z, a) == ite_value(
                    old(self).eval(x, a),
                    old(self).eval(boolean.when_true, a),
                    old(self).eval(y, a),
                    boolean.when_true,
                )
            },
    {
        self.ite(x, boolean.when_true, y, boolean)
    }

    /// Priority composition: the first candidate whose bad function is not
    /// true selects its applies reference, otherwise `fallback` is selected.
    pub fn compose_candidate_priority(
        &mut self,
        candidates: &[(CoverageDecisionRef, CoverageDecisionRef)],
        boolean: CoverageDecisionBooleanTerminals,
        fallback: CoverageDecisionRef,
    ) -> (r: Result<CoverageDecisionRef, CoverageDecisionDagError>)
        requires
            old(self).wf(),
            old(self).valid_ref(fallback),
            forall|i: int| 0 <= i < candidates@.len() ==> old(self).valid_ref(#[trigger] candidates@[i].0) && old(self).valid_ref(candidates@[i].1),
        ensures
            final(self).wf(),
            old(self).extended_by(final(self)),
            old(self).preserved_in(final(self)),
            final(self).terminal_count() == old(self).terminal_count(),
            r matches Ok(z) ==> {
                &&& final(self).valid_ref(z)
                &&& forall|a: Seq<bool>| #[trigger] final(self).eval(z, a) == priority_value(
                    old(self).candidate_values(candidates@, a),
                    old(self).eval(fallback, a),
                    boolean.when_true,
                )
            },
            candidates@.len() == 0 ==> r == Ok::<CoverageDecisionRef, CoverageDecisionDagError>(fallback)
                && final(self).node_count() == old(self).node_count(),
    {
        proof {
            assert(self.nodes@.subrange(0, self.nodes@.len() as int) =~= self.nodes@);
            assert(self.terminals@.subrange(0, self.terminals@.len() as int) =~= self.terminals@);
            old(self).lemma_preserved(self);
        }
        let mut acc = fallback;
        let mut i = candidates.len();
        while i > 0
            invariant
                i <= candidates@.len(),
                self.wf(),
                old(self).wf(),
                old(self).extended_by(self),
                old(self).preserved_in(self),
                self.terminal_count() == old(self).terminal_count(),
                candidates@.len() == 0 ==> acc == fallback && *self == *old(self),
                self.valid_ref(acc),
                forall|j: int| 0 <= j < candidates@.len() ==> old(self).valid_ref(#[trigger] candidates@[j].0) && old(self).valid_ref(candidates@[j].1),
                forall|a: Seq<bool>| #[trigger] self.eval(acc, a) == priority_value(
                    old(self).candidate_values(candidates@, a).subrange(i as int, candidates@.len() as int),
                    old(self).eval(fallback, a),
                    boolean.when_true,
                ),
            decreases i,
        {
            let (bad, applies) = candidates[i - 1];
            let ghost before = *self;
            let next = match self.ite(bad, acc, applies, boolean) {
                Ok(x) => x,
                Err(e) => {
                    proof {
                        lemma_extended_trans(old(self), &before, self);
                        lemma_preserved_trans(old(self), &before, self);
                    }
                    return Err(e);
                },
            };
            proof {
                lemma_extended_trans(old(self), &before, self);
                lemma_preserved_trans(old(self), &before, self);
                assert forall|a: Seq<bool>| #[trigger] self.eval(next, a) == priority_value(
                    old(self).candidate_values(candidates@, a).subrange(i - 1, candidates@.len() as int),
                    old(self).eval(fallback, a),
                    boolean.when_true,
                ) by {
                    let vals = old(self).candidate_values(candidates@, a);
                    old(self).lemma_candidate_values(candidates@, a);
                    let suffix = vals.subrange(i - 1, candidates@.len() as int);
                    assert(suffix.drop_first() =~= vals.subrange(i as int, candidates@.len() as int));
                    assert(suffix[0] == vals[i - 1]);
                    assert(before.eval(bad, a) == old(self).eval(bad, a));
                    assert(before.eval(applies, a) == old(self).eval(applies, a));
                }
            }
            acc = next;
            i = i - 1;
        }
        proof {
            assert forall|a: Seq<bool>| #[trigger] self.eval(acc, a) == priority_value(
                old(self).candidate_values(candidates@, a),
                old(self).eval(fallback, a),
                boolean.when_true,
            ) by {
                old(self).lemma_candidate_values(candidates@, a);
                assert(old(self).candidate_values(candidates@, a).subrange(0, candidates@.len() as int) =~= old(self).candidate_values(candidates@, a));
            }
        }
        Ok(acc)
    }
}

/// Rebuilt arena from a rooted view, together with its roots.
#[derive(Debug)]
pub struct CoverageDecisionRebuiltRooted {
    pub dag: CoverageDecisionDag,
    pub roots: Vec<CoverageDecisionRef>,
}

impl CoverageDecisionRebuiltRooted {
    pub fn dag(&self) -> (r: &CoverageDecisionDag)
        ensures
            *r == self.dag,
    {
        &self.dag
    }

    pub fn roots(&self) -> (r: &[CoverageDecisionRef])
        ensures
            r@ == self.roots@,
    {
        self.roots.as_slice()
    }
}

pub fn clone_payloads(source: &[ParametricSectorMtbddTerminalPayload]) -> (r: Vec<ParametricSectorMtbddTerminalPayload>)
    ensures
        r@.len() == source@.len(),
        forall|i: int| 0 <= i < source@.len() ==> (#[trigger] r@[i]).view() == source@[i].view(),
{
    let mut out: Vec<ParametricSectorMtbddTerminalPayload> = Vec::new();
    let mut i: usize = 0;
    while i < source.len()
        invariant
            i <= source@.len(),
            out@.len() == i,
            forall|j: int| 0 <= j < i ==> (#[trigger] out@[j]).view() == source@[j].view(),
        decreases source@.len() - i,
    {
        out.push(clone_payload(&source[i]));
        i += 1;
    }
    out
}

/// Executable check that a node array forms an ordered, reduced arena.
pub fn check_arena(nodes: &[CoverageDecisionNode], terminals: usize, atom_count: usize) -> (ok: bool)
    ensures
        ok == arena_wf(nodes@, terminals as nat, atom_count as nat),
{
    let mut i: usize = 0;
    while i < nodes.len()
        invariant
            i <= nodes@.len(),
            forall|j: int| 0 <= j < i ==> #[trigger] node_wf(nodes@, j, terminals as nat, atom_count as nat),
        decreases nodes@.len() - i,
    {
        let n = nodes[i];
        let below_false = match n.when_false {
            CoverageDecisionRef::Node(c) => c < i,
            CoverageDecisionRef::Terminal(t) => t < terminals,
        };
        let below_true = match n.when_true {
            CoverageDecisionRef::Node(c) => c < i,
            CoverageDecisionRef::Terminal(t) => t < terminals,
        };
        if !(n.atom < atom_count && below_false && below_true && n.when_false != n.when_true) {
            assert(!node_wf(nodes@, i as int, terminals as nat, atom_count as nat));
            return false;
        }
        let top_false = match n.when_false {
            CoverageDecisionRef::Node(c) => nodes[c].atom,
            CoverageDecisionRef::Terminal(_) => atom_count,
        };
        let top_true = match n.when_true {
            CoverageDecisionRef::Node(c) => nodes[c].atom,
            CoverageDecisionRef::Terminal(_) => atom_count,
        };
        if !(top_false > n.atom && top_true > n.atom) {
            assert(!node_wf(nodes@, i as int, terminals as nat, atom_count as nat));
            return false;
        }
        i += 1;
    }
    true
}

impl CoverageDecisionDag {
    /// Rooted export: the arena with the requested roots.
    pub fn export_rooted(
        &self,
        roots: &[CoverageDecisionRef],
        boolean: CoverageDecisionBooleanTerminals,
    ) -> (r: Result<CoverageDecisionDagRootedView, CoverageDecisionDagError>)
        requires
            self.wf(),
        ensures
            r matches Ok(view) ==> {
                &&& view.wf()
                &&& view.nodes@ == self.spec_nodes()
                &&& view.atom_count == self.spec_atom_count()
                &&& view.terminal_payloads@.len() == self.terminal_count()
                &&& forall|k: int| 0 <= k < self.terminal_count() ==> (#[trigger] view.terminal_payloads@[k]).view() == self.terminal_view(k)
                &&& view.roots@ == roots@
                &&& view.boolean_false == boolean.when_false
                &&& view.boolean_true == boolean.when_true
                &&& forall|x: CoverageDecisionRef, a: Seq<bool>| #[trigger] eval_ref(view.nodes@, x, a) == self.eval(x, a)
            },
            r is Ok <==> roots@.len() <= self.spec_limits().max_roots && forall|i: int| 0 <= i < roots@.len() ==> self.valid_ref(#[trigger] roots@[i]),
    {
        if roots.len() > self.limits.max_roots {
            return Err(
                CoverageDecisionDagError::ResourceLimit {
                    resource: "coverage decision roots",
                    requested: roots.len(),
                    limit: self.limits.max_roots,
                },
            );
        }
        let mut i: usize = 0;
        while i < roots.len()
            invariant
                i <= roots@.len(),
                forall|j: int| 0 <= j < i ==> self.valid_ref(#[trigger] roots@[j]),
            decreases roots@.len() - i,
        {
            if !self.check_ref(roots[i]) {
                return Err(CoverageDecisionDagError::InvalidReference);
            }
            i += 1;
        }
        let mut nodes: Vec<CoverageDecisionNode> = Vec::new();
        let mut k: usize = 0;
        while k < self.nodes.len()
            invariant
                k <= self.nodes@.len(),
                nodes@ == self.nodes@.subrange(0, k as int),
            decreases self.nodes@.len() - k,
        {
            nodes.push(self.nodes[k]);
            k += 1;
            proof {
                assert(nodes@ =~= self.nodes@.subrange(0, k as int));
            }
        }
        assert(nodes@ =~= self.nodes@);
        let mut root_copy: Vec<CoverageDecisionRef> = Vec::new();
        let mut j: usize = 0;
        while j < roots.len()
            invariant
                j <= roots@.len(),
                root_copy@ == roots@.subrange(0, j as int),
            decreases roots@.len() - j,
        {
            root_copy.push(roots[j]);
            j += 1;
            proof {
                assert(root_copy@ =~= roots@.subrange(0, j as int));
            }
        }
        assert(root_copy@ =~= roots@);
        Ok(
            CoverageDecisionDagRootedView {
                atom_count: self.atom_count,
                nodes,
                terminal_payloads: clone_payloads(self.terminals.as_slice()),
                roots: root_copy,
                boolean_false: boolean.when_false,
                boolean_true: boolean.when_true,
            },
        )
    }

    /// A view within `limits`: atoms, nodes, terminals and roots each fit.
    pub open spec fn rooted_view_within_limits(view: CoverageDecisionDagRootedView, limits: CoverageDecisionDagLimits) -> bool {
        &&& view.atom_count <= limits.max_atoms
        &&& view.nodes@.len() <= limits.max_nodes
        &&& view.nodes@.len() <= limits.max_unique_table_entries
        &&& view.nodes@.len() <= limits.max_retained_child_references / 2
        &&& view.terminal_payloads@.len() <= limits.max_terminals
        &&& view.terminal_payloads@.len() <= limits.max_terminal_index_entries
        &&& view.terminal_payloads@.len() <= limits.max_retained_terminal_payload_handles / 2
        &&& view.roots@.len() <= limits.max_roots
    }

    /// Reconstruct an arena from a rooted view after checking its shape.
    pub fn rebuild_rooted(view: &CoverageDecisionDagRootedView, limits: CoverageDecisionDagLimits) -> (r: Result<
        CoverageDecisionRebuiltRooted,
        CoverageDecisionDagError,
    >)
        ensures
            r matches Ok(rebuilt) ==> {
                &&& rebuilt.dag.wf()
                &&& rebuilt.dag.spec_nodes() == view.nodes@
                &&& rebuilt.roots@ == view.roots@
                &&& rebuilt.dag.terminal_count() == view.terminal_payloads@.len()
                &&& rebuilt.dag.spec_atom_count() == view.atom_count
                &&& forall|k: int|
                    0 <= k < view.terminal_payloads@.len() ==> #[trigger] rebuilt.dag.terminal_view(k)
                        == view.terminal_payloads@[k].view()
                &&& forall|x: CoverageDecisionRef, a: Seq<bool>| #[trigger] rebuilt.dag.eval(x, a) == eval_ref(view.nodes@, x, a)
            },
            r is Ok <==> Self::rooted_view_within_limits(*view, limits) && view.wf(),
            r is Err ==> r == Err::<CoverageDecisionRebuiltRooted, CoverageDecisionDagError>(
                CoverageDecisionDagError::MalformedRootedView,
            ),
    {
        let nodes_len = view.nodes.len();
        let terminals_len = view.terminal_payloads.len();
        if view.atom_count > limits.max_atoms || nodes_len > limits.max_nodes || nodes_len > limits.max_unique_table_entries
            || nodes_len > limits.max_retained_child_references / 2 || terminals_len > limits.max_terminals
            || terminals_len > limits.max_terminal_index_entries
            || terminals_len > limits.max_retained_terminal_payload_handles / 2
            || view.roots.len() > limits.max_roots {
            return Err(CoverageDecisionDagError::MalformedRootedView);
        }
        if !check_arena(view.nodes.as_slice(), terminals_len, view.atom_count) {
            return Err(CoverageDecisionDagError::MalformedRootedView);
        }
        let mut i: usize = 0;
        while i < view.roots.len()
            invariant
                i <= view.roots@.len(),
                nodes_len == view.nodes@.len(),
                terminals_len == view.terminal_payloads@.len(),
                forall|k: int|
                    0 <= k < i ==> ref_below(#[trigger] view.roots@[k], view.nodes@.len(), view.terminal_payloads@.len()),
            decreases view.roots@.len() - i,
        {
            let valid = match view.roots[i] {
                CoverageDecisionRef::Node(c) => c < nodes_len,
                CoverageDecisionRef::Terminal(t) => t < terminals_len,
            };
            if !valid {
                assert(!ref_below(view.roots@[i as int], view.nodes@.len(), view.terminal_payloads@.len()));
                return Err(CoverageDecisionDagError::MalformedRootedView);
            }
            i += 1;
        }
        let mut nodes: Vec<CoverageDecisionNode> = Vec::new();
        let mut k: usize = 0;
        while k < view.nodes.len()
            invariant
                k <= view.nodes@.len(),
                nodes@ == view.nodes@.subrange(0, k as int),
            decreases view.nodes@.len() - k,
        {
            nodes.push(view.nodes[k]);
            k += 1;
            proof {
                assert(nodes@ =~= view.nodes@.subrange(0, k as int));
            }
        }
        assert(nodes@ =~= view.nodes@);
        let mut roots: Vec<CoverageDecisionRef> = Vec::new();
        let mut j: usize = 0;
        while j < view.roots.len()
            invariant
                j <= view.roots@.len(),
                roots@ == view.roots@.subrange(0, j as int),
            decreases view.roots@.len() - j,
        {
            roots.push(view.roots[j]);
            j += 1;
            proof {
                assert(roots@ =~= view.roots@.subrange(0, j as int));
            }
        }
        assert(roots@ =~= view.roots@);
        let dag = CoverageDecisionDag {
            atom_count: view.atom_count,
            limits,
            nodes,
            terminals: clone_payloads(view.terminal_payloads.as_slice()),
            work: CoverageDecisionDagWorkStats { branch_calls: 0, apply_steps: 0, terminal_interning_calls: 0 },
        };
        Ok(CoverageDecisionRebuiltRooted { dag, roots })
    }

    /// Walk from `root`, asking `answers` for each tested atom; returns the
    /// reached terminal payload and the atoms queried in order.
    pub fn evaluate(&self, root: CoverageDecisionRef, answers: &[Option<bool>]) -> (r: Result<
        (&ParametricSectorMtbddTerminalPayload, Vec<usize>),
        CoverageDecisionDagError,
    >)
        requires
            self.wf(),
        ensures
            r matches Ok((payload, queried)) ==> {
                &&& forall|i: int| 0 <= i < queried@.len() ==> #[trigger] queried@[i] < answers@.len() && answers@[queried@[i] as int] is Some
                &&& exists|k: int| 0 <= k < self.terminal_count() && payload.view() == self.terminal_view(k)
                    && k == self.eval(root, Seq::new(answers@.len(), |j: int| answers@[j] == Some(true)))
            },
            !self.valid_ref(root) ==> r is Err,
            self.valid_ref(root) && answers@.len() >= self.spec_atom_count() && (forall|j: int|
                0 <= j < answers@.len() ==> (#[trigger] answers@[j]) is Some) ==> r is Ok,
    {
        let ghost answered = answers@.len() >= self.spec_atom_count() && (forall|j: int|
            0 <= j < answers@.len() ==> (#[trigger] answers@[j]) is Some);
        if !self.check_ref(root) {
            return Err(CoverageDecisionDagError::InvalidReference);
        }
        let ghost a = Seq::new(answers@.len(), |j: int| answers@[j] == Some(true));
        let mut current = root;
        let mut queried: Vec<usize> = Vec::new();
        loop
            invariant
                self.wf(),
                self.valid_ref(current),
                self.eval(current, a) == self.eval(root, a),
                a == Seq::new(answers@.len(), |j: int| answers@[j] == Some(true)),
                forall|i: int| 0 <= i < queried@.len() ==> #[trigger] queried@[i] < answers@.len() && answers@[queried@[i] as int] is Some,
                self.valid_ref(root),
                answered == (answers@.len() >= self.spec_atom_count() && (forall|j: int|
                    0 <= j < answers@.len() ==> (#[trigger] answers@[j]) is Some)),
            decreases ref_rank(current),
        {
            match current {
                CoverageDecisionRef::Terminal(t) => {
                    proof {
                        assert(self.terminal_view(t as int) == self.terminals@[t as int].view());
                        assert(self.eval(current, a) == t);
                    }
                    return Ok((&self.terminals[t], queried));
                },
                CoverageDecisionRef::Node(i) => {
                    let n = self.nodes[i];
                    proof {
                        assert(node_wf(self.nodes@, i as int, self.terminals@.len(), self.atom_count as nat));
                    }
                    if n.atom >= answers.len() {
                        return Err(CoverageDecisionDagError::InvalidReference);
                    }
                    let answer = match answers[n.atom] {
                        Some(b) => b,
                        None => {
                            return Err(CoverageDecisionDagError::InvalidReference);
                        },
                    };
                    queried.push(n.atom);
                    proof {
                        lemma_eval_node(self.nodes@, i, a, self.terminals@.len(), self.atom_count as nat);
                        assert(node_wf(self.nodes@, i as int, self.terminals@.len(), self.atom_count as nat));
                        assert(a[n.atom as int] == answer);
                    }
                    current = if answer {
                        n.when_true
                    } else {
                        n.when_false
                    };
                },
            }
        }
    }
}

impl CoverageDecisionDag {
    pub proof fn lemma_terminal_facts(&self, t: usize, a: Seq<bool>)
        ensures
            self.eval(CoverageDecisionRef::Terminal(t), a) == t,
            self.top(CoverageDecisionRef::Terminal(t)) == self.spec_atom_count(),
            self.valid_ref(CoverageDecisionRef::Terminal(t)) <==> t < self.terminal_count(),
    {
    }

    pub proof fn lemma_top_node(&self, n: usize)
        requires
            self.valid_ref(CoverageDecisionRef::Node(n)),
        ensures
            self.top(CoverageDecisionRef::Node(n)) == self.spec_nodes()[n as int].atom,
    {
    }

    pub proof fn lemma_ref_facts(&self)
        ensures
            self.spec_nodes().len() == self.node_count(),
            self.spec_terminals().len() == self.terminal_count(),
            forall|n: usize| #[trigger] self.valid_ref(CoverageDecisionRef::Node(n)) <==> n < self.node_count(),
            forall|t: usize| #[trigger] self.valid_ref(CoverageDecisionRef::Terminal(t)) <==> t < self.terminal_count(),
            forall|n: usize| n < self.node_count() ==> #[trigger] self.top(CoverageDecisionRef::Node(n)) == self.spec_nodes()[n as int].atom,
            forall|t: usize| #[trigger] self.top(CoverageDecisionRef::Terminal(t)) == self.spec_atom_count(),
            forall|t: usize, a: Seq<bool>| #[trigger] self.eval(CoverageDecisionRef::Terminal(t), a) == t,
    {
    }

    pub proof fn lemma_preserved_facts(&self, later: &Self)
        requires
            self.preserved_in(later),
        ensures
            later.spec_atom_count() == self.spec_atom_count(),
            later.spec_limits() == self.spec_limits(),
            later.terminal_count() >= self.terminal_count(),
            forall|k: int| 0 <= k < self.terminal_count() ==> #[trigger] later.terminal_view(k) == self.terminal_view(k),
            forall|r: CoverageDecisionRef| #[trigger] self.valid_ref(r) ==> later.valid_ref(r) && later.top(r) == self.top(r),
            forall|r: CoverageDecisionRef, a: Seq<bool>| self.valid_ref(r) ==> #[trigger] later.eval(r, a) == self.eval(r, a),
    {
        assert forall|k: int| 0 <= k < self.terminal_count() implies #[trigger] later.terminal_view(k) == self.terminal_view(k) by {
            assert(later.terminals@[k] == self.terminals@[k]);
        }
    }

    /// Exporting an arena and rebuilding the view gives its behaviour back:
    /// from every valid reference, under every assignment, the rebuilt arena
    /// reaches the same terminal ordinal, and that terminal carries the same
    /// payload as in the exported arena.
    pub proof fn lemma_rebuild_of_export(
        &self,
        view: CoverageDecisionDagRootedView,
        rebuilt: &CoverageDecisionDag,
        x: CoverageDecisionRef,
        a: Seq<bool>,
    )
        requires
            self.wf(),
            self.valid_ref(x),
            view.nodes@ == self.spec_nodes(),
            view.terminal_payloads@.len() == self.terminal_count(),
            forall|k: int| 0 <= k < self.terminal_count() ==> (#[trigger] view.terminal_payloads@[k]).view() == self.terminal_view(k),
            rebuilt.spec_nodes() == view.nodes@,
            rebuilt.terminal_count() == view.terminal_payloads@.len(),
            forall|k: int|
                0 <= k < view.terminal_payloads@.len() ==> #[trigger] rebuilt.terminal_view(k) == view.terminal_payloads@[k].view(),
        ensures
            rebuilt.valid_ref(x),
            rebuilt.eval(x, a) == self.eval(x, a),
            self.eval(x, a) < self.terminal_count(),
            rebuilt.terminal_view(rebuilt.eval(x, a) as int) == self.terminal_view(self.eval(x, a) as int),
    {
        lemma_eval_below(self.nodes@, x, a, self.terminals@.len(), self.atom_count as nat);
        let t = self.eval(x, a) as int;
        assert(view.terminal_payloads@[t].view() == self.terminal_view(t));
        assert(rebuilt.terminal_view(t) == view.terminal_payloads@[t].view());
    }

    /// A fresh arena holds no two equal nodes.
    pub proof fn lemma_fresh_arena_distinct(&self)
        requires
            self.node_count() == 0,
        ensures
            distinct_nodes(self.spec_nodes()),
    {
    }

    pub proof fn lemma_wf_bounds(&self)
        requires
            self.wf(),
        ensures
            self.spec_nodes().len() == self.node_count(),
            self.node_count() * 2 <= usize::MAX,
            self.terminal_count() * 2 <= usize::MAX,
    {
    }

    pub proof fn lemma_preserved_refl(&self)
        requires
            self.wf(),
        ensures
            self.preserved_in(self),
            self.extended_by(self),
    {
        assert(self.nodes@.subrange(0, self.nodes@.len() as int) =~= self.nodes@);
        assert(self.terminals@.subrange(0, self.terminals@.len() as int) =~= self.terminals@);
        self.lemma_preserved(self);
    }

    pub proof fn lemma_candidate_values_preserved(&self, later: &Self, candidates: Seq<(CoverageDecisionRef, CoverageDecisionRef)>, a: Seq<bool>)
        requires
            self.preserved_in(later),
            forall|i: int| 0 <= i < candidates.len() ==> self.valid_ref(#[trigger] candidates[i].0) && self.valid_ref(candidates[i].1),
        ensures
            later.candidate_values(candidates, a) == self.candidate_values(candidates, a),
    {
        assert forall|i: int| 0 <= i < candidates.len() implies #[trigger] later.candidate_values(candidates, a)[i] == self.candidate_values(candidates, a)[i] by {
            assert(self.valid_ref(candidates[i].0));
            assert(later.eval(candidates[i].0, a) == self.eval(candidates[i].0, a));
            assert(later.eval(candidates[i].1, a) == self.eval(candidates[i].1, a));
        }
        assert(later.candidate_values(candidates, a) =~= self.candidate_values(candidates, a));
    }
}
} // verus!
