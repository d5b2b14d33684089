//! Plain-value surface of parametric relations and of the parametric
//! elimination kernel, as read by the persistent elimination database.
//!
//! A relation carries its sparse integral slots, its nonzero guards and its
//! stable manifest.  Whether a coefficient or guard polynomial lies in the
//! coefficient field within the exact-algebra budget is decided by the
//! coefficient arithmetic and recorded here as a flag.

use vstd::prelude::*;

verus! {

/// Length in bytes of the UTF-8 encoding of a stored string `s`, as `len`
/// reports it (a stored string fits in memory, so its length fits `usize`).
pub open spec fn byte_len(s: Seq<char>) -> usize {
    vstd::utf8::encode_utf8(s).len() as usize
}

/// Byte-wise equality of two strings.
pub fn text_eq(a: &str, b: &str) -> (r: bool)
    ensures
        r == (a@ == b@),
{
    let x = a.as_bytes();
    let y = b.as_bytes();
    proof {
        vstd::utf8::encode_utf8_decode_utf8(a@);
        vstd::utf8::encode_utf8_decode_utf8(b@);
    }
    if x.len() != y.len() {
        return false;
    }
    let mut i: usize = 0;
    while i < x.len()
        invariant
            x@ == vstd::utf8::encode_utf8(a@),
            y@ == vstd::utf8::encode_utf8(b@),
            vstd::utf8::decode_utf8(x@) == a@,
            vstd::utf8::decode_utf8(y@) == b@,
            x@.len() == y@.len(),
            i <= x@.len(),
            forall|k: int| 0 <= k < i ==> x@[k] == y@[k],
        decreases x@.len() - i,
    {
        if x[i] != y[i] {
            return false;
        }
        i = i + 1;
    }
    assert(x@ =~= y@);
    true
}


pub const PARAMETRIC_SOURCE_MANIFEST_V1_SCHEMA: &'static str = "rustred-parametric-source-manifest-v1";

/// The coefficient field `K(n)` a relation lives in.
#[derive(Clone, Debug, PartialEq, Eq)]
pub struct ParametricCoefficientContext {
    pub fingerprint: String,
    pub index_count: usize,
}

impl ParametricCoefficientContext {
    pub fn fingerprint(&self) -> (r: &str)
        ensures
            r@ == self.fingerprint@,
    {
        self.fingerprint.as_str()
    }

    pub fn index_count(&self) -> (r: usize)
        ensures
            r == self.index_count,
    {
        self.index_count
    }
}

/// A guarded nonzero condition of a relation.
#[derive(Clone, Debug, PartialEq, Eq)]
pub struct ParametricNonzeroGuard {
    /// The condition is one of the context's declared nonzero conditions.
    pub declared_in_context: bool,
    pub polynomial_is_zero: bool,
    /// The guard polynomial is valid within the exact-algebra budget.
    pub polynomial_within_limits: bool,
    pub origins: Vec<usize>,
}

/// One sparse integral slot: an index shift and its coefficient.
#[derive(Clone, Debug, PartialEq, Eq)]
pub struct ParametricRelationTerm {
    pub shift: Vec<i64>,
    /// The coefficient is valid within the exact-algebra budget.
    pub coefficient_within_limits: bool,
}

#[derive(Clone, Debug, PartialEq, Eq)]
pub struct ParametricRelation {
    pub family_fingerprint: String,
    pub context_fingerprint: String,
    pub arity: usize,
    pub terms: Vec<ParametricRelationTerm>,
    pub guarded_nonzero_conditions: Vec<ParametricNonzeroGuard>,
    pub stable_manifest: String,
}

#[derive(Clone, Debug, PartialEq, Eq)]
pub enum ParametricRelationError {
    ResourceLimit { resource: &'static str, requested: usize, limit: usize },
    ResourceCountOverflow { resource: &'static str },
}

impl ParametricRelation {
    /// Stable manifest, refused when longer than `limit` bytes.
    pub fn stable_manifest_with_limit(&self, limit: usize) -> (r: Result<&str, ParametricRelationError>)
        ensures
            byte_len(self.stable_manifest@) <= limit ==> r is Ok,
            r matches Ok(m) ==> m@ == self.stable_manifest@,
            byte_len(self.stable_manifest@) > limit ==> r == Err::<&str, ParametricRelationError>(ParametricRelationError::ResourceLimit {
                resource: "parametric relation manifest bytes",
                requested: byte_len(self.stable_manifest@),
                limit,
            }),
    {
        let manifest = self.stable_manifest.as_str();
        if manifest.len() > limit {
            return Err(
                ParametricRelationError::ResourceLimit {
                    resource: "parametric relation manifest bytes",
                    requested: manifest.len(),
                    limit,
                },
            );
        }
        Ok(manifest)
    }
}

/// Column order of the elimination, anchored at one integral.
#[derive(Clone, Debug, PartialEq, Eq)]
pub struct ParametricEliminationOrdering {
    pub anchor: Vec<i64>,
}

#[derive(Clone, Copy, Debug, PartialEq, Eq, Structural)]
pub struct ParametricEliminationLimits {
    pub max_source_rows: usize,
    pub max_input_terms: usize,
    pub max_input_guards: usize,
    pub max_input_guard_origins: usize,
    pub max_guard_origins: usize,
    pub max_columns: usize,
    pub max_source_manifest_bytes: usize,
    pub max_reductions: usize,
    pub max_sparse_updates: usize,
    pub max_replay_reductions: usize,
    pub max_replay_updates: usize,
}

impl Default for ParametricEliminationLimits {
    fn default() -> (r: Self)
        ensures
            r.max_source_rows == 100_000,
    {
        ParametricEliminationLimits {
            max_source_rows: 100_000,
            max_input_terms: 16_000_000,
            max_input_guards: 1_000_000,
            max_input_guard_origins: 16_000_000,
            max_guard_origins: 1_000_000,
            max_columns: 1_000_000,
            max_source_manifest_bytes: 1_073_741_824,
            max_reductions: 1_000_000_000,
            max_sparse_updates: 1_000_000_000,
            max_replay_reductions: 1_000_000_000,
            max_replay_updates: 1_000_000_000,
        }
    }
}

/// One committed pivot: the column it solves and its reduction trace.
#[derive(Clone, Debug, PartialEq, Eq)]
pub struct ParametricPivotEquation {
    pub ordinal: usize,
    pub pivot: Vec<i64>,
    pub trace: Vec<usize>,
}

#[derive(Clone, Copy, Debug, Default, PartialEq, Eq, Structural)]
pub struct ParametricEliminationStats {
    pub construction_reductions: usize,
    pub construction_updates: usize,
    pub replay_reductions: usize,
    pub replay_updates: usize,
}

impl ParametricPivotEquation {
    /// The two pivot equations solve the same column with the same trace.
    pub fn same_pivot(&self, other: &ParametricPivotEquation) -> (r: bool)
        ensures
            r == pivot_same(*self, *other),
            r == (self.ordinal == other.ordinal && self.pivot@ == other.pivot@ && self.trace@ == other.trace@),
    {
        self.ordinal == other.ordinal && i64_seq_eq(&self.pivot, &other.pivot) && usize_seq_eq(
            &self.trace,
            &other.trace,
        )
    }
}

pub open spec fn pivot_same(a: ParametricPivotEquation, b: ParametricPivotEquation) -> bool {
    a.ordinal == b.ordinal && a.pivot@ == b.pivot@ && a.trace@ == b.trace@
}

/// Two pivot equations are the same exactly when they solve the same
/// column ordinal with the same pivot entries and the same reduction trace.
pub proof fn lemma_pivot_same_fields(a: ParametricPivotEquation, b: ParametricPivotEquation)
    ensures
        pivot_same(a, b) <==> (a.ordinal == b.ordinal && a.pivot@ == b.pivot@ && a.trace@ == b.trace@),
        a.trace@ != b.trace@ ==> !pivot_same(a, b),
        a.pivot@ != b.pivot@ ==> !pivot_same(a, b),
        a.ordinal != b.ordinal ==> !pivot_same(a, b),
{
}

pub fn i64_seq_eq(a: &Vec<i64>, b: &Vec<i64>) -> (r: bool)
    ensures
        r == (a@ == b@),
{
    if a.len() != b.len() {
        return false;
    }
    let mut i: usize = 0;
    while i < a.len()
        invariant
            a.len() == b.len(),
            i <= a.len(),
            forall|k: int| 0 <= k < i ==> a@[k] == b@[k],
        decreases a.len() - i,
    {
        if a[i] != b[i] {
            return false;
        }
        i = i + 1;
    }
    assert(a@ =~= b@);
    true
}

pub fn usize_seq_eq(a: &Vec<usize>, b: &Vec<usize>) -> (r: bool)
    ensures
        r == (a@ == b@),
{
    if a.len() != b.len() {
        return false;
    }
    let mut i: usize = 0;
    while i < a.len()
        invariant
            a.len() == b.len(),
            i <= a.len(),
            forall|k: int| 0 <= k < i ==> a@[k] == b@[k],
        decreases a.len() - i,
    {
        if a[i] != b[i] {
            return false;
        }
        i = i + 1;
    }
    assert(a@ =~= b@);
    true
}

/// Result of eliminating one ordered source prefix.
#[derive(Clone, Debug, PartialEq, Eq)]
pub struct ParametricElimination {
    pub source_manifest: String,
    pub pivots: Vec<ParametricPivotEquation>,
    pub stats: ParametricEliminationStats,
}

impl ParametricElimination {
    pub fn source_manifest(&self) -> (r: &str)
        ensures
            r@ == self.source_manifest@,
    {
        self.source_manifest.as_str()
    }

    pub fn pivots(&self) -> (r: &[ParametricPivotEquation])
        ensures
            r@ == self.pivots@,
    {
        self.pivots.as_slice()
    }

    pub fn stats(&self) -> (r: ParametricEliminationStats)
        ensures
            r == self.stats,
    {
        self.stats
    }
}

#[derive(Clone, Debug, PartialEq, Eq)]
pub enum ParametricEliminationError {
    InvalidSourceGuard { row: usize, condition: usize },
    GuardPolynomialOutOfLimits { row: usize, condition: usize },
    CoefficientOutOfLimits { row: usize },
    ColumnArityMismatch { row: usize },
    ResourceLimit { resource: &'static str, requested: usize, limit: usize },
}

} // verus!
