//! Replayable append-only database of parametric elimination over one
//! residual case group.
//!
//! Equation batches are submitted and consumed one row at a time.  Every
//! consumption rebuilds the elimination over the consumed source prefix and
//! requires all previously committed pivots to be an exact prefix of the new
//! result, so the row transcript (dependent or new pivot) is the candidate
//! priority order.  A finished database is a certificate whose every counter
//! replay audits again from the retained rows.

use vstd::prelude::*;
use crate::parametric_elimination::{
    byte_len, i64_seq_eq, text_eq, pivot_same, ParametricCoefficientContext, ParametricElimination,
    ParametricEliminationError, ParametricEliminationLimits, ParametricEliminationOrdering,
    ParametricNonzeroGuard, ParametricPivotEquation, ParametricRelation, ParametricRelationError,
    ParametricRelationTerm, PARAMETRIC_SOURCE_MANIFEST_V1_SCHEMA,
};

verus! {

pub const PERSISTENT_PARAMETRIC_ELIMINATION_REFERENCE_V1_SCHEMA: &'static str =
    "rustred-persistent-parametric-elimination-reference-v1";

#[derive(Clone, Copy, Debug, PartialEq, Eq, Structural)]
pub struct PersistentParametricEliminationLimits {
    pub elimination: ParametricEliminationLimits,
    pub max_submitted_batches: usize,
    pub max_rows_per_batch: usize,
    pub max_retained_source_rows: usize,
    /// Counts sparse `(shift, coefficient)` integral slots, although named for terms.
    pub max_retained_source_terms: usize,
    pub max_retained_source_manifest_bytes: usize,
    pub max_batch_label_bytes: usize,
    pub max_retained_batch_label_bytes: usize,
    pub max_cumulative_prefix_rebuild_rows: usize,
    /// Cumulative sparse integral slots revisited across prefix rebuilds,
    /// although named for terms.
    pub max_cumulative_prefix_rebuild_terms: usize,
    pub max_cumulative_prefix_rebuild_manifest_bytes: usize,
    pub max_cumulative_construction_reductions: usize,
    pub max_cumulative_construction_updates: usize,
    pub max_cumulative_replay_reductions: usize,
    pub max_cumulative_replay_updates: usize,
    pub max_replay_batch_clone_rows: usize,
    pub max_replay_batch_clone_integral_slots: usize,
    pub max_replay_batch_clone_manifest_bytes: usize,
    pub max_replay_source_clone_rows: usize,
    pub max_replay_source_clone_integral_slots: usize,
    pub max_replay_source_clone_manifest_bytes: usize,
    /// Peak bytes of simultaneously live elimination source manifests.
    pub max_coexisting_elimination_source_manifest_bytes: usize,
}

impl Default for PersistentParametricEliminationLimits {
    fn default() -> (r: Self)
        ensures
            r.max_rows_per_batch == 100_000,
            r.max_submitted_batches == 1_000_000,
    {
        PersistentParametricEliminationLimits {
            elimination: ParametricEliminationLimits::default(),
            max_submitted_batches: 1_000_000,
            max_rows_per_batch: 100_000,
            max_retained_source_rows: 100_000,
            max_retained_source_terms: 16_000_000,
            max_retained_source_manifest_bytes: 536_870_912,
            max_batch_label_bytes: 1_048_576,
            max_retained_batch_label_bytes: 67_108_864,
            max_cumulative_prefix_rebuild_rows: 1_000_000_000,
            max_cumulative_prefix_rebuild_terms: 10_000_000_000u64 as usize,
            max_cumulative_prefix_rebuild_manifest_bytes: 20_000_000_000u64 as usize,
            max_cumulative_construction_reductions: 1_000_000_000,
            max_cumulative_construction_updates: 10_000_000_000u64 as usize,
            max_cumulative_replay_reductions: 2_000_000_000,
            max_cumulative_replay_updates: 20_000_000_000u64 as usize,
            max_replay_batch_clone_rows: 100_000,
            max_replay_batch_clone_integral_slots: 16_000_000,
            max_replay_batch_clone_manifest_bytes: 536_870_912,
            max_replay_source_clone_rows: 200_000,
            max_replay_source_clone_integral_slots: 32_000_000,
            max_replay_source_clone_manifest_bytes: 1_073_741_824,
            max_coexisting_elimination_source_manifest_bytes: 2_147_483_648u64 as usize,
        }
    }
}

#[derive(Clone, Copy, Debug, Default, PartialEq, Eq, Structural)]
pub struct PersistentParametricEliminationStats {
    pub submitted_batches: usize,
    pub submitted_rows: usize,
    pub retained_source_integral_slots: usize,
    pub retained_source_manifest_bytes: usize,
    pub retained_batch_label_bytes: usize,
    pub retained_input_guards: usize,
    pub retained_input_guard_origins: usize,
    pub retained_input_columns: usize,
    pub consumed_rows: usize,
    pub dependent_rows: usize,
    pub pivot_rows: usize,
    pub rebuilds: usize,
    pub cumulative_prefix_rebuild_rows: usize,
    pub cumulative_prefix_rebuild_integral_slots: usize,
    pub cumulative_prefix_rebuild_manifest_bytes: usize,
    pub cumulative_construction_reductions: usize,
    pub cumulative_construction_updates: usize,
    pub cumulative_replay_reductions: usize,
    pub cumulative_replay_updates: usize,
}

impl PersistentParametricEliminationStats {
    /// All counters zero.
    pub open spec fn spec_zero() -> Self {
        PersistentParametricEliminationStats {
            submitted_batches: 0,
            submitted_rows: 0,
            retained_source_integral_slots: 0,
            retained_source_manifest_bytes: 0,
            retained_batch_label_bytes: 0,
            retained_input_guards: 0,
            retained_input_guard_origins: 0,
            retained_input_columns: 0,
            consumed_rows: 0,
            dependent_rows: 0,
            pivot_rows: 0,
            rebuilds: 0,
            cumulative_prefix_rebuild_rows: 0,
            cumulative_prefix_rebuild_integral_slots: 0,
            cumulative_prefix_rebuild_manifest_bytes: 0,
            cumulative_construction_reductions: 0,
            cumulative_construction_updates: 0,
            cumulative_replay_reductions: 0,
            cumulative_replay_updates: 0,
        }
    }

    pub fn zero() -> (r: Self)
        ensures
            r == Self::spec_zero(),
    {
        PersistentParametricEliminationStats {
            submitted_batches: 0,
            submitted_rows: 0,
            retained_source_integral_slots: 0,
            retained_source_manifest_bytes: 0,
            retained_batch_label_bytes: 0,
            retained_input_guards: 0,
            retained_input_guard_origins: 0,
            retained_input_columns: 0,
            consumed_rows: 0,
            dependent_rows: 0,
            pivot_rows: 0,
            rebuilds: 0,
            cumulative_prefix_rebuild_rows: 0,
            cumulative_prefix_rebuild_integral_slots: 0,
            cumulative_prefix_rebuild_manifest_bytes: 0,
            cumulative_construction_reductions: 0,
            cumulative_construction_updates: 0,
            cumulative_replay_reductions: 0,
            cumulative_replay_updates: 0,
        }
    }

    pub fn submitted_batches(self) -> (r: usize)
        ensures
            r == self.submitted_batches,
    {
        self.submitted_batches
    }

    pub fn submitted_rows(self) -> (r: usize)
        ensures
            r == self.submitted_rows,
    {
        self.submitted_rows
    }

    /// Sparse integral slots retained, although named for terms.
    pub fn retained_source_terms(self) -> (r: usize)
        ensures
            r == self.retained_source_integral_slots,
    {
        self.retained_source_integral_slots
    }

    pub fn retained_source_integral_slots(self) -> (r: usize)
        ensures
            r == self.retained_source_integral_slots,
    {
        self.retained_source_integral_slots
    }

    pub fn retained_source_manifest_bytes(self) -> (r: usize)
        ensures
            r == self.retained_source_manifest_bytes,
    {
        self.retained_source_manifest_bytes
    }

    pub fn retained_batch_label_bytes(self) -> (r: usize)
        ensures
            r == self.retained_batch_label_bytes,
    {
        self.retained_batch_label_bytes
    }

    pub fn retained_input_guards(self) -> (r: usize)
        ensures
            r == self.retained_input_guards,
    {
        self.retained_input_guards
    }

    pub fn retained_input_guard_origins(self) -> (r: usize)
        ensures
            r == self.retained_input_guard_origins,
    {
        self.retained_input_guard_origins
    }

    pub fn retained_input_columns(self) -> (r: usize)
        ensures
            r == self.retained_input_columns,
    {
        self.retained_input_columns
    }

    pub fn consumed_rows(self) -> (r: usize)
        ensures
            r == self.consumed_rows,
    {
        self.consumed_rows
    }

    pub fn dependent_rows(self) -> (r: usize)
        ensures
            r == self.dependent_rows,
    {
        self.dependent_rows
    }

    pub fn pivot_rows(self) -> (r: usize)
        ensures
            r == self.pivot_rows,
    {
        self.pivot_rows
    }

    pub fn rebuilds(self) -> (r: usize)
        ensures
            r == self.rebuilds,
    {
        self.rebuilds
    }

    pub fn cumulative_prefix_rebuild_rows(self) -> (r: usize)
        ensures
            r == self.cumulative_prefix_rebuild_rows,
    {
        self.cumulative_prefix_rebuild_rows
    }

    /// Sparse integral slots revisited by prefix rebuilds, although named for terms.
    pub fn cumulative_prefix_rebuild_terms(self) -> (r: usize)
        ensures
            r == self.cumulative_prefix_rebuild_integral_slots,
    {
        self.cumulative_prefix_rebuild_integral_slots
    }

    pub fn cumulative_prefix_rebuild_integral_slots(self) -> (r: usize)
        ensures
            r == self.cumulative_prefix_rebuild_integral_slots,
    {
        self.cumulative_prefix_rebuild_integral_slots
    }

    pub fn cumulative_prefix_rebuild_manifest_bytes(self) -> (r: usize)
        ensures
            r == self.cumulative_prefix_rebuild_manifest_bytes,
    {
        self.cumulative_prefix_rebuild_manifest_bytes
    }

    pub fn cumulative_construction_reductions(self) -> (r: usize)
        ensures
            r == self.cumulative_construction_reductions,
    {
        self.cumulative_construction_reductions
    }

    pub fn cumulative_construction_updates(self) -> (r: usize)
        ensures
            r == self.cumulative_construction_updates,
    {
        self.cumulative_construction_updates
    }

    pub fn cumulative_replay_reductions(self) -> (r: usize)
        ensures
            r == self.cumulative_replay_reductions,
    {
        self.cumulative_replay_reductions
    }

    pub fn cumulative_replay_updates(self) -> (r: usize)
        ensures
            r == self.cumulative_replay_updates,
    {
        self.cumulative_replay_updates
    }

}

/// One submitted batch: a contiguous range of source rows.
#[derive(Clone, Debug, PartialEq, Eq)]
pub struct PersistentParametricEliminationBatch {
    pub ordinal: usize,
    pub label: String,
    pub first_source_ordinal: usize,
    pub source_row_count: usize,
}

impl PersistentParametricEliminationBatch {
    pub fn ordinal(&self) -> (r: usize)
        ensures
            r == self.ordinal,
    {
        self.ordinal
    }

    pub fn label(&self) -> (r: &str)
        ensures
            r@ == self.label@,
    {
        self.label.as_str()
    }

    pub fn first_source_ordinal(&self) -> (r: usize)
        ensures
            r == self.first_source_ordinal,
    {
        self.first_source_ordinal
    }

    pub fn source_row_count(&self) -> (r: usize)
        ensures
            r == self.source_row_count,
    {
        self.source_row_count
    }

    /// Source range of a batch whose end does not overflow.
    pub fn source_range(&self) -> (r: std::ops::Range<usize>)
        requires
            self.first_source_ordinal + self.source_row_count <= usize::MAX,
        ensures
            r.start == self.first_source_ordinal,
            r.end == self.first_source_ordinal + self.source_row_count,
    {
        let end = self.first_source_ordinal + self.source_row_count;
        self.first_source_ordinal..end
    }

    pub fn try_source_range(&self) -> (r: Result<std::ops::Range<usize>, PersistentParametricEliminationError>)
        ensures
            self.first_source_ordinal + self.source_row_count <= usize::MAX ==> r is Ok,
            r matches Ok(range) ==> range.start == self.first_source_ordinal
                && range.end == self.first_source_ordinal + self.source_row_count,
            self.first_source_ordinal + self.source_row_count > usize::MAX ==> r == Err::<std::ops::Range<usize>, PersistentParametricEliminationError>(
                PersistentParametricEliminationError::ResourceCountOverflow { resource: "persistent batch source range" }),
    {
        let end = checked_add(self.first_source_ordinal, self.source_row_count, "persistent batch source range")?;
        Ok(self.first_source_ordinal..end)
    }
}

#[derive(Clone, Copy, Debug, PartialEq, Eq, Structural)]
pub enum PersistentParametricEliminationRowOutcome {
    Dependent,
    Pivot { pivot_ordinal: usize },
}

/// The transcript entry of one consumed source row.
#[derive(Clone, Copy, Debug, PartialEq, Eq, Structural)]
pub struct PersistentParametricEliminationEvent {
    pub event_ordinal: usize,
    pub batch_ordinal: usize,
    pub source_ordinal: usize,
    pub within_batch_ordinal: usize,
    pub outcome: PersistentParametricEliminationRowOutcome,
}

impl PersistentParametricEliminationEvent {
    pub fn event_ordinal(self) -> (r: usize)
        ensures
            r == self.event_ordinal,
    {
        self.event_ordinal
    }

    pub fn batch_ordinal(self) -> (r: usize)
        ensures
            r == self.batch_ordinal,
    {
        self.batch_ordinal
    }

    pub fn source_ordinal(self) -> (r: usize)
        ensures
            r == self.source_ordinal,
    {
        self.source_ordinal
    }

    pub fn within_batch_ordinal(self) -> (r: usize)
        ensures
            r == self.within_batch_ordinal,
    {
        self.within_batch_ordinal
    }

    pub fn outcome(self) -> (r: PersistentParametricEliminationRowOutcome)
        ensures
            r == self.outcome,
    {
        self.outcome
    }
}

#[derive(Clone, Debug, PartialEq, Eq)]
pub enum PersistentParametricEliminationError {
    EmptyBatch,
    PendingBatchNotConsumed { pending: usize },
    DatabaseInterrupted,
    WrongFamily { row: usize },
    WrongContext { row: usize },
    WrongArity { expected: usize, actual: usize },
    ResourceLimit { resource: &'static str, requested: usize, limit: usize },
    ResourceCountOverflow { resource: &'static str },
    Elimination(ParametricEliminationError),
    Relation(ParametricRelationError),
    ReplayMismatch { detail: &'static str },
}

pub fn checked_add(left: usize, right: usize, resource: &'static str) -> (r: Result<usize, PersistentParametricEliminationError>)
    ensures
        left + right <= usize::MAX ==> r == Ok::<usize, PersistentParametricEliminationError>((left + right) as usize),
        left + right > usize::MAX ==> r == Err::<usize, PersistentParametricEliminationError>(
            PersistentParametricEliminationError::ResourceCountOverflow { resource }),
{
    match left.checked_add(right) {
        Some(v) => Ok(v),
        None => Err(PersistentParametricEliminationError::ResourceCountOverflow { resource }),
    }
}

pub fn checked_mul(left: usize, right: usize, resource: &'static str) -> (r: Result<usize, PersistentParametricEliminationError>)
    ensures
        left * right <= usize::MAX ==> r == Ok::<usize, PersistentParametricEliminationError>((left * right) as usize),
        left * right > usize::MAX ==> r == Err::<usize, PersistentParametricEliminationError>(
            PersistentParametricEliminationError::ResourceCountOverflow { resource }),
{
    match left.checked_mul(right) {
        Some(v) => Ok(v),
        None => Err(PersistentParametricEliminationError::ResourceCountOverflow { resource }),
    }
}

pub fn check_limit(resource: &'static str, requested: usize, limit: usize) -> (r: Result<(), PersistentParametricEliminationError>)
    ensures
        requested <= limit ==> r is Ok,
        requested > limit ==> r == Err::<(), PersistentParametricEliminationError>(
            PersistentParametricEliminationError::ResourceLimit { resource, requested, limit }),
{
    if requested > limit {
        Err(PersistentParametricEliminationError::ResourceLimit { resource, requested, limit })
    } else {
        Ok(())
    }
}

/// The error for a resource count that does not fit in `usize`.
pub open spec fn count_overflow(resource: &'static str) -> PersistentParametricEliminationError {
    PersistentParametricEliminationError::ResourceCountOverflow { resource }
}

/// The error for a resource request above its limit.
pub open spec fn over_limit(resource: &'static str, requested: nat, limit: usize) -> PersistentParametricEliminationError {
    PersistentParametricEliminationError::ResourceLimit { resource, requested: requested as usize, limit }
}

/// Bytes of the source manifest retained by an elimination (none without one).
pub open spec fn elimination_manifest_bytes(e: Option<ParametricElimination>) -> nat {
    match e {
        Some(e) => (vstd::utf8::encode_utf8(e.source_manifest@).len() as usize) as nat,
        None => 0,
    }
}

/// Largest manifest length among the first `n` rows (zero when `n` is zero).
pub open spec fn largest_row_manifest(rows: Seq<ParametricRelation>, n: int) -> nat
    decreases n,
{
    if n <= 0 {
        0
    } else {
        let rest = largest_row_manifest(rows, n - 1);
        if row_manifest_bytes(rows[n - 1]) > rest {
            row_manifest_bytes(rows[n - 1])
        } else {
            rest
        }
    }
}

/// Number of decimal digits of `n`.
pub open spec fn decimal_digits(n: nat) -> nat
    decreases n,
{
    if n < 10 {
        1
    } else {
        1 + decimal_digits(n / 10)
    }
}

proof fn lemma_decimal_digits_bound(n: nat, k: nat, bound: nat)
    requires
        1 <= k,
        n < bound,
        bound == pow10(k),
    ensures
        decimal_digits(n) <= k,
    decreases k,
{
    if n >= 10 {
        assert(k >= 2) by {
            if k == 1 {
                assert(pow10(1) == 10 * pow10(0));
            }
        }
        assert(n / 10 < pow10((k - 1) as nat)) by {
            assert(pow10(k) == 10 * pow10((k - 1) as nat));
        }
        lemma_decimal_digits_bound(n / 10, (k - 1) as nat, pow10((k - 1) as nat));
    }
}

/// `10` to the power `k`.
pub open spec fn pow10(k: nat) -> nat
    decreases k,
{
    if k == 0 {
        1
    } else {
        10 * pow10((k - 1) as nat)
    }
}

proof fn lemma_usize_decimal_digits(n: usize)
    ensures
        decimal_digits(n as nat) <= 20,
{
    assert(pow10(20) == 100_000_000_000_000_000_000nat) by {
        reveal_with_fuel(pow10, 21);
    }
    lemma_decimal_digits_bound(n as nat, 20, pow10(20));
}

proof fn lemma_decimal_digits_positive(n: nat)
    ensures
        1 <= decimal_digits(n),
        n >= 10 ==> decimal_digits(n) == 1 + decimal_digits(n / 10),
{
}

pub fn decimal_len(n: usize) -> (r: usize)
    ensures
        r == decimal_digits(n as nat),
        1 <= r <= 20,
{
    proof {
        lemma_usize_decimal_digits(n);
    }
    let mut value = n;
    let mut digits: usize = 1;
    while value >= 10
        invariant
            1 <= digits,
            digits + decimal_digits(value as nat) == decimal_digits(n as nat) + 1,
            decimal_digits(n as nat) <= 20,
        decreases value,
    {
        proof {
            lemma_decimal_digits_positive(value as nat);
            lemma_decimal_digits_positive((value / 10) as nat);
        }
        value = value / 10;
        digits = digits + 1;
    }
    proof {
        lemma_decimal_digits_positive(value as nat);
    }
    digits
}

/// Bytes of the elimination source manifest of a prefix of `source_rows`
/// rows whose row components take `row_component_bytes` bytes.
pub fn prefix_source_manifest_bytes(source_rows: usize, row_component_bytes: usize) -> (r: Result<
    usize,
    PersistentParametricEliminationError,
>)
    ensures
        r matches Ok(v) ==> v == manifest_header_bytes(source_rows as nat) + row_component_bytes,
        manifest_header_bytes(source_rows as nat) + row_component_bytes <= usize::MAX ==> r is Ok,
        manifest_header_bytes(source_rows as nat) + row_component_bytes > usize::MAX ==> r
            == Err::<usize, PersistentParametricEliminationError>(
            PersistentParametricEliminationError::ResourceCountOverflow {
                resource: "persistent source manifest bytes",
            },
        ),
{
    proof {
        reveal_strlit("|rows=");
        reveal_strlit("rustred-parametric-source-manifest-v1");
        vstd::string::is_ascii_spec_bytes("|rows=");
        vstd::string::is_ascii_spec_bytes(PARAMETRIC_SOURCE_MANIFEST_V1_SCHEMA);
    }
    let schema_bytes = PARAMETRIC_SOURCE_MANIFEST_V1_SCHEMA.len();
    let separator_bytes = "|rows=".len();
    let digits = decimal_len(source_rows);
    assert(schema_bytes + separator_bytes + digits <= usize::MAX);
    let header = schema_bytes + separator_bytes + digits;
    checked_add(header, row_component_bytes, "persistent source manifest bytes")
}

/// Bytes of the source-manifest header naming `rows` rows.
pub open spec fn manifest_header_bytes(rows: nat) -> nat {
    PARAMETRIC_SOURCE_MANIFEST_V1_SCHEMA@.len() + 6 + decimal_digits(rows)
}


// ---------------------------------------------------------------------------
// Totals over retained rows.
// ---------------------------------------------------------------------------

/// Sum of `f` over `rows`.
pub open spec fn row_sum(rows: Seq<ParametricRelation>, f: spec_fn(ParametricRelation) -> nat) -> nat
    decreases rows.len(),
{
    if rows.len() == 0 {
        0
    } else {
        row_sum(rows.drop_last(), f) + f(rows.last())
    }
}

/// Sparse integral slots of one row.
pub open spec fn row_slots(r: ParametricRelation) -> nat {
    r.terms@.len()
}

/// Nonzero guards of one row.
pub open spec fn row_guards(r: ParametricRelation) -> nat {
    r.guarded_nonzero_conditions@.len()
}

/// Sum of the origin counts of `guards`.
pub open spec fn guard_origin_sum(guards: Seq<ParametricNonzeroGuard>) -> nat
    decreases guards.len(),
{
    if guards.len() == 0 {
        0
    } else {
        guard_origin_sum(guards.drop_last()) + guards.last().origins@.len()
    }
}

pub proof fn lemma_guard_origin_sum_mono(guards: Seq<ParametricNonzeroGuard>, i: int, n: int)
    requires
        0 <= i <= n <= guards.len(),
    ensures
        guard_origin_sum(guards.take(i)) <= guard_origin_sum(guards.take(n)),
    decreases n - i,
{
    if i < n {
        lemma_guard_origin_sum_mono(guards, i, n - 1);
        lemma_guard_origin_sum_take(guards, n - 1);
    }
}

/// Guard origins of one row.
pub open spec fn row_guard_origins(r: ParametricRelation) -> nat {
    guard_origin_sum(r.guarded_nonzero_conditions@)
}

/// Stable-manifest bytes of one row.
pub open spec fn row_manifest_bytes(r: ParametricRelation) -> nat {
    byte_len(r.stable_manifest@) as nat
}

/// Bytes of one row's component in the elimination source manifest:
/// a separator, the decimal manifest length, a separator and the manifest.
pub open spec fn row_component_bytes(r: ParametricRelation) -> nat {
    2 + decimal_digits(row_manifest_bytes(r)) + row_manifest_bytes(r)
}

pub open spec fn slots_of() -> spec_fn(ParametricRelation) -> nat {
    |r: ParametricRelation| row_slots(r)
}

pub open spec fn guards_of() -> spec_fn(ParametricRelation) -> nat {
    |r: ParametricRelation| row_guards(r)
}

pub open spec fn origins_of() -> spec_fn(ParametricRelation) -> nat {
    |r: ParametricRelation| row_guard_origins(r)
}

pub open spec fn manifest_of() -> spec_fn(ParametricRelation) -> nat {
    |r: ParametricRelation| row_manifest_bytes(r)
}

pub open spec fn component_of() -> spec_fn(ParametricRelation) -> nat {
    |r: ParametricRelation| row_component_bytes(r)
}


pub proof fn lemma_row_sum_append(a: Seq<ParametricRelation>, b: Seq<ParametricRelation>, f: spec_fn(ParametricRelation) -> nat)
    ensures
        row_sum(a + b, f) == row_sum(a, f) + row_sum(b, f),
    decreases b.len(),
{
    if b.len() == 0 {
        assert(a + b =~= a);
    } else {
        lemma_row_sum_append(a, b.drop_last(), f);
        assert((a + b).drop_last() =~= a + b.drop_last());
    }
}

pub proof fn lemma_row_sum_take(rows: Seq<ParametricRelation>, i: int, f: spec_fn(ParametricRelation) -> nat)
    requires
        0 <= i < rows.len(),
    ensures
        row_sum(rows.take(i + 1), f) == row_sum(rows.take(i), f) + f(rows[i]),
{
    assert(rows.take(i + 1).drop_last() =~= rows.take(i));
}

pub proof fn lemma_row_sum_mono(rows: Seq<ParametricRelation>, f: spec_fn(ParametricRelation) -> nat, i: int, n: int)
    requires
        0 <= i <= n <= rows.len(),
    ensures
        row_sum(rows.take(i), f) <= row_sum(rows.take(n), f),
    decreases n - i,
{
    if i < n {
        lemma_row_sum_mono(rows, f, i, n - 1);
        lemma_row_sum_take(rows, n - 1, f);
    }
}

/// Row `i` of `cert` is admitted and has its recorded manifest length.
pub open spec fn row_admitted(cert: PersistentParametricEliminationCertificate, context: ParametricCoefficientContext, i: int) -> bool {
    &&& row_shape_admitted(cert, context, i)
    &&& cert.source_manifest_lengths@[i] == row_manifest_bytes(cert.source_rows@[i])
}

/// Row `i` of `cert` is in the case group of `context`, and its terms and
/// guards are admitted in order.
pub open spec fn row_shape_admitted(cert: PersistentParametricEliminationCertificate, context: ParametricCoefficientContext, i: int) -> bool {
    let rows = cert.source_rows@;
    &&& rows[i].family_fingerprint@ == cert.family_fingerprint@
    &&& rows[i].context_fingerprint@ == cert.context_fingerprint@
    &&& rows[i].arity == context.index_count
    &&& forall|k: int|
        0 <= k < rows[i].terms@.len() ==> #[trigger] term_column_admissible(
            add_row_shifts(Seq::empty(), rows.take(i)),
            rows[i].terms@,
            k,
            cert.limits.elimination.max_columns,
            cert.ordering.anchor@.len(),
        )
    &&& forall|k: int|
        0 <= k < rows[i].guarded_nonzero_conditions@.len() ==> guard_admissible(
            #[trigger] rows[i].guarded_nonzero_conditions@[k],
            cert.limits,
        )
}

/// The retained rows a replay of `cert` admits for `context`: admitted in
/// shape and totals, each with its recorded manifest length.
pub open spec fn rows_admissible(cert: PersistentParametricEliminationCertificate, context: ParametricCoefficientContext) -> bool {
    &&& rows_shape_admissible(cert, context)
    &&& forall|i: int|
        0 <= i < cert.source_rows@.len() ==> cert.source_manifest_lengths@[i] == row_manifest_bytes(
            #[trigger] cert.source_rows@[i],
        )
}

/// The retained rows of `cert` within the row limits, each in the case
/// group of `context` with every term and guard admitted in order, and the
/// slot, guard, origin and manifest totals within their limits.
#[verifier::opaque]
pub open spec fn rows_shape_admissible(cert: PersistentParametricEliminationCertificate, context: ParametricCoefficientContext) -> bool {
    let rows = cert.source_rows@;
    let limits = cert.limits;
    &&& rows.len() <= limits.max_retained_source_rows
    &&& rows.len() <= limits.elimination.max_source_rows
    &&& forall|i: int| 0 <= i < rows.len() ==> #[trigger] row_shape_admitted(cert, context, i)
    &&& row_sum(rows, slots_of()) <= limits.max_retained_source_terms
    &&& row_sum(rows, slots_of()) <= limits.elimination.max_input_terms
    &&& row_sum(rows, guards_of()) <= limits.elimination.max_input_guards
    &&& row_sum(rows, origins_of()) <= limits.elimination.max_input_guard_origins
    &&& row_sum(rows, manifest_of()) <= limits.max_retained_source_manifest_bytes
}

pub proof fn lemma_guard_origin_sum_take(guards: Seq<ParametricNonzeroGuard>, i: int)
    requires
        0 <= i < guards.len(),
    ensures
        guard_origin_sum(guards.take(i + 1)) == guard_origin_sum(guards.take(i)) + guards[i].origins@.len(),
{
    assert(guards.take(i + 1).drop_last() =~= guards.take(i));
}

// ---------------------------------------------------------------------------
// Columns.
// ---------------------------------------------------------------------------

/// `columns` extended, in order, by each shift of `terms` it does not hold yet.
pub open spec fn add_term_shifts(columns: Seq<Seq<i64>>, terms: Seq<ParametricRelationTerm>) -> Seq<Seq<i64>>
    decreases terms.len(),
{
    if terms.len() == 0 {
        columns
    } else {
        let before = add_term_shifts(columns, terms.drop_last());
        let shift = terms.last().shift@;
        if before.contains(shift) {
            before
        } else {
            before.push(shift)
        }
    }
}

/// Term `k` of `terms` is admitted after `seen`: its coefficient is within
/// the limits, and a shift not seen before fits the column limit and has the
/// anchor's arity.
pub open spec fn term_column_admissible(
    seen: Seq<Seq<i64>>,
    terms: Seq<ParametricRelationTerm>,
    k: int,
    max_columns: usize,
    anchor_len: nat,
) -> bool {
    let before = add_term_shifts(seen, terms.take(k));
    &&& terms[k].coefficient_within_limits
    &&& !before.contains(terms[k].shift@) ==> before.len() + 1 <= max_columns && terms[k].shift@.len() == anchor_len
}

/// `columns` extended by the shifts of every row of `rows`, in order.
pub open spec fn add_row_shifts(columns: Seq<Seq<i64>>, rows: Seq<ParametricRelation>) -> Seq<Seq<i64>>
    decreases rows.len(),
{
    if rows.len() == 0 {
        columns
    } else {
        add_term_shifts(add_row_shifts(columns, rows.drop_last()), rows.last().terms@)
    }
}

pub proof fn lemma_add_row_shifts_take(columns: Seq<Seq<i64>>, rows: Seq<ParametricRelation>, i: int)
    requires
        0 <= i < rows.len(),
    ensures
        add_row_shifts(columns, rows.take(i + 1)) == add_term_shifts(add_row_shifts(columns, rows.take(i)), rows[i].terms@),
{
    assert(rows.take(i + 1).drop_last() =~= rows.take(i));
}

pub proof fn lemma_add_term_shifts_take(columns: Seq<Seq<i64>>, terms: Seq<ParametricRelationTerm>, j: int)
    requires
        0 <= j < terms.len(),
    ensures
        add_term_shifts(columns, terms.take(j + 1)) == ({
            let before = add_term_shifts(columns, terms.take(j));
            if before.contains(terms[j].shift@) {
                before
            } else {
                before.push(terms[j].shift@)
            }
        }),
{
    assert(terms.take(j + 1).drop_last() =~= terms.take(j));
}

pub proof fn lemma_add_row_shifts_append(columns: Seq<Seq<i64>>, a: Seq<ParametricRelation>, b: Seq<ParametricRelation>)
    ensures
        add_row_shifts(columns, a + b) == add_row_shifts(add_row_shifts(columns, a), b),
    decreases b.len(),
{
    if b.len() == 0 {
        assert(a + b =~= a);
    } else {
        lemma_add_row_shifts_append(columns, a, b.drop_last());
        assert((a + b).drop_last() =~= a + b.drop_last());
    }
}

/// A source row belongs to the database's family, context and arity, and its
/// guards and coefficients are valid within the elimination limits.
pub open spec fn row_admissible(
    r: ParametricRelation,
    family: Seq<char>,
    context: ParametricCoefficientContext,
    limits: PersistentParametricEliminationLimits,
    anchor_arity: nat,
) -> bool {
    &&& r.family_fingerprint@ == family
    &&& r.context_fingerprint@ == context.fingerprint@
    &&& r.arity == context.index_count
    &&& forall|c: int| 0 <= c < r.guarded_nonzero_conditions@.len() ==> guard_admissible(
        #[trigger] r.guarded_nonzero_conditions@[c],
        limits,
    )
    &&& forall|t: int| 0 <= t < r.terms@.len() ==> (#[trigger] r.terms@[t]).coefficient_within_limits
        && r.terms@[t].shift@.len() == anchor_arity
}

pub open spec fn guard_admissible(g: ParametricNonzeroGuard, limits: PersistentParametricEliminationLimits) -> bool {
    &&& g.declared_in_context
    &&& !g.polynomial_is_zero
    &&& g.origins@.len() > 0
    &&& g.polynomial_within_limits
    &&& g.origins@.len() <= limits.elimination.max_guard_origins
}

// ---------------------------------------------------------------------------
// The database.
// ---------------------------------------------------------------------------

/// The elimination kernel: builds the parametric elimination of an ordered
/// source prefix.
pub trait ParametricEliminationBuilder {
    fn build(
        &self,
        context: &ParametricCoefficientContext,
        rows: &[ParametricRelation],
        ordering: ParametricEliminationOrdering,
        limits: ParametricEliminationLimits,
    ) -> Result<ParametricElimination, ParametricEliminationError>;
}

/// Mutable database for one residual case group.  Construct a new value at
/// the case group's boundary; pivots are never carried into another group.
pub struct PersistentParametricEliminationDatabase<'context> {
    context: &'context ParametricCoefficientContext,
    family_fingerprint: String,
    ordering: ParametricEliminationOrdering,
    limits: PersistentParametricEliminationLimits,
    source_rows: Vec<ParametricRelation>,
    source_integral_slot_prefixes: Vec<usize>,
    source_manifest_lengths: Vec<usize>,
    source_manifest_component_prefixes: Vec<usize>,
    source_columns: Vec<Vec<i64>>,
    batches: Vec<PersistentParametricEliminationBatch>,
    events: Vec<PersistentParametricEliminationEvent>,
    elimination: Option<ParametricElimination>,
    stats: PersistentParametricEliminationStats,
    interrupted: bool,
}

/// Pivots of an optional elimination (none before the first consumption).
pub open spec fn pivots_of(elimination: Option<ParametricElimination>) -> Seq<ParametricPivotEquation> {
    match elimination {
        Some(e) => e.pivots@,
        None => Seq::empty(),
    }
}

/// `prefix` is an exact prefix of `pivots`.
pub open spec fn pivot_prefix(prefix: Seq<ParametricPivotEquation>, pivots: Seq<ParametricPivotEquation>) -> bool {
    prefix.len() <= pivots.len() && forall|i: int| 0 <= i < prefix.len() ==> pivot_same(#[trigger] prefix[i], pivots[i])
}

/// Every pivot of an exact prefix keeps, at its position, the same column
/// ordinal, the same pivot entries and the same reduction trace.
pub proof fn lemma_pivot_prefix_fields(prefix: Seq<ParametricPivotEquation>, pivots: Seq<ParametricPivotEquation>)
    requires
        pivot_prefix(prefix, pivots),
    ensures
        prefix.len() <= pivots.len(),
        forall|i: int|
            0 <= i < prefix.len() ==> (#[trigger] pivots[i]).ordinal == prefix[i].ordinal && pivots[i].pivot@ == prefix[i].pivot@
                && pivots[i].trace@ == prefix[i].trace@,
{
    assert forall|i: int| 0 <= i < prefix.len() implies (#[trigger] pivots[i]).ordinal == prefix[i].ordinal && pivots[i].pivot@
        == prefix[i].pivot@ && pivots[i].trace@ == prefix[i].trace@ by {
        assert(pivot_same(prefix[i], pivots[i]));
    }
}

/// Total label bytes of `batches`.
pub open spec fn label_sum(batches: Seq<PersistentParametricEliminationBatch>) -> nat
    decreases batches.len(),
{
    if batches.len() == 0 {
        0
    } else {
        label_sum(batches.drop_last()) + byte_len(batches.last().label@) as nat
    }
}

/// Integral slots of rows `a..b`.
pub open spec fn range_slots(rows: Seq<ParametricRelation>, a: int, b: int) -> nat
    decreases b - a,
{
    if b <= a {
        0
    } else {
        range_slots(rows, a, b - 1) + rows[b - 1].terms@.len()
    }
}

/// Manifest bytes of rows `a..b`.
pub open spec fn range_manifest(lengths: Seq<usize>, a: int, b: int) -> nat
    decreases b - a,
{
    if b <= a {
        0
    } else {
        range_manifest(lengths, a, b - 1) + lengths[b - 1] as nat
    }
}

pub proof fn lemma_range_sums_mono(rows: Seq<ParametricRelation>, lengths: Seq<usize>, a: int, k: int, b: int)
    requires
        a <= k <= b,
    ensures
        range_slots(rows, a, k) <= range_slots(rows, a, b),
        range_manifest(lengths, a, k) <= range_manifest(lengths, a, b),
    decreases b - k,
{
    if k < b {
        lemma_range_sums_mono(rows, lengths, a, k, b - 1);
    }
}

pub proof fn lemma_label_sum_mono(batches: Seq<PersistentParametricEliminationBatch>, i: int, n: int)
    requires
        0 <= i <= n <= batches.len(),
    ensures
        label_sum(batches.take(i)) <= label_sum(batches.take(n)),
    decreases n - i,
{
    if i < n {
        lemma_label_sum_mono(batches, i, n - 1);
        assert(batches.take(n).drop_last() =~= batches.take(n - 1));
    }
}

/// Every batch of contiguous batches ends within the rows.
proof fn lemma_batch_end_below_last(batches: Seq<PersistentParametricEliminationBatch>, rows: nat, i: int)
    requires
        batches_contiguous(batches, rows),
        0 <= i < batches.len(),
    ensures
        batches[i].first_source_ordinal + batches[i].source_row_count <= rows,
    decreases batches.len() - i,
{
    if i + 1 < batches.len() {
        lemma_batch_end_below_last(batches, rows, i + 1);
        assert(batches[i + 1].first_source_ordinal == batches[i].first_source_ordinal + batches[i].source_row_count);
    }
}

/// One batch within the per-batch limits: its row count, its label, and the
/// slots and manifest bytes a replay clones for it.
pub open spec fn batch_fits(
    batch: PersistentParametricEliminationBatch,
    rows: Seq<ParametricRelation>,
    lengths: Seq<usize>,
    limits: PersistentParametricEliminationLimits,
) -> bool {
    let first = batch.first_source_ordinal as int;
    let end = first + batch.source_row_count;
    &&& batch.source_row_count <= limits.max_rows_per_batch
    &&& batch.source_row_count <= limits.max_replay_batch_clone_rows
    &&& byte_len(batch.label@) <= limits.max_batch_label_bytes
    &&& range_slots(rows, first, end) <= limits.max_replay_batch_clone_integral_slots
    &&& range_manifest(lengths, first, end) <= limits.max_replay_batch_clone_manifest_bytes
}

/// Where batch `i` must start: where batch `i - 1` ended.
pub open spec fn expected_first(batches: Seq<PersistentParametricEliminationBatch>, i: int) -> int {
    if i == 0 {
        0
    } else {
        batches[i - 1].first_source_ordinal + batches[i - 1].source_row_count
    }
}

/// Batch `k` passes its audit: numbered `k`, nonempty, starting where the
/// previous one ended, ending within the rows, and within its own limits.
pub open spec fn batch_audited(
    batches: Seq<PersistentParametricEliminationBatch>,
    k: int,
    rows: Seq<ParametricRelation>,
    lengths: Seq<usize>,
    limits: PersistentParametricEliminationLimits,
) -> bool {
    &&& batches[k].ordinal == k
    &&& batches[k].source_row_count > 0
    &&& batches[k].first_source_ordinal == expected_first(batches, k)
    &&& batches[k].first_source_ordinal + batches[k].source_row_count <= rows.len()
    &&& batch_fits(batches[k], rows, lengths, limits)
}

/// Batch `i` is the first to go wrong, and goes wrong by starting elsewhere
/// than where batch `i - 1` ended, though it is numbered `i`.
pub open spec fn batch_misplaced(
    batches: Seq<PersistentParametricEliminationBatch>,
    i: int,
    rows: Seq<ParametricRelation>,
    lengths: Seq<usize>,
    limits: PersistentParametricEliminationLimits,
) -> bool {
    &&& batches.len() <= limits.max_submitted_batches
    &&& forall|k: int| 0 <= k < i ==> #[trigger] batch_audited(batches, k, rows, lengths, limits)
    &&& label_sum(batches.take(i)) <= limits.max_retained_batch_label_bytes
    &&& batches[i].ordinal == i
    &&& batches[i].first_source_ordinal != expected_first(batches, i)
}

/// The batch table a replay admits: within the batch count, contiguous over
/// the rows, within the retained label bytes, and every batch within its
/// own limits.
#[verifier::opaque]
pub open spec fn batches_admissible(
    batches: Seq<PersistentParametricEliminationBatch>,
    rows: Seq<ParametricRelation>,
    lengths: Seq<usize>,
    limits: PersistentParametricEliminationLimits,
) -> bool {
    &&& batches.len() <= limits.max_submitted_batches
    &&& batches_contiguous(batches, rows.len())
    &&& label_sum(batches) <= limits.max_retained_batch_label_bytes
    &&& forall|i: int| 0 <= i < batches.len() ==> batch_fits(#[trigger] batches[i], rows, lengths, limits)
}

/// Batch `i` covers rows from where batch `i - 1` ended, is nonempty, and is
/// numbered `i`; the batches together cover `rows` rows.
pub open spec fn batches_contiguous(batches: Seq<PersistentParametricEliminationBatch>, rows: nat) -> bool {
    &&& forall|i: int| 0 <= i < batches.len() ==> (#[trigger] batches[i]).ordinal == i && batches[i].source_row_count > 0
    &&& batches.len() > 0 ==> batches[0].first_source_ordinal == 0
    &&& forall|i: int| 0 < i < batches.len() ==> (#[trigger] batches[i]).first_source_ordinal == batches[i - 1].first_source_ordinal
        + batches[i - 1].source_row_count
    &&& batches.len() == 0 ==> rows == 0
    &&& batches.len() > 0 ==> batches.last().first_source_ordinal + batches.last().source_row_count == rows
}

/// Event `i` is the transcript entry of source row `i`, located in its batch.
/// Number of pivot events in `events`.
pub open spec fn pivot_events(events: Seq<PersistentParametricEliminationEvent>) -> nat
    decreases events.len(),
{
    if events.len() == 0 {
        0
    } else {
        pivot_events(events.drop_last()) + if events.last().outcome is Pivot {
            1nat
        } else {
            0nat
        }
    }
}

/// A pivot event `i` carries the number of pivot events before it, so the
/// pivot events are numbered 0, 1, 2, ... in transcript order.
pub open spec fn pivot_numbered(events: Seq<PersistentParametricEliminationEvent>, i: int) -> bool {
    events[i].outcome matches PersistentParametricEliminationRowOutcome::Pivot { pivot_ordinal } ==> pivot_ordinal
        == pivot_events(events.take(i))
}

proof fn lemma_pivot_events_push(events: Seq<PersistentParametricEliminationEvent>, e: PersistentParametricEliminationEvent)
    ensures
        pivot_events(events.push(e)) == pivot_events(events) + if e.outcome is Pivot {
            1nat
        } else {
            0nat
        },
        forall|i: int| 0 <= i <= events.len() ==> #[trigger] events.push(e).take(i) == events.take(i),
        events.push(e).take(events.len() as int) == events,
        forall|i: int| 0 <= i < events.len() ==> pivot_numbered(events, i) ==> #[trigger] pivot_numbered(events.push(e), i),
{
    assert(events.push(e).drop_last() =~= events);
    assert forall|i: int| 0 <= i <= events.len() implies #[trigger] events.push(e).take(i) == events.take(i) by {
        assert(events.push(e).take(i) =~= events.take(i));
    }
    assert forall|i: int| 0 <= i < events.len() && pivot_numbered(events, i) implies #[trigger] pivot_numbered(events.push(e), i) by {
        assert(events.push(e).take(i) =~= events.take(i));
    }
    assert(events.push(e).take(events.len() as int) =~= events);
}

/// Event `i` of `events` is located in `batches`, its batch's source range
/// fits a machine word, and a pivot event carries the number of pivot
/// events before it.
pub open spec fn event_audited(
    events: Seq<PersistentParametricEliminationEvent>,
    i: int,
    batches: Seq<PersistentParametricEliminationBatch>,
) -> bool {
    &&& event_located(events[i], i, batches)
    &&& batches[events[i].batch_ordinal as int].first_source_ordinal + batches[events[i].batch_ordinal as int].source_row_count
        <= usize::MAX
    &&& (events[i].outcome matches PersistentParametricEliminationRowOutcome::Pivot { pivot_ordinal } ==> pivot_ordinal
        == pivot_events(events.take(i)))
}

pub open spec fn event_located(
    e: PersistentParametricEliminationEvent,
    i: int,
    batches: Seq<PersistentParametricEliminationBatch>,
) -> bool {
    &&& e.event_ordinal == i
    &&& e.source_ordinal == i
    &&& 0 <= e.batch_ordinal < batches.len()
    &&& batches[e.batch_ordinal as int].first_source_ordinal <= i < batches[e.batch_ordinal as int].first_source_ordinal
        + batches[e.batch_ordinal as int].source_row_count
    &&& e.within_batch_ordinal == i - batches[e.batch_ordinal as int].first_source_ordinal
}

impl<'context> PersistentParametricEliminationDatabase<'context> {
    pub closed spec fn spec_context(&self) -> ParametricCoefficientContext {
        *self.context
    }

    pub closed spec fn spec_family(&self) -> Seq<char> {
        self.family_fingerprint@
    }

    pub closed spec fn spec_ordering(&self) -> ParametricEliminationOrdering {
        self.ordering
    }

    pub closed spec fn spec_limits(&self) -> PersistentParametricEliminationLimits {
        self.limits
    }

    pub closed spec fn spec_rows(&self) -> Seq<ParametricRelation> {
        self.source_rows@
    }

    pub closed spec fn spec_columns(&self) -> Seq<Seq<i64>> {
        self.source_columns@.map_values(|c: Vec<i64>| c@)
    }

    pub closed spec fn spec_batches(&self) -> Seq<PersistentParametricEliminationBatch> {
        self.batches@
    }

    pub closed spec fn spec_events(&self) -> Seq<PersistentParametricEliminationEvent> {
        self.events@
    }

    pub closed spec fn spec_elimination(&self) -> Option<ParametricElimination> {
        self.elimination
    }

    pub closed spec fn spec_stats(&self) -> PersistentParametricEliminationStats {
        self.stats
    }

    pub closed spec fn spec_interrupted(&self) -> bool {
        self.interrupted
    }

    /// The database's internal consistency: retained statistics are the
    /// totals of the retained rows and batches, the batches tile the rows,
    /// and the event transcript covers exactly the consumed prefix.
    pub closed spec fn wf(&self) -> bool {
        let rows = self.source_rows@;
        let n = rows.len();
        &&& self.ordering.anchor@.len() == self.context.index_count
        &&& self.source_integral_slot_prefixes@.len() == n
        &&& self.source_manifest_lengths@.len() == n
        &&& self.source_manifest_component_prefixes@.len() == n
        &&& forall|i: int| 0 <= i < n ==> self.source_integral_slot_prefixes@[i] == row_sum(#[trigger] rows.take(i + 1), slots_of())
        &&& forall|i: int| 0 <= i < n ==> self.source_manifest_lengths@[i] == row_manifest_bytes(#[trigger] rows[i])
        &&& forall|i: int| 0 <= i < n ==> self.source_manifest_component_prefixes@[i] == row_sum(#[trigger] rows.take(i + 1), component_of())
        &&& self.spec_columns() == add_row_shifts(Seq::empty(), rows)
        &&& forall|c: int| 0 <= c < self.source_columns@.len() ==> (#[trigger] self.source_columns@[c])@.len() == self.ordering.anchor@.len()
        &&& self.stats.submitted_batches == self.batches@.len()
        &&& self.stats.submitted_rows == n
        &&& self.stats.retained_source_integral_slots == row_sum(rows, slots_of())
        &&& self.stats.retained_source_manifest_bytes == row_sum(rows, manifest_of())
        &&& self.stats.retained_batch_label_bytes == label_sum(self.batches@)
        &&& self.stats.retained_input_guards == row_sum(rows, guards_of())
        &&& self.stats.retained_input_guard_origins == row_sum(rows, origins_of())
        &&& self.stats.retained_input_columns == self.source_columns@.len()
        &&& batches_contiguous(self.batches@, n)
        &&& self.stats.consumed_rows <= n
        &&& self.events@.len() == self.stats.consumed_rows
        &&& forall|i: int| 0 <= i < self.events@.len() ==> event_located(#[trigger] self.events@[i], i, self.batches@)
        &&& (self.stats.consumed_rows == 0 <==> self.elimination is None)
        &&& pivots_of(self.elimination).len() == self.stats.pivot_rows
        &&& self.stats.dependent_rows + self.stats.pivot_rows == self.stats.consumed_rows
        &&& self.stats.rebuilds == self.stats.consumed_rows
        &&& self.stats.consumed_rows == 0 ==> self.unconsumed_history()
        &&& self.stats.pivot_rows == pivot_events(self.events@)
        &&& forall|i: int| 0 <= i < self.events@.len() ==> pivot_numbered(self.events@, i)
        &&& self.stats.cumulative_prefix_rebuild_rows == rebuild_rows_total(self.stats.consumed_rows as nat)
        &&& self.stats.retained_input_columns <= self.limits.elimination.max_columns
        &&& self.stats.retained_batch_label_bytes <= self.limits.max_retained_batch_label_bytes
    }

    /// A batch admitted to a database that holds no rows yet is admitted
    /// as the first batch of a fresh database with the same scope.
    proof fn lemma_fresh_batch(&self, label: Seq<char>, rows: Seq<ParametricRelation>)
        requires
            self.wf(),
            self.source_rows@.len() == 0,
            self.submission_admissible(label, rows),
        ensures
            fresh_batch_admitted(rows, label, self.family_fingerprint@, *self.context, self.limits, self.ordering.anchor@.len()),
    {
        assert(self.spec_rows() + rows =~= rows);
        assert(self.batches@.len() == 0);
        assert(self.spec_columns() == add_row_shifts(Seq::<Seq<i64>>::empty(), Seq::<ParametricRelation>::empty()));
    }

    proof fn lemma_unconsumed_facts(&self, cert: PersistentParametricEliminationCertificate)
        requires
            self.wf(),
            !self.spec_interrupted(),
            self.spec_stats().consumed_rows == 0,
            finished_from(cert, self),
        ensures
            replay_prechecks(cert, self.spec_context()),
            rows_admissible(cert, self.spec_context()),
            batches_admissible(cert.batches@, cert.source_rows@, cert.source_manifest_lengths@, cert.limits),
            retained_statistics_match(cert),
            event_statistics_match(cert),
            replay_clone_refusal(cert) is None,
            nothing_consumed_replayable(cert, self.spec_context()),
    {
        let rows = cert.source_rows@;
        let lengths = cert.source_manifest_lengths@;
        let limits = cert.limits;
        let context = *self.context;
        reveal(batches_admissible);
        assert(self.unconsumed_history());
        assert(cert.events@.len() == 0);
        assert(cert.events@ =~= Seq::<PersistentParametricEliminationEvent>::empty());
        if self.batches@.len() == 0 {
            assert(rows.len() == 0);
            assert(rows =~= Seq::<ParametricRelation>::empty());
            reveal(rows_shape_admissible);
        } else {
            assert(self.batches@.len() == 1);
            let batch = self.batches@[0];
            assert(fresh_batch_admitted(rows, batch.label@, self.family_fingerprint@, context, limits, self.ordering.anchor@.len()));
            assert(batch.first_source_ordinal == 0);
            assert(batch.source_row_count == rows.len());
            reveal(rows_shape_admissible);
            assert forall|i: int| 0 <= i < rows.len() implies #[trigger] row_shape_admitted(cert, context, i) by {
                assert(row_admissible(rows[i], self.family_fingerprint@, context, limits, self.ordering.anchor@.len()));
                assert forall|k: int| 0 <= k < rows[i].terms@.len() implies #[trigger] term_column_admissible(
                    add_row_shifts(Seq::empty(), rows.take(i)),
                    rows[i].terms@,
                    k,
                    limits.elimination.max_columns,
                    cert.ordering.anchor@.len(),
                ) by {
                    lemma_columns_admitted(rows, i, k, limits.elimination.max_columns, cert.ordering.anchor@.len());
                }
            }
            lemma_range_sums_from_start(rows, lengths, rows.len() as int);
            assert(rows.take(rows.len() as int) =~= rows);
            assert(self.batches@.drop_last() =~= Seq::<PersistentParametricEliminationBatch>::empty());
            assert(label_sum(self.batches@.drop_last()) == 0);
            assert(self.batches@.last() == batch);
            assert(batch_fits(cert.batches@[0], rows, lengths, limits));
            assert forall|i: int| 0 <= i < cert.batches@.len() implies batch_fits(#[trigger] cert.batches@[i], rows, lengths, limits) by {
                assert(i == 0);
            }
        }
    }

    /// Before anything is consumed: no cumulative work is recorded, at most
    /// one batch was submitted, and that batch was admitted to the then
    /// empty database.
    closed spec fn unconsumed_history(&self) -> bool {
        let s = self.stats;
        &&& s.cumulative_prefix_rebuild_rows == 0
        &&& s.cumulative_prefix_rebuild_integral_slots == 0
        &&& s.cumulative_prefix_rebuild_manifest_bytes == 0
        &&& s.cumulative_construction_reductions == 0
        &&& s.cumulative_construction_updates == 0
        &&& s.cumulative_replay_reductions == 0
        &&& s.cumulative_replay_updates == 0
        &&& self.batches@.len() <= 1
        &&& self.batches@.len() == 1 ==> fresh_batch_admitted(
            self.source_rows@,
            self.batches@[0].label@,
            self.family_fingerprint@,
            *self.context,
            self.limits,
            self.ordering.anchor@.len(),
        )
    }

    pub fn try_new(
        context: &'context ParametricCoefficientContext,
        family_fingerprint: &str,
        ordering: ParametricEliminationOrdering,
        limits: PersistentParametricEliminationLimits,
    ) -> (r: Result<Self, PersistentParametricEliminationError>)
        ensures
            ordering.anchor@.len() != context.index_count ==> r == Err::<Self, PersistentParametricEliminationError>(
                PersistentParametricEliminationError::WrongArity {
                    expected: context.index_count,
                    actual: ordering.anchor@.len() as usize,
                },
            ),
            ordering.anchor@.len() == context.index_count ==> r is Ok,
            r matches Ok(db) ==> {
                &&& db.wf()
                &&& db.spec_context() == *context
                &&& db.spec_family() == family_fingerprint@
                &&& db.spec_ordering() == ordering
                &&& db.spec_limits() == limits
                &&& db.spec_rows().len() == 0
                &&& db.spec_batches().len() == 0
                &&& db.spec_events().len() == 0
                &&& db.spec_elimination() is None
                &&& db.spec_stats() == PersistentParametricEliminationStats::spec_zero()
                &&& !db.spec_interrupted()
            },
    {
        if ordering.anchor.len() != context.index_count() {
            return Err(
                PersistentParametricEliminationError::WrongArity {
                    expected: context.index_count(),
                    actual: ordering.anchor.len(),
                },
            );
        }
        let db = PersistentParametricEliminationDatabase {
            context,
            family_fingerprint: family_fingerprint.to_owned(),
            ordering,
            limits,
            source_rows: Vec::new(),
            source_integral_slot_prefixes: Vec::new(),
            source_manifest_lengths: Vec::new(),
            source_manifest_component_prefixes: Vec::new(),
            source_columns: Vec::new(),
            batches: Vec::new(),
            events: Vec::new(),
            elimination: None,
            stats: PersistentParametricEliminationStats::zero(),
            interrupted: false,
        };
        proof {
            assert(db.spec_columns() =~= add_row_shifts(Seq::empty(), db.source_rows@));
        }
        Ok(db)
    }

    pub fn family_fingerprint(&self) -> (r: &str)
        ensures
            r@ == self.spec_family(),
    {
        self.family_fingerprint.as_str()
    }

    pub fn context(&self) -> (r: &ParametricCoefficientContext)
        ensures
            *r == self.spec_context(),
    {
        self.context
    }

    pub fn ordering(&self) -> (r: &ParametricEliminationOrdering)
        ensures
            *r == self.spec_ordering(),
    {
        &self.ordering
    }

    pub fn limits(&self) -> (r: PersistentParametricEliminationLimits)
        ensures
            r == self.spec_limits(),
    {
        self.limits
    }

    pub fn stats(&self) -> (r: PersistentParametricEliminationStats)
        ensures
            r == self.spec_stats(),
    {
        self.stats
    }

    pub fn batches(&self) -> (r: &[PersistentParametricEliminationBatch])
        ensures
            r@ == self.spec_batches(),
    {
        self.batches.as_slice()
    }

    pub fn events(&self) -> (r: &[PersistentParametricEliminationEvent])
        ensures
            r@ == self.spec_events(),
    {
        self.events.as_slice()
    }

    pub fn elimination(&self) -> (r: Option<&ParametricElimination>)
        ensures
            r matches Some(e) ==> self.spec_elimination() == Some(*e),
            r is None ==> self.spec_elimination() is None,
    {
        self.elimination.as_ref()
    }

    /// Rows submitted but not consumed yet; a corrupt cursor reads as zero.
    pub fn pending_rows(&self) -> (r: usize)
        ensures
            self.spec_stats().consumed_rows <= self.spec_rows().len() ==> r == (self.spec_rows().len()
                - self.spec_stats().consumed_rows) as usize,
            self.spec_stats().consumed_rows > self.spec_rows().len() ==> r == 0,
    {
        match self.try_pending_rows() {
            Ok(pending) => pending,
            Err(_) => 0,
        }
    }

    pub fn try_pending_rows(&self) -> (r: Result<usize, PersistentParametricEliminationError>)
        ensures
            self.spec_stats().consumed_rows <= self.spec_rows().len() ==> r == Ok::<
                usize,
                PersistentParametricEliminationError,
            >((self.spec_rows().len() - self.spec_stats().consumed_rows) as usize),
            self.spec_stats().consumed_rows > self.spec_rows().len() ==> r == Err::<
                usize,
                PersistentParametricEliminationError,
            >(cursor_error()),
    {
        pending_after(self.source_rows.len(), self.stats.consumed_rows)
    }

    fn ensure_active(&self) -> (r: Result<(), PersistentParametricEliminationError>)
        ensures
            self.interrupted ==> r == Err::<(), PersistentParametricEliminationError>(
                PersistentParametricEliminationError::DatabaseInterrupted,
            ),
            !self.interrupted ==> r is Ok,
    {
        if self.interrupted {
            Err(PersistentParametricEliminationError::DatabaseInterrupted)
        } else {
            Ok(())
        }
    }
}

/// The error of a consumed-row cursor past the retained rows.
pub open spec fn cursor_error() -> PersistentParametricEliminationError {
    PersistentParametricEliminationError::ReplayMismatch {
        detail: "persistent consumed-row cursor exceeds retained rows",
    }
}

fn pending_after(rows: usize, consumed: usize) -> (r: Result<usize, PersistentParametricEliminationError>)
    ensures
        consumed <= rows ==> r == Ok::<usize, PersistentParametricEliminationError>((rows - consumed) as usize),
        consumed > rows ==> r == Err::<usize, PersistentParametricEliminationError>(cursor_error()),
{
    match rows.checked_sub(consumed) {
        Some(pending) => Ok(pending),
        None => Err(PersistentParametricEliminationError::ReplayMismatch {
            detail: "persistent consumed-row cursor exceeds retained rows",
        }),
    }
}



pub proof fn lemma_row_sum_prefix_le(rows: Seq<ParametricRelation>, i: int, f: spec_fn(ParametricRelation) -> nat)
    requires
        0 <= i <= rows.len(),
    ensures
        row_sum(rows.take(i), f) <= row_sum(rows, f),
{
    lemma_row_sum_append(rows.take(i), rows.skip(i), f);
    assert(rows.take(i) + rows.skip(i) =~= rows);
}

pub proof fn lemma_guard_origin_sum_append(a: Seq<ParametricNonzeroGuard>, b: Seq<ParametricNonzeroGuard>)
    ensures
        guard_origin_sum(a + b) == guard_origin_sum(a) + guard_origin_sum(b),
    decreases b.len(),
{
    if b.len() == 0 {
        assert(a + b =~= a);
    } else {
        lemma_guard_origin_sum_append(a, b.drop_last());
        assert((a + b).drop_last() =~= a + b.drop_last());
    }
}

pub proof fn lemma_guard_origin_sum_prefix_le(guards: Seq<ParametricNonzeroGuard>, c: int)
    requires
        0 <= c <= guards.len(),
    ensures
        guard_origin_sum(guards.take(c)) <= guard_origin_sum(guards),
{
    lemma_guard_origin_sum_append(guards.take(c), guards.skip(c));
    assert(guards.take(c) + guards.skip(c) =~= guards);
}

pub proof fn lemma_add_term_shifts_append(columns: Seq<Seq<i64>>, a: Seq<ParametricRelationTerm>, b: Seq<ParametricRelationTerm>)
    ensures
        add_term_shifts(columns, a + b) == add_term_shifts(add_term_shifts(columns, a), b),
    decreases b.len(),
{
    if b.len() == 0 {
        assert(a + b =~= a);
    } else {
        lemma_add_term_shifts_append(columns, a, b.drop_last());
        assert((a + b).drop_last() =~= a + b.drop_last());
    }
}

pub proof fn lemma_add_term_shifts_grows(columns: Seq<Seq<i64>>, terms: Seq<ParametricRelationTerm>)
    ensures
        columns.len() <= add_term_shifts(columns, terms).len(),
        add_term_shifts(columns, terms).take(columns.len() as int) == columns,
    decreases terms.len(),
{
    if terms.len() > 0 {
        lemma_add_term_shifts_grows(columns, terms.drop_last());
        let before = add_term_shifts(columns, terms.drop_last());
        assert(before.push(terms.last().shift@).take(columns.len() as int) =~= before.take(columns.len() as int));
    } else {
        assert(columns.take(columns.len() as int) =~= columns);
    }
}

pub proof fn lemma_add_row_shifts_grows(columns: Seq<Seq<i64>>, rows: Seq<ParametricRelation>)
    ensures
        columns.len() <= add_row_shifts(columns, rows).len(),
    decreases rows.len(),
{
    if rows.len() > 0 {
        lemma_add_row_shifts_grows(columns, rows.drop_last());
        lemma_add_term_shifts_grows(add_row_shifts(columns, rows.drop_last()), rows.last().terms@);
    }
}


pub proof fn lemma_contains_concat(a: Seq<Seq<i64>>, b: Seq<Seq<i64>>, x: Seq<i64>)
    ensures
        (a + b).contains(x) <==> (a.contains(x) || b.contains(x)),
{
    if a.contains(x) {
        let k = choose|k: int| 0 <= k < a.len() && a[k] == x;
        assert((a + b)[k] == x);
    }
    if b.contains(x) {
        let k = choose|k: int| 0 <= k < b.len() && b[k] == x;
        assert((a + b)[a.len() + k] == x);
    }
    if (a + b).contains(x) {
        let k = choose|k: int| 0 <= k < (a + b).len() && (a + b)[k] == x;
        if k < a.len() {
            assert(a[k] == x);
        } else {
            assert(b[k - a.len()] == x);
        }
    }
}

pub proof fn lemma_label_sum_push(batches: Seq<PersistentParametricEliminationBatch>, b: PersistentParametricEliminationBatch)
    ensures
        label_sum(batches.push(b)) == label_sum(batches) + byte_len(b.label@),
{
    assert(batches.push(b).drop_last() =~= batches);
}

/// View of a vector of shifts.
pub open spec fn shifts_view(columns: Seq<Vec<i64>>) -> Seq<Seq<i64>> {
    columns.map_values(|c: Vec<i64>| c@)
}

fn column_known(columns: &Vec<Vec<i64>>, shift: &Vec<i64>) -> (r: bool)
    ensures
        r == shifts_view(columns@).contains(shift@),
{
    let mut i: usize = 0;
    while i < columns.len()
        invariant
            i <= columns.len(),
            forall|k: int| 0 <= k < i ==> columns@[k]@ != shift@,
        decreases columns.len() - i,
    {
        if i64_seq_eq(&columns[i], shift) {
            assert(shifts_view(columns@)[i as int] == shift@);
            return true;
        }
        i = i + 1;
    }
    assert(!shifts_view(columns@).contains(shift@)) by {
        if shifts_view(columns@).contains(shift@) {
            let k = choose|k: int| 0 <= k < shifts_view(columns@).len() && shifts_view(columns@)[k] == shift@;
            assert(columns@[k]@ == shift@);
        }
    }
    false
}

fn copy_shift(shift: &Vec<i64>) -> (r: Vec<i64>)
    ensures
        r@ == shift@,
{
    let mut out: Vec<i64> = Vec::new();
    let mut i: usize = 0;
    while i < shift.len()
        invariant
            i <= shift.len(),
            out@ == shift@.take(i as int),
        decreases shift.len() - i,
    {
        out.push(shift[i]);
        i = i + 1;
        assert(out@ =~= shift@.take(i as int));
    }
    assert(shift@.take(i as int) =~= shift@);
    out
}

impl<'context> PersistentParametricEliminationDatabase<'context> {
    /// Every check of submitting `rows` under `label` passes: the database
    /// is active with nothing pending, the batch is nonempty, each row is
    /// admissible, and every retained, replay and manifest total stays
    /// within its limit.
    pub open spec fn submission_admissible(&self, label: Seq<char>, rows: Seq<ParametricRelation>) -> bool {
        let limits = self.spec_limits();
        let stats = self.spec_stats();
        let all = self.spec_rows() + rows;
        let label_bytes = byte_len(label) as nat;
        let slots = stats.retained_source_integral_slots + row_sum(rows, slots_of());
        let manifest = stats.retained_source_manifest_bytes + row_sum(rows, manifest_of());
        &&& !self.spec_interrupted()
        &&& stats.consumed_rows == self.spec_rows().len()
        &&& rows.len() > 0
        &&& rows.len() <= limits.max_rows_per_batch
        &&& label_bytes <= limits.max_batch_label_bytes
        &&& stats.retained_batch_label_bytes + label_bytes <= limits.max_retained_batch_label_bytes
        &&& self.spec_batches().len() + 1 <= limits.max_submitted_batches
        &&& all.len() <= limits.max_retained_source_rows
        &&& all.len() <= limits.elimination.max_source_rows
        &&& rows.len() <= limits.max_replay_batch_clone_rows
        &&& forall|i: int| 0 <= i < rows.len() ==> row_admissible(
            #[trigger] rows[i],
            self.spec_family(),
            self.spec_context(),
            limits,
            self.spec_ordering().anchor@.len(),
        )
        &&& add_row_shifts(self.spec_columns(), rows).len() <= limits.elimination.max_columns
        &&& slots <= limits.max_retained_source_terms
        &&& slots <= limits.elimination.max_input_terms
        &&& stats.retained_input_guards + row_sum(rows, guards_of()) <= limits.elimination.max_input_guards
        &&& stats.retained_input_guard_origins + row_sum(rows, origins_of())
            <= limits.elimination.max_input_guard_origins
        &&& manifest <= limits.max_retained_source_manifest_bytes
        &&& row_sum(rows, slots_of()) <= limits.max_replay_batch_clone_integral_slots
        &&& row_sum(rows, manifest_of()) <= limits.max_replay_batch_clone_manifest_bytes
        &&& 2 * all.len() <= limits.max_replay_source_clone_rows
        &&& 2 * slots <= limits.max_replay_source_clone_integral_slots
        &&& 2 * manifest <= limits.max_replay_source_clone_manifest_bytes
        &&& manifest_header_bytes(all.len()) + row_sum(all, component_of())
            <= limits.elimination.max_source_manifest_bytes
    }

    #[verifier::rlimit(60)]
    #[verifier::spinoff_prover]
    /// Append a batch of structurally prevalidated rows.  Submitting while
    /// rows of the previous batch are still pending is a protocol error,
    /// not an implicit union.
    pub fn submit_prevalidated_rows(&mut self, label: &str, rows: Vec<ParametricRelation>) -> (r: Result<
        (),
        PersistentParametricEliminationError,
    >)
        requires
            old(self).wf(),
        ensures
            final(self).wf(),
            r is Ok <==> old(self).submission_admissible(label@, rows@),
            r is Err ==> *final(self) == *old(self),
            old(self).spec_interrupted() ==> r == Err::<(), PersistentParametricEliminationError>(
                PersistentParametricEliminationError::DatabaseInterrupted,
            ),
            !old(self).spec_interrupted() && old(self).spec_stats().consumed_rows < old(self).spec_rows().len()
                ==> r == Err::<(), PersistentParametricEliminationError>(
                PersistentParametricEliminationError::PendingBatchNotConsumed {
                    pending: (old(self).spec_rows().len() - old(self).spec_stats().consumed_rows) as usize,
                },
            ),
            !old(self).spec_interrupted() && old(self).spec_stats().consumed_rows == old(self).spec_rows().len()
                && rows@.len() == 0 ==> r == Err::<(), PersistentParametricEliminationError>(
                PersistentParametricEliminationError::EmptyBatch,
            ),
            !old(self).spec_interrupted() && old(self).spec_stats().consumed_rows == old(self).spec_rows().len()
                && rows@.len() > old(self).spec_limits().max_rows_per_batch ==> r == Err::<
                (),
                PersistentParametricEliminationError,
            >(
                PersistentParametricEliminationError::ResourceLimit {
                    resource: "persistent rows in one submitted batch",
                    requested: rows@.len() as usize,
                    limit: old(self).spec_limits().max_rows_per_batch,
                },
            ),
            r is Ok ==> {
                let before = *old(self);
                let after = *final(self);
                &&& after.spec_rows() == before.spec_rows() + rows@
                &&& after.spec_columns() == add_row_shifts(before.spec_columns(), rows@)
                &&& after.spec_batches().len() == before.spec_batches().len() + 1
                &&& after.spec_batches().take(before.spec_batches().len() as int) == before.spec_batches()
                &&& after.spec_batches().last().ordinal == before.spec_batches().len()
                &&& after.spec_batches().last().label@ == label@
                &&& after.spec_batches().last().first_source_ordinal == before.spec_rows().len()
                &&& after.spec_batches().last().first_source_ordinal == before.spec_stats().submitted_rows
                &&& after.spec_batches().last().source_row_count == rows@.len()
                &&& after.spec_stats() == (PersistentParametricEliminationStats {
                    submitted_batches: (before.spec_stats().submitted_batches + 1) as usize,
                    submitted_rows: (before.spec_stats().submitted_rows + rows@.len()) as usize,
                    retained_source_integral_slots: (before.spec_stats().retained_source_integral_slots + row_sum(
                        rows@,
                        slots_of(),
                    )) as usize,
                    retained_source_manifest_bytes: (before.spec_stats().retained_source_manifest_bytes + row_sum(
                        rows@,
                        manifest_of(),
                    )) as usize,
                    retained_batch_label_bytes: (before.spec_stats().retained_batch_label_bytes + byte_len(
                        label@,
                    )) as usize,
                    retained_input_guards: (before.spec_stats().retained_input_guards + row_sum(
                        rows@,
                        guards_of(),
                    )) as usize,
                    retained_input_guard_origins: (before.spec_stats().retained_input_guard_origins + row_sum(
                        rows@,
                        origins_of(),
                    )) as usize,
                    retained_input_columns: after.spec_columns().len() as usize,
                    ..before.spec_stats()
                })
                &&& after.spec_events() == before.spec_events()
                &&& after.spec_elimination() == before.spec_elimination()
                &&& after.spec_interrupted() == before.spec_interrupted()
                &&& after.spec_context() == before.spec_context()
                &&& after.spec_family() == before.spec_family()
                &&& after.spec_ordering() == before.spec_ordering()
                &&& after.spec_limits() == before.spec_limits()
            },
    {
        self.ensure_active()?;
        let pending = self.try_pending_rows()?;
        if pending != 0 {
            return Err(PersistentParametricEliminationError::PendingBatchNotConsumed { pending });
        }
        if rows.len() == 0 {
            return Err(PersistentParametricEliminationError::EmptyBatch);
        }
        let ghost rows_view = rows@;
        let ghost old_rows = self.source_rows@;
        let ghost old_columns = self.spec_columns();
        let ghost admissible = self.submission_admissible(label@, rows@);
        let ghost anchor_len = self.ordering.anchor@.len();
        check_limit("persistent rows in one submitted batch", rows.len(), self.limits.max_rows_per_batch)?;
        let label_len = label.len();
        check_limit("persistent batch label bytes", label_len, self.limits.max_batch_label_bytes)?;
        let requested_label_bytes = checked_add(
            self.stats.retained_batch_label_bytes,
            label_len,
            "persistent retained batch label bytes",
        )?;
        check_limit(
            "persistent retained batch label bytes",
            requested_label_bytes,
            self.limits.max_retained_batch_label_bytes,
        )?;
        check_limit(
            "persistent submitted batches",
            checked_add(self.batches.len(), 1, "persistent submitted batches")?,
            self.limits.max_submitted_batches,
        )?;
        let requested_rows = checked_add(self.source_rows.len(), rows.len(), "persistent retained source rows")?;
        check_limit("persistent retained source rows", requested_rows, self.limits.max_retained_source_rows)?;
        check_limit("persistent retained source rows", requested_rows, self.limits.elimination.max_source_rows)?;
        check_limit("persistent replay batch clone rows", rows.len(), self.limits.max_replay_batch_clone_rows)?;

        let old_slot_prefix: usize = if self.source_integral_slot_prefixes.len() == 0 {
            0
        } else {
            self.source_integral_slot_prefixes[self.source_integral_slot_prefixes.len() - 1]
        };
        let old_component_prefix: usize = if self.source_manifest_component_prefixes.len() == 0 {
            0
        } else {
            self.source_manifest_component_prefixes[self.source_manifest_component_prefixes.len() - 1]
        };
        proof {
            if old_rows.len() > 0 {
                assert(old_rows.take(old_rows.len() as int) =~= old_rows);
            }
        }
        proof {
            if old_rows.len() > 0 {
                let last = old_rows.len() - 1;
                assert(self.source_integral_slot_prefixes@[last] == row_sum(old_rows.take(last + 1), slots_of()));
                assert(self.source_manifest_component_prefixes@[last] == row_sum(old_rows.take(last + 1), component_of()));
            }
        }
        assert(old_slot_prefix == row_sum(old_rows, slots_of()));
        assert(old_component_prefix == row_sum(old_rows, component_of()));

        let mut added_integral_slots: usize = 0;
        let mut added_guards: usize = 0;
        let mut added_guard_origins: usize = 0;
        let mut added_manifest_bytes: usize = 0;
        let mut added_integral_slot_prefixes: Vec<usize> = Vec::new();
        let mut added_manifest_lengths: Vec<usize> = Vec::new();
        let mut added_manifest_component_prefixes: Vec<usize> = Vec::new();
        let mut integral_slot_prefix: usize = old_slot_prefix;
        let mut manifest_component_prefix: usize = old_component_prefix;
        let mut staged_new_columns: Vec<Vec<i64>> = Vec::new();
        let mut row: usize = 0;
        proof {
            assert(rows_view.take(0) =~= Seq::<ParametricRelation>::empty());
            assert(old_columns + shifts_view(staged_new_columns@) =~= old_columns);
        }
        while row < rows.len()
            invariant
                *self == *old(self),
                self.wf(),
                rows@ == rows_view,
                self.source_rows@ == old_rows,
                self.spec_columns() == old_columns,
                anchor_len == self.ordering.anchor@.len(),
                admissible == self.submission_admissible(label@, rows_view),
                !self.interrupted,
                self.stats.consumed_rows == old_rows.len(),
                0 < rows_view.len(),
                rows_view.len() <= self.limits.max_rows_per_batch,
                requested_rows == old_rows.len() + rows_view.len(),
                old_slot_prefix == row_sum(old_rows, slots_of()),
                old_component_prefix == row_sum(old_rows, component_of()),
                row <= rows_view.len(),
                added_integral_slots == row_sum(rows_view.take(row as int), slots_of()),
                added_guards == row_sum(rows_view.take(row as int), guards_of()),
                added_guard_origins == row_sum(rows_view.take(row as int), origins_of()),
                added_manifest_bytes == row_sum(rows_view.take(row as int), manifest_of()),
                integral_slot_prefix == old_slot_prefix + row_sum(rows_view.take(row as int), slots_of()),
                manifest_component_prefix == old_component_prefix + row_sum(rows_view.take(row as int), component_of()),
                added_integral_slot_prefixes@.len() == row,
                added_manifest_lengths@.len() == row,
                added_manifest_component_prefixes@.len() == row,
                forall|k: int| 0 <= k < row ==> added_integral_slot_prefixes@[k] == old_slot_prefix + row_sum(
                    #[trigger] rows_view.take(k + 1),
                    slots_of(),
                ),
                forall|k: int| 0 <= k < row ==> added_manifest_lengths@[k] == row_manifest_bytes(#[trigger] rows_view[k]),
                forall|k: int| 0 <= k < row ==> added_manifest_component_prefixes@[k] == old_component_prefix + row_sum(
                    #[trigger] rows_view.take(k + 1),
                    component_of(),
                ),
                old_columns + shifts_view(staged_new_columns@) == add_row_shifts(old_columns, rows_view.take(row as int)),
                forall|c: int| 0 <= c < staged_new_columns@.len() ==> (#[trigger] staged_new_columns@[c])@.len() == anchor_len,
                forall|k: int| 0 <= k < row ==> row_admissible(
                    #[trigger] rows_view[k],
                    self.family_fingerprint@,
                    *self.context,
                    self.limits,
                    anchor_len,
                ),
            decreases rows_view.len() - row,
        {
            let relation = &rows[row];
            proof {
                lemma_row_sum_take(rows_view, row as int, slots_of());
                lemma_row_sum_take(rows_view, row as int, guards_of());
                lemma_row_sum_take(rows_view, row as int, origins_of());
                lemma_row_sum_take(rows_view, row as int, manifest_of());
                lemma_row_sum_take(rows_view, row as int, component_of());
                lemma_row_sum_prefix_le(rows_view, row as int + 1, slots_of());
                lemma_row_sum_prefix_le(rows_view, row as int + 1, guards_of());
                lemma_row_sum_prefix_le(rows_view, row as int + 1, origins_of());
                lemma_row_sum_prefix_le(rows_view, row as int + 1, manifest_of());
                lemma_row_sum_prefix_le(rows_view, row as int + 1, component_of());
                lemma_row_sum_append(old_rows, rows_view, component_of());
            }
            if relation.family_fingerprint != self.family_fingerprint {
                assert(!row_admissible(rows_view[row as int], self.family_fingerprint@, *self.context, self.limits, anchor_len));
                return Err(PersistentParametricEliminationError::WrongFamily { row });
            }
            if relation.context_fingerprint != self.context.fingerprint {
                assert(!row_admissible(rows_view[row as int], self.family_fingerprint@, *self.context, self.limits, anchor_len));
                return Err(PersistentParametricEliminationError::WrongContext { row });
            }
            if relation.arity != self.context.index_count {
                assert(!row_admissible(rows_view[row as int], self.family_fingerprint@, *self.context, self.limits, anchor_len));
                return Err(
                    PersistentParametricEliminationError::WrongArity {
                        expected: self.context.index_count,
                        actual: relation.arity,
                    },
                );
            }
            added_integral_slots = checked_add(
                added_integral_slots,
                relation.terms.len(),
                "persistent retained source integral slots",
            )?;
            added_guards = checked_add(
                added_guards,
                relation.guarded_nonzero_conditions.len(),
                "persistent input relation guards",
            )?;
            let ghost origins_before = added_guard_origins;
            assert(row_sum(rows_view.take(row as int + 1), origins_of()) == origins_before + row_guard_origins(
                rows_view[row as int],
            ));
            added_guard_origins = match self.check_row_guards(row, relation, added_guard_origins) {
                Ok(total) => total,
                Err(error) => {
                    proof {
                        if origins_before + row_guard_origins(rows_view[row as int]) <= usize::MAX {
                            assert(!row_admissible(rows_view[row as int], self.family_fingerprint@, *self.context, self.limits, anchor_len));
                        }
                    }
                    return Err(error);
                },
            };
            let ghost staged_before = staged_new_columns@;
            let staged_result = self.stage_row_columns(
                row,
                relation,
                &mut staged_new_columns,
                Ghost(add_row_shifts(old_columns, rows_view.take(row as int))),
            );
            proof {
                lemma_add_row_shifts_take(old_columns, rows_view, row as int);
                lemma_add_row_shifts_append(old_columns, rows_view.take(row as int + 1), rows_view.skip(row as int + 1));
                assert(rows_view.take(row as int + 1) + rows_view.skip(row as int + 1) =~= rows_view);
                lemma_add_row_shifts_grows(add_row_shifts(old_columns, rows_view.take(row as int + 1)), rows_view.skip(row as int + 1));
            }
            if staged_result.is_err() {
                proof {
                    if !(add_term_shifts(add_row_shifts(old_columns, rows_view.take(row as int)), relation.terms@).len()
                        > self.limits.elimination.max_columns) {
                        assert(!row_admissible(rows_view[row as int], self.family_fingerprint@, *self.context, self.limits, anchor_len));
                    }
                }
                return Err(staged_result.unwrap_err());
            }
            proof {
                assert(row_admissible(rows_view[row as int], self.family_fingerprint@, *self.context, self.limits, anchor_len));
            }
            integral_slot_prefix = checked_add(
                integral_slot_prefix,
                relation.terms.len(),
                "persistent source integral-slot prefix",
            )?;
            added_integral_slot_prefixes.push(integral_slot_prefix);
            let (manifest_bytes, manifest_component_bytes) = self.check_row_manifest(relation, added_manifest_bytes)?;
            added_manifest_bytes = added_manifest_bytes + manifest_bytes;
            added_manifest_lengths.push(manifest_bytes);
            manifest_component_prefix = checked_add(
                manifest_component_prefix,
                manifest_component_bytes,
                "persistent source manifest component prefix",
            )?;
            added_manifest_component_prefixes.push(manifest_component_prefix);
            row = row + 1;
        }
        proof {
            assert(rows_view.take(rows_view.len() as int) =~= rows_view);
        }
        let totals = match self.check_batch_totals(
            requested_rows,
            added_integral_slots,
            added_guards,
            added_guard_origins,
            staged_new_columns.len(),
            added_manifest_bytes,
            manifest_component_prefix,
        ) {
            Ok(totals) => totals,
            Err(error) => {
                proof {
                    lemma_row_sum_append(old_rows, rows_view, component_of());
                    assert(self.spec_columns() + shifts_view(staged_new_columns@) =~= add_row_shifts(old_columns, rows_view));
                }
                return Err(error);
            },
        };
        proof {
            lemma_row_sum_append(old_rows, rows_view, component_of());
        }
        assert(admissible);
        proof {
            if old_rows.len() == 0 {
                self.lemma_fresh_batch(label@, rows_view);
            }
        }
        let ghost before = *self;
        self.commit_batch(
            label,
            rows,
            added_integral_slot_prefixes,
            added_manifest_lengths,
            added_manifest_component_prefixes,
            staged_new_columns,
            requested_label_bytes,
            totals,
            Ghost(old_slot_prefix as nat),
            Ghost(old_component_prefix as nat),
        );
        Ok(())
    }

    /// Checks the batch totals against every retained, replay-clone and
    /// source-manifest limit, and returns the new retained slot, guard,
    /// origin and manifest-byte totals.
    fn check_batch_totals(
        &self,
        requested_rows: usize,
        added_slots: usize,
        added_guards: usize,
        added_origins: usize,
        staged_columns: usize,
        added_manifest: usize,
        component_prefix: usize,
    ) -> (r: Result<(usize, usize, usize, usize), PersistentParametricEliminationError>)
        ensures
            r is Ok <==> ({
                let limits = self.limits;
                let stats = self.stats;
                let slots = stats.retained_source_integral_slots + added_slots;
                let manifest = stats.retained_source_manifest_bytes + added_manifest;
                &&& slots <= limits.max_retained_source_terms
                &&& slots <= limits.elimination.max_input_terms
                &&& stats.retained_input_guards + added_guards <= limits.elimination.max_input_guards
                &&& stats.retained_input_guard_origins + added_origins <= limits.elimination.max_input_guard_origins
                &&& self.source_columns@.len() + staged_columns <= limits.elimination.max_columns
                &&& manifest <= limits.max_retained_source_manifest_bytes
                &&& added_slots <= limits.max_replay_batch_clone_integral_slots
                &&& added_manifest <= limits.max_replay_batch_clone_manifest_bytes
                &&& 2 * requested_rows <= limits.max_replay_source_clone_rows
                &&& 2 * slots <= limits.max_replay_source_clone_integral_slots
                &&& 2 * manifest <= limits.max_replay_source_clone_manifest_bytes
                &&& manifest_header_bytes(requested_rows as nat) + component_prefix
                    <= limits.elimination.max_source_manifest_bytes
            }),
            r matches Ok((slots, guards, origins, manifest)) ==> slots == self.stats.retained_source_integral_slots
                + added_slots && guards == self.stats.retained_input_guards + added_guards && origins
                == self.stats.retained_input_guard_origins + added_origins && manifest
                == self.stats.retained_source_manifest_bytes + added_manifest,
    {
        let requested_integral_slots = checked_add(
            self.stats.retained_source_integral_slots,
            added_slots,
            "persistent retained source integral slots",
        )?;
        check_limit(
            "persistent retained source integral slots",
            requested_integral_slots,
            self.limits.max_retained_source_terms,
        )?;
        check_limit(
            "persistent input relation integral slots",
            requested_integral_slots,
            self.limits.elimination.max_input_terms,
        )?;
        let requested_guards = checked_add(
            self.stats.retained_input_guards,
            added_guards,
            "persistent input relation guards",
        )?;
        check_limit("persistent input relation guards", requested_guards, self.limits.elimination.max_input_guards)?;
        let requested_guard_origins = checked_add(
            self.stats.retained_input_guard_origins,
            added_origins,
            "persistent input relation guard origins",
        )?;
        check_limit(
            "persistent input relation guard origins",
            requested_guard_origins,
            self.limits.elimination.max_input_guard_origins,
        )?;
        check_limit(
            "persistent input relation columns",
            checked_add(self.source_columns.len(), staged_columns, "persistent input relation columns")?,
            self.limits.elimination.max_columns,
        )?;
        let requested_manifest_bytes = checked_add(
            self.stats.retained_source_manifest_bytes,
            added_manifest,
            "persistent retained source manifest bytes",
        )?;
        check_limit(
            "persistent retained source manifest bytes",
            requested_manifest_bytes,
            self.limits.max_retained_source_manifest_bytes,
        )?;
        check_limit(
            "persistent replay batch clone integral slots",
            added_slots,
            self.limits.max_replay_batch_clone_integral_slots,
        )?;
        check_limit(
            "persistent replay batch clone manifest bytes",
            added_manifest,
            self.limits.max_replay_batch_clone_manifest_bytes,
        )?;
        check_limit(
            "persistent replay coexisting source clone rows",
            checked_mul(requested_rows, 2, "persistent replay coexisting source clone rows")?,
            self.limits.max_replay_source_clone_rows,
        )?;
        check_limit(
            "persistent replay coexisting source clone integral slots",
            checked_mul(requested_integral_slots, 2, "persistent replay coexisting source clone integral slots")?,
            self.limits.max_replay_source_clone_integral_slots,
        )?;
        check_limit(
            "persistent replay coexisting source clone manifest bytes",
            checked_mul(requested_manifest_bytes, 2, "persistent replay coexisting source clone manifest bytes")?,
            self.limits.max_replay_source_clone_manifest_bytes,
        )?;
        let requested_source_manifest_bytes = prefix_source_manifest_bytes(requested_rows, component_prefix)?;
        check_limit(
            "persistent retained elimination source manifest bytes",
            requested_source_manifest_bytes,
            self.limits.elimination.max_source_manifest_bytes,
        )?;
        Ok((requested_integral_slots, requested_guards, requested_guard_origins, requested_manifest_bytes))
    }

    /// Appends a checked batch and its staged metadata.
    #[verifier::rlimit(80)]
    #[verifier::spinoff_prover]
    fn commit_batch(
        &mut self,
        label: &str,
        rows: Vec<ParametricRelation>,
        added_slot_prefixes: Vec<usize>,
        added_lengths: Vec<usize>,
        added_component_prefixes: Vec<usize>,
        staged: Vec<Vec<i64>>,
        requested_label_bytes: usize,
        totals: (usize, usize, usize, usize),
        Ghost(old_slot_prefix): Ghost<nat>,
        Ghost(old_component_prefix): Ghost<nat>,
    )
        requires
            old(self).wf(),
            old(self).stats.consumed_rows == old(self).source_rows@.len(),
            requested_label_bytes <= old(self).limits.max_retained_batch_label_bytes,
            old(self).source_columns@.len() + staged@.len() <= old(self).limits.elimination.max_columns,
            old(self).source_rows@.len() == 0 ==> fresh_batch_admitted(
                rows@,
                label@,
                old(self).family_fingerprint@,
                *old(self).context,
                old(self).limits,
                old(self).ordering.anchor@.len(),
            ),
            old_slot_prefix == row_sum(old(self).source_rows@, slots_of()),
            old_component_prefix == row_sum(old(self).source_rows@, component_of()),
            rows@.len() > 0,
            old(self).source_rows@.len() + rows@.len() <= usize::MAX,
            old(self).batches@.len() + 1 <= usize::MAX,
            added_slot_prefixes@.len() == rows@.len(),
            added_lengths@.len() == rows@.len(),
            added_component_prefixes@.len() == rows@.len(),
            forall|k: int| 0 <= k < rows@.len() ==> added_slot_prefixes@[k] == old_slot_prefix + row_sum(
                #[trigger] rows@.take(k + 1),
                slots_of(),
            ),
            forall|k: int| 0 <= k < rows@.len() ==> added_lengths@[k] == row_manifest_bytes(#[trigger] rows@[k]),
            forall|k: int| 0 <= k < rows@.len() ==> added_component_prefixes@[k] == old_component_prefix + row_sum(
                #[trigger] rows@.take(k + 1),
                component_of(),
            ),
            old(self).spec_columns() + shifts_view(staged@) == add_row_shifts(old(self).spec_columns(), rows@),
            forall|c: int| 0 <= c < staged@.len() ==> (#[trigger] staged@[c])@.len() == old(self).ordering.anchor@.len(),
            old(self).source_columns@.len() + staged@.len() <= usize::MAX,
            requested_label_bytes == old(self).stats.retained_batch_label_bytes + byte_len(label@),
            totals.0 == old(self).stats.retained_source_integral_slots + row_sum(rows@, slots_of()),
            totals.1 == old(self).stats.retained_input_guards + row_sum(rows@, guards_of()),
            totals.2 == old(self).stats.retained_input_guard_origins + row_sum(rows@, origins_of()),
            totals.3 == old(self).stats.retained_source_manifest_bytes + row_sum(rows@, manifest_of()),
        ensures
            final(self).wf(),
            ({
                let before = *old(self);
                let after = *final(self);
                &&& after.spec_rows() == before.spec_rows() + rows@
                &&& after.spec_columns() == add_row_shifts(before.spec_columns(), rows@)
                &&& after.spec_batches().len() == before.spec_batches().len() + 1
                &&& after.spec_batches().take(before.spec_batches().len() as int) == before.spec_batches()
                &&& after.spec_batches().last().ordinal == before.spec_batches().len()
                &&& after.spec_batches().last().label@ == label@
                &&& after.spec_batches().last().first_source_ordinal == before.spec_rows().len()
                &&& after.spec_batches().last().source_row_count == rows@.len()
                &&& after.spec_stats() == (PersistentParametricEliminationStats {
                    submitted_batches: (before.spec_stats().submitted_batches + 1) as usize,
                    submitted_rows: (before.spec_stats().submitted_rows + rows@.len()) as usize,
                    retained_source_integral_slots: totals.0,
                    retained_source_manifest_bytes: totals.3,
                    retained_batch_label_bytes: requested_label_bytes,
                    retained_input_guards: totals.1,
                    retained_input_guard_origins: totals.2,
                    retained_input_columns: after.spec_columns().len() as usize,
                    ..before.spec_stats()
                })
                &&& after.spec_events() == before.spec_events()
                &&& after.spec_elimination() == before.spec_elimination()
                &&& after.spec_interrupted() == before.spec_interrupted()
                &&& after.spec_context() == before.spec_context()
                &&& after.spec_family() == before.spec_family()
                &&& after.spec_ordering() == before.spec_ordering()
                &&& after.spec_limits() == before.spec_limits()
            }),
    {
        let ghost before = *self;
        let ghost old_rows = self.source_rows@;
        let ghost rows_view = rows@;
        let ghost added_slots_v = added_slot_prefixes@;
        let ghost added_lengths_v = added_lengths@;
        let ghost added_components_v = added_component_prefixes@;
        let ghost staged_v = staged@;
        let first_source_ordinal = self.source_rows.len();
        let ordinal = self.batches.len();
        let source_row_count = rows.len();
        let mut rows = rows;
        let mut added_slot_prefixes = added_slot_prefixes;
        let mut added_lengths = added_lengths;
        let mut added_component_prefixes = added_component_prefixes;
        let mut staged = staged;
        self.source_rows.append(&mut rows);
        self.source_integral_slot_prefixes.append(&mut added_slot_prefixes);
        self.source_manifest_lengths.append(&mut added_lengths);
        self.source_manifest_component_prefixes.append(&mut added_component_prefixes);
        self.source_columns.append(&mut staged);
        let batch = PersistentParametricEliminationBatch {
            ordinal,
            label: label.to_owned(),
            first_source_ordinal,
            source_row_count,
        };
        self.batches.push(batch);
        self.stats.submitted_batches = self.batches.len();
        self.stats.submitted_rows = self.source_rows.len();
        self.stats.retained_source_integral_slots = totals.0;
        self.stats.retained_source_manifest_bytes = totals.3;
        self.stats.retained_batch_label_bytes = requested_label_bytes;
        self.stats.retained_input_guards = totals.1;
        self.stats.retained_input_guard_origins = totals.2;
        self.stats.retained_input_columns = self.source_columns.len();
        proof {
            let all = self.source_rows@;
            let n0 = old_rows.len() as int;
            assert(all =~= old_rows + rows_view);
            assert forall|i: int| 0 <= i < all.len() implies self.source_integral_slot_prefixes@[i] == row_sum(
                #[trigger] all.take(i + 1),
                slots_of(),
            ) && self.source_manifest_component_prefixes@[i] == row_sum(all.take(i + 1), component_of())
                && self.source_manifest_lengths@[i] == row_manifest_bytes(all[i]) by {
                if i < n0 {
                    assert(all.take(i + 1) =~= old_rows.take(i + 1));
                    assert(all[i] == old_rows[i]);
                } else {
                    let k = i - n0;
                    assert(all.take(i + 1) =~= old_rows + rows_view.take(k + 1));
                    lemma_row_sum_append(old_rows, rows_view.take(k + 1), slots_of());
                    lemma_row_sum_append(old_rows, rows_view.take(k + 1), component_of());
                    assert(self.source_integral_slot_prefixes@[i] == added_slots_v[k]);
                    assert(self.source_manifest_component_prefixes@[i] == added_components_v[k]);
                    assert(self.source_manifest_lengths@[i] == added_lengths_v[k]);
                    assert(all[i] == rows_view[k]);
                }
            }
            assert(self.spec_columns() =~= before.spec_columns() + shifts_view(staged_v));
            lemma_add_row_shifts_append(Seq::empty(), old_rows, rows_view);
            assert forall|c: int| 0 <= c < self.source_columns@.len() implies (#[trigger] self.source_columns@[c])@.len()
                == self.ordering.anchor@.len() by {
                if c >= before.source_columns@.len() {
                    assert(self.source_columns@[c] == staged_v[c - before.source_columns@.len()]);
                } else {
                    assert(self.source_columns@[c] == before.source_columns@[c]);
                }
            }
            lemma_row_sum_append(old_rows, rows_view, slots_of());
            lemma_row_sum_append(old_rows, rows_view, manifest_of());
            lemma_row_sum_append(old_rows, rows_view, guards_of());
            lemma_row_sum_append(old_rows, rows_view, origins_of());
            lemma_label_sum_push(before.batches@, batch);
            assert(self.batches@ == before.batches@.push(batch));
            assert forall|i: int| 0 <= i < self.events@.len() implies event_located(
                #[trigger] self.events@[i],
                i,
                self.batches@,
            ) by {
                assert(event_located(before.events@[i], i, before.batches@));
                let b = self.events@[i].batch_ordinal as int;
                assert(self.batches@[b] == before.batches@[b]);
            }
            assert(batches_contiguous(self.batches@, all.len())) by {
                assert forall|i: int| 0 < i < self.batches@.len() implies (#[trigger] self.batches@[i]).first_source_ordinal
                    == self.batches@[i - 1].first_source_ordinal + self.batches@[i - 1].source_row_count by {
                    if i < before.batches@.len() {
                        assert(self.batches@[i] == before.batches@[i]);
                        assert(self.batches@[i - 1] == before.batches@[i - 1]);
                    } else {
                        assert(self.batches@[i - 1] == before.batches@.last());
                    }
                }
            }
            assert(self.batches@.take(before.batches@.len() as int) =~= before.batches@);
        }
    }
}


impl<'context> PersistentParametricEliminationDatabase<'context> {
    /// Checks the guards of row `row` and adds their origins to `origins`.
    fn check_row_guards(&self, row: usize, relation: &ParametricRelation, origins: usize) -> (r: Result<
        usize,
        PersistentParametricEliminationError,
    >)
        ensures
            r matches Ok(v) ==> v == origins + row_guard_origins(*relation),
            r is Ok ==> forall|c: int|
                0 <= c < relation.guarded_nonzero_conditions@.len() ==> guard_admissible(
                    #[trigger] relation.guarded_nonzero_conditions@[c],
                    self.limits,
                ),
            r is Err ==> origins + row_guard_origins(*relation) > usize::MAX || exists|c: int|
                0 <= c < relation.guarded_nonzero_conditions@.len() && !guard_admissible(
                    #[trigger] relation.guarded_nonzero_conditions@[c],
                    self.limits,
                ),
    {
        let guards = &relation.guarded_nonzero_conditions;
        let mut condition_index: usize = 0;
        let mut total = origins;
        assert(guards@.take(0) =~= Seq::<ParametricNonzeroGuard>::empty());
        while condition_index < guards.len()
            invariant
                guards == &relation.guarded_nonzero_conditions,
                condition_index <= guards@.len(),
                total == origins + guard_origin_sum(guards@.take(condition_index as int)),
                forall|c: int| 0 <= c < condition_index ==> guard_admissible(#[trigger] guards@[c], self.limits),
            decreases guards@.len() - condition_index,
        {
            let condition = &guards[condition_index];
            proof {
                lemma_guard_origin_sum_take(guards@, condition_index as int);
                lemma_guard_origin_sum_prefix_le(guards@, condition_index as int + 1);
            }
            if !condition.declared_in_context || condition.polynomial_is_zero || condition.origins.len() == 0 {
                assert(!guard_admissible(guards@[condition_index as int], self.limits));
                return Err(
                    PersistentParametricEliminationError::Elimination(
                        ParametricEliminationError::InvalidSourceGuard { row, condition: condition_index },
                    ),
                );
            }
            if !condition.polynomial_within_limits {
                assert(!guard_admissible(guards@[condition_index as int], self.limits));
                return Err(
                    PersistentParametricEliminationError::Elimination(
                        ParametricEliminationError::GuardPolynomialOutOfLimits { row, condition: condition_index },
                    ),
                );
            }
            if condition.origins.len() > self.limits.elimination.max_guard_origins {
                assert(!guard_admissible(guards@[condition_index as int], self.limits));
            }
            check_limit(
                "persistent origins in one input relation guard",
                condition.origins.len(),
                self.limits.elimination.max_guard_origins,
            )?;
            total = checked_add(total, condition.origins.len(), "persistent input relation guard origins")?;
            condition_index = condition_index + 1;
        }
        assert(guards@.take(guards@.len() as int) =~= guards@);
        Ok(total)
    }

    /// Checks the terms of row `row` and stages the shifts it introduces as
    /// new columns.  `seen` is the column sequence before this row.
    fn stage_row_columns(
        &self,
        row: usize,
        relation: &ParametricRelation,
        staged: &mut Vec<Vec<i64>>,
        Ghost(seen): Ghost<Seq<Seq<i64>>>,
    ) -> (r: Result<(), PersistentParametricEliminationError>)
        requires
            self.wf(),
            self.spec_columns() + shifts_view(old(staged)@) == seen,
            forall|c: int| 0 <= c < old(staged)@.len() ==> (#[trigger] old(staged)@[c])@.len() == self.ordering.anchor@.len(),
        ensures
            r is Ok ==> self.spec_columns() + shifts_view(final(staged)@) == add_term_shifts(seen, relation.terms@),
            r is Ok ==> forall|c: int|
                0 <= c < final(staged)@.len() ==> (#[trigger] final(staged)@[c])@.len() == self.ordering.anchor@.len(),
            r is Ok ==> forall|t: int|
                0 <= t < relation.terms@.len() ==> (#[trigger] relation.terms@[t]).coefficient_within_limits
                    && relation.terms@[t].shift@.len() == self.ordering.anchor@.len(),
            r is Err ==> add_term_shifts(seen, relation.terms@).len() > self.limits.elimination.max_columns || exists|t: int|
                0 <= t < relation.terms@.len() && !((#[trigger] relation.terms@[t]).coefficient_within_limits
                    && relation.terms@[t].shift@.len() == self.ordering.anchor@.len()),
    {
        let ghost columns = self.spec_columns();
        let ghost anchor_len = self.ordering.anchor@.len();
        let terms = &relation.terms;
        let mut term_index: usize = 0;
        assert(terms@.take(0) =~= Seq::<ParametricRelationTerm>::empty());
        while term_index < terms.len()
            invariant
                self.wf(),
                columns == self.spec_columns(),
                anchor_len == self.ordering.anchor@.len(),
                terms == &relation.terms,
                term_index <= terms@.len(),
                columns + shifts_view(staged@) == add_term_shifts(seen, terms@.take(term_index as int)),
                forall|c: int| 0 <= c < staged@.len() ==> (#[trigger] staged@[c])@.len() == anchor_len,
                forall|t: int| 0 <= t < term_index ==> (#[trigger] terms@[t]).coefficient_within_limits
                    && terms@[t].shift@.len() == anchor_len,
            decreases terms@.len() - term_index,
        {
            let term = &terms[term_index];
            proof {
                lemma_add_term_shifts_take(seen, terms@, term_index as int);
                lemma_add_term_shifts_append(seen, terms@.take(term_index as int + 1), terms@.skip(term_index as int + 1));
                assert(terms@.take(term_index as int + 1) + terms@.skip(term_index as int + 1) =~= terms@);
                lemma_add_term_shifts_grows(
                    add_term_shifts(seen, terms@.take(term_index as int + 1)),
                    terms@.skip(term_index as int + 1),
                );
                lemma_contains_concat(columns, shifts_view(staged@), term.shift@);
            }
            if !term.coefficient_within_limits {
                return Err(
                    PersistentParametricEliminationError::Elimination(
                        ParametricEliminationError::CoefficientOutOfLimits { row },
                    ),
                );
            }
            let known = column_known(&self.source_columns, &term.shift) || column_known(staged, &term.shift);
            if !known {
                let requested_columns = checked_add(
                    checked_add(self.source_columns.len(), staged.len(), "persistent input relation columns")?,
                    1,
                    "persistent input relation columns",
                )?;
                check_limit("persistent input relation columns", requested_columns, self.limits.elimination.max_columns)?;
                if term.shift.len() != self.ordering.anchor.len() {
                    return Err(
                        PersistentParametricEliminationError::Elimination(
                            ParametricEliminationError::ColumnArityMismatch { row },
                        ),
                    );
                }
                let ghost staged_before = staged@;
                staged.push(copy_shift(&term.shift));
                proof {
                    assert(shifts_view(staged@) =~= shifts_view(staged_before).push(term.shift@));
                    assert(columns + shifts_view(staged@) =~= (columns + shifts_view(staged_before)).push(term.shift@));
                }
            } else {
                proof {
                    if shifts_view(self.source_columns@).contains(term.shift@) {
                        let k = choose|k: int|
                            0 <= k < shifts_view(self.source_columns@).len() && shifts_view(self.source_columns@)[k]
                                == term.shift@;
                        assert(self.source_columns@[k]@.len() == anchor_len);
                    } else {
                        let k = choose|k: int|
                            0 <= k < shifts_view(staged@).len() && shifts_view(staged@)[k] == term.shift@;
                        assert(staged@[k]@.len() == anchor_len);
                    }
                }
            }
            term_index = term_index + 1;
        }
        assert(terms@.take(terms@.len() as int) =~= terms@);
        Ok(())
    }

    /// Checks that row `relation`'s manifest fits beside `added` bytes of
    /// this batch, and returns its bytes and its source-manifest component.
    fn check_row_manifest(&self, relation: &ParametricRelation, added: usize) -> (r: Result<
        (usize, usize),
        PersistentParametricEliminationError,
    >)
        ensures
            r matches Ok((bytes, component)) ==> bytes == row_manifest_bytes(*relation) && component
                == row_component_bytes(*relation) && self.stats.retained_source_manifest_bytes + added + bytes
                <= self.limits.max_retained_source_manifest_bytes,
            r is Err ==> self.stats.retained_source_manifest_bytes + added + row_manifest_bytes(*relation)
                > self.limits.max_retained_source_manifest_bytes || row_component_bytes(*relation) > usize::MAX,
    {
        let retained_before_row = checked_add(
            self.stats.retained_source_manifest_bytes,
            added,
            "persistent retained source manifest bytes",
        )?;
        let remaining_manifest_bytes = match self.limits.max_retained_source_manifest_bytes.checked_sub(
            retained_before_row,
        ) {
            Some(remaining) => remaining,
            None => {
                return Err(
                    PersistentParametricEliminationError::ResourceLimit {
                        resource: "persistent retained source manifest bytes",
                        requested: retained_before_row,
                        limit: self.limits.max_retained_source_manifest_bytes,
                    },
                );
            },
        };
        let manifest_bytes = match relation.stable_manifest_with_limit(remaining_manifest_bytes) {
            Ok(manifest) => manifest.len(),
            Err(ParametricRelationError::ResourceLimit { requested, .. }) => {
                return Err(
                    PersistentParametricEliminationError::ResourceLimit {
                        resource: "persistent retained source manifest bytes",
                        requested: checked_add(
                            retained_before_row,
                            requested,
                            "persistent retained source manifest bytes",
                        )?,
                        limit: self.limits.max_retained_source_manifest_bytes,
                    },
                );
            },
            Err(ParametricRelationError::ResourceCountOverflow { .. }) => {
                return Err(
                    PersistentParametricEliminationError::ResourceCountOverflow {
                        resource: "persistent retained source manifest bytes",
                    },
                );
            },
        };
        let digits = decimal_len(manifest_bytes);
        let component = checked_add(digits + 2, manifest_bytes, "source manifest bytes")?;
        Ok((manifest_bytes, component))
    }
}

impl<'context> PersistentParametricEliminationDatabase<'context> {
    /// What every well-formed database keeps, in terms of its public
    /// views: the retained statistics are those of its rows and batches,
    /// the batches tile the rows (so no batch range overflows), the
    /// transcript covers exactly the consumed prefix, and one rebuild is
    /// made per consumed row.
    pub proof fn lemma_wf_facts(&self)
        requires
            self.wf(),
        ensures
            self.spec_ordering().anchor@.len() == self.spec_context().index_count,
            self.spec_stats().submitted_batches == self.spec_batches().len(),
            self.spec_stats().submitted_rows == self.spec_rows().len(),
            self.spec_stats().retained_source_integral_slots == row_sum(self.spec_rows(), slots_of()),
            self.spec_stats().retained_source_manifest_bytes == row_sum(self.spec_rows(), manifest_of()),
            self.spec_stats().retained_batch_label_bytes == label_sum(self.spec_batches()),
            self.spec_stats().retained_input_guards == row_sum(self.spec_rows(), guards_of()),
            self.spec_stats().retained_input_guard_origins == row_sum(self.spec_rows(), origins_of()),
            self.spec_stats().retained_input_columns == self.spec_columns().len(),
            self.spec_columns() == add_row_shifts(Seq::empty(), self.spec_rows()),
            batches_contiguous(self.spec_batches(), self.spec_rows().len()),
            self.spec_rows().len() <= usize::MAX,
            forall|i: int|
                0 <= i < self.spec_batches().len() ==> (#[trigger] self.spec_batches()[i]).first_source_ordinal
                    + self.spec_batches()[i].source_row_count <= self.spec_rows().len(),
            self.spec_stats().consumed_rows <= self.spec_rows().len(),
            self.spec_events().len() == self.spec_stats().consumed_rows,
            forall|i: int|
                0 <= i < self.spec_events().len() ==> event_located(#[trigger] self.spec_events()[i], i, self.spec_batches()),
            self.spec_stats().consumed_rows == 0 <==> self.spec_elimination() is None,
            pivots_of(self.spec_elimination()).len() == self.spec_stats().pivot_rows,
            self.spec_stats().dependent_rows + self.spec_stats().pivot_rows == self.spec_stats().consumed_rows,
            self.spec_stats().rebuilds == self.spec_stats().consumed_rows,
            self.spec_stats().pivot_rows == pivot_events(self.spec_events()),
            self.spec_stats().dependent_rows + pivot_events(self.spec_events()) == self.spec_events().len(),
            forall|i: int| 0 <= i < self.spec_events().len() ==> pivot_numbered(self.spec_events(), i),
            self.spec_stats().cumulative_prefix_rebuild_rows == rebuild_rows_total(self.spec_stats().consumed_rows as nat),
            2 * self.spec_stats().cumulative_prefix_rebuild_rows == self.spec_stats().consumed_rows * (
            self.spec_stats().consumed_rows + 1),
            self.spec_stats().retained_input_columns <= self.spec_limits().elimination.max_columns,
            self.spec_stats().retained_batch_label_bytes <= self.spec_limits().max_retained_batch_label_bytes,
    {
        lemma_rebuild_rows_total(self.stats.consumed_rows as nat);
        assert(self.source_rows@.len() == self.source_rows.len());
        assert forall|i: int| 0 <= i < self.spec_batches().len() implies (#[trigger] self.spec_batches()[i]).first_source_ordinal
            + self.spec_batches()[i].source_row_count <= self.spec_rows().len() by {
            lemma_batch_end_below_last(self.batches@, self.source_rows@.len(), i);
        }
    }

    /// `after` is this database with only its interruption flag raised:
    /// the same source, transcript, statistics and elimination.
    pub open spec fn interrupted_as(&self, after: &Self) -> bool {
        &&& after.spec_interrupted()
        &&& self.same_source(after)
        &&& after.spec_events() == self.spec_events()
        &&& after.spec_stats() == self.spec_stats()
        &&& after.spec_elimination() == self.spec_elimination()
    }

    /// `self` and `other` hold the same case group, limits, rows, columns
    /// and batches.
    pub open spec fn same_source(&self, other: &Self) -> bool {
        &&& self.spec_context() == other.spec_context()
        &&& self.spec_family() == other.spec_family()
        &&& self.spec_ordering() == other.spec_ordering()
        &&& self.spec_limits() == other.spec_limits()
        &&& self.spec_rows() == other.spec_rows()
        &&& self.spec_columns() == other.spec_columns()
        &&& self.spec_batches() == other.spec_batches()
    }

    /// The first of the database's own checks, made before the elimination
    /// kernel runs, that refuses to rebuild the source prefix through the
    /// next pending row while `outer` manifest bytes of another elimination
    /// coexist with it; `None` when every one of them admits the rebuild.
    pub open spec fn rebuild_refusal(&self, outer: nat) -> Option<PersistentParametricEliminationError> {
        let rows = self.spec_rows();
        let s = self.spec_stats();
        let l = self.spec_limits();
        let n: nat = (s.consumed_rows + 1) as nat;
        let prefix = rows.take(n as int);
        let manifest: nat = manifest_header_bytes(n) + row_sum(prefix, component_of());
        let coexisting: nat = outer + elimination_manifest_bytes(self.spec_elimination()) + 2 * manifest
            + largest_row_manifest(rows, n as int);
        let cum_rows: nat = (s.cumulative_prefix_rebuild_rows + n) as nat;
        let cum_slots: nat = (s.cumulative_prefix_rebuild_integral_slots + row_sum(prefix, slots_of())) as nat;
        let cum_bytes: nat = (s.cumulative_prefix_rebuild_manifest_bytes + 2 * manifest) as nat;
        if manifest > usize::MAX {
            Some(count_overflow("persistent source manifest bytes"))
        } else if manifest > l.elimination.max_source_manifest_bytes {
            Some(over_limit(
                "persistent source manifest bytes in one prefix rebuild",
                manifest,
                l.elimination.max_source_manifest_bytes,
            ))
        } else if coexisting > usize::MAX {
            Some(count_overflow("persistent coexisting elimination source manifest bytes"))
        } else if coexisting > l.max_coexisting_elimination_source_manifest_bytes {
            Some(over_limit(
                "persistent coexisting elimination source manifest bytes",
                coexisting,
                l.max_coexisting_elimination_source_manifest_bytes,
            ))
        } else if cum_rows > usize::MAX {
            Some(count_overflow("persistent cumulative prefix rebuild rows"))
        } else if cum_slots > usize::MAX {
            Some(count_overflow("persistent cumulative prefix rebuild integral slots"))
        } else if cum_bytes > usize::MAX {
            Some(count_overflow("persistent cumulative prefix rebuild manifest bytes"))
        } else if cum_rows > l.max_cumulative_prefix_rebuild_rows {
            Some(over_limit("persistent cumulative prefix rebuild rows", cum_rows, l.max_cumulative_prefix_rebuild_rows))
        } else if cum_slots > l.max_cumulative_prefix_rebuild_terms {
            Some(over_limit(
                "persistent cumulative prefix rebuild integral slots",
                cum_slots,
                l.max_cumulative_prefix_rebuild_terms,
            ))
        } else if cum_bytes > l.max_cumulative_prefix_rebuild_manifest_bytes {
            Some(over_limit(
                "persistent cumulative prefix rebuild manifest bytes",
                cum_bytes,
                l.max_cumulative_prefix_rebuild_manifest_bytes,
            ))
        } else if s.cumulative_construction_reductions > l.max_cumulative_construction_reductions {
            Some(over_limit(
                "persistent cumulative construction reductions",
                s.cumulative_construction_reductions as nat,
                l.max_cumulative_construction_reductions,
            ))
        } else if s.cumulative_construction_updates > l.max_cumulative_construction_updates {
            Some(over_limit(
                "persistent cumulative construction updates",
                s.cumulative_construction_updates as nat,
                l.max_cumulative_construction_updates,
            ))
        } else if s.cumulative_replay_reductions > l.max_cumulative_replay_reductions {
            Some(over_limit(
                "persistent cumulative replay reductions",
                s.cumulative_replay_reductions as nat,
                l.max_cumulative_replay_reductions,
            ))
        } else if s.cumulative_replay_updates > l.max_cumulative_replay_updates {
            Some(over_limit(
                "persistent cumulative replay updates",
                s.cumulative_replay_updates as nat,
                l.max_cumulative_replay_updates,
            ))
        } else {
            None
        }
    }

    /// One successful consumption: `e` is the transcript entry of the next
    /// pending row, committed pivots are an exact prefix of the rebuilt
    /// ones, and exactly one pivot is added for a pivot row and none for a
    /// dependent row.
    pub open spec fn consumed_one(&self, after: &Self, e: PersistentParametricEliminationEvent) -> bool {
        let before_pivots = pivots_of(self.spec_elimination());
        let after_pivots = pivots_of(after.spec_elimination());
        &&& self.same_source(after)
        &&& !after.spec_interrupted()
        &&& e.event_ordinal == self.spec_events().len()
        &&& e.source_ordinal == self.spec_stats().consumed_rows
        &&& after.spec_events() == self.spec_events().push(e)
        &&& after.spec_stats().consumed_rows == self.spec_stats().consumed_rows + 1
        &&& after.spec_elimination() is Some
        &&& pivot_prefix(before_pivots, after_pivots)
        &&& (e.outcome is Dependent ==> after_pivots.len() == before_pivots.len())
        &&& (e.outcome matches PersistentParametricEliminationRowOutcome::Pivot { pivot_ordinal } ==> pivot_ordinal
            == before_pivots.len() && after_pivots.len() == before_pivots.len() + 1)
        &&& after.spec_stats().cumulative_prefix_rebuild_rows == self.spec_stats().cumulative_prefix_rebuild_rows
            + self.spec_stats().consumed_rows + 1
        &&& event_located(e, e.event_ordinal as int, self.spec_batches())
        &&& after.spec_stats().rebuilds == self.spec_stats().rebuilds + 1
        &&& after.spec_stats().consumed_rows <= after.spec_rows().len()
        &&& (e.outcome is Dependent ==> after.spec_stats().dependent_rows == self.spec_stats().dependent_rows + 1
            && after.spec_stats().pivot_rows == self.spec_stats().pivot_rows)
        &&& (e.outcome is Pivot ==> after.spec_stats().pivot_rows == self.spec_stats().pivot_rows + 1
            && after.spec_stats().dependent_rows == self.spec_stats().dependent_rows)
        &&& after.spec_stats().submitted_rows == self.spec_stats().submitted_rows
        &&& after.spec_stats().submitted_batches == self.spec_stats().submitted_batches
    }

    /// Consume and commit the next pending row.  The returned event order is
    /// the candidate-priority order; dependent rows stay explicit.  Any
    /// failure interrupts the database.
    pub fn consume_next<B: ParametricEliminationBuilder>(&mut self, builder: &B) -> (r: Result<
        Option<PersistentParametricEliminationEvent>,
        PersistentParametricEliminationError,
    >)
        requires
            old(self).wf(),
        ensures
            final(self).wf(),
            old(self).spec_interrupted() ==> r == Err::<
                Option<PersistentParametricEliminationEvent>,
                PersistentParametricEliminationError,
            >(PersistentParametricEliminationError::DatabaseInterrupted) && *final(self) == *old(self),
            !old(self).spec_interrupted() && old(self).spec_stats().consumed_rows == old(self).spec_rows().len()
                ==> r == Ok::<Option<PersistentParametricEliminationEvent>, PersistentParametricEliminationError>(
                None,
            ) && *final(self) == *old(self),
            !old(self).spec_interrupted() && r is Err ==> old(self).interrupted_as(&*final(self)),
            r matches Ok(Some(e)) ==> old(self).consumed_one(&*final(self), e),
            r matches Ok(None) ==> old(self).spec_stats().consumed_rows == old(self).spec_rows().len() && *final(self)
                == *old(self),
            !old(self).spec_interrupted() && old(self).spec_stats().consumed_rows < old(self).spec_rows().len()
                && old(self).rebuild_refusal(0) is Some ==> r == Err::<
                Option<PersistentParametricEliminationEvent>,
                PersistentParametricEliminationError,
            >(old(self).rebuild_refusal(0)->Some_0),
            r matches Ok(Some(_)) ==> old(self).rebuild_refusal(0) is None,
            r matches Ok(Some(_)) ==> pivots_of(old(self).spec_elimination()).len() <= pivots_of(
                final(self).spec_elimination(),
            ).len() && forall|i: int|
                0 <= i < pivots_of(old(self).spec_elimination()).len() ==> (#[trigger] pivots_of(
                    final(self).spec_elimination(),
                )[i]).ordinal == pivots_of(old(self).spec_elimination())[i].ordinal && pivots_of(
                    final(self).spec_elimination(),
                )[i].pivot@ == pivots_of(old(self).spec_elimination())[i].pivot@ && pivots_of(
                    final(self).spec_elimination(),
                )[i].trace@ == pivots_of(old(self).spec_elimination())[i].trace@,
    {
        let r = self.consume_next_with_outer(builder, 0);
        proof {
            if r matches Ok(Some(_)) {
                lemma_pivot_prefix_fields(pivots_of(old(self).spec_elimination()), pivots_of(self.spec_elimination()));
            }
        }
        r
    }

    fn consume_next_with_outer<B: ParametricEliminationBuilder>(
        &mut self,
        builder: &B,
        outer_elimination_manifest_bytes: usize,
    ) -> (r: Result<Option<PersistentParametricEliminationEvent>, PersistentParametricEliminationError>)
        requires
            old(self).wf(),
        ensures
            final(self).wf(),
            old(self).spec_interrupted() ==> r == Err::<
                Option<PersistentParametricEliminationEvent>,
                PersistentParametricEliminationError,
            >(PersistentParametricEliminationError::DatabaseInterrupted) && *final(self) == *old(self),
            !old(self).spec_interrupted() && old(self).spec_stats().consumed_rows == old(self).spec_rows().len()
                ==> r == Ok::<Option<PersistentParametricEliminationEvent>, PersistentParametricEliminationError>(
                None,
            ) && *final(self) == *old(self),
            !old(self).spec_interrupted() && r is Err ==> old(self).interrupted_as(&*final(self)),
            r matches Ok(Some(e)) ==> old(self).consumed_one(&*final(self), e),
            r matches Ok(None) ==> old(self).spec_stats().consumed_rows == old(self).spec_rows().len() && *final(self)
                == *old(self),
            !old(self).spec_interrupted() && old(self).spec_stats().consumed_rows < old(self).spec_rows().len()
                && old(self).rebuild_refusal(outer_elimination_manifest_bytes as nat) is Some ==> r == Err::<
                Option<PersistentParametricEliminationEvent>,
                PersistentParametricEliminationError,
            >(old(self).rebuild_refusal(outer_elimination_manifest_bytes as nat)->Some_0),
            r matches Ok(Some(_)) ==> old(self).rebuild_refusal(outer_elimination_manifest_bytes as nat) is None,
    {
        self.ensure_active()?;
        let result = self.consume_next_active(builder, outer_elimination_manifest_bytes);
        if result.is_err() {
            self.interrupted = true;
            proof {
                assert(old(self).interrupted_as(&*self));
            }
        }
        result
    }

    #[verifier::rlimit(60)]
    #[verifier::spinoff_prover]
    fn consume_next_active<B: ParametricEliminationBuilder>(
        &mut self,
        builder: &B,
        outer_elimination_manifest_bytes: usize,
    ) -> (r: Result<Option<PersistentParametricEliminationEvent>, PersistentParametricEliminationError>)
        requires
            old(self).wf(),
            !old(self).interrupted,
        ensures
            final(self).wf(),
            old(self).spec_stats().consumed_rows == old(self).spec_rows().len() ==> r == Ok::<
                Option<PersistentParametricEliminationEvent>,
                PersistentParametricEliminationError,
            >(None),
            r is Err ==> *final(self) == *old(self),
            r matches Ok(None) ==> *final(self) == *old(self) && old(self).spec_stats().consumed_rows
                == old(self).spec_rows().len(),
            r matches Ok(Some(e)) ==> old(self).consumed_one(&*final(self), e),
            old(self).spec_stats().consumed_rows < old(self).spec_rows().len() && old(self).rebuild_refusal(
                outer_elimination_manifest_bytes as nat,
            ) is Some ==> r == Err::<Option<PersistentParametricEliminationEvent>, PersistentParametricEliminationError>(
                old(self).rebuild_refusal(outer_elimination_manifest_bytes as nat)->Some_0,
            ),
            r matches Ok(Some(_)) ==> old(self).rebuild_refusal(outer_elimination_manifest_bytes as nat) is None,
    {
        if self.try_pending_rows()? == 0 {
            return Ok(None);
        }
        let source_ordinal = self.stats.consumed_rows;
        let prefix_len = checked_add(source_ordinal, 1, "persistent consumed source rows")?;
        let prefix_integral_slots = self.source_integral_slot_prefixes[source_ordinal];
        let prefix_manifest_component_bytes = self.source_manifest_component_prefixes[source_ordinal];
        let prefix_manifest_bytes = prefix_source_manifest_bytes(prefix_len, prefix_manifest_component_bytes)?;
        check_limit(
            "persistent source manifest bytes in one prefix rebuild",
            prefix_manifest_bytes,
            self.limits.elimination.max_source_manifest_bytes,
        )?;
        let previous_manifest_bytes: usize = match &self.elimination {
            Some(elimination) => elimination.source_manifest().len(),
            None => 0,
        };
        assert(previous_manifest_bytes == elimination_manifest_bytes(self.elimination));
        let largest_prefix_row_manifest_bytes = largest_prefix_value(
            &self.source_manifest_lengths,
            prefix_len,
            Ghost(self.source_rows@),
        );
        let coexisting_elimination_manifest_bytes = checked_add(
            checked_add(
                outer_elimination_manifest_bytes,
                previous_manifest_bytes,
                "persistent coexisting elimination source manifest bytes",
            )?,
            checked_add(
                checked_mul(prefix_manifest_bytes, 2, "persistent coexisting elimination source manifest bytes")?,
                largest_prefix_row_manifest_bytes,
                "persistent coexisting elimination source manifest bytes",
            )?,
            "persistent coexisting elimination source manifest bytes",
        )?;
        check_limit(
            "persistent coexisting elimination source manifest bytes",
            coexisting_elimination_manifest_bytes,
            self.limits.max_coexisting_elimination_source_manifest_bytes,
        )?;
        let prefix_manifest_work = checked_mul(
            prefix_manifest_bytes,
            2,
            "persistent cumulative prefix rebuild manifest bytes",
        )?;
        let cumulative_prefix_rebuild_rows = checked_add(
            self.stats.cumulative_prefix_rebuild_rows,
            prefix_len,
            "persistent cumulative prefix rebuild rows",
        )?;
        let cumulative_prefix_rebuild_integral_slots = checked_add(
            self.stats.cumulative_prefix_rebuild_integral_slots,
            prefix_integral_slots,
            "persistent cumulative prefix rebuild integral slots",
        )?;
        let cumulative_prefix_rebuild_manifest_bytes = checked_add(
            self.stats.cumulative_prefix_rebuild_manifest_bytes,
            prefix_manifest_work,
            "persistent cumulative prefix rebuild manifest bytes",
        )?;
        check_limit(
            "persistent cumulative prefix rebuild rows",
            cumulative_prefix_rebuild_rows,
            self.limits.max_cumulative_prefix_rebuild_rows,
        )?;
        check_limit(
            "persistent cumulative prefix rebuild integral slots",
            cumulative_prefix_rebuild_integral_slots,
            self.limits.max_cumulative_prefix_rebuild_terms,
        )?;
        check_limit(
            "persistent cumulative prefix rebuild manifest bytes",
            cumulative_prefix_rebuild_manifest_bytes,
            self.limits.max_cumulative_prefix_rebuild_manifest_bytes,
        )?;
        let mut build_limits = self.remaining_build_limits()?;
        if prefix_len < build_limits.max_source_rows {
            build_limits.max_source_rows = prefix_len;
        }
        let prefix = vstd::slice::slice_subrange(self.source_rows.as_slice(), 0, prefix_len);
        let rebuilt = match builder.build(self.context, prefix, self.ordering.clone(), build_limits) {
            Ok(elimination) => elimination,
            Err(error) => {
                return Err(PersistentParametricEliminationError::Elimination(error));
            },
        };
        if !pivots_extend_by_at_most_one(&self.elimination, &rebuilt) {
            return Err(
                PersistentParametricEliminationError::ReplayMismatch {
                    detail: "a rebuilt source prefix changed an already committed pivot",
                },
            );
        }
        let previous_pivot_count: usize = match &self.elimination {
            Some(elimination) => elimination.pivots.len(),
            None => 0,
        };
        let outcome = if rebuilt.pivots.len() == previous_pivot_count {
            PersistentParametricEliminationRowOutcome::Dependent
        } else {
            PersistentParametricEliminationRowOutcome::Pivot { pivot_ordinal: previous_pivot_count }
        };
        let batch_index = match batch_containing(&self.batches, source_ordinal) {
            Some(index) => index,
            None => {
                return Err(
                    PersistentParametricEliminationError::ReplayMismatch {
                        detail: "consumed source row has no submitted batch",
                    },
                );
            },
        };
        let batch = &self.batches[batch_index];
        let event = PersistentParametricEliminationEvent {
            event_ordinal: self.events.len(),
            batch_ordinal: batch.ordinal,
            source_ordinal,
            within_batch_ordinal: source_ordinal - batch.first_source_ordinal,
            outcome,
        };
        let elimination_stats = rebuilt.stats;
        let cumulative_construction_reductions = checked_add(
            self.stats.cumulative_construction_reductions,
            elimination_stats.construction_reductions,
            "persistent cumulative construction reductions",
        )?;
        let cumulative_construction_updates = checked_add(
            self.stats.cumulative_construction_updates,
            elimination_stats.construction_updates,
            "persistent cumulative construction updates",
        )?;
        let cumulative_replay_reductions = checked_add(
            self.stats.cumulative_replay_reductions,
            elimination_stats.replay_reductions,
            "persistent cumulative replay reductions",
        )?;
        let cumulative_replay_updates = checked_add(
            self.stats.cumulative_replay_updates,
            elimination_stats.replay_updates,
            "persistent cumulative replay updates",
        )?;
        check_limit(
            "persistent cumulative construction reductions",
            cumulative_construction_reductions,
            self.limits.max_cumulative_construction_reductions,
        )?;
        check_limit(
            "persistent cumulative construction updates",
            cumulative_construction_updates,
            self.limits.max_cumulative_construction_updates,
        )?;
        check_limit(
            "persistent cumulative replay reductions",
            cumulative_replay_reductions,
            self.limits.max_cumulative_replay_reductions,
        )?;
        check_limit(
            "persistent cumulative replay updates",
            cumulative_replay_updates,
            self.limits.max_cumulative_replay_updates,
        )?;
        let (dependent_rows, pivot_rows) = match outcome {
            PersistentParametricEliminationRowOutcome::Dependent => (
                checked_add(self.stats.dependent_rows, 1, "persistent dependent rows")?,
                self.stats.pivot_rows,
            ),
            PersistentParametricEliminationRowOutcome::Pivot { .. } => (
                self.stats.dependent_rows,
                checked_add(self.stats.pivot_rows, 1, "persistent pivot rows")?,
            ),
        };
        let rebuilds = checked_add(self.stats.rebuilds, 1, "persistent rebuilds")?;
        let ghost before = *self;
        self.elimination = Some(rebuilt);
        self.events.push(event);
        self.stats.consumed_rows = prefix_len;
        self.stats.dependent_rows = dependent_rows;
        self.stats.pivot_rows = pivot_rows;
        self.stats.rebuilds = rebuilds;
        self.stats.cumulative_prefix_rebuild_rows = cumulative_prefix_rebuild_rows;
        self.stats.cumulative_prefix_rebuild_integral_slots = cumulative_prefix_rebuild_integral_slots;
        self.stats.cumulative_prefix_rebuild_manifest_bytes = cumulative_prefix_rebuild_manifest_bytes;
        self.stats.cumulative_construction_reductions = cumulative_construction_reductions;
        self.stats.cumulative_construction_updates = cumulative_construction_updates;
        self.stats.cumulative_replay_reductions = cumulative_replay_reductions;
        self.stats.cumulative_replay_updates = cumulative_replay_updates;
        proof {
            lemma_pivot_events_push(before.events@, event);
            assert(self.events@ == before.events@.push(event));
            assert forall|i: int| 0 <= i < self.events@.len() implies pivot_numbered(self.events@, i) by {
                if i < before.events@.len() {
                    assert(pivot_numbered(before.events@, i));
                }
            }
            assert forall|i: int| 0 <= i < self.events@.len() implies event_located(
                #[trigger] self.events@[i],
                i,
                self.batches@,
            ) by {
                if i < before.events@.len() {
                    assert(self.events@[i] == before.events@[i]);
                }
            }
        }
        Ok(Some(event))
    }

    fn remaining_build_limits(&self) -> (r: Result<ParametricEliminationLimits, PersistentParametricEliminationError>)
        ensures
            r is Ok <==> self.stats.cumulative_construction_reductions <= self.limits.max_cumulative_construction_reductions
                && self.stats.cumulative_construction_updates <= self.limits.max_cumulative_construction_updates
                && self.stats.cumulative_replay_reductions <= self.limits.max_cumulative_replay_reductions
                && self.stats.cumulative_replay_updates <= self.limits.max_cumulative_replay_updates,
            r matches Ok(l) ==> l == (ParametricEliminationLimits {
                max_reductions: min_usize(
                    self.limits.elimination.max_reductions,
                    (self.limits.max_cumulative_construction_reductions - self.stats.cumulative_construction_reductions) as usize,
                ),
                max_sparse_updates: min_usize(
                    self.limits.elimination.max_sparse_updates,
                    (self.limits.max_cumulative_construction_updates - self.stats.cumulative_construction_updates) as usize,
                ),
                max_replay_reductions: min_usize(
                    self.limits.elimination.max_replay_reductions,
                    (self.limits.max_cumulative_replay_reductions - self.stats.cumulative_replay_reductions) as usize,
                ),
                max_replay_updates: min_usize(
                    self.limits.elimination.max_replay_updates,
                    (self.limits.max_cumulative_replay_updates - self.stats.cumulative_replay_updates) as usize,
                ),
                ..self.limits.elimination
            }),
            r is Err ==> r->Err_0 is ResourceLimit,
            self.stats.cumulative_construction_reductions > self.limits.max_cumulative_construction_reductions ==> r
                == Err::<ParametricEliminationLimits, PersistentParametricEliminationError>(
                over_limit(
                    "persistent cumulative construction reductions",
                    self.stats.cumulative_construction_reductions as nat,
                    self.limits.max_cumulative_construction_reductions,
                ),
            ),
            self.stats.cumulative_construction_reductions <= self.limits.max_cumulative_construction_reductions
                && self.stats.cumulative_construction_updates > self.limits.max_cumulative_construction_updates ==> r
                == Err::<ParametricEliminationLimits, PersistentParametricEliminationError>(
                over_limit(
                    "persistent cumulative construction updates",
                    self.stats.cumulative_construction_updates as nat,
                    self.limits.max_cumulative_construction_updates,
                ),
            ),
            self.stats.cumulative_construction_reductions <= self.limits.max_cumulative_construction_reductions
                && self.stats.cumulative_construction_updates <= self.limits.max_cumulative_construction_updates
                && self.stats.cumulative_replay_reductions > self.limits.max_cumulative_replay_reductions ==> r
                == Err::<ParametricEliminationLimits, PersistentParametricEliminationError>(
                over_limit(
                    "persistent cumulative replay reductions",
                    self.stats.cumulative_replay_reductions as nat,
                    self.limits.max_cumulative_replay_reductions,
                ),
            ),
            self.stats.cumulative_construction_reductions <= self.limits.max_cumulative_construction_reductions
                && self.stats.cumulative_construction_updates <= self.limits.max_cumulative_construction_updates
                && self.stats.cumulative_replay_reductions <= self.limits.max_cumulative_replay_reductions
                && self.stats.cumulative_replay_updates > self.limits.max_cumulative_replay_updates ==> r
                == Err::<ParametricEliminationLimits, PersistentParametricEliminationError>(
                over_limit(
                    "persistent cumulative replay updates",
                    self.stats.cumulative_replay_updates as nat,
                    self.limits.max_cumulative_replay_updates,
                ),
            ),
    {
        let mut limits = self.limits.elimination;
        let construction_reductions = match self.limits.max_cumulative_construction_reductions.checked_sub(
            self.stats.cumulative_construction_reductions,
        ) {
            Some(remaining) => remaining,
            None => {
                return Err(
                    PersistentParametricEliminationError::ResourceLimit {
                        resource: "persistent cumulative construction reductions",
                        requested: self.stats.cumulative_construction_reductions,
                        limit: self.limits.max_cumulative_construction_reductions,
                    },
                );
            },
        };
        if construction_reductions < limits.max_reductions {
            limits.max_reductions = construction_reductions;
        }
        let construction_updates = match self.limits.max_cumulative_construction_updates.checked_sub(
            self.stats.cumulative_construction_updates,
        ) {
            Some(remaining) => remaining,
            None => {
                return Err(
                    PersistentParametricEliminationError::ResourceLimit {
                        resource: "persistent cumulative construction updates",
                        requested: self.stats.cumulative_construction_updates,
                        limit: self.limits.max_cumulative_construction_updates,
                    },
                );
            },
        };
        if construction_updates < limits.max_sparse_updates {
            limits.max_sparse_updates = construction_updates;
        }
        let replay_reductions = match self.limits.max_cumulative_replay_reductions.checked_sub(
            self.stats.cumulative_replay_reductions,
        ) {
            Some(remaining) => remaining,
            None => {
                return Err(
                    PersistentParametricEliminationError::ResourceLimit {
                        resource: "persistent cumulative replay reductions",
                        requested: self.stats.cumulative_replay_reductions,
                        limit: self.limits.max_cumulative_replay_reductions,
                    },
                );
            },
        };
        if replay_reductions < limits.max_replay_reductions {
            limits.max_replay_reductions = replay_reductions;
        }
        let replay_updates = match self.limits.max_cumulative_replay_updates.checked_sub(
            self.stats.cumulative_replay_updates,
        ) {
            Some(remaining) => remaining,
            None => {
                return Err(
                    PersistentParametricEliminationError::ResourceLimit {
                        resource: "persistent cumulative replay updates",
                        requested: self.stats.cumulative_replay_updates,
                        limit: self.limits.max_cumulative_replay_updates,
                    },
                );
            },
        };
        if replay_updates < limits.max_replay_updates {
            limits.max_replay_updates = replay_updates;
        }
        Ok(limits)
    }
}

/// Largest of the first `n` values (zero when `n` is zero), where value `k`
/// is the manifest length of row `k`.
fn largest_prefix_value(values: &Vec<usize>, n: usize, Ghost(rows): Ghost<Seq<ParametricRelation>>) -> (r: usize)
    requires
        n <= values@.len(),
        n <= rows.len(),
        forall|k: int| 0 <= k < n ==> values@[k] == row_manifest_bytes(#[trigger] rows[k]),
    ensures
        r == largest_row_manifest(rows, n as int),
{
    let mut largest: usize = 0;
    let mut i: usize = 0;
    while i < n
        invariant
            n <= values@.len(),
            n <= rows.len(),
            forall|k: int| 0 <= k < n ==> values@[k] == row_manifest_bytes(#[trigger] rows[k]),
            i <= n,
            largest == largest_row_manifest(rows, i as int),
        decreases n - i,
    {
        assert(values@[i as int] == row_manifest_bytes(rows[i as int]));
        if values[i] > largest {
            largest = values[i];
        }
        i = i + 1;
    }
    largest
}

/// The committed pivots are an exact prefix of `rebuilt`'s, which has at
/// most one more.
fn pivots_extend_by_at_most_one(previous: &Option<ParametricElimination>, rebuilt: &ParametricElimination) -> (r: bool)
    ensures
        r == (pivot_prefix(pivots_of(*previous), rebuilt.pivots@) && rebuilt.pivots@.len() <= pivots_of(*previous).len()
            + 1),
{
    let empty: Vec<ParametricPivotEquation> = Vec::new();
    let committed = match previous {
        Some(elimination) => &elimination.pivots,
        None => &empty,
    };
    assert(committed@ == pivots_of(*previous));
    if rebuilt.pivots.len() < committed.len() || rebuilt.pivots.len() - committed.len() > 1 {
        return false;
    }
    let mut i: usize = 0;
    while i < committed.len()
        invariant
            committed@ == pivots_of(*previous),
            committed@.len() <= rebuilt.pivots@.len(),
            rebuilt.pivots@.len() <= committed@.len() + 1,
            i <= committed@.len(),
            forall|k: int| 0 <= k < i ==> pivot_same(#[trigger] committed@[k], rebuilt.pivots@[k]),
        decreases committed@.len() - i,
    {
        if !committed[i].same_pivot(&rebuilt.pivots[i]) {
            assert(!pivot_same(committed@[i as int], rebuilt.pivots@[i as int]));
            return false;
        }
        i = i + 1;
    }
    true
}

/// Batch `b`, at position `b`, has `source_ordinal` in its source range.
pub open spec fn batch_holds(batch: PersistentParametricEliminationBatch, b: int, source_ordinal: usize) -> bool {
    batch.ordinal == b && batch.first_source_ordinal <= source_ordinal < batch.first_source_ordinal
        + batch.source_row_count
}

/// The smaller of two counts.
pub open spec fn min_usize(a: usize, b: usize) -> usize {
    if b < a {
        b
    } else {
        a
    }
}

/// Index of the batch whose source range holds `source_ordinal`.
fn batch_containing(batches: &Vec<PersistentParametricEliminationBatch>, source_ordinal: usize) -> (r: Option<usize>)
    ensures
        r matches Some(b) ==> batch_holds(batches@[b as int], b as int, source_ordinal) && b < batches@.len()
            && forall|k: int| 0 <= k < b ==> !batch_holds(#[trigger] batches@[k], k, source_ordinal),
        r is None ==> forall|k: int| 0 <= k < batches@.len() ==> !batch_holds(#[trigger] batches@[k], k, source_ordinal),
{
    let mut i: usize = 0;
    while i < batches.len()
        invariant
            i <= batches@.len(),
            forall|k: int| 0 <= k < i ==> !batch_holds(#[trigger] batches@[k], k, source_ordinal),
        decreases batches@.len() - i,
    {
        let batch = &batches[i];
        if batch.ordinal == i && batch.first_source_ordinal <= source_ordinal && source_ordinal - batch.first_source_ordinal
            < batch.source_row_count {
            return Some(i);
        }
        i = i + 1;
    }
    None
}


pub proof fn lemma_pivot_prefix_trans(
    a: Seq<ParametricPivotEquation>,
    b: Seq<ParametricPivotEquation>,
    c: Seq<ParametricPivotEquation>,
)
    requires
        pivot_prefix(a, b),
        pivot_prefix(b, c),
    ensures
        pivot_prefix(a, c),
{
    assert forall|i: int| 0 <= i < a.len() implies pivot_same(#[trigger] a[i], c[i]) by {
        assert(pivot_same(a[i], b[i]));
        assert(pivot_same(b[i], c[i]));
    }
}

/// Every pivot committed by the events `events[from..to]` was declined by
/// `selector` when it was committed: a pivot equal to the retained one made
/// `selector` answer `false`.
pub open spec fn pivots_declined<F: Fn(&ParametricPivotEquation) -> bool>(
    selector: F,
    events: Seq<PersistentParametricEliminationEvent>,
    from: int,
    to: int,
    pivots: Seq<ParametricPivotEquation>,
) -> bool {
    forall|i: int|
        #![trigger events[i]]
        from <= i < to ==> (events[i].outcome matches PersistentParametricEliminationRowOutcome::Pivot { pivot_ordinal }
            ==> pivot_ordinal < pivots.len() && exists|p: ParametricPivotEquation|
            pivot_same(p, pivots[pivot_ordinal as int]) && #[trigger] selector.ensures((&p,), false))
}

proof fn lemma_pivots_declined_extend<F: Fn(&ParametricPivotEquation) -> bool>(
    selector: F,
    events: Seq<PersistentParametricEliminationEvent>,
    from: int,
    to: int,
    before: Seq<ParametricPivotEquation>,
    after: Seq<ParametricPivotEquation>,
    e: PersistentParametricEliminationEvent,
)
    requires
        0 <= from <= to == events.len(),
        pivots_declined(selector, events, from, to, before),
        pivot_prefix(before, after),
    ensures
        pivots_declined(selector, events.push(e), from, to, after),
{
    let pushed = events.push(e);
    assert forall|i: int| #![trigger pushed[i]] from <= i < to implies (pushed[i].outcome
        matches PersistentParametricEliminationRowOutcome::Pivot { pivot_ordinal } ==> pivot_ordinal < after.len()
        && exists|p: ParametricPivotEquation| pivot_same(p, after[pivot_ordinal as int]) && #[trigger] selector.ensures((&p,), false)) by {
        assert(pushed[i] == events[i]);
        if let PersistentParametricEliminationRowOutcome::Pivot { pivot_ordinal } = events[i].outcome {
            let p = choose|p: ParametricPivotEquation| pivot_same(p, before[pivot_ordinal as int]) && #[trigger] selector.ensures((&p,), false);
            assert(pivot_same(before[pivot_ordinal as int], after[pivot_ordinal as int]));
            assert(pivot_same(p, after[pivot_ordinal as int]));
        }
    }
}

impl<'context> PersistentParametricEliminationDatabase<'context> {
    /// Consume rows until a newly committed pivot satisfies `selector`.
    /// Skipped pivots stay committed.
    pub fn solve_until<B: ParametricEliminationBuilder, F: Fn(&ParametricPivotEquation) -> bool>(
        &mut self,
        builder: &B,
        selector: F,
    ) -> (r: Result<Option<PersistentParametricEliminationEvent>, PersistentParametricEliminationError>)
        requires
            old(self).wf(),
            forall|p: &ParametricPivotEquation| selector.requires((p,)),
        ensures
            final(self).wf(),
            final(self).same_source(&*old(self)),
            pivot_prefix(pivots_of(old(self).spec_elimination()), pivots_of(final(self).spec_elimination())),
            old(self).spec_interrupted() ==> r == Err::<
                Option<PersistentParametricEliminationEvent>,
                PersistentParametricEliminationError,
            >(PersistentParametricEliminationError::DatabaseInterrupted) && *final(self) == *old(self),
            !old(self).spec_interrupted() && r is Err ==> final(self).spec_interrupted(),
            r is Ok ==> !final(self).spec_interrupted(),
            r matches Ok(None) ==> final(self).spec_stats().consumed_rows == final(self).spec_rows().len(),
            r matches Ok(Some(e)) ==> ({
                let pivots = pivots_of(final(self).spec_elimination());
                &&& e.outcome matches PersistentParametricEliminationRowOutcome::Pivot { pivot_ordinal }
                    && pivot_ordinal == pivots.len() - 1
                    && selector.ensures((&pivots[pivot_ordinal as int],), true)
                &&& final(self).spec_events().last() == e
            }),
            r is Ok ==> final(self).spec_events().take(old(self).spec_events().len() as int) == old(self).spec_events(),
            r matches Ok(None) ==> pivots_declined(
                selector,
                final(self).spec_events(),
                old(self).spec_events().len() as int,
                final(self).spec_events().len() as int,
                pivots_of(final(self).spec_elimination()),
            ),
            r matches Ok(Some(e)) ==> pivots_declined(
                selector,
                final(self).spec_events(),
                old(self).spec_events().len() as int,
                final(self).spec_events().len() - 1,
                pivots_of(final(self).spec_elimination()),
            ),
    {
        self.ensure_active()?;
        let ghost start = *self;
        loop
            invariant
                self.wf(),
                !self.interrupted,
                self.same_source(&start),
                start == *old(self),
                pivot_prefix(pivots_of(start.spec_elimination()), pivots_of(self.spec_elimination())),
                !start.spec_interrupted(),
                forall|p: &ParametricPivotEquation| selector.requires((p,)),
                start.spec_events().len() <= self.spec_events().len(),
                self.spec_events().take(start.spec_events().len() as int) == start.spec_events(),
                pivots_declined(
                    selector,
                    self.spec_events(),
                    start.spec_events().len() as int,
                    self.spec_events().len() as int,
                    pivots_of(self.spec_elimination()),
                ),
            decreases self.spec_rows().len() - self.spec_stats().consumed_rows,
        {
            let ghost before = *self;
            let consumed = self.consume_next_active(builder, 0);
            let event = match consumed {
                Ok(Some(event)) => event,
                Ok(None) => {
                    return Ok(None);
                },
                Err(error) => {
                    self.interrupted = true;
                    return Err(error);
                },
            };
            proof {
                lemma_pivot_prefix_trans(
                    pivots_of(start.spec_elimination()),
                    pivots_of(before.spec_elimination()),
                    pivots_of(self.spec_elimination()),
                );
                lemma_pivots_declined_extend(
                    selector,
                    before.spec_events(),
                    start.spec_events().len() as int,
                    before.spec_events().len() as int,
                    pivots_of(before.spec_elimination()),
                    pivots_of(self.spec_elimination()),
                    event,
                );
                assert(self.spec_events().take(start.spec_events().len() as int) =~= start.spec_events());
            }
            if let PersistentParametricEliminationRowOutcome::Pivot { pivot_ordinal } = event.outcome {
                let pivot = match &self.elimination {
                    Some(elimination) => &elimination.pivots[pivot_ordinal],
                    None => {
                        self.interrupted = true;
                        return Err(
                            PersistentParametricEliminationError::ReplayMismatch {
                                detail: "committed pivot event has no pivot equation",
                            },
                        );
                    },
                };
                let selected = selector(pivot);
                if selected {
                    return Ok(Some(event));
                }
                proof {
                    let pivots = pivots_of(self.spec_elimination());
                    assert(pivot_same(*pivot, pivots[pivot_ordinal as int]));
                    assert(self.spec_events()[before.spec_events().len() as int] == event);
                }
            }
        }
    }

    /// Freeze the database.  A pending suffix is retained explicitly; it is
    /// not treated as solved.
    pub fn finish(self) -> (r: PersistentParametricEliminationCertificate)
        requires
            self.wf(),
        ensures
            r.schema@ == PERSISTENT_PARAMETRIC_ELIMINATION_REFERENCE_V1_SCHEMA@,
            r.family_fingerprint@ == self.spec_family(),
            r.context_fingerprint@ == self.spec_context().fingerprint@,
            r.ordering == self.spec_ordering(),
            r.limits == self.spec_limits(),
            r.source_rows@ == self.spec_rows(),
            r.source_manifest_lengths@.len() == self.spec_rows().len(),
            forall|i: int| 0 <= i < r.source_manifest_lengths@.len() ==> r.source_manifest_lengths@[i] == row_manifest_bytes(
                #[trigger] self.spec_rows()[i],
            ),
            r.batches@ == self.spec_batches(),
            r.events@ == self.spec_events(),
            r.elimination == self.spec_elimination(),
            r.stats == self.spec_stats(),
            r.interrupted == self.spec_interrupted(),
            finished_from(r, &self),
    {
        PersistentParametricEliminationCertificate {
            schema: PERSISTENT_PARAMETRIC_ELIMINATION_REFERENCE_V1_SCHEMA,
            family_fingerprint: self.family_fingerprint,
            context_fingerprint: self.context.fingerprint.clone(),
            ordering: self.ordering,
            limits: self.limits,
            source_rows: self.source_rows,
            source_manifest_lengths: self.source_manifest_lengths,
            batches: self.batches,
            events: self.events,
            elimination: self.elimination,
            stats: self.stats,
            interrupted: self.interrupted,
        }
    }
}

/// Replayable certificate of one case-group database.  Its fields are what
/// a decoder would reconstruct, so replay trusts none of them.
pub struct PersistentParametricEliminationCertificate {
    pub schema: &'static str,
    pub family_fingerprint: String,
    pub context_fingerprint: String,
    pub ordering: ParametricEliminationOrdering,
    pub limits: PersistentParametricEliminationLimits,
    pub source_rows: Vec<ParametricRelation>,
    pub source_manifest_lengths: Vec<usize>,
    pub batches: Vec<PersistentParametricEliminationBatch>,
    pub events: Vec<PersistentParametricEliminationEvent>,
    pub elimination: Option<ParametricElimination>,
    pub stats: PersistentParametricEliminationStats,
    pub interrupted: bool,
}

/// The detail of a replay refused for its scope or completion state.
pub open spec fn scope_mismatch() -> PersistentParametricEliminationError {
    PersistentParametricEliminationError::ReplayMismatch {
        detail: "persistent certificate scope or completion state differs",
    }
}

/// The detail of a replay refused for retained statistics that differ from
/// the rows and batches.
pub open spec fn statistics_mismatch() -> PersistentParametricEliminationError {
    PersistentParametricEliminationError::ReplayMismatch {
        detail: "persistent retained-payload statistics differ from actual rows",
    }
}

/// Rows rebuilt over the first `consumed` prefixes: one, then two, and so on.
pub open spec fn rebuild_rows_total(consumed: nat) -> nat
    decreases consumed,
{
    if consumed == 0 {
        0
    } else {
        rebuild_rows_total((consumed - 1) as nat) + consumed
    }
}

/// Rebuilding every prefix once reads the triangular number of rows.
pub proof fn lemma_rebuild_rows_total(consumed: nat)
    ensures
        2 * rebuild_rows_total(consumed) == consumed * (consumed + 1),
    decreases consumed,
{
    if consumed > 0 {
        let p = (consumed - 1) as nat;
        lemma_rebuild_rows_total(p);
        let t = rebuild_rows_total(p);
        let u = rebuild_rows_total(consumed);
        assert(u == t + consumed);
        assert(2 * u == consumed * (consumed + 1)) by (nonlinear_arith)
            requires
                2 * t == p * (p + 1),
                u == t + consumed,
                p + 1 == consumed,
        ;
    } else {
        assert(consumed * (consumed + 1) == 0) by (nonlinear_arith)
            requires
                consumed == 0,
        ;
    }
}

/// The scope, the manifest table and the cursor of `cert` pass the checks
/// a replay makes before reading any row.
pub open spec fn replay_prechecks(cert: PersistentParametricEliminationCertificate, context: ParametricCoefficientContext) -> bool {
    &&& cert.schema@ == PERSISTENT_PARAMETRIC_ELIMINATION_REFERENCE_V1_SCHEMA@
    &&& cert.context_fingerprint@ == context.fingerprint@
    &&& !cert.interrupted
    &&& cert.source_manifest_lengths@.len() == cert.source_rows@.len()
    &&& cert.stats.consumed_rows <= cert.source_rows@.len()
}

/// The detail of a replay refused for a transcript whose length is not the
/// consumed-row cursor.
pub open spec fn event_count_mismatch() -> PersistentParametricEliminationError {
    PersistentParametricEliminationError::ReplayMismatch {
        detail: "persistent event count differs from the consumed-row cursor",
    }
}

/// The detail of a replay refused for consumption statistics or an
/// elimination that disagree with the transcript.
pub open spec fn event_statistics_mismatch() -> PersistentParametricEliminationError {
    PersistentParametricEliminationError::ReplayMismatch {
        detail: "persistent consumed-event statistics or elimination differ",
    }
}

/// The consumption statistics and the elimination of `cert` agree with its
/// transcript: pivot and dependent counts, one rebuild per consumed row, one
/// pivot per pivot event, and an elimination exactly when a row was consumed.
pub open spec fn event_statistics_match(cert: PersistentParametricEliminationCertificate) -> bool {
    let pivot = pivot_events(cert.events@);
    &&& cert.stats.pivot_rows == pivot
    &&& cert.stats.dependent_rows + pivot == cert.events@.len()
    &&& cert.stats.rebuilds == cert.stats.consumed_rows
    &&& pivots_of(cert.elimination).len() == pivot
    &&& (cert.stats.consumed_rows == 0 <==> cert.elimination is None)
}

/// The first limit that refuses a replay holding two copies of the retained
/// rows at once (`None` when none does).
pub open spec fn replay_clone_refusal(cert: PersistentParametricEliminationCertificate) -> Option<
    PersistentParametricEliminationError,
> {
    let rows = cert.source_rows@;
    let n: nat = 2 * rows.len();
    let slots: nat = 2 * row_sum(rows, slots_of());
    let manifest: nat = 2 * row_sum(rows, manifest_of());
    let l = cert.limits;
    if n > usize::MAX {
        Some(count_overflow("persistent replay coexisting source clone rows"))
    } else if n > l.max_replay_source_clone_rows {
        Some(over_limit("persistent replay coexisting source clone rows", n, l.max_replay_source_clone_rows))
    } else if slots > usize::MAX {
        Some(count_overflow("persistent replay coexisting source clone integral slots"))
    } else if slots > l.max_replay_source_clone_integral_slots {
        Some(over_limit(
            "persistent replay coexisting source clone integral slots",
            slots,
            l.max_replay_source_clone_integral_slots,
        ))
    } else if manifest > usize::MAX {
        Some(count_overflow("persistent replay coexisting source clone manifest bytes"))
    } else if manifest > l.max_replay_source_clone_manifest_bytes {
        Some(over_limit(
            "persistent replay coexisting source clone manifest bytes",
            manifest,
            l.max_replay_source_clone_manifest_bytes,
        ))
    } else {
        None
    }
}

/// Submitting `rows` under `label` as the first batch of a fresh database
/// with `family`, `context`, `limits` and an anchor of `anchor_len` indices
/// is admitted: every row and every total is within its limit.
pub open spec fn fresh_batch_admitted(
    rows: Seq<ParametricRelation>,
    label: Seq<char>,
    family: Seq<char>,
    context: ParametricCoefficientContext,
    limits: PersistentParametricEliminationLimits,
    anchor_len: nat,
) -> bool {
    let label_bytes = byte_len(label) as nat;
    let slots = row_sum(rows, slots_of());
    let manifest = row_sum(rows, manifest_of());
    &&& rows.len() > 0
    &&& rows.len() <= limits.max_rows_per_batch
    &&& label_bytes <= limits.max_batch_label_bytes
    &&& label_bytes <= limits.max_retained_batch_label_bytes
    &&& 1 <= limits.max_submitted_batches
    &&& rows.len() <= limits.max_retained_source_rows
    &&& rows.len() <= limits.elimination.max_source_rows
    &&& rows.len() <= limits.max_replay_batch_clone_rows
    &&& forall|i: int| 0 <= i < rows.len() ==> row_admissible(#[trigger] rows[i], family, context, limits, anchor_len)
    &&& add_row_shifts(Seq::empty(), rows).len() <= limits.elimination.max_columns
    &&& slots <= limits.max_retained_source_terms
    &&& slots <= limits.elimination.max_input_terms
    &&& row_sum(rows, guards_of()) <= limits.elimination.max_input_guards
    &&& row_sum(rows, origins_of()) <= limits.elimination.max_input_guard_origins
    &&& manifest <= limits.max_retained_source_manifest_bytes
    &&& slots <= limits.max_replay_batch_clone_integral_slots
    &&& manifest <= limits.max_replay_batch_clone_manifest_bytes
    &&& 2 * rows.len() <= limits.max_replay_source_clone_rows
    &&& 2 * slots <= limits.max_replay_source_clone_integral_slots
    &&& 2 * manifest <= limits.max_replay_source_clone_manifest_bytes
    &&& manifest_header_bytes(rows.len()) + row_sum(rows, component_of()) <= limits.elimination.max_source_manifest_bytes
}

/// `cert` consumed nothing (every consumption counter is zero), holds at
/// most the one batch a database takes before consuming, and resubmitting
/// that batch to a fresh database over `context` is admitted.
pub open spec fn nothing_consumed_replayable(
    cert: PersistentParametricEliminationCertificate,
    context: ParametricCoefficientContext,
) -> bool {
    let s = cert.stats;
    &&& cert.ordering.anchor@.len() == context.index_count
    &&& cert.batches@.len() <= 1
    &&& s.consumed_rows == 0
    &&& s.dependent_rows == 0
    &&& s.pivot_rows == 0
    &&& s.rebuilds == 0
    &&& s.cumulative_prefix_rebuild_rows == 0
    &&& s.cumulative_prefix_rebuild_integral_slots == 0
    &&& s.cumulative_prefix_rebuild_manifest_bytes == 0
    &&& s.cumulative_construction_reductions == 0
    &&& s.cumulative_construction_updates == 0
    &&& s.cumulative_replay_reductions == 0
    &&& s.cumulative_replay_updates == 0
    &&& cert.batches@.len() == 1 ==> fresh_batch_admitted(
        cert.source_rows@,
        cert.batches@[0].label@,
        cert.family_fingerprint@,
        context,
        cert.limits,
        cert.ordering.anchor@.len(),
    )
}

/// `cert` is the payload that `finish` hands out for `db`.
pub open spec fn finished_from(cert: PersistentParametricEliminationCertificate, db: &PersistentParametricEliminationDatabase) -> bool {
    let rows = db.spec_rows();
    &&& cert.schema@ == PERSISTENT_PARAMETRIC_ELIMINATION_REFERENCE_V1_SCHEMA@
    &&& cert.family_fingerprint@ == db.spec_family()
    &&& cert.context_fingerprint@ == db.spec_context().fingerprint@
    &&& cert.ordering == db.spec_ordering()
    &&& cert.limits == db.spec_limits()
    &&& cert.source_rows@ == rows
    &&& cert.source_manifest_lengths@.len() == rows.len()
    &&& forall|i: int| 0 <= i < rows.len() ==> cert.source_manifest_lengths@[i] == row_manifest_bytes(#[trigger] rows[i])
    &&& cert.batches@ == db.spec_batches()
    &&& cert.events@ == db.spec_events()
    &&& cert.elimination == db.spec_elimination()
    &&& cert.stats == db.spec_stats()
    &&& cert.interrupted == db.spec_interrupted()
}

proof fn lemma_columns_admitted(rows: Seq<ParametricRelation>, i: int, k: int, max_columns: usize, anchor_len: nat)
    requires
        0 <= i < rows.len(),
        0 <= k < rows[i].terms@.len(),
        add_row_shifts(Seq::empty(), rows).len() <= max_columns,
        rows[i].terms@[k].coefficient_within_limits,
        rows[i].terms@[k].shift@.len() == anchor_len,
    ensures
        term_column_admissible(add_row_shifts(Seq::empty(), rows.take(i)), rows[i].terms@, k, max_columns, anchor_len),
{
    let empty = Seq::<Seq<i64>>::empty();
    let p = add_row_shifts(empty, rows.take(i));
    let t = rows[i].terms@;
    lemma_add_term_shifts_take(p, t, k);
    lemma_add_term_shifts_append(p, t.take(k + 1), t.skip(k + 1));
    assert(t.take(k + 1) + t.skip(k + 1) =~= t);
    lemma_add_term_shifts_grows(add_term_shifts(p, t.take(k + 1)), t.skip(k + 1));
    lemma_add_row_shifts_take(empty, rows, i);
    lemma_add_row_shifts_append(empty, rows.take(i + 1), rows.skip(i + 1));
    assert(rows.take(i + 1) + rows.skip(i + 1) =~= rows);
    lemma_add_row_shifts_grows(add_row_shifts(empty, rows.take(i + 1)), rows.skip(i + 1));
}

proof fn lemma_range_sums_from_start(rows: Seq<ParametricRelation>, lengths: Seq<usize>, b: int)
    requires
        0 <= b <= rows.len(),
        lengths.len() == rows.len(),
        forall|i: int| 0 <= i < rows.len() ==> lengths[i] == row_manifest_bytes(#[trigger] rows[i]),
    ensures
        range_slots(rows, 0, b) == row_sum(rows.take(b), slots_of()),
        range_manifest(lengths, 0, b) == row_sum(rows.take(b), manifest_of()),
    decreases b,
{
    if b > 0 {
        lemma_range_sums_from_start(rows, lengths, b - 1);
        lemma_row_sum_take(rows, b - 1, slots_of());
        lemma_row_sum_take(rows, b - 1, manifest_of());
    } else {
        assert(rows.take(0) =~= Seq::<ParametricRelation>::empty());
    }
}

/// A database that has consumed nothing finishes with a certificate that
/// passes every check replay makes before its transcript, within the replay
/// clone limits, and that is replayable without rebuilding any prefix.
pub proof fn lemma_unconsumed_finish_replayable(
    db: &PersistentParametricEliminationDatabase,
    cert: PersistentParametricEliminationCertificate,
)
    requires
        db.wf(),
        !db.spec_interrupted(),
        db.spec_stats().consumed_rows == 0,
        finished_from(cert, db),
    ensures
        replay_prechecks(cert, db.spec_context()),
        rows_admissible(cert, db.spec_context()),
        batches_admissible(cert.batches@, cert.source_rows@, cert.source_manifest_lengths@, cert.limits),
        retained_statistics_match(cert),
        event_statistics_match(cert),
        replay_clone_refusal(cert) is None,
        nothing_consumed_replayable(cert, db.spec_context()),
{
    db.lemma_unconsumed_facts(cert);
}

/// The retained statistics of `cert` are those of its rows and batches.
pub open spec fn retained_statistics_match(cert: PersistentParametricEliminationCertificate) -> bool {
    let rows = cert.source_rows@;
    &&& cert.stats.submitted_batches == cert.batches@.len()
    &&& cert.stats.submitted_rows == rows.len()
    &&& cert.stats.retained_source_integral_slots == row_sum(rows, slots_of())
    &&& cert.stats.retained_source_manifest_bytes == row_sum(rows, manifest_of())
    &&& cert.stats.retained_batch_label_bytes == label_sum(cert.batches@)
    &&& cert.stats.retained_input_guards == row_sum(rows, guards_of())
    &&& cert.stats.retained_input_guard_origins == row_sum(rows, origins_of())
    &&& cert.stats.retained_input_columns == add_row_shifts(Seq::empty(), rows).len()
}

/// The detail of a replay refused for batches that do not start where the
/// previous one ended.
pub open spec fn noncontiguous_ranges() -> PersistentParametricEliminationError {
    PersistentParametricEliminationError::ReplayMismatch { detail: "persistent batch source ranges are not contiguous" }
}

/// The detail of a replay refused for a wrong row-manifest length entry.
pub open spec fn row_manifest_mismatch() -> PersistentParametricEliminationError {
    PersistentParametricEliminationError::ReplayMismatch {
        detail: "persistent row-manifest length differs at a source row",
    }
}

/// The detail of a replay refused for its row-manifest length table.
pub open spec fn manifest_table_mismatch() -> PersistentParametricEliminationError {
    PersistentParametricEliminationError::ReplayMismatch {
        detail: "persistent row-manifest length table differs from retained rows",
    }
}

impl PersistentParametricEliminationCertificate {
    pub fn schema(&self) -> (r: &'static str)
        ensures
            r == self.schema,
    {
        self.schema
    }

    pub fn family_fingerprint(&self) -> (r: &str)
        ensures
            r@ == self.family_fingerprint@,
    {
        self.family_fingerprint.as_str()
    }

    pub fn context_fingerprint(&self) -> (r: &str)
        ensures
            r@ == self.context_fingerprint@,
    {
        self.context_fingerprint.as_str()
    }

    pub fn ordering(&self) -> (r: &ParametricEliminationOrdering)
        ensures
            *r == self.ordering,
    {
        &self.ordering
    }

    pub fn limits(&self) -> (r: PersistentParametricEliminationLimits)
        ensures
            r == self.limits,
    {
        self.limits
    }

    pub fn batches(&self) -> (r: &[PersistentParametricEliminationBatch])
        ensures
            r@ == self.batches@,
    {
        self.batches.as_slice()
    }

    pub fn events(&self) -> (r: &[PersistentParametricEliminationEvent])
        ensures
            r@ == self.events@,
    {
        self.events.as_slice()
    }

    pub fn elimination(&self) -> (r: Option<&ParametricElimination>)
        ensures
            r matches Some(e) ==> self.elimination == Some(*e),
            r is None ==> self.elimination is None,
    {
        self.elimination.as_ref()
    }

    pub fn stats(&self) -> (r: PersistentParametricEliminationStats)
        ensures
            r == self.stats,
    {
        self.stats
    }

    /// Rows not consumed; a corrupt cursor reads as zero.
    pub fn pending_rows(&self) -> (r: usize)
        ensures
            self.stats.consumed_rows <= self.source_rows@.len() ==> r == (self.source_rows@.len()
                - self.stats.consumed_rows) as usize,
            self.stats.consumed_rows > self.source_rows@.len() ==> r == 0,
    {
        match self.try_pending_rows() {
            Ok(pending) => pending,
            Err(_) => 0,
        }
    }

    pub fn try_pending_rows(&self) -> (r: Result<usize, PersistentParametricEliminationError>)
        ensures
            self.stats.consumed_rows <= self.source_rows@.len() ==> r == Ok::<
                usize,
                PersistentParametricEliminationError,
            >((self.source_rows@.len() - self.stats.consumed_rows) as usize),
            self.stats.consumed_rows > self.source_rows@.len() ==> r == Err::<
                usize,
                PersistentParametricEliminationError,
            >(cursor_error()),
    {
        pending_after(self.source_rows.len(), self.stats.consumed_rows)
    }

    pub fn interrupted(&self) -> (r: bool)
        ensures
            r == self.interrupted,
    {
        self.interrupted
    }

    /// The certificate carries the payload that `db` finishes with.
    pub open spec fn matches_database(&self, db: &PersistentParametricEliminationDatabase) -> bool {
        let rows = db.spec_rows();
        &&& self.schema@ == PERSISTENT_PARAMETRIC_ELIMINATION_REFERENCE_V1_SCHEMA@
        &&& self.family_fingerprint@ == db.spec_family()
        &&& self.context_fingerprint@ == db.spec_context().fingerprint@
        &&& self.ordering.anchor@ == db.spec_ordering().anchor@
        &&& self.limits == db.spec_limits()
        &&& self.source_manifest_lengths@.len() == rows.len()
        &&& forall|i: int| 0 <= i < rows.len() ==> self.source_manifest_lengths@[i] == row_manifest_bytes(#[trigger] rows[i])
        &&& self.stats == db.spec_stats()
        &&& self.interrupted == db.spec_interrupted()
        &&& elimination_same(self.elimination, db.spec_elimination())
        &&& self.source_rows@.len() == rows.len()
        &&& forall|i: int| 0 <= i < rows.len() ==> relation_same(#[trigger] self.source_rows@[i], rows[i])
        &&& self.batches@.len() == db.spec_batches().len()
        &&& forall|i: int| 0 <= i < self.batches@.len() ==> batch_same(#[trigger] self.batches@[i], db.spec_batches()[i])
        &&& self.events@ == db.spec_events()
    }

    /// Some well-formed, uninterrupted database over `context`, built by the
    /// database's own operations, finishes with this certificate's payload.
    pub open spec fn reproduced_over(&self, context: ParametricCoefficientContext) -> bool {
        exists|db: PersistentParametricEliminationDatabase<'static>|
            #![trigger self.matches_database(&db)]
            db.wf() && db.spec_context() == context && !db.spec_interrupted() && self.matches_database(&db)
    }

    /// The certificate's retained payload is self-consistent for `context`:
    /// its scope matches, every row belongs to the case group, the manifest
    /// length table and the retained statistics are those of the rows, the
    /// batches tile the rows, and the transcript covers the consumed prefix.
    pub open spec fn audited(&self, context: ParametricCoefficientContext) -> bool {
        let rows = self.source_rows@;
        &&& self.schema@ == PERSISTENT_PARAMETRIC_ELIMINATION_REFERENCE_V1_SCHEMA@
        &&& self.context_fingerprint@ == context.fingerprint@
        &&& !self.interrupted
        &&& self.source_manifest_lengths@.len() == rows.len()
        &&& forall|i: int| 0 <= i < rows.len() ==> {
            &&& (#[trigger] rows[i]).family_fingerprint@ == self.family_fingerprint@
            &&& rows[i].context_fingerprint@ == self.context_fingerprint@
            &&& rows[i].arity == context.index_count
            &&& self.source_manifest_lengths@[i] == row_manifest_bytes(rows[i])
        }
        &&& batches_contiguous(self.batches@, rows.len())
        &&& self.stats.submitted_batches == self.batches@.len()
        &&& self.stats.submitted_rows == rows.len()
        &&& self.stats.retained_source_integral_slots == row_sum(rows, slots_of())
        &&& self.stats.retained_source_manifest_bytes == row_sum(rows, manifest_of())
        &&& self.stats.retained_batch_label_bytes == label_sum(self.batches@)
        &&& self.stats.retained_input_guards == row_sum(rows, guards_of())
        &&& self.stats.retained_input_guard_origins == row_sum(rows, origins_of())
        &&& self.stats.retained_input_columns == add_row_shifts(Seq::empty(), rows).len()
        &&& self.stats.consumed_rows <= rows.len()
        &&& self.events@.len() == self.stats.consumed_rows
        &&& forall|i: int| 0 <= i < self.events@.len() ==> event_located(#[trigger] self.events@[i], i, self.batches@)
        &&& self.stats.dependent_rows + self.stats.pivot_rows == self.stats.consumed_rows
        &&& self.stats.rebuilds == self.stats.consumed_rows
        &&& pivots_of(self.elimination).len() == self.stats.pivot_rows
        &&& (self.stats.consumed_rows == 0 <==> self.elimination is None)
    }
}


impl PersistentParametricEliminationCertificate {
    /// Audits every retained row against `context` and the limits, and
    /// returns the actual slot, manifest-byte, guard, origin and column
    /// totals.
    fn audit_rows(&self, context: &ParametricCoefficientContext) -> (r: Result<
        (usize, usize, usize, usize, usize),
        PersistentParametricEliminationError,
    >)
        requires
            self.source_manifest_lengths@.len() == self.source_rows@.len(),
        ensures
            r matches Ok((slots, manifest, guards, origins, columns)) ==> {
                let rows = self.source_rows@;
                &&& forall|i: int| 0 <= i < rows.len() ==> {
                    &&& (#[trigger] rows[i]).family_fingerprint@ == self.family_fingerprint@
                    &&& rows[i].context_fingerprint@ == self.context_fingerprint@
                    &&& rows[i].arity == context.index_count
                    &&& self.source_manifest_lengths@[i] == row_manifest_bytes(rows[i])
                }
                &&& slots == row_sum(rows, slots_of())
                &&& manifest == row_sum(rows, manifest_of())
                &&& guards == row_sum(rows, guards_of())
                &&& origins == row_sum(rows, origins_of())
                &&& columns == add_row_shifts(Seq::empty(), rows).len()
            },
            r is Ok <==> rows_admissible(*self, *context),
            rows_shape_admissible(*self, *context) && (exists|i: int|
                0 <= i < self.source_rows@.len() && self.source_manifest_lengths@[i] != row_manifest_bytes(
                    #[trigger] self.source_rows@[i],
                )) ==> r == Err::<(usize, usize, usize, usize, usize), PersistentParametricEliminationError>(
                row_manifest_mismatch(),
            ),
    {
        let ghost admissible = rows_admissible(*self, *context);
        let ghost shape_ok = rows_shape_admissible(*self, *context);
        assert(self.source_rows@.len() > self.limits.max_retained_source_rows || self.source_rows@.len()
            > self.limits.elimination.max_source_rows ==> !shape_ok) by {
            reveal(rows_shape_admissible);
        }
        check_limit("persistent retained source rows", self.source_rows.len(), self.limits.max_retained_source_rows)?;
        check_limit(
            "persistent retained source rows",
            self.source_rows.len(),
            self.limits.elimination.max_source_rows,
        )?;
        let ghost rows = self.source_rows@;
        let mut slots: usize = 0;
        let mut manifest: usize = 0;
        let mut guards: usize = 0;
        let mut origins: usize = 0;
        let mut columns: Vec<Vec<i64>> = Vec::new();
        let mut row_index: usize = 0;
        assert(rows.take(0) =~= Seq::<ParametricRelation>::empty());
        assert(rows.take(rows.len() as int) =~= rows);
        while row_index < self.source_rows.len()
            invariant
                rows == self.source_rows@,
                admissible == rows_admissible(*self, *context),
                shape_ok == rows_shape_admissible(*self, *context),
                rows.take(rows.len() as int) == rows,
                rows.len() <= self.limits.max_retained_source_rows,
                rows.len() <= self.limits.elimination.max_source_rows,
                forall|i: int| 0 <= i < row_index ==> #[trigger] row_admitted(*self, *context, i),
                slots <= self.limits.max_retained_source_terms,
                slots <= self.limits.elimination.max_input_terms,
                guards <= self.limits.elimination.max_input_guards,
                origins <= self.limits.elimination.max_input_guard_origins,
                manifest <= self.limits.max_retained_source_manifest_bytes,
                self.source_manifest_lengths@.len() == rows.len(),
                row_index <= rows.len(),
                slots == row_sum(rows.take(row_index as int), slots_of()),
                manifest == row_sum(rows.take(row_index as int), manifest_of()),
                guards == row_sum(rows.take(row_index as int), guards_of()),
                origins == row_sum(rows.take(row_index as int), origins_of()),
                shifts_view(columns@) == add_row_shifts(Seq::empty(), rows.take(row_index as int)),
                forall|i: int| 0 <= i < row_index ==> {
                    &&& (#[trigger] rows[i]).family_fingerprint@ == self.family_fingerprint@
                    &&& rows[i].context_fingerprint@ == self.context_fingerprint@
                    &&& rows[i].arity == context.index_count
                    &&& self.source_manifest_lengths@[i] == row_manifest_bytes(rows[i])
                },
            decreases rows.len() - row_index,
        {
            let row = &self.source_rows[row_index];
            proof {
                lemma_row_sum_take(rows, row_index as int, slots_of());
                lemma_row_sum_take(rows, row_index as int, guards_of());
                lemma_row_sum_take(rows, row_index as int, origins_of());
                lemma_row_sum_take(rows, row_index as int, manifest_of());
                lemma_add_row_shifts_take(Seq::empty(), rows, row_index as int);
                lemma_row_sum_mono(rows, slots_of(), row_index + 1, rows.len() as int);
                lemma_row_sum_mono(rows, guards_of(), row_index + 1, rows.len() as int);
                lemma_row_sum_mono(rows, origins_of(), row_index + 1, rows.len() as int);
                lemma_row_sum_mono(rows, manifest_of(), row_index + 1, rows.len() as int);
                assert(shape_ok ==> row_shape_admitted(*self, *context, row_index as int) && row_sum(
                    rows,
                    slots_of(),
                ) <= self.limits.max_retained_source_terms && row_sum(rows, slots_of())
                    <= self.limits.elimination.max_input_terms && row_sum(rows, guards_of())
                    <= self.limits.elimination.max_input_guards && row_sum(rows, origins_of())
                    <= self.limits.elimination.max_input_guard_origins && row_sum(rows, manifest_of())
                    <= self.limits.max_retained_source_manifest_bytes) by {
                    if shape_ok {
                        reveal(rows_shape_admissible);
                    }
                }
            }
            if row.family_fingerprint != self.family_fingerprint || row.context_fingerprint != self.context_fingerprint
                || row.arity != context.index_count {
                return Err(
                    PersistentParametricEliminationError::ReplayMismatch {
                        detail: "persistent source-row scope differs at a source row",
                    },
                );
            }
            slots = checked_add(slots, row.terms.len(), "persistent retained source integral slots")?;
            check_limit("persistent retained source integral slots", slots, self.limits.max_retained_source_terms)?;
            check_limit("persistent input relation integral slots", slots, self.limits.elimination.max_input_terms)?;
            self.audit_row_columns(row_index, row, &mut columns, Ghost(add_row_shifts(Seq::empty(), rows.take(row_index as int))))?;
            let row_guards = self.audit_row_guards(row_index, row, guards, origins)?;
            guards = row_guards.0;
            origins = row_guards.1;
            let remaining = match self.limits.max_retained_source_manifest_bytes.checked_sub(manifest) {
                Some(remaining) => remaining,
                None => {
                    return Err(
                        PersistentParametricEliminationError::ResourceLimit {
                            resource: "persistent retained source manifest bytes",
                            requested: manifest,
                            limit: self.limits.max_retained_source_manifest_bytes,
                        },
                    );
                },
            };
            let actual_manifest_bytes = match row.stable_manifest_with_limit(remaining) {
                Ok(text) => text.len(),
                Err(error) => {
                    return Err(PersistentParametricEliminationError::Relation(error));
                },
            };
            if actual_manifest_bytes != self.source_manifest_lengths[row_index] {
                return Err(
                    PersistentParametricEliminationError::ReplayMismatch {
                        detail: "persistent row-manifest length differs at a source row",
                    },
                );
            }
            manifest = checked_add(manifest, actual_manifest_bytes, "persistent retained source manifest bytes")?;
            row_index = row_index + 1;
        }
        check_limit(
            "persistent retained source manifest bytes",
            manifest,
            self.limits.max_retained_source_manifest_bytes,
        )?;
        assert(admissible) by {
            reveal(rows_shape_admissible);
            assert forall|i: int| 0 <= i < rows.len() implies self.source_manifest_lengths@[i] == row_manifest_bytes(
                #[trigger] rows[i],
            ) by {
                assert(row_admitted(*self, *context, i));
            }
            assert forall|i: int| 0 <= i < rows.len() implies #[trigger] row_shape_admitted(*self, *context, i) by {
                assert(row_admitted(*self, *context, i));
            }
        }
        Ok((slots, manifest, guards, origins, columns.len()))
    }

    /// Audits the terms of one row and records its new columns.
    fn audit_row_columns(
        &self,
        row_index: usize,
        row: &ParametricRelation,
        columns: &mut Vec<Vec<i64>>,
        Ghost(seen): Ghost<Seq<Seq<i64>>>,
    ) -> (r: Result<(), PersistentParametricEliminationError>)
        requires
            shifts_view(old(columns)@) == seen,
        ensures
            r is Ok ==> shifts_view(final(columns)@) == add_term_shifts(seen, row.terms@),
            r is Ok <==> forall|k: int|
                0 <= k < row.terms@.len() ==> #[trigger] term_column_admissible(
                    seen,
                    row.terms@,
                    k,
                    self.limits.elimination.max_columns,
                    self.ordering.anchor@.len(),
                ),
    {
        let terms = &row.terms;
        let mut term_index: usize = 0;
        assert(terms@.take(0) =~= Seq::<ParametricRelationTerm>::empty());
        while term_index < terms.len()
            invariant
                terms == &row.terms,
                term_index <= terms@.len(),
                shifts_view(columns@) == add_term_shifts(seen, terms@.take(term_index as int)),
                forall|k: int|
                    0 <= k < term_index ==> #[trigger] term_column_admissible(
                        seen,
                        row.terms@,
                        k,
                        self.limits.elimination.max_columns,
                        self.ordering.anchor@.len(),
                    ),
            decreases terms@.len() - term_index,
        {
            let term = &terms[term_index];
            proof {
                lemma_add_term_shifts_take(seen, terms@, term_index as int);
                assert(columns@.len() == shifts_view(columns@).len());
            }
            let ghost admissible = term_column_admissible(
                seen,
                row.terms@,
                term_index as int,
                self.limits.elimination.max_columns,
                self.ordering.anchor@.len(),
            );
            if !term.coefficient_within_limits {
                assert(!admissible);
                return Err(
                    PersistentParametricEliminationError::Elimination(
                        ParametricEliminationError::CoefficientOutOfLimits { row: row_index },
                    ),
                );
            }
            if !column_known(columns, &term.shift) {
                assert(columns@.len() + 1 > self.limits.elimination.max_columns ==> !admissible);
                let requested = checked_add(columns.len(), 1, "persistent input relation columns")?;
                check_limit("persistent input relation columns", requested, self.limits.elimination.max_columns)?;
                if term.shift.len() != self.ordering.anchor.len() {
                    assert(!admissible);
                    return Err(
                        PersistentParametricEliminationError::Elimination(
                            ParametricEliminationError::ColumnArityMismatch { row: row_index },
                        ),
                    );
                }
                let ghost before = columns@;
                columns.push(copy_shift(&term.shift));
                assert(shifts_view(columns@) =~= shifts_view(before).push(term.shift@));
            }
            term_index = term_index + 1;
        }
        assert(terms@.take(terms@.len() as int) =~= terms@);
        Ok(())
    }

    /// Audits the guards of one row; returns the guard and origin totals
    /// with this row added.
    fn audit_row_guards(&self, row_index: usize, row: &ParametricRelation, guards: usize, origins: usize) -> (r: Result<
        (usize, usize),
        PersistentParametricEliminationError,
    >)
        ensures
            r matches Ok((g, o)) ==> g == guards + row_guards(*row) && o == origins + row_guard_origins(*row),
            r is Ok <==> row.guarded_nonzero_conditions@.len() == 0 || ((forall|k: int|
                0 <= k < row.guarded_nonzero_conditions@.len() ==> guard_admissible(
                    #[trigger] row.guarded_nonzero_conditions@[k],
                    self.limits,
                )) && guards + row_guards(*row) <= self.limits.elimination.max_input_guards && origins
                + row_guard_origins(*row) <= self.limits.elimination.max_input_guard_origins),
    {
        let conditions = &row.guarded_nonzero_conditions;
        let mut total_guards = guards;
        let mut total_origins = origins;
        let mut index: usize = 0;
        assert(conditions@.take(0) =~= Seq::<ParametricNonzeroGuard>::empty());
        assert(conditions@.take(conditions@.len() as int) =~= conditions@);
        while index < conditions.len()
            invariant
                conditions == &row.guarded_nonzero_conditions,
                index <= conditions@.len(),
                total_guards == guards + index,
                total_origins == origins + guard_origin_sum(conditions@.take(index as int)),
                conditions@.take(conditions@.len() as int) == conditions@,
                forall|k: int| 0 <= k < index ==> guard_admissible(#[trigger] conditions@[k], self.limits),
                index > 0 ==> total_guards <= self.limits.elimination.max_input_guards && total_origins
                    <= self.limits.elimination.max_input_guard_origins,
            decreases conditions@.len() - index,
        {
            let condition = &conditions[index];
            proof {
                lemma_guard_origin_sum_take(conditions@, index as int);
                lemma_guard_origin_sum_mono(conditions@, index + 1, conditions@.len() as int);
            }
            if !condition.declared_in_context || condition.polynomial_is_zero || condition.origins.len() == 0 {
                return Err(
                    PersistentParametricEliminationError::Elimination(
                        ParametricEliminationError::InvalidSourceGuard { row: row_index, condition: index },
                    ),
                );
            }
            if !condition.polynomial_within_limits {
                return Err(
                    PersistentParametricEliminationError::Elimination(
                        ParametricEliminationError::GuardPolynomialOutOfLimits { row: row_index, condition: index },
                    ),
                );
            }
            check_limit(
                "persistent origins in one input relation guard",
                condition.origins.len(),
                self.limits.elimination.max_guard_origins,
            )?;
            total_guards = checked_add(total_guards, 1, "persistent input relation guards")?;
            check_limit("persistent input relation guards", total_guards, self.limits.elimination.max_input_guards)?;
            total_origins = checked_add(
                total_origins,
                condition.origins.len(),
                "persistent input relation guard origins",
            )?;
            check_limit(
                "persistent input relation guard origins",
                total_origins,
                self.limits.elimination.max_input_guard_origins,
            )?;
            index = index + 1;
        }
        assert(conditions@.take(conditions@.len() as int) =~= conditions@);
        Ok((total_guards, total_origins))
    }

    /// Audits the batch table; returns the actual label bytes.
    #[verifier::rlimit(100)]
    #[verifier::spinoff_prover]
    fn audit_batches(&self) -> (r: Result<usize, PersistentParametricEliminationError>)
        requires
            self.source_manifest_lengths@.len() == self.source_rows@.len(),
        ensures
            r matches Ok(labels) ==> batches_contiguous(self.batches@, self.source_rows@.len()) && labels == label_sum(
                self.batches@,
            ),
            r is Ok <==> batches_admissible(self.batches@, self.source_rows@, self.source_manifest_lengths@, self.limits),
            (exists|i: int|
                0 <= i < self.batches@.len() && #[trigger] batch_misplaced(
                    self.batches@,
                    i,
                    self.source_rows@,
                    self.source_manifest_lengths@,
                    self.limits,
                )) ==> r == Err::<usize, PersistentParametricEliminationError>(noncontiguous_ranges()),
    {
        let ghost admissible = batches_admissible(self.batches@, self.source_rows@, self.source_manifest_lengths@, self.limits);
        let ghost bad = exists|i: int|
            0 <= i < self.batches@.len() && #[trigger] batch_misplaced(
                self.batches@,
                i,
                self.source_rows@,
                self.source_manifest_lengths@,
                self.limits,
            );
        let ghost w: int = choose|i: int|
            0 <= i < self.batches@.len() && #[trigger] batch_misplaced(
                self.batches@,
                i,
                self.source_rows@,
                self.source_manifest_lengths@,
                self.limits,
            );
        let mut expected_first_source_ordinal: usize = 0;
        let mut label_bytes: usize = 0;
        assert(self.batches@.len() > self.limits.max_submitted_batches ==> !admissible) by {
            reveal(batches_admissible);
        }
        assert(self.batches@.len() > self.limits.max_submitted_batches ==> !bad);
        check_limit("persistent submitted batches", self.batches.len(), self.limits.max_submitted_batches)?;
        let mut index: usize = 0;
        let ghost batches = self.batches@;
        proof {
            assert(batches.take(batches.len() as int) =~= batches);
        }
        while index < self.batches.len()
            invariant
                batches == self.batches@,
                bad == exists|i: int|
                    0 <= i < self.batches@.len() && #[trigger] batch_misplaced(
                        self.batches@,
                        i,
                        self.source_rows@,
                        self.source_manifest_lengths@,
                        self.limits,
                    ),
                bad ==> 0 <= w < self.batches@.len() && batch_misplaced(
                    self.batches@,
                    w,
                    self.source_rows@,
                    self.source_manifest_lengths@,
                    self.limits,
                ),
                bad ==> index <= w,
                forall|i: int|
                    0 <= i < index ==> (#[trigger] batches[i]).first_source_ordinal + batches[i].source_row_count
                        <= self.source_rows@.len(),
                admissible == batches_admissible(self.batches@, self.source_rows@, self.source_manifest_lengths@, self.limits),
                batches.take(batches.len() as int) == batches,
                batches.len() <= self.limits.max_submitted_batches,
                label_bytes <= self.limits.max_retained_batch_label_bytes,
                forall|i: int|
                    0 <= i < index ==> batch_fits(
                        #[trigger] batches[i],
                        self.source_rows@,
                        self.source_manifest_lengths@,
                        self.limits,
                    ),
                self.source_manifest_lengths@.len() == self.source_rows@.len(),
                index <= batches.len(),
                label_bytes == label_sum(batches.take(index as int)),
                expected_first_source_ordinal <= self.source_rows@.len(),
                index == 0 ==> expected_first_source_ordinal == 0,
                index > 0 ==> expected_first_source_ordinal == batches[index - 1].first_source_ordinal
                    + batches[index - 1].source_row_count,
                forall|i: int| 0 <= i < index ==> (#[trigger] batches[i]).ordinal == i && batches[i].source_row_count > 0,
                index > 0 ==> batches[0].first_source_ordinal == 0,
                forall|i: int| 0 < i < index ==> (#[trigger] batches[i]).first_source_ordinal
                    == batches[i - 1].first_source_ordinal + batches[i - 1].source_row_count,
            decreases batches.len() - index,
        {
            let batch = &self.batches[index];
            let rows_len: usize = self.source_rows.len();
            let ghost rows = self.source_rows@;
            let ghost lengths = self.source_manifest_lengths@;
            proof {
                assert(batches.take(index as int + 1).drop_last() =~= batches.take(index as int));
                lemma_label_sum_mono(batches, index + 1, batches.len() as int);
                assert(*batch == batches[index as int]);
                assert(bad && w == index ==> batch.ordinal == index && batch.first_source_ordinal
                    != expected_first_source_ordinal);
                assert(bad && w > index ==> batch_audited(batches, index as int, rows, lengths, self.limits)
                    && label_bytes + byte_len(batch.label@) <= self.limits.max_retained_batch_label_bytes) by {
                    if bad && w > index {
                        assert(batch_audited(batches, index as int, rows, lengths, self.limits));
                        lemma_label_sum_mono(batches, index + 1, w);
                    }
                }
                assert(admissible || (bad && w > index) ==> {
                    &&& batch_fits(batches[index as int], rows, lengths, self.limits)
                    &&& batch.ordinal == index
                    &&& batch.source_row_count > 0
                    &&& batch.first_source_ordinal == expected_first_source_ordinal
                    &&& batch.first_source_ordinal + batch.source_row_count <= rows.len()
                    &&& label_bytes + byte_len(batch.label@) <= self.limits.max_retained_batch_label_bytes
                }) by {
                    if !admissible && bad && w > index {
                        assert(batch_audited(batches, index as int, rows, lengths, self.limits));
                    }
                    if admissible {
                        reveal(batches_admissible);
                        if index > 0 {
                            assert(batches[index as int].first_source_ordinal == batches[index - 1].first_source_ordinal
                                + batches[index - 1].source_row_count);
                        }
                        lemma_batch_end_below_last(batches, rows.len(), index as int);
                    }
                }
            }
            if batch.ordinal != index {
                return Err(
                    PersistentParametricEliminationError::ReplayMismatch {
                        detail: "persistent batch ordinals are not contiguous",
                    },
                );
            }
            if batch.first_source_ordinal != expected_first_source_ordinal {
                return Err(
                    PersistentParametricEliminationError::ReplayMismatch {
                        detail: "persistent batch source ranges are not contiguous",
                    },
                );
            }
            assert(bad ==> w > index);
            if batch.source_row_count == 0 {
                return Err(
                    PersistentParametricEliminationError::ReplayMismatch {
                        detail: "persistent certificate contains an empty batch",
                    },
                );
            }
            check_limit("persistent rows in one submitted batch", batch.source_row_count, self.limits.max_rows_per_batch)?;
            check_limit(
                "persistent replay batch clone rows",
                batch.source_row_count,
                self.limits.max_replay_batch_clone_rows,
            )?;
            let label_len = batch.label.as_str().len();
            check_limit("persistent batch label bytes", label_len, self.limits.max_batch_label_bytes)?;
            label_bytes = checked_add(label_bytes, label_len, "persistent retained batch label bytes")?;
            check_limit(
                "persistent retained batch label bytes",
                label_bytes,
                self.limits.max_retained_batch_label_bytes,
            )?;
            let range_end = match batch.first_source_ordinal.checked_add(batch.source_row_count) {
                Some(end) => end,
                None => {
                    return Err(
                        PersistentParametricEliminationError::ReplayMismatch {
                            detail: "persistent batch source range overflows usize",
                        },
                    );
                },
            };
            if range_end > rows_len {
                return Err(
                    PersistentParametricEliminationError::ReplayMismatch {
                        detail: "persistent batch exceeds retained source rows",
                    },
                );
            }
            let mut clone_slots: usize = 0;
            let mut clone_manifest_bytes: usize = 0;
            let mut k = batch.first_source_ordinal;
            let ghost first: int = batch.first_source_ordinal as int;
            proof {
                lemma_range_sums_mono(self.source_rows@, self.source_manifest_lengths@, first, first, range_end as int);
            }
            while k < range_end
                invariant
                    range_end <= self.source_rows@.len(),
                    self.source_manifest_lengths@.len() == self.source_rows@.len(),
                    first <= k <= range_end,
                    clone_slots == range_slots(self.source_rows@, first, k as int),
                    clone_manifest_bytes == range_manifest(self.source_manifest_lengths@, first, k as int),
                    range_slots(self.source_rows@, first, range_end as int) >= range_slots(self.source_rows@, first, k as int),
                    range_manifest(self.source_manifest_lengths@, first, range_end as int) >= range_manifest(
                        self.source_manifest_lengths@,
                        first,
                        k as int,
                    ),
                    admissible == batches_admissible(
                        self.batches@,
                        self.source_rows@,
                        self.source_manifest_lengths@,
                        self.limits,
                    ),
                    index < self.batches@.len(),
                    batch == &self.batches@[index as int],
                    bad == exists|i: int|
                        0 <= i < self.batches@.len() && #[trigger] batch_misplaced(
                            self.batches@,
                            i,
                            self.source_rows@,
                            self.source_manifest_lengths@,
                            self.limits,
                        ),
                    bad ==> 0 <= w < self.batches@.len() && batch_misplaced(
                        self.batches@,
                        w,
                        self.source_rows@,
                        self.source_manifest_lengths@,
                        self.limits,
                    ),
                    bad ==> w > index,
                    (admissible || bad) ==> batch_fits(
                        self.batches@[index as int],
                        self.source_rows@,
                        self.source_manifest_lengths@,
                        self.limits,
                    ),
                    first == batch.first_source_ordinal,
                    range_end == batch.first_source_ordinal + batch.source_row_count,
                decreases range_end - k,
            {
                proof {
                    lemma_range_sums_mono(self.source_rows@, self.source_manifest_lengths@, first, k + 1, range_end as int);
                }
                clone_slots = checked_add(
                    clone_slots,
                    self.source_rows[k].terms.len(),
                    "persistent replay batch clone integral slots",
                )?;
                clone_manifest_bytes = checked_add(
                    clone_manifest_bytes,
                    self.source_manifest_lengths[k],
                    "persistent replay batch clone manifest bytes",
                )?;
                k = k + 1;
            }
            assert(admissible || bad ==> clone_slots <= self.limits.max_replay_batch_clone_integral_slots
                && clone_manifest_bytes <= self.limits.max_replay_batch_clone_manifest_bytes);
            check_limit(
                "persistent replay batch clone integral slots",
                clone_slots,
                self.limits.max_replay_batch_clone_integral_slots,
            )?;
            check_limit(
                "persistent replay batch clone manifest bytes",
                clone_manifest_bytes,
                self.limits.max_replay_batch_clone_manifest_bytes,
            )?;
            expected_first_source_ordinal = range_end;
            index = index + 1;
        }
        assert(index == batches.len());
        assert(expected_first_source_ordinal != self.source_rows@.len() ==> !admissible) by {
            reveal(batches_admissible);
        }
        if expected_first_source_ordinal != self.source_rows.len() {
            return Err(
                PersistentParametricEliminationError::ReplayMismatch {
                    detail: "persistent batches do not cover every retained source row",
                },
            );
        }
        assert(batches.take(batches.len() as int) =~= batches);
        assert(admissible) by {
            reveal(batches_admissible);
        }
        Ok(label_bytes)
    }

    /// Audits the event transcript; returns the dependent and pivot counts.
    fn audit_events(&self) -> (r: Result<(usize, usize), PersistentParametricEliminationError>)
        ensures
            r matches Ok((dependent, pivot)) ==> dependent + pivot == self.events@.len() && forall|i: int|
                0 <= i < self.events@.len() ==> event_located(#[trigger] self.events@[i], i, self.batches@),
            r matches Ok((dependent, pivot)) ==> pivot == pivot_events(self.events@),
            r is Ok <==> forall|i: int| 0 <= i < self.events@.len() ==> event_audited(self.events@, i, self.batches@),
    {
        let mut dependent: usize = 0;
        let mut pivot: usize = 0;
        let mut index: usize = 0;
        while index < self.events.len()
            invariant
                index <= self.events@.len(),
                dependent + pivot == index,
                pivot == pivot_events(self.events@.take(index as int)),
                forall|i: int| 0 <= i < index ==> event_located(#[trigger] self.events@[i], i, self.batches@),
                forall|i: int| 0 <= i < index ==> event_audited(self.events@, i, self.batches@),
            decreases self.events@.len() - index,
        {
            proof {
                assert(self.events@.take(index + 1).drop_last() =~= self.events@.take(index as int));
            }
            let event = self.events[index];
            if event.batch_ordinal >= self.batches.len() {
                assert(!event_audited(self.events@, index as int, self.batches@));
                return Err(
                    PersistentParametricEliminationError::ReplayMismatch {
                        detail: "persistent event refers to an absent batch",
                    },
                );
            }
            let batch = &self.batches[event.batch_ordinal];
            let range = match batch.try_source_range() {
                Ok(range) => range,
                Err(error) => {
                    assert(!event_audited(self.events@, index as int, self.batches@));
                    return Err(error);
                },
            };
            if event.event_ordinal != index || event.source_ordinal != index || !(range.start <= event.source_ordinal
                && event.source_ordinal < range.end) || event.within_batch_ordinal != event.source_ordinal
                - batch.first_source_ordinal {
                assert(!event_audited(self.events@, index as int, self.batches@));
                return Err(
                    PersistentParametricEliminationError::ReplayMismatch {
                        detail: "persistent event cursor or batch locator is inconsistent",
                    },
                );
            }
            match event.outcome {
                PersistentParametricEliminationRowOutcome::Dependent => {
                    dependent = dependent + 1;
                },
                PersistentParametricEliminationRowOutcome::Pivot { pivot_ordinal } => {
                    if pivot_ordinal != pivot {
                        assert(!event_audited(self.events@, index as int, self.batches@));
                        return Err(
                            PersistentParametricEliminationError::ReplayMismatch {
                                detail: "persistent pivot-event ordinals are not contiguous",
                            },
                        );
                    }
                    pivot = pivot + 1;
                },
            }
            index = index + 1;
        }
        assert(self.events@.take(self.events@.len() as int) =~= self.events@);
        Ok((dependent, pivot))
    }
}


fn term_eq(a: &ParametricRelationTerm, b: &ParametricRelationTerm) -> (r: bool)
    ensures
        r == (a.shift@ == b.shift@ && a.coefficient_within_limits == b.coefficient_within_limits),
{
    a.coefficient_within_limits == b.coefficient_within_limits && i64_seq_eq(&a.shift, &b.shift)
}

fn guard_eq(a: &ParametricNonzeroGuard, b: &ParametricNonzeroGuard) -> (r: bool)
    ensures
        r == (a.declared_in_context == b.declared_in_context && a.polynomial_is_zero == b.polynomial_is_zero
            && a.polynomial_within_limits == b.polynomial_within_limits && a.origins@ == b.origins@),
{
    a.declared_in_context == b.declared_in_context && a.polynomial_is_zero == b.polynomial_is_zero
        && a.polynomial_within_limits == b.polynomial_within_limits && crate::parametric_elimination::usize_seq_eq(
        &a.origins,
        &b.origins,
    )
}

/// Two relation terms with the same shift and coefficient admission.
pub open spec fn term_same(a: ParametricRelationTerm, b: ParametricRelationTerm) -> bool {
    a.shift@ == b.shift@ && a.coefficient_within_limits == b.coefficient_within_limits
}

/// Two guards with the same flags and origins.
pub open spec fn guard_same(a: ParametricNonzeroGuard, b: ParametricNonzeroGuard) -> bool {
    a.declared_in_context == b.declared_in_context && a.polynomial_is_zero == b.polynomial_is_zero
        && a.polynomial_within_limits == b.polynomial_within_limits && a.origins@ == b.origins@
}

/// Two relations carrying the same payload.
pub open spec fn relation_same(a: ParametricRelation, b: ParametricRelation) -> bool {
    &&& a.family_fingerprint@ == b.family_fingerprint@
    &&& a.context_fingerprint@ == b.context_fingerprint@
    &&& a.arity == b.arity
    &&& a.stable_manifest@ == b.stable_manifest@
    &&& a.terms@.len() == b.terms@.len()
    &&& forall|i: int| 0 <= i < a.terms@.len() ==> term_same(#[trigger] a.terms@[i], b.terms@[i])
    &&& a.guarded_nonzero_conditions@.len() == b.guarded_nonzero_conditions@.len()
    &&& forall|j: int|
        0 <= j < a.guarded_nonzero_conditions@.len() ==> guard_same(
            #[trigger] a.guarded_nonzero_conditions@[j],
            b.guarded_nonzero_conditions@[j],
        )
}

proof fn lemma_guard_origin_sum_same(a: Seq<ParametricNonzeroGuard>, b: Seq<ParametricNonzeroGuard>)
    requires
        a.len() == b.len(),
        forall|i: int| 0 <= i < a.len() ==> guard_same(#[trigger] a[i], b[i]),
    ensures
        guard_origin_sum(a) == guard_origin_sum(b),
    decreases a.len(),
{
    if a.len() > 0 {
        assert(guard_same(a[a.len() - 1], b[b.len() - 1]));
        lemma_guard_origin_sum_same(a.drop_last(), b.drop_last());
    }
}

proof fn lemma_add_term_shifts_same(columns: Seq<Seq<i64>>, a: Seq<ParametricRelationTerm>, b: Seq<ParametricRelationTerm>)
    requires
        a.len() == b.len(),
        forall|i: int| 0 <= i < a.len() ==> term_same(#[trigger] a[i], b[i]),
    ensures
        add_term_shifts(columns, a) == add_term_shifts(columns, b),
    decreases a.len(),
{
    if a.len() > 0 {
        assert(term_same(a[a.len() - 1], b[b.len() - 1]));
        lemma_add_term_shifts_same(columns, a.drop_last(), b.drop_last());
    }
}

/// Rows that carry the same payloads have the same totals and columns.
proof fn lemma_rows_same(columns: Seq<Seq<i64>>, a: Seq<ParametricRelation>, b: Seq<ParametricRelation>)
    requires
        a.len() == b.len(),
        forall|i: int| 0 <= i < a.len() ==> relation_same(#[trigger] a[i], b[i]),
    ensures
        row_sum(a, slots_of()) == row_sum(b, slots_of()),
        row_sum(a, guards_of()) == row_sum(b, guards_of()),
        row_sum(a, origins_of()) == row_sum(b, origins_of()),
        row_sum(a, manifest_of()) == row_sum(b, manifest_of()),
        row_sum(a, component_of()) == row_sum(b, component_of()),
        add_row_shifts(columns, a) == add_row_shifts(columns, b),
    decreases a.len(),
{
    if a.len() > 0 {
        let x = a[a.len() - 1];
        let y = b[b.len() - 1];
        assert(relation_same(x, y));
        assert(a.drop_last().len() == b.drop_last().len());
        assert forall|i: int| 0 <= i < a.drop_last().len() implies relation_same(#[trigger] a.drop_last()[i], b.drop_last()[i]) by {
            assert(relation_same(a[i], b[i]));
        }
        lemma_rows_same(columns, a.drop_last(), b.drop_last());
        lemma_guard_origin_sum_same(x.guarded_nonzero_conditions@, y.guarded_nonzero_conditions@);
        lemma_add_term_shifts_same(add_row_shifts(columns, a.drop_last()), x.terms@, y.terms@);
    }
}

/// A copy of `v`.
fn i64_vec_copy(v: &Vec<i64>) -> (c: Vec<i64>)
    ensures
        c@ == v@,
{
    let mut c: Vec<i64> = Vec::new();
    let mut i: usize = 0;
    while i < v.len()
        invariant
            i <= v@.len(),
            c@ == v@.take(i as int),
        decreases v@.len() - i,
    {
        c.push(v[i]);
        i = i + 1;
        proof {
            assert(c@ =~= v@.take(i as int));
        }
    }
    proof {
        assert(v@.take(v@.len() as int) =~= v@);
    }
    c
}

/// A copy of `v`.
fn usize_vec_copy(v: &Vec<usize>) -> (c: Vec<usize>)
    ensures
        c@ == v@,
{
    let mut c: Vec<usize> = Vec::new();
    let mut i: usize = 0;
    while i < v.len()
        invariant
            i <= v@.len(),
            c@ == v@.take(i as int),
        decreases v@.len() - i,
    {
        c.push(v[i]);
        i = i + 1;
        proof {
            assert(c@ =~= v@.take(i as int));
        }
    }
    proof {
        assert(v@.take(v@.len() as int) =~= v@);
    }
    c
}

/// A copy of `r` carrying the same payload.
fn relation_copy(r: &ParametricRelation) -> (c: ParametricRelation)
    ensures
        relation_same(c, *r),
{
    let mut terms: Vec<ParametricRelationTerm> = Vec::new();
    let mut i: usize = 0;
    while i < r.terms.len()
        invariant
            i <= r.terms@.len(),
            terms@.len() == i,
            forall|k: int| 0 <= k < i ==> term_same(#[trigger] terms@[k], r.terms@[k]),
        decreases r.terms@.len() - i,
    {
        let term = &r.terms[i];
        terms.push(ParametricRelationTerm {
            shift: i64_vec_copy(&term.shift),
            coefficient_within_limits: term.coefficient_within_limits,
        });
        i = i + 1;
    }
    let mut guards: Vec<ParametricNonzeroGuard> = Vec::new();
    let mut j: usize = 0;
    while j < r.guarded_nonzero_conditions.len()
        invariant
            j <= r.guarded_nonzero_conditions@.len(),
            guards@.len() == j,
            forall|k: int| 0 <= k < j ==> guard_same(#[trigger] guards@[k], r.guarded_nonzero_conditions@[k]),
        decreases r.guarded_nonzero_conditions@.len() - j,
    {
        let guard = &r.guarded_nonzero_conditions[j];
        guards.push(ParametricNonzeroGuard {
            declared_in_context: guard.declared_in_context,
            polynomial_is_zero: guard.polynomial_is_zero,
            polynomial_within_limits: guard.polynomial_within_limits,
            origins: usize_vec_copy(&guard.origins),
        });
        j = j + 1;
    }
    ParametricRelation {
        family_fingerprint: r.family_fingerprint.clone(),
        context_fingerprint: r.context_fingerprint.clone(),
        arity: r.arity,
        terms,
        guarded_nonzero_conditions: guards,
        stable_manifest: r.stable_manifest.clone(),
    }
}

/// Two optional eliminations carrying the same payload.
pub open spec fn elimination_same(a: Option<ParametricElimination>, b: Option<ParametricElimination>) -> bool {
    match a {
        Some(x) => match b {
            Some(y) => {
                &&& x.source_manifest@ == y.source_manifest@
                &&& x.stats == y.stats
                &&& x.pivots@.len() == y.pivots@.len()
                &&& forall|i: int| 0 <= i < x.pivots@.len() ==> pivot_same(#[trigger] x.pivots@[i], y.pivots@[i])
            },
            None => false,
        },
        None => b is None,
    }
}

/// Two batches with the same ordinal, label and source range.
pub open spec fn batch_same(a: PersistentParametricEliminationBatch, b: PersistentParametricEliminationBatch) -> bool {
    a.ordinal == b.ordinal && a.label@ == b.label@ && a.first_source_ordinal == b.first_source_ordinal
        && a.source_row_count == b.source_row_count
}

/// Two certificates carrying the same payload.
pub open spec fn certificate_same(
    a: PersistentParametricEliminationCertificate,
    b: PersistentParametricEliminationCertificate,
) -> bool {
    &&& a.schema@ == b.schema@
    &&& a.family_fingerprint@ == b.family_fingerprint@
    &&& a.context_fingerprint@ == b.context_fingerprint@
    &&& a.ordering.anchor@ == b.ordering.anchor@
    &&& a.limits == b.limits
    &&& a.source_manifest_lengths@ == b.source_manifest_lengths@
    &&& a.stats == b.stats
    &&& a.interrupted == b.interrupted
    &&& elimination_same(a.elimination, b.elimination)
    &&& a.source_rows@.len() == b.source_rows@.len()
    &&& forall|i: int| 0 <= i < a.source_rows@.len() ==> relation_same(#[trigger] a.source_rows@[i], b.source_rows@[i])
    &&& a.batches@.len() == b.batches@.len()
    &&& forall|i: int| 0 <= i < a.batches@.len() ==> batch_same(#[trigger] a.batches@[i], b.batches@[i])
    &&& a.events@ == b.events@
}

/// The two relations carry the same payload.
fn relation_eq(a: &ParametricRelation, b: &ParametricRelation) -> (r: bool)
    ensures
        r == relation_same(*a, *b),
{
    if a.family_fingerprint != b.family_fingerprint || a.context_fingerprint != b.context_fingerprint || a.arity
        != b.arity || a.stable_manifest != b.stable_manifest || a.terms.len() != b.terms.len()
        || a.guarded_nonzero_conditions.len() != b.guarded_nonzero_conditions.len() {
        return false;
    }
    let mut i: usize = 0;
    while i < a.terms.len()
        invariant
            a.terms@.len() == b.terms@.len(),
            i <= a.terms@.len(),
            forall|k: int| 0 <= k < i ==> term_same(#[trigger] a.terms@[k], b.terms@[k]),
        decreases a.terms@.len() - i,
    {
        if !term_eq(&a.terms[i], &b.terms[i]) {
            return false;
        }
        i = i + 1;
    }
    let mut j: usize = 0;
    while j < a.guarded_nonzero_conditions.len()
        invariant
            a.guarded_nonzero_conditions@.len() == b.guarded_nonzero_conditions@.len(),
            j <= a.guarded_nonzero_conditions@.len(),
            forall|k: int| 0 <= k < a.terms@.len() ==> term_same(#[trigger] a.terms@[k], b.terms@[k]),
            forall|k: int|
                0 <= k < j ==> guard_same(#[trigger] a.guarded_nonzero_conditions@[k], b.guarded_nonzero_conditions@[k]),
        decreases a.guarded_nonzero_conditions@.len() - j,
    {
        if !guard_eq(&a.guarded_nonzero_conditions[j], &b.guarded_nonzero_conditions[j]) {
            return false;
        }
        j = j + 1;
    }
    true
}

fn pivots_eq(a: &Vec<ParametricPivotEquation>, b: &Vec<ParametricPivotEquation>) -> (r: bool)
    ensures
        r == (a@.len() == b@.len() && forall|i: int| 0 <= i < a@.len() ==> pivot_same(#[trigger] a@[i], b@[i])),
        r == (a@.len() == b@.len() && forall|i: int|
            0 <= i < a@.len() ==> (#[trigger] a@[i]).ordinal == b@[i].ordinal && a@[i].pivot@ == b@[i].pivot@ && a@[i].trace@
                == b@[i].trace@),
{
    if a.len() != b.len() {
        return false;
    }
    let mut i: usize = 0;
    while i < a.len()
        invariant
            a@.len() == b@.len(),
            i <= a@.len(),
            forall|k: int| 0 <= k < i ==> pivot_same(#[trigger] a@[k], b@[k]),
            forall|k: int|
                0 <= k < i ==> (#[trigger] a@[k]).ordinal == b@[k].ordinal && a@[k].pivot@ == b@[k].pivot@ && a@[k].trace@
                    == b@[k].trace@,
        decreases a@.len() - i,
    {
        if !a[i].same_pivot(&b[i]) {
            return false;
        }
        i = i + 1;
    }
    true
}

fn elimination_eq(a: &Option<ParametricElimination>, b: &Option<ParametricElimination>) -> (r: bool)
    ensures
        r == elimination_same(*a, *b),
{
    match (a, b) {
        (Some(x), Some(y)) => x.source_manifest == y.source_manifest && x.stats == y.stats && pivots_eq(&x.pivots, &y.pivots),
        (None, None) => true,
        _ => false,
    }
}

impl PersistentParametricEliminationCertificate {
    /// Replays the certificate against `context`, rebuilding every consumed
    /// prefix with `builder`.  Every retained field is audited before the
    /// replay allocates its own copy of the rows.
    pub fn replay<B: ParametricEliminationBuilder>(&self, context: &ParametricCoefficientContext, builder: &B) -> (r:
        Result<(), PersistentParametricEliminationError>)
        ensures
            !(self.schema@ == PERSISTENT_PARAMETRIC_ELIMINATION_REFERENCE_V1_SCHEMA@ && self.context_fingerprint@
                == context.fingerprint@ && !self.interrupted) ==> r == Err::<(), PersistentParametricEliminationError>(
                scope_mismatch(),
            ),
            self.schema@ == PERSISTENT_PARAMETRIC_ELIMINATION_REFERENCE_V1_SCHEMA@ && self.context_fingerprint@
                == context.fingerprint@ && !self.interrupted && self.source_manifest_lengths@.len()
                != self.source_rows@.len() ==> r == Err::<(), PersistentParametricEliminationError>(
                manifest_table_mismatch(),
            ),
            self.schema@ == PERSISTENT_PARAMETRIC_ELIMINATION_REFERENCE_V1_SCHEMA@ && self.context_fingerprint@
                == context.fingerprint@ && !self.interrupted && self.source_manifest_lengths@.len()
                == self.source_rows@.len() && self.stats.consumed_rows > self.source_rows@.len() ==> r == Err::<
                (),
                PersistentParametricEliminationError,
            >(cursor_error()),
            replay_prechecks(*self, *context) && rows_admissible(*self, *context) && batches_admissible(
                self.batches@,
                self.source_rows@,
                self.source_manifest_lengths@,
                self.limits,
            ) && !retained_statistics_match(*self) ==> r == Err::<(), PersistentParametricEliminationError>(
                statistics_mismatch(),
            ),
            replay_prechecks(*self, *context) && rows_shape_admissible(*self, *context) && (exists|i: int|
                0 <= i < self.source_rows@.len() && self.source_manifest_lengths@[i] != row_manifest_bytes(
                    #[trigger] self.source_rows@[i],
                )) ==> r == Err::<(), PersistentParametricEliminationError>(row_manifest_mismatch()),
            replay_prechecks(*self, *context) && rows_admissible(*self, *context) && (exists|i: int|
                0 <= i < self.batches@.len() && #[trigger] batch_misplaced(
                    self.batches@,
                    i,
                    self.source_rows@,
                    self.source_manifest_lengths@,
                    self.limits,
                )) ==> r == Err::<(), PersistentParametricEliminationError>(noncontiguous_ranges()),
            replay_prechecks(*self, *context) && rows_admissible(*self, *context) && batches_admissible(
                self.batches@,
                self.source_rows@,
                self.source_manifest_lengths@,
                self.limits,
            ) && retained_statistics_match(*self) && self.events@.len() != self.stats.consumed_rows ==> r == Err::<
                (),
                PersistentParametricEliminationError,
            >(event_count_mismatch()),
            replay_prechecks(*self, *context) && rows_admissible(*self, *context) && batches_admissible(
                self.batches@,
                self.source_rows@,
                self.source_manifest_lengths@,
                self.limits,
            ) && retained_statistics_match(*self) && self.events@.len() == self.stats.consumed_rows && (forall|i: int|
                0 <= i < self.events@.len() ==> event_audited(self.events@, i, self.batches@))
                && !event_statistics_match(*self) ==> r == Err::<(), PersistentParametricEliminationError>(
                event_statistics_mismatch(),
            ),
            replay_prechecks(*self, *context) && rows_admissible(*self, *context) && batches_admissible(
                self.batches@,
                self.source_rows@,
                self.source_manifest_lengths@,
                self.limits,
            ) && retained_statistics_match(*self) && self.events@.len() == self.stats.consumed_rows && (forall|i: int|
                0 <= i < self.events@.len() ==> event_audited(self.events@, i, self.batches@)) && event_statistics_match(
                *self,
            ) && replay_clone_refusal(*self) is Some ==> r == Err::<(), PersistentParametricEliminationError>(
                replay_clone_refusal(*self)->Some_0,
            ),
            replay_prechecks(*self, *context) && rows_admissible(*self, *context) && batches_admissible(
                self.batches@,
                self.source_rows@,
                self.source_manifest_lengths@,
                self.limits,
            ) && retained_statistics_match(*self) && event_statistics_match(*self) && replay_clone_refusal(*self) is None
                && nothing_consumed_replayable(*self, *context) ==> r is Ok,
            r is Ok ==> self.audited(*context),
            r is Ok ==> event_statistics_match(*self),
            r is Ok ==> replay_clone_refusal(*self) is None,
            r is Ok ==> self.stats.cumulative_prefix_rebuild_rows == rebuild_rows_total(self.stats.consumed_rows as nat),
            r is Ok ==> self.reproduced_over(*context),
    {
        if !text_eq(self.schema, PERSISTENT_PARAMETRIC_ELIMINATION_REFERENCE_V1_SCHEMA) || self.context_fingerprint
            != context.fingerprint || self.interrupted {
            return Err(
                PersistentParametricEliminationError::ReplayMismatch {
                    detail: "persistent certificate scope or completion state differs",
                },
            );
        }
        if self.source_manifest_lengths.len() != self.source_rows.len() {
            return Err(
                PersistentParametricEliminationError::ReplayMismatch {
                    detail: "persistent row-manifest length table differs from retained rows",
                },
            );
        }
        if self.stats.consumed_rows > self.source_rows.len() {
            return Err(
                PersistentParametricEliminationError::ReplayMismatch {
                    detail: "persistent consumed-row cursor exceeds retained rows",
                },
            );
        }
        let (slots, manifest, guards, origins, columns) = self.audit_rows(context)?;
        let label_bytes = self.audit_batches()?;
        if self.stats.submitted_batches != self.batches.len() || self.stats.submitted_rows != self.source_rows.len()
            || self.stats.retained_source_integral_slots != slots || self.stats.retained_source_manifest_bytes
            != manifest || self.stats.retained_batch_label_bytes != label_bytes || self.stats.retained_input_guards
            != guards || self.stats.retained_input_guard_origins != origins || self.stats.retained_input_columns
            != columns {
            return Err(
                PersistentParametricEliminationError::ReplayMismatch {
                    detail: "persistent retained-payload statistics differ from actual rows",
                },
            );
        }
        if self.events.len() != self.stats.consumed_rows {
            return Err(
                PersistentParametricEliminationError::ReplayMismatch {
                    detail: "persistent event count differs from the consumed-row cursor",
                },
            );
        }
        let (dependent, pivot) = self.audit_events()?;
        let pivot_count: usize = match &self.elimination {
            Some(elimination) => elimination.pivots.len(),
            None => 0,
        };
        if self.stats.dependent_rows != dependent || self.stats.pivot_rows != pivot || self.stats.rebuilds
            != self.stats.consumed_rows || pivot_count != pivot || (self.stats.consumed_rows == 0)
            != self.elimination.is_none() {
            return Err(
                PersistentParametricEliminationError::ReplayMismatch {
                    detail: "persistent consumed-event statistics or elimination differ",
                },
            );
        }
        check_limit(
            "persistent replay coexisting source clone rows",
            checked_mul(self.source_rows.len(), 2, "persistent replay coexisting source clone rows")?,
            self.limits.max_replay_source_clone_rows,
        )?;
        check_limit(
            "persistent replay coexisting source clone integral slots",
            checked_mul(slots, 2, "persistent replay coexisting source clone integral slots")?,
            self.limits.max_replay_source_clone_integral_slots,
        )?;
        check_limit(
            "persistent replay coexisting source clone manifest bytes",
            checked_mul(manifest, 2, "persistent replay coexisting source clone manifest bytes")?,
            self.limits.max_replay_source_clone_manifest_bytes,
        )?;
        assert(self.audited(*context));
        self.replay_transcript(context, builder)
    }

    /// Resubmits every batch to a fresh database, consumes the recorded
    /// events and compares the finished payload with this certificate.
    fn replay_transcript<B: ParametricEliminationBuilder>(&self, context: &ParametricCoefficientContext, builder: &B) -> (r:
        Result<(), PersistentParametricEliminationError>)
        ensures
            r is Ok ==> self.schema@ == PERSISTENT_PARAMETRIC_ELIMINATION_REFERENCE_V1_SCHEMA@ && self.context_fingerprint@
                == context.fingerprint@ && !self.interrupted,
            r is Ok ==> self.stats.cumulative_prefix_rebuild_rows == rebuild_rows_total(self.stats.consumed_rows as nat),
            r is Ok ==> self.reproduced_over(*context),
            self.audited(*context) && nothing_consumed_replayable(*self, *context) ==> r is Ok,
    {
        let ghost good = self.audited(*context) && nothing_consumed_replayable(*self, *context);
        let mut replay = PersistentParametricEliminationDatabase::try_new(
            context,
            self.family_fingerprint.as_str(),
            ParametricEliminationOrdering { anchor: i64_vec_copy(&self.ordering.anchor) },
            self.limits,
        )?;
        let certified_elimination_manifest_bytes: usize = match &self.elimination {
            Some(elimination) => elimination.source_manifest.as_str().len(),
            None => 0,
        };
        let mut event_cursor: usize = 0;
        let mut batch_index: usize = 0;
        proof {
            if good {
                if self.batches@.len() == 0 {
                    assert(self.source_rows@.len() == 0);
                }
            }
        }
        while batch_index < self.batches.len()
            invariant
                good == (self.audited(*context) && nothing_consumed_replayable(*self, *context)),
                good ==> replay.spec_family() == self.family_fingerprint@ && replay.spec_limits() == self.limits
                    && replay.spec_ordering().anchor@ == self.ordering.anchor@,
                good ==> event_cursor == 0 && batch_index <= self.batches@.len(),
                good ==> replay.spec_events().len() == 0 && replay.spec_elimination() is None,
                good ==> replay.spec_batches().len() == batch_index,
                good ==> forall|i: int| 0 <= i < batch_index ==> batch_same(#[trigger] replay.spec_batches()[i], self.batches@[i]),
                good && batch_index == 0 ==> replay.spec_rows().len() == 0 && replay.spec_columns() == Seq::<Seq<i64>>::empty()
                    && replay.spec_stats() == PersistentParametricEliminationStats::spec_zero(),
                good && batch_index > 0 ==> replay.spec_rows().len() == self.source_rows@.len() && replay.spec_stats() == self.stats,
                good ==> forall|i: int| 0 <= i < replay.spec_rows().len() ==> relation_same(#[trigger] replay.spec_rows()[i], self.source_rows@[i]),
                replay.wf(),
                replay.spec_context() == *context,
                !replay.spec_interrupted(),
                replay.spec_stats().cumulative_prefix_rebuild_rows == rebuild_rows_total(
                    replay.spec_stats().consumed_rows as nat,
                ),
                event_cursor <= self.events@.len(),
            decreases self.batches@.len() - batch_index,
        {
            let batch = &self.batches[batch_index];
            let range = batch.try_source_range()?;
            if range.end > self.source_rows.len() {
                return Err(
                    PersistentParametricEliminationError::ReplayMismatch {
                        detail: "persistent batch exceeds retained source rows after preflight",
                    },
                );
            }
            let mut rows: Vec<ParametricRelation> = Vec::new();
            let mut k = range.start;
            while k < range.end
                invariant
                    range.end <= self.source_rows@.len(),
                    range.start <= k <= range.end,
                    rows@.len() == k - range.start,
                    forall|j: int| 0 <= j < rows@.len() ==> relation_same(#[trigger] rows@[j], self.source_rows@[range.start + j]),
                decreases range.end - k,
            {
                rows.push(relation_copy(&self.source_rows[k]));
                k = k + 1;
            }
            let ghost replay_before = replay;
            proof {
                if good {
                    assert(batch_index == 0);
                    let srows = self.source_rows@;
                    assert(self.batches@[0].first_source_ordinal == 0);
                    assert(rows@.len() == srows.len());
                    assert forall|j: int| 0 <= j < rows@.len() implies relation_same(#[trigger] rows@[j], srows[j]) by {
                        assert(relation_same(rows@[j], srows[range.start + j]));
                    }
                    lemma_rows_same(Seq::empty(), rows@, srows);
                    assert(replay.spec_rows() + rows@ =~= rows@);
                    assert forall|j: int| 0 <= j < rows@.len() implies row_admissible(
                        #[trigger] rows@[j],
                        replay.spec_family(),
                        replay.spec_context(),
                        replay.spec_limits(),
                        replay.spec_ordering().anchor@.len(),
                    ) by {
                        assert(relation_same(rows@[j], srows[j]));
                        assert(row_admissible(srows[j], self.family_fingerprint@, *context, self.limits, self.ordering.anchor@.len()));
                        assert forall|c: int| 0 <= c < rows@[j].guarded_nonzero_conditions@.len() implies guard_admissible(
                            #[trigger] rows@[j].guarded_nonzero_conditions@[c],
                            self.limits,
                        ) by {
                            assert(guard_same(rows@[j].guarded_nonzero_conditions@[c], srows[j].guarded_nonzero_conditions@[c]));
                        }
                        assert forall|t: int| 0 <= t < rows@[j].terms@.len() implies (#[trigger] rows@[j].terms@[t]).coefficient_within_limits
                            && rows@[j].terms@[t].shift@.len() == self.ordering.anchor@.len() by {
                            assert(term_same(rows@[j].terms@[t], srows[j].terms@[t]));
                        }
                    }
                    assert(replay.submission_admissible(batch.label@, rows@));
                }
            }
            replay.submit_prevalidated_rows(batch.label.as_str(), rows)?;
            proof {
                if good {
                    let srows = self.source_rows@;
                    assert(replay.spec_rows() =~= replay_before.spec_rows() + rows@);
                    assert(replay_before.spec_rows() + rows@ =~= rows@);
                    assert forall|j: int| 0 <= j < replay.spec_rows().len() implies relation_same(
                        #[trigger] replay.spec_rows()[j],
                        srows[j],
                    ) by {
                        assert(replay.spec_rows()[j] == rows@[j]);
                        assert(relation_same(rows@[j], srows[range.start + j]));
                    }
                    assert(self.batches@.drop_last() =~= Seq::<PersistentParametricEliminationBatch>::empty());
                    assert(self.batches@.len() == 1);
                    assert(label_sum(self.batches@.drop_last()) == 0);
                    assert(self.batches@.last() == self.batches@[0]);
                    assert(label_sum(self.batches@) == byte_len(self.batches@[0].label@) as nat);
                    assert(replay.spec_batches().last() == replay.spec_batches()[0]);
                    assert(batch_same(replay.spec_batches()[0], self.batches@[0]));
                    assert(replay.spec_stats() == self.stats);
                }
            }
            while event_cursor < self.events.len() && self.events[event_cursor].batch_ordinal == batch.ordinal
                invariant
                    good == (self.audited(*context) && nothing_consumed_replayable(*self, *context)),
                    good ==> replay.spec_family() == self.family_fingerprint@ && replay.spec_limits() == self.limits
                        && replay.spec_ordering().anchor@ == self.ordering.anchor@,
                    good ==> event_cursor == 0 && batch_index < self.batches@.len(),
                    good ==> replay.spec_events().len() == 0 && replay.spec_elimination() is None,
                    good ==> replay.spec_batches().len() == batch_index + 1,
                    good ==> forall|i: int| 0 <= i < batch_index + 1 ==> batch_same(#[trigger] replay.spec_batches()[i], self.batches@[i]),
                    good ==> replay.spec_rows().len() == self.source_rows@.len() && replay.spec_stats() == self.stats,
                    good ==> forall|i: int| 0 <= i < replay.spec_rows().len() ==> relation_same(#[trigger] replay.spec_rows()[i], self.source_rows@[i]),
                    replay.wf(),
                    replay.spec_context() == *context,
                    !replay.spec_interrupted(),
                    replay.spec_stats().cumulative_prefix_rebuild_rows == rebuild_rows_total(
                        replay.spec_stats().consumed_rows as nat,
                    ),
                    event_cursor <= self.events@.len(),
                decreases self.events@.len() - event_cursor,
            {
                let expected = self.events[event_cursor];
                let actual = match replay.consume_next_with_outer(builder, certified_elimination_manifest_bytes)? {
                    Some(event) => event,
                    None => {
                        return Err(
                            PersistentParametricEliminationError::ReplayMismatch {
                                detail: "persistent replay ended before its event transcript",
                            },
                        );
                    },
                };
                if actual != expected {
                    return Err(
                        PersistentParametricEliminationError::ReplayMismatch {
                            detail: "persistent row event differs during replay",
                        },
                    );
                }
                event_cursor = event_cursor + 1;
            }
            batch_index = batch_index + 1;
        }
        if event_cursor != self.events.len() {
            return Err(
                PersistentParametricEliminationError::ReplayMismatch {
                    detail: "persistent event transcript refers to an absent batch",
                },
            );
        }
        let ghost last = replay;
        let replayed = replay.finish();
        proof {
            if good {
                assert(self.source_manifest_lengths@ =~= replayed.source_manifest_lengths@) by {
                    assert forall|i: int| 0 <= i < self.source_rows@.len() implies self.source_manifest_lengths@[i]
                        == replayed.source_manifest_lengths@[i] by {
                        assert(relation_same(last.spec_rows()[i], self.source_rows@[i]));
                    }
                }
                assert(self.events@ =~= replayed.events@);
                assert(certificate_same(*self, replayed));
            }
        }
        if self.payload_eq(&replayed) {
            proof {
                assert(self.matches_database(&last));
            }
            Ok(())
        } else {
            Err(
                PersistentParametricEliminationError::ReplayMismatch {
                    detail: "persistent certificate payload differs during replay",
                },
            )
        }
    }

    fn payload_eq(&self, other: &Self) -> (r: bool)
        ensures
            r == certificate_same(*self, *other),
    {
        if !text_eq(self.schema, other.schema) || self.family_fingerprint != other.family_fingerprint
            || self.context_fingerprint != other.context_fingerprint || !i64_seq_eq(
            &self.ordering.anchor,
            &other.ordering.anchor,
        ) || self.limits != other.limits || !crate::parametric_elimination::usize_seq_eq(
            &self.source_manifest_lengths,
            &other.source_manifest_lengths,
        ) || self.stats != other.stats || self.interrupted != other.interrupted || self.source_rows.len()
            != other.source_rows.len() || self.batches.len() != other.batches.len() || self.events.len()
            != other.events.len() || !elimination_eq(&self.elimination, &other.elimination) {
            return false;
        }
        let mut i: usize = 0;
        while i < self.source_rows.len()
            invariant
                self.source_rows@.len() == other.source_rows@.len(),
                i <= self.source_rows@.len(),
                forall|k: int| 0 <= k < i ==> relation_same(#[trigger] self.source_rows@[k], other.source_rows@[k]),
            decreases self.source_rows@.len() - i,
        {
            if !relation_eq(&self.source_rows[i], &other.source_rows[i]) {
                return false;
            }
            i = i + 1;
        }
        let mut b: usize = 0;
        while b < self.batches.len()
            invariant
                self.batches@.len() == other.batches@.len(),
                b <= self.batches@.len(),
                forall|k: int| 0 <= k < b ==> batch_same(#[trigger] self.batches@[k], other.batches@[k]),
            decreases self.batches@.len() - b,
        {
            let left = &self.batches[b];
            let right = &other.batches[b];
            if left.ordinal != right.ordinal || left.label != right.label || left.first_source_ordinal
                != right.first_source_ordinal || left.source_row_count != right.source_row_count {
                return false;
            }
            b = b + 1;
        }
        let mut e: usize = 0;
        while e < self.events.len()
            invariant
                self.events@.len() == other.events@.len(),
                e <= self.events@.len(),
                forall|k: int| 0 <= k < e ==> self.events@[k] == other.events@[k],
            decreases self.events@.len() - e,
        {
            if self.events[e] != other.events[e] {
                return false;
            }
            e = e + 1;
        }
        assert(self.events@ =~= other.events@);
        true
    }
}

} // verus!
