//! Normalized bad-formula IR consumed by the sector-coverage MTBDD.
//!
//! A certified candidate carries a DNF "bad" formula over base structural
//! loci: the candidate's rule applies exactly where the formula is false.
//! Literals say that a locus polynomial is zero or nonzero.

use vstd::prelude::*;

verus! {

pub const PARAMETRIC_SECTOR_FORMULA_IR_V1_SCHEMA: &'static str =
    "rustred-parametric-sector-normalized-bad-formula-v1";

#[derive(Clone, Copy, Debug, PartialEq, Eq, Structural)]
pub enum NormalizedBadLiteralPolarity {
    EqualZero,
    NonZero,
}

#[derive(Clone, Copy, Debug, PartialEq, Eq, Structural)]
pub struct NormalizedBadLiteral {
    pub structural_locus_ordinal: usize,
    pub polarity: NormalizedBadLiteralPolarity,
}

impl NormalizedBadLiteral {
    pub fn new(structural_locus_ordinal: usize, polarity: NormalizedBadLiteralPolarity) -> (r:
        Self)
        ensures
            r.structural_locus_ordinal == structural_locus_ordinal,
            r.polarity == polarity,
    {
        NormalizedBadLiteral { structural_locus_ordinal, polarity }
    }

    pub fn structural_locus_ordinal(self) -> (r: usize)
        ensures
            r == self.structural_locus_ordinal,
    {
        self.structural_locus_ordinal
    }

    pub fn polarity(self) -> (r: NormalizedBadLiteralPolarity)
        ensures
            r == self.polarity,
    {
        self.polarity
    }
}

/// One DNF clause body: a single literal or a conjunction of two.
#[derive(Clone, Copy, Debug, PartialEq, Eq, Structural)]
pub enum DirectBadFormulaClause {
    Atom(NormalizedBadLiteral),
    Conjunction(NormalizedBadLiteral, NormalizedBadLiteral),
}

impl DirectBadFormulaClause {
    pub open spec fn spec_atom_count(self) -> nat {
        match self {
            DirectBadFormulaClause::Atom(_) => 1,
            DirectBadFormulaClause::Conjunction(_, _) => 2,
        }
    }

    pub fn atom_count(&self) -> (r: usize)
        ensures
            r == self.spec_atom_count(),
    {
        match self {
            DirectBadFormulaClause::Atom(_) => 1,
            DirectBadFormulaClause::Conjunction(_, _) => 2,
        }
    }
}

#[derive(Clone, Copy, Debug, PartialEq, Eq, Structural)]
pub enum NormalizedBadClauseRole {
    Ordinary,
    AtomicEqualZeroFactor,
}

#[derive(Clone, Copy, Debug, PartialEq, Eq, Structural)]
pub enum NormalizedBadClauseSource {
    LeakEvent { event_ordinal: usize },
    FactorZero { factor_ordinal: usize },
}

#[derive(Clone, Debug, PartialEq, Eq)]
pub struct NormalizedBadClause {
    pub body: DirectBadFormulaClause,
    pub sources: Vec<NormalizedBadClauseSource>,
    pub role: NormalizedBadClauseRole,
}

impl NormalizedBadClause {
    pub fn new(
        body: DirectBadFormulaClause,
        sources: Vec<NormalizedBadClauseSource>,
        role: NormalizedBadClauseRole,
    ) -> (r: Self)
        ensures
            r.body == body,
            r.sources@ == sources@,
            r.role == role,
    {
        NormalizedBadClause { body, sources, role }
    }

    pub fn body(&self) -> (r: DirectBadFormulaClause)
        ensures
            r == self.body,
    {
        self.body
    }

    pub fn sources(&self) -> (r: &[NormalizedBadClauseSource])
        ensures
            r@ == self.sources@,
    {
        self.sources.as_slice()
    }

    pub fn role(&self) -> (r: NormalizedBadClauseRole)
        ensures
            r == self.role,
    {
        self.role
    }
}

/// A factor of an atomic product equality: the product is zero exactly when
/// one of its retained factors is zero.
#[derive(Clone, Copy, Debug, PartialEq, Eq, Structural)]
pub struct NormalizedFactorZeroSource {
    pub structural_locus_ordinal: usize,
    pub clause_ordinal: usize,
}

impl NormalizedFactorZeroSource {
    pub fn new(structural_locus_ordinal: usize, clause_ordinal: usize) -> (r: Self)
        ensures
            r.structural_locus_ordinal == structural_locus_ordinal,
            r.clause_ordinal == clause_ordinal,
    {
        NormalizedFactorZeroSource { structural_locus_ordinal, clause_ordinal }
    }

    pub fn structural_locus_ordinal(self) -> (r: usize)
        ensures
            r == self.structural_locus_ordinal,
    {
        self.structural_locus_ordinal
    }
}

#[derive(Clone, Debug, PartialEq, Eq)]
pub enum NormalizedBadFormulaBody {
    False,
    True { sources: Vec<NormalizedBadClauseSource> },
    Dnf { clauses: Vec<NormalizedBadClause>, atomic_equal_zero_factors: Vec<NormalizedFactorZeroSource> },
}

#[derive(Clone, Debug, PartialEq, Eq)]
pub struct NormalizedCandidateBadFormula {
    pub source_attempt_ordinal: usize,
    pub body: NormalizedBadFormulaBody,
}

impl NormalizedCandidateBadFormula {
    pub fn new(source_attempt_ordinal: usize, body: NormalizedBadFormulaBody) -> (r: Self)
        ensures
            r.source_attempt_ordinal == source_attempt_ordinal,
            r.body == body,
    {
        NormalizedCandidateBadFormula { source_attempt_ordinal, body }
    }

    pub fn source_attempt_ordinal(&self) -> (r: usize)
        ensures
            r == self.source_attempt_ordinal,
    {
        self.source_attempt_ordinal
    }

    pub fn body(&self) -> (r: &NormalizedBadFormulaBody)
        ensures
            *r == self.body,
    {
        &self.body
    }
}

#[derive(Clone, Debug, PartialEq, Eq)]
pub enum NormalizedCoverageAttempt {
    Certified(NormalizedCandidateBadFormula),
    Unsupported { source_attempt_ordinal: usize },
}

#[derive(Clone, Debug, PartialEq, Eq)]
pub enum ParametricSectorFormulaIrError {
    AttemptOrdinalMismatch { position: usize, ordinal: usize },
    LocusOutOfRange { attempt: usize, locus: usize, base_structural_locus_count: usize },
    FactorClauseMismatch { attempt: usize },
}

/// Truth value of one literal under an assignment saying which base loci
/// vanish.
pub open spec fn literal_holds(literal: NormalizedBadLiteral, zero: Seq<bool>) -> bool {
    match literal.polarity {
        NormalizedBadLiteralPolarity::EqualZero => zero[literal.structural_locus_ordinal as int],
        NormalizedBadLiteralPolarity::NonZero => !zero[literal.structural_locus_ordinal as int],
    }
}

pub open spec fn clause_holds(clause: DirectBadFormulaClause, zero: Seq<bool>) -> bool {
    match clause {
        DirectBadFormulaClause::Atom(l) => literal_holds(l, zero),
        DirectBadFormulaClause::Conjunction(l, r) => literal_holds(l, zero) && literal_holds(
            r,
            zero,
        ),
    }
}

/// The bad formula of a candidate: true exactly where the candidate's rule
/// must not be applied.
pub open spec fn formula_holds(body: NormalizedBadFormulaBody, zero: Seq<bool>) -> bool {
    match body {
        NormalizedBadFormulaBody::False => false,
        NormalizedBadFormulaBody::True { .. } => true,
        NormalizedBadFormulaBody::Dnf { clauses, .. } => exists|i: int|
            0 <= i < clauses@.len() && #[trigger] clause_holds(clauses@[i].body, zero),
    }
}

pub open spec fn literal_in_range(literal: NormalizedBadLiteral, count: usize) -> bool {
    literal.structural_locus_ordinal < count
}

pub open spec fn clause_in_range(clause: DirectBadFormulaClause, count: usize) -> bool {
    match clause {
        DirectBadFormulaClause::Atom(l) => literal_in_range(l, count),
        DirectBadFormulaClause::Conjunction(l, r) => literal_in_range(l, count) && literal_in_range(
            r,
            count,
        ),
    }
}

pub open spec fn clauses_in_range(clauses: Seq<NormalizedBadClause>, count: usize) -> bool {
    forall|i: int| 0 <= i < clauses.len() ==> #[trigger] clause_in_range(clauses[i].body, count)
}

pub open spec fn factors_in_range(factors: Seq<NormalizedFactorZeroSource>, count: usize) -> bool {
    forall|i: int| 0 <= i < factors.len() ==> #[trigger] factors[i].structural_locus_ordinal < count
}

/// Every factor names an atomic equal-zero clause of its own locus, and
/// every atomic equal-zero clause is named by some factor.
pub open spec fn factors_consistent(clauses: Seq<NormalizedBadClause>, factors: Seq<NormalizedFactorZeroSource>) -> bool {
    &&& forall|j: int| 0 <= j < factors.len() ==> factor_names_clause(clauses, #[trigger] factors[j])
    &&& forall|i: int| 0 <= i < clauses.len() && (#[trigger] clauses[i]).role == NormalizedBadClauseRole::AtomicEqualZeroFactor
        ==> exists|j: int| 0 <= j < factors.len() && #[trigger] factors[j].clause_ordinal == i
}

pub open spec fn factor_names_clause(clauses: Seq<NormalizedBadClause>, factor: NormalizedFactorZeroSource) -> bool {
    &&& factor.clause_ordinal < clauses.len()
    &&& clauses[factor.clause_ordinal as int].role == NormalizedBadClauseRole::AtomicEqualZeroFactor
    &&& clauses[factor.clause_ordinal as int].body == DirectBadFormulaClause::Atom(
        NormalizedBadLiteral {
            structural_locus_ordinal: factor.structural_locus_ordinal,
            polarity: NormalizedBadLiteralPolarity::EqualZero,
        },
    )
}

pub open spec fn body_in_range(body: NormalizedBadFormulaBody, count: usize) -> bool {
    match body {
        NormalizedBadFormulaBody::Dnf { clauses, atomic_equal_zero_factors } => clauses_in_range(
            clauses@,
            count,
        ) && factors_in_range(atomic_equal_zero_factors@, count) && factors_consistent(
            clauses@,
            atomic_equal_zero_factors@,
        ),
        _ => true,
    }
}

/// Some factor locus vanishes.
pub open spec fn some_factor_zero(factors: Seq<NormalizedFactorZeroSource>, zero: Seq<bool>) -> bool {
    exists|j: int| 0 <= j < factors.len() && zero[#[trigger] factors[j].structural_locus_ordinal as int]
}

/// Some clause that is not an atomic factor clause holds.
pub open spec fn some_ordinary_clause_holds(clauses: Seq<NormalizedBadClause>, zero: Seq<bool>) -> bool {
    exists|i: int| 0 <= i < clauses.len() && clauses[i].role == NormalizedBadClauseRole::Ordinary
        && #[trigger] clause_holds(clauses[i].body, zero)
}

/// A DNF whose factor list matches its atomic factor clauses holds exactly
/// when a factor vanishes or an ordinary clause holds.
pub proof fn lemma_dnf_split(clauses: Seq<NormalizedBadClause>, factors: Seq<NormalizedFactorZeroSource>, zero: Seq<bool>)
    requires
        factors_consistent(clauses, factors),
    ensures
        (exists|i: int| 0 <= i < clauses.len() && #[trigger] clause_holds(clauses[i].body, zero))
            == (some_factor_zero(factors, zero) || some_ordinary_clause_holds(clauses, zero)),
{
    if exists|i: int| 0 <= i < clauses.len() && #[trigger] clause_holds(clauses[i].body, zero) {
        let i = choose|i: int| 0 <= i < clauses.len() && #[trigger] clause_holds(clauses[i].body, zero);
        if clauses[i].role == NormalizedBadClauseRole::AtomicEqualZeroFactor {
            assert(clauses[i].role == NormalizedBadClauseRole::AtomicEqualZeroFactor);
            let j = choose|j: int| 0 <= j < factors.len() && #[trigger] factors[j].clause_ordinal == i;
            assert(factor_names_clause(clauses, factors[j]));
            assert(zero[factors[j].structural_locus_ordinal as int]);
        } else {
            assert(clauses[i].role == NormalizedBadClauseRole::Ordinary);
        }
    }
    if some_factor_zero(factors, zero) {
        let j = choose|j: int| 0 <= j < factors.len() && zero[#[trigger] factors[j].structural_locus_ordinal as int];
        assert(factor_names_clause(clauses, factors[j]));
        let i = factors[j].clause_ordinal as int;
        assert(clause_holds(clauses[i].body, zero));
    }
}

pub open spec fn attempt_ordinal(attempt: NormalizedCoverageAttempt) -> usize {
    match attempt {
        NormalizedCoverageAttempt::Certified(f) => f.source_attempt_ordinal,
        NormalizedCoverageAttempt::Unsupported { source_attempt_ordinal } => source_attempt_ordinal,
    }
}

pub open spec fn attempt_in_range(attempt: NormalizedCoverageAttempt, count: usize) -> bool {
    match attempt {
        NormalizedCoverageAttempt::Certified(f) => body_in_range(f.body, count),
        NormalizedCoverageAttempt::Unsupported { .. } => true,
    }
}

/// Normalized coverage of one sector: candidate attempts in priority order.
#[derive(Clone, Debug, PartialEq, Eq)]
pub struct NormalizedCoverageIr {
    schema: &'static str,
    base_structural_locus_count: usize,
    attempts: Vec<NormalizedCoverageAttempt>,
}

impl NormalizedCoverageIr {
    /// Every attempt sits at the position of its source ordinal and every
    /// literal names an existing base locus.
    pub open spec fn wf(self) -> bool {
        forall|i: int|
            0 <= i < self.spec_attempts().len() ==> {
                &&& attempt_ordinal(#[trigger] self.spec_attempts()[i]) == i
                &&& attempt_in_range(self.spec_attempts()[i], self.spec_base_count())
            }
    }

    pub closed spec fn spec_attempts(self) -> Seq<NormalizedCoverageAttempt> {
        self.attempts@
    }

    pub closed spec fn spec_base_count(self) -> usize {
        self.base_structural_locus_count
    }

    pub fn try_new(base_structural_locus_count: usize, attempts: Vec<NormalizedCoverageAttempt>) -> (r:
        Result<Self, ParametricSectorFormulaIrError>)
        ensures
            r matches Ok(ir) ==> ir.wf() && ir.spec_attempts() == attempts@
                && ir.spec_base_count() == base_structural_locus_count,
            r is Ok <==> forall|i: int|
                0 <= i < attempts@.len() ==> {
                    &&& attempt_ordinal(#[trigger] attempts@[i]) == i
                    &&& attempt_in_range(attempts@[i], base_structural_locus_count)
                },
    {
        let mut position: usize = 0;
        while position < attempts.len()
            invariant
                position <= attempts@.len(),
                forall|i: int|
                    0 <= i < position ==> {
                        &&& attempt_ordinal(#[trigger] attempts@[i]) == i
                        &&& attempt_in_range(attempts@[i], base_structural_locus_count)
                    },
            decreases attempts@.len() - position,
        {
            let attempt = &attempts[position];
            let ordinal = match attempt {
                NormalizedCoverageAttempt::Certified(f) => f.source_attempt_ordinal,
                NormalizedCoverageAttempt::Unsupported { source_attempt_ordinal } =>
                    *source_attempt_ordinal,
            };
            if ordinal != position {
                return Err(ParametricSectorFormulaIrError::AttemptOrdinalMismatch { position, ordinal });
            }
            if let NormalizedCoverageAttempt::Certified(f) = attempt {
                if !body_factors_match(&f.body) {
                    return Err(ParametricSectorFormulaIrError::FactorClauseMismatch { attempt: position });
                }
                if let Some(locus) = first_out_of_range_locus(&f.body, base_structural_locus_count) {
                    return Err(
                        ParametricSectorFormulaIrError::LocusOutOfRange {
                            attempt: position,
                            locus,
                            base_structural_locus_count,
                        },
                    );
                }
            }
            position += 1;
        }
        Ok(
            NormalizedCoverageIr {
                schema: PARAMETRIC_SECTOR_FORMULA_IR_V1_SCHEMA,
                base_structural_locus_count,
                attempts,
            },
        )
    }

    pub closed spec fn spec_schema(self) -> &'static str {
        self.schema
    }

    pub fn schema(&self) -> (r: &'static str)
        ensures
            r == self.spec_schema(),
    {
        self.schema
    }

    pub fn base_structural_locus_count(&self) -> (r: usize)
        ensures
            r == self.spec_base_count(),
    {
        self.base_structural_locus_count
    }

    pub fn attempts(&self) -> (r: &[NormalizedCoverageAttempt])
        ensures
            r@ == self.spec_attempts(),
    {
        self.attempts.as_slice()
    }
}

fn literal_out_of_range(literal: NormalizedBadLiteral, count: usize) -> (r: Option<usize>)
    ensures
        r is None <==> literal_in_range(literal, count),
{
    if literal.structural_locus_ordinal < count {
        None
    } else {
        Some(literal.structural_locus_ordinal)
    }
}

fn factor_names_clause_exec(clauses: &[NormalizedBadClause], factor: NormalizedFactorZeroSource) -> (r: bool)
    ensures
        r == factor_names_clause(clauses@, factor),
{
    if factor.clause_ordinal >= clauses.len() {
        return false;
    }
    let clause = &clauses[factor.clause_ordinal];
    if clause.role != NormalizedBadClauseRole::AtomicEqualZeroFactor {
        return false;
    }
    match clause.body {
        DirectBadFormulaClause::Atom(l) => l.structural_locus_ordinal == factor.structural_locus_ordinal
            && l.polarity == NormalizedBadLiteralPolarity::EqualZero,
        _ => false,
    }
}

fn factors_match_clauses(clauses: &[NormalizedBadClause], factors: &[NormalizedFactorZeroSource]) -> (r: bool)
    ensures
        r == factors_consistent(clauses@, factors@),
{
    let mut j: usize = 0;
    while j < factors.len()
        invariant
            j <= factors@.len(),
            forall|k: int| 0 <= k < j ==> factor_names_clause(clauses@, #[trigger] factors@[k]),
        decreases factors@.len() - j,
    {
        if !factor_names_clause_exec(clauses, factors[j]) {
            return false;
        }
        j += 1;
    }
    let mut i: usize = 0;
    while i < clauses.len()
        invariant
            i <= clauses@.len(),
            forall|k: int| 0 <= k < factors@.len() ==> factor_names_clause(clauses@, #[trigger] factors@[k]),
            forall|c: int| 0 <= c < i && (#[trigger] clauses@[c]).role == NormalizedBadClauseRole::AtomicEqualZeroFactor
                ==> exists|k: int| 0 <= k < factors@.len() && #[trigger] factors@[k].clause_ordinal == c,
        decreases clauses@.len() - i,
    {
        if clauses[i].role == NormalizedBadClauseRole::AtomicEqualZeroFactor {
            let mut found = false;
            let mut k: usize = 0;
            while k < factors.len()
                invariant
                    k <= factors@.len(),
                    found ==> exists|m: int| 0 <= m < factors@.len() && #[trigger] factors@[m].clause_ordinal == i,
                    !found ==> forall|m: int| 0 <= m < k ==> #[trigger] factors@[m].clause_ordinal != i,
                decreases factors@.len() - k,
            {
                if factors[k].clause_ordinal == i {
                    found = true;
                }
                k += 1;
            }
            if !found {
                assert(clauses@[i as int].role == NormalizedBadClauseRole::AtomicEqualZeroFactor);
                return false;
            }
        }
        i += 1;
    }
    true
}

fn body_factors_match(body: &NormalizedBadFormulaBody) -> (r: bool)
    ensures
        r == match *body {
            NormalizedBadFormulaBody::Dnf { clauses, atomic_equal_zero_factors } => factors_consistent(clauses@, atomic_equal_zero_factors@),
            _ => true,
        },
{
    match body {
        NormalizedBadFormulaBody::Dnf { clauses, atomic_equal_zero_factors } =>
            factors_match_clauses(clauses.as_slice(), atomic_equal_zero_factors.as_slice()),
        _ => true,
    }
}

/// First locus of a formula body that names no base locus, if any.
fn first_out_of_range_locus(body: &NormalizedBadFormulaBody, count: usize) -> (r: Option<usize>)
    requires
        match *body {
            NormalizedBadFormulaBody::Dnf { clauses, atomic_equal_zero_factors } => factors_consistent(clauses@, atomic_equal_zero_factors@),
            _ => true,
        },
    ensures
        r is None <==> body_in_range(*body, count),
{
    match body {
        NormalizedBadFormulaBody::Dnf { clauses, atomic_equal_zero_factors } => {
            assert(body_in_range(*body, count) == (clauses_in_range(clauses@, count) && factors_in_range(atomic_equal_zero_factors@, count)));
            assert(factors_consistent(clauses@, atomic_equal_zero_factors@));
            let mut i: usize = 0;
            while i < clauses.len()
                invariant
                    i <= clauses@.len(),
                    body_in_range(*body, count) == (clauses_in_range(clauses@, count) && factors_in_range(atomic_equal_zero_factors@, count)),
                    factors_consistent(clauses@, atomic_equal_zero_factors@),
                    forall|j: int| 0 <= j < i ==> #[trigger] clause_in_range(clauses@[j].body, count),
                decreases clauses@.len() - i,
            {
                let found = match clauses[i].body {
                    DirectBadFormulaClause::Atom(l) => literal_out_of_range(l, count),
                    DirectBadFormulaClause::Conjunction(l, r) => {
                        match literal_out_of_range(l, count) {
                            Some(x) => Some(x),
                            None => literal_out_of_range(r, count),
                        }
                    },
                };
                if found.is_some() {
                    assert(!clause_in_range(clauses@[i as int].body, count));
                    assert(!clauses_in_range(clauses@, count));
                    return found;
                }
                i += 1;
            }
            let mut k: usize = 0;
            while k < atomic_equal_zero_factors.len()
                invariant
                    k <= atomic_equal_zero_factors@.len(),
                    body_in_range(*body, count) == (clauses_in_range(clauses@, count) && factors_in_range(atomic_equal_zero_factors@, count)),
                    factors_consistent(clauses@, atomic_equal_zero_factors@),
                    forall|j: int| 0 <= j < clauses@.len() ==> #[trigger] clause_in_range(clauses@[j].body, count),
                    forall|j: int|
                        0 <= j < k ==> #[trigger] atomic_equal_zero_factors@[j].structural_locus_ordinal
                            < count,
                decreases atomic_equal_zero_factors@.len() - k,
            {
                let locus = atomic_equal_zero_factors[k].structural_locus_ordinal;
                if locus >= count {
                    assert(!(atomic_equal_zero_factors@[k as int].structural_locus_ordinal < count));
                    assert(!factors_in_range(atomic_equal_zero_factors@, count));
                    return Some(locus);
                }
                k += 1;
            }
            None
        },
        _ => None,
    }
}

} // verus!
