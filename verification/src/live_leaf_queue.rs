//! Plain-value view of one generated live-leaf queue, as the Boolean cover
//! reads it: the residual cases of the sector partition with their
//! polynomial predicates, the coverage's structural-locus table and product
//! witnesses, and the queue's work items.
//!
//! A polynomial is named by the key of its canonical form in the coefficient
//! arithmetic; what that arithmetic decides of each retained locus (whether
//! it depends on the indices, whether it is zero, its term count, and the
//! coordinate equality `n_i = c` it is, if any) is recorded beside it.

use std::sync::Arc;
use vstd::prelude::*;
use crate::parametric_elimination::{text_eq, ParametricCoefficientContext};
use crate::product_locus_boolean_cover::SymbolicPolynomialPredicateKind;
use crate::sector_mask::SectorMask;

verus! {

/// One retained structural locus of the source coverage.
#[derive(Clone, Debug, PartialEq, Eq)]
pub struct StructuralLocus {
    pub polynomial: u64,
    pub depends_on_indices: bool,
    pub is_zero: bool,
    pub term_count: usize,
    /// `Some((i, c))` when the locus is the coordinate equality `n_i = c`.
    pub coordinate: Option<(usize, i64)>,
}

/// One polynomial predicate of a residual case.
#[derive(Clone, Copy, Debug, PartialEq, Eq, Structural)]
pub struct SymbolicSectorPredicate {
    pub kind: SymbolicPolynomialPredicateKind,
    pub polynomial: u64,
}

/// One residual case of the sector partition.
#[derive(Clone, Debug, PartialEq, Eq)]
pub struct SymbolicSectorCase {
    pub id: usize,
    pub predicates: Vec<SymbolicSectorPredicate>,
}

/// A product locus with its witnessed factor loci.
#[derive(Clone, Debug, PartialEq, Eq)]
pub struct ProductZeroDecomposition {
    pub product_locus_ordinal: usize,
    pub factor_locus_ordinals: Vec<usize>,
}

/// The coordinate-equality extraction of one residual case.
#[derive(Clone, Debug, PartialEq, Eq)]
pub struct CoordinateEqualityLocusCertificate {
    pub source_case: usize,
    /// The extraction was made from the queue's own sector partition.
    pub partition_matches_coverage: bool,
}

/// One work item of the queue: a residual case and its extraction.
#[derive(Clone, Debug)]
pub struct LiveLeafWorkItem {
    pub ordinal: usize,
    pub source_case: usize,
    pub extraction: Arc<CoordinateEqualityLocusCertificate>,
}

/// The live-leaf queue of one generated sector discovery.
#[derive(Clone, Debug)]
pub struct GeneratedSectorLiveLeafQueueCertificate {
    pub family_fingerprint: String,
    pub context_fingerprint: String,
    pub sector: SectorMask,
    pub discovery_sector: SectorMask,
    pub cases: Vec<SymbolicSectorCase>,
    pub structural_loci: Vec<StructuralLocus>,
    pub product_zero_decompositions: Vec<ProductZeroDecomposition>,
    pub work_items: Vec<LiveLeafWorkItem>,
    /// Bytes of the sector partition's source identity.
    pub source_identity_bytes: usize,
}

#[derive(Clone, Debug, PartialEq, Eq)]
pub enum GeneratedSectorLiveLeafQueueError {
    WrongFamily,
    WrongContext,
}

impl GeneratedSectorLiveLeafQueueCertificate {
    /// The queue's retained payload is plain data; replaying it checks that
    /// it belongs to `family` and `context`.
    pub fn replay(&self, family: &str, context: &ParametricCoefficientContext) -> (r: Result<
        (),
        GeneratedSectorLiveLeafQueueError,
    >)
        ensures
            r is Ok <==> self.family_fingerprint@ == family@ && self.context_fingerprint@ == context.fingerprint@,
            self.family_fingerprint@ != family@ ==> r == Err::<(), GeneratedSectorLiveLeafQueueError>(
                GeneratedSectorLiveLeafQueueError::WrongFamily,
            ),
    {
        if !text_eq(self.family_fingerprint.as_str(), family) {
            return Err(GeneratedSectorLiveLeafQueueError::WrongFamily);
        }
        if !text_eq(self.context_fingerprint.as_str(), context.fingerprint.as_str()) {
            return Err(GeneratedSectorLiveLeafQueueError::WrongContext);
        }
        Ok(())
    }
}

/// First index of a locus with key `polynomial` at or after `from`.
pub open spec fn locus_position_from(loci: Seq<StructuralLocus>, polynomial: u64, from: int) -> Option<int>
    decreases loci.len() - from,
{
    if from < 0 || from >= loci.len() {
        None
    } else if loci[from].polynomial == polynomial {
        Some(from)
    } else {
        locus_position_from(loci, polynomial, from + 1)
    }
}

/// First index of a locus with key `polynomial`.
pub open spec fn locus_position(loci: Seq<StructuralLocus>, polynomial: u64) -> Option<int> {
    locus_position_from(loci, polynomial, 0)
}

/// First index of a decomposition of the product locus `locus` at or after
/// `from`.
pub open spec fn witness_position_from(witnesses: Seq<ProductZeroDecomposition>, locus: int, from: int) -> Option<int>
    decreases witnesses.len() - from,
{
    if from < 0 || from >= witnesses.len() {
        None
    } else if witnesses[from].product_locus_ordinal == locus {
        Some(from)
    } else {
        witness_position_from(witnesses, locus, from + 1)
    }
}

pub open spec fn witness_position(witnesses: Seq<ProductZeroDecomposition>, locus: int) -> Option<int> {
    witness_position_from(witnesses, locus, 0)
}

/// First index of a case with id `id` at or after `from`.
pub open spec fn case_position_from(cases: Seq<SymbolicSectorCase>, id: usize, from: int) -> Option<int>
    decreases cases.len() - from,
{
    if from < 0 || from >= cases.len() {
        None
    } else if cases[from].id == id {
        Some(from)
    } else {
        case_position_from(cases, id, from + 1)
    }
}

pub open spec fn case_position(cases: Seq<SymbolicSectorCase>, id: usize) -> Option<int> {
    case_position_from(cases, id, 0)
}

/// Index of the first locus with key `polynomial`.
pub fn find_locus(loci: &Vec<StructuralLocus>, polynomial: u64) -> (r: Option<usize>)
    ensures
        r matches Some(i) ==> locus_position(loci@, polynomial) == Some(i as int) && i < loci@.len()
            && loci@[i as int].polynomial == polynomial,
        r is None ==> locus_position(loci@, polynomial) is None,
{
    let mut i: usize = 0;
    while i < loci.len()
        invariant
            i <= loci@.len(),
            locus_position(loci@, polynomial) == locus_position_from(loci@, polynomial, i as int),
        decreases loci@.len() - i,
    {
        if loci[i].polynomial == polynomial {
            return Some(i);
        }
        i = i + 1;
    }
    None
}

/// Index of the first decomposition of the product locus `locus`.
pub fn find_witness(witnesses: &Vec<ProductZeroDecomposition>, locus: usize) -> (r: Option<usize>)
    ensures
        r matches Some(i) ==> witness_position(witnesses@, locus as int) == Some(i as int) && i < witnesses@.len(),
        r is None ==> witness_position(witnesses@, locus as int) is None,
{
    let mut i: usize = 0;
    while i < witnesses.len()
        invariant
            i <= witnesses@.len(),
            witness_position(witnesses@, locus as int) == witness_position_from(witnesses@, locus as int, i as int),
        decreases witnesses@.len() - i,
    {
        if witnesses[i].product_locus_ordinal == locus {
            return Some(i);
        }
        i = i + 1;
    }
    None
}

/// Index of the first case with id `id`.
pub fn find_case(cases: &Vec<SymbolicSectorCase>, id: usize) -> (r: Option<usize>)
    ensures
        r matches Some(i) ==> case_position(cases@, id) == Some(i as int) && i < cases@.len() && cases@[i as int].id
            == id,
        r is None ==> case_position(cases@, id) is None,
{
    let mut i: usize = 0;
    while i < cases.len()
        invariant
            i <= cases@.len(),
            case_position(cases@, id) == case_position_from(cases@, id, i as int),
        decreases cases@.len() - i,
    {
        if cases[i].id == id {
            return Some(i);
        }
        i = i + 1;
    }
    None
}

} // verus!
