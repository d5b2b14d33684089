//! Sectors: which propagator indices are active (strictly positive) and
//! which sit in the non-positive orthant.

use vstd::prelude::*;
use vstd::string::StringSliceAdditionalSpecFns;

verus! {

/// Side of the integer orthant a sector assigns to one index.
#[derive(Clone, Copy, Debug, PartialEq, Eq, Hash, Structural)]
pub enum SectorOrthantSide {
    /// The index is at least one.
    AtLeastOne,
    /// The index is at most zero.
    AtMostZero,
}

#[derive(Clone, Debug, PartialEq, Eq)]
pub enum SectorFoundationError {
    EmptySector,
    InvalidBitCharacter { position: usize },
    IndexOutOfRange { index: usize, arity: usize },
    IndexArityMismatch { expected: usize, actual: usize },
}

/// An index value lies on its sector side: at least one when active, at
/// most zero otherwise.
pub open spec fn in_orthant(active: bool, value: i64) -> bool {
    if active {
        value >= 1
    } else {
        value <= 0
    }
}

/// Orthant membership is the pair of inequalities: an active index lies in
/// the orthant exactly when it is at least one, an inactive index exactly
/// when it is at most zero; so a positive value at an inactive index, or a
/// value below one at an active index, is outside.
pub proof fn lemma_in_orthant_inequalities(active: bool, value: i64)
    ensures
        active ==> (in_orthant(active, value) <==> value >= 1),
        !active ==> (in_orthant(active, value) <==> value <= 0),
        !active && value > 0 ==> !in_orthant(active, value),
        active && value < 1 ==> !in_orthant(active, value),
        !active && value <= 0 ==> in_orthant(active, value),
{
}

/// A point lies in a sector's orthant exactly when every active index is at
/// least one and every inactive index is at most zero.
pub proof fn lemma_point_in_orthant_inequalities(active: Seq<bool>, indices: Seq<i64>)
    requires
        active.len() == indices.len(),
    ensures
        (forall|i: int| 0 <= i < indices.len() ==> #[trigger] in_orthant(active[i], indices[i])) <==> (forall|i: int|
            0 <= i < indices.len() ==> (active[i] ==> #[trigger] indices[i] >= 1) && (!active[i] ==> indices[i] <= 0)),
        (exists|i: int| 0 <= i < indices.len() && !active[i] && #[trigger] indices[i] > 0) ==> !(forall|i: int|
            0 <= i < indices.len() ==> #[trigger] in_orthant(active[i], indices[i])),
{
    if exists|i: int| 0 <= i < indices.len() && !active[i] && #[trigger] indices[i] > 0 {
        let i = choose|i: int| 0 <= i < indices.len() && !active[i] && #[trigger] indices[i] > 0;
        assert(!in_orthant(active[i], indices[i]));
    }
    if forall|i: int| 0 <= i < indices.len() ==> (active[i] ==> #[trigger] indices[i] >= 1) && (!active[i] ==> indices[i] <= 0) {
        assert forall|i: int| 0 <= i < indices.len() implies #[trigger] in_orthant(active[i], indices[i]) by {
            assert((active[i] ==> indices[i] >= 1) && (!active[i] ==> indices[i] <= 0));
        }
    }
    if forall|i: int| 0 <= i < indices.len() ==> #[trigger] in_orthant(active[i], indices[i]) {
        assert forall|i: int| 0 <= i < indices.len() implies (active[i] ==> #[trigger] indices[i] >= 1) && (!active[i]
            ==> indices[i] <= 0) by {
            assert(in_orthant(active[i], indices[i]));
        }
    }
}

/// Active-index mask of one sector.
#[derive(Clone, Debug, PartialEq, Eq, Hash)]
pub struct SectorMask {
    active: Vec<bool>,
}

impl SectorMask {
    pub closed spec fn spec_active(&self) -> Seq<bool> {
        self.active@
    }

    /// A sector over `active.len()` indices; index `i` is active exactly when
    /// `active[i]` holds.
    pub fn try_new(active: Vec<bool>) -> (r: Result<Self, SectorFoundationError>)
        ensures
            active@.len() == 0 ==> r == Err::<Self, SectorFoundationError>(SectorFoundationError::EmptySector),
            active@.len() > 0 ==> r is Ok,
            r matches Ok(mask) ==> mask.spec_active() == active@,
    {
        if active.len() == 0 {
            return Err(SectorFoundationError::EmptySector);
        }
        Ok(SectorMask { active })
    }

    /// Parse a string of `0` and `1` bytes; byte `i` gives index `i`.
    pub fn try_from_bit_string(bits: &str) -> (r: Result<Self, SectorFoundationError>)
        ensures
            r matches Ok(mask) ==> mask.spec_active().len() == bits.spec_bytes().len() && forall|i: int|
                0 <= i < bits.spec_bytes().len() ==> (#[trigger] mask.spec_active()[i] <==> bits.spec_bytes()[i] == 49u8),
            r is Ok <==> bits.spec_bytes().len() > 0 && forall|i: int|
                0 <= i < bits.spec_bytes().len() ==> (#[trigger] bits.spec_bytes()[i] == 48u8 || bits.spec_bytes()[i] == 49u8),
    {
        let bytes = bits.as_bytes();
        let mut active: Vec<bool> = Vec::new();
        let mut i: usize = 0;
        while i < bytes.len()
            invariant
                i <= bytes@.len(),
                bytes@ == bits.spec_bytes(),
                active@.len() == i,
                forall|j: int| 0 <= j < i ==> (#[trigger] bytes@[j] == 48u8 || bytes@[j] == 49u8),
                forall|j: int| 0 <= j < i ==> (#[trigger] active@[j] <==> bytes@[j] == 49u8),
            decreases bytes@.len() - i,
        {
            let byte = bytes[i];
            if byte == 49u8 {
                active.push(true);
            } else if byte == 48u8 {
                active.push(false);
            } else {
                return Err(SectorFoundationError::InvalidBitCharacter { position: i });
            }
            i += 1;
        }
        Self::try_new(active)
    }

    /// The two masks mark the same indices active.
    pub fn same_as(&self, other: &SectorMask) -> (r: bool)
        ensures
            r == (self.spec_active() == other.spec_active()),
    {
        if self.active.len() != other.active.len() {
            return false;
        }
        let mut i: usize = 0;
        while i < self.active.len()
            invariant
                self.active@.len() == other.active@.len(),
                i <= self.active@.len(),
                forall|k: int| 0 <= k < i ==> self.active@[k] == other.active@[k],
            decreases self.active@.len() - i,
        {
            if self.active[i] != other.active[i] {
                return false;
            }
            i = i + 1;
        }
        assert(self.active@ =~= other.active@);
        true
    }

    /// A copy of this mask.
    pub fn clone_mask(&self) -> (r: SectorMask)
        ensures
            r.spec_active() == self.spec_active(),
    {
        let mut active: Vec<bool> = Vec::new();
        let mut i: usize = 0;
        while i < self.active.len()
            invariant
                i <= self.active@.len(),
                active@ == self.active@.take(i as int),
            decreases self.active@.len() - i,
        {
            active.push(self.active[i]);
            i = i + 1;
            assert(active@ =~= self.active@.take(i as int));
        }
        assert(self.active@.take(i as int) =~= self.active@);
        SectorMask { active }
    }

    /// Whether an integer point lies in the sector's orthant: active indices
    /// at least one, the others at most zero.
    pub fn contains_indices(&self, indices: &[i64]) -> (r: Result<bool, SectorFoundationError>)
        ensures
            indices@.len() != self.spec_active().len() ==> r == Err::<bool, SectorFoundationError>(
                SectorFoundationError::IndexArityMismatch {
                    expected: self.spec_active().len() as usize,
                    actual: indices@.len() as usize,
                },
            ),
            indices@.len() == self.spec_active().len() ==> r == Ok::<bool, SectorFoundationError>(
                forall|i: int| 0 <= i < indices@.len() ==> #[trigger] in_orthant(self.spec_active()[i], indices@[i]),
            ),
            indices@.len() == self.spec_active().len() ==> (r == Ok::<bool, SectorFoundationError>(true) <==> forall|i: int|
                0 <= i < indices@.len() ==> (self.spec_active()[i] ==> #[trigger] indices@[i] >= 1) && (!self.spec_active()[i]
                    ==> indices@[i] <= 0)),
            indices@.len() == self.spec_active().len() && (exists|i: int|
                0 <= i < indices@.len() && !self.spec_active()[i] && #[trigger] indices@[i] > 0) ==> r == Ok::<
                bool,
                SectorFoundationError,
            >(false),
            indices@.len() == self.spec_active().len() && (exists|i: int|
                0 <= i < indices@.len() && self.spec_active()[i] && #[trigger] indices@[i] < 1) ==> r == Ok::<
                bool,
                SectorFoundationError,
            >(false),
    {
        if indices.len() != self.active.len() {
            return Err(SectorFoundationError::IndexArityMismatch { expected: self.active.len(), actual: indices.len() });
        }
        let mut i: usize = 0;
        while i < indices.len()
            invariant
                indices@.len() == self.active@.len(),
                i <= indices@.len(),
                forall|k: int| 0 <= k < i ==> #[trigger] in_orthant(self.active@[k], indices@[k]),
            decreases indices@.len() - i,
        {
            let inside = if self.active[i] { indices[i] >= 1 } else { indices[i] <= 0 };
            if !inside {
                assert(!in_orthant(self.active@[i as int], indices@[i as int]));
                assert((self.active@[i as int] && indices@[i as int] < 1) || (!self.active@[i as int] && indices@[i as int] > 0));
                return Ok(false);
            }
            i = i + 1;
        }
        proof {
            lemma_point_in_orthant_inequalities(self.active@, indices@);
        }
        Ok(true)
    }

    /// Bytes of the mask's owned payload, one per index; `None` on overflow.
    pub fn owned_retained_byte_bound(&self) -> (r: Option<usize>)
        ensures
            r matches Some(v) ==> v == self.spec_active().len() * vstd::layout::size_of::<bool>(),
            r is Some <==> self.spec_active().len() * vstd::layout::size_of::<bool>() <= usize::MAX,
    {
        self.active.len().checked_mul(core::mem::size_of::<bool>())
    }

    pub fn arity(&self) -> (r: usize)
        ensures
            r == self.spec_active().len(),
    {
        self.active.len()
    }

    pub fn is_active(&self, index: usize) -> (r: Result<bool, SectorFoundationError>)
        ensures
            index < self.spec_active().len() ==> r == Ok::<bool, SectorFoundationError>(self.spec_active()[index as int]),
            index >= self.spec_active().len() ==> r == Err::<bool, SectorFoundationError>(
                SectorFoundationError::IndexOutOfRange { index, arity: self.spec_active().len() as usize }),
    {
        if index < self.active.len() {
            Ok(self.active[index])
        } else {
            Err(SectorFoundationError::IndexOutOfRange { index, arity: self.active.len() })
        }
    }
}

} // verus!
