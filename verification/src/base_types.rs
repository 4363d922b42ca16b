//! Identifiers, object references and gas coins.
//!
//! Object identifiers, addresses and digests are 32-byte values, held as two
//! 128-bit halves (`hi` holds the first sixteen bytes, big-endian). An object
//! identifier is ordered as the 256-bit number it spells, which is the order of
//! its bytes.

use vstd::prelude::*;

verus! {

/// 2 to the power 128.
pub open spec fn two_pow_128() -> int {
    0x1_0000_0000_0000_0000_0000_0000_0000_0000int
}

#[derive(Clone, Copy, Debug, PartialEq, Eq, Structural, Hash)]
pub struct ObjectID {
    pub hi: u128,
    pub lo: u128,
}

#[derive(Clone, Copy, Debug, PartialEq, Eq, Structural, Hash)]
pub struct SuiAddress {
    pub hi: u128,
    pub lo: u128,
}

#[derive(Clone, Copy, Debug, PartialEq, Eq, Structural, Hash)]
pub struct ObjectDigest {
    pub hi: u128,
    pub lo: u128,
}

/// An object reference: identifier, version (sequence number) and digest.
#[derive(Clone, Copy, Debug, PartialEq, Eq, Structural, Hash)]
pub struct ObjectRef(pub ObjectID, pub u64, pub ObjectDigest);

pub type ReservationID = u64;

pub type ExpirationTimeMs = u64;

/// A group of reserved gas coins is keyed by its smallest object identifier.
pub type GasGroupKey = ObjectID;

#[derive(Clone, Copy, Debug, PartialEq, Eq, Structural)]
pub struct GasCoin {
    pub object_ref: ObjectRef,
    pub balance: u64,
}

impl ObjectID {
    /// The smallest identifier.
    pub fn zero() -> (r: ObjectID)
        ensures
            r.num() == 0,
    {
        ObjectID { hi: 0, lo: 0 }
    }

    /// The 256-bit number this identifier spells.
    pub open spec fn num(self) -> int {
        self.hi * two_pow_128() + self.lo
    }

    /// Strict order of identifiers.
    pub fn lt(&self, other: &ObjectID) -> (r: bool)
        ensures
            r == (self.num() < other.num()),
    {
        proof {
            lemma_num_order(*self, *other);
        }
        self.hi < other.hi || (self.hi == other.hi && self.lo < other.lo)
    }
}

impl GasCoin {
    pub open spec fn id(self) -> ObjectID {
        self.object_ref.0
    }
}

/// The number of an identifier orders identifiers as their halves do, and tells
/// them apart.
pub proof fn lemma_num_order(a: ObjectID, b: ObjectID)
    ensures
        (a.num() < b.num()) == (a.hi < b.hi || (a.hi == b.hi && a.lo < b.lo)),
        (a.num() == b.num()) == (a == b),
{
    let p = two_pow_128();
    let ah = a.hi as int;
    let al = a.lo as int;
    let bh = b.hi as int;
    let bl = b.lo as int;
    assert(0 <= al < p && 0 <= bl < p);
    if ah < bh {
        assert(ah * p + al < bh * p + bl) by (nonlinear_arith)
            requires
                ah < bh,
                0 <= al < p,
                0 <= bl < p,
        ;
    } else if ah > bh {
        assert(ah * p + al > bh * p + bl) by (nonlinear_arith)
            requires
                ah > bh,
                0 <= al < p,
                0 <= bl < p,
        ;
    }
}

/// Distinct identifiers have distinct numbers.
pub proof fn lemma_num_injective(a: ObjectID, b: ObjectID)
    ensures
        a.num() == b.num() ==> a == b,
{
    lemma_num_order(a, b);
}

} // verus!
