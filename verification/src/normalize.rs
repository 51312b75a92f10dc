//! Scalars of a curve, as far as normalization needs them.

use crate::bigendian::{
    be_bytes, be_value, lemma_be_bytes_len, lemma_be_value_bound, lemma_be_value_of_bytes,
};
use crate::error::FormatError;
use crate::fixed::{r_half, s_half};
use vstd::prelude::*;

verus! {

/// The representative of `{value, order - value}` in the lower half of the
/// scalar field: `value` itself unless it exceeds `order / 2`.
pub open spec fn low_half(value: nat, order: nat) -> nat {
    if value > order / 2 {
        (order - value) as nat
    } else {
        value
    }
}

/// Whether `bytes` are the encoding of a scalar of type `S`: of the right
/// length, and spelling a number below the order.
pub open spec fn is_scalar<S: NormalizeLow>(bytes: Seq<u8>) -> bool {
    bytes.len() == S::size() && be_value(bytes) < S::order()
}

/// Whether the `s` of the fixed-width signature `bytes` lies in the upper
/// half of the scalar field of `S`.
pub open spec fn is_high<S: NormalizeLow>(bytes: Seq<u8>) -> bool {
    be_value(s_half(bytes)) > S::order() / 2
}

/// The fixed-width signature `bytes` after normalization with the scalars
/// `S`: where its `s` is a scalar in the upper half of the field, `r`
/// followed by the bytes of `order - s`; else `bytes` itself.
pub open spec fn normalized<S: NormalizeLow>(bytes: Seq<u8>) -> Seq<u8> {
    if is_scalar::<S>(s_half(bytes)) && is_high::<S>(bytes) {
        r_half(bytes) + be_bytes((S::order() - be_value(s_half(bytes))) as nat, S::size())
    } else {
        bytes
    }
}

/// What normalizing the fixed-width signature `bytes` with the scalars `S`
/// reports: that its `s` is no scalar, or whether `s` was in the upper half
/// of the field.
pub open spec fn outcome<S: NormalizeLow>(bytes: Seq<u8>) -> Result<bool, FormatError> {
    if is_scalar::<S>(s_half(bytes)) {
        Ok(is_high::<S>(bytes))
    } else {
        Err(FormatError::OutOfRange)
    }
}

/// A scalar of a curve that can be moved to the lower half of its field.
///
/// A curve implements this for its scalar type. The three spec functions say
/// what the type stands for; the contracts of the three methods are stated
/// over them. An implementation written outside Verus keeps the spec
/// functions as declared here, and its methods are then held to their
/// contracts by nobody: what is proved of [`crate::Signature::normalize_s`]
/// holds of it only as far as it keeps them.
pub trait NormalizeLow: Sized {
    /// The order of the scalar field.
    open spec fn order() -> nat {
        arbitrary()
    }

    /// The number of bytes in the encoding of a scalar.
    open spec fn size() -> nat {
        arbitrary()
    }

    /// The number that this scalar stands for.
    open spec fn value(&self) -> nat {
        arbitrary()
    }

    /// Reads a scalar from its big-endian encoding. The bytes are accepted
    /// if they are `size()` many and spell a number below the order.
    fn from_bytes(bytes: &[u8]) -> (scalar: Option<Self>)
        ensures
            scalar is Some <==> bytes@.len() == Self::size() && be_value(bytes@) < Self::order(),
            scalar is Some ==> scalar->0.value() == be_value(bytes@),
    ;

    /// The big-endian encoding of this scalar, `size()` bytes long.
    fn to_bytes(&self) -> (bytes: Vec<u8>)
        requires
            self.value() < Self::order(),
        ensures
            bytes@.len() == Self::size(),
            be_value(bytes@) == self.value(),
    ;

    /// Normalizes this scalar to the lower half of the field: negates it if
    /// it is larger than half the order. Returns the new scalar, and whether
    /// the given one was in the upper half.
    ///
    /// May work in variable time.
    fn normalize_low(&self) -> (low: (Self, bool))
        requires
            self.value() < Self::order(),
        ensures
            low.1 <==> self.value() > Self::order() / 2,
            low.0.value() == low_half(self.value(), Self::order()),
    ;
}

/// Normalizing is idempotent. Of a signature whose `s` is a scalar, the
/// normalized form has an `s` that is a scalar again and at most half the
/// order, and normalizing it once more reports no change and changes nothing.
pub proof fn lemma_normalized_is_low<S: NormalizeLow>(bytes: Seq<u8>)
    requires
        bytes.len() % 2 == 0,
        is_scalar::<S>(s_half(bytes)),
    ensures
        is_scalar::<S>(s_half(normalized::<S>(bytes))),
        be_value(s_half(normalized::<S>(bytes))) <= S::order() / 2,
        outcome::<S>(normalized::<S>(bytes)) == Ok::<bool, FormatError>(false),
        normalized::<S>(normalized::<S>(bytes)) == normalized::<S>(bytes),
{
    if is_high::<S>(bytes) {
        let s = s_half(bytes);
        let low = (S::order() - be_value(s)) as nat;
        lemma_be_bytes_len(low, S::size());
        lemma_be_value_bound(s);
        lemma_be_value_of_bytes(low, S::size());
        assert(s_half(normalized::<S>(bytes)) == be_bytes(low, S::size()));
    }
}

} // verus!
