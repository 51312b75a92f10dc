//! Signatures of fixed width: `r` followed by `s`.

use crate::asn1;
use crate::asn1::{decode, encode};
use crate::bigendian::lemma_be_bytes_of_value;
use crate::der::{push_all, push_left_padded};
use crate::error::FormatError;
use crate::normalize::{normalized, outcome, NormalizeLow};
use vstd::prelude::*;
use vstd::slice::{slice_subrange, slice_to_vec};
use vstd::std_specs::cmp::PartialEqSpecImpl;
use vstd::std_specs::convert::FromSpecImpl;

verus! {

/// The first half of a fixed-width signature: the bytes of `r`.
pub open spec fn r_half(bytes: Seq<u8>) -> Seq<u8> {
    bytes.subrange(0, bytes.len() as int / 2)
}

/// The second half of a fixed-width signature: the bytes of `s`.
pub open spec fn s_half(bytes: Seq<u8>) -> Seq<u8> {
    bytes.subrange(bytes.len() as int / 2, bytes.len() as int)
}

/// Joining two scalars of one width and splitting the result gives the two
/// scalars back.
pub proof fn lemma_halves_of_joined(r: Seq<u8>, s: Seq<u8>)
    requires
        r.len() == s.len(),
    ensures
        r_half(r + s) == r,
        s_half(r + s) == s,
{
}

/// An ECDSA signature of fixed width.
///
/// It holds the big-endian bytes of `r` followed by those of `s`, each as
/// wide as one field element of the curve, with nothing before, between or
/// after them. For a curve with a 256-bit modulus that is 64 bytes.
///
/// The values are not compared with the order of the field: a pair that is
/// no signature of the curve can be held.
#[derive(Debug)]
pub struct Signature {
    bytes: Vec<u8>,
}

impl View for Signature {
    type V = Seq<u8>;

    /// All bytes of the signature: `r`, then `s`.
    closed spec fn view(&self) -> Seq<u8> {
        self.bytes@
    }
}

impl Signature {
    #[verifier::type_invariant]
    spec fn even_length(self) -> bool {
        self.bytes@.len() % 2 == 0
    }

    /// The width of one scalar, in bytes.
    pub open spec fn spec_element_size(&self) -> nat {
        self@.len() / 2
    }

    /// The bytes of `r`.
    pub open spec fn spec_r(&self) -> Seq<u8> {
        r_half(self@)
    }

    /// The bytes of `s`.
    pub open spec fn spec_s(&self) -> Seq<u8> {
        s_half(self@)
    }

    /// The signature `(r, s)`, each scalar given by its big-endian bytes,
    /// both of one length: the width of a field element.
    pub fn from_scalars(r: &[u8], s: &[u8]) -> (sig: Signature)
        requires
            r@.len() == s@.len(),
        ensures
            sig@ == r@ + s@,
            sig.spec_element_size() == r@.len(),
    {
        let mut bytes: Vec<u8> = Vec::new();
        push_all(&mut bytes, r);
        push_all(&mut bytes, s);
        Signature { bytes }
    }

    /// Takes a signature from its bytes, for a curve whose field elements
    /// are `element_size` bytes wide. The bytes are accepted if they are
    /// twice that many; the scalars are not examined.
    pub fn try_from(bytes: &[u8], element_size: usize) -> (res: Result<Signature, FormatError>)
        ensures
            match res {
                Ok(sig) => bytes@.len() == 2 * element_size && sig@ == bytes@,
                Err(e) => bytes@.len() != 2 * element_size && e == FormatError::LengthMismatch,
            },
    {
        let len = bytes.len();
        if len % 2 == 0 && len / 2 == element_size {
            Ok(Signature { bytes: slice_to_vec(bytes) })
        } else {
            Err(FormatError::LengthMismatch)
        }
    }

    /// Reads a signature from its DER document, for a curve whose field
    /// elements are `element_size` bytes wide.
    pub fn from_asn1(bytes: &[u8], element_size: usize) -> (res: Result<Signature, FormatError>)
        ensures
            match res {
                Ok(sig) => decode(bytes@, element_size as nat) == Ok::<Seq<u8>, FormatError>(sig@),
                Err(e) => decode(bytes@, element_size as nat) == Err::<Seq<u8>, FormatError>(e),
            },
    {
        match asn1::Signature::try_from(bytes, element_size) {
            Ok(doc) => Ok(Signature::from(doc)),
            Err(e) => Err(e),
        }
    }

    /// Writes this signature as a DER document.
    pub fn to_asn1(&self) -> (doc: asn1::Signature)
        ensures
            doc@ == encode(self.spec_r(), self.spec_s()),
            doc@.len() <= asn1::spec_max_size(self.spec_element_size()),
            doc.spec_element_size() == self.spec_element_size(),
    {
        asn1::Signature::from_scalars(self.r(), self.s())
    }

    /// The width of one scalar, in bytes.
    pub fn element_size(&self) -> (n: usize)
        ensures
            n == self.spec_element_size(),
            self@.len() == 2 * n,
    {
        proof {
            use_type_invariant(self);
        }
        self.bytes.len() / 2
    }

    /// All bytes of the signature: `r`, then `s`.
    pub fn as_bytes(&self) -> (bytes: &[u8])
        ensures
            bytes@ == self@,
    {
        self.bytes.as_slice()
    }

    /// The bytes of `r`.
    pub fn r(&self) -> (r: &[u8])
        ensures
            r@ == self.spec_r(),
            r@.len() == self.spec_element_size(),
    {
        let n = self.element_size();
        slice_subrange(self.bytes.as_slice(), 0, n)
    }

    /// The bytes of `s`.
    pub fn s(&self) -> (s: &[u8])
        ensures
            s@ == self.spec_s(),
            s@.len() == self.spec_element_size(),
    {
        let n = self.element_size();
        slice_subrange(self.bytes.as_slice(), n, self.bytes.len())
    }

    /// Moves `s` to the lower half of the scalar field, so that of the two
    /// signatures `(r, s)` and `(r, order - s)` always the same one is kept.
    ///
    /// The `s` half is read as a scalar of type `S`. If it is none, the
    /// signature is refused and left as it was. If it is larger than half
    /// the order, its bytes are replaced by those of `order - s` and `true`
    /// is returned; else the signature is left as it was and `false` is
    /// returned.
    ///
    /// This takes no care to run in constant time: a signature is public.
    pub fn normalize_s<S: NormalizeLow>(&mut self) -> (res: Result<bool, FormatError>)
        ensures
            final(self)@ == normalized::<S>(old(self)@),
            res == outcome::<S>(old(self)@),
    {
        proof {
            use_type_invariant(&*self);
        }
        match S::from_bytes(self.s()) {
            None => Err(FormatError::OutOfRange),
            Some(scalar) => {
                let (low, was_high) = scalar.normalize_low();
                if was_high {
                    let bytes = low.to_bytes();
                    proof {
                        lemma_be_bytes_of_value(bytes@);
                    }
                    self.replace_s(bytes.as_slice());
                    Ok(true)
                } else {
                    Ok(false)
                }
            },
        }
    }

    /// Overwrites the `s` half with `s`, which has the width of a scalar.
    fn replace_s(&mut self, s: &[u8])
        requires
            s@.len() == old(self).spec_element_size(),
        ensures
            final(self)@ == old(self).spec_r() + s@,
    {
        let n = self.element_size();
        let mut i: usize = 0;
        while i < n
            invariant
                i <= n,
                s@.len() == n,
                self.bytes.len() == 2 * n,
                self.bytes@.subrange(0, n as int) == old(self).spec_r(),
                self.bytes@.subrange(n as int, n + i) == s@.subrange(0, i as int),
            decreases n - i,
        {
            let ghost before = self.bytes@;
            self.bytes[n + i] = s[i];
            assert(self.bytes@.subrange(0, n as int) == before.subrange(0, n as int));
            assert(self.bytes@.subrange(n as int, n + i + 1) == before.subrange(n as int, n + i).push(
                s@[i as int],
            ));
            assert(s@.subrange(0, i + 1) == s@.subrange(0, i as int).push(s@[i as int]));
            i += 1;
        }
        assert(s@.subrange(0, n as int) == s@);
        assert(self.bytes@ == self.bytes@.subrange(0, n as int) + self.bytes@.subrange(
            n as int,
            2 * n,
        ));
    }

}

impl From<asn1::Signature> for Signature {
    /// The fixed-width signature that the document holds: each integer
    /// padded with zero bytes to the width of a field element.
    fn from(doc: asn1::Signature) -> (sig: Signature)
        ensures
            decode(doc@, doc.spec_element_size()) == Ok::<Seq<u8>, FormatError>(sig@),
            sig.spec_element_size() == doc.spec_element_size(),
    {
        let n = doc.element_size();
        let mut bytes: Vec<u8> = Vec::new();
        push_left_padded(&mut bytes, doc.r(), n);
        push_left_padded(&mut bytes, doc.s(), n);
        Signature { bytes }
    }
}

/// A specification cannot write a `Signature` down, so there is no
/// `from_spec` to obey: what `from` returns is stated in its `ensures`.
impl FromSpecImpl<asn1::Signature> for Signature {
    open spec fn obeys_from_spec() -> bool {
        false
    }

    open spec fn from_spec(doc: asn1::Signature) -> Signature {
        arbitrary()
    }
}

impl Clone for Signature {
    fn clone(&self) -> (copy: Signature)
        ensures
            copy@ == self@,
    {
        proof {
            use_type_invariant(self);
        }
        Signature { bytes: slice_to_vec(self.bytes.as_slice()) }
    }
}

impl PartialEq for Signature {
    /// Two signatures are equal if they hold the same bytes.
    fn eq(&self, other: &Signature) -> (equal: bool) {
        let a = self.bytes.as_slice();
        let b = other.bytes.as_slice();
        if a.len() != b.len() {
            return false;
        }
        let mut i: usize = 0;
        while i < a.len()
            invariant
                i <= a@.len(),
                a@ == self@,
                b@ == other@,
                a@.len() == b@.len(),
                a@.subrange(0, i as int) == b@.subrange(0, i as int),
            decreases a@.len() - i,
        {
            if a[i] != b[i] {
                assert(self@[i as int] != other@[i as int]);
                return false;
            }
            assert(a@.subrange(0, i + 1) == a@.subrange(0, i as int).push(a@[i as int]));
            assert(b@.subrange(0, i + 1) == b@.subrange(0, i as int).push(b@[i as int]));
            i += 1;
        }
        assert(a@.subrange(0, a@.len() as int) == a@);
        assert(b@.subrange(0, b@.len() as int) == b@);
        true
    }
}

impl PartialEqSpecImpl for Signature {
    open spec fn obeys_eq_spec() -> bool {
        true
    }

    open spec fn eq_spec(&self, other: &Signature) -> bool {
        self@ == other@
    }
}

impl Eq for Signature {

}

} // verus!
