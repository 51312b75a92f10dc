//! Signatures as ASN.1 DER documents.
//!
//! The document is `SEQUENCE { r INTEGER, s INTEGER }`: the tag `0x30`, the
//! length of what follows, and the two integers, each the tag `0x02`, its
//! length and its content. Only DER is read and written: every length is
//! definite and as short as can be, and so is every integer.

use crate::der::{
    integer, integer_content, left_pad, lemma_integer_content, lemma_integer_of_read,
    lemma_left_pad_magnitude, lemma_read_integer, lemma_read_tlv, lemma_tlv_len_monotonic,
    lemma_tlv_of_read, magnitude, parse_integer, parse_tlv, push_integer, push_tlv, read_integer,
    read_tlv, tlv, tlv_len, tlv_size, SEQUENCE_TAG,
};
use crate::error::FormatError;
use vstd::prelude::*;
use vstd::slice::{slice_subrange, slice_to_vec};

verus! {

/// The document for the signature `(r, s)`, each scalar given by its
/// big-endian bytes.
pub open spec fn encode(r: Seq<u8>, s: Seq<u8>) -> Seq<u8> {
    tlv(SEQUENCE_TAG, integer(r) + integer(s))
}

/// The length of the longest document of a curve whose field elements are
/// `element_size` bytes wide: that of two integers which both take a zero
/// byte before a magnitude of full width.
pub open spec fn spec_max_size(element_size: nat) -> nat {
    tlv_len(2 * tlv_len(element_size + 1))
}

/// Where the two integers lie in `doc`: for `r` and then for `s`, the
/// offsets at which the magnitude begins and ends. `None` where `doc` is
/// not the DER form of a sequence of two non-negative integers and nothing
/// else.
pub open spec fn layout(doc: Seq<u8>) -> Option<(int, int, int, int)> {
    match read_tlv(doc, SEQUENCE_TAG) {
        Some((start, end)) => {
            let body = doc.subrange(start, end);
            match read_integer(body) {
                Some((r_start, r_end)) => match read_integer(body.skip(r_end)) {
                    Some((s_start, s_end)) => if end == doc.len() && r_end + s_end == body.len() {
                        Some(
                            (
                                start + r_start,
                                start + r_end,
                                start + r_end + s_start,
                                start + r_end + s_end,
                            ),
                        )
                    } else {
                        None
                    },
                    None => None,
                },
                None => None,
            }
        },
        None => None,
    }
}

/// The magnitude of `r` in the document `doc`.
pub open spec fn r_of(doc: Seq<u8>) -> Seq<u8> {
    doc.subrange(layout(doc).unwrap().0, layout(doc).unwrap().1)
}

/// The magnitude of `s` in the document `doc`.
pub open spec fn s_of(doc: Seq<u8>) -> Seq<u8> {
    doc.subrange(layout(doc).unwrap().2, layout(doc).unwrap().3)
}

/// The fixed-width signature that `doc` holds, for a curve whose field
/// elements are `element_size` bytes wide: each magnitude padded with zero
/// bytes to that width, `r` before `s`. `Malformed` where `doc` is no
/// document, `OutOfRange` where it is one and a magnitude is wider than a
/// field element.
pub open spec fn decode(doc: Seq<u8>, element_size: nat) -> Result<Seq<u8>, FormatError> {
    if layout(doc) is None {
        Err(FormatError::Malformed)
    } else if r_of(doc).len() > element_size || s_of(doc).len() > element_size {
        Err(FormatError::OutOfRange)
    } else {
        Ok(left_pad(r_of(doc), element_size) + left_pad(s_of(doc), element_size))
    }
}

/// Where the two integers lie in the document made for `(r, s)`: it is
/// read back as the magnitudes of `r` and `s`.
pub proof fn lemma_layout_of_encoded(r: Seq<u8>, s: Seq<u8>)
    requires
        encode(r, s).len() <= usize::MAX,
    ensures
        layout(encode(r, s)) is Some,
        r_of(encode(r, s)) == magnitude(r),
        s_of(encode(r, s)) == magnitude(s),
{
    let body = integer(r) + integer(s);
    let doc = encode(r, s);
    lemma_integer_content(r);
    lemma_integer_content(s);
    assert(doc.len() >= body.len() >= integer(r).len() + integer(s).len());
    lemma_read_tlv(SEQUENCE_TAG, body, Seq::empty());
    assert(doc + Seq::<u8>::empty() == doc);
    let start = doc.len() - body.len();
    assert(doc.subrange(start, doc.len() as int) == body);
    lemma_read_integer(r, integer(s));
    lemma_read_integer(s, Seq::empty());
    assert(integer(s) + Seq::<u8>::empty() == integer(s));
    let r_end = integer(r).len() as int;
    assert(body.skip(r_end) == integer(s));
    let r_start = r_end - magnitude(r).len();
    let s_end = integer(s).len() as int;
    let s_start = s_end - magnitude(s).len();
    assert(layout(doc) == Some(
        (start + r_start, start + r_end, start + r_end + s_start, start + r_end + s_end),
    ));
    assert(doc.subrange(start + r_start, start + r_end) == body.subrange(r_start, r_end));
    assert(doc.subrange(start + r_end + s_start, start + r_end + s_end) == integer(s).subrange(
        s_start,
        s_end,
    ));
}

/// No document is longer than `spec_max_size` of the width of its curve.
pub proof fn lemma_encoded_len(r: Seq<u8>, s: Seq<u8>)
    requires
        r.len() == s.len(),
    ensures
        encode(r, s).len() <= spec_max_size(r.len()),
{
    lemma_integer_content(r);
    lemma_integer_content(s);
    lemma_tlv_len_monotonic(integer_content(r).len(), r.len() + 1);
    lemma_tlv_len_monotonic(integer_content(s).len(), r.len() + 1);
    lemma_tlv_len_monotonic(integer(r).len() + integer(s).len(), 2 * tlv_len(r.len() + 1));
}

/// A signature that is written as a document and read back is the same
/// signature. This holds of every document that a machine can hold.
pub proof fn lemma_decode_encoded(r: Seq<u8>, s: Seq<u8>)
    requires
        r.len() == s.len(),
        encode(r, s).len() <= usize::MAX,
    ensures
        decode(encode(r, s), r.len()) == Ok::<Seq<u8>, FormatError>(r + s),
{
    lemma_layout_of_encoded(r, s);
    lemma_left_pad_magnitude(r);
    lemma_left_pad_magnitude(s);
}

/// A document that is read and written again is the same document: of
/// each signature only one document is read.
pub proof fn lemma_encode_decoded(doc: Seq<u8>, element_size: nat)
    requires
        decode(doc, element_size) is Ok,
    ensures
        encode(left_pad(r_of(doc), element_size), left_pad(s_of(doc), element_size)) == doc,
{
    let (start, end) = read_tlv(doc, SEQUENCE_TAG).unwrap();
    let body = doc.subrange(start, end);
    let (_, r_end) = read_integer(body).unwrap();
    let rest = body.skip(r_end);
    let (_, s_end) = read_integer(rest).unwrap();
    lemma_tlv_of_read(doc, SEQUENCE_TAG);
    lemma_integer_of_read(body, element_size);
    lemma_integer_of_read(rest, element_size);
    let (r_from, _) = read_integer(body).unwrap();
    let (s_from, _) = read_integer(rest).unwrap();
    assert(r_of(doc) == body.subrange(r_from, r_end));
    assert(s_of(doc) == rest.subrange(s_from, s_end));
    assert(rest.subrange(0, s_end) == rest);
    assert(body == body.subrange(0, r_end) + rest);
    assert(doc.subrange(0, end) == doc);
}

/// The length of the longest document of a curve whose field elements are
/// `element_size` bytes wide, where a `usize` holds it. A buffer of this
/// size takes any document of the curve.
pub fn max_size(element_size: usize) -> (size: Option<usize>)
    ensures
        match size {
            Some(len) => len == spec_max_size(element_size as nat),
            None => spec_max_size(element_size as nat) > usize::MAX,
        },
{
    let content = match element_size.checked_add(1) {
        Some(len) => len,
        None => {
            return None;
        },
    };
    let integer = match tlv_size(content) {
        Some(len) => len,
        None => {
            return None;
        },
    };
    let body = match integer.checked_mul(2) {
        Some(len) => len,
        None => {
            return None;
        },
    };
    tlv_size(body)
}

/// An ECDSA signature as an ASN.1 DER document.
///
/// It is made from a fixed-width signature, or read from bytes for a curve
/// of a given width. Either way it holds a well-formed document whose two
/// integers are no wider than a field element of that curve.
#[derive(Debug)]
pub struct Signature {
    bytes: Vec<u8>,
    r_start: usize,
    r_end: usize,
    s_start: usize,
    s_end: usize,
    element_size: usize,
}

impl View for Signature {
    type V = Seq<u8>;

    /// The bytes of the document.
    closed spec fn view(&self) -> Seq<u8> {
        self.bytes@
    }
}

impl Signature {
    #[verifier::type_invariant]
    spec fn well_formed(self) -> bool {
        &&& layout(self.bytes@) == Some(
            (self.r_start as int, self.r_end as int, self.s_start as int, self.s_end as int),
        )
        &&& self.r_start <= self.r_end <= self.s_start <= self.s_end <= self.bytes@.len()
        &&& self.r_end - self.r_start <= self.element_size
        &&& self.s_end - self.s_start <= self.element_size
    }

    /// The width of a field element of the curve that the document was made
    /// or read for, in bytes.
    pub closed spec fn spec_element_size(&self) -> nat {
        self.element_size as nat
    }

    /// The magnitude of `r`: its big-endian bytes without leading zeros.
    pub open spec fn spec_r(&self) -> Seq<u8> {
        r_of(self@)
    }

    /// The magnitude of `s`: its big-endian bytes without leading zeros.
    pub open spec fn spec_s(&self) -> Seq<u8> {
        s_of(self@)
    }

    /// Reads a document, for a curve whose field elements are
    /// `element_size` bytes wide. The bytes must be the DER form of a
    /// sequence of two non-negative integers and nothing else, and neither
    /// integer may be wider than a field element.
    pub fn try_from(bytes: &[u8], element_size: usize) -> (res: Result<Signature, FormatError>)
        ensures
            match res {
                Ok(doc) => decode(bytes@, element_size as nat) is Ok && doc@ == bytes@
                    && doc.spec_element_size() == element_size,
                Err(e) => decode(bytes@, element_size as nat) == Err::<Seq<u8>, FormatError>(e),
            },
    {
        let (start, end) = match parse_tlv(bytes, SEQUENCE_TAG) {
            Some(found) => found,
            None => {
                return Err(FormatError::Malformed);
            },
        };
        let body = slice_subrange(bytes, start, end);
        let (r_start, r_end) = match parse_integer(body) {
            Some(found) => found,
            None => {
                return Err(FormatError::Malformed);
            },
        };
        let rest = slice_subrange(body, r_end, body.len());
        let (s_start, s_end) = match parse_integer(rest) {
            Some(found) => found,
            None => {
                return Err(FormatError::Malformed);
            },
        };
        if end != bytes.len() || s_end != rest.len() {
            return Err(FormatError::Malformed);
        }
        if r_end - r_start > element_size || s_end - s_start > element_size {
            return Err(FormatError::OutOfRange);
        }
        Ok(
            Signature {
                bytes: slice_to_vec(bytes),
                r_start: start + r_start,
                r_end: start + r_end,
                s_start: start + r_end + s_start,
                s_end: start + r_end + s_end,
                element_size,
            },
        )
    }

    /// Writes the document for the signature `(r, s)`, each scalar given by
    /// its big-endian bytes, both of one length: the width of a field
    /// element.
    pub fn from_scalars(r: &[u8], s: &[u8]) -> (doc: Signature)
        requires
            r@.len() == s@.len(),
        ensures
            doc@ == encode(r@, s@),
            doc@.len() <= spec_max_size(r@.len()),
            doc.spec_element_size() == r@.len(),
            doc.spec_r() == magnitude(r@),
            doc.spec_s() == magnitude(s@),
    {
        let mut body: Vec<u8> = Vec::new();
        push_integer(&mut body, r);
        push_integer(&mut body, s);
        let mut bytes: Vec<u8> = Vec::new();
        push_tlv(&mut bytes, SEQUENCE_TAG, body.as_slice());
        proof {
            assert(bytes@ == encode(r@, s@));
            assert(bytes.len() <= usize::MAX);
            lemma_layout_of_encoded(r@, s@);
            lemma_encoded_len(r@, s@);
            lemma_left_pad_magnitude(r@);
            lemma_left_pad_magnitude(s@);
        }
        match Signature::try_from(bytes.as_slice(), r.len()) {
            Ok(doc) => doc,
            Err(_) => unreached(),
        }
    }

    /// The width of a field element of the curve that the document was made
    /// or read for, in bytes.
    pub fn element_size(&self) -> (n: usize)
        ensures
            n == self.spec_element_size(),
            decode(self@, n as nat) is Ok,
    {
        proof {
            use_type_invariant(self);
        }
        self.element_size
    }

    /// The bytes of the document.
    pub fn as_bytes(&self) -> (bytes: &[u8])
        ensures
            bytes@ == self@,
    {
        self.bytes.as_slice()
    }

    /// The magnitude of `r`: its big-endian bytes without leading zeros.
    /// It is no wider than a field element, and empty where `r` is zero.
    pub fn r(&self) -> (r: &[u8])
        ensures
            r@ == self.spec_r(),
            r@.len() <= self.spec_element_size(),
    {
        proof {
            use_type_invariant(self);
        }
        slice_subrange(self.bytes.as_slice(), self.r_start, self.r_end)
    }

    /// The magnitude of `s`: its big-endian bytes without leading zeros.
    /// It is no wider than a field element, and empty where `s` is zero.
    pub fn s(&self) -> (s: &[u8])
        ensures
            s@ == self.spec_s(),
            s@.len() <= self.spec_element_size(),
    {
        proof {
            use_type_invariant(self);
        }
        slice_subrange(self.bytes.as_slice(), self.s_start, self.s_end)
    }
}

} // verus!
