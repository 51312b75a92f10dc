//! Encodings of ECDSA signatures and low-S normalization.
//!
//! A signature is a pair of scalars `(r, s)`. This crate carries such a pair
//! in two forms and converts between them:
//!
//! - [`Signature`]: `r` followed by `s`, both big-endian and both as wide as
//!   one field element of the curve, with no framing;
//! - [`asn1::Signature`]: the ASN.1 DER document
//!   `SEQUENCE { r INTEGER, s INTEGER }`.
//!
//! [`Signature::normalize_s`] replaces an `s` in the upper half of the scalar
//! field by its negation. The arithmetic for that is supplied by the curve,
//! through [`NormalizeLow`].
//!
//! Bytes that are no signature are refused with a [`FormatError`].

pub mod asn1;
pub mod bigendian;
pub mod der;
pub mod error;
pub mod fixed;
pub mod normalize;
pub mod order;

pub use crate::error::FormatError;
pub use crate::fixed::Signature;
pub use crate::normalize::NormalizeLow;
