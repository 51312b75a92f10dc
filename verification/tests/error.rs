use ecdsa::{FormatError, Signature};

#[test]
fn a_refusal_becomes_the_error_of_the_signature_crate() {
    for refusal in [FormatError::LengthMismatch, FormatError::Malformed, FormatError::OutOfRange] {
        let opaque = signature::Error::from(refusal);
        assert_eq!(format!("{}", opaque), "signature error");
    }
}

#[test]
fn a_refusal_converts_where_a_signature_error_is_expected() {
    fn parse(bytes: &[u8]) -> Result<Signature, signature::Error> {
        Ok(Signature::try_from(bytes, 32)?)
    }
    assert!(parse(&[0u8; 63]).is_err());
    assert!(parse(&[0u8; 64]).is_ok());
}

#[test]
fn refusals_are_told_apart() {
    assert_ne!(FormatError::LengthMismatch, FormatError::Malformed);
    assert_ne!(FormatError::Malformed, FormatError::OutOfRange);
    assert_ne!(FormatError::OutOfRange, FormatError::LengthMismatch);
    let copy = FormatError::Malformed;
    assert_eq!(copy, FormatError::Malformed);
    assert_eq!(format!("{:?}", copy), "Malformed");
}
