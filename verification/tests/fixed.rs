use ecdsa::{FormatError, Signature};

fn scalar(width: usize, last: u8) -> Vec<u8> {
    let mut bytes = vec![0u8; width];
    bytes[width - 1] = last;
    bytes
}

#[test]
fn from_scalars_keeps_both_halves() {
    let r: Vec<u8> = (1..=32).collect();
    let s: Vec<u8> = (101..=132).collect();
    let sig = Signature::from_scalars(&r, &s);
    assert_eq!(sig.r(), &r[..]);
    assert_eq!(sig.s(), &s[..]);
    assert_eq!(sig.element_size(), 32);
    assert_eq!(sig.as_bytes().len(), 64);
    assert_eq!(&sig.as_bytes()[..32], &r[..]);
    assert_eq!(&sig.as_bytes()[32..], &s[..]);
}

#[test]
fn from_scalars_of_width_one() {
    let sig = Signature::from_scalars(&[7], &[9]);
    assert_eq!(sig.as_bytes(), &[7, 9]);
    assert_eq!(sig.r(), &[7]);
    assert_eq!(sig.s(), &[9]);
}

#[test]
fn from_scalars_of_width_zero() {
    let sig = Signature::from_scalars(&[], &[]);
    assert_eq!(sig.as_bytes().len(), 0);
    assert_eq!(sig.element_size(), 0);
    assert_eq!(sig.r().len(), 0);
    assert_eq!(sig.s().len(), 0);
}

#[test]
fn try_from_takes_the_exact_length() {
    let bytes: Vec<u8> = (0..64).collect();
    let sig = Signature::try_from(&bytes, 32).unwrap();
    assert_eq!(sig.as_bytes(), &bytes[..]);
    assert_eq!(sig.r(), &bytes[..32]);
    assert_eq!(sig.s(), &bytes[32..]);
}

#[test]
fn try_from_refuses_63_bytes_for_a_64_byte_signature() {
    let bytes = vec![0u8; 63];
    assert_eq!(Signature::try_from(&bytes, 32).unwrap_err(), FormatError::LengthMismatch);
}

#[test]
fn try_from_refuses_other_lengths() {
    assert_eq!(Signature::try_from(&[0u8; 65], 32).unwrap_err(), FormatError::LengthMismatch);
    assert_eq!(Signature::try_from(&[], 32).unwrap_err(), FormatError::LengthMismatch);
    assert_eq!(Signature::try_from(&[0u8; 64], 33).unwrap_err(), FormatError::LengthMismatch);
    assert_eq!(Signature::try_from(&[0u8; 64], usize::MAX).unwrap_err(), FormatError::LengthMismatch);
    assert!(Signature::try_from(&[], 0).is_ok());
}

#[test]
fn try_from_does_not_look_at_the_values() {
    let bytes = vec![0xffu8; 64];
    let sig = Signature::try_from(&bytes, 32).unwrap();
    assert_eq!(sig.as_bytes(), &bytes[..]);
}

#[test]
fn equality_compares_all_bytes() {
    let a = Signature::from_scalars(&scalar(32, 1), &scalar(32, 2));
    let b = Signature::from_scalars(&scalar(32, 1), &scalar(32, 2));
    let other_s = Signature::from_scalars(&scalar(32, 1), &scalar(32, 3));
    let other_r = Signature::from_scalars(&scalar(32, 4), &scalar(32, 2));
    let shorter = Signature::from_scalars(&scalar(31, 1), &scalar(31, 2));
    assert_eq!(a, b);
    assert_ne!(a, other_s);
    assert_ne!(a, other_r);
    assert_ne!(a, shorter);
}

#[test]
fn clone_is_equal() {
    let a = Signature::from_scalars(&scalar(32, 1), &scalar(32, 2));
    let b = a.clone();
    assert_eq!(a, b);
    assert_eq!(a.as_bytes(), b.as_bytes());
}

#[test]
fn order_goes_by_the_first_byte_that_differs() {
    let low = Signature::from_scalars(&[1, 2], &[3, 4]);
    let high_s = Signature::from_scalars(&[1, 2], &[3, 5]);
    let high_r = Signature::from_scalars(&[1, 3], &[0, 0]);
    let top = Signature::from_scalars(&[0xff, 0], &[0, 0]);
    assert!(low < high_s);
    assert!(high_s < high_r);
    assert!(high_r < top);
    assert!(low < top);
    assert!(top > low);
    assert!(low <= low.clone());
    assert!(low >= low.clone());
    assert!(!(low < low.clone()));
    assert_eq!(low.partial_cmp(&high_s), Some(std::cmp::Ordering::Less));
    assert_eq!(high_s.partial_cmp(&low), Some(std::cmp::Ordering::Greater));
    assert_eq!(low.partial_cmp(&low.clone()), Some(std::cmp::Ordering::Equal));
}

#[test]
fn a_shorter_signature_comes_before_its_extensions() {
    let short = Signature::from_scalars(&[1], &[2]);
    let long = Signature::from_scalars(&[1, 2], &[0, 0]);
    let empty = Signature::from_scalars(&[], &[]);
    assert!(short < long);
    assert!(empty < short);
    assert!(long > empty);
    assert_eq!(short.partial_cmp(&long), Some(std::cmp::Ordering::Less));
}
