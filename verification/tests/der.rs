use ecdsa::asn1;
use ecdsa::der;

fn length_octets(n: usize) -> Vec<u8> {
    let mut out = Vec::new();
    der::push_length(&mut out, n);
    out
}

#[test]
fn short_lengths_take_one_octet() {
    assert_eq!(length_octets(0), [0x00]);
    assert_eq!(length_octets(1), [0x01]);
    assert_eq!(length_octets(127), [0x7f]);
}

#[test]
fn long_lengths_take_as_few_octets_as_they_need() {
    assert_eq!(length_octets(128), [0x81, 0x80]);
    assert_eq!(length_octets(255), [0x81, 0xff]);
    assert_eq!(length_octets(256), [0x82, 0x01, 0x00]);
    assert_eq!(length_octets(65535), [0x82, 0xff, 0xff]);
    assert_eq!(length_octets(65536), [0x83, 0x01, 0x00, 0x00]);
    assert_eq!(length_octets(0x0102_0304), [0x84, 0x01, 0x02, 0x03, 0x04]);
}

#[test]
fn push_length_keeps_what_is_there() {
    let mut out = vec![0xaa, 0xbb];
    der::push_length(&mut out, 300);
    assert_eq!(out, [0xaa, 0xbb, 0x82, 0x01, 0x2c]);
}

#[test]
fn lengths_are_read_back() {
    for n in [0usize, 1, 127, 128, 129, 255, 256, 257, 65535, 65536, 1 << 24, usize::MAX] {
        let mut bytes = length_octets(n);
        let used = bytes.len();
        bytes.extend_from_slice(&[0xde, 0xad]);
        assert_eq!(der::parse_length(&bytes), Some((n, used)));
    }
}

#[test]
fn malformed_lengths_are_not_read() {
    assert_eq!(der::parse_length(&[]), None);
    assert_eq!(der::parse_length(&[0x80]), None);
    assert_eq!(der::parse_length(&[0x80, 0x01]), None);
    assert_eq!(der::parse_length(&[0x81]), None);
    assert_eq!(der::parse_length(&[0x81, 0x7f]), None);
    assert_eq!(der::parse_length(&[0x81, 0x00]), None);
    assert_eq!(der::parse_length(&[0x82, 0x00, 0x80]), None);
    assert_eq!(der::parse_length(&[0x82, 0x01]), None);
    assert_eq!(der::parse_length(&[0xff, 0x01]), None);
    assert_eq!(der::parse_length(&[0x81, 0x80]), Some((128, 2)));
    assert_eq!(der::parse_length(&[0x05, 0x01]), Some((5, 1)));
}

#[test]
fn lengths_beyond_the_machine_are_not_read() {
    let mut bytes = vec![0x80 + 17];
    bytes.extend_from_slice(&[0x01; 17]);
    assert_eq!(der::parse_length(&bytes), None);
    let mut bytes = vec![0x80 + 126];
    bytes.extend_from_slice(&[0xff; 126]);
    assert_eq!(der::parse_length(&bytes), None);
}

#[test]
fn a_triple_is_tag_length_and_content() {
    let mut out = Vec::new();
    der::push_tlv(&mut out, 0x04, &[1, 2, 3]);
    assert_eq!(out, [0x04, 0x03, 1, 2, 3]);
    let mut out = Vec::new();
    der::push_tlv(&mut out, 0x30, &[]);
    assert_eq!(out, [0x30, 0x00]);
    let mut out = vec![9];
    der::push_tlv(&mut out, 0x04, &[7u8; 200]);
    assert_eq!(out.len(), 1 + 3 + 200);
    assert_eq!(&out[..4], &[9, 0x04, 0x81, 200]);
}

#[test]
fn a_triple_is_read_at_the_head() {
    assert_eq!(der::parse_tlv(&[0x04, 0x03, 1, 2, 3, 0xff], 0x04), Some((2, 5)));
    assert_eq!(der::parse_tlv(&[0x04, 0x03, 1, 2, 3], 0x04), Some((2, 5)));
    assert_eq!(der::parse_tlv(&[0x04, 0x00], 0x04), Some((2, 2)));
    assert_eq!(der::parse_tlv(&[0x04, 0x03, 1, 2], 0x04), None);
    assert_eq!(der::parse_tlv(&[0x04, 0x03, 1, 2, 3], 0x05), None);
    assert_eq!(der::parse_tlv(&[0x04], 0x04), None);
    assert_eq!(der::parse_tlv(&[], 0x04), None);
    let mut long = vec![0x04, 0x81, 0x80];
    long.extend_from_slice(&[0u8; 128]);
    assert_eq!(der::parse_tlv(&long, 0x04), Some((3, 131)));
    long.pop();
    assert_eq!(der::parse_tlv(&long, 0x04), None);
}

#[test]
fn leading_zeros_are_counted() {
    assert_eq!(der::count_leading_zeros(&[]), 0);
    assert_eq!(der::count_leading_zeros(&[1, 0, 0]), 0);
    assert_eq!(der::count_leading_zeros(&[0, 0, 1, 0]), 2);
    assert_eq!(der::count_leading_zeros(&[0, 0, 0]), 3);
}

#[test]
fn integers_are_minimal_and_not_negative() {
    let cases: [(&[u8], &[u8]); 8] = [
        (&[0, 0, 0, 1], &[0x02, 0x01, 0x01]),
        (&[0, 0, 0, 0], &[0x02, 0x01, 0x00]),
        (&[], &[0x02, 0x01, 0x00]),
        (&[0x7f], &[0x02, 0x01, 0x7f]),
        (&[0x80], &[0x02, 0x02, 0x00, 0x80]),
        (&[0, 0x80], &[0x02, 0x02, 0x00, 0x80]),
        (&[0, 0x01, 0x00], &[0x02, 0x02, 0x01, 0x00]),
        (&[0xff, 0xff], &[0x02, 0x03, 0x00, 0xff, 0xff]),
    ];
    for (bytes, expected) in cases {
        let mut out = Vec::new();
        der::push_integer(&mut out, bytes);
        assert_eq!(out, expected);
    }
}

#[test]
fn integers_are_read_as_their_magnitude() {
    assert_eq!(der::parse_integer(&[0x02, 0x01, 0x01]), Some((2, 3)));
    assert_eq!(der::parse_integer(&[0x02, 0x01, 0x00]), Some((3, 3)));
    assert_eq!(der::parse_integer(&[0x02, 0x02, 0x00, 0x80]), Some((3, 4)));
    assert_eq!(der::parse_integer(&[0x02, 0x02, 0x01, 0x00, 0xaa]), Some((2, 4)));
    assert_eq!(der::parse_integer(&[0x02, 0x00]), None);
    assert_eq!(der::parse_integer(&[0x02, 0x01, 0x80]), None);
    assert_eq!(der::parse_integer(&[0x02, 0x02, 0x00, 0x7f]), None);
    assert_eq!(der::parse_integer(&[0x02, 0x02, 0x00, 0x00]), None);
    assert_eq!(der::parse_integer(&[0x03, 0x01, 0x01]), None);
}

#[test]
fn padding_puts_zeros_in_front() {
    let mut out = vec![9];
    der::push_left_padded(&mut out, &[1, 2], 5);
    assert_eq!(out, [9, 0, 0, 0, 1, 2]);
    der::push_left_padded(&mut out, &[3], 1);
    assert_eq!(out, [9, 0, 0, 0, 1, 2, 3]);
    der::push_left_padded(&mut out, &[], 2);
    assert_eq!(out, [9, 0, 0, 0, 1, 2, 3, 0, 0]);
}

#[test]
fn push_all_appends() {
    let mut out = vec![1];
    der::push_all(&mut out, &[2, 3]);
    der::push_all(&mut out, &[]);
    assert_eq!(out, [1, 2, 3]);
}

#[test]
fn the_length_of_a_triple() {
    assert_eq!(der::tlv_size(0), Some(2));
    assert_eq!(der::tlv_size(127), Some(129));
    assert_eq!(der::tlv_size(128), Some(131));
    assert_eq!(der::tlv_size(255), Some(258));
    assert_eq!(der::tlv_size(256), Some(260));
    assert_eq!(der::tlv_size(usize::MAX), None);
    assert_eq!(der::tlv_size(usize::MAX - 9), None);
}

#[test]
fn the_longest_document_of_a_curve() {
    assert_eq!(asn1::max_size(32), Some(72));
    assert_eq!(asn1::max_size(48), Some(104));
    assert_eq!(asn1::max_size(60), Some(128));
    assert_eq!(asn1::max_size(61), Some(131));
    assert_eq!(asn1::max_size(66), Some(141));
    assert_eq!(asn1::max_size(0), Some(8));
    assert_eq!(asn1::max_size(1), Some(10));
    assert_eq!(asn1::max_size(usize::MAX), None);
    assert_eq!(asn1::max_size(usize::MAX / 2), None);
}

#[test]
fn the_longest_document_is_reached_and_not_passed() {
    for width in [0usize, 1, 2, 32, 60, 61, 66, 124, 125, 126, 127, 200, 300] {
        let top = vec![0xffu8; width];
        let doc = asn1::Signature::from_scalars(&top, &top);
        assert_eq!(Some(doc.as_bytes().len()), asn1::max_size(width));
        let low = vec![0x01u8; width];
        let doc = asn1::Signature::from_scalars(&low, &top);
        assert!(doc.as_bytes().len() <= asn1::max_size(width).unwrap());
    }
}
