//! The pieces of DER that a signature document is made of: definite lengths,
//! tag-length-value triples and non-negative integers.

use crate::bigendian::{
    be_bytes, be_value, lemma_be_bytes_len, lemma_be_bytes_of_value, lemma_be_value_of_bytes,
    lemma_be_value_prefix, pow256,
};
use vstd::prelude::*;
use vstd::slice::slice_subrange;

verus! {

/// The tag of an ASN.1 `SEQUENCE`.
pub const SEQUENCE_TAG: u8 = 0x30;

/// The tag of an ASN.1 `INTEGER`.
pub const INTEGER_TAG: u8 = 0x02;

/// The number of bytes that `n` needs: none for zero, and no leading zero
/// byte for any other number.
pub open spec fn byte_len(n: nat) -> nat
    decreases n,
{
    if n == 0 {
        0
    } else {
        1 + byte_len(n / 256)
    }
}

/// The length octets of DER for a content of `n` bytes. Below 128 the one
/// octet `n`; else the octet `0x80 | k` followed by the `k` bytes of `n`,
/// big-endian, where `k` is as small as `n` allows.
pub open spec fn length_octets(n: nat) -> Seq<u8> {
    if n < 128 {
        seq![n as u8]
    } else {
        seq![(128 + byte_len(n)) as u8] + be_bytes(n, byte_len(n))
    }
}

/// Reads the length octets at the head of `bytes`: the length that they
/// state and the number of octets that state it. `None` where `bytes` does
/// not begin with the length octets that DER prescribes for some length:
/// where it is empty or ends too early, where the length is indefinite, or
/// where it is stated in more octets than it needs.
pub open spec fn read_length(bytes: Seq<u8>) -> Option<(nat, nat)> {
    if bytes.len() == 0 {
        None
    } else if bytes[0] < 128 {
        Some((bytes[0] as nat, 1nat))
    } else {
        let k = (bytes[0] - 128) as nat;
        if k == 0 || k == 127 || bytes.len() < 1 + k {
            None
        } else {
            let digits = bytes.subrange(1, 1 + k as int);
            if digits[0] == 0 || be_value(digits) < 128 {
                None
            } else {
                Some((be_value(digits), 1 + k))
            }
        }
    }
}

/// The tag-length-value triple with the given tag and content.
pub open spec fn tlv(tag: u8, content: Seq<u8>) -> Seq<u8> {
    seq![tag] + length_octets(content.len()) + content
}

/// Reads a triple with the given tag at the head of `bytes`: the offsets in
/// `bytes` at which its content begins and ends. `None` where `bytes` does
/// not begin with such a triple.
pub open spec fn read_tlv(bytes: Seq<u8>, tag: u8) -> Option<(int, int)> {
    if bytes.len() == 0 || bytes[0] != tag {
        None
    } else {
        match read_length(bytes.skip(1)) {
            Some((n, k)) => if 1 + k + n <= bytes.len() {
                Some((1 + k as int, 1 + k as int + n as int))
            } else {
                None
            },
            None => None,
        }
    }
}

/// The length of a triple whose content has `n` bytes.
pub open spec fn tlv_len(n: nat) -> nat {
    1 + length_octets(n).len() + n
}

/// The number of zero bytes at the head of `bytes`.
pub open spec fn leading_zeros(bytes: Seq<u8>) -> nat
    decreases bytes.len(),
{
    if bytes.len() > 0 && bytes[0] == 0 {
        1 + leading_zeros(bytes.skip(1))
    } else {
        0
    }
}

/// `bytes` without its leading zero bytes: the shortest big-endian spelling
/// of the same number. Empty for zero.
pub open spec fn magnitude(bytes: Seq<u8>) -> Seq<u8> {
    bytes.skip(leading_zeros(bytes) as int)
}

/// `bytes` with zero bytes put before it up to the length `width`. Where
/// `bytes` is that long or longer, `bytes` itself.
pub open spec fn left_pad(bytes: Seq<u8>, width: nat) -> Seq<u8> {
    if bytes.len() >= width {
        bytes
    } else {
        Seq::new((width - bytes.len()) as nat, |i: int| 0u8) + bytes
    }
}

/// The content octets of the DER `INTEGER` for the number that `bytes`
/// spell, big-endian: the magnitude, with one zero byte before it where it
/// is empty or its first bit is set, since the integer is signed.
pub open spec fn integer_content(bytes: Seq<u8>) -> Seq<u8> {
    let m = magnitude(bytes);
    if m.len() == 0 || m[0] >= 128 {
        seq![0u8] + m
    } else {
        m
    }
}

/// Whether `content` is what DER prescribes for some non-negative
/// integer: not empty, the first bit clear, and a first byte of zero only
/// where the content ends there or the bit after it is set.
pub open spec fn is_integer_content(content: Seq<u8>) -> bool {
    &&& content.len() >= 1
    &&& content[0] < 128
    &&& content[0] == 0 && content.len() >= 2 ==> content[1] >= 128
}

/// The DER `INTEGER` for the number that `bytes` spell, big-endian.
pub open spec fn integer(bytes: Seq<u8>) -> Seq<u8> {
    tlv(INTEGER_TAG, integer_content(bytes))
}

/// Reads a non-negative `INTEGER` at the head of `bytes`: the offsets in
/// `bytes` at which its magnitude begins and at which the integer ends.
/// `None` where `bytes` does not begin with the DER form of one.
pub open spec fn read_integer(bytes: Seq<u8>) -> Option<(int, int)> {
    match read_tlv(bytes, INTEGER_TAG) {
        Some((start, end)) => {
            let content = bytes.subrange(start, end);
            if is_integer_content(content) {
                Some((if content[0] == 0 { start + 1 } else { start }, end))
            } else {
                None
            }
        },
        None => None,
    }
}

/// A number below `pow256(k)` needs at most `k` bytes.
pub proof fn lemma_byte_len_bound(n: nat, k: nat)
    requires
        n < pow256(k),
    ensures
        byte_len(n) <= k,
    decreases k,
{
    if n > 0 {
        lemma_byte_len_bound(n / 256, (k - 1) as nat);
    }
}

/// A number is below `pow256` of the bytes that it needs.
pub proof fn lemma_byte_len_fits(n: nat)
    ensures
        n < pow256(byte_len(n)),
    decreases n,
{
    if n > 0 {
        lemma_byte_len_fits(n / 256);
    }
}

/// The first of the bytes that a number needs is not zero.
pub proof fn lemma_byte_len_first(n: nat)
    requires
        n > 0,
    ensures
        be_bytes(n, byte_len(n)).len() == byte_len(n),
        be_bytes(n, byte_len(n))[0] != 0,
    decreases n,
{
    lemma_be_bytes_len(n, byte_len(n));
    if n >= 256 {
        lemma_byte_len_first(n / 256);
    } else {
        assert(byte_len(n / 256) == 0);
        assert(be_bytes(n / 256, 0).len() == 0);
    }
}

/// A larger number needs no fewer bytes.
pub proof fn lemma_byte_len_monotonic(a: nat, b: nat)
    requires
        a <= b,
    ensures
        byte_len(a) <= byte_len(b),
    decreases b,
{
    if a > 0 {
        lemma_byte_len_monotonic(a / 256, b / 256);
    }
}

/// A longer content makes no shorter a triple.
pub proof fn lemma_tlv_len_monotonic(a: nat, b: nat)
    requires
        a <= b,
    ensures
        tlv_len(a) <= tlv_len(b),
{
    lemma_byte_len_monotonic(a, b);
    lemma_be_bytes_len(a, byte_len(a));
    lemma_be_bytes_len(b, byte_len(b));
}

/// Length octets are read back as the length that they were made for,
/// whatever follows them.
pub proof fn lemma_read_length_octets(n: nat, rest: Seq<u8>)
    requires
        n <= u64::MAX,
    ensures
        read_length(length_octets(n) + rest) == Some((n, length_octets(n).len())),
{
    let octets = length_octets(n);
    let bytes = octets + rest;
    if n >= 128 {
        let k = byte_len(n);
        assert(pow256(8) == 0x1_0000_0000_0000_0000) by {
            reveal_with_fuel(pow256, 9);
        }
        lemma_byte_len_bound(n, 8);
        lemma_byte_len_first(n);
        lemma_byte_len_fits(n);
        lemma_be_value_of_bytes(n, k);
        assert(bytes.subrange(1, 1 + k as int) == be_bytes(n, k));
    }
}

/// A triple is read back as its content, whatever follows it.
pub proof fn lemma_read_tlv(tag: u8, content: Seq<u8>, rest: Seq<u8>)
    requires
        content.len() <= u64::MAX,
    ensures
        read_tlv(tlv(tag, content) + rest, tag) == Some(
            (tlv(tag, content).len() - content.len(), tlv(tag, content).len() as int),
        ),
        (tlv(tag, content) + rest).subrange(
            tlv(tag, content).len() - content.len(),
            tlv(tag, content).len() as int,
        ) == content,
{
    let octets = length_octets(content.len());
    let bytes = tlv(tag, content) + rest;
    lemma_read_length_octets(content.len(), content + rest);
    assert(bytes.skip(1) == octets + (content + rest));
}

/// What the number of leading zeros is: it is within the length, the bytes
/// before it are zero, and the byte at it, if there is one, is not.
pub proof fn lemma_leading_zeros(bytes: Seq<u8>)
    ensures
        leading_zeros(bytes) <= bytes.len(),
        forall|i: int| 0 <= i < leading_zeros(bytes) ==> bytes[i] == 0,
        leading_zeros(bytes) < bytes.len() ==> bytes[leading_zeros(bytes) as int] != 0,
    decreases bytes.len(),
{
    if bytes.len() > 0 && bytes[0] == 0 {
        let tail = bytes.skip(1);
        lemma_leading_zeros(tail);
        assert forall|i: int| 0 <= i < leading_zeros(bytes) implies bytes[i] == 0 by {
            if i > 0 {
                assert(bytes[i] == tail[i - 1]);
            }
        }
        if leading_zeros(bytes) < bytes.len() {
            assert(bytes[leading_zeros(bytes) as int] == tail[leading_zeros(tail) as int]);
        }
    }
}

/// The number of leading zeros is the only `k` before which all bytes are
/// zero and at which there is no zero byte.
pub proof fn lemma_leading_zeros_is(bytes: Seq<u8>, k: nat)
    requires
        k <= bytes.len(),
        forall|i: int| 0 <= i < k ==> bytes[i] == 0,
        k < bytes.len() ==> bytes[k as int] != 0,
    ensures
        leading_zeros(bytes) == k,
    decreases k,
{
    if k > 0 {
        let tail = bytes.skip(1);
        assert forall|i: int| 0 <= i < k - 1 implies tail[i] == 0 by {
            assert(tail[i] == bytes[i + 1]);
        }
        lemma_leading_zeros_is(tail, (k - 1) as nat);
    }
}

/// Padding the magnitude of `bytes` back to the length of `bytes` gives
/// `bytes`.
pub proof fn lemma_left_pad_magnitude(bytes: Seq<u8>)
    ensures
        magnitude(bytes).len() <= bytes.len(),
        left_pad(magnitude(bytes), bytes.len()) == bytes,
{
    lemma_leading_zeros(bytes);
}

/// The content made for a number is as DER prescribes, and what is left of
/// it without the zero byte at its head is the magnitude.
pub proof fn lemma_integer_content(bytes: Seq<u8>)
    ensures
        is_integer_content(integer_content(bytes)),
        integer_content(bytes).len() <= bytes.len() + 1,
        integer_content(bytes).skip(if integer_content(bytes)[0] == 0 { 1int } else { 0int })
            == magnitude(bytes),
{
    lemma_leading_zeros(bytes);
    let m = magnitude(bytes);
    if m.len() > 0 {
        assert(m[0] == bytes[leading_zeros(bytes) as int]);
    }
}

/// An integer is read back as the magnitude of the number that it was made
/// for, whatever follows it.
pub proof fn lemma_read_integer(bytes: Seq<u8>, rest: Seq<u8>)
    requires
        integer_content(bytes).len() <= u64::MAX,
    ensures
        read_integer(integer(bytes) + rest) == Some(
            (integer(bytes).len() - magnitude(bytes).len(), integer(bytes).len() as int),
        ),
        (integer(bytes) + rest).subrange(
            integer(bytes).len() - magnitude(bytes).len(),
            integer(bytes).len() as int,
        ) == magnitude(bytes),
        (integer(bytes) + rest).skip(integer(bytes).len() as int) == rest,
{
    let content = integer_content(bytes);
    lemma_integer_content(bytes);
    lemma_read_tlv(INTEGER_TAG, content, rest);
}

/// A byte string that does not begin with a zero byte spells a number
/// that needs all of its bytes.
pub proof fn lemma_byte_len_of_value(bytes: Seq<u8>)
    requires
        bytes.len() > 0,
        bytes[0] != 0,
    ensures
        be_value(bytes) > 0,
        byte_len(be_value(bytes)) == bytes.len(),
    decreases bytes.len(),
{
    if bytes.len() > 1 {
        lemma_byte_len_of_value(bytes.drop_last());
    } else {
        assert(bytes.drop_last().len() == 0);
        assert(be_value(bytes.drop_last()) == 0);
        assert(byte_len(be_value(bytes) / 256) == 0);
    }
}

/// Only the length octets that are made for a length are read as that
/// length.
pub proof fn lemma_length_octets_of_read(bytes: Seq<u8>)
    requires
        read_length(bytes) is Some,
    ensures
        read_length(bytes).unwrap().1 <= bytes.len(),
        bytes.subrange(0, read_length(bytes).unwrap().1 as int) == length_octets(
            read_length(bytes).unwrap().0,
        ),
{
    if bytes[0] >= 128 {
        let k = (bytes[0] - 128) as nat;
        let digits = bytes.subrange(1, 1 + k as int);
        lemma_byte_len_of_value(digits);
        lemma_be_bytes_of_value(digits);
        assert(bytes.subrange(0, 1 + k as int) == seq![bytes[0]] + digits);
    }
}

/// Only the triple that is made for a content is read as that content.
pub proof fn lemma_tlv_of_read(bytes: Seq<u8>, tag: u8)
    requires
        read_tlv(bytes, tag) is Some,
    ensures
        0 <= read_tlv(bytes, tag).unwrap().0 <= read_tlv(bytes, tag).unwrap().1 <= bytes.len(),
        bytes.subrange(0, read_tlv(bytes, tag).unwrap().1) == tlv(
            tag,
            bytes.subrange(read_tlv(bytes, tag).unwrap().0, read_tlv(bytes, tag).unwrap().1),
        ),
{
    let (start, end) = read_tlv(bytes, tag).unwrap();
    let tail = bytes.skip(1);
    lemma_length_octets_of_read(tail);
    assert(tail.subrange(0, start - 1) == bytes.subrange(1, start));
    assert(bytes.subrange(0, end) == seq![tag] + bytes.subrange(1, start) + bytes.subrange(
        start,
        end,
    ));
}

/// Only the integer that is made for a number is read as that number: what
/// is read as an integer is the integer made for its magnitude, at any
/// width that the magnitude is padded to.
pub proof fn lemma_integer_of_read(bytes: Seq<u8>, width: nat)
    requires
        read_integer(bytes) is Some,
        read_integer(bytes).unwrap().1 - read_integer(bytes).unwrap().0 <= width,
    ensures
        0 <= read_integer(bytes).unwrap().0 <= read_integer(bytes).unwrap().1 <= bytes.len(),
        bytes.subrange(0, read_integer(bytes).unwrap().1) == integer(
            left_pad(
                bytes.subrange(read_integer(bytes).unwrap().0, read_integer(bytes).unwrap().1),
                width,
            ),
        ),
{
    let (start, end) = read_tlv(bytes, INTEGER_TAG).unwrap();
    let content = bytes.subrange(start, end);
    let (from, _) = read_integer(bytes).unwrap();
    let m = bytes.subrange(from, end);
    let padded = left_pad(m, width);
    lemma_tlv_of_read(bytes, INTEGER_TAG);
    if content[0] == 0 {
        assert(m == content.skip(1));
        if content.len() >= 2 {
            assert(m[0] == content[1]);
        }
    } else {
        assert(m == content);
    }
    lemma_leading_zeros_is(padded, (width - m.len()) as nat);
    assert(magnitude(padded) == m);
    assert(integer_content(padded) == content);
}

/// Puts `bytes` at the end of `out`.
pub fn push_all(out: &mut Vec<u8>, bytes: &[u8])
    ensures
        final(out)@ == old(out)@ + bytes@,
{
    let mut i: usize = 0;
    while i < bytes.len()
        invariant
            i <= bytes@.len(),
            out@ == old(out)@ + bytes@.subrange(0, i as int),
        decreases bytes@.len() - i,
    {
        out.push(bytes[i]);
        i += 1;
    }
    assert(bytes@.subrange(0, bytes@.len() as int) == bytes@);
}

/// Puts `bytes` at the end of `out`, with zero bytes before it up to the
/// length `width`.
pub fn push_left_padded(out: &mut Vec<u8>, bytes: &[u8], width: usize)
    requires
        bytes@.len() <= width,
    ensures
        final(out)@ == old(out)@ + left_pad(bytes@, width as nat),
{
    let zeros = width - bytes.len();
    let mut i: usize = 0;
    while i < zeros
        invariant
            i <= zeros,
            out@ == old(out)@ + Seq::new(i as nat, |i: int| 0u8),
        decreases zeros - i,
    {
        out.push(0);
        i += 1;
    }
    push_all(out, bytes);
}

/// The number of bytes that `n` needs.
fn byte_count(n: usize) -> (k: usize)
    ensures
        k == byte_len(n as nat),
        k <= 8,
{
    proof {
        assert(pow256(8) == 0x1_0000_0000_0000_0000) by {
            reveal_with_fuel(pow256, 9);
        }
        lemma_byte_len_bound(n as nat, 8);
    }
    let mut rest: usize = n;
    let mut k: usize = 0;
    while rest > 0
        invariant
            byte_len(n as nat) == k + byte_len(rest as nat),
            byte_len(n as nat) <= 8,
        decreases rest,
    {
        rest = rest / 256;
        k += 1;
    }
    k
}

/// Puts the bytes that `n` needs at the end of `out`, most significant
/// first.
fn push_be(out: &mut Vec<u8>, n: usize)
    ensures
        final(out)@ == old(out)@ + be_bytes(n as nat, byte_len(n as nat)),
    decreases n,
{
    if n > 0 {
        push_be(out, n / 256);
        out.push((n % 256) as u8);
    }
}

/// The length of a triple whose content has `n` bytes, where a `usize`
/// holds it.
pub fn tlv_size(n: usize) -> (size: Option<usize>)
    ensures
        match size {
            Some(len) => len == tlv_len(n as nat),
            None => tlv_len(n as nat) > usize::MAX,
        },
{
    proof {
        lemma_be_bytes_len(n as nat, byte_len(n as nat));
    }
    let head: usize = if n < 128 {
        2
    } else {
        2 + byte_count(n)
    };
    n.checked_add(head)
}

/// Puts the length octets for a content of `n` bytes at the end of `out`.
pub fn push_length(out: &mut Vec<u8>, n: usize)
    ensures
        final(out)@ == old(out)@ + length_octets(n as nat),
{
    if n < 128 {
        out.push(n as u8);
    } else {
        let k = byte_count(n);
        out.push((128 + k) as u8);
        push_be(out, n);
    }
}

/// Puts the triple with the given tag and content at the end of `out`.
pub fn push_tlv(out: &mut Vec<u8>, tag: u8, content: &[u8])
    ensures
        final(out)@ == old(out)@ + tlv(tag, content@),
{
    out.push(tag);
    push_length(out, content.len());
    push_all(out, content);
}

/// Counts the zero bytes at the head of `bytes`.
pub fn count_leading_zeros(bytes: &[u8]) -> (k: usize)
    ensures
        k == leading_zeros(bytes@),
        k <= bytes@.len(),
{
    let mut k: usize = 0;
    while k < bytes.len() && bytes[k] == 0
        invariant
            k <= bytes@.len(),
            forall|i: int| 0 <= i < k ==> bytes@[i] == 0,
        decreases bytes@.len() - k,
    {
        k += 1;
    }
    proof {
        lemma_leading_zeros_is(bytes@, k as nat);
    }
    k
}

/// Puts the DER `INTEGER` for the number that `bytes` spell, big-endian,
/// at the end of `out`.
pub fn push_integer(out: &mut Vec<u8>, bytes: &[u8])
    ensures
        final(out)@ == old(out)@ + integer(bytes@),
{
    let k = count_leading_zeros(bytes);
    let mut content: Vec<u8> = Vec::new();
    if k == bytes.len() || bytes[k] >= 128 {
        content.push(0);
    }
    push_all(&mut content, slice_subrange(bytes, k, bytes.len()));
    assert(content@ == integer_content(bytes@));
    push_tlv(out, INTEGER_TAG, content.as_slice());
}

/// Reads the length octets at the head of `bytes`: the length that they
/// state and the number of octets that state it. `None` where `bytes` does
/// not begin with length octets as DER prescribes them, and also where
/// the length that they state is more than a `usize` holds.
pub fn parse_length(bytes: &[u8]) -> (out: Option<(usize, usize)>)
    ensures
        match out {
            Some((n, k)) => read_length(bytes@) == Some((n as nat, k as nat)) && k <= bytes@.len(),
            None => match read_length(bytes@) {
                Some((n, _)) => n > usize::MAX,
                None => true,
            },
        },
{
    let len = bytes.len();
    if len == 0 {
        return None;
    }
    let first = bytes[0];
    if first < 128 {
        return Some((first as usize, 1));
    }
    let k = (first - 128) as usize;
    if k == 0 || k == 127 || len - 1 < k {
        return None;
    }
    if bytes[1] == 0 {
        return None;
    }
    let ghost digits = bytes@.subrange(1, 1 + k);
    let mut value: usize = 0;
    let mut i: usize = 0;
    while i < k
        invariant
            i <= k,
            1 + k <= bytes@.len(),
            bytes@[0] >= 128,
            k == bytes@[0] - 128,
            digits == bytes@.subrange(1, 1 + k),
            value == be_value(digits.subrange(0, i as int)),
        decreases k - i,
    {
        let digit = bytes[1 + i];
        proof {
            let next = digits.subrange(0, i + 1);
            assert(next.drop_last() == digits.subrange(0, i as int));
            assert(next.last() == digit);
            lemma_be_value_prefix(digits, i + 1);
        }
        if value > (usize::MAX - digit as usize) / 256 {
            return None;
        }
        value = value * 256 + digit as usize;
        i += 1;
    }
    assert(digits.subrange(0, k as int) == digits);
    if value < 128 {
        return None;
    }
    Some((value, 1 + k))
}

/// Reads a triple with the given tag at the head of `bytes`: the offsets in
/// `bytes` at which its content begins and ends. `None` where `bytes` does
/// not begin with such a triple.
pub fn parse_tlv(bytes: &[u8], tag: u8) -> (out: Option<(usize, usize)>)
    ensures
        match out {
            Some((start, end)) => read_tlv(bytes@, tag) == Some((start as int, end as int))
                && start <= end <= bytes@.len(),
            None => read_tlv(bytes@, tag) is None,
        },
{
    if bytes.len() == 0 || bytes[0] != tag {
        return None;
    }
    match parse_length(slice_subrange(bytes, 1, bytes.len())) {
        None => None,
        Some((n, k)) => {
            if n > bytes.len() - 1 - k {
                None
            } else {
                Some((1 + k, 1 + k + n))
            }
        },
    }
}

/// Reads a non-negative `INTEGER` at the head of `bytes`: the offsets in
/// `bytes` at which its magnitude begins and at which the integer ends.
/// `None` where `bytes` does not begin with the DER form of one.
pub fn parse_integer(bytes: &[u8]) -> (out: Option<(usize, usize)>)
    ensures
        match out {
            Some((start, end)) => read_integer(bytes@) == Some((start as int, end as int))
                && start <= end <= bytes@.len(),
            None => read_integer(bytes@) is None,
        },
{
    match parse_tlv(bytes, INTEGER_TAG) {
        None => None,
        Some((start, end)) => {
            let ghost content = bytes@.subrange(start as int, end as int);
            if start == end {
                return None;
            }
            let first = bytes[start];
            assert(first == content[0]);
            if first >= 128 {
                None
            } else if first == 0 {
                if end - start >= 2 {
                    assert(bytes@[start + 1] == content[1]);
                    if bytes[start + 1] < 128 {
                        return None;
                    }
                }
                Some((start + 1, end))
            } else {
                Some((start, end))
            }
        },
    }
}

} // verus!
