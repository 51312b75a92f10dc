//! Byte strings read as big-endian natural numbers.

use vstd::prelude::*;

verus! {

/// The natural number that `bytes` spell, most significant byte first.
pub open spec fn be_value(bytes: Seq<u8>) -> nat
    decreases bytes.len(),
{
    if bytes.len() == 0 {
        0
    } else {
        be_value(bytes.drop_last()) * 256 + bytes.last() as nat
    }
}

/// The `len` bytes that spell `value`, most significant byte first. Where
/// `value` needs more than `len` bytes, its low `len` bytes.
pub open spec fn be_bytes(value: nat, len: nat) -> Seq<u8>
    decreases len,
{
    if len == 0 {
        Seq::empty()
    } else {
        be_bytes(value / 256, (len - 1) as nat).push((value % 256) as u8)
    }
}

/// The number of byte strings of length `len`: 256 to the power `len`.
pub open spec fn pow256(len: nat) -> nat
    decreases len,
{
    if len == 0 {
        1
    } else {
        256 * pow256((len - 1) as nat)
    }
}

/// `be_bytes` has the length asked for.
pub proof fn lemma_be_bytes_len(value: nat, len: nat)
    ensures
        be_bytes(value, len).len() == len,
    decreases len,
{
    if len > 0 {
        lemma_be_bytes_len(value / 256, (len - 1) as nat);
    }
}

/// A byte string is the spelling of its own value at its own length.
pub proof fn lemma_be_bytes_of_value(bytes: Seq<u8>)
    ensures
        be_bytes(be_value(bytes), bytes.len()) == bytes,
    decreases bytes.len(),
{
    if bytes.len() > 0 {
        let front = bytes.drop_last();
        lemma_be_bytes_of_value(front);
        let v = be_value(bytes);
        assert(v / 256 == be_value(front));
        assert(v % 256 == bytes.last());
        assert(be_bytes(v, bytes.len()) == be_bytes(v / 256, (bytes.len() - 1) as nat).push(
            (v % 256) as u8,
        ));
        assert(front.push(bytes.last()) == bytes);
    }
}

/// A byte string of length `len` spells a number below `pow256(len)`.
pub proof fn lemma_be_value_bound(bytes: Seq<u8>)
    ensures
        be_value(bytes) < pow256(bytes.len()),
    decreases bytes.len(),
{
    if bytes.len() > 0 {
        lemma_be_value_bound(bytes.drop_last());
    }
}

/// A number below `pow256(len)` is the value of its spelling in `len` bytes.
pub proof fn lemma_be_value_of_bytes(value: nat, len: nat)
    requires
        value < pow256(len),
    ensures
        be_value(be_bytes(value, len)) == value,
    decreases len,
{
    if len > 0 {
        let front = be_bytes(value / 256, (len - 1) as nat);
        lemma_be_value_of_bytes(value / 256, (len - 1) as nat);
        assert(be_bytes(value, len).drop_last() == front);
    }
}

/// The bytes before any place in a byte string spell no larger a number
/// than the whole.
pub proof fn lemma_be_value_prefix(bytes: Seq<u8>, len: int)
    requires
        0 <= len <= bytes.len(),
    ensures
        be_value(bytes.subrange(0, len)) <= be_value(bytes),
    decreases bytes.len() - len,
{
    if len < bytes.len() {
        let front = bytes.drop_last();
        lemma_be_value_prefix(front, len);
        assert(front.subrange(0, len) == bytes.subrange(0, len));
    } else {
        assert(bytes.subrange(0, len) == bytes);
    }
}

/// Whether `a` comes before `b` in the order of byte strings: at the first
/// place where they differ `a` has the smaller byte, or `a` ends there and
/// `b` goes on.
pub open spec fn lex_less(a: Seq<u8>, b: Seq<u8>) -> bool
    decreases a.len(),
{
    if b.len() == 0 {
        false
    } else if a.len() == 0 {
        true
    } else if a[0] != b[0] {
        a[0] < b[0]
    } else {
        lex_less(a.skip(1), b.skip(1))
    }
}

/// Bytes that two byte strings have in common at the head do not decide
/// their order.
pub proof fn lemma_lex_less_skip(a: Seq<u8>, b: Seq<u8>, k: int)
    requires
        0 <= k <= a.len(),
        k <= b.len(),
        forall|i: int| 0 <= i < k ==> a[i] == b[i],
    ensures
        lex_less(a, b) == lex_less(a.skip(k), b.skip(k)),
    decreases k,
{
    if k > 0 {
        let a1 = a.skip(1);
        let b1 = b.skip(1);
        assert forall|i: int| 0 <= i < k - 1 implies a1[i] == b1[i] by {
            assert(a1[i] == a[i + 1]);
            assert(b1[i] == b[i + 1]);
        }
        lemma_lex_less_skip(a1, b1, k - 1);
        assert(a1.skip(k - 1) == a.skip(k));
        assert(b1.skip(k - 1) == b.skip(k));
    } else {
        assert(a.skip(0) == a);
        assert(b.skip(0) == b);
    }
}

/// Whether `a` comes before `b` in the order of byte strings.
pub fn bytes_less(a: &[u8], b: &[u8]) -> (less: bool)
    ensures
        less == lex_less(a@, b@),
{
    let mut k: usize = 0;
    while k < a.len() && k < b.len() && a[k] == b[k]
        invariant
            k <= a@.len(),
            k <= b@.len(),
            forall|i: int| 0 <= i < k ==> a@[i] == b@[i],
        decreases a@.len() - k,
    {
        k += 1;
    }
    proof {
        lemma_lex_less_skip(a@, b@, k as int);
    }
    if k == b.len() {
        false
    } else if k == a.len() {
        true
    } else {
        assert(a@.skip(k as int)[0] == a@[k as int]);
        assert(b@.skip(k as int)[0] == b@[k as int]);
        a[k] < b[k]
    }
}

} // verus!
