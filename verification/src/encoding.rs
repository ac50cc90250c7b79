//! Byte strings as numbers, and byte strings compared.

use vstd::prelude::*;

verus! {

/// The number that `bytes` spells in base 256, least significant byte first.
pub open spec fn le_value(bytes: Seq<u8>) -> nat
    decreases bytes.len(),
{
    if bytes.len() == 0 {
        0
    } else {
        (bytes[0] as nat) + 256 * le_value(bytes.drop_first())
    }
}

/// Two byte strings of one length that spell the same number are the same string.
pub proof fn lemma_le_value_injective(a: Seq<u8>, b: Seq<u8>)
    requires
        a.len() == b.len(),
        le_value(a) == le_value(b),
    ensures
        a == b,
    decreases a.len(),
{
    if a.len() == 0 {
        assert(a =~= b);
    } else {
        let ra = le_value(a.drop_first());
        let rb = le_value(b.drop_first());
        assert(a[0] as nat + 256 * ra == b[0] as nat + 256 * rb);
        assert(a[0] == b[0] && ra == rb) by {
            if ra < rb {
                assert(256 * rb >= 256 * ra + 256);
            } else if rb < ra {
                assert(256 * ra >= 256 * rb + 256);
            }
        }
        lemma_le_value_injective(a.drop_first(), b.drop_first());
        assert(a =~= seq![a[0]] + a.drop_first());
        assert(b =~= seq![b[0]] + b.drop_first());
    }
}

/// A string of zero bytes spells zero, and no other string of its length does.
pub proof fn lemma_le_value_zero(a: Seq<u8>)
    ensures
        le_value(a) == 0 <==> (forall|i: int| 0 <= i < a.len() ==> a[i] == 0),
    decreases a.len(),
{
    if a.len() > 0 {
        let rest = a.drop_first();
        lemma_le_value_zero(rest);
        if le_value(a) == 0 {
            assert forall|i: int| 0 <= i < a.len() implies a[i] == 0 by {
                if i > 0 {
                    assert(a[i] == rest[i - 1]);
                }
            }
        }
        if forall|i: int| 0 <= i < a.len() ==> a[i] == 0 {
            assert forall|i: int| 0 <= i < rest.len() implies rest[i] == 0 by {
                assert(rest[i] == a[i + 1]);
            }
        }
    }
}

/// The `count` lowest base-256 digits of `x`, least significant first.
pub open spec fn le_bytes(x: nat, count: nat) -> Seq<u8>
    decreases count,
{
    if count == 0 {
        Seq::empty()
    } else {
        seq![(x % 256) as u8] + le_bytes(x / 256, (count - 1) as nat)
    }
}

/// Appends the eight little-endian bytes of `x` to `out`.
pub fn push_u64_le(out: &mut Vec<u8>, x: u64)
    ensures
        final(out)@ == old(out)@ + le_bytes(x as nat, 8),
{
    let mut rest: u64 = x;
    let mut k: usize = 0;
    while k < 8
        invariant
            k <= 8,
            old(out)@ + le_bytes(x as nat, 8) == out@ + le_bytes(rest as nat, (8 - k) as nat),
        decreases 8 - k,
    {
        let ghost before = out@;
        let digit: u8 = (rest % 256) as u8;
        out.push(digit);
        proof {
            let tail = le_bytes((rest / 256) as nat, (8 - k - 1) as nat);
            assert(le_bytes(rest as nat, (8 - k) as nat) == seq![digit] + tail);
            assert(before + (seq![digit] + tail) =~= before.push(digit) + tail);
        }
        rest = rest / 256;
        k += 1;
    }
    assert(le_bytes(rest as nat, 0) =~= Seq::<u8>::empty());
    assert(out@ + Seq::<u8>::empty() =~= out@);
}

/// Appends `bytes` to `out`.
pub fn push_bytes(out: &mut Vec<u8>, bytes: &[u8])
    ensures
        final(out)@ == old(out)@ + bytes@,
{
    let mut i: usize = 0;
    while i < bytes.len()
        invariant
            i <= bytes.len(),
            out@ == old(out)@ + bytes@.take(i as int),
        decreases bytes.len() - i,
    {
        out.push(bytes[i]);
        assert(old(out)@ + bytes@.take(i + 1) =~= (old(out)@ + bytes@.take(i as int)).push(
            bytes@[i as int],
        ));
        i += 1;
    }
    assert(bytes@.take(bytes.len() as int) =~= bytes@);
}

/// `count` items of `first` from `first_from` on, then `count` items of
/// `second` from `second_from` on.
pub fn join_ranges<T: Copy>(
    first: &Vec<T>,
    first_from: usize,
    second: &Vec<T>,
    second_from: usize,
    count: usize,
) -> (joined: Vec<T>)
    requires
        first_from + count <= first.len(),
        second_from + count <= second.len(),
    ensures
        joined@ == first@.subrange(first_from as int, first_from + count) + second@.subrange(
            second_from as int,
            second_from + count,
        ),
{
    let mut joined: Vec<T> = Vec::new();
    let mut i: usize = 0;
    while i < count
        invariant
            i <= count,
            first_from + count <= first.len(),
            joined@ == first@.subrange(first_from as int, first_from + i),
        decreases count - i,
    {
        joined.push(first[first_from + i]);
        assert(first@.subrange(first_from as int, first_from + i + 1) =~= first@.subrange(
            first_from as int,
            first_from + i,
        ).push(first@[first_from + i]));
        i += 1;
    }
    let ghost head = joined@;
    let mut j: usize = 0;
    while j < count
        invariant
            j <= count,
            second_from + count <= second.len(),
            joined@ == head + second@.subrange(second_from as int, second_from + j),
        decreases count - j,
    {
        joined.push(second[second_from + j]);
        assert(head + second@.subrange(second_from as int, second_from + j + 1) =~= (head
            + second@.subrange(second_from as int, second_from + j)).push(
            second@[second_from + j],
        ));
        j += 1;
    }
    joined
}

/// Whether two byte strings are the same, byte for byte.
pub fn bytes_equal(a: &[u8], b: &[u8]) -> (same: bool)
    ensures
        same == (a@ == b@),
{
    if a.len() != b.len() {
        return false;
    }
    let mut i: usize = 0;
    while i < a.len()
        invariant
            a.len() == b.len(),
            i <= a.len(),
            forall|j: int| 0 <= j < i ==> a@[j] == b@[j],
        decreases a.len() - i,
    {
        if a[i] != b[i] {
            return false;
        }
        i += 1;
    }
    assert(a@ =~= b@);
    true
}

} // verus!
