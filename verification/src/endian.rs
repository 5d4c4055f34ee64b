//! Integers as bytes, least or most significant byte first.
use vstd::prelude::*;

verus! {

/// The low `len` bytes of a number, least significant first.
pub open spec fn le(n: nat, len: nat) -> Seq<u8>
    decreases len,
{
    if len == 0 {
        Seq::empty()
    } else {
        seq![(n % 256) as u8] + le(n / 256, (len - 1) as nat)
    }
}

/// The low `len` bytes of a number, most significant first.
pub open spec fn be(n: nat, len: nat) -> Seq<u8>
    decreases len,
{
    if len == 0 {
        Seq::empty()
    } else {
        be(n / 256, (len - 1) as nat).push((n % 256) as u8)
    }
}

/// The number that bytes stand for, least significant first.
pub open spec fn le_value(bytes: Seq<u8>) -> nat
    decreases bytes.len(),
{
    if bytes.len() == 0 {
        0
    } else {
        bytes[0] as nat + 256 * le_value(bytes.skip(1))
    }
}

/// The number that bytes stand for, most significant first.
pub open spec fn be_value(bytes: Seq<u8>) -> nat
    decreases bytes.len(),
{
    if bytes.len() == 0 {
        0
    } else {
        256 * be_value(bytes.drop_last()) + bytes.last() as nat
    }
}

/// 256 to a power.
pub open spec fn byte_range(len: nat) -> nat
    decreases len,
{
    if len == 0 {
        1
    } else {
        256 * byte_range((len - 1) as nat)
    }
}

pub proof fn lemma_lengths(n: nat, len: nat)
    ensures
        le(n, len).len() == len,
        be(n, len).len() == len,
    decreases len,
{
    if len > 0 {
        lemma_lengths(n / 256, (len - 1) as nat);
    }
}

/// A number that fits some bytes is read back from them in either order.
pub proof fn bytes_read_back(n: nat, len: nat)
    requires
        n < byte_range(len),
    ensures
        le_value(le(n, len)) == n,
        be_value(be(n, len)) == n,
    decreases len,
{
    if len > 0 {
        bytes_read_back(n / 256, (len - 1) as nat);
        assert(le(n, len).skip(1) =~= le(n / 256, (len - 1) as nat));
        assert(be(n, len).drop_last() =~= be(n / 256, (len - 1) as nat));
    }
}

/// Appends the low `len` bytes of a number, least significant first.
pub fn push_le(buf: &mut Vec<u8>, n: u64, len: usize)
    ensures
        final(buf)@ == old(buf)@ + le(n as nat, len as nat),
    decreases len,
{
    if len > 0 {
        let ghost before = buf@;
        buf.push((n % 256) as u8);
        push_le(buf, n / 256, len - 1);
        proof {
            let rest = le((n / 256) as nat, (len - 1) as nat);
            assert(before.push((n % 256) as u8) + rest =~= before + (seq![(n % 256) as u8] + rest));
        }
    } else {
        assert(buf@ + Seq::<u8>::empty() =~= buf@);
    }
}

/// Appends the low `len` bytes of a number, most significant first.
pub fn push_be(buf: &mut Vec<u8>, n: u64, len: usize)
    ensures
        final(buf)@ == old(buf)@ + be(n as nat, len as nat),
    decreases len,
{
    if len > 0 {
        let ghost before = buf@;
        push_be(buf, n / 256, len - 1);
        buf.push((n % 256) as u8);
        proof {
            let rest = be((n / 256) as nat, (len - 1) as nat);
            assert((before + rest).push((n % 256) as u8) =~= before + rest.push((n % 256) as u8));
        }
    } else {
        assert(buf@ + Seq::<u8>::empty() =~= buf@);
    }
}

pub proof fn lemma_le_value_bound(bytes: Seq<u8>)
    ensures
        le_value(bytes) < byte_range(bytes.len()),
    decreases bytes.len(),
{
    if bytes.len() > 0 {
        lemma_le_value_bound(bytes.skip(1));
    }
}

/// The number that up to eight bytes stand for, least significant first.
pub fn read_le(bytes: &[u8]) -> (res: u64)
    requires
        bytes@.len() <= 8,
    ensures
        res as nat == le_value(bytes@),
        res < byte_range(bytes@.len()),
{
    let mut res: u64 = 0;
    let mut i: usize = bytes.len();
    assert(byte_range(8) == 0x1_0000_0000_0000_0000) by {
        reveal_with_fuel(byte_range, 9);
    }
    assert(bytes@.skip(i as int) =~= Seq::<u8>::empty());
    while i > 0
        invariant
            0 <= i <= bytes@.len() <= 8,
            res as nat == le_value(bytes@.skip(i as int)),
            byte_range(8) == 0x1_0000_0000_0000_0000,
        decreases i,
    {
        proof {
            let rest = bytes@.skip(i as int);
            let more = bytes@.skip(i - 1);
            assert(more.skip(1) =~= rest);
            lemma_le_value_bound(more);
            lemma_byte_range_monotone(more.len(), 8);
        }
        i = i - 1;
        res = bytes[i] as u64 + 256 * res;
    }
    proof {
        assert(bytes@.skip(0) =~= bytes@);
        lemma_le_value_bound(bytes@);
    }
    res
}

proof fn lemma_byte_range_monotone(a: nat, b: nat)
    requires
        a <= b,
    ensures
        1 <= byte_range(a) <= byte_range(b),
    decreases b,
{
    if b > 0 {
        if a < b {
            lemma_byte_range_monotone(a, (b - 1) as nat);
        } else {
            lemma_byte_range_monotone((b - 1) as nat, (b - 1) as nat);
        }
    }
}

/// The two orders are each other's reverse, and the least significant byte is the remainder by 256.
pub proof fn orders_are_reversed(n: nat, len: nat, i: int)
    requires
        0 <= i < len,
    ensures
        be(n, len)[len - 1 - i] == le(n, len)[i],
        le(n, len)[0] as nat == n % 256,
        i > 0 ==> le(n, len)[i] == le(n / 256, (len - 1) as nat)[i - 1],
    decreases len,
{
    lemma_lengths(n, len);
    lemma_lengths(n / 256, (len - 1) as nat);
    if i > 0 {
        orders_are_reversed(n / 256, (len - 1) as nat, i - 1);
        assert(be(n, len)[len - 1 - i] == be(n / 256, (len - 1) as nat)[len - 1 - i]);
    }
}

/// A number in four or eight bytes, least significant first, is read back.
pub proof fn words_are_read_back(a: u32, b: u64)
    ensures
        le(a as nat, 4).len() == 4,
        le(b as nat, 8).len() == 8,
        le_value(le(a as nat, 4)) == a,
        le_value(le(b as nat, 8)) == b,
{
    assert(byte_range(4) == 0x1_0000_0000 && byte_range(8) == 0x1_0000_0000_0000_0000) by {
        reveal_with_fuel(byte_range, 9);
    }
    lemma_lengths(a as nat, 4);
    lemma_lengths(b as nat, 8);
    bytes_read_back(a as nat, 4);
    bytes_read_back(b as nat, 8);
}

} // verus!
