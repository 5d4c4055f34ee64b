//! Linux: numbers and fields in the text files that the kernel offers.
pub mod kprobe;
pub mod syscall;

use vstd::prelude::*;

verus! {

pub open spec fn is_digit_byte(b: u8) -> bool {
    48 <= b <= 57
}

/// The number of digits that a byte sequence starts with.
pub open spec fn digit_run(data: Seq<u8>) -> int
    decreases data.len(),
{
    if data.len() == 0 || !is_digit_byte(data[0]) {
        0
    } else {
        1 + digit_run(data.skip(1))
    }
}

/// The value of a sequence of decimal digits.
pub open spec fn digits_value(digits: Seq<u8>) -> nat
    decreases digits.len(),
{
    if digits.len() == 0 {
        0
    } else {
        10 * digits_value(digits.drop_last()) + (digits.last() - 48) as nat
    }
}

/// The number that a byte sequence starts with, reduced to 64 bits; 0 where it starts with no
/// digit.
pub open spec fn leading_number(data: Seq<u8>) -> u64 {
    (digits_value(data.take(digit_run(data))) % 0x1_0000_0000_0000_0000) as u64
}

pub proof fn lemma_digit_run(data: Seq<u8>)
    ensures
        0 <= digit_run(data) <= data.len(),
        forall|i: int| 0 <= i < digit_run(data) ==> is_digit_byte(data[i]),
        digit_run(data) < data.len() ==> !is_digit_byte(data[digit_run(data)]),
    decreases data.len(),
{
    if data.len() > 0 && is_digit_byte(data[0]) {
        lemma_digit_run(data.skip(1));
        assert forall|i: int| 0 <= i < digit_run(data) implies is_digit_byte(data[i]) by {
            if i > 0 {
                assert(data[i] == data.skip(1)[i - 1]);
            }
        }
    }
}

pub proof fn lemma_digit_run_is(data: Seq<u8>, n: int)
    requires
        0 <= n <= data.len(),
        forall|i: int| 0 <= i < n ==> is_digit_byte(data[i]),
        n < data.len() ==> !is_digit_byte(data[n]),
    ensures
        digit_run(data) == n,
{
    lemma_digit_run(data);
    if digit_run(data) < n {
        assert(is_digit_byte(data[digit_run(data)]));
    }
    if n < digit_run(data) {
        assert(is_digit_byte(data[n]));
    }
}

/// The number that a byte slice starts with; digits beyond 64 bits wrap around.
pub fn parse_u64_from_bytes(bytes: &[u8]) -> (res: u64)
    ensures
        res == leading_number(bytes@),
{
    let mut result: u64 = 0;
    let mut i: usize = 0;
    assert(bytes@.take(0) =~= Seq::<u8>::empty());
    while i < bytes.len() && bytes[i] >= 48 && bytes[i] <= 57
        invariant
            0 <= i <= bytes@.len(),
            forall|j: int| 0 <= j < i ==> is_digit_byte(bytes@[j]),
            result as int == (digits_value(bytes@.take(i as int)) as int) % 0x1_0000_0000_0000_0000,
        decreases bytes@.len() - i,
    {
        let d: u64 = (bytes[i] - 48) as u64;
        let ghost v = digits_value(bytes@.take(i as int)) as int;
        proof {
            assert(bytes@.take(i + 1).drop_last() =~= bytes@.take(i as int));
            assert(digits_value(bytes@.take(i + 1)) == 10 * v + d);
            assert((10 * v + d) % 0x1_0000_0000_0000_0000 == (((v % 0x1_0000_0000_0000_0000) * 10)
                % 0x1_0000_0000_0000_0000 + d) % 0x1_0000_0000_0000_0000);
        }
        result = result.wrapping_mul(10).wrapping_add(d);
        i = i + 1;
    }
    proof {
        lemma_digit_run_is(bytes@, i as int);
    }
    result
}

pub open spec fn is_blank(b: u8) -> bool {
    b == 32 || b == 9
}

/// The number of spaces and tabs that a byte sequence starts with.
pub open spec fn blank_run(data: Seq<u8>) -> int
    decreases data.len(),
{
    if data.len() == 0 || !is_blank(data[0]) {
        0
    } else {
        1 + blank_run(data.skip(1))
    }
}

/// What remains of a byte slice after the spaces and tabs at its start.
pub fn skip_whitespace(bytes: &[u8]) -> (res: &[u8])
    ensures
        0 <= blank_run(bytes@) <= bytes@.len(),
        res@ == bytes@.skip(blank_run(bytes@)),
{
    let mut i: usize = 0;
    assert(bytes@.skip(0) =~= bytes@);
    while i < bytes.len() && (bytes[i] == 32 || bytes[i] == 9)
        invariant
            0 <= i <= bytes@.len(),
            blank_run(bytes@) == i + blank_run(bytes@.skip(i as int)),
        decreases bytes@.len() - i,
    {
        assert(bytes@.skip(i as int).skip(1) =~= bytes@.skip(i + 1));
        i = i + 1;
    }
    vstd::slice::slice_subrange(bytes, i, bytes.len())
}

pub open spec fn ends_field(b: u8) -> bool {
    b == 32 || b == 9 || b == 10
}

/// The number of bytes before the first space, tab or line feed.
pub open spec fn field_run(data: Seq<u8>) -> int
    decreases data.len(),
{
    if data.len() == 0 || ends_field(data[0]) {
        0
    } else {
        1 + field_run(data.skip(1))
    }
}

/// Splits a byte slice before its first space, tab or line feed.
pub fn next_field(bytes: &[u8]) -> (res: (&[u8], &[u8]))
    ensures
        0 <= field_run(bytes@) <= bytes@.len(),
        res.0@ == bytes@.take(field_run(bytes@)),
        res.1@ == bytes@.skip(field_run(bytes@)),
{
    let mut i: usize = 0;
    assert(bytes@.skip(0) =~= bytes@);
    while i < bytes.len() && bytes[i] != 32 && bytes[i] != 9 && bytes[i] != 10
        invariant
            0 <= i <= bytes@.len(),
            field_run(bytes@) == i + field_run(bytes@.skip(i as int)),
        decreases bytes@.len() - i,
    {
        assert(bytes@.skip(i as int).skip(1) =~= bytes@.skip(i + 1));
        i = i + 1;
    }
    (vstd::slice::slice_subrange(bytes, 0, i), vstd::slice::slice_subrange(bytes, i, bytes.len()))
}

/// What follows the first line feed; nothing where there is none.
pub open spec fn after_line(data: Seq<u8>) -> Seq<u8> {
    let n = crate::bytes::find_either(data, 10, 10);
    if n < data.len() {
        data.skip(n + 1)
    } else {
        Seq::empty()
    }
}

/// What follows the first line of a byte slice.
pub fn next_line(bytes: &[u8]) -> (res: &[u8])
    ensures
        res@ == after_line(bytes@),
{
    let i: usize = crate::bytes::position_either(bytes, 0, 10, 10);
    assert(bytes@.skip(0) =~= bytes@);
    let from: usize = if i < bytes.len() { i + 1 } else { bytes.len() };
    vstd::slice::slice_subrange(bytes, from, bytes.len())
}

} // verus!
