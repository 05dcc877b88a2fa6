//! Decoding of bit vectors and bit strings into numbers.

use vstd::prelude::*;

verus! {

/// The number denoted by a sequence of bits, most significant first:
/// each step doubles the accumulator and adds the next bit.
pub open spec fn bits_value(bits: Seq<u8>) -> int
    decreases bits.len(),
{
    if bits.len() == 0 {
        0
    } else {
        bits_value(bits.drop_last()) * 2 + bits.last()
    }
}

/// Every character is '0' or '1'.
pub open spec fn all_bit_chars(s: Seq<char>) -> bool {
    forall|i: int| 0 <= i < s.len() ==> (#[trigger] s[i] == '0' || s[i] == '1')
}

/// The bit denoted by a '0'/'1' character.
pub open spec fn char_bit(c: char) -> int {
    if c == '1' {
        1
    } else {
        0
    }
}

/// The number denoted by a string of '0'/'1' characters, most significant first.
pub open spec fn bitstr_value(s: Seq<char>) -> int
    decreases s.len(),
{
    if s.len() == 0 {
        0
    } else {
        bitstr_value(s.drop_last()) * 2 + char_bit(s.last())
    }
}

proof fn lemma_bits_value_nonneg(bits: Seq<u8>)
    ensures
        bits_value(bits) >= 0,
    decreases bits.len(),
{
    if bits.len() > 0 {
        lemma_bits_value_nonneg(bits.drop_last());
    }
}

proof fn lemma_bits_value_monotone(bits: Seq<u8>, n: int)
    requires
        0 <= n <= bits.len(),
    ensures
        bits_value(bits.take(n)) <= bits_value(bits),
    decreases bits.len() - n,
{
    if n < bits.len() {
        lemma_bits_value_monotone(bits, n + 1);
        lemma_bits_value_nonneg(bits.take(n));
        assert(bits.take(n + 1).drop_last() =~= bits.take(n));
        assert(bits_value(bits.take(n + 1)) == bits_value(bits.take(n)) * 2 + bits.take(n + 1).last());
    } else {
        assert(bits.take(n) =~= bits);
    }
}

/// Folds a bit vector, most significant bit first, into a number.
pub fn bitvec_to_num(bits: &[u8]) -> (r: i32)
    requires
        bits_value(bits@) <= i32::MAX,
    ensures
        r == bits_value(bits@),
{
    let mut acc: i32 = 0;
    let mut i: usize = 0;
    proof {
        assert(bits@.take(0int) =~= Seq::<u8>::empty());
    }
    while i < bits.len()
        invariant
            0 <= i <= bits@.len(),
            acc == bits_value(bits@.take(i as int)),
            bits_value(bits@) <= i32::MAX,
        decreases bits@.len() - i,
    {
        proof {
            lemma_bits_value_monotone(bits@, i + 1);
            lemma_bits_value_nonneg(bits@.take(i as int));
            assert(bits@.take(i + 1).drop_last() =~= bits@.take(i as int));
            assert(bits@.take(i + 1).last() == bits@[i as int]);
        }
        acc = acc * 2 + bits[i] as i32;
        i = i + 1;
    }
    proof {
        assert(bits@.take(bits@.len() as int) =~= bits@);
    }
    acc
}

/// Turns a string of '0'/'1' characters into a vector of 0/1 numbers.
pub fn bitstr_to_vec(line: &str) -> (r: Vec<i32>)
    requires
        all_bit_chars(line@),
    ensures
        r@.len() == line@.len(),
        forall|i: int| 0 <= i < r@.len() ==> #[trigger] r@[i] == char_bit(line@[i]),
{
    let n = line.unicode_len();
    let mut out: Vec<i32> = Vec::new();
    let mut i: usize = 0;
    while i < n
        invariant
            0 <= i <= n,
            n == line@.len(),
            all_bit_chars(line@),
            out@.len() == i,
            forall|j: int| 0 <= j < i ==> #[trigger] out@[j] == char_bit(line@[j]),
        decreases n - i,
    {
        let c = line.get_char(i);
        if c == '1' {
            out.push(1);
        } else {
            out.push(0);
        }
        i = i + 1;
    }
    out
}

proof fn lemma_bitstr_as_bits(s: Seq<char>, bits: Seq<u8>)
    requires
        bits.len() == s.len(),
        forall|i: int| 0 <= i < s.len() ==> #[trigger] bits[i] as int == char_bit(s[i]),
    ensures
        bits_value(bits) == bitstr_value(s),
    decreases s.len(),
{
    if s.len() > 0 {
        lemma_bitstr_as_bits(s.drop_last(), bits.drop_last());
    }
}

/// Reads a string of '0'/'1' characters as a number, most significant first.
pub fn bitstr_to_num(bitstr: &str) -> (r: i32)
    requires
        all_bit_chars(bitstr@),
        bitstr_value(bitstr@) <= i32::MAX,
    ensures
        r == bitstr_value(bitstr@),
{
    let digits = bitstr_to_vec(bitstr);
    let mut bits: Vec<u8> = Vec::new();
    let mut i: usize = 0;
    while i < digits.len()
        invariant
            0 <= i <= digits@.len(),
            bits@.len() == i,
            digits@.len() == bitstr@.len(),
            forall|j: int| 0 <= j < i ==> #[trigger] bits@[j] as int == char_bit(bitstr@[j]),
            forall|j: int| 0 <= j < digits@.len() ==> #[trigger] digits@[j] == char_bit(bitstr@[j]),
        decreases digits@.len() - i,
    {
        bits.push(digits[i] as u8);
        i = i + 1;
    }
    proof {
        lemma_bitstr_as_bits(bitstr@, bits@);
    }
    bitvec_to_num(bits.as_slice())
}

/// Turns a line of '0'/'1' characters into a vector of 0/1 numbers.
pub fn line_to_vec(line: &str) -> (r: Vec<i32>)
    requires
        all_bit_chars(line@),
    ensures
        r@.len() == line@.len(),
        forall|i: int| 0 <= i < r@.len() ==> #[trigger] r@[i] == char_bit(line@[i]),
{
    bitstr_to_vec(line)
}

} // verus!
