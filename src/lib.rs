//! Conversions between an octet of booleans, an octet of bits and one byte.
//!
//! An octet is an array of exactly eight elements, most significant first:
//! index 0 stands for bit 7 of the byte, index 7 for bit 0.
//!
//! - `from_eight_bool_to_eight_bit`: `true` becomes `1`, `false` becomes `0`
//! - `from_eight_bit_to_eight_bool`: an element becomes `true` exactly when it is `1`
//! - `from_eight_bit_to_one_u8_int`: reads the octet as a big-endian byte
//! - `from_one_u8_int_to_eight_bit`: writes a byte out as an octet
pub mod number;

use vstd::arithmetic::power2::{lemma2_to64, lemma_pow2_strictly_increases, lemma_pow2_unfold, pow2};
use vstd::prelude::*;

verus! {

/// The bit that a boolean stands for.
pub open spec fn bit_of_bool(b: bool) -> u8 {
    if b {
        1
    } else {
        0
    }
}

/// The octet of bits that an octet of booleans stands for, element by element.
pub open spec fn bools_to_bits(s: Seq<bool>) -> Seq<u8> {
    s.map_values(|b: bool| bit_of_bool(b))
}

/// The octet of booleans for an octet of bits: an element is `true` exactly when it is 1.
pub open spec fn bits_to_bools(s: Seq<u8>) -> Seq<bool> {
    s.map_values(|x: u8| x == 1)
}

/// Maps each `bool` to `1` (`true`) or `0` (`false`), keeping the order.
pub fn from_eight_bool_to_eight_bit(input: [bool; 8]) -> (r: [u8; 8])
    ensures
        r@ == bools_to_bits(input@),
{
    let mut r: [u8; 8] = [0u8; 8];
    for i in 0..8
        invariant
            forall|j: int| 0 <= j < i ==> r@[j] == bit_of_bool(input@[j]),
    {
        r[i] = if input[i] {
            1
        } else {
            0
        };
    }
    assert(r@ =~= bools_to_bits(input@));
    r
}

/// The value of an octet read as a big-endian binary number, where only the low
/// bit of each element counts.
pub open spec fn bits_value(s: Seq<u8>) -> nat
    decreases s.len(),
{
    if s.len() == 0 {
        0
    } else {
        2 * bits_value(s.drop_last()) + (s.last() % 2) as nat
    }
}

/// The low `k` bits of `n`, most significant first, each 0 or 1.
pub open spec fn low_bits(n: nat, k: nat) -> Seq<u8>
    decreases k,
{
    if k == 0 {
        Seq::empty()
    } else {
        low_bits(n / 2, (k - 1) as nat).push((n % 2) as u8)
    }
}

/// Every element is 0 or 1.
pub open spec fn is_bit_seq(s: Seq<u8>) -> bool {
    forall|i: int| 0 <= i < s.len() ==> s[i] == 0 || s[i] == 1
}

/// Maps each element to `true` exactly when it is `1`; any other value gives
/// `false`.
pub fn from_eight_bit_to_eight_bool(input: [u8; 8]) -> (r: [bool; 8])
    ensures
        r@ == bits_to_bools(input@),
{
    let mut r: [bool; 8] = [false; 8];
    for i in 0..8
        invariant
            forall|j: int| 0 <= j < i ==> r@[j] == (input@[j] == 1),
    {
        r[i] = input[i] == 1;
    }
    assert(r@ =~= bits_to_bools(input@));
    r
}

proof fn lemma_bits_value_bound(s: Seq<u8>)
    ensures
        bits_value(s) < pow2(s.len()),
    decreases s.len(),
{
    if s.len() > 0 {
        lemma_bits_value_bound(s.drop_last());
        lemma_pow2_unfold(s.len());
    } else {
        lemma2_to64();
    }
}

/// Reads the octet as a big-endian byte: element 0 is bit 7. Each element is
/// masked to its low bit before it is shifted in.
pub fn from_eight_bit_to_one_u8_int(bits: [u8; 8]) -> (r: u8)
    ensures
        r as nat == bits_value(bits@),
{
    let mut result: u8 = 0;
    for i in 0..8
        invariant
            result as nat == bits_value(bits@.take(i as int)),
    {
        proof {
            lemma_bits_value_bound(bits@.take(i as int));
            lemma2_to64();
            if i < 7 {
                lemma_pow2_strictly_increases(i as nat, 7);
            }
        }
        let bit: u8 = bits[i];
        let acc: u8 = result;
        assert(acc < 128 ==> ((acc << 1u8) | (bit & 1u8)) == 2 * acc + bit % 2) by (bit_vector);
        result = (result << 1u8) | (bits[i] & 1u8);
        assert(bits@.take(i + 1).drop_last() =~= bits@.take(i as int));
    }
    assert(bits@.take(8) =~= bits@);
    result
}

/// Writes the byte out as an octet, most significant bit first.
pub fn from_one_u8_int_to_eight_bit(n: u8) -> (r: [u8; 8])
    ensures
        r@ == low_bits(n as nat, 8),
{
    let mut r: [u8; 8] = [0u8; 8];
    let mut k: usize = 8;
    let mut m: u8 = n;
    assert(r@.subrange(8, 8) =~= Seq::<u8>::empty());
    while k > 0
        invariant
            k <= 8,
            low_bits(n as nat, 8) == low_bits(m as nat, k as nat) + r@.subrange(k as int, 8),
        decreases k,
    {
        let ghost before = r@;
        assert(m & 1u8 == m % 2 && m >> 1u8 == m / 2) by (bit_vector);
        r[k - 1] = m & 1u8;
        assert(r@.subrange(k - 1, 8) =~= seq![(m % 2) as u8] + before.subrange(k as int, 8));
        m = m >> 1u8;
        k = k - 1;
    }
    assert(r@.subrange(0, 8) =~= r@);
    r
}

proof fn lemma_low_bits_value(n: nat, k: nat)
    requires
        n < pow2(k),
    ensures
        bits_value(low_bits(n, k)) == n,
    decreases k,
{
    if k > 0 {
        lemma_pow2_unfold(k);
        lemma_low_bits_value(n / 2, (k - 1) as nat);
        assert(low_bits(n, k).drop_last() =~= low_bits(n / 2, (k - 1) as nat));
    } else {
        lemma2_to64();
    }
}

proof fn lemma_value_low_bits(s: Seq<u8>)
    requires
        is_bit_seq(s),
    ensures
        low_bits(bits_value(s), s.len()) == s,
    decreases s.len(),
{
    if s.len() > 0 {
        let t = s.drop_last();
        lemma_value_low_bits(t);
        assert(low_bits(bits_value(s), s.len()) =~= s);
    } else {
        assert(low_bits(bits_value(s), s.len()) =~= s);
    }
}

/// Writing a byte out as an octet and reading the octet back gives the byte.
pub proof fn lemma_byte_round_trip(b: u8)
    ensures
        bits_value(low_bits(b as nat, 8)) == b as nat,
{
    assert(pow2(8) == 256) by {
        lemma2_to64();
    }
    lemma_low_bits_value(b as nat, 8);
}

/// Reading an octet of 0s and 1s as a byte and writing that byte out gives the
/// octet back.
pub proof fn lemma_octet_round_trip(o: [u8; 8])
    requires
        is_bit_seq(o@),
    ensures
        low_bits(bits_value(o@), 8) == o@,
{
    lemma_value_low_bits(o@);
}

/// Turning an octet of booleans into bits and back gives the same booleans.
pub proof fn lemma_bool_round_trip(bo: [bool; 8])
    ensures
        bits_to_bools(bools_to_bits(bo@)) == bo@,
{
    assert(bits_to_bools(bools_to_bits(bo@)) =~= bo@);
}

} // verus!
