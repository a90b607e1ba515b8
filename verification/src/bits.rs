//! Bit and octet order, and bits as text.

use vstd::arithmetic::power2::pow2;
use vstd::prelude::*;
use vstd::slice::slice_to_vec;
use vstd::string::StringExecFns;

verus! {

/// Where place `i` of `n` bits goes when each octet is mirrored; a last octet
/// that is cut short is mirrored within itself.
pub open spec fn mirrored(i: int, n: int) -> int {
    let start = 8 * (i / 8);
    let end = if start + 8 <= n {
        start + 8
    } else {
        n
    };
    start + end - 1 - i
}

/// The bits of `bits` with each octet mirrored.
pub open spec fn octets_mirrored(bits: Seq<bool>) -> Seq<bool> {
    Seq::new(bits.len(), |i: int| bits[mirrored(i, bits.len() as int)])
}

/// Mirrors each octet of `bits` in place.
pub fn lsb8msb(bits: &mut [bool])
    ensures
        final(bits)@ == octets_mirrored(old(bits)@),
{
    let n: usize = bits.len();
    let source = slice_to_vec(bits);
    let mut i: usize = 0;
    while i < n
        invariant
            i <= n,
            n == bits@.len(),
            source@ == old(bits)@,
            source@.len() == n,
            forall|k: int| 0 <= k < i ==> bits@[k] == source@[mirrored(k, n as int)],
        decreases n - i,
    {
        let start: usize = i - i % 8;
        let end: usize = if n - start >= 8 {
            start + 8
        } else {
            n
        };
        let from: usize = start + (end - 1 - i);
        assert(from == mirrored(i as int, n as int));
        bits[i] = source[from];
        i = i + 1;
    }
    assert(bits@ =~= octets_mirrored(old(bits)@));
}

/// Mirroring octets twice gives the bits back.
pub proof fn mirroring_twice_is_identity(bits: Seq<bool>)
    ensures
        octets_mirrored(octets_mirrored(bits)) == bits,
{
    let n = bits.len() as int;
    assert forall|i: int| 0 <= i < n implies octets_mirrored(octets_mirrored(bits))[i]
        == bits[i] by {
        let j = mirrored(i, n);
        assert(0 <= j < n && j / 8 == i / 8);
        assert(mirrored(j, n) == i);
    }
    assert(octets_mirrored(octets_mirrored(bits)) =~= bits);
}

/// The number that `bits` spell, most significant bit first.
pub open spec fn bits_value(bits: Seq<bool>) -> nat
    decreases bits.len(),
{
    if bits.len() == 0 {
        0
    } else {
        2 * bits_value(bits.drop_last()) + if bits.last() {
            1nat
        } else {
            0
        }
    }
}

/// The `len` bits of `bits` from `offset` on, with zeros past the end.
pub open spec fn bit_field(bits: Seq<bool>, offset: int, len: nat) -> Seq<bool> {
    Seq::new(len, |i: int| offset + i < bits.len() && bits[offset + i])
}

/// Reads `len` bits as a number, most significant bit first, and moves
/// `offset` past them; of more than 32 bits, the last 32 count.
pub fn read_bits(bits: &[bool], offset: &mut usize, len: usize) -> (v: u32)
    requires
        *old(offset) + len <= usize::MAX,
    ensures
        v == bits_value(bit_field(bits@, *old(offset) as int, len as nat)) % 0x1_0000_0000,
        *final(offset) == *old(offset) + len,
{
    let mut v: u32 = 0;
    let start: usize = *offset;
    let mut i: usize = 0;
    assert(bits_value(bit_field(bits@, start as int, 0)) == 0);
    while i < len
        invariant
            i <= len,
            start + len <= usize::MAX,
            *offset == start + i,
            v == bits_value(bit_field(bits@, start as int, i as nat)) % 0x1_0000_0000,
        decreases len - i,
    {
        let bit: u32 = if *offset < bits.len() && bits[*offset] {
            1
        } else {
            0
        };
        let ghost field = bit_field(bits@, start as int, (i + 1) as nat);
        assert(field.drop_last() =~= bit_field(bits@, start as int, i as nat));
        assert((v << 1u32) | bit == (2 * v + bit) % 0x1_0000_0000) by (bit_vector)
            requires
                bit <= 1,
        ;
        v = (v << 1) | bit;
        *offset = *offset + 1;
        i = i + 1;
    }
    v
}

/// A field of at most 32 bits is read exactly.
pub proof fn short_fields_are_exact(bits: Seq<bool>)
    requires
        bits.len() <= 32,
    ensures
        bits_value(bits) % 0x1_0000_0000 == bits_value(bits),
{
    bits_value_bound(bits);
    vstd::arithmetic::power2::lemma2_to64();
    if bits.len() < 32 {
        vstd::arithmetic::power2::lemma_pow2_strictly_increases(bits.len(), 32);
    }
}

/// A field of `n` bits is less than `2^n`.
pub proof fn bits_value_bound(bits: Seq<bool>)
    ensures
        bits_value(bits) < vstd::arithmetic::power2::pow2(bits.len()),
    decreases bits.len(),
{
    vstd::arithmetic::power2::lemma2_to64();
    if bits.len() > 0 {
        bits_value_bound(bits.drop_last());
        vstd::arithmetic::power2::lemma_pow2_unfold(bits.len());
    }
}

/// The weight `w` where `bit` is set.
pub open spec fn weight(bit: bool, w: int) -> int {
    if bit {
        w
    } else {
        0
    }
}

/// Octet `j` of `bits`, least significant bit first.
pub open spec fn octet_value(bits: Seq<bool>, j: int) -> int {
    weight(bits[8 * j], 1) + weight(bits[8 * j + 1], 2) + weight(bits[8 * j + 2], 4) + weight(
        bits[8 * j + 3],
        8,
    ) + weight(bits[8 * j + 4], 16) + weight(bits[8 * j + 5], 32) + weight(bits[8 * j + 6], 64)
        + weight(bits[8 * j + 7], 128)
}

fn octet(bits: &[bool], j: usize) -> (v: u8)
    requires
        8 * j + 8 <= bits@.len(),
    ensures
        v == octet_value(bits@, j as int),
{
    assert(8 * j + 8 <= bits.len());
    let base: usize = 8 * j;
    let b0: u8 = if bits[base] { 1 } else { 0 };
    let b1: u8 = if bits[base + 1] { 2 } else { 0 };
    let b2: u8 = if bits[base + 2] { 4 } else { 0 };
    let b3: u8 = if bits[base + 3] { 8 } else { 0 };
    let b4: u8 = if bits[base + 4] { 16 } else { 0 };
    let b5: u8 = if bits[base + 5] { 32 } else { 0 };
    let b6: u8 = if bits[base + 6] { 64 } else { 0 };
    let b7: u8 = if bits[base + 7] { 128 } else { 0 };
    b0 + b1 + b2 + b3 + b4 + b5 + b6 + b7
}

/// Packs the 184 bits of a layer-2 frame into its 23 octets, each with its
/// least significant bit first.
pub fn pack_lsb8msb_bytes(bits: &[bool; 184]) -> (octets: Vec<u8>)
    ensures
        octets@.len() == 23,
        forall|j: int| 0 <= j < 23 ==> #[trigger] octets@[j] == octet_value(bits@, j),
{
    let mut octets: Vec<u8> = Vec::with_capacity(23);
    for j in 0usize..23
        invariant
            octets@.len() == j,
            forall|k: int| 0 <= k < j ==> #[trigger] octets@[k] == octet_value(bits@, k),
    {
        octets.push(octet(bits.as_slice(), j));
    }
    octets
}

/// The text of a bit.
pub open spec fn bit_char(bit: bool) -> char {
    if bit {
        '1'
    } else {
        '0'
    }
}

/// The text of `bits`.
pub open spec fn bits_text(bits: Seq<bool>) -> Seq<char> {
    bits.map_values(|b: bool| bit_char(b))
}

/// Writes `bits` as a string of `0` and `1`.
pub fn bool_bits_to_string(bits: &[bool]) -> (text: String)
    ensures
        text@ == bits_text(bits@),
{
    let mut text = String::new();
    proof {
        reveal_strlit("1");
        reveal_strlit("0");
    }
    for i in 0..bits.len()
        invariant
            text@ =~= bits_text(bits@.take(i as int)),
            "1"@ =~= seq!['1'],
            "0"@ =~= seq!['0'],
    {
        if bits[i] {
            text.append("1");
        } else {
            text.append("0");
        }
        assert(bits@.take(i + 1) =~= bits@.take(i as int).push(bits@[i as int]));
    }
    assert(bits@.take(bits@.len() as int) =~= bits@);
    text
}

/// Mirroring swaps the ends of each octet: what stands at place `r` of an octet
/// comes from place `7 - r` of it, and in a last octet that is cut short from
/// as far before the end.
pub proof fn mirroring_turns_octets_round(bits: Seq<bool>, octet: int, r: int)
    requires
        0 <= octet,
        0 <= r < 8,
        8 * octet + r < bits.len(),
    ensures
        octets_mirrored(bits).len() == bits.len(),
        8 * octet + 8 <= bits.len() ==> octets_mirrored(bits)[8 * octet + r] == bits[8 * octet + 7
            - r],
        8 * octet + 8 > bits.len() ==> octets_mirrored(bits)[8 * octet + r] == bits[bits.len() - 1
            - r],
{
    assert((8 * octet + r) / 8 == octet);
}

/// Bits are weighted by powers of two: the bit at place `k` of `n` is set just
/// where the number holds `2^(n - 1 - k)`.
pub proof fn bits_have_binary_weights(bits: Seq<bool>, k: int)
    requires
        0 <= k < bits.len(),
    ensures
        bits[k] <==> (bits_value(bits) / pow2((bits.len() - 1 - k) as nat)) % 2 == 1,
    decreases bits.len(),
{
    let v = bits_value(bits);
    let front = bits.drop_last();
    vstd::arithmetic::power2::lemma2_to64();
    if k == bits.len() - 1 {
        assert(v / 1 == v) by {
            vstd::arithmetic::div_mod::lemma_div_basics(v as int);
        }
    } else {
        let m = (bits.len() - 1 - k) as nat;
        bits_have_binary_weights(front, k);
        vstd::arithmetic::power2::lemma_pow2_unfold(m);
        vstd::arithmetic::power2::lemma_pow2_pos((m - 1) as nat);
        vstd::arithmetic::div_mod::lemma_div_denominator(
            v as int,
            2,
            pow2((m - 1) as nat) as int,
        );
        assert(v / 2 == bits_value(front));
    }
}

/// Bits that spell the same number are the same bits.
pub proof fn numbers_have_one_spelling(a: Seq<bool>, b: Seq<bool>)
    requires
        a.len() == b.len(),
        bits_value(a) == bits_value(b),
    ensures
        a == b,
{
    assert forall|k: int| 0 <= k < a.len() implies a[k] == b[k] by {
        bits_have_binary_weights(a, k);
        bits_have_binary_weights(b, k);
    }
    assert(a =~= b);
}

/// The field that is read is that part of the bits, with zeros past the end.
pub proof fn fields_are_taken_in_order(bits: Seq<bool>, offset: int, len: nat, i: int)
    requires
        0 <= offset,
        0 <= i < len,
    ensures
        bit_field(bits, offset, len).len() == len,
        offset + i < bits.len() ==> bit_field(bits, offset, len)[i] == bits[offset + i],
        offset + i >= bits.len() ==> !bit_field(bits, offset, len)[i],
{
}

/// The bits of an octet are sent lowest first: bit `i` of the octet stands at
/// place `i`.
pub proof fn octets_are_lowest_bit_first(bits: Seq<bool>, j: int, i: nat)
    requires
        i < 8,
    ensures
        0 <= octet_value(bits, j) < 256,
        bits[8 * j + i] <==> (octet_value(bits, j) / pow2(i) as int) % 2 == 1,
{
    vstd::arithmetic::power2::lemma2_to64();
    let v = octet_value(bits, j);
    if i == 0 {
        assert(pow2(i) == 1);
        assert((v / 1) % 2 == 1 <==> bits[8 * j + 0]);
    } else if i == 1 {
        assert(pow2(i) == 2);
        assert((v / 2) % 2 == 1 <==> bits[8 * j + 1]);
    } else if i == 2 {
        assert(pow2(i) == 4);
        assert((v / 4) % 2 == 1 <==> bits[8 * j + 2]);
    } else if i == 3 {
        assert(pow2(i) == 8);
        assert((v / 8) % 2 == 1 <==> bits[8 * j + 3]);
    } else if i == 4 {
        assert(pow2(i) == 16);
        assert((v / 16) % 2 == 1 <==> bits[8 * j + 4]);
    } else if i == 5 {
        assert(pow2(i) == 32);
        assert((v / 32) % 2 == 1 <==> bits[8 * j + 5]);
    } else if i == 6 {
        assert(pow2(i) == 64);
        assert((v / 64) % 2 == 1 <==> bits[8 * j + 6]);
    } else if i == 7 {
        assert(pow2(i) == 128);
        assert((v / 128) % 2 == 1 <==> bits[8 * j + 7]);
    }
}

/// The text of bits has a digit for each of them, in order.
pub proof fn text_has_a_digit_for_each_bit(bits: Seq<bool>, i: int)
    requires
        0 <= i < bits.len(),
    ensures
        bits_text(bits).len() == bits.len(),
        bits[i] ==> bits_text(bits)[i] == '1',
        !bits[i] ==> bits_text(bits)[i] == '0',
{
}

/// Numbers below `2^n` with the same `n` binary digits are the same.
pub proof fn numbers_are_their_digits(v: nat, w: nat, n: nat)
    requires
        v < pow2(n),
        w < pow2(n),
        forall|k: nat| k < n ==> (v / #[trigger] pow2(k)) % 2 == (w / pow2(k)) % 2,
    ensures
        v == w,
    decreases n,
{
    vstd::arithmetic::power2::lemma2_to64();
    if n > 0 {
        vstd::arithmetic::power2::lemma_pow2_unfold(n);
        assert forall|k: nat| k < n - 1 implies ((v / 2) / #[trigger] pow2(k)) % 2 == ((w / 2)
            / pow2(k)) % 2 by {
            vstd::arithmetic::power2::lemma_pow2_unfold(k + 1);
            vstd::arithmetic::power2::lemma_pow2_pos(k);
            vstd::arithmetic::div_mod::lemma_div_denominator(v as int, 2, pow2(k) as int);
            vstd::arithmetic::div_mod::lemma_div_denominator(w as int, 2, pow2(k) as int);
            assert((v / pow2(k + 1)) % 2 == (w / pow2(k + 1)) % 2);
        }
        numbers_are_their_digits(v / 2, w / 2, (n - 1) as nat);
        assert((v / pow2(0)) % 2 == (w / pow2(0)) % 2);
        vstd::arithmetic::div_mod::lemma_div_basics(v as int);
        vstd::arithmetic::div_mod::lemma_div_basics(w as int);
    }
}

} // verus!
