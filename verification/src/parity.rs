//! Cyclic block codes: the parity checks of the GSM control channels.
//!
//! Words are polynomials over the two-element field, written as sequences of
//! coefficients with the highest first.

use crate::bits::bits_value;
use vstd::prelude::*;

verus! {

/// Sum of two polynomials of one length.
pub open spec fn poly_sum(a: Seq<bool>, b: Seq<bool>) -> Seq<bool> {
    Seq::new(a.len(), |i: int| a[i] != b[i])
}

/// The zero polynomial on `n` coefficients.
pub open spec fn poly_zero(n: nat) -> Seq<bool> {
    Seq::new(n, |i: int| false)
}

/// The low `n` bits of `v`, highest first.
pub open spec fn low_bits(v: u64, n: nat) -> Seq<bool> {
    Seq::new(n, |i: int| bit_at(v, (n - 1 - i) as u64))
}

/// Bit `j` of `v`.
pub open spec fn bit_at(v: u64, j: u64) -> bool {
    (v >> j) & 1 == 1
}

/// One step of long division by the generator `x^d + tail`, where `d` is the
/// length of `tail`: bring down `bit`, and subtract the generator where the
/// leading coefficient is one.
pub open spec fn division_step(rem: Seq<bool>, bit: bool, tail: Seq<bool>) -> Seq<bool> {
    let shifted = rem.push(bit);
    if shifted[0] {
        poly_sum(shifted.drop_first(), tail)
    } else {
        shifted.drop_first()
    }
}

/// The remainder of `word` on division by the generator `x^d + tail`.
pub open spec fn remainder(word: Seq<bool>, tail: Seq<bool>) -> Seq<bool>
    decreases word.len(),
{
    if word.len() == 0 {
        poly_zero(tail.len())
    } else {
        division_step(remainder(word.drop_last(), tail), word.last(), tail)
    }
}

proof fn remainder_len(word: Seq<bool>, tail: Seq<bool>)
    ensures
        remainder(word, tail).len() == tail.len(),
    decreases word.len(),
{
    if word.len() > 0 {
        remainder_len(word.drop_last(), tail);
    }
}

proof fn low_bits_value(v: u64, n: nat)
    requires
        n <= 62,
    ensures
        bits_value(low_bits(v, n)) == v & (((1u64 << (n as u64)) - 1) as u64),
    decreases n,
{
    let k = n as u64;
    if n == 0 {
        assert(v & (((1u64 << k) - 1) as u64) == 0) by (bit_vector)
            requires
                k == 0,
        ;
    } else {
        let half = v >> 1;
        let m = (n - 1) as nat;
        low_bits_value(half, m);
        assert forall|i: int| 0 <= i < m implies low_bits(v, n)[i] == low_bits(half, m)[i] by {
            let j = (m - 1 - i) as u64;
            let jj = (n - 1 - i) as u64;
            assert((v >> jj) & 1 == ((v >> 1) >> j) & 1) by (bit_vector)
                requires
                    jj == j + 1,
                    j < 63,
            ;
        }
        assert(low_bits(v, n).drop_last() =~= low_bits(half, m));
        let zero = 0u64;
        assert((v >> zero) & 1 == v & 1) by (bit_vector)
            requires
                zero == 0,
        ;
        let l = (k - 1) as u64;
        assert(2 * ((v >> 1) & (((1u64 << l) - 1) as u64)) + (v & 1) == v & (((1u64 << k) - 1)
            as u64)) by (bit_vector)
            requires
                k == l + 1,
                l <= 61,
        ;
        assert(v & 1 == 0 || v & 1 == 1) by (bit_vector);
    }
}

proof fn register_step(rem: u64, bit: u64, poly: u64, degree: u64, j: u64)
    requires
        bit <= 1,
        degree <= 62,
        j < degree,
    ensures
        ({
            let top = 1u64 << degree;
            let s = ((rem << 1) | bit) & (((top << 1) - 1) as u64);
            let next = if s & top != 0 {
                s ^ poly
            } else {
                s
            };
            bit_at(next, j) == ((if j == 0 {
                bit == 1
            } else {
                bit_at(rem, (j - 1) as u64)
            }) != (bit_at(rem, (degree - 1) as u64) && bit_at(poly, j)))
        }),
{
    let top = 1u64 << degree;
    let s = ((rem << 1) | bit) & (((top << 1) - 1) as u64);
    let next = if s & top != 0 {
        s ^ poly
    } else {
        s
    };
    let last = (degree - 1) as u64;
    let below = if j == 0 {
        0u64
    } else {
        (j - 1) as u64
    };
    assert((next >> j) & 1 == 1 <==> ((if j == 0 {
        bit == 1
    } else {
        (rem >> below) & 1 == 1
    }) != ((rem >> last) & 1 == 1 && (poly >> j) & 1 == 1))) by (bit_vector)
        requires
            bit <= 1,
            degree <= 62,
            j < degree,
            top == 1u64 << degree,
            s == ((rem << 1) | bit) & (((top << 1) - 1) as u64),
            next == (if s & top != 0 {
                s ^ poly
            } else {
                s
            }),
            last == degree - 1,
            j > 0 ==> below == j - 1,
    ;
}

/// The remainder of the word `bits`, as a number, on division by the generator
/// of the given degree whose lower coefficients are the bits of `poly`.
pub fn block_parity_syndrome(bits: &[bool], poly: u64, degree: u32) -> (syndrome: u64)
    requires
        degree <= 62,
    ensures
        syndrome == bits_value(remainder(bits@, low_bits(poly, degree as nat))),
{
    let top: u64 = 1u64 << degree;
    let ghost d = degree as u64;
    assert(top == 1u64 << d);
    assert(0 < top && top <= 0x4000_0000_0000_0000 && (top << 1) > 0) by (bit_vector)
        requires
            top == 1u64 << d,
            d <= 62,
    ;
    let mask: u64 = (top << 1) - 1;
    let ghost tail = low_bits(poly, degree as nat);
    let mut rem: u64 = 0;
    assert forall|j: u64| j < d implies !bit_at(0, j) by {
        assert((0u64 >> j) & 1 == 0) by (bit_vector);
    }
    assert(remainder(bits@.take(0), tail) =~= low_bits(rem, degree as nat));
    for i in 0..bits.len()
        invariant
            degree <= 62,
            d == degree,
            top == 1u64 << d,
            top << 1 > 0,
            mask == (top << 1) - 1,
            tail == low_bits(poly, degree as nat),
            remainder(bits@.take(i as int), tail) == low_bits(rem, degree as nat),
    {
        let bit: u64 = if bits[i] {
            1
        } else {
            0
        };
        let ghost before = low_bits(rem, degree as nat);
        let ghost was = rem;
        let s: u64 = ((rem << 1) | bit) & mask;
        rem = if s & top != 0 {
            s ^ poly
        } else {
            s
        };
        proof {
            let word = bits@.take(i + 1);
            assert(word.drop_last() =~= bits@.take(i as int));
            let after = division_step(before, bits@[i as int], tail);
            assert(after =~= low_bits(rem, degree as nat)) by {
                assert forall|k: int| 0 <= k < degree implies after[k] == low_bits(
                    rem,
                    degree as nat,
                )[k] by {
                    register_step(was, bit, poly, d, (degree - 1 - k) as u64);
                }
            }
        }
    }
    proof {
        assert(bits@.take(bits@.len() as int) =~= bits@);
        low_bits_value(rem, degree as nat);
    }
    rem & (top - 1)
}


/// The ten parity bits of a synchronisation burst protect its 25 data bits:
/// the remainder of the 35-bit word on division by
/// `x^10 + x^8 + x^6 + x^5 + x^4 + x^2 + 1`.
pub fn sch_parity_syndrome(data: &[bool; 25], parity: &[bool; 10]) -> (syndrome: u16)
    ensures
        syndrome == bits_value(remainder(data@ + parity@, low_bits(0x0575, 10))),
        syndrome < 0x400,
{
    let mut word: Vec<bool> = Vec::with_capacity(35);
    for i in 0usize..25
        invariant
            word@ =~= data@.take(i as int),
    {
        word.push(data[i]);
    }
    for i in 0usize..10
        invariant
            word@ =~= data@ + parity@.take(i as int),
    {
        word.push(parity[i]);
    }
    assert(word@ =~= data@ + parity@);
    let syndrome: u64 = block_parity_syndrome(word.as_slice(), 0x0575, 10);
    proof {
        remainder_len(word@, low_bits(0x0575, 10));
        crate::bits::bits_value_bound(remainder(word@, low_bits(0x0575, 10)));
        vstd::arithmetic::power2::lemma2_to64();
    }
    syndrome as u16
}

/// The product of the quotient `q` and the generator `x^d + tail`, on
/// `q.len() + d` coefficients.
pub open spec fn poly_product(q: Seq<bool>, tail: Seq<bool>) -> Seq<bool>
    decreases q.len(),
{
    if q.len() == 0 {
        poly_zero(tail.len())
    } else {
        let shifted = poly_product(q.drop_last(), tail).push(false);
        if q.last() {
            poly_sum(shifted, poly_zero((q.len() - 1) as nat) + seq![true] + tail)
        } else {
            shifted
        }
    }
}

/// Whether `word` is a multiple of the generator `x^d + tail`.
pub open spec fn is_codeword(word: Seq<bool>, tail: Seq<bool>) -> bool {
    exists|q: Seq<bool>|
        q.len() == word.len() && #[trigger] poly_product(q, tail) == poly_zero(tail.len()) + word
}

/// The quotient of `word` on division by the generator `x^d + tail`.
pub open spec fn quotient(word: Seq<bool>, tail: Seq<bool>) -> Seq<bool>
    decreases word.len(),
{
    if word.len() == 0 {
        seq![]
    } else {
        let prefix = word.drop_last();
        quotient(prefix, tail).push(remainder(prefix, tail).push(word.last())[0])
    }
}

proof fn product_len(q: Seq<bool>, tail: Seq<bool>)
    ensures
        poly_product(q, tail).len() == q.len() + tail.len(),
    decreases q.len(),
{
    if q.len() > 0 {
        product_len(q.drop_last(), tail);
    }
}

/// Division is exact: quotient times generator plus remainder is the word.
pub proof fn division_identity(word: Seq<bool>, tail: Seq<bool>)
    ensures
        quotient(word, tail).len() == word.len(),
        remainder(word, tail).len() == tail.len(),
        poly_sum(
            poly_product(quotient(word, tail), tail),
            poly_zero(word.len()) + remainder(word, tail),
        ) == poly_zero(tail.len()) + word,
    decreases word.len(),
{
    let q = quotient(word, tail);
    let r = remainder(word, tail);
    let d = tail.len();
    if word.len() == 0 {
        assert(poly_sum(poly_product(q, tail), poly_zero(0) + r) =~= poly_zero(d) + word);
    } else {
        let prefix = word.drop_last();
        let n = prefix.len();
        division_identity(prefix, tail);
        let q1 = quotient(prefix, tail);
        let r1 = remainder(prefix, tail);
        product_len(q1, tail);
        product_len(q, tail);
        assert(q.drop_last() =~= q1);
        let before = poly_zero(d) + prefix;
        let after = poly_zero(d) + word;
        let left = poly_sum(poly_product(q, tail), poly_zero(word.len()) + r);
        let p1 = poly_product(q1, tail);
        let sum1 = poly_sum(p1, poly_zero(n) + r1);
        assert(sum1 == before);
        assert forall|i: int| 0 <= i < n + 1 + d implies left[i] == after[i] by {
            if i < n + d {
                assert(sum1[i] == before[i]);
                assert(before[i] == after[i]);
            }
        }
        assert(left =~= after);
    }
}

proof fn product_sum(a: Seq<bool>, b: Seq<bool>, tail: Seq<bool>)
    requires
        a.len() == b.len(),
    ensures
        poly_product(poly_sum(a, b), tail) == poly_sum(
            poly_product(a, tail),
            poly_product(b, tail),
        ),
    decreases a.len(),
{
    product_len(a, tail);
    product_len(b, tail);
    product_len(poly_sum(a, b), tail);
    let c = poly_sum(a, b);
    if a.len() > 0 {
        product_sum(a.drop_last(), b.drop_last(), tail);
        assert(c.drop_last() =~= poly_sum(a.drop_last(), b.drop_last()));
        product_len(a.drop_last(), tail);
        product_len(b.drop_last(), tail);
    }
    assert(poly_product(c, tail) =~= poly_sum(poly_product(a, tail), poly_product(b, tail)));
}

/// A product whose first `q.len()` coefficients vanish has a vanishing quotient.
proof fn small_product_is_zero(q: Seq<bool>, tail: Seq<bool>)
    requires
        forall|i: int| 0 <= i < q.len() ==> !#[trigger] poly_product(q, tail)[i],
    ensures
        q == poly_zero(q.len()),
        poly_product(q, tail) == poly_zero(q.len() + tail.len()),
    decreases q.len(),
{
    product_len(q, tail);
    if q.len() > 0 {
        let q1 = q.drop_last();
        product_len(q1, tail);
        let p = poly_product(q, tail);
        let p1 = poly_product(q1, tail);
        assert forall|i: int| 0 <= i < q1.len() implies !#[trigger] p1[i] by {
            assert(!p[i]);
        }
        small_product_is_zero(q1, tail);
        let k = q1.len() as int;
        assert(!p[k]);
        assert(!q.last());
        assert forall|i: int| 0 <= i < q.len() implies q[i] == false by {
            if i < k {
                assert(q1[i] == poly_zero(q1.len())[i]);
            }
        }
        assert(q =~= poly_zero(q.len()));
        assert(p =~= poly_zero(q.len() + tail.len()));
    } else {
        assert(q =~= poly_zero(0));
        assert(poly_product(q, tail) =~= poly_zero(tail.len()));
    }
}

/// The parity check accepts exactly the code: the remainder of a word vanishes
/// if and only if the word is a multiple of the generator.
pub proof fn zero_remainder_iff_codeword(word: Seq<bool>, tail: Seq<bool>)
    ensures
        remainder(word, tail) == poly_zero(tail.len()) <==> is_codeword(word, tail),
{
    let d = tail.len();
    let q = quotient(word, tail);
    let r = remainder(word, tail);
    division_identity(word, tail);
    product_len(q, tail);
    let whole = poly_zero(d) + word;
    if r == poly_zero(d) {
        assert(poly_sum(poly_product(q, tail), poly_zero(word.len()) + r) =~= poly_product(
            q,
            tail,
        ));
        assert(is_codeword(word, tail));
    }
    if is_codeword(word, tail) {
        let c = choose|c: Seq<bool>|
            c.len() == word.len() && #[trigger] poly_product(c, tail) == whole;
        product_sum(q, c, tail);
        let diff = poly_sum(q, c);
        let p = poly_product(diff, tail);
        assert forall|i: int| 0 <= i < word.len() + d implies p[i] == (poly_zero(word.len())
            + r)[i] by {
            assert(poly_sum(poly_product(q, tail), poly_zero(word.len()) + r)[i] == whole[i]);
        }
        small_product_is_zero(diff, tail);
        assert forall|i: int| 0 <= i < d implies r[i] == false by {
            assert(p[word.len() + i] == poly_zero(diff.len() + d)[word.len() + i]);
        }
        assert(r =~= poly_zero(d));
    }
}

/// A syndrome of zero is a remainder of zero.
pub proof fn zero_syndrome_is_zero_remainder(rem: Seq<bool>)
    ensures
        bits_value(rem) == 0 <==> rem == poly_zero(rem.len()),
    decreases rem.len(),
{
    if rem.len() > 0 {
        zero_syndrome_is_zero_remainder(rem.drop_last());
        if bits_value(rem) == 0 {
            assert forall|i: int| 0 <= i < rem.len() implies rem[i] == false by {
                if i < rem.len() - 1 {
                    assert(rem.drop_last()[i] == poly_zero((rem.len() - 1) as nat)[i]);
                }
            }
            assert(rem =~= poly_zero(rem.len()));
        } else if rem == poly_zero(rem.len()) {
            assert(rem.drop_last() =~= poly_zero((rem.len() - 1) as nat));
        }
    } else {
        assert(rem =~= poly_zero(0));
    }
}

/// Remainders add: the syndrome of a corrupted word is the sum of the word's
/// own syndrome and that of the error pattern.
pub proof fn remainder_is_linear(a: Seq<bool>, b: Seq<bool>, tail: Seq<bool>)
    requires
        a.len() == b.len(),
    ensures
        remainder(poly_sum(a, b), tail) == poly_sum(remainder(a, tail), remainder(b, tail)),
    decreases a.len(),
{
    let c = poly_sum(a, b);
    remainder_len(a, tail);
    remainder_len(b, tail);
    remainder_len(c, tail);
    if a.len() > 0 {
        remainder_is_linear(a.drop_last(), b.drop_last(), tail);
        remainder_len(a.drop_last(), tail);
        remainder_len(b.drop_last(), tail);
        assert(c.drop_last() =~= poly_sum(a.drop_last(), b.drop_last()));
    }
    assert(remainder(c, tail) =~= poly_sum(remainder(a, tail), remainder(b, tail)));
}

/// The parity bits that the encoder appends to `data`.
pub open spec fn parity_bits(data: Seq<bool>, tail: Seq<bool>) -> Seq<bool> {
    remainder(data + poly_zero(tail.len()), tail)
}

pub(crate) proof fn remainder_of_short_suffix(zeros: nat, suffix: Seq<bool>, tail: Seq<bool>)
    requires
        suffix.len() <= tail.len(),
    ensures
        remainder(poly_zero(zeros) + suffix, tail) == poly_zero(
            (tail.len() - suffix.len()) as nat,
        ) + suffix,
    decreases suffix.len(), zeros,
{
    let d = tail.len();
    let word = poly_zero(zeros) + suffix;
    remainder_len(word, tail);
    if suffix.len() > 0 {
        let rest = suffix.drop_last();
        remainder_of_short_suffix(zeros, rest, tail);
        assert(word.drop_last() =~= poly_zero(zeros) + rest);
        let before = remainder(word.drop_last(), tail);
        assert(!before.push(word.last())[0]);
        assert(remainder(word, tail) =~= poly_zero((d - suffix.len()) as nat) + suffix);
    } else if zeros > 0 {
        remainder_of_short_suffix((zeros - 1) as nat, suffix, tail);
        assert(word.drop_last() =~= poly_zero((zeros - 1) as nat) + suffix);
        assert(remainder(word, tail) =~= poly_zero(d) + suffix);
    } else {
        assert(word =~= seq![]);
        assert(remainder(word, tail) =~= poly_zero(d) + suffix);
    }
}

/// What the encoder sends passes the check: data followed by its parity bits
/// leaves no remainder.
pub proof fn encoded_block_passes(data: Seq<bool>, tail: Seq<bool>)
    ensures
        remainder(data + parity_bits(data, tail), tail) == poly_zero(tail.len()),
{
    let d = tail.len();
    let padded = data + poly_zero(d);
    let parity = parity_bits(data, tail);
    remainder_len(padded, tail);
    let patch = poly_zero(data.len()) + parity;
    assert(poly_sum(padded, patch) =~= data + parity);
    remainder_is_linear(padded, patch, tail);
    remainder_of_short_suffix(data.len(), parity, tail);
    assert(poly_zero(0) + parity =~= parity);
    assert(poly_sum(parity, parity) =~= poly_zero(d));
}

proof fn zeros_keep_a_remainder(word: Seq<bool>, zeros: nat, tail: Seq<bool>)
    requires
        tail.len() > 0,
        tail.last(),
        remainder(word, tail) != poly_zero(tail.len()),
    ensures
        remainder(word + poly_zero(zeros), tail) != poly_zero(tail.len()),
    decreases zeros,
{
    if zeros == 0 {
        assert(word + poly_zero(0) =~= word);
    } else {
        let m = (zeros - 1) as nat;
        zeros_keep_a_remainder(word, m, tail);
        let longer = word + poly_zero(zeros);
        let d = tail.len() as int;
        assert(longer.drop_last() =~= word + poly_zero(m));
        assert(!longer.last());
        let before = remainder(word + poly_zero(m), tail);
        remainder_len(word + poly_zero(m), tail);
        let after = remainder(longer, tail);
        let shifted = before.push(false);
        if before[0] {
            assert(after[d - 1] == (shifted[d] != tail[d - 1]));
            assert(after[d - 1]);
        } else {
            assert(exists|i: int| 0 <= i < d && #[trigger] before[i]) by {
                if forall|i: int| 0 <= i < d ==> !#[trigger] before[i] {
                    assert(before =~= poly_zero(tail.len()));
                }
            }
            let i = choose|i: int| 0 <= i < d && #[trigger] before[i];
            assert(after[i - 1] == before[i]);
        }
    }
}

/// Bursts of errors are detected: a word that passes the check no longer does
/// when errors hit it within as many places in a row as there are parity bits.
/// The generator has to have a constant term.
pub proof fn error_bursts_are_detected(
    word: Seq<bool>,
    before: nat,
    errors: Seq<bool>,
    after: nat,
    tail: Seq<bool>,
)
    requires
        tail.len() > 0,
        tail.last(),
        word.len() == before + errors.len() + after,
        errors.len() <= tail.len(),
        exists|i: int| 0 <= i < errors.len() && #[trigger] errors[i],
        remainder(word, tail) == poly_zero(tail.len()),
    ensures
        remainder(poly_sum(word, poly_zero(before) + errors + poly_zero(after)), tail) != poly_zero(
            tail.len(),
        ),
{
    let d = tail.len();
    let head = poly_zero(before) + errors;
    let pattern = head + poly_zero(after);
    remainder_of_short_suffix(before, errors, tail);
    let i = choose|i: int| 0 <= i < errors.len() && #[trigger] errors[i];
    assert(remainder(head, tail)[d - errors.len() + i]);
    zeros_keep_a_remainder(head, after, tail);
    remainder_is_linear(word, pattern, tail);
    remainder_len(pattern, tail);
    assert(poly_sum(poly_zero(d), remainder(pattern, tail)) =~= remainder(pattern, tail));
}

/// The generators of both control channels have a constant term.
pub proof fn generators_have_a_constant_term()
    ensures
        low_bits(0x0575, 10).last(),
        low_bits(0x100_0482_0009, 40).last(),
{
    assert((0x0575u64 >> 0u64) & 1 == 1) by (bit_vector);
    assert((0x100_0482_0009u64 >> 0u64) & 1 == 1) by (bit_vector);
}

} // verus!
