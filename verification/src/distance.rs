//! How many channel errors the convolutional code corrects.

use crate::viterbi::{
    coded_pair, decoded, encode, encode_len, hard_costs, hard_decoding_finds_the_nearest,
    mismatches, next_state, state_after,
};
use vstd::prelude::*;

verus! {

/// Where two messages differ.
pub open spec fn difference(v: Seq<bool>, w: Seq<bool>) -> Seq<bool> {
    Seq::new(v.len(), |i: int| v[i] != w[i])
}

/// How many bits are set.
pub open spec fn weight_of(bits: Seq<bool>) -> nat
    decreases bits.len(),
{
    if bits.len() == 0 {
        0
    } else {
        weight_of(bits.drop_last()) + if bits.last() {
            1nat
        } else {
            0nat
        }
    }
}

/// Whether bit `k` of a trellis state is set.
spec fn state_bit(state: int, k: int) -> bool {
    if k == 0 {
        state % 2 == 1
    } else if k == 1 {
        (state / 2) % 2 == 1
    } else if k == 2 {
        (state / 4) % 2 == 1
    } else {
        (state / 8) % 2 == 1
    }
}

spec fn states_differ(s: int, t: int, d: int) -> bool {
    &&& 0 <= s < 16
    &&& 0 <= t < 16
    &&& 0 <= d < 16
    &&& state_bit(d, 0) == (state_bit(s, 0) != state_bit(t, 0))
    &&& state_bit(d, 1) == (state_bit(s, 1) != state_bit(t, 1))
    &&& state_bit(d, 2) == (state_bit(s, 2) != state_bit(t, 2))
    &&& state_bit(d, 3) == (state_bit(s, 3) != state_bit(t, 3))
}

proof fn next_state_bits(s: int, bit: bool)
    requires
        0 <= s < 16,
    ensures
        0 <= next_state(s, bit) < 16,
        state_bit(next_state(s, bit), 0) == bit,
        state_bit(next_state(s, bit), 1) == state_bit(s, 0),
        state_bit(next_state(s, bit), 2) == state_bit(s, 1),
        state_bit(next_state(s, bit), 3) == state_bit(s, 2),
{
}

proof fn differences_step(s: int, t: int, d: int, b: bool, c: bool)
    requires
        states_differ(s, t, d),
    ensures
        states_differ(next_state(s, b), next_state(t, c), next_state(d, b != c)),
        coded_pair(d, b != c).0 == (coded_pair(s, b).0 != coded_pair(t, c).0),
        coded_pair(d, b != c).1 == (coded_pair(s, b).1 != coded_pair(t, c).1),
{
    next_state_bits(s, b);
    next_state_bits(t, c);
    next_state_bits(d, b != c);
}

/// The code is linear: two encodings differ where the encoding of the
/// difference of their messages is set.
pub proof fn encoding_is_linear(v: Seq<bool>, w: Seq<bool>)
    requires
        v.len() == w.len(),
    ensures
        encode(difference(v, w)) == difference(encode(v), encode(w)),
{
    encoding_differs(v, w);
}

proof fn encoding_differs(v: Seq<bool>, w: Seq<bool>)
    requires
        v.len() == w.len(),
    ensures
        states_differ(state_after(v), state_after(w), state_after(difference(v, w))),
        encode(difference(v, w)) == difference(encode(v), encode(w)),
    decreases v.len(),
{
    let x = difference(v, w);
    encode_len(v);
    encode_len(w);
    encode_len(x);
    if v.len() == 0 {
        assert(encode(x) =~= difference(encode(v), encode(w)));
    } else {
        let v1 = v.drop_last();
        let w1 = w.drop_last();
        let x1 = x.drop_last();
        encoding_differs(v1, w1);
        encode_len(v1);
        encode_len(w1);
        assert(x1 =~= difference(v1, w1));
        differences_step(
            state_after(v1),
            state_after(w1),
            state_after(x1),
            v.last(),
            w.last(),
        );
        assert(encode(x) =~= difference(encode(v), encode(w)));
    }
}

proof fn mismatches_are_weight(a: Seq<bool>, b: Seq<bool>)
    requires
        a.len() <= b.len(),
    ensures
        mismatches(a, b) == weight_of(difference(a, b)),
    decreases a.len(),
{
    if a.len() > 0 {
        mismatches_are_weight(a.drop_last(), b);
        assert(difference(a, b).drop_last() =~= difference(a.drop_last(), b));
    }
}

/// The least weight with which the encoder comes to a state, once a one went
/// in.
spec fn least_weight(state: int) -> nat {
    if state == 0 {
        7
    } else if state == 1 {
        2
    } else if state == 2 || state == 3 || state == 4 || state == 9 {
        3
    } else if state == 6 || state == 7 || state == 13 {
        4
    } else {
        5
    }
}

spec fn pair_weight(pair: (bool, bool)) -> nat {
    (if pair.0 {
        1nat
    } else {
        0nat
    }) + if pair.1 {
        1nat
    } else {
        0nat
    }
}

proof fn least_weight_step(state: int, bit: bool)
    requires
        0 <= state < 16,
    ensures
        least_weight(next_state(state, bit)) <= least_weight(state) + pair_weight(
            coded_pair(state, bit),
        ),
{
    if state < 8 {
        if state < 4 {
            assert(state == 0 || state == 1 || state == 2 || state == 3);
        } else {
            assert(state == 4 || state == 5 || state == 6 || state == 7);
        }
    } else {
        if state < 12 {
            assert(state == 8 || state == 9 || state == 10 || state == 11);
        } else {
            assert(state == 12 || state == 13 || state == 14 || state == 15);
        }
    }
}

proof fn weight_bound(word: Seq<bool>)
    ensures
        0 <= state_after(word) < 16,
        (exists|i: int| 0 <= i < word.len() && #[trigger] word[i]) ==> weight_of(encode(word))
            >= least_weight(state_after(word)),
        (forall|i: int| 0 <= i < word.len() ==> !#[trigger] word[i]) ==> state_after(word) == 0,
    decreases word.len(),
{
    if word.len() > 0 {
        let prefix = word.drop_last();
        weight_bound(prefix);
        let s = state_after(prefix);
        let pair = coded_pair(s, word.last());
        let code = encode(word);
        next_state_bits(s, word.last());
        least_weight_step(s, word.last());
        assert(code.drop_last() =~= encode(prefix).push(pair.0));
        assert(code.drop_last().drop_last() =~= encode(prefix));
        assert(weight_of(code) == weight_of(encode(prefix)) + pair_weight(pair)) by {
            reveal_with_fuel(weight_of, 3);
        }
        if exists|i: int| 0 <= i < prefix.len() && #[trigger] prefix[i] {
            let i = choose|i: int| 0 <= i < prefix.len() && #[trigger] prefix[i];
            assert(word[i]);
        } else {
            assert forall|i: int| 0 <= i < prefix.len() implies !#[trigger] prefix[i] by {}
            if exists|i: int| 0 <= i < word.len() && #[trigger] word[i] {
                let i = choose|i: int| 0 <= i < word.len() && #[trigger] word[i];
                if i < prefix.len() {
                    assert(prefix[i]);
                }
                assert(word.last());
                assert(s == 0);
            }
            if forall|i: int| 0 <= i < word.len() ==> !#[trigger] word[i] {
                assert(!word[word.len() - 1]);
            }
        }
    }
}

/// Encodings are far apart: those of two different messages of one length that
/// both end in the all-zero state differ in at least seven places.
pub proof fn encodings_are_far_apart(v: Seq<bool>, w: Seq<bool>)
    requires
        v.len() == w.len(),
        v != w,
        state_after(v) == 0,
        state_after(w) == 0,
    ensures
        mismatches(encode(v), encode(w)) >= 7,
{
    let x = difference(v, w);
    encoding_differs(v, w);
    encode_len(v);
    encode_len(w);
    mismatches_are_weight(encode(v), encode(w));
    assert(exists|i: int| 0 <= i < x.len() && #[trigger] x[i]) by {
        if forall|i: int| 0 <= i < x.len() ==> !#[trigger] x[i] {
            assert forall|i: int| 0 <= i < v.len() implies v[i] == w[i] by {
                assert(!x[i]);
            }
            assert(v =~= w);
        }
    }
    weight_bound(x);
    assert(state_after(x) == 0);
}

proof fn mismatches_triangle(a: Seq<bool>, b: Seq<bool>, r: Seq<bool>)
    requires
        a.len() == b.len(),
        a.len() <= r.len(),
    ensures
        mismatches(a, b) <= mismatches(a, r) + mismatches(b, r),
    decreases a.len(),
{
    if a.len() > 0 {
        mismatches_triangle(a.drop_last(), b.drop_last(), r);
        mismatches_are_weight(a.drop_last(), b);
        mismatches_are_weight(a.drop_last(), b.drop_last());
        assert(difference(a.drop_last(), b) =~= difference(a.drop_last(), b.drop_last()));
    }
}

/// Three errors are corrected: a message that ends in the all-zero state is
/// decoded from any received bits that differ from its encoding in at most
/// three places, and the errors are counted.
pub proof fn three_errors_are_corrected(received: Seq<bool>, word: Seq<bool>)
    requires
        2 * word.len() <= received.len(),
        2 * word.len() < 1_000_000,
        state_after(word) == 0,
        mismatches(encode(word), received) <= 3,
    ensures
        decoded(hard_costs(received), word.len()) == Some(
            (word, mismatches(encode(word), received) as u32),
        ),
{
    hard_decoding_finds_the_nearest(received, word);
    let found = decoded(hard_costs(received), word.len())->0;
    let best = found.0;
    encode_len(best);
    encode_len(word);
    mismatches_triangle(encode(best), encode(word), received);
    if best != word {
        encodings_are_far_apart(best, word);
    }
}

} // verus!
