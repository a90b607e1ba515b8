//! The block interleaver of the control channels: 456 coded bits spread over
//! four bursts of 114.

use vstd::prelude::*;

verus! {

/// Where coded bit `k` is sent: its burst and place in the burst, as one index
/// into the block.
pub open spec fn slot(k: int) -> int {
    114 * (k % 4) + 2 * ((49 * k) % 57) + (k % 8) / 4
}

/// Which coded bit is sent at index `p` of the block.
pub open spec fn source(p: int) -> int {
    let burst = p / 114;
    let place = p % 114;
    (400 * (7 * (place / 2)) + 57 * (burst + 4 * (place % 2))) % 456
}

/// Each index of the block carries one coded bit and each coded bit one index.
pub proof fn slots_are_a_bijection(k: int)
    requires
        0 <= k < 456,
    ensures
        0 <= slot(k) < 456,
        0 <= source(k) < 456,
        source(slot(k)) == k,
        slot(source(k)) == k,
{
    source_of_slot(k);
    slot_of_source(k);
}

proof fn source_of_slot(k: int)
    requires
        0 <= k < 456,
    ensures
        0 <= slot(k) < 456,
        source(slot(k)) == k,
{
    let x = (49 * k) % 57;
    let b = k % 4;
    let h = (k % 8) / 4;
    let p = slot(k);
    assert(p / 114 == b);
    assert(p % 114 == 2 * x + h);
    let y = b + 4 * h;
    assert(y == k % 8);
    let q = (49 * k) / 57;
    assert(49 * k == 57 * q + x);
    // 2800 * 49 = 137200 = 456 * 300 + 400, and 400 k + 57 k = 456 k + k
    let r = k / 8;
    assert(k == 8 * r + y);
    let total = 400 * (7 * x) + 57 * y;
    assert(total == 2800 * (49 * k - 57 * q) + 57 * (k - 8 * r));
    assert(total == k + 456 * (301 * k - 350 * q - r));
    vstd::arithmetic::div_mod::lemma_fundamental_div_mod_converse(
        total,
        456,
        301 * k - 350 * q - r,
        k,
    );
}

proof fn slot_of_source(p: int)
    requires
        0 <= p < 456,
    ensures
        0 <= source(p) < 456,
        slot(source(p)) == p,
{
    let b = p / 114;
    let place = p % 114;
    let j = place / 2;
    let h = place % 2;
    let y = b + 4 * h;
    let total = 400 * (7 * j) + 57 * y;
    let k = source(p);
    let q = total / 456;
    assert(k == total - 456 * q);
    assert(k == 8 * (350 * j + 7 * y - 57 * q) + y);
    vstd::arithmetic::div_mod::lemma_fundamental_div_mod_converse(
        k,
        8,
        350 * j + 7 * y - 57 * q,
        y,
    );
    assert(k == 4 * (700 * j + 14 * y - 114 * q + h) + b);
    vstd::arithmetic::div_mod::lemma_fundamental_div_mod_converse(
        k,
        4,
        700 * j + 14 * y - 114 * q + h,
        b,
    );
    assert(49 * k == 57 * (2407 * j + 49 * y - 392 * q) + j);
    vstd::arithmetic::div_mod::lemma_fundamental_div_mod_converse(
        49 * k,
        57,
        2407 * j + 49 * y - 392 * q,
        j,
    );
}

/// The coded bits of a received block.
pub open spec fn deinterleaved<T>(block: Seq<T>) -> Seq<T> {
    Seq::new(456, |k: int| block[slot(k)])
}

/// The block in which coded bits are sent.
pub open spec fn interleaved<T>(coded: Seq<T>) -> Seq<T> {
    Seq::new(456, |p: int| coded[source(p)])
}

/// Deinterleaving undoes interleaving, and the other way round.
pub proof fn deinterleaving_undoes_interleaving<T>(bits: Seq<T>)
    requires
        bits.len() == 456,
    ensures
        deinterleaved(interleaved(bits)) == bits,
        interleaved(deinterleaved(bits)) == bits,
{
    assert forall|k: int| 0 <= k < 456 implies deinterleaved(interleaved(bits))[k] == bits[k]
        && interleaved(deinterleaved(bits))[k] == bits[k] by {
        slots_are_a_bijection(k);
    }
    assert(deinterleaved(interleaved(bits)) =~= bits);
    assert(interleaved(deinterleaved(bits)) =~= bits);
}

/// Puts the bits of a received block back into coding order.
pub fn xcch_deinterleave_soft<T: Copy>(i_soft: &[T; 456]) -> (c: [T; 456])
    ensures
        c@ == deinterleaved(i_soft@),
{
    let mut c: [T; 456] = *i_soft;
    for k in 0usize..456
        invariant
            forall|j: int| 0 <= j < k ==> c@[j] == i_soft@[slot(j)],
    {
        let b: usize = k % 4;
        let j: usize = 2 * ((49 * k) % 57) + ((k % 8) / 4);
        proof {
            slots_are_a_bijection(k as int);
        }
        c[k] = i_soft[b * 114 + j];
    }
    assert(c@ =~= deinterleaved(i_soft@));
    c
}

/// The block that starts `rotation` bursts later, the earlier bursts last.
pub open spec fn rotated<T>(block: Seq<T>, rotation: int) -> Seq<T> {
    Seq::new(456, |p: int| block[114 * ((p / 114 + rotation) % 4) + p % 114])
}

/// Rotates a block by whole bursts.
pub fn rotate_xcch_i_soft<T: Copy>(i_soft: &[T; 456], rotation: usize) -> (out: [T; 456])
    requires
        rotation <= usize::MAX - 3,
    ensures
        out@ == rotated(i_soft@, rotation as int),
{
    let mut out: [T; 456] = *i_soft;
    for p in 0usize..456
        invariant
            rotation <= usize::MAX - 3,
            forall|j: int| 0 <= j < p ==> out@[j] == rotated(i_soft@, rotation as int)[j],
    {
        let from: usize = (p / 114 + rotation) % 4;
        out[p] = i_soft[from * 114 + p % 114];
    }
    assert(out@ =~= rotated(i_soft@, rotation as int));
    out
}

/// Rotations add up, and four bursts make a full turn.
pub proof fn rotations_compose<T>(block: Seq<T>, a: int, b: int)
    requires
        block.len() == 456,
    ensures
        rotated(rotated(block, a), b) == rotated(block, a + b),
        (a + b) % 4 == 0 ==> rotated(block, a + b) == block,
{
    assert forall|p: int| 0 <= p < 456 implies rotated(rotated(block, a), b)[p] == rotated(
        block,
        a + b,
    )[p] by {
        let u = (p / 114 + b) % 4;
        let w = p % 114;
        let m = 114 * u + w;
        assert(m / 114 == u && m % 114 == w);
        assert((u + a) % 4 == (p / 114 + (a + b)) % 4);
    }
    assert(rotated(rotated(block, a), b) =~= rotated(block, a + b));
    if (a + b) % 4 == 0 {
        assert forall|p: int| 0 <= p < 456 implies rotated(block, a + b)[p] == block[p] by {
            assert((p / 114 + (a + b)) % 4 == p / 114);
        }
        assert(rotated(block, a + b) =~= block);
    }
}

/// Coded bit `k` goes to burst `k mod 4`, and there to the place that the
/// diagonal interleaver gives it; read back, it comes from there.
pub proof fn coded_bits_come_from_their_places<T>(block: Seq<T>, k: int, burst: int, place: int)
    requires
        0 <= k < 456,
        burst == k % 4,
        place == 2 * ((49 * k) % 57) + (k % 8) / 4,
    ensures
        0 <= place < 114,
        deinterleaved(block).len() == 456,
        deinterleaved(block)[k] == block[114 * burst + place],
{
}

/// A block that starts `rotation` bursts later has as its burst `b` what was
/// burst `b + rotation`, counted round.
pub proof fn rotation_moves_whole_bursts<T>(
    block: Seq<T>,
    rotation: int,
    burst: int,
    from: int,
    place: int,
)
    requires
        0 <= burst < 4,
        0 <= from < 4,
        0 <= rotation < 4,
        from == burst + rotation || from == burst + rotation - 4,
        0 <= place < 114,
    ensures
        rotated(block, rotation).len() == 456,
        rotated(block, rotation)[114 * burst + place] == block[114 * from + place],
{
    let p = 114 * burst + place;
    assert(p / 114 == burst && p % 114 == place);
}

} // verus!
