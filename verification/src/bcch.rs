//! The broadcast control channel: blocks of four normal bursts.

use crate::bits::{
    bits_text, bits_value, bits_value_bound, bool_bits_to_string, octet_value,
    octets_are_lowest_bit_first, pack_lsb8msb_bytes,
};
use crate::interleave::{
    coded_bits_come_from_their_places, deinterleaved, rotate_xcch_i_soft, rotated,
    rotation_moves_whole_bursts, xcch_deinterleave_soft,
};
use crate::parity::{
    block_parity_syndrome, division_identity, encoded_block_passes, is_codeword, low_bits,
    parity_bits, poly_sum, poly_zero, remainder, remainder_is_linear, remainder_of_short_suffix,
    zero_remainder_iff_codeword, zero_syndrome_is_zero_remainder,
};
use crate::ranking::{
    best_index, best_index_bounds, best_is_the_first_of_the_cheapest,
    choice_is_made_among_attempts, chosen, count_ones, first_ok_skips, ones, outranks,
    passing_attempt_is_chosen, Rank,
};
use crate::sch::parity_view;
use crate::soft::{
    arrange, arranged, bit_costs, cost_view, hard_view, soft_bits_to_string, SoftBit,
};
use crate::soft_decoding::{
    arranging_undoes_how_it_was_sent, clean_samples_decode, counts, partner, reads_clean,
    signed_costs, three_errors_are_corrected_softly, times,
};
use crate::text::{digit_worth, hex_string, hex_text, octets_have_two_digits};
use crate::viterbi::{
    consistent, decoded, encode, encode_len, mismatches, soft_viterbi_decode_gsm_k5_len, state_after,
    tail_bits_clear_the_state, PathMetric,
};
use vstd::arithmetic::power2::pow2;
use vstd::prelude::*;
use vstd::slice::slice_subrange;

verus! {

/// Lower coefficients of the generator of the block code, of degree 40.
pub const XCCH_GENERATOR: u64 = 0x100_0482_0009;

/// A remainder of forty ones.
pub const ALL_ONES_REMAINDER: u64 = 0xff_ffff_ffff;

/// The name of the radio resource message with type `message_type`.
pub open spec fn rr_name(message_type: int) -> Seq<char> {
    let t = message_type % 64;
    if t == 0x19 {
        "System Information 1"@
    } else if t == 0x1a {
        "System Information 2"@
    } else if t == 0x1b {
        "System Information 3"@
    } else if t == 0x1c {
        "System Information 4"@
    } else if t == 0x1d {
        "System Information 5"@
    } else if t == 0x1e {
        "System Information 6"@
    } else if t == 0x1f {
        "System Information 7/8"@
    } else if t == 0x2d {
        "System Information 13"@
    } else if t == 0x21 {
        "Paging Request 1"@
    } else if t == 0x22 {
        "Paging Request 2"@
    } else if t == 0x24 {
        "Paging Request 3"@
    } else if t == 0x3f {
        "Immediate Assignment"@
    } else {
        "GSM RR/LAPDm"@
    }
}

/// Names a radio resource message by its type; the upper two bits do not count.
pub fn gsm_rr_message_name(message_type: u8) -> (name: &'static str)
    ensures
        name@ == rr_name(message_type as int),
{
    assert(message_type & 0x3f == message_type % 64) by (bit_vector);
    match message_type & 0x3f {
        0x19 => "System Information 1",
        0x1a => "System Information 2",
        0x1b => "System Information 3",
        0x1c => "System Information 4",
        0x1d => "System Information 5",
        0x1e => "System Information 6",
        0x1f => "System Information 7/8",
        0x2d => "System Information 13",
        0x21 => "Paging Request 1",
        0x22 => "Paging Request 2",
        0x24 => "Paging Request 3",
        0x3f => "Immediate Assignment",
        _ => "GSM RR/LAPDm",
    }
}

/// A decoded block.
pub struct GsmBcchDecode<M> {
    pub parity_ok: bool,
    pub syndrome: u64,
    /// Cost per coded bit of the decoded path.
    pub path_metric: M,
    pub message_type: Option<u8>,
    pub message_name: &'static str,
    /// The first eight octets of the layer-2 frame, in hexadecimal.
    pub l2_hex: String,
    /// The coded bits as received.
    pub c_bits: String,
    /// The decoded bits.
    pub u_bits: String,
}

/// Model of [`GsmBcchDecode`].
pub struct BcchDecodeView<M> {
    pub parity_ok: bool,
    pub syndrome: u64,
    pub path_metric: M,
    pub message_type: Option<u8>,
    pub message_name: Seq<char>,
    pub l2_hex: Seq<char>,
    pub c_bits: Seq<char>,
    pub u_bits: Seq<char>,
}

impl<M> View for GsmBcchDecode<M> {
    type V = BcchDecodeView<M>;

    open spec fn view(&self) -> BcchDecodeView<M> {
        BcchDecodeView {
            parity_ok: self.parity_ok,
            syndrome: self.syndrome,
            path_metric: self.path_metric,
            message_type: self.message_type,
            message_name: self.message_name@,
            l2_hex: self.l2_hex@,
            c_bits: self.c_bits@,
            u_bits: self.u_bits@,
        }
    }
}

/// The octets of the layer-2 frame in the decoded bits.
pub open spec fn l2_octets(word: Seq<bool>) -> Seq<u8> {
    Seq::new(23, |j: int| octet_value(word, j) as u8)
}

/// The syndrome of the decoded bits under one reading of the parity bits.
pub open spec fn xcch_syndrome(word: Seq<bool>, reversed: bool, inverted: bool) -> nat {
    bits_value(
        remainder(
            word.subrange(0, 184) + parity_view(word.subrange(184, 224), reversed, inverted),
            low_bits(XCCH_GENERATOR, 40),
        ),
    )
}

/// What the 228 decoded bits of a block mean: 184 data bits, forty parity bits
/// and four tail bits.
pub open spec fn xcch_decode_of<M>(
    coded: Seq<SoftBit<M>>,
    word: Seq<bool>,
    metric: M,
    inverted: bool,
    reversed: bool,
    expected: u64,
) -> BcchDecodeView<M> {
    let syndrome = xcch_syndrome(word, reversed, inverted);
    let l2 = l2_octets(word.subrange(0, 184));
    BcchDecodeView {
        parity_ok: syndrome == expected,
        syndrome: syndrome as u64,
        path_metric: metric,
        message_type: Some(l2[2]),
        message_name: rr_name(l2[2] as int),
        l2_hex: hex_text(l2.take(8)),
        c_bits: bits_text(hard_view(coded)),
        u_bits: bits_text(word),
    }
}

/// Reads the decoded bits of a block under one reading of the parity bits.
pub fn build_xcch_decode<M: PathMetric>(
    c_soft: &[SoftBit<M>],
    u: &[bool; 228],
    metric: M,
    parity_inverted: bool,
    parity_reversed: bool,
    expected_remainder: u64,
) -> (decode: GsmBcchDecode<M>)
    ensures
        decode@ == xcch_decode_of(
            c_soft@,
            u@,
            metric,
            parity_inverted,
            parity_reversed,
            expected_remainder,
        ),
{
    let mut data: [bool; 184] = [false;184];
    let mut word: Vec<bool> = Vec::with_capacity(224);
    for i in 0usize..184
        invariant
            forall|k: int| 0 <= k < i ==> data@[k] == u@[k],
            word@ =~= u@.subrange(0, i as int),
    {
        data[i] = u[i];
        word.push(u[i]);
    }
    let ghost parity = parity_view(u@.subrange(184, 224), parity_reversed, parity_inverted);
    for i in 0usize..40
        invariant
            parity == parity_view(u@.subrange(184, 224), parity_reversed, parity_inverted),
            word@ =~= u@.subrange(0, 184) + parity.take(i as int),
    {
        let from: usize = if parity_reversed {
            39 - i
        } else {
            i
        };
        word.push(u[184 + from] != parity_inverted);
    }
    assert(data@ =~= u@.subrange(0, 184));
    assert(word@ =~= u@.subrange(0, 184) + parity);
    let syndrome: u64 = block_parity_syndrome(word.as_slice(), XCCH_GENERATOR, 40);
    let l2 = pack_lsb8msb_bytes(&data);
    assert(l2@ =~= l2_octets(u@.subrange(0, 184)));
    let message_type: u8 = l2[2];
    let head = slice_subrange(l2.as_slice(), 0, 8);
    assert(head@ =~= l2@.take(8));
    GsmBcchDecode {
        parity_ok: syndrome == expected_remainder,
        syndrome,
        path_metric: metric,
        message_type: Some(message_type),
        message_name: gsm_rr_message_name(message_type),
        l2_hex: hex_string(head),
        c_bits: soft_bits_to_string(c_soft),
        u_bits: bool_bits_to_string(u.as_slice()),
    }
}

/// How a decoded block is judged.
pub open spec fn bcch_rank<M: PathMetric>(decode: BcchDecodeView<M>) -> Rank<M> {
    Rank {
        ok: decode.parity_ok,
        errors: ones(decode.syndrome as nat),
        metric: decode.path_metric,
    }
}

/// How decoded blocks are judged.
pub open spec fn bcch_ranks<M: PathMetric>(attempts: Seq<BcchDecodeView<M>>) -> Seq<Rank<M>> {
    attempts.map_values(|d: BcchDecodeView<M>| bcch_rank(d))
}

fn replaces_bcch<M: PathMetric>(new: &GsmBcchDecode<M>, old: &GsmBcchDecode<M>) -> (b: bool)
    ensures
        b == outranks(bcch_rank(new@), bcch_rank(old@)),
{
    let new_errors: u32 = count_ones(new.syndrome);
    let old_errors: u32 = count_ones(old.syndrome);
    new_errors < old_errors || (new_errors == old_errors && new.path_metric.is_below(
        old.path_metric,
    ))
}

/// The coded bits of a block under arrangement `turn`: which burst came first,
/// whether bits are inverted, and whether coded pairs are swapped.
pub open spec fn xcch_coded<M: PathMetric>(block: Seq<SoftBit<M>>, turn: int) -> Seq<SoftBit<M>> {
    arranged(deinterleaved(rotated(block, turn / 4)), (turn / 2) % 2 == 1, turn % 2 == 1)
}

/// Reading `v` of the parity bits: inverted before straight, in order before
/// reversed, a remainder of zeros before one of ones.
pub open spec fn xcch_reading<M: PathMetric>(
    coded: Seq<SoftBit<M>>,
    word: Seq<bool>,
    metric: M,
    v: int,
) -> BcchDecodeView<M> {
    xcch_decode_of(
        coded,
        word,
        metric,
        v / 4 == 0,
        (v / 2) % 2 == 1,
        if v % 2 == 1 {
            ALL_ONES_REMAINDER
        } else {
            0
        },
    )
}

/// The first `n` readings of a block under arrangement `turn`.
pub open spec fn xcch_group<M: PathMetric>(
    block: Seq<SoftBit<M>>,
    turn: int,
    n: nat,
) -> Seq<BcchDecodeView<M>> {
    let coded = xcch_coded(block, turn);
    match decoded(cost_view(coded), 228) {
        None => seq![],
        Some((word, total)) => Seq::new(
            n,
            |v: int| xcch_reading(coded, word, total.share(456), v),
        ),
    }
}

/// The readings of a block under the first `turns` arrangements, in the order
/// in which they are tried.
pub open spec fn xcch_readings<M: PathMetric>(block: Seq<SoftBit<M>>, turns: nat) -> Seq<
    BcchDecodeView<M>,
>
    decreases turns,
{
    if turns == 0 {
        seq![]
    } else {
        xcch_readings(block, (turns - 1) as nat) + xcch_group(block, turns - 1, 8)
    }
}

/// The reading of a block that is reported: the first to pass its parity
/// check, else the best.
pub open spec fn xcch_best<M: PathMetric>(block: Seq<SoftBit<M>>) -> Option<BcchDecodeView<M>> {
    let readings = xcch_readings(block, 16);
    match chosen(bcch_ranks(readings)) {
        None => None,
        Some(i) => Some(readings[i]),
    }
}

/// Whether `held` is the best of `attempts`, none of which passed.
pub open spec fn bcch_held<M: PathMetric>(
    attempts: Seq<BcchDecodeView<M>>,
    held: Option<GsmBcchDecode<M>>,
) -> bool {
    let ranks = bcch_ranks(attempts);
    &&& forall|i: int| 0 <= i < ranks.len() ==> !(#[trigger] ranks[i]).ok
    &&& match held {
        None => attempts.len() == 0,
        Some(decode) => attempts.len() > 0 && decode@ == attempts[best_index(ranks)],
    }
}

pub(crate) proof fn bcch_held_chosen<M: PathMetric>(
    attempts: Seq<BcchDecodeView<M>>,
    held: Option<GsmBcchDecode<M>>,
)
    requires
        bcch_held(attempts, held),
    ensures
        chosen(bcch_ranks(attempts)) == if attempts.len() == 0 {
            None
        } else {
            Some(best_index(bcch_ranks(attempts)))
        },
{
    let ranks = bcch_ranks(attempts);
    first_ok_skips(ranks, 0, ranks.len() as int);
}

pub(crate) proof fn bcch_passed_chosen<M: PathMetric>(
    all: Seq<BcchDecodeView<M>>,
    attempts: Seq<BcchDecodeView<M>>,
    held: Option<GsmBcchDecode<M>>,
    passed: BcchDecodeView<M>,
)
    requires
        bcch_held(attempts, held),
        attempts.push(passed).is_prefix_of(all),
        passed.parity_ok,
    ensures
        chosen(bcch_ranks(all)) == Some(attempts.len() as int),
        all[attempts.len() as int] == passed,
{
    let ranks = bcch_ranks(attempts);
    let all_ranks = bcch_ranks(all);
    let n = attempts.len() as int;
    let more = attempts.push(passed);
    assert forall|i: int| 0 <= i < n implies !(#[trigger] all_ranks[i]).ok by {
        assert(all[i] == more[i]);
        assert(!ranks[i].ok);
    }
    assert(all[n] == more[n]);
    first_ok_skips(all_ranks, 0, n);
}

/// Offers one more attempt that did not pass.
pub(crate) fn hold_better<M: PathMetric>(
    held: Option<GsmBcchDecode<M>>,
    decode: GsmBcchDecode<M>,
    Ghost(attempts): Ghost<Seq<BcchDecodeView<M>>>,
) -> (next: Option<GsmBcchDecode<M>>)
    requires
        bcch_held(attempts, held),
        !decode.parity_ok,
    ensures
        bcch_held(attempts.push(decode@), next),
{
    let ghost ranks = bcch_ranks(attempts);
    let ghost more = bcch_ranks(attempts.push(decode@));
    proof {
        assert(more =~= ranks.push(bcch_rank(decode@)));
        assert(more.drop_last() =~= ranks);
        if attempts.len() > 0 {
            best_index_bounds(ranks);
        }
    }
    match held {
        None => Some(decode),
        Some(old) => {
            if replaces_bcch(&decode, &old) {
                Some(decode)
            } else {
                Some(old)
            }
        },
    }
}

proof fn readings_extend<M: PathMetric>(block: Seq<SoftBit<M>>, a: nat, b: nat)
    requires
        a <= b,
    ensures
        xcch_readings(block, a).is_prefix_of(xcch_readings(block, b)),
    decreases b - a,
{
    if a < b {
        readings_extend(block, a, (b - 1) as nat);
    }
}

/// Decodes a block of four bursts, whichever of them comes first: the first
/// reading that passes its parity check, else the best.
pub fn decode_bcch_block<M: PathMetric>(i_soft: &[SoftBit<M>; 456]) -> (decode: Option<
    GsmBcchDecode<M>,
>)
    ensures
        match (decode, xcch_best(i_soft@)) {
            (Some(d), Some(view)) => d@ == view,
            (None, None) => true,
            _ => false,
        },
{
    let mut held: Option<GsmBcchDecode<M>> = None;
    let ghost block = i_soft@;
    let ghost all = xcch_readings(block, 16);
    for turn in 0usize..16
        invariant
            block == i_soft@,
            all == xcch_readings(block, 16),
            bcch_held(xcch_readings(block, turn as nat), held),
    {
        let ghost before = xcch_readings(block, turn as nat);
        let turned = rotate_xcch_i_soft(i_soft, turn / 4);
        let ordered = xcch_deinterleave_soft(&turned);
        let coded = arrange(ordered.as_slice(), (turn / 2) % 2 == 1, turn % 2 == 1);
        assert(coded@ == xcch_coded(block, turn as int));
        let costs = bit_costs(coded.as_slice());
        match soft_viterbi_decode_gsm_k5_len::<M, 228>(costs.as_slice()) {
            None => {
                assert(xcch_readings(block, (turn + 1) as nat) =~= before);
            },
            Some((u, metric)) => {
                assert(before + xcch_group(block, turn as int, 0) =~= before);
                for v in 0usize..8
                    invariant
                        block == i_soft@,
                        turn < 16,
                        all == xcch_readings(block, 16),
                        before == xcch_readings(block, turn as nat),
                        coded@ == xcch_coded(block, turn as int),
                        decoded(cost_view(coded@), 228) matches Some((word, total)) && word == u@
                            && metric == total.share(456),
                        bcch_held(before + xcch_group(block, turn as int, v as nat), held),
                {
                    let ghost attempts = before + xcch_group(block, turn as int, v as nat);
                    let expected: u64 = if v % 2 == 1 {
                        ALL_ONES_REMAINDER
                    } else {
                        0
                    };
                    let decode = build_xcch_decode(
                        coded.as_slice(),
                        &u,
                        metric,
                        v / 4 == 0,
                        (v / 2) % 2 == 1,
                        expected,
                    );
                    assert(decode@ == xcch_reading(coded@, u@, metric, v as int));
                    assert(attempts.push(decode@) =~= before + xcch_group(
                        block,
                        turn as int,
                        (v + 1) as nat,
                    ));
                    if decode.parity_ok {
                        proof {
                            readings_extend(block, (turn + 1) as nat, 16);
                            let through = xcch_readings(block, (turn + 1) as nat);
                            assert(attempts.push(decode@).is_prefix_of(through));
                            bcch_passed_chosen(all, attempts, held, decode@);
                        }
                        return Some(decode);
                    }
                    held = hold_better(held, decode, Ghost(attempts));
                }
            },
        }
    }
    proof {
        bcch_held_chosen(all, held);
        if all.len() > 0 {
            best_index_bounds(bcch_ranks(all));
        }
    }
    held
}

/// The bits that carry parity bits, inverted or as they are.
pub open spec fn parity_sent(parity: Seq<bool>, inverted: bool) -> Seq<bool> {
    parity.map_values(|bit: bool| bit != inverted)
}

/// The 228 bits that a block encodes for a layer-2 frame of 184 bits: the
/// frame, its parity bits and four zero tail bits.
pub open spec fn xcch_message(data: Seq<bool>, inverted: bool) -> Seq<bool> {
    data + parity_sent(parity_bits(data, low_bits(XCCH_GENERATOR, 40)), inverted) + poly_zero(4)
}

proof fn all_ones_value(n: nat)
    ensures
        bits_value(Seq::new(n, |i: int| true)) == vstd::arithmetic::power2::pow2(n) - 1,
    decreases n,
{
    vstd::arithmetic::power2::lemma2_to64();
    let bits = Seq::new(n, |i: int| true);
    if n > 0 {
        all_ones_value((n - 1) as nat);
        assert(bits.drop_last() =~= Seq::new((n - 1) as nat, |i: int| true));
        vstd::arithmetic::power2::lemma_pow2_unfold(n);
    }
}

/// Reading inverted parity bits that were sent as they are leaves a remainder
/// of ones.
proof fn straight_parity_leaves_ones(data: Seq<bool>, parity: Seq<bool>, tail: Seq<bool>)
    requires
        tail.len() == 40,
        parity == parity_bits(data, tail),
        parity.len() == 40,
    ensures
        bits_value(remainder(data + parity_sent(parity, true), tail)) == ALL_ONES_REMAINDER,
{
    let flips = Seq::new(40, |i: int| true);
    let patch = poly_zero(data.len()) + flips;
    encoded_block_passes(data, tail);
    assert(poly_sum(data + parity, patch) =~= data + parity_sent(parity, true));
    remainder_is_linear(data + parity, patch, tail);
    remainder_of_short_suffix(data.len(), flips, tail);
    assert(poly_sum(poly_zero(40), poly_zero(0) + flips) =~= flips);
    all_ones_value(40);
    vstd::arithmetic::power2::lemma2_to64_rest();
}

/// Whether a decoded block passed its parity check and holds a layer-2 frame
/// of 184 bits: parity bits sent inverted leave no remainder, others one of
/// ones.
pub open spec fn holds_frame<M>(
    decode: BcchDecodeView<M>,
    data: Seq<bool>,
    inverted: bool,
) -> bool {
    &&& decode.parity_ok
    &&& decode.syndrome == if inverted {
        0
    } else {
        ALL_ONES_REMAINDER
    }
    &&& decode.message_type == Some(l2_octets(data)[2])
    &&& decode.message_name == rr_name(l2_octets(data)[2] as int)
    &&& decode.l2_hex == hex_text(l2_octets(data).take(8))
    &&& decode.u_bits == bits_text(xcch_message(data, inverted))
}

proof fn message_shape(data: Seq<bool>, inverted: bool)
    requires
        data.len() == 184,
    ensures
        xcch_message(data, inverted).len() == 228,
        state_after(xcch_message(data, inverted)) == 0,
{
    division_identity(data + poly_zero(40), low_bits(XCCH_GENERATOR, 40));
    tail_bits_clear_the_state(xcch_message(data, inverted));
}

/// Where a block decodes to a sent message as it stands, that is its first
/// reading to pass the parity check.
proof fn straight_message_passes<M: PathMetric>(
    block: Seq<SoftBit<M>>,
    data: Seq<bool>,
    inverted: bool,
    total: M,
)
    requires
        block.len() == 456,
        data.len() == 184,
        decoded(cost_view(deinterleaved(block)), 228) == Some(
            (xcch_message(data, inverted), total),
        ),
    ensures
        xcch_best(block) matches Some(d) && {
            &&& holds_frame(d, data, inverted)
            &&& d.path_metric == total.share(456)
            &&& d.c_bits == bits_text(hard_view(deinterleaved(block)))
        },
{
    let tail = low_bits(XCCH_GENERATOR, 40);
    let parity = parity_bits(data, tail);
    let word = xcch_message(data, inverted);
    let metric = total.share(456);
    division_identity(data + poly_zero(40), tail);
    message_shape(data, inverted);
    crate::interleave::rotations_compose(block, 0, 0);
    let coded = xcch_coded(block, 0);
    assert(coded =~= deinterleaved(block));
    assert(word.subrange(0, 184) =~= data);
    let sent = word.subrange(184, 224);
    assert(sent =~= parity_sent(parity, inverted));
    let group = xcch_group(block, 0, 8);
    let readings = xcch_readings(block, 16);
    let ranks = bcch_ranks(readings);
    readings_extend(block, 1, 16);
    assert(xcch_readings(block, 0) =~= seq![]);
    assert(xcch_readings(block, 1) =~= group);
    assert(readings[0] == xcch_readings(block, 1)[0]);
    assert(readings[1] == xcch_readings(block, 1)[1]);
    assert(readings[0] == xcch_reading(coded, word, metric, 0));
    assert(readings[1] == xcch_reading(coded, word, metric, 1));
    if inverted {
        assert(parity_view(sent, false, true) =~= parity);
        encoded_block_passes(data, tail);
        zero_syndrome_is_zero_remainder(remainder(data + parity, tail));
        first_ok_skips(ranks, 0, 0);
        assert(chosen(ranks) == Some(0int));
    } else {
        assert(parity_view(sent, false, true) =~= parity_sent(parity, true));
        straight_parity_leaves_ones(data, parity, tail);
        first_ok_skips(ranks, 0, 1);
        assert(chosen(ranks) == Some(1int));
    }
}

/// What a base station sends is what is decoded: a block whose samples are one
/// or minus one, and differ in at most three places from the encoding of a
/// layer-2 frame with its parity bits, inverted or not, passes the parity
/// check and yields that frame, at the cost of its errors.
pub proof fn sent_block_decodes<M: PathMetric>(
    block: Seq<SoftBit<M>>,
    received: Seq<bool>,
    data: Seq<bool>,
    inverted: bool,
    unit: M,
)
    requires
        counts(unit, 456),
        block.len() == 456,
        data.len() == 184,
        cost_view(deinterleaved(block)) == signed_costs(received, unit),
        mismatches(encode(xcch_message(data, inverted)), received) <= 3,
    ensures
        xcch_best(block) matches Some(d) && {
            &&& holds_frame(d, data, inverted)
            &&& d.path_metric == times(
                unit,
                mismatches(encode(xcch_message(data, inverted)), received),
            ).share(456)
        },
{
    let word = xcch_message(data, inverted);
    message_shape(data, inverted);
    assert(cost_view(deinterleaved(block)).len() == 456);
    three_errors_are_corrected_softly(received, word, unit);
    straight_message_passes(
        block,
        data,
        inverted,
        times(unit, mismatches(encode(word), received)),
    );
}

/// A block received without doubt yields the layer-2 frame that was sent, at
/// no cost.
pub proof fn clean_block_decodes<M: PathMetric>(
    block: Seq<SoftBit<M>>,
    data: Seq<bool>,
    inverted: bool,
)
    requires
        consistent::<M>(),
        block.len() == 456,
        data.len() == 184,
        reads_clean(cost_view(deinterleaved(block)), encode(xcch_message(data, inverted))),
    ensures
        xcch_best(block) matches Some(d) && holds_frame(d, data, inverted) && d.path_metric
            == M::zero_value(),
{
    message_shape(data, inverted);
    clean_samples_decode(cost_view(deinterleaved(block)), xcch_message(data, inverted));
    straight_message_passes(block, data, inverted, M::zero_value());
}

/// A message is named by the lowest six bits of its type; types without a name
/// of their own share one.
pub proof fn messages_are_named_by_six_bits(t: int)
    requires
        0 <= t,
    ensures
        rr_name(t + 64) == rr_name(t),
        t == 0x19 ==> rr_name(t) == "System Information 1"@,
        t == 0x1a ==> rr_name(t) == "System Information 2"@,
        t == 0x1b ==> rr_name(t) == "System Information 3"@,
        t == 0x1c ==> rr_name(t) == "System Information 4"@,
        t == 0x1d ==> rr_name(t) == "System Information 5"@,
        t == 0x1e ==> rr_name(t) == "System Information 6"@,
        t == 0x1f ==> rr_name(t) == "System Information 7/8"@,
        t == 0x2d ==> rr_name(t) == "System Information 13"@,
        t == 0x21 ==> rr_name(t) == "Paging Request 1"@,
        t == 0x22 ==> rr_name(t) == "Paging Request 2"@,
        t == 0x24 ==> rr_name(t) == "Paging Request 3"@,
        t == 0x3f ==> rr_name(t) == "Immediate Assignment"@,
        t < 0x19 || t == 0x20 || t == 0x23 || 0x25 <= t <= 0x2c || 0x2e <= t <= 0x3e ==> rr_name(t)
            == "GSM RR/LAPDm"@,
{
}

/// The generator of the parity check without its leading term:
/// `x^26 + x^23 + x^17 + x^3 + 1`.
pub open spec fn xcch_generator() -> Seq<bool> {
    Seq::new(
        40,
        |i: int|
            {
                let power = 39 - i;
                power == 26 || power == 23 || power == 17 || power == 3 || power == 0
            },
    )
}

proof fn xcch_generator_bits()
    ensures
        low_bits(XCCH_GENERATOR, 40) == xcch_generator(),
{
    assert forall|i: int| 0 <= i < 40 implies low_bits(XCCH_GENERATOR, 40)[i]
        == xcch_generator()[i] by {
        let e = (39 - i) as u64;
        assert((0x100_0482_0009u64 >> e) & 1 == 1 <==> (e == 26 || e == 23 || e == 17 || e == 3
            || e == 0)) by (bit_vector)
            requires
                e < 40,
        ;
    }
    assert(low_bits(XCCH_GENERATOR, 40) =~= xcch_generator());
}

/// Whether `checked` is the 184 bits of a frame and its forty parity bits, put
/// back in order where they came reversed, and negated where inverted.
pub open spec fn is_checked_frame(
    checked: Seq<bool>,
    word: Seq<bool>,
    reversed: bool,
    inverted: bool,
) -> bool {
    &&& checked.len() == 224
    &&& forall|i: int| 0 <= i < 184 ==> #[trigger] checked[i] == word[i]
    &&& forall|i: int|
        184 <= i < 224 ==> #[trigger] checked[i] == (word[if reversed {
            407 - i
        } else {
            i
        }] != inverted)
}

/// What a decoded block holds: the remainder of frame and parity bits by the
/// generator, which has to be the expected one; the cost it came at; and as
/// message type the third octet of the frame, lowest bit first.
pub proof fn decoded_block_is_checked_by_division<M>(
    coded: Seq<SoftBit<M>>,
    word: Seq<bool>,
    metric: M,
    inverted: bool,
    reversed: bool,
    expected: u64,
    checked: Seq<bool>,
    k: nat,
)
    requires
        word.len() == 228,
        is_checked_frame(checked, word, reversed, inverted),
        k < 8,
    ensures
        ({
            let d = xcch_decode_of(coded, word, metric, inverted, reversed, expected);
            &&& d.syndrome == bits_value(remainder(checked, xcch_generator()))
            &&& d.syndrome == 0 <==> is_codeword(checked, xcch_generator())
            &&& d.parity_ok <==> d.syndrome == expected
            &&& d.path_metric == metric
            &&& d.message_type is Some
            &&& word[16 + k as int] <==> (d.message_type->0 as nat / pow2(k)) % 2 == 1
            &&& d.message_name == rr_name(d.message_type->0 as int)
            &&& d.l2_hex.len() == 23
            &&& d.u_bits.len() == 228
            &&& d.c_bits.len() == coded.len()
        }),
{
    xcch_generator_bits();
    let tail = xcch_generator();
    let read = word.subrange(0, 184) + parity_view(word.subrange(184, 224), reversed, inverted);
    assert(read =~= checked);
    division_identity(checked, tail);
    zero_remainder_iff_codeword(checked, tail);
    zero_syndrome_is_zero_remainder(remainder(checked, tail));
    bits_value_bound(remainder(checked, tail));
    vstd::arithmetic::power2::lemma2_to64_rest();
    let data = word.subrange(0, 184);
    octets_are_lowest_bit_first(data, 2, k);
    let head = l2_octets(data).take(8);
    octets_have_two_digits(head, 0);
}

/// The hexadecimal text of a decoded block shows its first eight octets: bit
/// `k` of octet `j` is the frame's bit `8 j + k`.
pub proof fn hexadecimal_shows_the_first_octets<M>(
    coded: Seq<SoftBit<M>>,
    word: Seq<bool>,
    metric: M,
    inverted: bool,
    reversed: bool,
    expected: u64,
    j: int,
    k: nat,
)
    requires
        word.len() == 228,
        0 <= j < 8,
        k < 8,
    ensures
        ({
            let text = xcch_decode_of(coded, word, metric, inverted, reversed, expected).l2_hex;
            let octet = 16 * digit_worth(text[3 * j]) + digit_worth(text[3 * j + 1]);
            &&& word[8 * j + k] <==> (octet / pow2(k) as int) % 2 == 1
            &&& j < 7 ==> text[3 * j + 2] == ' '
        }),
{
    let data = word.subrange(0, 184);
    let head = l2_octets(data).take(8);
    octets_have_two_digits(head, j);
    octets_are_lowest_bit_first(data, j, k);
    assert(head[j] == octet_value(data, j));
}

/// A block is read however it was sent: with any of its bursts first, its coded
/// bits straight or inverted, its coded pairs in either order, and its parity
/// bits in either order and sense. Received without doubt, one of its readings
/// is the word that was sent, and the one reported passes the parity check.
pub proof fn block_is_read_however_it_was_sent<M: PathMetric>(
    block: Seq<SoftBit<M>>,
    word: Seq<bool>,
    sent: Seq<bool>,
    checked: Seq<bool>,
    rotation: int,
    invert: bool,
    swap: bool,
    reversed: bool,
    inverted: bool,
)
    requires
        consistent::<M>(),
        block.len() == 456,
        0 <= rotation < 4,
        word.len() == 228,
        forall|i: int| 224 <= i < 228 ==> !#[trigger] word[i],
        is_checked_frame(checked, word, reversed, inverted),
        is_codeword(checked, xcch_generator()),
        sent.len() == 456,
        forall|i: int|
            0 <= i < 456 ==> #[trigger] sent[i] == (encode(word)[partner(i, swap)] != invert),
        forall|k: int|
            0 <= k < 456 ==> {
                let cost = block[114 * ((k % 4 + rotation) % 4) + 2 * ((49 * k) % 57) + (k % 8)
                    / 4].cost;
                &&& cost.of(#[trigger] sent[k]) == M::zero_value()
                &&& cost.of(!sent[k]).is_cost()
                &&& M::zero_value().precedes(cost.of(!sent[k]))
            },
    ensures
        exists|i: int|
            #![trigger xcch_readings(block, 16)[i]]
            0 <= i < xcch_readings(block, 16).len() && {
                let d = xcch_readings(block, 16)[i];
                &&& d.parity_ok
                &&& d.syndrome == 0
                &&& d.path_metric == M::zero_value()
                &&& d.u_bits == bits_text(word)
            },
        xcch_best(block) matches Some(d) && d.parity_ok,
{
    let bits = deinterleaved(rotated(block, rotation));
    let costs = cost_view(bits);
    let zero = M::zero_value();
    assert(reads_clean(costs, sent)) by {
        assert forall|k: int| 0 <= k < 456 implies {
            &&& (#[trigger] costs[k]).of(sent[k]) == zero
            &&& costs[k].of(!sent[k]).is_cost()
            &&& zero.precedes(costs[k].of(!sent[k]))
        } by {
            let place = 2 * ((49 * k) % 57) + (k % 8) / 4;
            let from = (k % 4 + rotation) % 4;
            coded_bits_come_from_their_places(rotated(block, rotation), k, k % 4, place);
            rotation_moves_whole_bursts(block, rotation, k % 4, from, place);
            assert(costs[k] == bits[k].cost);
            assert(sent[k] == sent[k]);
        }
    }
    encode_len(word);
    tail_bits_clear_the_state(word);
    arranging_undoes_how_it_was_sent(bits, sent, encode(word), invert, swap);
    clean_samples_decode(cost_view(arranged(bits, invert, swap)), word);
    let turn = 4 * rotation + (if invert {
        2int
    } else {
        0
    }) + if swap {
        1int
    } else {
        0
    };
    let v = (if inverted {
        0int
    } else {
        4
    }) + if reversed {
        2int
    } else {
        0
    };
    let coded = xcch_coded(block, turn);
    assert(coded == arranged(bits, invert, swap));
    decoded_block_is_checked_by_division(coded, word, zero, inverted, reversed, 0, checked, 0);
    let reading = xcch_reading(coded, word, zero, v);
    assert(reading == xcch_decode_of(coded, word, zero, inverted, reversed, 0));
    let group = xcch_group(block, turn, 8);
    assert(group[v] == reading);
    let before = xcch_readings(block, turn as nat);
    let through = xcch_readings(block, (turn + 1) as nat);
    assert(through == before + group);
    readings_extend(block, (turn + 1) as nat, 16);
    let i = before.len() + v;
    assert(through[i] == reading);
    assert(xcch_readings(block, 16)[i] == reading);
    let ranks = bcch_ranks(xcch_readings(block, 16));
    assert(ranks[i].ok);
    passing_attempt_is_chosen(ranks, i);
}

/// What is reported of a block is one of its readings: the first that passes its
/// check, and where none does, one whose check leaves the fewest set bits and,
/// of those, whose path costs the least.
pub proof fn reported_block_reading_is_the_best<M: PathMetric>(block: Seq<SoftBit<M>>, k: int)
    requires
        0 <= k < xcch_readings(block, 16).len(),
    ensures
        xcch_best(block) matches Some(d) && {
            let readings = xcch_readings(block, 16);
            let other = readings[k];
            &&& readings.contains(d)
            &&& other.parity_ok ==> d.parity_ok
            &&& other.parity_ok && (forall|j: int|
                0 <= j < k ==> !(#[trigger] readings[j]).parity_ok) ==> d == other
            &&& !d.parity_ok ==> ones(d.syndrome as nat) <= ones(other.syndrome as nat)
            &&& !d.parity_ok && ones(d.syndrome as nat) == ones(other.syndrome as nat)
                && consistent::<M>() && (forall|j: int|
                0 <= j < readings.len() ==> (#[trigger] readings[j]).path_metric.is_cost())
                ==> !other.path_metric.precedes(d.path_metric)
        },
{
    let readings = xcch_readings(block, 16);
    let ranks = bcch_ranks(readings);
    choice_is_made_among_attempts(ranks, k);
    let at = chosen(ranks)->0;
    assert(readings[at] == readings[at]);
    if exists|j: int| 0 <= j < ranks.len() && (#[trigger] ranks[j]).ok {
        let j = choose|j: int| 0 <= j < ranks.len() && (#[trigger] ranks[j]).ok;
        passing_attempt_is_chosen(ranks, j);
        if readings[k].parity_ok && (forall|i: int|
            0 <= i < k ==> !(#[trigger] readings[i]).parity_ok) {
            assert forall|i: int| 0 <= i < k implies !(#[trigger] ranks[i]).ok by {
                assert(!readings[i].parity_ok);
            }
            first_ok_skips(ranks, 0, k);
        }
    } else {
        assert(!ranks[k].ok);
        assert(!ranks[at].ok);
        first_ok_skips(ranks, 0, ranks.len() as int);
        if ones(readings[at].syndrome as nat) == ones(readings[k].syndrome as nat)
            && consistent::<M>() && (forall|j: int|
            0 <= j < readings.len() ==> (#[trigger] readings[j]).path_metric.is_cost()) {
            assert forall|i: int| 0 <= i < ranks.len() implies (#[trigger]
            ranks[i]).metric.is_cost() by {
                assert(readings[i].path_metric.is_cost());
            }
            best_is_the_first_of_the_cheapest(ranks, k);
        }
    }
}

} // verus!
