//! The synchronisation channel: cell identity and frame number.

use crate::bits::{
    bits_have_binary_weights, bits_value, bits_value_bound, lsb8msb, mirroring_turns_octets_round,
    numbers_are_their_digits, octets_mirrored, read_bits, short_fields_are_exact,
};
use crate::parity::{
    division_identity, encoded_block_passes, is_codeword, low_bits, parity_bits, poly_zero,
    remainder, sch_parity_syndrome, zero_remainder_iff_codeword, zero_syndrome_is_zero_remainder,
};
use crate::ranking::{
    best, best_has_the_fewest_errors, best_index, best_is_the_first_of_the_cheapest, count_ones,
    first_without_errors_stands, no_ones_means_zero, ones, outranks, Rank,
};
use crate::soft::{arrange, arranged, bit_costs, cost_view, SoftBit};
use crate::soft_decoding::{
    arranging_undoes_how_it_was_sent, clean_is_readable, clean_samples_decode, counts, partner,
    reads_clean, signed_costs, signed_is_readable, three_errors_are_corrected_softly, times,
};
use crate::viterbi::{
    cheapest_state_bounds, consistent, decoded, encode, encode_len, final_state, mismatches,
    readable, soft_viterbi_decode_gsm_k5_len, state_after, survivor_is_a_path, survivor_is_cost,
    tail_bits_clear_the_state, PathMetric,
};
use vstd::arithmetic::power2::pow2;
use vstd::prelude::*;

verus! {

/// The frame number that the reduced counters `t1`, `t2` and `t3p` stand for:
/// in cycle `t1`, the frame that is `t2` in the 26-multiframe and `10 t3p + 1`
/// in the 51-multiframe. Counters that no frame has give `10 t3p + 1` frames
/// past the start of the cycle.
pub open spec fn frame_of(t1: int, t2: int, t3p: int) -> int {
    let t3 = 10 * t3p + 1;
    if 0 <= t2 < 26 && 0 <= t3 < 51 {
        1326 * t1 + (1275 * t2 + 52 * t3) % 1326
    } else {
        1326 * t1 + t3
    }
}

/// The frame named by valid counters is the one in its cycle, and the only
/// one, with those positions in the two multiframes.
pub proof fn frame_has_its_counters(t1: int, t2: int, t3p: int, frame: int)
    requires
        0 <= t1,
        0 <= t2 < 26,
        0 <= t3p < 5,
    ensures
        frame == frame_of(t1, t2, t3p) <==> {
            &&& 1326 * t1 <= frame < 1326 * (t1 + 1)
            &&& frame % 26 == t2
            &&& frame % 51 == 10 * t3p + 1
        },
{
    let t3 = 10 * t3p + 1;
    let x = 1275 * t2 + 52 * t3;
    let q = x / 1326;
    let f = frame_of(t1, t2, t3p);
    let b = 51 * t1 + 49 * t2 + 2 * t3 - 51 * q;
    let d = 26 * t1 + 25 * t2 + t3 - 26 * q;
    assert(f == 26 * b + t2);
    assert(f == 51 * d + t3);
    vstd::arithmetic::div_mod::lemma_fundamental_div_mod_converse(f, 26, b, t2);
    vstd::arithmetic::div_mod::lemma_fundamental_div_mod_converse(f, 51, d, t3);
    if 1326 * t1 <= frame < 1326 * (t1 + 1) && frame % 26 == t2 && frame % 51 == t3 {
        let m = frame / 26 - b;
        let n = frame / 51 - d;
        assert(frame - f == 26 * m);
        assert(frame - f == 51 * n);
        assert(frame - f == 1326 * (2 * n - m));
        assert(-1326 < frame - f < 1326);
    }
}

/// A frame that carries the synchronisation channel gets its number back from
/// the reduced counters that it broadcasts.
pub proof fn frame_number_round_trip(frame: int)
    requires
        0 <= frame,
        (frame % 51) % 10 == 1,
    ensures
        frame_of(frame / 1326, frame % 26, (frame % 51 - 1) / 10) == frame,
{
    let t1 = frame / 1326;
    let t3p = (frame % 51 - 1) / 10;
    frame_has_its_counters(t1, frame % 26, t3p, frame);
}

/// Recovers the frame number from the reduced counters.
pub fn sch_frame_number(t1: u16, t2: u8, t3p: u8) -> (frame: u32)
    ensures
        frame == frame_of(t1 as int, t2 as int, t3p as int),
{
    let t3: u32 = 10 * (t3p as u32) + 1;
    let base: u32 = (t1 as u32) * 26 * 51;
    for k in 0u32..1326
        invariant
            base == 1326 * t1,
            t3 == 10 * t3p + 1,
            forall|j: int|
                0 <= j < k ==> !((#[trigger] (base + j)) % 26 == t2 && (base + j) % 51 == t3),
    {
        let frame: u32 = base + k;
        if frame % 26 == t2 as u32 && frame % 51 == t3 {
            proof {
                frame_has_its_counters(t1 as int, t2 as int, t3p as int, frame as int);
            }
            return frame;
        }
    }
    proof {
        if t2 < 26 && t3 < 51 {
            let frame = frame_of(t1 as int, t2 as int, t3p as int);
            frame_has_its_counters(t1 as int, t2 as int, t3p as int, frame);
            let j = frame - base;
            assert(0 <= j < 1326);
            assert((base + j) % 26 == t2 && (base + j) % 51 == t3);
        }
    }
    base + t3
}

/// A decoded synchronisation burst.
pub struct GsmSchDecode<M> {
    /// Base station identity code.
    pub bsic: u8,
    /// Network colour code.
    pub ncc: u8,
    /// Base station colour code.
    pub bcc: u8,
    pub t1: u16,
    pub t2: u8,
    pub t3p: u8,
    pub frame_number: u32,
    /// Cost per coded bit of the decoded path.
    pub path_metric: M,
    pub parity_ok: bool,
    pub parity_syndrome: u16,
}

impl<M: Copy> Clone for GsmSchDecode<M> {
    fn clone(&self) -> (copy: Self)
        ensures
            copy == *self,
    {
        *self
    }
}

impl<M: Copy> Copy for GsmSchDecode<M> {

}

/// The number in the `len` bits from `offset` on of the 25 data bits, whose
/// octets are sent least significant bit first.
pub open spec fn info_field(data: Seq<bool>, offset: int, len: int) -> nat {
    bits_value(octets_mirrored(data).subrange(offset, offset + len))
}

/// Splits the 25 data bits into identity code and reduced frame counters.
pub fn parse_sch_info_bits(encoded_order: &[bool; 25]) -> (info: (u8, u16, u8, u8))
    ensures
        info.0 == info_field(encoded_order@, 0, 6) && info.0 < 64,
        info.1 == info_field(encoded_order@, 6, 11) && info.1 < 2048,
        info.2 == info_field(encoded_order@, 17, 5) && info.2 < 32,
        info.3 == info_field(encoded_order@, 22, 3) && info.3 < 8,
{
    let mut bits: [bool; 25] = *encoded_order;
    lsb8msb(&mut bits);
    let ghost ordered = octets_mirrored(encoded_order@);
    let mut offset: usize = 0;
    let bsic: u32 = read_bits(bits.as_slice(), &mut offset, 6);
    let t1: u32 = read_bits(bits.as_slice(), &mut offset, 11);
    let t2: u32 = read_bits(bits.as_slice(), &mut offset, 5);
    let t3p: u32 = read_bits(bits.as_slice(), &mut offset, 3);
    proof {
        vstd::arithmetic::power2::lemma2_to64();
        field_is_subrange(ordered, 0, 6);
        field_is_subrange(ordered, 6, 11);
        field_is_subrange(ordered, 17, 5);
        field_is_subrange(ordered, 22, 3);
    }
    (bsic as u8, t1 as u16, t2 as u8, t3p as u8)
}

proof fn field_is_subrange(bits: Seq<bool>, offset: int, len: nat)
    requires
        0 <= offset,
        offset + len <= bits.len(),
        len <= 32,
    ensures
        bits_value(crate::bits::bit_field(bits, offset, len)) % 0x1_0000_0000 == bits_value(
            bits.subrange(offset, offset + len),
        ),
        bits_value(bits.subrange(offset, offset + len)) < vstd::arithmetic::power2::pow2(len),
{
    let part = bits.subrange(offset, offset + len);
    assert(crate::bits::bit_field(bits, offset, len) =~= part);
    short_fields_are_exact(part);
    bits_value_bound(part);
}

/// Parity bits that may have been sent in reverse order and inverted.
pub open spec fn parity_view(parity: Seq<bool>, reversed: bool, inverted: bool) -> Seq<bool> {
    Seq::new(
        parity.len(),
        |i: int|
            (parity[if reversed {
                parity.len() - 1 - i
            } else {
                i
            }]) != inverted,
    )
}

/// What the 39 decoded bits of a burst mean: 25 data bits, ten parity bits and
/// four tail bits.
pub open spec fn sch_decode_of<M>(
    word: Seq<bool>,
    metric: M,
    reversed: bool,
    inverted: bool,
) -> GsmSchDecode<M> {
    let data = word.subrange(0, 25);
    let parity = parity_view(word.subrange(25, 35), reversed, inverted);
    let syndrome = bits_value(remainder(data + parity, low_bits(0x0575, 10)));
    let bsic = info_field(data, 0, 6);
    let t1 = info_field(data, 6, 11);
    let t2 = info_field(data, 17, 5);
    let t3p = info_field(data, 22, 3);
    GsmSchDecode {
        bsic: bsic as u8,
        ncc: (bsic / 8) as u8,
        bcc: (bsic % 8) as u8,
        t1: t1 as u16,
        t2: t2 as u8,
        t3p: t3p as u8,
        frame_number: frame_of(t1 as int, t2 as int, t3p as int) as u32,
        path_metric: metric,
        parity_ok: syndrome == 0,
        parity_syndrome: syndrome as u16,
    }
}

/// Reads the decoded bits of a burst under one reading of the parity bits.
pub fn build_sch_decode<M: PathMetric>(
    uncoded: &[bool; 39],
    metric: M,
    parity_reversed: bool,
    parity_inverted: bool,
) -> (decode: GsmSchDecode<M>)
    ensures
        decode == sch_decode_of(uncoded@, metric, parity_reversed, parity_inverted),
{
    let mut data: [bool; 25] = [false;25];
    for i in 0usize..25
        invariant
            forall|k: int| 0 <= k < i ==> data@[k] == uncoded@[k],
    {
        data[i] = uncoded[i];
    }
    let mut parity: [bool; 10] = [false;10];
    for i in 0usize..10
        invariant
            forall|k: int|
                0 <= k < i ==> parity@[k] == parity_view(
                    uncoded@.subrange(25, 35),
                    parity_reversed,
                    parity_inverted,
                )[k],
    {
        let from: usize = if parity_reversed {
            9 - i
        } else {
            i
        };
        parity[i] = uncoded[25 + from] != parity_inverted;
    }
    assert(data@ =~= uncoded@.subrange(0, 25));
    assert(parity@ =~= parity_view(
        uncoded@.subrange(25, 35),
        parity_reversed,
        parity_inverted,
    ));
    let syndrome: u16 = sch_parity_syndrome(&data, &parity);
    let (bsic, t1, t2, t3p) = parse_sch_info_bits(&data);
    assert(bsic >> 3 == bsic / 8) by (bit_vector);
    assert(bsic & 0x07 == bsic % 8) by (bit_vector);
    GsmSchDecode {
        bsic,
        ncc: bsic >> 3,
        bcc: bsic & 0x07,
        t1,
        t2,
        t3p,
        frame_number: sch_frame_number(t1, t2, t3p),
        path_metric: metric,
        parity_ok: syndrome == 0,
        parity_syndrome: syndrome,
    }
}

/// One way of reading a burst, and what it decodes to.
pub struct SchVariant<M> {
    pub invert_coded: bool,
    pub swap_pair_order: bool,
    pub parity_reversed: bool,
    pub parity_inverted: bool,
    pub uncoded: [bool; 39],
    pub decode: GsmSchDecode<M>,
}

/// Model of [`SchVariant`].
pub struct SchVariantView<M> {
    pub invert_coded: bool,
    pub swap_pair_order: bool,
    pub parity_reversed: bool,
    pub parity_inverted: bool,
    pub uncoded: Seq<bool>,
    pub decode: GsmSchDecode<M>,
}

impl<M> View for SchVariant<M> {
    type V = SchVariantView<M>;

    open spec fn view(&self) -> SchVariantView<M> {
        SchVariantView {
            invert_coded: self.invert_coded,
            swap_pair_order: self.swap_pair_order,
            parity_reversed: self.parity_reversed,
            parity_inverted: self.parity_inverted,
            uncoded: self.uncoded@,
            decode: self.decode,
        }
    }
}

/// The 78 coded bits of a burst, on both sides of its training sequence.
pub open spec fn sch_coded<M>(burst: Seq<SoftBit<M>>) -> Seq<SoftBit<M>> {
    burst.subrange(3, 42) + burst.subrange(106, 145)
}

/// The reading of a burst whose coded bits decode to `word`.
pub open spec fn sch_variant_of<M>(
    invert: bool,
    swap: bool,
    reversed: bool,
    inverted: bool,
    word: Seq<bool>,
    metric: M,
) -> SchVariantView<M> {
    SchVariantView {
        invert_coded: invert,
        swap_pair_order: swap,
        parity_reversed: reversed,
        parity_inverted: inverted,
        uncoded: word,
        decode: sch_decode_of(word, metric, reversed, inverted),
    }
}

/// The readings of a burst under one arrangement of its coded bits: four ways
/// to take the parity bits, unless the trellis decoder finds no path.
pub open spec fn sch_group<M: PathMetric>(
    burst: Seq<SoftBit<M>>,
    invert: bool,
    swap: bool,
) -> Seq<SchVariantView<M>> {
    match decoded(cost_view(arranged(sch_coded(burst), invert, swap)), 39) {
        None => seq![],
        Some((word, total)) => {
            let m = total.share(78);
            seq![
                sch_variant_of(invert, swap, false, false, word, m),
                sch_variant_of(invert, swap, false, true, word, m),
                sch_variant_of(invert, swap, true, false, word, m),
                sch_variant_of(invert, swap, true, true, word, m),
            ]
        },
    }
}

/// All readings of a burst, in the order in which they are tried.
pub open spec fn sch_readings<M: PathMetric>(burst: Seq<SoftBit<M>>) -> Seq<SchVariantView<M>> {
    if burst.len() < 145 {
        seq![]
    } else {
        sch_group(burst, false, false) + sch_group(burst, false, true) + sch_group(
            burst,
            true,
            false,
        ) + sch_group(burst, true, true)
    }
}

/// The models of a list of readings.
pub open spec fn variant_views<M>(variants: Seq<SchVariant<M>>) -> Seq<SchVariantView<M>> {
    variants.map_values(|v: SchVariant<M>| v@)
}

fn push_variant<M: PathMetric>(
    variants: &mut Vec<SchVariant<M>>,
    arrangement: (bool, bool),
    uncoded: &[bool; 39],
    metric: M,
    reversed: bool,
    inverted: bool,
)
    ensures
        variant_views(final(variants)@) == variant_views(old(variants)@).push(
            sch_variant_of(arrangement.0, arrangement.1, reversed, inverted, uncoded@, metric),
        ),
{
    let variant = SchVariant {
        invert_coded: arrangement.0,
        swap_pair_order: arrangement.1,
        parity_reversed: reversed,
        parity_inverted: inverted,
        uncoded: *uncoded,
        decode: build_sch_decode(uncoded, metric, reversed, inverted),
    };
    let ghost view = variant@;
    let ghost before = variant_views(variants@);
    variants.push(variant);
    assert(variant_views(variants@) =~= before.push(view));
}

fn push_sch_group<M: PathMetric>(
    variants: &mut Vec<SchVariant<M>>,
    burst: &[SoftBit<M>],
    coded: &[SoftBit<M>],
    invert: bool,
    swap: bool,
)
    requires
        coded@ == sch_coded(burst@),
        burst@.len() >= 145,
    ensures
        variant_views(final(variants)@) == variant_views(old(variants)@) + sch_group(
            burst@,
            invert,
            swap,
        ),
{
    let turned = arrange(coded, invert, swap);
    let costs = bit_costs(turned.as_slice());
    let ghost before = variant_views(variants@);
    match soft_viterbi_decode_gsm_k5_len::<M, 39>(costs.as_slice()) {
        None => {
            assert(before + sch_group(burst@, invert, swap) =~= before);
        },
        Some((uncoded, metric)) => {
            let turn = (invert, swap);
            push_variant(variants, turn, &uncoded, metric, false, false);
            push_variant(variants, turn, &uncoded, metric, false, true);
            push_variant(variants, turn, &uncoded, metric, true, false);
            push_variant(variants, turn, &uncoded, metric, true, true);
            assert(variant_views(variants@) =~= before + sch_group(burst@, invert, swap));
        },
    }
}

/// Reads a burst in every way: coded bits straight or inverted, coded pairs in
/// either order, parity bits in either order and sense.
pub fn sch_variants<M: PathMetric>(burst_soft: &[SoftBit<M>]) -> (variants: Vec<SchVariant<M>>)
    ensures
        variant_views(variants@) == sch_readings(burst_soft@),
{
    let mut variants: Vec<SchVariant<M>> = Vec::new();
    if burst_soft.len() < 145 {
        assert(variant_views(variants@) =~= seq![]);
        return variants;
    }
    let mut coded: Vec<SoftBit<M>> = Vec::with_capacity(78);
    for i in 0usize..39
        invariant
            burst_soft@.len() >= 145,
            coded@ =~= burst_soft@.subrange(3, 3 + i),
    {
        coded.push(burst_soft[3 + i]);
    }
    for i in 0usize..39
        invariant
            burst_soft@.len() >= 145,
            coded@ =~= burst_soft@.subrange(3, 42) + burst_soft@.subrange(106, 106 + i),
    {
        coded.push(burst_soft[106 + i]);
    }
    push_sch_group(&mut variants, burst_soft, coded.as_slice(), false, false);
    push_sch_group(&mut variants, burst_soft, coded.as_slice(), false, true);
    push_sch_group(&mut variants, burst_soft, coded.as_slice(), true, false);
    push_sch_group(&mut variants, burst_soft, coded.as_slice(), true, true);
    assert(variant_views(variants@) =~= sch_readings(burst_soft@));
    variants
}

/// How a decoded burst is judged.
pub open spec fn sch_rank<M: PathMetric>(decode: GsmSchDecode<M>) -> Rank<M> {
    Rank {
        ok: decode.parity_ok,
        errors: ones(decode.parity_syndrome as nat),
        metric: decode.path_metric,
    }
}

/// How the readings of a burst are judged.
pub open spec fn sch_ranks<M: PathMetric>(readings: Seq<SchVariantView<M>>) -> Seq<Rank<M>> {
    readings.map_values(|v: SchVariantView<M>| sch_rank(v.decode))
}

pub(crate) fn replaces_sch<M: PathMetric>(new: &GsmSchDecode<M>, old: &GsmSchDecode<M>) -> (b: bool)
    ensures
        b == outranks(sch_rank(*new), sch_rank(*old)),
{
    let new_errors: u32 = count_ones(new.parity_syndrome as u64);
    let old_errors: u32 = count_ones(old.parity_syndrome as u64);
    new_errors < old_errors || (new_errors == old_errors && new.path_metric.is_below(
        old.path_metric,
    ))
}

/// The best reading of a burst.
pub open spec fn sch_best<M: PathMetric>(burst: Seq<SoftBit<M>>) -> Option<GsmSchDecode<M>> {
    let readings = sch_readings(burst);
    match best(sch_ranks(readings)) {
        None => None,
        Some(i) => Some(readings[i].decode),
    }
}

/// Decodes a burst: of all ways to read it, the one with the fewest syndrome
/// bits, and among those the cheapest.
pub fn decode_sch_candidate<M: PathMetric>(burst_soft: &[SoftBit<M>]) -> (decode: Option<
    GsmSchDecode<M>,
>)
    ensures
        decode == sch_best(burst_soft@),
{
    let variants = sch_variants(burst_soft);
    let ghost readings = sch_readings(burst_soft@);
    let ghost ranks = sch_ranks(readings);
    if variants.len() == 0 {
        assert(variant_views(variants@).len() == 0);
        return None;
    }
    assert(variant_views(variants@).len() == readings.len());
    let mut held: usize = 0;
    assert(ranks.take(1).len() == 1);
    for i in 1..variants.len()
        invariant
            variant_views(variants@) == readings,
            readings.len() == variants@.len(),
            ranks == sch_ranks(readings),
            held < i <= variants@.len(),
            held == best_index(ranks.take(i as int)),
    {
        assert(ranks.take(i + 1).drop_last() =~= ranks.take(i as int));
        assert(variant_views(variants@)[i as int] == variants@[i as int]@);
        assert(variant_views(variants@)[held as int] == variants@[held as int]@);
        if replaces_sch(&variants[i].decode, &variants[held].decode) {
            held = i;
        }
    }
    assert(ranks.take(ranks.len() as int) =~= ranks);
    assert(variant_views(variants@)[held as int] == variants@[held as int]@);
    Some(variants[held].decode)
}

/// The 39 bits that a burst encodes for its 25 data bits: the data, its parity
/// bits and four zero tail bits.
pub open spec fn sch_message(data: Seq<bool>) -> Seq<bool> {
    data + parity_bits(data, low_bits(0x0575, 10)) + poly_zero(4)
}

/// Whether a decoded burst passed its parity check and holds the identity code
/// and counters in 25 data bits.
pub open spec fn carries<M>(decode: GsmSchDecode<M>, data: Seq<bool>) -> bool {
    &&& decode.parity_ok
    &&& decode.parity_syndrome == 0
    &&& decode.bsic == info_field(data, 0, 6)
    &&& decode.ncc == info_field(data, 0, 6) / 8
    &&& decode.bcc == info_field(data, 0, 6) % 8
    &&& decode.t1 == info_field(data, 6, 11)
    &&& decode.t2 == info_field(data, 17, 5)
    &&& decode.t3p == info_field(data, 22, 3)
    &&& decode.frame_number == frame_of(
        decode.t1 as int,
        decode.t2 as int,
        decode.t3p as int,
    )
}

proof fn message_shape(data: Seq<bool>)
    requires
        data.len() == 25,
    ensures
        sch_message(data).len() == 39,
        state_after(sch_message(data)) == 0,
{
    division_identity(data + poly_zero(10), low_bits(0x0575, 10));
    tail_bits_clear_the_state(sch_message(data));
}

proof fn message_carries_its_data<M: PathMetric>(data: Seq<bool>, metric: M)
    requires
        data.len() == 25,
    ensures
        carries(sch_decode_of(sch_message(data), metric, false, false), data),
{
    let tail = low_bits(0x0575, 10);
    let parity = parity_bits(data, tail);
    let word = sch_message(data);
    division_identity(data + poly_zero(10), tail);
    assert(parity.len() == 10);
    assert(word.subrange(0, 25) =~= data);
    assert(parity_view(word.subrange(25, 35), false, false) =~= parity);
    encoded_block_passes(data, tail);
    zero_syndrome_is_zero_remainder(remainder(data + parity, tail));
    vstd::arithmetic::power2::lemma2_to64();
    let ordered = octets_mirrored(data);
    field_is_subrange(ordered, 0, 6);
    field_is_subrange(ordered, 6, 11);
    field_is_subrange(ordered, 17, 5);
    field_is_subrange(ordered, 22, 3);
    let t1 = info_field(data, 6, 11) as int;
    let t2 = info_field(data, 17, 5) as int;
    let t3p = info_field(data, 22, 3) as int;
    assert(0 <= frame_of(t1, t2, t3p) <= 1326 * t1 + 1326);
}

proof fn no_syndrome_bit_means_passed<M: PathMetric>(
    word: Seq<bool>,
    metric: M,
    reversed: bool,
    inverted: bool,
)
    requires
        word.len() == 39,
        sch_rank(sch_decode_of(word, metric, reversed, inverted)).errors == 0,
    ensures
        sch_decode_of(word, metric, reversed, inverted).parity_ok,
        sch_decode_of(word, metric, reversed, inverted).parity_syndrome == 0,
{
    let tail = low_bits(0x0575, 10);
    let block = word.subrange(0, 25) + parity_view(word.subrange(25, 35), reversed, inverted);
    division_identity(block, tail);
    bits_value_bound(remainder(block, tail));
    vstd::arithmetic::power2::lemma2_to64();
    let decode = sch_decode_of(word, metric, reversed, inverted);
    no_ones_means_zero(decode.parity_syndrome as nat);
}

proof fn arranged_is_readable<M: PathMetric>(coded: Seq<SoftBit<M>>, invert: bool, swap: bool)
    requires
        readable(cost_view(coded), coded.len() as int),
    ensures
        readable(cost_view(arranged(coded, invert, swap)), coded.len() as int),
{
    let turned = arranged(coded, invert, swap);
    let costs = cost_view(turned);
    assert forall|i: int| 0 <= i < coded.len() implies (#[trigger] costs[i]).zero.is_cost()
        && costs[i].one.is_cost() by {
        let from = if swap && i < 2 * (coded.len() as int / 2) {
            i + 1 - 2 * (i % 2)
        } else {
            i
        };
        assert(0 <= from < coded.len());
        assert(cost_view(coded)[from] == coded[from].cost);
    }
}

/// The readings under one arrangement have costs, and pass where no syndrome
/// bit is set.
proof fn group_is_sound<M: PathMetric>(burst: Seq<SoftBit<M>>, invert: bool, swap: bool)
    requires
        consistent::<M>(),
        burst.len() >= 145,
        readable(cost_view(sch_coded(burst)), 78),
    ensures
        forall|i: int|
            #![trigger sch_group(burst, invert, swap)[i]]
            0 <= i < sch_group(burst, invert, swap).len() ==> {
                let decode = sch_group(burst, invert, swap)[i].decode;
                &&& decode.path_metric.is_cost()
                &&& ones(decode.parity_syndrome as nat) == 0 ==> decode.parity_ok
                    && decode.parity_syndrome == 0
            },
{
    let coded = sch_coded(burst);
    let costs = cost_view(arranged(coded, invert, swap));
    arranged_is_readable(coded, invert, swap);
    let end = final_state(costs, 39);
    survivor_is_cost(costs, 39, end);
    if let Some((word, total)) = decoded(costs, 39) {
        cheapest_state_bounds(costs, 39, 15);
        survivor_is_a_path(costs, 39, end);
        let m = total.share(78);
        let group = sch_group(burst, invert, swap);
        assert forall|i: int| #![trigger group[i]] 0 <= i < group.len() implies {
            let decode = group[i].decode;
            &&& decode.path_metric.is_cost()
            &&& ones(decode.parity_syndrome as nat) == 0 ==> decode.parity_ok
                && decode.parity_syndrome == 0
        } by {
            assert(i == 0 || i == 1 || i == 2 || i == 3);
            let reversed = i >= 2;
            let inverted = i == 1 || i == 3;
            assert(group[i].decode == sch_decode_of(word, m, reversed, inverted));
            if ones(group[i].decode.parity_syndrome as nat) == 0 {
                no_syndrome_bit_means_passed(word, m, reversed, inverted);
            }
        }
    }
}

/// Where the straight reading of a burst is a sent message, the best reading
/// passes the parity check, and is that message unless it is cheaper.
proof fn straight_message_stands<M: PathMetric>(
    burst: Seq<SoftBit<M>>,
    data: Seq<bool>,
    total: M,
)
    requires
        consistent::<M>(),
        burst.len() >= 145,
        data.len() == 25,
        readable(cost_view(sch_coded(burst)), 78),
        decoded(cost_view(sch_coded(burst)), 39) == Some((sch_message(data), total)),
    ensures
        sch_best(burst) matches Some(d) && {
            &&& d.parity_ok
            &&& d.parity_syndrome == 0
            &&& d.path_metric.is_cost()
            &&& (carries(d, data) && d.path_metric == total.share(78)) || d.path_metric.precedes(
                total.share(78),
            )
        },
{
    let word = sch_message(data);
    let coded = sch_coded(burst);
    let m = total.share(78);
    assert(arranged(coded, false, false) =~= coded);
    message_carries_its_data(data, m);
    group_is_sound(burst, false, false);
    group_is_sound(burst, false, true);
    group_is_sound(burst, true, false);
    group_is_sound(burst, true, true);
    let a = sch_group(burst, false, false);
    let b = sch_group(burst, false, true);
    let c = sch_group(burst, true, false);
    let d = sch_group(burst, true, true);
    let readings = sch_readings(burst);
    let ranks = sch_ranks(readings);
    assert(a[0] == sch_variant_of(false, false, false, false, word, m));
    assert(readings[0] == a[0]);
    assert(ones(0) == 0);
    assert forall|k: int| 0 <= k < ranks.len() implies {
        &&& (#[trigger] ranks[k]).metric.is_cost()
        &&& ranks[k].errors == 0 ==> readings[k].decode.parity_ok
            && readings[k].decode.parity_syndrome == 0
    } by {
        let after_a = k - a.len();
        let after_b = after_a - b.len();
        let after_c = after_b - c.len();
        if after_a < 0 {
            assert(readings[k] == a[k]);
        } else if after_b < 0 {
            assert(readings[k] == b[after_a]);
        } else if after_c < 0 {
            assert(readings[k] == c[after_b]);
        } else {
            assert(readings[k] == d[after_c]);
        }
    }
    first_without_errors_stands(ranks);
    assert(ranks[best_index(ranks)].metric.is_cost());
}

/// What a base station sends is what is decoded: a burst whose samples are one
/// or minus one, and differ from the encoding of 25 data bits in at most three
/// places, passes the parity check. It yields the identity code and counters
/// in the data, at the cost of its errors, unless another reading of the burst
/// passes the parity check too and is cheaper.
pub proof fn sent_burst_decodes<M: PathMetric>(
    burst: Seq<SoftBit<M>>,
    received: Seq<bool>,
    data: Seq<bool>,
    unit: M,
)
    requires
        consistent::<M>(),
        unit.is_cost(),
        counts(unit, 78),
        burst.len() >= 145,
        data.len() == 25,
        cost_view(sch_coded(burst)) == signed_costs(received, unit),
        mismatches(encode(sch_message(data)), received) <= 3,
    ensures
        sch_best(burst) matches Some(d) && {
            let cost = times(unit, mismatches(encode(sch_message(data)), received)).share(78);
            &&& d.parity_ok
            &&& d.parity_syndrome == 0
            &&& (carries(d, data) && d.path_metric == cost) || d.path_metric.precedes(cost)
        },
{
    let word = sch_message(data);
    message_shape(data);
    assert(cost_view(sch_coded(burst)).len() == 78);
    signed_is_readable(received, unit);
    three_errors_are_corrected_softly(received, word, unit);
    straight_message_stands(burst, data, times(unit, mismatches(encode(word), received)));
}

/// A burst received without doubt yields the identity code and counters in the
/// data that was sent, at no cost, whatever its other samples are.
pub proof fn clean_burst_decodes<M: PathMetric>(burst: Seq<SoftBit<M>>, data: Seq<bool>)
    requires
        consistent::<M>(),
        burst.len() >= 145,
        data.len() == 25,
        reads_clean(cost_view(sch_coded(burst)), encode(sch_message(data))),
    ensures
        sch_best(burst) matches Some(d) && carries(d, data) && d.path_metric == M::zero_value(),
{
    let word = sch_message(data);
    message_shape(data);
    encode_len(word);
    clean_is_readable(cost_view(sch_coded(burst)), encode(word));
    clean_samples_decode(cost_view(sch_coded(burst)), word);
    straight_message_stands(burst, data, M::zero_value());
}

/// Where bit `i` of the four fields, written one after the other, is sent among
/// the 25 data bits: the octets go out lowest bit first.
pub open spec fn sent_place(i: int) -> int {
    if i == 24 {
        24
    } else {
        8 * (i / 8) + 7 - i % 8
    }
}

/// Bit `k` of a field of the data, counted from the lowest, is the bit sent for
/// it: it weighs `2^k`.
pub proof fn field_bits_weigh_powers_of_two(data: Seq<bool>, offset: int, len: nat, k: nat)
    requires
        data.len() == 25,
        0 <= offset,
        offset + len <= 25,
        k < len,
    ensures
        info_field(data, offset, len as int) < pow2(len),
        data[sent_place(offset + len - 1 - k)] <==> (info_field(data, offset, len as int) / pow2(k))
            % 2 == 1,
{
    let i = offset + len - 1 - k;
    let ordered = octets_mirrored(data);
    let part = ordered.subrange(offset, offset + len);
    mirroring_turns_octets_round(data, i / 8, i % 8);
    bits_have_binary_weights(part, (len - 1 - k) as int);
    bits_value_bound(part);
    assert(part[len - 1 - k] == ordered[i]);
}

/// Written fields read back: an identity code, and counters, whose binary digits
/// are sent each at its place are what the data yields.
pub proof fn written_fields_read_back(data: Seq<bool>, bsic: nat, t1: nat, t2: nat, t3p: nat)
    requires
        data.len() == 25,
        bsic < 64,
        t1 < 2048,
        t2 < 32,
        t3p < 8,
        forall|k: nat|
            k < 6 ==> (data[sent_place(5 - k)] <==> (bsic / #[trigger] pow2(k)) % 2 == 1),
        forall|k: nat|
            k < 11 ==> (data[sent_place(16 - k)] <==> (t1 / #[trigger] pow2(k)) % 2 == 1),
        forall|k: nat|
            k < 5 ==> (data[sent_place(21 - k)] <==> (t2 / #[trigger] pow2(k)) % 2 == 1),
        forall|k: nat|
            k < 3 ==> (data[sent_place(24 - k)] <==> (t3p / #[trigger] pow2(k)) % 2 == 1),
    ensures
        info_field(data, 0, 6) == bsic,
        info_field(data, 6, 11) == t1,
        info_field(data, 17, 5) == t2,
        info_field(data, 22, 3) == t3p,
{
    vstd::arithmetic::power2::lemma2_to64();
    written_field(data, 0, 6, bsic);
    written_field(data, 6, 11, t1);
    written_field(data, 17, 5, t2);
    written_field(data, 22, 3, t3p);
}

proof fn written_field(data: Seq<bool>, offset: int, len: nat, value: nat)
    requires
        data.len() == 25,
        0 <= offset,
        0 < len,
        offset + len <= 25,
        value < pow2(len),
        forall|k: nat|
            k < len ==> (data[sent_place(offset + len - 1 - k)] <==> (value / #[trigger] pow2(k))
                % 2 == 1),
    ensures
        info_field(data, offset, len as int) == value,
{
    let read = info_field(data, offset, len as int);
    field_bits_weigh_powers_of_two(data, offset, len, 0);
    assert forall|k: nat| k < len implies (read / #[trigger] pow2(k)) % 2 == (value / pow2(k))
        % 2 by {
        field_bits_weigh_powers_of_two(data, offset, len, k);
    }
    numbers_are_their_digits(read, value, len);
}

/// Different data is told apart: two times 25 data bits with the same four
/// fields are the same.
pub proof fn data_is_told_apart(a: Seq<bool>, b: Seq<bool>)
    requires
        a.len() == 25,
        b.len() == 25,
        info_field(a, 0, 6) == info_field(b, 0, 6),
        info_field(a, 6, 11) == info_field(b, 6, 11),
        info_field(a, 17, 5) == info_field(b, 17, 5),
        info_field(a, 22, 3) == info_field(b, 22, 3),
    ensures
        a == b,
{
    assert forall|p: int| 0 <= p < 25 implies a[p] == b[p] by {
        let i = sent_place(p);
        assert(sent_place(i) == p);
        let (offset, len): (int, nat) = if i < 6 {
            (0, 6)
        } else if i < 17 {
            (6, 11)
        } else if i < 22 {
            (17, 5)
        } else {
            (22, 3)
        };
        let k = (offset + len - 1 - i) as nat;
        field_bits_weigh_powers_of_two(a, offset, len, k);
        field_bits_weigh_powers_of_two(b, offset, len, k);
    }
    assert(a =~= b);
}

/// Counters that no frame has still give a frame past the start of their cycle.
pub proof fn impossible_counters_count_from_the_cycle(t1: int, t2: int, t3p: int)
    requires
        t2 >= 26 || t3p >= 5,
        t2 >= 0,
        t3p >= 0,
    ensures
        frame_of(t1, t2, t3p) - 1326 * t1 == 10 * t3p + 1,
{
}

/// The coded bits of a burst stand 39 on either side of its training sequence:
/// from the fourth symbol, and from the hundred and seventh.
pub proof fn coded_bits_surround_the_training<M>(burst: Seq<SoftBit<M>>, i: int)
    requires
        burst.len() >= 145,
        0 <= i < 39,
    ensures
        sch_coded(burst).len() == 78,
        sch_coded(burst)[i] == burst[3 + i],
        sch_coded(burst)[39 + i] == burst[106 + i],
{
}

/// What a decoded word holds, whichever way its parity bits are read: the fields
/// of its first 25 bits, a colour code in the lowest three bits of the
/// identity, and the cost it came at.
pub proof fn decode_holds_the_fields<M>(
    word: Seq<bool>,
    metric: M,
    reversed: bool,
    inverted: bool,
    k: nat,
)
    requires
        word.len() == 39,
    ensures
        ({
            let d = sch_decode_of(word, metric, reversed, inverted);
            &&& d.path_metric == metric
            &&& d.bsic == 8 * d.ncc + d.bcc && d.bcc < 8 && d.ncc < 8
            &&& d.t1 < 2048 && d.t2 < 32 && d.t3p < 8
            &&& d.frame_number == frame_of(d.t1 as int, d.t2 as int, d.t3p as int)
            &&& k < 6 ==> (word[sent_place(5 - k)] <==> (d.bsic as nat / pow2(k)) % 2 == 1)
            &&& k < 11 ==> (word[sent_place(16 - k)] <==> (d.t1 as nat / pow2(k)) % 2 == 1)
            &&& k < 5 ==> (word[sent_place(21 - k)] <==> (d.t2 as nat / pow2(k)) % 2 == 1)
            &&& k < 3 ==> (word[sent_place(24 - k)] <==> (d.t3p as nat / pow2(k)) % 2 == 1)
        }),
{
    let data = word.subrange(0, 25);
    vstd::arithmetic::power2::lemma2_to64();
    field_bits_weigh_powers_of_two(data, 0, 6, if k < 6 { k } else { 0 });
    field_bits_weigh_powers_of_two(data, 6, 11, if k < 11 { k } else { 0 });
    field_bits_weigh_powers_of_two(data, 17, 5, if k < 5 { k } else { 0 });
    field_bits_weigh_powers_of_two(data, 22, 3, if k < 3 { k } else { 0 });
    let t1 = info_field(data, 6, 11) as int;
    let t2 = info_field(data, 17, 5) as int;
    let t3p = info_field(data, 22, 3) as int;
    assert(0 <= frame_of(t1, t2, t3p) <= 1326 * t1 + 1326);
}

/// The generator of the parity check without its leading term:
/// `x^8 + x^6 + x^5 + x^4 + x^2 + 1`.
pub open spec fn sch_generator() -> Seq<bool> {
    Seq::new(
        10,
        |i: int|
            {
                let power = 9 - i;
                power == 8 || power == 6 || power == 5 || power == 4 || power == 2 || power == 0
            },
    )
}

proof fn sch_generator_bits()
    ensures
        low_bits(0x0575, 10) == sch_generator(),
{
    assert forall|i: int| 0 <= i < 10 implies low_bits(0x0575, 10)[i] == sch_generator()[i] by {
        let e = (9 - i) as u64;
        assert((0x0575u64 >> e) & 1 == 1 <==> (e == 8 || e == 6 || e == 5 || e == 4 || e == 2 || e
            == 0)) by (bit_vector)
            requires
                e < 10,
        ;
    }
    assert(low_bits(0x0575, 10) =~= sch_generator());
}

/// Whether `block` is 25 data bits of a decoded word and its ten parity bits,
/// put back in order where they came reversed, and negated where inverted.
pub open spec fn is_checked_block(
    block: Seq<bool>,
    word: Seq<bool>,
    reversed: bool,
    inverted: bool,
) -> bool {
    &&& block.len() == 35
    &&& forall|i: int| 0 <= i < 25 ==> #[trigger] block[i] == word[i]
    &&& forall|i: int|
        25 <= i < 35 ==> #[trigger] block[i] == (word[if reversed {
            59 - i
        } else {
            i
        }] != inverted)
}

/// The parity check of a decoded word passes just where data and parity bits
/// make a multiple of the generator, and the syndrome is what is left of them.
pub proof fn parity_check_is_division<M>(
    word: Seq<bool>,
    metric: M,
    reversed: bool,
    inverted: bool,
    block: Seq<bool>,
)
    requires
        word.len() == 39,
        is_checked_block(block, word, reversed, inverted),
    ensures
        sch_decode_of(word, metric, reversed, inverted).parity_ok <==> is_codeword(
            block,
            sch_generator(),
        ),
        sch_decode_of(word, metric, reversed, inverted).parity_syndrome == bits_value(
            remainder(block, sch_generator()),
        ),
{
    sch_generator_bits();
    let tail = sch_generator();
    let read = word.subrange(0, 25) + parity_view(word.subrange(25, 35), reversed, inverted);
    assert(read =~= block);
    division_identity(block, tail);
    zero_remainder_iff_codeword(block, tail);
    zero_syndrome_is_zero_remainder(remainder(block, tail));
    bits_value_bound(remainder(block, tail));
    vstd::arithmetic::power2::lemma2_to64();
}

/// A burst is read however it was sent: with its coded bits straight or
/// inverted, its coded pairs in either order, and its parity bits in either
/// order and sense. Received without doubt, one of its readings is the word
/// that was sent, and the one reported passes the parity check at no cost.
pub proof fn burst_is_read_however_it_was_sent<M: PathMetric>(
    burst: Seq<SoftBit<M>>,
    word: Seq<bool>,
    sent: Seq<bool>,
    block: Seq<bool>,
    invert: bool,
    swap: bool,
    reversed: bool,
    inverted: bool,
)
    requires
        consistent::<M>(),
        burst.len() >= 145,
        word.len() == 39,
        forall|i: int| 35 <= i < 39 ==> !#[trigger] word[i],
        is_checked_block(block, word, reversed, inverted),
        is_codeword(block, sch_generator()),
        sent.len() == 78,
        forall|i: int|
            0 <= i < 78 ==> #[trigger] sent[i] == (encode(word)[partner(i, swap)] != invert),
        reads_clean(cost_view(sch_coded(burst)), sent),
    ensures
        exists|k: int|
            #![trigger sch_readings(burst)[k]]
            0 <= k < sch_readings(burst).len() && {
                let v = sch_readings(burst)[k];
                &&& v.invert_coded == invert
                &&& v.swap_pair_order == swap
                &&& v.parity_reversed == reversed
                &&& v.parity_inverted == inverted
                &&& v.uncoded == word
                &&& v.decode.parity_ok
                &&& v.decode.path_metric == M::zero_value()
            },
        sch_best(burst) matches Some(d) && d.parity_ok && d.parity_syndrome == 0
            && !M::zero_value().precedes(d.path_metric),
{
    let coded = sch_coded(burst);
    let v = (if reversed {
        2int
    } else {
        0
    }) + if inverted {
        1int
    } else {
        0
    };
    let readings = sch_readings(burst);
    let ranks = sch_ranks(readings);
    clean_is_readable(cost_view(coded), sent);
    clean_group_holds_the_word(
        burst,
        word,
        sent,
        block,
        invert,
        swap,
        reversed,
        inverted,
    );
    let k = group_start(burst, invert, swap) + v;
    groups_follow_each_other(burst, invert, swap, v);
    assert(ones(0) == 0);
    assert(ranks[k].errors == 0);
    assert(ranks[k].metric == M::zero_value());
    readings_are_sound(burst);
    assert forall|i: int| 0 <= i < ranks.len() implies (#[trigger] ranks[i]).metric.is_cost() by {
        assert(readings[i] == readings[i]);
    }
    best_has_the_fewest_errors(ranks, k);
    best_is_the_first_of_the_cheapest(ranks, k);
    assert(readings[best_index(ranks)].decode.parity_ok);
}

proof fn clean_group_holds_the_word<M: PathMetric>(
    burst: Seq<SoftBit<M>>,
    word: Seq<bool>,
    sent: Seq<bool>,
    block: Seq<bool>,
    invert: bool,
    swap: bool,
    reversed: bool,
    inverted: bool,
)
    requires
        consistent::<M>(),
        burst.len() >= 145,
        word.len() == 39,
        forall|i: int| 35 <= i < 39 ==> !#[trigger] word[i],
        is_checked_block(block, word, reversed, inverted),
        is_codeword(block, sch_generator()),
        sent.len() == 78,
        forall|i: int|
            0 <= i < 78 ==> #[trigger] sent[i] == (encode(word)[partner(i, swap)] != invert),
        reads_clean(cost_view(sch_coded(burst)), sent),
    ensures
        ({
            let v = (if reversed {
                2int
            } else {
                0
            }) + if inverted {
                1int
            } else {
                0
            };
            let reading = sch_variant_of(
                invert,
                swap,
                reversed,
                inverted,
                word,
                M::zero_value(),
            );
            &&& sch_group(burst, invert, swap).len() == 4
            &&& sch_group(burst, invert, swap)[v] == reading
            &&& reading.decode.parity_ok
            &&& reading.decode.parity_syndrome == 0
        }),
{
    let coded = sch_coded(burst);
    let code = encode(word);
    let zero = M::zero_value();
    encode_len(word);
    tail_bits_clear_the_state(word);
    arranging_undoes_how_it_was_sent(coded, sent, code, invert, swap);
    clean_samples_decode(cost_view(arranged(coded, invert, swap)), word);
    parity_check_is_division(word, zero, reversed, inverted, block);
    zero_remainder_iff_codeword(block, sch_generator());
    division_identity(block, sch_generator());
    zero_syndrome_is_zero_remainder(remainder(block, sch_generator()));
}

spec fn group_start<M: PathMetric>(burst: Seq<SoftBit<M>>, invert: bool, swap: bool) -> int {
    let a = sch_group(burst, false, false).len() as int;
    let b = sch_group(burst, false, true).len() as int;
    let c = sch_group(burst, true, false).len() as int;
    if !invert && !swap {
        0
    } else if !invert {
        a
    } else if !swap {
        a + b
    } else {
        a + b + c
    }
}

proof fn groups_follow_each_other<M: PathMetric>(
    burst: Seq<SoftBit<M>>,
    invert: bool,
    swap: bool,
    v: int,
)
    requires
        burst.len() >= 145,
        0 <= v < sch_group(burst, invert, swap).len(),
    ensures
        0 <= group_start(burst, invert, swap) + v < sch_readings(burst).len(),
        sch_readings(burst)[group_start(burst, invert, swap) + v] == sch_group(
            burst,
            invert,
            swap,
        )[v],
{
}

proof fn readings_are_sound<M: PathMetric>(burst: Seq<SoftBit<M>>)
    requires
        consistent::<M>(),
        burst.len() >= 145,
        readable(cost_view(sch_coded(burst)), 78),
    ensures
        forall|k: int|
            #![trigger sch_readings(burst)[k]]
            #![trigger sch_ranks(sch_readings(burst))[k]]
            0 <= k < sch_readings(burst).len() ==> {
                let decode = sch_readings(burst)[k].decode;
                &&& sch_ranks(sch_readings(burst))[k].metric.is_cost()
                &&& sch_ranks(sch_readings(burst))[k].errors == 0 ==> decode.parity_ok
                    && decode.parity_syndrome == 0
            },
{
    group_is_sound(burst, false, false);
    group_is_sound(burst, false, true);
    group_is_sound(burst, true, false);
    group_is_sound(burst, true, true);
    let a = sch_group(burst, false, false);
    let b = sch_group(burst, false, true);
    let c = sch_group(burst, true, false);
    let d = sch_group(burst, true, true);
    let readings = sch_readings(burst);
    let ranks = sch_ranks(readings);
    assert forall|k: int| 0 <= k < readings.len() implies {
        &&& (#[trigger] ranks[k]).metric.is_cost()
        &&& ranks[k].errors == 0 ==> readings[k].decode.parity_ok
            && readings[k].decode.parity_syndrome == 0
    } by {
        let after_a = k - a.len();
        let after_b = after_a - b.len();
        let after_c = after_b - c.len();
        if after_a < 0 {
            assert(readings[k] == a[k]);
        } else if after_b < 0 {
            assert(readings[k] == b[after_a]);
        } else if after_c < 0 {
            assert(readings[k] == c[after_b]);
        } else {
            assert(readings[k] == d[after_c]);
        }
    }
    assert forall|k: int|
        #![trigger readings[k]]
        #![trigger ranks[k]]
        0 <= k < readings.len() implies ranks[k].metric.is_cost() && (ranks[k].errors == 0
        ==> readings[k].decode.parity_ok && readings[k].decode.parity_syndrome == 0) by {
        assert(ranks[k].metric.is_cost());
    }
}

/// The reading that is reported has as few syndrome bits set as any, and of
/// those with as few none is cheaper.
pub proof fn reported_reading_is_the_best<M: PathMetric>(burst: Seq<SoftBit<M>>, k: int)
    requires
        consistent::<M>(),
        burst.len() >= 145,
        readable(cost_view(sch_coded(burst)), 78),
        0 <= k < sch_readings(burst).len(),
    ensures
        sch_best(burst) matches Some(d) && {
            let other = sch_readings(burst)[k].decode;
            &&& ones(d.parity_syndrome as nat) <= ones(other.parity_syndrome as nat)
            &&& ones(d.parity_syndrome as nat) == ones(other.parity_syndrome as nat)
                ==> !other.path_metric.precedes(d.path_metric)
        },
{
    let readings = sch_readings(burst);
    let ranks = sch_ranks(readings);
    readings_are_sound(burst);
    assert forall|i: int| 0 <= i < ranks.len() implies (#[trigger] ranks[i]).metric.is_cost() by {
        assert(readings[i] == readings[i]);
    }
    best_has_the_fewest_errors(ranks, k);
    if ranks[k].errors == ranks[best_index(ranks)].errors {
        best_is_the_first_of_the_cheapest(ranks, k);
    }
}

/// A burst that is too short is not read at all.
pub proof fn short_bursts_have_no_reading<M: PathMetric>(burst: Seq<SoftBit<M>>)
    requires
        burst.len() < 145,
    ensures
        sch_best(burst) is None,
        sch_readings(burst).len() == 0,
{
}

} // verus!
