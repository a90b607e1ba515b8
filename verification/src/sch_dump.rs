//! A dump of the readings of synchronisation bursts, for debugging.

use crate::bits::{bits_text, bool_bits_to_string, text_has_a_digit_for_each_bit};
use crate::ranking::{count_ones, ones};
use crate::sch::{
    coded_bits_surround_the_training, sch_coded, sch_readings, sch_variants, variant_views,
    SchVariant, SchVariantView,
};
use crate::sch_search::SchCandidate;
use crate::soft::{hard_view, soft_bits_to_string, SoftBit};
use crate::text::{bool_text, decimal, hex_3, push_bool, push_decimal, push_hex_3};
use crate::viterbi::PathMetric;
use vstd::prelude::*;
use vstd::string::StringExecFns;

verus! {

/// Candidates that are dumped at most.
pub const MAX_DUMPED: usize = 8;

/// The line of a reading. The cost of its path, a real number, is left to the
/// application to write between the two parts.
pub struct DumpLine<M> {
    pub before_metric: String,
    pub metric: M,
    pub after_metric: String,
}

/// Model of [`DumpLine`].
pub struct DumpLineView<M> {
    pub before_metric: Seq<char>,
    pub metric: M,
    pub after_metric: Seq<char>,
}

impl<M> View for DumpLine<M> {
    type V = DumpLineView<M>;

    open spec fn view(&self) -> DumpLineView<M> {
        DumpLineView {
            before_metric: self.before_metric@,
            metric: self.metric,
            after_metric: self.after_metric@,
        }
    }
}

/// The models of lines.
pub open spec fn line_views<M>(lines: Seq<DumpLine<M>>) -> Seq<DumpLineView<M>> {
    lines.map_values(|l: DumpLine<M>| l@)
}

/// The line of a reading up to the cost of its path.
pub open spec fn line_head<M>(v: SchVariantView<M>) -> Seq<char> {
    "variant inv="@ + bool_text(v.invert_coded) + " swap="@ + bool_text(v.swap_pair_order)
        + " prev="@ + bool_text(v.parity_reversed) + " pinv="@ + bool_text(v.parity_inverted)
        + " ok="@ + bool_text(v.decode.parity_ok) + " syn=0x"@ + hex_3(v.decode.parity_syndrome)
        + " pop="@ + decimal(ones(v.decode.parity_syndrome as nat)) + " metric="@
}

/// The line of a reading from the cost of its path on.
pub open spec fn line_tail<M>(v: SchVariantView<M>) -> Seq<char> {
    " bsic="@ + decimal(v.decode.bsic as nat) + " ncc="@ + decimal(v.decode.ncc as nat) + " bcc="@
        + decimal(v.decode.bcc as nat) + " fn="@ + decimal(v.decode.frame_number as nat)
        + " fn_mod51="@ + decimal((v.decode.frame_number % 51) as nat) + " u="@ + bits_text(
        v.uncoded,
    ) + "\n"@
}

/// The line of a reading.
pub open spec fn line_of<M>(v: SchVariantView<M>) -> DumpLineView<M> {
    DumpLineView {
        before_metric: line_head(v),
        metric: v.decode.path_metric,
        after_metric: line_tail(v),
    }
}

fn dump_head<M: PathMetric>(v: &SchVariant<M>) -> (text: String)
    ensures
        text@ == line_head(v@),
{
    let mut text = "variant inv=".to_string();
    push_bool(&mut text, v.invert_coded);
    text.append(" swap=");
    push_bool(&mut text, v.swap_pair_order);
    text.append(" prev=");
    push_bool(&mut text, v.parity_reversed);
    text.append(" pinv=");
    push_bool(&mut text, v.parity_inverted);
    text.append(" ok=");
    push_bool(&mut text, v.decode.parity_ok);
    text.append(" syn=0x");
    push_hex_3(&mut text, v.decode.parity_syndrome);
    text.append(" pop=");
    push_decimal(&mut text, count_ones(v.decode.parity_syndrome as u64) as u64);
    text.append(" metric=");
    text
}

fn dump_tail<M: PathMetric>(v: &SchVariant<M>) -> (text: String)
    ensures
        text@ == line_tail(v@),
{
    let mut text = " bsic=".to_string();
    push_decimal(&mut text, v.decode.bsic as u64);
    text.append(" ncc=");
    push_decimal(&mut text, v.decode.ncc as u64);
    text.append(" bcc=");
    push_decimal(&mut text, v.decode.bcc as u64);
    text.append(" fn=");
    push_decimal(&mut text, v.decode.frame_number as u64);
    text.append(" fn_mod51=");
    push_decimal(&mut text, (v.decode.frame_number % 51) as u64);
    text.append(" u=");
    let bits = bool_bits_to_string(v.uncoded.as_slice());
    text.append(bits.as_str());
    text.append("\n");
    text
}

/// The dump of a candidate: its coded bits as they were received, and a line
/// for each reading. A burst that is too short has neither.
pub struct CandidateDump<M> {
    pub coded_line: String,
    pub lines: Vec<DumpLine<M>>,
}

/// The line with the coded bits of a burst.
pub open spec fn coded_line_of<M>(burst: Seq<SoftBit<M>>) -> Seq<char> {
    if burst.len() < 145 {
        seq![]
    } else {
        "c_soft_hard="@ + bits_text(hard_view(sch_coded(burst))) + "\n"@
    }
}

/// Whether a dump is that of a burst.
pub open spec fn dumps<M: PathMetric>(dump: CandidateDump<M>, burst: Seq<SoftBit<M>>) -> bool {
    &&& dump.coded_line@ == coded_line_of(burst)
    &&& line_views(dump.lines@) == sch_readings(burst).map_values(
        |v: SchVariantView<M>| line_of(v),
    )
}

fn dump_burst<M: PathMetric>(burst: &[SoftBit<M>]) -> (dump: CandidateDump<M>)
    ensures
        dumps(dump, burst@),
{
    let mut coded_line = String::new();
    if burst.len() >= 145 {
        let mut coded: Vec<SoftBit<M>> = Vec::with_capacity(78);
        for i in 0usize..78
            invariant
                burst@.len() >= 145,
                coded@ =~= sch_coded(burst@).take(i as int),
        {
            coded.push(
                if i < 39 {
                    burst[3 + i]
                } else {
                    burst[106 + (i - 39)]
                },
            );
        }
        assert(coded@ =~= sch_coded(burst@));
        coded_line.append("c_soft_hard=");
        let bits = soft_bits_to_string(coded.as_slice());
        coded_line.append(bits.as_str());
        coded_line.append("\n");
        assert(coded_line@ =~= coded_line_of(burst@));
    } else {
        assert(coded_line@ =~= coded_line_of(burst@));
    }
    let variants = sch_variants(burst);
    let ghost readings = sch_readings(burst@);
    let mut lines: Vec<DumpLine<M>> = Vec::with_capacity(variants.len());
    for i in 0..variants.len()
        invariant
            variant_views(variants@) == readings,
            readings.len() == variants@.len(),
            lines@.len() == i,
            forall|k: int| 0 <= k < i ==> (#[trigger] lines@[k])@ == line_of(readings[k]),
    {
        let v = &variants[i];
        assert(variant_views(variants@)[i as int] == v@);
        lines.push(
            DumpLine {
                before_metric: dump_head(v),
                metric: v.decode.path_metric,
                after_metric: dump_tail(v),
            },
        );
    }
    assert(line_views(lines@) =~= readings.map_values(|v: SchVariantView<M>| line_of(v)));
    CandidateDump { coded_line, lines }
}

/// Dumps the first candidates, at most eight of them.
pub fn write_sch_debug_dump<M: PathMetric, P>(candidates: &[SchCandidate<M, P>]) -> (r: Vec<
    CandidateDump<M>,
>)
    ensures
        r@.len() == if candidates@.len() < 8 {
            candidates@.len()
        } else {
            8
        },
        forall|i: int| 0 <= i < r@.len() ==> dumps(#[trigger] r@[i], candidates@[i].soft@),
{
    let count: usize = if candidates.len() < MAX_DUMPED {
        candidates.len()
    } else {
        MAX_DUMPED
    };
    let mut r: Vec<CandidateDump<M>> = Vec::with_capacity(count);
    for i in 0..count
        invariant
            count <= candidates@.len(),
            r@.len() == i,
            forall|k: int| 0 <= k < i ==> dumps(#[trigger] r@[k], candidates@[k].soft@),
    {
        r.push(dump_burst(candidates[i].soft.as_slice()));
    }
    r
}

/// The line of coded bits shows each of the 78 as it is read without confidence,
/// in the order in which they are decoded; a burst that is too short has none.
pub proof fn coded_lines_show_every_bit<M>(burst: Seq<SoftBit<M>>, i: int)
    requires
        0 <= i < 39,
    ensures
        burst.len() < 145 ==> coded_line_of(burst).len() == 0,
        burst.len() >= 145 ==> ({
            let text = coded_line_of(burst);
            let start = "c_soft_hard="@.len();
            &&& text.len() == start + 78 + "\n"@.len()
            &&& "c_soft_hard="@.is_prefix_of(text)
            &&& text[start + i] == if burst[3 + i].reads_one {
                '1'
            } else {
                '0'
            }
            &&& text[start + 39 + i] == if burst[106 + i].reads_one {
                '1'
            } else {
                '0'
            }
        }),
{
    if burst.len() >= 145 {
        let coded = sch_coded(burst);
        let bits = hard_view(coded);
        let text = coded_line_of(burst);
        let label = "c_soft_hard="@;
        coded_bits_surround_the_training(burst, i);
        text_has_a_digit_for_each_bit(bits, i);
        text_has_a_digit_for_each_bit(bits, 39 + i);
        assert(text.take(label.len() as int) =~= label);
        assert(text[label.len() + i] == bits_text(bits)[i]);
        assert(text[label.len() + 39 + i] == bits_text(bits)[39 + i]);
    }
}

/// Pieces of text, one after the other.
pub open spec fn joined(pieces: Seq<Seq<char>>) -> Seq<char>
    decreases pieces.len(),
{
    if pieces.len() == 0 {
        seq![]
    } else {
        joined(pieces.drop_last()) + pieces.last()
    }
}

proof fn joined_with(pieces: Seq<Seq<char>>, piece: Seq<char>) -> (more: Seq<Seq<char>>)
    ensures
        more == pieces.push(piece),
        joined(more) == joined(pieces) + piece,
{
    assert(pieces.push(piece).drop_last() =~= pieces);
    pieces.push(piece)
}

/// A line shows how its reading was made, whether it passed its check and what
/// the check left over, each behind its name; the cost of the path comes last.
pub proof fn lines_show_how_a_burst_was_read<M>(v: SchVariantView<M>)
    ensures
        line_of(v).metric == v.decode.path_metric,
        line_of(v).before_metric == joined(
            seq![
                "variant inv="@,
                bool_text(v.invert_coded),
                " swap="@,
                bool_text(v.swap_pair_order),
                " prev="@,
                bool_text(v.parity_reversed),
                " pinv="@,
                bool_text(v.parity_inverted),
                " ok="@,
                bool_text(v.decode.parity_ok),
                " syn=0x"@,
                hex_3(v.decode.parity_syndrome),
                " pop="@,
                decimal(ones(v.decode.parity_syndrome as nat)),
                " metric="@,
            ],
        ),
{
    let start: Seq<Seq<char>> = seq![];
    assert(joined(start) =~= seq![]);
    let p1 = joined_with(start, "variant inv="@);
    let p2 = joined_with(p1, bool_text(v.invert_coded));
    let p3 = joined_with(p2, " swap="@);
    let p4 = joined_with(p3, bool_text(v.swap_pair_order));
    let p5 = joined_with(p4, " prev="@);
    let p6 = joined_with(p5, bool_text(v.parity_reversed));
    let p7 = joined_with(p6, " pinv="@);
    let p8 = joined_with(p7, bool_text(v.parity_inverted));
    let p9 = joined_with(p8, " ok="@);
    let p10 = joined_with(p9, bool_text(v.decode.parity_ok));
    let p11 = joined_with(p10, " syn=0x"@);
    let p12 = joined_with(p11, hex_3(v.decode.parity_syndrome));
    let p13 = joined_with(p12, " pop="@);
    let p14 = joined_with(p13, decimal(ones(v.decode.parity_syndrome as nat)));
    let p15 = joined_with(p14, " metric="@);
    assert(joined(p1) =~= "variant inv="@);
    assert(p15 =~= seq![
        "variant inv="@,
        bool_text(v.invert_coded),
        " swap="@,
        bool_text(v.swap_pair_order),
        " prev="@,
        bool_text(v.parity_reversed),
        " pinv="@,
        bool_text(v.parity_inverted),
        " ok="@,
        bool_text(v.decode.parity_ok),
        " syn=0x"@,
        hex_3(v.decode.parity_syndrome),
        " pop="@,
        decimal(ones(v.decode.parity_syndrome as nat)),
        " metric="@,
    ]);
}

/// After the cost a line shows the fields that were read, with the place of the
/// frame in its multiframe, each behind its name, and the bits themselves.
pub proof fn lines_show_what_was_read<M>(v: SchVariantView<M>)
    ensures
        line_of(v).after_metric == joined(
            seq![
                " bsic="@,
                decimal(v.decode.bsic as nat),
                " ncc="@,
                decimal(v.decode.ncc as nat),
                " bcc="@,
                decimal(v.decode.bcc as nat),
                " fn="@,
                decimal(v.decode.frame_number as nat),
                " fn_mod51="@,
                decimal((v.decode.frame_number % 51) as nat),
                " u="@,
                bits_text(v.uncoded),
                "\n"@,
            ],
        ),
{
    let start: Seq<Seq<char>> = seq![];
    assert(joined(start) =~= seq![]);
    let p1 = joined_with(start, " bsic="@);
    let p2 = joined_with(p1, decimal(v.decode.bsic as nat));
    let p3 = joined_with(p2, " ncc="@);
    let p4 = joined_with(p3, decimal(v.decode.ncc as nat));
    let p5 = joined_with(p4, " bcc="@);
    let p6 = joined_with(p5, decimal(v.decode.bcc as nat));
    let p7 = joined_with(p6, " fn="@);
    let p8 = joined_with(p7, decimal(v.decode.frame_number as nat));
    let p9 = joined_with(p8, " fn_mod51="@);
    let p10 = joined_with(p9, decimal((v.decode.frame_number % 51) as nat));
    let p11 = joined_with(p10, " u="@);
    let p12 = joined_with(p11, bits_text(v.uncoded));
    let p13 = joined_with(p12, "\n"@);
    assert(joined(p1) =~= " bsic="@);
    assert(p13 =~= seq![
        " bsic="@,
        decimal(v.decode.bsic as nat),
        " ncc="@,
        decimal(v.decode.ncc as nat),
        " bcc="@,
        decimal(v.decode.bcc as nat),
        " fn="@,
        decimal(v.decode.frame_number as nat),
        " fn_mod51="@,
        decimal((v.decode.frame_number % 51) as nat),
        " u="@,
        bits_text(v.uncoded),
        "\n"@,
    ]);
}

/// The dump of a burst has its line of coded bits, and a line for each reading in
/// their order.
pub proof fn dumps_have_a_line_for_each_reading<M: PathMetric>(
    dump: CandidateDump<M>,
    burst: Seq<SoftBit<M>>,
    i: int,
)
    requires
        dumps(dump, burst),
    ensures
        burst.len() < 145 ==> dump.coded_line@.len() == 0,
        burst.len() >= 145 ==> dump.coded_line@ == "c_soft_hard="@ + (bits_text(
            hard_view(sch_coded(burst)),
        ) + "\n"@),
        dump.lines@.len() == sch_readings(burst).len(),
        0 <= i < dump.lines@.len() ==> dump.lines@[i].metric == sch_readings(
            burst,
        )[i].decode.path_metric && dump.lines@[i].before_metric@ == line_head(
            sch_readings(burst)[i],
        ) && dump.lines@[i].after_metric@ == line_tail(sch_readings(burst)[i]),
{
    let lines = line_views(dump.lines@);
    assert(lines.len() == dump.lines@.len());
    if 0 <= i < dump.lines@.len() {
        assert(lines[i] == dump.lines@[i]@);
        assert(lines[i] == line_of(sch_readings(burst)[i]));
    }
}

} // verus!
