use pixdr::bits::lsb8msb;
use pixdr::sch::{
    build_sch_decode, decode_sch_candidate, parse_sch_info_bits, sch_frame_number, sch_variants,
};
use pixdr::sch_dump::write_sch_debug_dump;
use pixdr::sch_search::{
    decode_sch_candidates, estimate_sch_sync_candidate, push_sch_candidate, sch_worth_searching,
    SchCandidate, SchTrial,
};
use pixdr::soft::SoftBit;
use pixdr::symbols::RecordedStream;
use pixdr::viterbi::{gsm_conv_outputs, BitCost};

fn hard_sample(bit: bool) -> SoftBit<u32> {
    SoftBit {
        reads_one: bit,
        negated_reads_one: !bit,
        cost: BitCost { zero: u32::from(bit), one: u32::from(!bit) },
    }
}

fn digits(text: &str) -> Vec<bool> {
    text.chars().map(|c| c == '1').collect()
}

/// The 39 message bits for identity 42 and counters 1234, 17 and 3.
fn sch_word() -> Vec<bool> {
    let mut word = digits("0101010110010110101000101");
    for i in 0..10 {
        word.push((0x131 >> (9 - i)) & 1 == 1);
    }
    word.extend([false; 4]);
    word
}

fn sch_burst(word: &[bool]) -> Vec<SoftBit<u32>> {
    let mut state = 0usize;
    let mut coded = Vec::new();
    for bit in word {
        let (a, b) = gsm_conv_outputs(state, *bit);
        coded.push(a);
        coded.push(b);
        state = ((state << 1) & 0x0e) | usize::from(*bit);
    }
    let mut burst = vec![hard_sample(false); 148];
    for i in 0..39 {
        burst[3 + i] = hard_sample(coded[i]);
        burst[106 + i] = hard_sample(coded[39 + i]);
    }
    burst
}

#[test]
fn frame_numbers_follow_the_counters() {
    assert_eq!(sch_frame_number(1234, 17, 3), 1_637_029);
    assert_eq!(sch_frame_number(0, 1, 0), 1);
    assert_eq!(sch_frame_number(2, 26, 0), 2 * 1326 + 1);
    assert_eq!(sch_frame_number(2, 0, 5), 2 * 1326 + 51);
}

#[test]
fn info_fields_are_parsed() {
    let mut ordered = [false; 25];
    let fields = [(42u32, 6usize), (1234, 11), (17, 5), (3, 3)];
    let mut at = 0;
    for (value, len) in fields {
        for k in 0..len {
            ordered[at] = (value >> (len - 1 - k)) & 1 == 1;
            at += 1;
        }
    }
    lsb8msb(&mut ordered);
    assert_eq!(ordered.to_vec(), digits("0101010110010110101000101"));
    assert_eq!(parse_sch_info_bits(&ordered), (42, 1234, 17, 3));
}

#[test]
fn decoded_words_are_judged_by_parity() {
    let mut word = [false; 39];
    word.copy_from_slice(&sch_word());
    let decode = build_sch_decode(&word, 7u32, false, false);
    assert!(decode.parity_ok);
    assert_eq!(decode.parity_syndrome, 0);
    assert_eq!(decode.path_metric, 7);
    assert_eq!((decode.bsic, decode.ncc, decode.bcc), (42, 5, 2));
    assert_eq!(decode.frame_number, 1_637_029);
    let inverted = build_sch_decode(&word, 7u32, false, true);
    assert!(!inverted.parity_ok);
    assert_eq!(inverted.parity_syndrome, 0x3ff);
}

#[test]
fn sent_burst_decodes() {
    let burst = sch_burst(&sch_word());
    let decode = decode_sch_candidate(&burst).unwrap();
    assert!(decode.parity_ok);
    assert_eq!((decode.bsic, decode.t1, decode.t2, decode.t3p), (42, 1234, 17, 3));
}

#[test]
fn burst_with_three_errors_decodes() {
    let mut burst = sch_burst(&sch_word());
    for i in [4, 40, 120] {
        burst[i] = burst[i].negated();
    }
    let decode = decode_sch_candidate(&burst).unwrap();
    assert!(decode.parity_ok);
    assert_eq!((decode.bsic, decode.t1, decode.t2, decode.t3p), (42, 1234, 17, 3));
}

#[test]
fn short_bursts_do_not_decode() {
    let burst = sch_burst(&sch_word());
    assert!(decode_sch_candidate(&burst[..144]).is_none());
    assert!(decode_sch_candidate(&burst[..145]).is_some());
    assert!(sch_variants(&burst[..144]).is_empty());
}

#[test]
fn a_burst_is_read_in_sixteen_ways() {
    let variants = sch_variants(&sch_burst(&sch_word()));
    assert_eq!(variants.len(), 16);
    assert!(variants[0].decode.parity_ok);
    assert!(!variants[0].invert_coded && !variants[0].swap_pair_order);
    assert!(variants[15].invert_coded && variants[15].swap_pair_order);
    assert!(variants[15].parity_reversed && variants[15].parity_inverted);
}

fn sch_candidate(score: u32, symbol_offset: usize) -> SchCandidate<u32, u8> {
    SchCandidate { score, symbol_offset, sample_phase: 0, soft: Vec::new() }
}

#[test]
fn nearby_candidates_compete() {
    let mut list = Vec::new();
    push_sch_candidate(&mut list, sch_candidate(5, 100));
    push_sch_candidate(&mut list, sch_candidate(4, 106));
    push_sch_candidate(&mut list, sch_candidate(4, 107));
    assert_eq!(list.iter().map(|c| c.symbol_offset).collect::<Vec<_>>(), vec![100, 107]);
    push_sch_candidate(&mut list, sch_candidate(9, 103));
    assert_eq!(list.iter().map(|c| c.symbol_offset).collect::<Vec<_>>(), vec![103, 107]);
}

#[test]
fn a_full_list_gives_up_its_weakest() {
    let mut list = Vec::new();
    for i in 0..18 {
        push_sch_candidate(&mut list, sch_candidate(10 + i, 100 * i as usize));
    }
    push_sch_candidate(&mut list, sch_candidate(10, 5000));
    assert_eq!(list.len(), 18);
    assert_eq!(list[0].symbol_offset, 0);
    push_sch_candidate(&mut list, sch_candidate(11, 5000));
    assert_eq!(list.len(), 18);
    assert_eq!(list[0].symbol_offset, 5000);
}

#[test]
fn the_first_passing_candidate_is_reported() {
    let list = vec![
        SchCandidate { score: 9, symbol_offset: 1, sample_phase: 0u8, soft: vec![hard_sample(false)] },
        SchCandidate { score: 7, symbol_offset: 3, sample_phase: 0, soft: sch_burst(&sch_word()) },
    ];
    let (index, decode) = decode_sch_candidates(&list).unwrap();
    assert_eq!(index, 1);
    assert!(decode.parity_ok);
    assert_eq!(decode.bsic, 42);
    assert!(decode_sch_candidates(&list[..1]).is_none());
}

fn sch_stream(count: usize, at: usize, score: u32) -> RecordedStream<u32> {
    let mut scores = vec![1; count];
    scores[at + 42] = score;
    let mut bursts = vec![Vec::new(); count];
    bursts[at] = sch_burst(&sch_word());
    RecordedStream { count, training_len: 64, scores, bursts }
}

#[test]
fn a_burst_is_found_in_a_stream() {
    let trials = vec![
        SchTrial { symbols: sch_stream(400, 30, 50), phase: 0u8 },
        SchTrial { symbols: sch_stream(400, 60, 90), phase: 1 },
    ];
    let (sync, sorted) = estimate_sch_sync_candidate(&trials, 40, 60);
    assert!(sync.detected);
    assert_eq!(sync.best_score, 90);
    assert_eq!(sync.correlation, Some(90));
    assert_eq!(sync.symbol_offset, Some(60));
    assert_eq!(sync.sample_phase, Some(1));
    assert_eq!(sync.decode.unwrap().bsic, 42);
    assert_eq!(sorted.iter().map(|c| c.score).collect::<Vec<_>>(), vec![90, 50]);
}

#[test]
fn a_weak_burst_is_not_decoded() {
    let trials = vec![SchTrial { symbols: sch_stream(400, 30, 50), phase: 0u8 }];
    let (sync, _) = estimate_sch_sync_candidate(&trials, 40, 60);
    assert!(!sync.detected);
    assert_eq!(sync.correlation, Some(50));
    assert_eq!(sync.symbol_offset, Some(30));
    assert!(sync.decode.is_none());
}

#[test]
fn nothing_is_found_in_a_short_stream() {
    let short = RecordedStream::<u32> {
        count: 149,
        training_len: 64,
        scores: vec![99; 149],
        bursts: Vec::new(),
    };
    let (sync, sorted) = estimate_sch_sync_candidate(&[SchTrial { symbols: short, phase: 0u8 }], 40, 60);
    assert_eq!(sync.correlation, None);
    assert_eq!(sync.symbol_offset, None);
    assert!(!sync.detected);
    assert!(sorted.is_empty());
}

#[test]
fn the_best_correlation_may_lie_before_the_first_burst() {
    let mut scores = vec![0; 200];
    scores[5] = 80;
    let stream = RecordedStream::<u32> { count: 200, training_len: 64, scores, bursts: Vec::new() };
    let (sync, sorted) = estimate_sch_sync_candidate(&[SchTrial { symbols: stream, phase: 3u8 }], 40, 60);
    assert_eq!(sync.symbol_offset, Some(-37));
    assert!(sync.detected);
    assert!(sync.decode.is_none());
    assert!(sorted.is_empty());
}

#[test]
fn a_passing_burst_scores_at_most_the_best() {
    let mut scores = vec![0; 400];
    scores[42] = 70;
    scores[250] = 90;
    let stream = RecordedStream::<u32> {
        count: 400,
        training_len: 64,
        scores,
        bursts: vec![sch_burst(&sch_word())],
    };
    let trials = [SchTrial { symbols: stream, phase: 1u8 }];
    let (sync, sorted) = estimate_sch_sync_candidate(&trials, 40, 60);
    assert_eq!((sync.best_score, sync.correlation), (90, Some(70)));
    assert_eq!(sync.symbol_offset, Some(0));
    assert!(sync.decode.unwrap().parity_ok);
    assert_eq!(sorted.len(), 2);
}

#[test]
fn searching_needs_a_carrier_and_samples() {
    assert!(sch_worth_searching(true, true, 256, true, true));
    assert!(!sch_worth_searching(true, true, 255, true, true));
    assert!(!sch_worth_searching(false, true, 256, true, true));
    assert!(!sch_worth_searching(true, false, 256, true, true));
    assert!(!sch_worth_searching(true, true, 256, false, true));
    assert!(!sch_worth_searching(true, true, 256, true, false));
}

#[test]
fn dumps_hold_a_line_for_each_reading() {
    let mut list = Vec::new();
    for i in 0..9 {
        list.push(SchCandidate {
            score: 9,
            symbol_offset: 100 * i,
            sample_phase: 0u8,
            soft: if i == 0 { sch_burst(&sch_word()) } else { Vec::new() },
        });
    }
    let dump = write_sch_debug_dump(&list);
    assert_eq!(dump.len(), 8);
    assert!(dump[0].coded_line.starts_with("c_soft_hard="));
    assert_eq!(dump[0].coded_line.len(), "c_soft_hard=".len() + 78 + 1);
    assert_eq!(dump[0].lines.len(), 16);
    assert_eq!(
        dump[0].lines[0].before_metric,
        "variant inv=false swap=false prev=false pinv=false ok=true syn=0x000 pop=0 metric="
    );
    assert_eq!(
        dump[0].lines[0].after_metric,
        " bsic=42 ncc=5 bcc=2 fn=1637029 fn_mod51=31 u=010101011001011010100010101001100010000\n"
    );
    assert_eq!(dump[0].lines[1].before_metric,
        "variant inv=false swap=false prev=false pinv=true ok=false syn=0x3ff pop=10 metric=");
    assert_eq!(dump[1].coded_line, "");
    assert!(dump[1].lines.is_empty());
}
