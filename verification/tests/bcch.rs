use pixdr::bcch::{build_xcch_decode, decode_bcch_block, gsm_rr_message_name};
use pixdr::bcch_search::{
    apply_symbol_jitter, bcch_plan, copy_shifted_soft, decode_bcch_candidate,
    decode_bcch_from_sch_timing, estimate_bcch_normal_burst, extract_xcch_i_soft,
    push_bcch_candidate, refine_normal_burst_start, BcchBurstCandidate, BcchPlan,
};
use pixdr::parity::block_parity_syndrome;
use pixdr::soft::SoftBit;
use pixdr::symbols::RecordedStream;
use pixdr::viterbi::{gsm_conv_outputs, BitCost};

fn block_bit(bit: bool) -> SoftBit<u32> {
    SoftBit {
        reads_one: bit,
        negated_reads_one: !bit,
        cost: BitCost { zero: u32::from(bit), one: u32::from(!bit) },
    }
}

fn frame() -> Vec<u8> {
    let mut octets: Vec<u8> = (0..23u32).map(|i| ((i * 37 + 11) & 0xff) as u8).collect();
    octets[2] = 0x1b;
    octets
}

fn frame_bits() -> Vec<bool> {
    frame().iter().flat_map(|b| (0..8).map(move |i| (b >> i) & 1 == 1)).collect()
}

fn block_word(inverted: bool) -> Vec<bool> {
    let data = frame_bits();
    let mut padded = data.clone();
    padded.extend([false; 40]);
    let parity = block_parity_syndrome(&padded, 0x100_0482_0009, 40);
    let mut word = data;
    for i in 0..40 {
        word.push(((parity >> (39 - i)) & 1 == 1) != inverted);
    }
    word.extend([false; 4]);
    word
}

fn block_of(word: &[bool]) -> [SoftBit<u32>; 456] {
    let mut state = 0usize;
    let mut coded = Vec::new();
    for bit in word {
        let (a, b) = gsm_conv_outputs(state, *bit);
        coded.push(a);
        coded.push(b);
        state = ((state << 1) & 0x0e) | usize::from(*bit);
    }
    let mut block = [block_bit(false); 456];
    for k in 0..456 {
        let slot = (k % 4) * 114 + 2 * ((49 * k) % 57) + (k % 8) / 4;
        block[slot] = block_bit(coded[k]);
    }
    block
}

#[test]
fn messages_have_names() {
    let names = [
        (0x19, "System Information 1"),
        (0x1a, "System Information 2"),
        (0x1b, "System Information 3"),
        (0x1c, "System Information 4"),
        (0x1d, "System Information 5"),
        (0x1e, "System Information 6"),
        (0x1f, "System Information 7/8"),
        (0x2d, "System Information 13"),
        (0x21, "Paging Request 1"),
        (0x22, "Paging Request 2"),
        (0x24, "Paging Request 3"),
        (0x3f, "Immediate Assignment"),
        (0x00, "GSM RR/LAPDm"),
        (0xd9, "System Information 1"),
    ];
    for (value, name) in names {
        assert_eq!(gsm_rr_message_name(value), name);
    }
}

#[test]
fn sent_block_decodes_with_inverted_parity() {
    let decode = decode_bcch_block(&block_of(&block_word(true))).unwrap();
    assert!(decode.parity_ok);
    assert_eq!(decode.syndrome, 0);
    assert_eq!(decode.path_metric, 0);
    assert_eq!(decode.message_type, Some(0x1b));
    assert_eq!(decode.message_name, "System Information 3");
    assert_eq!(decode.l2_hex, "0b 30 1b 7a 9f c4 e9 0e");
    assert_eq!(decode.c_bits.len(), 456);
    assert_eq!(decode.u_bits.len(), 228);
}

#[test]
fn sent_block_decodes_with_straight_parity() {
    let decode = decode_bcch_block(&block_of(&block_word(false))).unwrap();
    assert!(decode.parity_ok);
    assert_eq!(decode.syndrome, 0xff_ffff_ffff);
    assert_eq!(decode.l2_hex, "0b 30 1b 7a 9f c4 e9 0e");
}

#[test]
fn block_with_three_errors_decodes() {
    let mut block = block_of(&block_word(true));
    for i in [0, 200, 455] {
        block[i] = block[i].negated();
    }
    let decode = decode_bcch_block(&block).unwrap();
    assert!(decode.parity_ok);
    assert_eq!(decode.l2_hex, "0b 30 1b 7a 9f c4 e9 0e");
}

#[test]
fn inverted_block_passes() {
    let mut block = block_of(&block_word(true));
    for bit in block.iter_mut() {
        *bit = bit.negated();
    }
    assert!(decode_bcch_block(&block).unwrap().parity_ok);
}

#[test]
fn words_are_judged_under_each_reading() {
    let mut word = [false; 228];
    word.copy_from_slice(&block_word(true));
    let none: [SoftBit<u32>; 0] = [];
    let right = build_xcch_decode(&none, &word, 3u32, true, false, 0);
    assert!(right.parity_ok);
    assert_eq!(right.path_metric, 3);
    let straight = build_xcch_decode(&none, &word, 3u32, false, false, 0);
    assert!(!straight.parity_ok);
    assert_eq!(straight.syndrome, 0xff_ffff_ffff);
    assert!(build_xcch_decode(&none, &word, 3u32, false, false, 0xff_ffff_ffff).parity_ok);
}

#[test]
fn jitter_stays_in_range() {
    assert_eq!(apply_symbol_jitter(10, -10), Some(0));
    assert_eq!(apply_symbol_jitter(10, -11), None);
    assert_eq!(apply_symbol_jitter(10, 5), Some(15));
    assert_eq!(apply_symbol_jitter(usize::MAX, 1), None);
}

#[test]
fn shifted_bits_are_copied_up_to_the_first_missing() {
    let src = [1, 2, 3, 4, 5];
    let mut dst = vec![0];
    assert_eq!(copy_shifted_soft(&src, 1, &mut dst, 3, 1), Some(()));
    assert_eq!(dst, vec![0, 3, 4, 5]);
    let mut dst = Vec::new();
    assert_eq!(copy_shifted_soft(&src, 3, &mut dst, 3, 0), None);
    assert_eq!(dst, vec![4, 5]);
    let mut dst = Vec::new();
    assert_eq!(copy_shifted_soft(&src, 0, &mut dst, 2, -1), None);
    assert_eq!(dst, Vec::<i32>::new());
}

/// A stream that holds the block with its first burst at `burst0`.
fn bcch_stream(count: usize, burst0: usize) -> RecordedStream<u32> {
    let block = block_of(&block_word(true));
    let mut scores = vec![1; count];
    let mut bursts = vec![Vec::new(); count];
    for b in 0..4 {
        let start = burst0 + 1250 * b;
        scores[start + 61] = 90;
        let mut burst = vec![block_bit(false); 148];
        for j in 0..57 {
            burst[3 + j] = block[114 * b + j];
            burst[88 + j] = block[114 * b + 57 + j];
        }
        bursts[start] = burst;
    }
    RecordedStream { count, training_len: 26, scores, bursts }
}

#[test]
fn burst_starts_are_refined() {
    let stream = bcch_stream(6000, 1000);
    assert_eq!(refine_normal_burst_start(&stream, 1000), Some(1000));
    assert_eq!(refine_normal_burst_start(&stream, 993), Some(1000));
    assert_eq!(refine_normal_burst_start(&stream, 1008), Some(1000));
    assert_eq!(refine_normal_burst_start(&stream, 1009), Some(1001));
    assert_eq!(refine_normal_burst_start(&stream, 7), None);
    assert_eq!(refine_normal_burst_start(&stream, 5990), None);
}

#[test]
fn blocks_are_read_from_their_bursts() {
    let stream = bcch_stream(6000, 1000);
    let block = extract_xcch_i_soft(&stream, 1002, 0).unwrap();
    let decode = decode_bcch_block(&block).unwrap();
    assert!(decode.parity_ok);
    assert!(extract_xcch_i_soft(&stream, 2251, 0).is_none());
    assert!(extract_xcch_i_soft(&stream, 1000, 4).is_none());
    assert!(extract_xcch_i_soft(&stream, 1000, -4).is_none());
    assert!(extract_xcch_i_soft(&stream, 1000, 3).is_some());
}

#[test]
fn blocks_are_found_by_timing() {
    let stream = bcch_stream(9000, 1350);
    let (best, detected, decode) = decode_bcch_from_sch_timing(&stream, 100, 27, 34, true);
    assert_eq!(best, Some(90));
    assert!(detected);
    let decode = decode.unwrap();
    assert!(decode.parity_ok);
    assert_eq!(decode.message_name, "System Information 3");
    let (best, detected, decode) = decode_bcch_from_sch_timing(&stream, 100, 27, 34, false);
    assert_eq!(best, Some(90));
    assert!(detected);
    assert!(decode.is_none());
}

#[test]
fn timing_off_the_schedule_finds_nothing() {
    let stream = bcch_stream(9000, 1350);
    let (best, detected, decode) = decode_bcch_from_sch_timing(&stream, 130, 27, 34, true);
    assert_eq!(best, Some(1));
    assert!(!detected);
    assert!(decode.is_none());
    let short = RecordedStream::<u32> {
        count: 149,
        training_len: 26,
        scores: vec![90; 149],
        bursts: Vec::new(),
    };
    let (best, detected, decode) = decode_bcch_from_sch_timing(&short, 0, 27, 34, true);
    assert_eq!(best, None);
    assert!(!detected);
    assert!(decode.is_none());
}

#[test]
fn blocks_are_found_by_scanning() {
    let trials = vec![bcch_stream(6000, 1000)];
    let (best, detected, decode) = estimate_bcch_normal_burst(&trials, 29, 34, true);
    assert_eq!(best, Some(90));
    assert!(detected);
    assert!(decode.unwrap().parity_ok);
    let (best, detected, decode) = estimate_bcch_normal_burst(&trials, 29, 34, false);
    assert_eq!(best, Some(90));
    assert!(detected);
    assert!(decode.is_none());
    let short = vec![RecordedStream::<u32> {
        count: 5148,
        training_len: 26,
        scores: vec![90; 5148],
        bursts: Vec::new(),
    }];
    let (best, detected, _) = estimate_bcch_normal_burst(&short, 29, 34, true);
    assert_eq!(best, Some(0));
    assert!(!detected);
}

#[test]
fn nearby_blocks_compete_only_at_one_shift() {
    let mut list = Vec::new();
    let block = block_of(&block_word(true));
    let offer = |score, burst_start, bit_shift| BcchBurstCandidate {
        score,
        burst_start,
        bit_shift,
        i_soft: block,
    };
    push_bcch_candidate(&mut list, offer(5, 100, 0));
    push_bcch_candidate(&mut list, offer(4, 116, 0));
    push_bcch_candidate(&mut list, offer(4, 116, 1));
    push_bcch_candidate(&mut list, offer(4, 117, 0));
    let places: Vec<(usize, isize)> = list.iter().map(|c| (c.burst_start, c.bit_shift)).collect();
    assert_eq!(places, vec![(100, 0), (116, 1), (117, 0)]);
    for i in 0..60 {
        push_bcch_candidate(&mut list, offer(6, 1000 + 100 * i, 0));
    }
    assert_eq!(list.len(), 48);
    assert!(decode_bcch_candidate(&list[0]).unwrap().parity_ok);
}

#[test]
fn the_plan_depends_on_what_is_known() {
    assert_eq!(bcch_plan(true, true, 256, true, true, 7), BcchPlan::FollowTiming);
    assert_eq!(bcch_plan(true, false, 256, true, true, 7), BcchPlan::Scan);
    assert_eq!(bcch_plan(false, true, 256, true, true, 7), BcchPlan::Scan);
    assert_eq!(bcch_plan(true, true, 255, true, true, 7), BcchPlan::Nothing);
    assert_eq!(bcch_plan(true, true, 256, false, true, 7), BcchPlan::Nothing);
    assert_eq!(bcch_plan(true, true, 256, true, false, 7), BcchPlan::Nothing);
    assert_eq!(bcch_plan(true, true, 256, true, true, 8), BcchPlan::Nothing);
}
