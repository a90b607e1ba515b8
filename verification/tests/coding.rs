use pixdr::bits::{bool_bits_to_string, lsb8msb, pack_lsb8msb_bytes, read_bits};
use pixdr::interleave::{rotate_xcch_i_soft, xcch_deinterleave_soft};
use pixdr::parity::{block_parity_syndrome, sch_parity_syndrome};
use pixdr::ranking::{count_ones, place_candidate, sort_candidates, Placement, Scored};
use pixdr::soft::{arrange, hard_bits, soft_bits_to_string, SoftBit};
use pixdr::text::{hex_string, push_bool, push_decimal, push_hex_3, push_signed_decimal, trim};
use pixdr::training::{
    gmsk_training_sequence, hard_slice_burst_bits_with_training, normal_training_sequence,
    AxisSymbol, NORMAL_TRAINING_BITS,
};
use pixdr::viterbi::BitCost;

fn soft_of(bit: bool) -> SoftBit<u32> {
    SoftBit {
        reads_one: bit,
        negated_reads_one: !bit,
        cost: BitCost { zero: u32::from(bit), one: u32::from(!bit) },
    }
}

#[test]
fn octets_are_mirrored_in_place() {
    let mut bits = [true, false, false, false, false, false, true, true, true, false, false];
    lsb8msb(&mut bits);
    assert_eq!(
        bits,
        [true, true, false, false, false, false, false, true, false, false, true]
    );
    lsb8msb(&mut bits);
    assert_eq!(
        bits,
        [true, false, false, false, false, false, true, true, true, false, false]
    );
}

#[test]
fn fields_are_read_in_turn() {
    let bits = [true, false, true, true, false];
    let mut offset = 0;
    assert_eq!(read_bits(&bits, &mut offset, 3), 5);
    assert_eq!(offset, 3);
    assert_eq!(read_bits(&bits, &mut offset, 4), 8);
    assert_eq!(offset, 7);
}

#[test]
fn frame_octets_are_least_significant_bit_first() {
    let mut bits = [false; 184];
    bits[0] = true;
    bits[9] = true;
    bits[183] = true;
    let octets = pack_lsb8msb_bytes(&bits);
    assert_eq!(octets.len(), 23);
    assert_eq!(octets[0], 1);
    assert_eq!(octets[1], 2);
    assert_eq!(octets[22], 128);
    assert!(octets[2..22].iter().all(|b| *b == 0));
}

#[test]
fn bits_are_written_as_digits() {
    assert_eq!(bool_bits_to_string(&[true, false, true]), "101");
    assert_eq!(bool_bits_to_string(&[]), "");
    assert_eq!(soft_bits_to_string(&[soft_of(false), soft_of(true)]), "01");
}

#[test]
fn a_sample_of_zero_and_its_negation_read_as_one() {
    let zero = SoftBit { reads_one: true, negated_reads_one: true, cost: BitCost { zero: 1u32, one: 1 } };
    assert_eq!(hard_bits(&[zero]), vec![true]);
    assert_eq!(hard_bits(&[zero.negated()]), vec![true]);
}

#[test]
fn arrangement_inverts_and_swaps() {
    let bits = [soft_of(true), soft_of(false), soft_of(true)];
    assert_eq!(hard_bits(&arrange(&bits, false, false)), vec![true, false, true]);
    assert_eq!(hard_bits(&arrange(&bits, true, false)), vec![false, true, false]);
    assert_eq!(hard_bits(&arrange(&bits, false, true)), vec![false, true, true]);
    let back = arrange(&arrange(&bits, true, true), true, true);
    assert_eq!(hard_bits(&back), vec![true, false, true]);
}

#[test]
fn syndromes_are_remainders() {
    let word = [true, false, true, true, false, false, true];
    assert_eq!(block_parity_syndrome(&word, 0x575, 10), 0x59);
    let mut monomial = [false; 11];
    monomial[0] = true;
    assert_eq!(block_parity_syndrome(&monomial, 0x575, 10), 0x175);
    let mut high = [false; 41];
    high[0] = true;
    assert_eq!(block_parity_syndrome(&high, 0x100_0482_0009, 40), 0x482_0009);
    let pattern: Vec<bool> = (0..224).map(|i| [true, false, false, true, true][i % 5]).collect();
    assert_eq!(block_parity_syndrome(&pattern, 0x100_0482_0009, 40), 0x9c_1c67_3838);
}

#[test]
fn sch_syndrome_is_that_of_data_and_parity() {
    assert_eq!(sch_parity_syndrome(&[true; 25], &[true; 10]), 0);
    assert_eq!(sch_parity_syndrome(&[false; 25], &[false; 10]), 0);
    let mut parity = [false; 10];
    parity[9] = true;
    assert_eq!(sch_parity_syndrome(&[false; 25], &parity), 1);
    let data: Vec<bool> = "0101010110010110101000101".chars().map(|c| c == '1').collect();
    let mut block = [false; 25];
    block.copy_from_slice(&data);
    let mut parity = [false; 10];
    for i in 0..10 {
        parity[i] = (0x131 >> (9 - i)) & 1 == 1;
    }
    assert_eq!(sch_parity_syndrome(&block, &parity), 0);
}

#[test]
fn error_bursts_change_the_syndrome() {
    for at in 0..26 {
        for pattern in 1u32..64 {
            let mut word = [true; 35];
            for k in 0..6 {
                if at + k < 35 && (pattern >> k) & 1 == 1 {
                    word[at + k] = !word[at + k];
                }
            }
            assert_ne!(block_parity_syndrome(&word, 0x575, 10), 0);
        }
    }
}

#[test]
fn deinterleaving_follows_the_block_map() {
    let mut block = [0u32; 456];
    for (i, v) in block.iter_mut().enumerate() {
        *v = i as u32;
    }
    let coded = xcch_deinterleave_soft(&block);
    assert_eq!(coded[0], 0);
    assert_eq!(coded[1], 114 + 98);
    assert_eq!(coded[4], 2 * ((49 * 4) % 57) + 1);
    let mut seen = coded.to_vec();
    seen.sort();
    assert_eq!(seen, block.to_vec());
}

#[test]
fn rotation_moves_whole_bursts() {
    let mut block = [0u32; 456];
    for (i, v) in block.iter_mut().enumerate() {
        *v = i as u32;
    }
    assert_eq!(rotate_xcch_i_soft(&block, 0), block);
    let one = rotate_xcch_i_soft(&block, 1);
    assert_eq!(one[0], 114);
    assert_eq!(one[342], 0);
    assert_eq!(rotate_xcch_i_soft(&one, 3), block);
    assert_eq!(rotate_xcch_i_soft(&block, 4), block);
}

#[test]
fn ones_are_counted() {
    assert_eq!(count_ones(0), 0);
    assert_eq!(count_ones(0x3ff), 10);
    assert_eq!(count_ones(u64::MAX), 64);
}

#[test]
fn candidates_compete_for_places() {
    assert_eq!(place_candidate(&[], None, 5, 2), Placement::Append);
    assert_eq!(place_candidate(&[3, 9], Some(0), 5, 2), Placement::Replace(0));
    assert_eq!(place_candidate(&[3, 9], Some(1), 9, 2), Placement::Drop);
    assert_eq!(place_candidate(&[4, 3, 3], None, 5, 3), Placement::Replace(1));
    assert_eq!(place_candidate(&[4, 3, 3], None, 3, 3), Placement::Drop);
}

struct Named(u32, char);

impl Scored for Named {
    fn score_value(self) -> u32 {
        self.0
    }

    fn score(&self) -> u32 {
        self.0
    }
}

#[test]
fn sorting_is_stable_and_descending() {
    let mut list = vec![Named(2, 'a'), Named(5, 'b'), Named(2, 'c'), Named(9, 'd'), Named(5, 'e')];
    sort_candidates(&mut list);
    let names: String = list.iter().map(|n| n.1).collect();
    assert_eq!(names, "dbeac");
}

#[test]
fn numbers_become_text() {
    let mut text = String::new();
    push_decimal(&mut text, 0);
    push_decimal(&mut text, 1234567890123);
    push_signed_decimal(&mut text, -45);
    push_signed_decimal(&mut text, 7);
    push_bool(&mut text, true);
    push_bool(&mut text, false);
    push_hex_3(&mut text, 0x2a);
    push_hex_3(&mut text, 0xbeef);
    assert_eq!(text, "01234567890123-457truefalse02abeef");
    let mut lowest = String::new();
    push_signed_decimal(&mut lowest, i64::MIN);
    assert_eq!(lowest, "-9223372036854775808");
    assert_eq!(hex_string(&[0x00, 0xff, 0x1b]), "00 ff 1b");
    assert_eq!(hex_string(&[]), "");
}

#[test]
fn white_space_is_trimmed_at_both_ends() {
    let text: Vec<char> = "\t \u{3000}a b\r\n\u{a0}".chars().collect();
    assert_eq!(trim(&text), vec!['a', ' ', 'b']);
    let blank: Vec<char> = " \r".chars().collect();
    assert_eq!(trim(&blank), Vec::<char>::new());
}

#[test]
fn training_symbols_turn_by_quarters() {
    let symbols = normal_training_sequence(0);
    assert_eq!(symbols.len(), 26);
    assert_eq!(symbols[0], AxisSymbol { re: 1, im: 0 });
    assert_eq!(symbols[1], AxisSymbol { re: 0, im: 1 });
    assert_eq!(symbols[2], AxisSymbol { re: 1, im: 0 });
    assert_eq!(symbols[3], AxisSymbol { re: 0, im: -1 });
    let sch = gmsk_training_sequence();
    assert_eq!(sch.len(), 64);
    assert_eq!(sch[0], AxisSymbol { re: -1, im: 0 });
    assert_eq!(sch[1], AxisSymbol { re: 0, im: 1 });
    assert_eq!(sch[2], AxisSymbol { re: 1, im: 0 });
    for tsc in 0..8 {
        assert_eq!(normal_training_sequence(tsc).len(), 26);
    }
}

#[test]
fn training_settles_the_polarity() {
    let training = &NORMAL_TRAINING_BITS[3];
    let straight: Vec<bool> = (1..148)
        .map(|i| i >= 61 && i < 87 && training[i - 61] != 0)
        .collect();
    let bits = hard_slice_burst_bits_with_training(&straight, 61, training);
    assert_eq!(bits.len(), 148);
    assert!(!bits[0]);
    assert_eq!(bits[61..87].to_vec(), training.iter().map(|b| *b != 0).collect::<Vec<bool>>());
    let turned: Vec<bool> = straight.iter().map(|b| !b).collect();
    let bits = hard_slice_burst_bits_with_training(&turned, 61, training);
    assert!(bits[0]);
    assert_eq!(bits[61..87].to_vec(), training.iter().map(|b| *b != 0).collect::<Vec<bool>>());
    assert_eq!(hard_slice_burst_bits_with_training(&[], 61, training), Vec::<bool>::new());
    assert_eq!(hard_slice_burst_bits_with_training(&[true], 61, training), vec![false, true]);
}
