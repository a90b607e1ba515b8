use pixdr::viterbi::{
    gsm_conv_outputs, soft_viterbi_decode_gsm_k5_len, viterbi_decode_gsm_k5,
    viterbi_decode_gsm_k5_len, BitCost, PathMetric,
};

/// The cost of a path as a real number.
#[derive(Clone, Copy, Debug, PartialEq)]
struct Real(f32);

impl PathMetric for Real {
    fn zero_value() -> Self {
        Real(0.0)
    }

    fn limit_value() -> Self {
        Real(1.0e30)
    }

    fn sum(self, step: Self) -> Self {
        Real(self.0 + step.0)
    }

    fn precedes(self, other: Self) -> bool {
        self.0 < other.0
    }

    fn share(self, coded_bits: usize) -> Self {
        Real(self.0 / coded_bits as f32)
    }

    fn is_cost(self) -> bool {
        self.0 >= 0.0
    }

    fn zero() -> Self {
        Real(0.0)
    }

    fn limit() -> Self {
        Real(1.0e30)
    }

    fn plus(self, step: Self) -> Self {
        Real(self.0 + step.0)
    }

    fn is_below(self, other: Self) -> bool {
        self.0 < other.0
    }

    fn per_bit(self, coded_bits: usize) -> Self {
        Real(self.0 / coded_bits as f32)
    }
}

fn sample_cost(sample: f32) -> BitCost<Real> {
    let s = sample.clamp(-1.0, 1.0);
    BitCost { zero: Real(1.0 + s), one: Real(1.0 - s) }
}

fn encoded(word: &[bool]) -> Vec<bool> {
    let mut state = 0usize;
    let mut coded = Vec::new();
    for bit in word {
        let (a, b) = gsm_conv_outputs(state, *bit);
        coded.push(a);
        coded.push(b);
        state = ((state << 1) & 0x0e) | usize::from(*bit);
    }
    coded
}

fn message(len: usize) -> Vec<bool> {
    (0..len).map(|i| i + 4 < len && (i * i + i / 3) % 3 == 1).collect()
}

#[test]
fn empty_message_decodes() {
    assert_eq!(viterbi_decode_gsm_k5_len::<0>(&[]), Some(([], 0)));
}

#[test]
fn conv_outputs_follow_the_generators() {
    assert_eq!(gsm_conv_outputs(0, false), (false, false));
    assert_eq!(gsm_conv_outputs(0, true), (true, true));
    assert_eq!(gsm_conv_outputs(1, false), (false, true));
    assert_eq!(gsm_conv_outputs(2, true), (true, true));
    assert_eq!(gsm_conv_outputs(4, false), (true, true));
    assert_eq!(gsm_conv_outputs(8, true), (false, false));
    assert_eq!(gsm_conv_outputs(13, true), (true, false));
}

#[test]
fn clean_message_decodes() {
    let word = message(39);
    let coded = encoded(&word);
    let (bits, mismatches) = viterbi_decode_gsm_k5_len::<39>(&coded).unwrap();
    assert_eq!(bits.to_vec(), word);
    assert_eq!(mismatches, 0);
}

#[test]
fn any_three_errors_are_corrected() {
    let word = message(39);
    let coded = encoded(&word);
    for a in 0..coded.len() {
        let b = (a * 7 + 3) % coded.len();
        let c = (a * 31 + 11) % coded.len();
        let mut received = coded.clone();
        received[a] = !coded[a];
        received[b] = !coded[b];
        received[c] = !coded[c];
        let wrong = received.iter().zip(coded.iter()).filter(|(x, y)| x != y).count();
        let mut block = [false; 78];
        block.copy_from_slice(&received);
        let (bits, mismatches) = viterbi_decode_gsm_k5(&block).unwrap();
        assert_eq!(bits.to_vec(), word);
        assert_eq!(mismatches as usize, wrong);
    }
}

#[test]
fn one_bit_has_an_encoding_of_weight_seven() {
    let coded = encoded(&[true, false, false, false, false]);
    assert_eq!(coded.iter().filter(|b| **b).count(), 7);
    let zeros = [false; 10];
    assert_eq!(viterbi_decode_gsm_k5_len::<5>(&zeros), Some(([false; 5], 0)));
}

#[test]
fn too_few_coded_bits_do_not_decode() {
    assert_eq!(viterbi_decode_gsm_k5_len::<4>(&[false; 7]), None);
}

#[test]
fn more_coded_bits_than_needed_are_ignored() {
    let word = message(20);
    let mut coded = encoded(&word);
    coded.push(true);
    coded.push(true);
    let (bits, mismatches) = viterbi_decode_gsm_k5_len::<20>(&coded).unwrap();
    assert_eq!(bits.to_vec(), word);
    assert_eq!(mismatches, 0);
}

#[test]
fn soft_costs_are_averaged() {
    let word = message(39);
    let coded = encoded(&word);
    let costs: Vec<BitCost<Real>> =
        coded.iter().map(|b| sample_cost(if *b { 0.5 } else { -0.5 })).collect();
    let (bits, metric) = soft_viterbi_decode_gsm_k5_len::<Real, 39>(&costs).unwrap();
    assert_eq!(bits.to_vec(), word);
    assert_eq!(metric, Real(0.5));
}

#[test]
fn confident_bits_outvote_doubtful_ones() {
    let word = message(39);
    let coded = encoded(&word);
    let costs: Vec<BitCost<Real>> = coded
        .iter()
        .enumerate()
        .map(|(i, b)| {
            let sign = if *b { 1.0 } else { -1.0 };
            if i % 6 == 0 {
                sample_cost(-0.1 * sign)
            } else {
                sample_cost(sign)
            }
        })
        .collect();
    let (bits, _) = soft_viterbi_decode_gsm_k5_len::<Real, 39>(&costs).unwrap();
    assert_eq!(bits.to_vec(), word);
}
