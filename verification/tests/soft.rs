use pixdr::bcch::decode_bcch_block;
use pixdr::parity::block_parity_syndrome;
use pixdr::sch::decode_sch_candidate;
use pixdr::soft::SoftBit;
use pixdr::viterbi::{
    gsm_conv_outputs, soft_viterbi_decode_gsm_k5_len, viterbi_decode_gsm_k5_len, BitCost,
    PathMetric,
};

/// The cost of a path as a real number.
#[derive(Clone, Copy, Debug, PartialEq)]
struct Real(f32);

impl PathMetric for Real {
    fn zero_value() -> Self {
        Real(0.0)
    }

    fn limit_value() -> Self {
        Real(1.0e30)
    }

    fn sum(self, step: Self) -> Self {
        Real(self.0 + step.0)
    }

    fn precedes(self, other: Self) -> bool {
        self.0 < other.0
    }

    fn share(self, coded_bits: usize) -> Self {
        Real(self.0 / coded_bits as f32)
    }

    fn is_cost(self) -> bool {
        self.0 >= 0.0
    }

    fn zero() -> Self {
        Real(0.0)
    }

    fn limit() -> Self {
        Real(1.0e30)
    }

    fn plus(self, step: Self) -> Self {
        Real(self.0 + step.0)
    }

    fn is_below(self, other: Self) -> bool {
        self.0 < other.0
    }

    fn per_bit(self, coded_bits: usize) -> Self {
        Real(self.0 / coded_bits as f32)
    }
}

fn sample_cost(sample: f32) -> BitCost<Real> {
    let s = sample.clamp(-1.0, 1.0);
    BitCost { zero: Real(1.0 + s), one: Real(1.0 - s) }
}

fn encoded(word: &[bool]) -> Vec<bool> {
    let mut state = 0usize;
    let mut coded = Vec::new();
    for bit in word {
        let (a, b) = gsm_conv_outputs(state, *bit);
        coded.push(a);
        coded.push(b);
        state = ((state << 1) & 0x0e) | usize::from(*bit);
    }
    coded
}

fn soft_sample(sample: f32) -> SoftBit<Real> {
    SoftBit {
        reads_one: sample >= 0.0,
        negated_reads_one: -sample >= 0.0,
        cost: sample_cost(sample),
    }
}

fn sign(bit: bool) -> f32 {
    if bit {
        1.0
    } else {
        -1.0
    }
}

fn noise(len: usize, seed: u32) -> Vec<bool> {
    let mut x = seed;
    (0..len)
        .map(|_| {
            x = x.wrapping_mul(1_664_525).wrapping_add(1_013_904_223);
            x >> 31 == 1
        })
        .collect()
}

#[test]
fn soft_and_hard_decisions_agree_on_signs() {
    for seed in 0..50 {
        let received = noise(78, seed);
        let costs: Vec<BitCost<Real>> = received.iter().map(|b| sample_cost(sign(*b))).collect();
        let (u, m) = soft_viterbi_decode_gsm_k5_len::<Real, 39>(&costs).unwrap();
        let (v, mismatches) = viterbi_decode_gsm_k5_len::<39>(&received).unwrap();
        assert_eq!(u, v);
        assert_eq!(m, Real(2.0 * mismatches as f32 / 78.0));
        assert_eq!(u[35..], [false; 4]);
    }
}

#[test]
fn the_soft_metric_is_at_most_one_step() {
    let costs: Vec<BitCost<Real>> =
        (0..20).map(|_| BitCost { zero: Real(2.0), one: Real(2.0) }).collect();
    let (bits, metric) = soft_viterbi_decode_gsm_k5_len::<Real, 10>(&costs).unwrap();
    assert_eq!(bits, [false; 10]);
    assert_eq!(metric, Real(2.0));
}

#[test]
fn an_unreadable_sample_fails() {
    let mut costs: Vec<BitCost<Real>> = (0..20).map(|_| sample_cost(-1.0)).collect();
    assert!(soft_viterbi_decode_gsm_k5_len::<Real, 10>(&costs).is_some());
    costs[7] = sample_cost(f32::NAN);
    assert_eq!(soft_viterbi_decode_gsm_k5_len::<Real, 10>(&costs), None);
}

/// The 39 message bits for identity 42 and counters 1234, 17 and 3.
fn sync_word() -> Vec<bool> {
    let mut word: Vec<bool> = "0101010110010110101000101".chars().map(|c| c == '1').collect();
    word.extend((0..10).map(|i| (0x131 >> (9 - i)) & 1 == 1));
    word.extend([false; 4]);
    word
}

fn sync_burst(strength: f32) -> Vec<SoftBit<Real>> {
    let coded = encoded(&sync_word());
    let mut burst = vec![soft_sample(0.3); 148];
    for i in 0..39 {
        burst[3 + i] = soft_sample(strength * sign(coded[i]));
        burst[106 + i] = soft_sample(strength * sign(coded[39 + i]));
    }
    burst
}

#[test]
fn a_clean_soft_burst_decodes_at_no_cost() {
    for strength in [1.0, 3.5] {
        let d = decode_sch_candidate(&sync_burst(strength)).unwrap();
        assert!(d.parity_ok);
        assert_eq!(d.parity_syndrome, 0);
        assert_eq!(d.path_metric, Real(0.0));
        assert_eq!((d.bsic, d.ncc, d.bcc), (42, 5, 2));
        assert_eq!((d.t1, d.t2, d.t3p, d.frame_number), (1234, 17, 3, 1_637_029));
    }
}

#[test]
fn a_soft_burst_with_errors_passes() {
    let mut burst = sync_burst(1.0);
    for i in [4, 40, 120] {
        burst[i] = burst[i].negated();
    }
    let d = decode_sch_candidate(&burst).unwrap();
    assert!(d.parity_ok);
    assert_eq!(d.path_metric, Real(6.0 / 78.0));
    assert_eq!((d.bsic, d.t1, d.t2, d.t3p), (42, 1234, 17, 3));
}

fn soft_block(errors: &[usize]) -> ([SoftBit<Real>; 456], Vec<bool>) {
    let mut word = noise(184, 5);
    let mut padded = word.clone();
    padded.extend([false; 40]);
    let parity = block_parity_syndrome(&padded, 0x100_0482_0009, 40);
    word.extend((0..40).map(|i| (parity >> (39 - i)) & 1 == 0));
    word.extend([false; 4]);
    let coded = encoded(&word);
    let mut block = [soft_sample(0.0); 456];
    for k in 0..456 {
        let slot = 114 * (k % 4) + 2 * ((49 * k) % 57) + (k % 8) / 4;
        block[slot] = soft_sample(sign(coded[k] != errors.contains(&k)));
    }
    (block, word)
}

#[test]
fn a_soft_block_decodes_at_the_cost_of_its_errors() {
    for (errors, cost) in [(vec![], 0.0), (vec![0, 17, 301], 6.0 / 456.0)] {
        let (block, word) = soft_block(&errors);
        let d = decode_bcch_block(&block).unwrap();
        assert!(d.parity_ok);
        assert_eq!(d.syndrome, 0);
        assert_eq!(d.path_metric, Real(cost));
        let text: String = word.iter().map(|b| if *b { '1' } else { '0' }).collect();
        assert_eq!(d.u_bits, text);
    }
}
