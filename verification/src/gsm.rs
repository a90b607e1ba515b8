//! Analysis of a downlink carrier: frequency correction tone,
//! synchronisation and broadcast channel.
//!
//! Levels and frequencies are real numbers that this library does not compute
//! with. A level stands in the spectrum by an integer that orders the same
//! way; other real numbers are carried along.

use crate::bcch::GsmBcchDecode;
use crate::distance::weight_of;
use crate::sch::GsmSchDecode;
use crate::sch_search::SchSync;
use crate::spectrum::{
    bin_window, circular_distance, distance_of, window_of, windows_go_round_the_circle,
};
use crate::viterbi::PathMetric;
use vstd::prelude::*;

verus! {

/// How many values are below `v`.
pub open spec fn below(values: Seq<i32>, v: i32) -> nat
    decreases values.len(),
{
    if values.len() == 0 {
        0
    } else {
        below(values.drop_last(), v) + if values.last() < v {
            1nat
        } else {
            0nat
        }
    }
}

/// How many values are not above `v`.
pub open spec fn not_above(values: Seq<i32>, v: i32) -> nat
    decreases values.len(),
{
    if values.len() == 0 {
        0
    } else {
        not_above(values.drop_last(), v) + if values.last() <= v {
            1nat
        } else {
            0nat
        }
    }
}

/// Whether `v` stands at place `k` when the values are listed in order.
pub open spec fn is_ranked(values: Seq<i32>, k: int, v: i32) -> bool {
    below(values, v) <= k < not_above(values, v)
}

/// Only one value stands at a place.
pub proof fn ranked_value_is_unique(values: Seq<i32>, k: int, v: i32, w: i32)
    requires
        is_ranked(values, k, v),
        is_ranked(values, k, w),
    ensures
        v == w,
{
    if v < w {
        counts_are_ordered(values, v, w);
    } else if w < v {
        counts_are_ordered(values, w, v);
    }
}

proof fn counts_are_ordered(values: Seq<i32>, v: i32, w: i32)
    requires
        v < w,
    ensures
        not_above(values, v) <= below(values, w),
    decreases values.len(),
{
    if values.len() > 0 {
        counts_are_ordered(values.drop_last(), v, w);
    }
}

proof fn counts_after_insert(values: Seq<i32>, at: int, x: i32, v: i32)
    requires
        0 <= at <= values.len(),
    ensures
        below(values.insert(at, x), v) == below(values.push(x), v),
        not_above(values.insert(at, x), v) == not_above(values.push(x), v),
    decreases values.len(),
{
    let inserted = values.insert(at, x);
    assert(values.push(x).drop_last() =~= values);
    if at == values.len() {
        assert(inserted =~= values.push(x));
    } else {
        let front = values.drop_last();
        counts_after_insert(front, at, x, v);
        assert(inserted.drop_last() =~= front.insert(at, x));
        assert(front.push(x).drop_last() =~= front);
        assert(inserted.last() == values.last());
        assert(front.push(x).last() == x);
        assert(below(values, v) == below(front, v) + if values.last() < v {
            1nat
        } else {
            0nat
        });
        assert(not_above(values, v) == not_above(front, v) + if values.last() <= v {
            1nat
        } else {
            0nat
        });
    }
}

proof fn sorted_counts(sorted: Seq<i32>, k: int)
    requires
        forall|i: int, j: int| 0 <= i <= j < sorted.len() ==> sorted[i] <= sorted[j],
        0 <= k < sorted.len(),
    ensures
        is_ranked(sorted, k, sorted[k]),
{
    below_sorted(sorted, k, sorted[k]);
    not_above_sorted(sorted, k, sorted[k]);
}

proof fn below_sorted(sorted: Seq<i32>, k: int, v: i32)
    requires
        0 <= k <= sorted.len(),
        forall|i: int| k <= i < sorted.len() ==> sorted[i] >= v,
    ensures
        below(sorted, v) <= k,
    decreases sorted.len(),
{
    if sorted.len() > 0 {
        let front = sorted.drop_last();
        if k == sorted.len() {
            below_sorted(front, k - 1, v);
        } else {
            below_sorted(front, k, v);
        }
    }
}

proof fn not_above_sorted(sorted: Seq<i32>, k: int, v: i32)
    requires
        0 <= k < sorted.len(),
        forall|i: int| 0 <= i <= k ==> sorted[i] <= v,
    ensures
        not_above(sorted, v) > k,
    decreases sorted.len(),
{
    let front = sorted.drop_last();
    if k == sorted.len() - 1 {
        if k > 0 {
            not_above_sorted(front, k - 1, v);
        }
    } else {
        not_above_sorted(front, k, v);
    }
}

/// Finds the value that stands at place `k` when the values are listed in
/// order.
pub fn ranked_value(values: &[i32], k: usize) -> (v: i32)
    requires
        k < values@.len(),
    ensures
        is_ranked(values@, k as int, v),
{
    let mut sorted: Vec<i32> = Vec::new();
    for n in 0..values.len()
        invariant
            sorted@.len() == n,
            forall|i: int, j: int| 0 <= i <= j < n ==> sorted@[i] <= sorted@[j],
            forall|v: i32|
                #![trigger below(sorted@, v)]
                #![trigger not_above(sorted@, v)]
                below(sorted@, v) == below(values@.take(n as int), v) && not_above(sorted@, v)
                    == not_above(values@.take(n as int), v),
    {
        let x: i32 = values[n];
        let mut at: usize = n;
        while at > 0 && sorted[at - 1] > x
            invariant
                at <= n,
                n == sorted@.len(),
                forall|i: int| at <= i < n ==> sorted@[i] > x,
            decreases at,
        {
            at = at - 1;
        }
        let ghost before = sorted@;
        sorted.insert(at, x);
        proof {
            let taken = values@.take(n + 1);
            assert(taken.drop_last() =~= values@.take(n as int));
            assert forall|v: i32|
                #![trigger below(sorted@, v)]
                #![trigger not_above(sorted@, v)]
                below(sorted@, v) == below(taken, v) && not_above(sorted@, v) == not_above(
                    taken,
                    v,
                ) by {
                counts_after_insert(before, at as int, x, v);
                assert(before.push(x).drop_last() =~= before);
                assert(below(before, v) == below(values@.take(n as int), v));
            }
        }
    }
    assert(values@.take(values@.len() as int) =~= values@);
    proof {
        sorted_counts(sorted@, k as int);
        let v = sorted@[k as int];
        assert(below(sorted@, v) == below(values@, v));
    }
    sorted[k]
}

/// The highest of the levels in the first `k` bins of a window.
pub open spec fn window_peak(levels: Seq<i32>, window: Seq<int>, k: nat) -> i32
    decreases k,
{
    if k <= 1 {
        levels[window[0]]
    } else {
        let before = window_peak(levels, window, (k - 1) as nat);
        let level = levels[window[k - 1]];
        if level > before {
            level
        } else {
            before
        }
    }
}

/// The levels in the first `k` bins of a window that are more than `exclude`
/// away from `center`.
pub open spec fn noise_levels(
    levels: Seq<i32>,
    window: Seq<int>,
    center: int,
    exclude: int,
    k: nat,
) -> Seq<i32>
    decreases k,
{
    if k == 0 {
        seq![]
    } else {
        let before = noise_levels(levels, window, center, exclude, (k - 1) as nat);
        let bin = window[k - 1];
        if distance_of(bin, center, levels.len() as int) > exclude {
            before.push(levels[bin])
        } else {
            before
        }
    }
}

/// How far from the tone a measurement looks, in bins.
#[derive(Clone, Copy, PartialEq, Eq, Structural, Debug)]
pub struct ToneRadii {
    /// For the tone itself.
    pub peak: isize,
    /// For the noise around it.
    pub noise: isize,
    /// What is left out of the noise.
    pub exclude: isize,
}

/// The radii for widths given in bins: the tone has at least one bin on either
/// side, what is left out of the noise at least one more, and the noise at
/// least two more.
pub fn tone_radii(peak: isize, noise: isize, exclude: isize) -> (radii: ToneRadii)
    requires
        peak <= isize::MAX - 2,
    ensures
        radii.peak == if peak > 1 {
            peak as int
        } else {
            1
        },
        radii.noise == if noise > radii.peak + 2 {
            noise as int
        } else {
            radii.peak + 2
        },
        radii.exclude == if exclude > radii.peak + 1 {
            exclude as int
        } else {
            radii.peak + 1
        },
{
    let p: isize = if peak > 1 {
        peak
    } else {
        1
    };
    ToneRadii {
        peak: p,
        noise: if noise > p + 2 {
            noise
        } else {
            p + 2
        },
        exclude: if exclude > p + 1 {
            exclude
        } else {
            p + 1
        },
    }
}

/// Whether a measurement around `bin` is possible without leaving the range of
/// machine integers.
pub open spec fn radii_fit(radii: ToneRadii, bins: int) -> bool {
    &&& 0 <= radii.peak
    &&& 0 <= radii.noise
    &&& bins - 1 + radii.peak <= isize::MAX
    &&& bins - 1 + radii.noise <= isize::MAX
}

/// Level of the tone around `bin` and of the noise around the tone: the highest
/// level near the tone, and the middle one of the levels in the noise. There
/// is no telling from fewer than eight of these.
pub open spec fn is_tone_measure(
    levels: Seq<i32>,
    bin: int,
    radii: ToneRadii,
    measure: Option<(i32, i32)>,
) -> bool {
    let n = levels.len() as int;
    let near = window_of(bin, radii.peak as int, n);
    let around = window_of(bin, radii.noise as int, n);
    let noise = noise_levels(levels, around, bin, radii.exclude as int, around.len());
    match measure {
        Some((peak, floor)) => {
            &&& noise.len() >= 8
            &&& peak == window_peak(levels, near, near.len())
            &&& is_ranked(noise, noise.len() as int / 2, floor)
        },
        None => noise.len() < 8,
    }
}

/// Measures the tone around `bin`.
pub fn measure_tone(levels: &[i32], bin: usize, radii: ToneRadii) -> (measure: Option<(i32, i32)>)
    requires
        bin < levels@.len(),
        levels@.len() <= isize::MAX,
        radii_fit(radii, levels@.len() as int),
    ensures
        is_tone_measure(levels@, bin as int, radii, measure),
{
    let n: usize = levels.len();
    let near = bin_window(bin, radii.peak, n);
    let around = bin_window(bin, radii.noise, n);
    let ghost near_view = window_of(bin as int, radii.peak as int, n as int);
    let ghost around_view = window_of(bin as int, radii.noise as int, n as int);
    assert(near@[0] == near_view[0]);
    let mut peak: i32 = levels[near[0]];
    for k in 1..near.len()
        invariant
            n == levels@.len(),
            near@.len() == near_view.len(),
            near@.len() > 0,
            forall|i: int|
                0 <= i < near@.len() ==> #[trigger] near@[i] == near_view[i] && near@[i] < n,
            peak == window_peak(levels@, near_view, k as nat),
    {
        let level: i32 = levels[near[k]];
        if level > peak {
            peak = level;
        }
    }
    let mut noise: Vec<i32> = Vec::new();
    for k in 0..around.len()
        invariant
            n == levels@.len(),
            bin < n,
            around@.len() == around_view.len(),
            forall|i: int|
                0 <= i < around@.len() ==> #[trigger] around@[i] == around_view[i]
                    && around@[i] < n,
            noise@ == noise_levels(
                levels@,
                around_view,
                bin as int,
                radii.exclude as int,
                k as nat,
            ),
    {
        let at: usize = around[k];
        let distance: usize = circular_distance(at, bin, n);
        if radii.exclude < 0 || distance > radii.exclude as usize {
            noise.push(levels[at]);
        }
    }
    if noise.len() < 8 {
        return None;
    }
    let floor: i32 = ranked_value(noise.as_slice(), noise.len() / 2);
    Some((peak, floor))
}

/// What is known of a downlink carrier.
pub struct Gsm900Analysis<M, P, F, D> {
    pub in_pgsm_downlink: bool,
    pub arfcn: Option<i32>,
    pub carrier_hz: F,
    pub carrier_offset_hz: F,
    pub carrier_visible: bool,
    pub sample_rate_ok: bool,
    pub fcch_freq_hz: F,
    pub fcch_visible: bool,
    pub fcch_peak_db: Option<i32>,
    pub noise_floor_db: Option<i32>,
    pub fcch_snr_db: Option<D>,
    pub fcch_detected: bool,
    pub sch_correlation: Option<u32>,
    pub sch_symbol_offset: Option<isize>,
    pub sch_sample_phase: Option<P>,
    pub sch_detected: bool,
    pub sch_decode: Option<GsmSchDecode<M>>,
    pub last_verified_sch: Option<GsmSchDecode<M>>,
    pub verified_sch_count: u32,
    pub bcch_correlation: Option<u32>,
    pub bcch_detected: bool,
    pub bcch_decode: Option<GsmBcchDecode<M>>,
}

/// A carrier as the receiver is tuned to it.
pub struct Carrier<F> {
    /// Number of the nearest channel of the band, in it or not.
    pub arfcn: i32,
    pub carrier_hz: F,
    pub carrier_offset_hz: F,
    pub fcch_freq_hz: F,
    /// Whether the channel lies within the bandwidth.
    pub within_bandwidth: bool,
    /// Whether the sample rate is at least the symbol rate.
    pub sample_rate_ok: bool,
    /// Whether the sample rate is above zero.
    pub rate_positive: bool,
    /// Whether the tone lies within the sampled band.
    pub fcch_visible: bool,
}

/// Whether a channel number belongs to the band.
pub open spec fn in_band(arfcn: i32) -> bool {
    1 <= arfcn <= 124
}

/// Bins below which a spectrum is too coarse to look for the tone.
pub const MIN_TONE_BINS: usize = 32;

/// What the analysis starts from.
pub open spec fn carrier_analysis<M, P, F, D>(carrier: Carrier<F>) -> Gsm900Analysis<M, P, F, D> {
    Gsm900Analysis {
        in_pgsm_downlink: in_band(carrier.arfcn),
        arfcn: if in_band(carrier.arfcn) {
            Some(carrier.arfcn)
        } else {
            None
        },
        carrier_hz: carrier.carrier_hz,
        carrier_offset_hz: carrier.carrier_offset_hz,
        carrier_visible: in_band(carrier.arfcn) && carrier.within_bandwidth,
        sample_rate_ok: carrier.sample_rate_ok,
        fcch_freq_hz: carrier.fcch_freq_hz,
        fcch_visible: carrier.fcch_visible,
        fcch_peak_db: None,
        noise_floor_db: None,
        fcch_snr_db: None,
        fcch_detected: false,
        sch_correlation: None,
        sch_symbol_offset: None,
        sch_sample_phase: None,
        sch_detected: false,
        sch_decode: None,
        last_verified_sch: None,
        verified_sch_count: 0,
        bcch_correlation: None,
        bcch_detected: false,
        bcch_decode: None,
    }
}

/// Whether the tone is looked for.
pub open spec fn tone_is_sought<F>(carrier: Carrier<F>, bins: int, bin: Option<usize>) -> bool {
    &&& in_band(carrier.arfcn)
    &&& carrier.within_bandwidth
    &&& carrier.sample_rate_ok
    &&& carrier.fcch_visible
    &&& bins >= 32
    &&& carrier.rate_positive
    &&& bin is Some
}

/// Begins the analysis of a carrier, and measures its frequency correction
/// tone, which is expected in bin `fcch_bin` of the spectrum, where it is in
/// view.
pub fn analyze_pgsm900_downlink<M: PathMetric, P, F, D>(
    carrier: Carrier<F>,
    spectrum: &[i32],
    fcch_bin: Option<usize>,
    radii: ToneRadii,
) -> (out: Gsm900Analysis<M, P, F, D>)
    requires
        fcch_bin matches Some(bin) ==> bin < spectrum@.len() || spectrum@.len() < 32,
        spectrum@.len() <= isize::MAX,
        radii_fit(radii, spectrum@.len() as int),
    ensures
        ({
            let measured = out.fcch_peak_db is Some;
            &&& out == (Gsm900Analysis {
                fcch_peak_db: out.fcch_peak_db,
                noise_floor_db: out.noise_floor_db,
                ..carrier_analysis::<M, P, F, D>(carrier)
            })
            &&& out.noise_floor_db is Some == measured
            &&& if tone_is_sought(carrier, spectrum@.len() as int, fcch_bin) {
                is_tone_measure(
                    spectrum@,
                    fcch_bin->0 as int,
                    radii,
                    if measured {
                        Some((out.fcch_peak_db->0, out.noise_floor_db->0))
                    } else {
                        None
                    },
                )
            } else {
                !measured
            }
        }),
{
    let in_pgsm_downlink = 1 <= carrier.arfcn && carrier.arfcn <= 124;
    let arfcn: Option<i32> = if in_pgsm_downlink {
        Some(carrier.arfcn)
    } else {
        None
    };
    let carrier_visible = in_pgsm_downlink && carrier.within_bandwidth;
    let sought = carrier_visible && carrier.sample_rate_ok && carrier.fcch_visible && spectrum.len()
        >= MIN_TONE_BINS && carrier.rate_positive;
    let mut out = Gsm900Analysis::new(
        carrier.carrier_hz,
        carrier.carrier_offset_hz,
        carrier.fcch_freq_hz,
    );
    out.in_pgsm_downlink = in_pgsm_downlink;
    out.arfcn = arfcn;
    out.carrier_visible = carrier_visible;
    out.sample_rate_ok = carrier.sample_rate_ok;
    out.fcch_visible = carrier.fcch_visible;
    if sought {
        if let Some(bin) = fcch_bin {
            if let Some((peak, floor)) = measure_tone(spectrum, bin, radii) {
                out.fcch_peak_db = Some(peak);
                out.noise_floor_db = Some(floor);
            }
        }
    }
    out
}

impl<M: PathMetric, P, F, D> Gsm900Analysis<M, P, F, D> {
    /// Nothing is known of a carrier but where it is.
    pub fn new(carrier_hz: F, carrier_offset_hz: F, fcch_freq_hz: F) -> (analysis: Self)
        ensures
            analysis == (Gsm900Analysis::<M, P, F, D> {
                in_pgsm_downlink: false,
                arfcn: None,
                carrier_hz,
                carrier_offset_hz,
                carrier_visible: false,
                sample_rate_ok: false,
                fcch_freq_hz,
                fcch_visible: false,
                fcch_peak_db: None,
                noise_floor_db: None,
                fcch_snr_db: None,
                fcch_detected: false,
                sch_correlation: None,
                sch_symbol_offset: None,
                sch_sample_phase: None,
                sch_detected: false,
                sch_decode: None,
                last_verified_sch: None,
                verified_sch_count: 0,
                bcch_correlation: None,
                bcch_detected: false,
                bcch_decode: None,
            }),
    {
        Gsm900Analysis {
            in_pgsm_downlink: false,
            arfcn: None,
            carrier_hz,
            carrier_offset_hz,
            carrier_visible: false,
            sample_rate_ok: false,
            fcch_freq_hz,
            fcch_visible: false,
            fcch_peak_db: None,
            noise_floor_db: None,
            fcch_snr_db: None,
            fcch_detected: false,
            sch_correlation: None,
            sch_symbol_offset: None,
            sch_sample_phase: None,
            sch_detected: false,
            sch_decode: None,
            last_verified_sch: None,
            verified_sch_count: 0,
            bcch_correlation: None,
            bcch_detected: false,
            bcch_decode: None,
        }
    }

    /// Whether synchronisation bursts are looked for: only once the tone was
    /// measured.
    pub fn tone_measured(&self) -> (b: bool)
        ensures
            b == (self.fcch_peak_db is Some && self.noise_floor_db is Some),
    {
        self.fcch_peak_db.is_some() && self.noise_floor_db.is_some()
    }

    /// Records how far the tone stands out of the noise, and whether that is
    /// enough.
    pub fn record_tone(&mut self, snr_db: D, detected: bool)
        ensures
            *final(self) == (Gsm900Analysis {
                fcch_snr_db: Some(snr_db),
                fcch_detected: detected,
                ..*old(self)
            }),
    {
        self.fcch_snr_db = Some(snr_db);
        self.fcch_detected = detected;
    }

    /// Records what a search for synchronisation bursts found.
    pub fn record_sch(&mut self, sync: SchSync<M, P>)
        ensures
            *final(self) == (Gsm900Analysis {
                sch_correlation: sync.correlation,
                sch_symbol_offset: sync.symbol_offset,
                sch_sample_phase: sync.sample_phase,
                sch_detected: sync.detected,
                sch_decode: sync.decode,
                ..*old(self)
            }),
    {
        self.sch_correlation = sync.correlation;
        self.sch_symbol_offset = sync.symbol_offset;
        self.sch_sample_phase = sync.sample_phase;
        self.sch_detected = sync.detected;
        self.sch_decode = sync.decode;
    }
}

/// The bin that a rounded position falls into: the nearest there is.
pub fn nearest_bin(position: isize, n: usize) -> (bin: usize)
    requires
        n <= isize::MAX,
    ensures
        bin == if position < 0 || n == 0 {
            0
        } else if position >= n {
            n - 1
        } else {
            position as int
        },
{
    if position < 0 || n == 0 {
        0
    } else if position as usize >= n {
        n - 1
    } else {
        position as usize
    }
}

/// The values below another are those that pass the comparison, one by one; so
/// are those not above it.
pub proof fn ranks_count_values(values: Seq<i32>, v: i32)
    ensures
        below(values, v) == weight_of(Seq::new(values.len(), |i: int| values[i] < v)),
        not_above(values, v) == weight_of(Seq::new(values.len(), |i: int| values[i] <= v)),
    decreases values.len(),
{
    let less = Seq::new(values.len(), |i: int| values[i] < v);
    let most = Seq::new(values.len(), |i: int| values[i] <= v);
    if values.len() > 0 {
        let front = values.drop_last();
        ranks_count_values(front, v);
        assert(less.drop_last() =~= Seq::new(front.len(), |i: int| front[i] < v));
        assert(most.drop_last() =~= Seq::new(front.len(), |i: int| front[i] <= v));
    }
}

/// Of values listed in order, the one at place `k` is the `k`-th of the list.
pub proof fn ranked_value_of_a_sorted_list(values: Seq<i32>, k: int, v: i32)
    requires
        forall|i: int, j: int| 0 <= i <= j < values.len() ==> values[i] <= values[j],
        0 <= k < values.len(),
        is_ranked(values, k, v),
    ensures
        v == values[k],
{
    sorted_counts(values, k);
    ranked_value_is_unique(values, k, v, values[k]);
}

/// The peak of a measurement is the highest level there is within the peak
/// radius of the expected bin: no bin at most that far away, counted the
/// shorter way round, is higher, and one of them is as high.
pub proof fn peak_is_the_highest_nearby(
    levels: Seq<i32>,
    bin: int,
    radii: ToneRadii,
    peak: i32,
    floor: i32,
    other: int,
)
    requires
        is_tone_measure(levels, bin, radii, Some((peak, floor))),
        0 <= bin < levels.len(),
        0 <= radii.peak,
        0 <= other < levels.len(),
        -radii.peak <= other - bin <= radii.peak || other - bin >= levels.len() - radii.peak
            || bin - other >= levels.len() - radii.peak,
    ensures
        levels[other] <= peak,
        exists|near: int|
            {
                &&& 0 <= near < levels.len()
                &&& #[trigger] levels[near] == peak
                &&& -radii.peak <= near - bin <= radii.peak || near - bin >= levels.len()
                    - radii.peak || bin - near >= levels.len() - radii.peak || 2 * radii.peak
                    >= levels.len()
            },
{
    let n = levels.len() as int;
    let r = radii.peak as int;
    let window = window_of(bin, r, n);
    let d = if -r <= other - bin <= r {
        other - bin
    } else if other - bin >= n - r {
        other - bin - n
    } else {
        other - bin + n
    };
    windows_go_round_the_circle(bin, r, n, d);
    assert(window[r + d] == other);
    peak_of_window(levels, window, window.len(), r + d);
    let k = choose|k: int|
        0 <= k < window.len() && levels[#[trigger] window[k]] == window_peak(
            levels,
            window,
            window.len(),
        );
    let near = window[k];
    windows_go_round_the_circle(bin, r, n, k - r);
    assert(levels[near] == peak);
}

proof fn peak_of_window(levels: Seq<i32>, window: Seq<int>, n: nat, k: int)
    requires
        0 < n <= window.len(),
        0 <= k < n,
    ensures
        levels[window[k]] <= window_peak(levels, window, n),
        exists|j: int|
            0 <= j < n && levels[#[trigger] window[j]] == window_peak(levels, window, n),
    decreases n,
{
    if n == 1 {
        assert(levels[window[0]] == window_peak(levels, window, n));
    } else {
        let m = (n - 1) as nat;
        peak_of_window(levels, window, m, if k < m { k } else { 0 });
        if levels[window[n - 1]] > window_peak(levels, window, m) {
            assert(levels[window[n - 1]] == window_peak(levels, window, n));
        } else {
            let j = choose|j: int|
                0 <= j < m && levels[#[trigger] window[j]] == window_peak(levels, window, m);
            assert(levels[window[j]] == window_peak(levels, window, n));
        }
    }
}

/// How many of the first `k` bins of a window, which starts `radius` bins below
/// `bin` on the circle, belong to the noise, and lie below `v`, or not above
/// it, or anywhere: those farther than `exclude` from the bin.
pub open spec fn noise_bins(
    levels: Seq<i32>,
    bin: int,
    radius: int,
    exclude: int,
    k: nat,
    counted: spec_fn(i32) -> bool,
) -> nat
    decreases k,
{
    if k == 0 {
        0
    } else {
        let n = levels.len() as int;
        let at = (bin - radius + k - 1) % n;
        let apart = if at < bin {
            bin - at
        } else {
            at - bin
        };
        noise_bins(levels, bin, radius, exclude, (k - 1) as nat, counted) + if apart > exclude && n
            - apart > exclude && counted(levels[at]) {
            1nat
        } else {
            0nat
        }
    }
}

/// The noise floor of a measurement is the middle of the levels in the noise:
/// at most half of them lie below it, and more than half not above. There is no
/// measurement just where the noise has fewer than eight bins.
pub proof fn floor_is_the_middle_of_the_noise(
    levels: Seq<i32>,
    bin: int,
    radii: ToneRadii,
    measure: Option<(i32, i32)>,
)
    requires
        is_tone_measure(levels, bin, radii, measure),
        0 <= bin < levels.len(),
        0 <= radii.noise,
    ensures
        ({
            let r = radii.noise as int;
            let e = radii.exclude as int;
            let k = (2 * r + 1) as nat;
            let all = noise_bins(levels, bin, r, e, k, |v: i32| true);
            match measure {
                None => all < 8,
                Some((_, floor)) => {
                    &&& all >= 8
                    &&& noise_bins(levels, bin, r, e, k, |v: i32| v < floor) <= all / 2
                    &&& noise_bins(levels, bin, r, e, k, |v: i32| v <= floor) > all / 2
                },
            }
        }),
{
    let r = radii.noise as int;
    let e = radii.exclude as int;
    let k = (2 * r + 1) as nat;
    noise_is_counted(levels, bin, r, e, k, 0);
    if let Some((_, floor)) = measure {
        noise_is_counted(levels, bin, r, e, k, floor);
    }
}

proof fn noise_is_counted(levels: Seq<i32>, bin: int, r: int, e: int, k: nat, v: i32)
    requires
        0 <= bin < levels.len(),
        0 <= r,
        k <= 2 * r + 1,
    ensures
        ({
            let window = window_of(bin, r, levels.len() as int);
            let noise = noise_levels(levels, window, bin, e, k);
            &&& noise.len() == noise_bins(levels, bin, r, e, k, |x: i32| true)
            &&& below(noise, v) == noise_bins(levels, bin, r, e, k, |x: i32| x < v)
            &&& not_above(noise, v) == noise_bins(levels, bin, r, e, k, |x: i32| x <= v)
        }),
    decreases k,
{
    if k > 0 {
        let m = (k - 1) as nat;
        noise_is_counted(levels, bin, r, e, m, v);
        let n = levels.len() as int;
        let window = window_of(bin, r, n);
        let before = noise_levels(levels, window, bin, e, m);
        let noise = noise_levels(levels, window, bin, e, k);
        let at = window[k - 1];
        assert(at == (bin - r + k - 1) % n);
        vstd::arithmetic::div_mod::lemma_mod_bound(bin - r + k - 1, n);
        if distance_of(at, bin, n) > e {
            assert(noise.drop_last() =~= before);
            assert(noise.last() == levels[at]);
        }
    }
}

/// The analysis of a carrier starts from what is known of it: channels 1 to 124
/// belong to the band and have their number reported; the carrier is in view
/// where it belongs to the band and lies within the bandwidth. Nothing has been
/// measured or decoded.
pub proof fn band_has_its_channels<M, P, F, D>(carrier: Carrier<F>)
    ensures
        ({
            let a = carrier_analysis::<M, P, F, D>(carrier);
            &&& a.arfcn is Some <==> carrier.arfcn >= 1 && carrier.arfcn <= 124
            &&& a.arfcn matches Some(number) ==> number == carrier.arfcn
            &&& a.in_pgsm_downlink <==> a.arfcn is Some
            &&& a.carrier_visible <==> a.arfcn is Some && carrier.within_bandwidth
            &&& a.sample_rate_ok == carrier.sample_rate_ok
            &&& a.fcch_visible == carrier.fcch_visible
            &&& a.carrier_hz == carrier.carrier_hz
            &&& a.carrier_offset_hz == carrier.carrier_offset_hz
            &&& a.fcch_freq_hz == carrier.fcch_freq_hz
            &&& a.fcch_peak_db is None && a.noise_floor_db is None && a.fcch_snr_db is None
            &&& a.sch_correlation is None && a.sch_decode is None && a.bcch_decode is None
            &&& a.sch_symbol_offset is None && a.sch_sample_phase is None
            &&& a.bcch_correlation is None && a.last_verified_sch is None
            &&& !a.fcch_detected && !a.sch_detected && !a.bcch_detected
            &&& a.verified_sch_count == 0
        }),
{
}

/// The tone is looked for wherever it can be seen, and nowhere else: in a
/// carrier in view, sampled fast enough to have the tone in it, in a spectrum
/// of at least 32 bins that has a bin for it.
pub proof fn tone_is_sought_where_it_can_be_seen<F>(
    carrier: Carrier<F>,
    bins: int,
    bin: Option<usize>,
)
    ensures
        carrier.arfcn < 1 || carrier.arfcn > 124 ==> !tone_is_sought(carrier, bins, bin),
        !carrier.within_bandwidth || !carrier.sample_rate_ok || !carrier.rate_positive
            || !carrier.fcch_visible ==> !tone_is_sought(carrier, bins, bin),
        bins < 32 || bin is None ==> !tone_is_sought(carrier, bins, bin),
        carrier.arfcn >= 1 && carrier.arfcn <= 124 && carrier.within_bandwidth
            && carrier.sample_rate_ok && carrier.rate_positive && carrier.fcch_visible && bins
            >= 32 && bin is Some ==> tone_is_sought(carrier, bins, bin),
{
}

} // verus!
