//! Arithmetic on the bins of a spectrum.

use vstd::prelude::*;

verus! {

/// The bins at most `radius` away from `center` on the circle of `n` bins, from
/// the lowest on; one bin stands as often as the window passes it.
pub open spec fn window_of(center: int, radius: int, n: int) -> Seq<int> {
    Seq::new(
        if radius < 0 {
            0
        } else {
            (2 * radius + 1) as nat
        },
        |k: int| (center - radius + k) % n,
    )
}

/// The remainder of `x` by `n` that is not negative.
fn wrapped(x: isize, n: isize) -> (r: usize)
    requires
        n > 0,
    ensures
        r == x as int % n as int,
        r < n,
{
    if x >= 0 {
        (x % n) as usize
    } else {
        let back: isize = -(x + 1);
        let r: isize = n - 1 - back % n;
        proof {
            let q = back as int / n as int;
            vstd::arithmetic::div_mod::lemma_fundamental_div_mod(back as int, n as int);
            assert(x == n as int * (-q - 1) + r) by (nonlinear_arith)
                requires
                    back == -(x + 1),
                    back == n as int * q + back as int % n as int,
                    r == n - 1 - back as int % n as int,
            ;
            vstd::arithmetic::div_mod::lemma_fundamental_div_mod_converse(
                x as int,
                n as int,
                -q - 1,
                r as int,
            );
        }
        r as usize
    }
}

/// Lists the bins at most `radius` away from `center` on the circle of `n`.
pub fn bin_window(center: usize, radius: isize, n: usize) -> (bins: Vec<usize>)
    requires
        n > 0 || radius < 0,
        n <= isize::MAX,
        center <= isize::MAX,
        center + radius <= isize::MAX,
    ensures
        bins@.len() == window_of(center as int, radius as int, n as int).len(),
        forall|k: int|
            0 <= k < bins@.len() ==> #[trigger] bins@[k] == window_of(
                center as int,
                radius as int,
                n as int,
            )[k] && bins@[k] < n,
{
    let mut bins: Vec<usize> = Vec::new();
    if radius < 0 {
        return bins;
    }
    let mut d: isize = -radius;
    bins.push(wrapped(center as isize + d, n as isize));
    while d < radius
        invariant
            0 <= radius,
            0 < n <= isize::MAX,
            center <= isize::MAX,
            center + radius <= isize::MAX,
            -radius <= d <= radius,
            bins@.len() == d + radius + 1,
            forall|k: int|
                0 <= k < bins@.len() ==> #[trigger] bins@[k] == window_of(
                    center as int,
                    radius as int,
                    n as int,
                )[k] && bins@[k] < n,
        decreases radius - d,
    {
        d = d + 1;
        bins.push(wrapped(center as isize + d, n as isize));
    }
    bins
}

/// How far apart two bins are on the circle of `n`.
pub open spec fn distance_of(a: int, b: int, n: int) -> int {
    let d = if a < b {
        b - a
    } else {
        a - b
    };
    if d < n - d {
        d
    } else {
        n - d
    }
}

/// How far apart two bins are on the circle of `n`, whichever way round.
pub fn circular_distance(a: usize, b: usize, n: usize) -> (d: usize)
    requires
        a - b <= n,
        b - a <= n,
    ensures
        d == distance_of(a as int, b as int, n as int),
{
    let d: usize = if a < b {
        b - a
    } else {
        a - b
    };
    if d < n - d {
        d
    } else {
        n - d
    }
}

/// The distance is a distance: it does not depend on the order of the bins,
/// is at most half the circle, and is zero for a bin and itself alone.
pub proof fn distance_is_a_metric(a: int, b: int, c: int, n: int)
    requires
        0 <= a < n,
        0 <= b < n,
        0 <= c < n,
    ensures
        distance_of(a, b, n) == distance_of(b, a, n),
        0 <= 2 * distance_of(a, b, n) <= n,
        distance_of(a, b, n) == 0 <==> a == b,
        distance_of(a, c, n) <= distance_of(a, b, n) + distance_of(b, c, n),
{
}

/// A window that does not pass a bin twice holds exactly the bins within its
/// radius.
pub proof fn window_is_a_ball(center: int, radius: int, n: int, bin: int)
    requires
        0 <= center < n,
        0 <= bin < n,
        0 <= radius,
        2 * radius < n,
    ensures
        window_of(center, radius, n).contains(bin) <==> distance_of(bin, center, n) <= radius,
{
    let window = window_of(center, radius, n);
    if distance_of(bin, center, n) <= radius {
        let d = if bin - center > radius {
            bin - center - n
        } else if center - bin > radius {
            bin - center + n
        } else {
            bin - center
        };
        let k = d + radius;
        let q = if bin - center > radius {
            -1int
        } else if center - bin > radius {
            1int
        } else {
            0int
        };
        assert(n * q == d - (bin - center)) by (nonlinear_arith)
            requires
                (q == -1 && d == bin - center - n) || (q == 1 && d == bin - center + n) || (q == 0
                    && d == bin - center),
        ;
        vstd::arithmetic::div_mod::lemma_fundamental_div_mod_converse(
            center - radius + k,
            n,
            q,
            bin,
        );
        assert(window[k] == bin);
    }
    if window.contains(bin) {
        let k = choose|k: int| 0 <= k < window.len() && window[k] == bin;
        let x = center - radius + k;
        let q = x / n;
        vstd::arithmetic::div_mod::lemma_fundamental_div_mod(x, n);
        assert(-1 <= q <= 1) by (nonlinear_arith)
            requires
                x == n * q + bin,
                0 <= bin < n,
                -n < x < 2 * n,
        ;
        assert(n * q == -n || n * q == 0 || n * q == n) by (nonlinear_arith)
            requires
                -1 <= q <= 1,
        ;
    }
}

/// The place in a transform of `n` bins of bin `i` of the spectrum, in which
/// zero frequency stands in the middle.
pub open spec fn shifted_bin(i: int, n: int) -> int {
    (i + n / 2) % n
}

/// The spectrum of a transform: zero frequency in the middle.
pub open spec fn shifted<T>(bins: Seq<T>) -> Seq<T> {
    Seq::new(bins.len(), |i: int| bins[shifted_bin(i, bins.len() as int)])
}

/// Puts zero frequency in the middle.
pub fn fft_shift<T: Copy>(bins: &[T]) -> (r: Vec<T>)
    ensures
        r@ == shifted(bins@),
{
    let n: usize = bins.len();
    let half: usize = n / 2;
    let mut r: Vec<T> = Vec::with_capacity(n);
    for i in 0..n
        invariant
            n == bins@.len(),
            half == n / 2,
            r@ =~= shifted(bins@).take(i as int),
    {
        let from: usize = if i < n - half {
            i + half
        } else {
            i - (n - half)
        };
        proof {
            let q = if i < n - half {
                0int
            } else {
                1int
            };
            assert(n as int * q == if q == 0 {
                0
            } else {
                n as int
            }) by (nonlinear_arith)
                requires
                    q == 0 || q == 1,
            ;
            vstd::arithmetic::div_mod::lemma_fundamental_div_mod_converse(
                i + half,
                n as int,
                q,
                from as int,
            );
        }
        r.push(bins[from]);
    }
    r
}

/// For an even number of bins shifting twice gives the transform back.
pub proof fn shifting_twice_is_identity<T>(bins: Seq<T>)
    requires
        bins.len() % 2 == 0,
    ensures
        shifted(shifted(bins)) == bins,
{
    let n = bins.len() as int;
    assert forall|i: int| 0 <= i < n implies shifted(shifted(bins))[i] == bins[i] by {
        let j = shifted_bin(i, n);
        let q = if i < n / 2 {
            0int
        } else {
            1int
        };
        assert(n * q == if q == 0 {
            0
        } else {
            n
        } && n * (1 - q) == if q == 0 {
            n
        } else {
            0
        }) by (nonlinear_arith)
            requires
                q == 0 || q == 1,
        ;
        vstd::arithmetic::div_mod::lemma_fundamental_div_mod_converse(
            i + n / 2,
            n,
            q,
            i + n / 2 - n * q,
        );
        assert(j == i + n / 2 - n * q);
        vstd::arithmetic::div_mod::lemma_fundamental_div_mod_converse(j + n / 2, n, 1 - q, i);
    }
    assert(shifted(shifted(bins)) =~= bins);
}

/// Whether `p` is the least power of two that is at least `n`.
pub open spec fn is_power_above(p: int, n: int) -> bool {
    &&& exists|k: nat| p == #[trigger] vstd::arithmetic::power2::pow2(k)
    &&& p >= n
    &&& p == 1 || p / 2 < n
}

/// The least power of two that is at least `n`.
pub fn power_of_two_above(n: usize) -> (p: usize)
    requires
        n <= usize::MAX / 2 + 1,
    ensures
        is_power_above(p as int, n as int),
{
    let mut p: usize = 1;
    let ghost mut k: nat = 0;
    proof {
        vstd::arithmetic::power2::lemma2_to64();
    }
    while p < n
        invariant
            n <= usize::MAX / 2 + 1,
            p == vstd::arithmetic::power2::pow2(k),
            p >= 1,
            p == 1 || p / 2 < n,
        decreases 2 * n - p,
    {
        proof {
            vstd::arithmetic::power2::lemma_pow2_unfold(k + 1);
            k = k + 1;
        }
        p = 2 * p;
    }
    p
}

/// There is one least power of two that is at least `n`.
pub proof fn power_above_is_unique(p: int, q: int, n: int)
    requires
        is_power_above(p, n),
        is_power_above(q, n),
    ensures
        p == q,
{
    let i = choose|i: nat| p == vstd::arithmetic::power2::pow2(i);
    let j = choose|j: nat| q == vstd::arithmetic::power2::pow2(j);
    if i < j {
        half_power_bound(i, j);
    } else if j < i {
        half_power_bound(j, i);
    }
}

proof fn half_power_bound(i: nat, j: nat)
    requires
        i < j,
    ensures
        vstd::arithmetic::power2::pow2(i) <= vstd::arithmetic::power2::pow2(j) / 2,
        vstd::arithmetic::power2::pow2(i) >= 1,
        vstd::arithmetic::power2::pow2(j) > 1,
{
    vstd::arithmetic::power2::lemma_pow2_unfold(j);
    vstd::arithmetic::power2::lemma_pow2_pos(i);
    vstd::arithmetic::power2::lemma_pow2_pos((j - 1) as nat);
    if i < j - 1 {
        vstd::arithmetic::power2::lemma_pow2_strictly_increases(i, (j - 1) as nat);
    }
}

/// Smallest transform that can be asked for.
pub const MIN_FFT_SIZE: usize = 1024;

/// Largest transform that can be asked for.
pub const MAX_FFT_SIZE: usize = 16384;

/// What is made of a request for a transform: one within limits.
pub open spec fn clamped_size(requested: int) -> int {
    if requested < 1024 {
        1024
    } else if requested > 16384 {
        16384
    } else {
        requested
    }
}

/// The size of the transform for a request: a power of two within limits.
pub fn fft_size_for(requested: usize) -> (size: usize)
    ensures
        is_power_above(size as int, clamped_size(requested as int)),
        1024 <= size <= 16384,
{
    let wanted: usize = if requested < MIN_FFT_SIZE {
        MIN_FFT_SIZE
    } else if requested > MAX_FFT_SIZE {
        MAX_FFT_SIZE
    } else {
        requested
    };
    let size: usize = power_of_two_above(wanted);
    proof {
        vstd::arithmetic::power2::lemma2_to64();
        if size > 16384 {
            let k = choose|k: nat| size == vstd::arithmetic::power2::pow2(k);
            if k <= 14 {
                if k < 14 {
                    vstd::arithmetic::power2::lemma_pow2_strictly_increases(k, 14);
                }
            } else {
                half_power_bound(14, k);
            }
        }
    }
    size
}

/// How far apart the points that are kept of `len` stand.
pub open spec fn decimation_step(len: int, max_points: int) -> int {
    if len / max_points > 1 {
        len / max_points
    } else {
        1
    }
}

/// Every so many points of the input, at most `max_points` of them.
pub open spec fn decimated<T>(input: Seq<T>, max_points: int) -> Seq<T> {
    if input.len() == 0 || max_points == 0 {
        seq![]
    } else {
        let step = decimation_step(input.len() as int, max_points);
        let all = (input.len() + step - 1) / step;
        Seq::new(
            if all < max_points {
                all as nat
            } else {
                max_points as nat
            },
            |k: int| input[k * step],
        )
    }
}

/// Thins the input out to at most `max_points` points.
pub fn decimate_constellation<T: Copy>(input: &[T], max_points: usize) -> (points: Vec<T>)
    ensures
        points@ == decimated(input@, max_points as int),
{
    let mut points: Vec<T> = Vec::new();
    let len: usize = input.len();
    if len == 0 || max_points == 0 {
        return points;
    }
    let step: usize = if len / max_points > 1 {
        len / max_points
    } else {
        1
    };
    let ghost all = (len + step - 1) as int / step as int;
    let mut at: usize = 0;
    let mut more = true;
    while more && points.len() < max_points
        invariant
            len == input@.len(),
            len > 0,
            step == decimation_step(len as int, max_points as int),
            step >= 1,
            points@.len() <= max_points,
            more ==> at == points@.len() * step && at < len,
            !more ==> (points@.len() - 1) * step < len && points@.len() * step >= len,
            forall|k: int| 0 <= k < points@.len() ==> #[trigger] points@[k] == input@[k * step],
        decreases max_points - points@.len(),
    {
        let ghost n = points@.len() as int;
        points.push(input[at]);
        proof {
            assert((n + 1) * step == n * step + step) by (nonlinear_arith);
        }
        if step < len - at {
            at = at + step;
        } else {
            more = false;
        }
    }
    proof {
        let n = points@.len() as int;
        let s = step as int;
        if !more {
            vstd::arithmetic::div_mod::lemma_fundamental_div_mod(len + s - 1, s);
            let r = (len + s - 1) % s;
            assert(n == all) by (nonlinear_arith)
                requires
                    (n - 1) * s < len,
                    n * s >= len,
                    s >= 1,
                    len + s - 1 == s * all + r,
                    0 <= r < s,
            ;
        } else {
            assert(n == max_points);
            vstd::arithmetic::div_mod::lemma_fundamental_div_mod(len + s - 1, s);
            let r = (len + s - 1) % s;
            assert(all >= n) by (nonlinear_arith)
                requires
                    n * s < len,
                    s >= 1,
                    len + s - 1 == s * all + r,
                    0 <= r < s,
            ;
        }
        assert(points@ =~= decimated(input@, max_points as int));
    }
    points
}

/// How many columns a waterfall is drawn in: what fits, within limits, and no
/// more than the spectrum has bins.
pub fn waterfall_columns(fitting: usize, bins: usize) -> (columns: usize)
    ensures
        1 <= columns <= 768,
        columns == {
            let wanted = if fitting < 160 {
                160
            } else if fitting > 768 {
                768
            } else {
                fitting as int
            };
            let most = if bins > 1 {
                bins as int
            } else {
                1
            };
            if wanted < most {
                wanted
            } else {
                most
            }
        },
{
    let wanted: usize = if fitting < 160 {
        160
    } else if fitting > 768 {
        768
    } else {
        fitting
    };
    let most: usize = if bins > 1 {
        bins
    } else {
        1
    };
    if wanted < most {
        wanted
    } else {
        most
    }
}

/// The bin that is drawn in a column of the waterfall.
pub fn waterfall_bin(column: usize, columns: usize, bins: usize) -> (bin: usize)
    requires
        column < columns,
        column * bins <= usize::MAX,
    ensures
        bin == column as int * bins as int / columns as int,
        bins > 0 ==> bin < bins,
{
    let bin: usize = column * bins / columns;
    proof {
        let c = columns as int;
        let product = column as int * bins as int;
        vstd::arithmetic::div_mod::lemma_fundamental_div_mod(product, c);
        let r = product % c;
        assert(bins > 0 ==> bin < bins) by (nonlinear_arith)
            requires
                product == column * bins,
                product == c * bin + r,
                0 <= r < c,
                column < c,
        ;
    }
    bin
}

/// Columns further right draw bins no further left.
pub proof fn waterfall_is_in_order(a: int, b: int, columns: int, bins: int)
    requires
        0 <= a <= b < columns,
        0 <= bins,
    ensures
        a * bins / columns <= b * bins / columns,
{
    assert(a * bins <= b * bins) by (nonlinear_arith)
        requires
            a <= b,
            0 <= bins,
    ;
    vstd::arithmetic::div_mod::lemma_div_is_ordered(a * bins, b * bins, columns);
}

/// A window goes through the bins in order, from `radius` below its centre to
/// `radius` above, and goes on round the circle at its ends.
pub proof fn windows_go_round_the_circle(center: int, radius: int, n: int, d: int)
    requires
        0 <= center < n,
        -radius <= d <= radius,
    ensures
        window_of(center, radius, n).len() == 2 * radius + 1,
        0 <= window_of(center, radius, n)[radius + d] < n,
        0 <= center + d < n ==> window_of(center, radius, n)[radius + d] == center + d,
        -n <= center + d < 0 ==> window_of(center, radius, n)[radius + d] == center + d + n,
        n <= center + d < 2 * n ==> window_of(center, radius, n)[radius + d] == center + d - n,
{
    let x = center + d;
    vstd::arithmetic::div_mod::lemma_mod_bound(x, n);
    if 0 <= x < n {
        vstd::arithmetic::div_mod::lemma_small_mod(x as nat, n as nat);
    } else if -n <= x < 0 {
        vstd::arithmetic::div_mod::lemma_mod_add_multiples_vanish(x, n);
        vstd::arithmetic::div_mod::lemma_small_mod((x + n) as nat, n as nat);
    } else if n <= x < 2 * n {
        vstd::arithmetic::div_mod::lemma_mod_sub_multiples_vanish(x, n);
        vstd::arithmetic::div_mod::lemma_small_mod((x - n) as nat, n as nat);
    }
}

/// The distance is the shorter of the two ways round the circle: as many steps
/// from one bin lead to the other, and no more than half the circle.
pub proof fn distance_is_the_shorter_way(a: int, b: int, n: int)
    requires
        0 <= a < n,
        0 <= b < n,
    ensures
        ({
            let d = distance_of(a, b, n);
            &&& 0 <= 2 * d <= n
            &&& a + d == b || b + d == a || a + d == b + n || b + d == a + n
        }),
{
}

/// Zero frequency goes to the middle: the upper half of the transform comes
/// first, and the lower half after it.
pub proof fn halves_change_places<T>(bins: Seq<T>, i: int)
    requires
        0 <= i < bins.len(),
    ensures
        shifted(bins).len() == bins.len(),
        i + bins.len() as int / 2 < bins.len() ==> shifted(bins)[i] == bins[i + bins.len() as int
            / 2],
        i + bins.len() as int / 2 >= bins.len() ==> shifted(bins)[i] == bins[i + bins.len() as int
            / 2 - bins.len()],
{
    let n = bins.len() as int;
    let x = i + n / 2;
    if x < n {
        vstd::arithmetic::div_mod::lemma_small_mod(x as nat, n as nat);
    } else {
        vstd::arithmetic::div_mod::lemma_mod_sub_multiples_vanish(x, n);
        vstd::arithmetic::div_mod::lemma_small_mod((x - n) as nat, n as nat);
    }
}

/// The transform that is made is the smallest power of two that is no smaller
/// than what was asked for, from 1024 to 16384.
pub proof fn transforms_fit_the_request(requested: int, size: int)
    requires
        is_power_above(size, clamped_size(requested)),
    ensures
        exists|k: nat| size == #[trigger] vstd::arithmetic::power2::pow2(k),
        1024 <= size,
        requested <= 16384 ==> requested <= size,
        requested > 1024 && requested <= 16384 ==> size / 2 < requested,
        requested <= 1024 ==> size / 2 < 1024,
        requested > 16384 ==> size >= 16384 && size / 2 < 16384,
{
}

/// Points are kept at equal steps, from the first on: each the same number after
/// the last, and until there are enough or none is left. The step is the widest
/// that lets enough points be kept, and at least one.
pub proof fn points_are_kept_at_equal_steps<T>(
    input: Seq<T>,
    max_points: int,
    step: int,
    k: int,
)
    requires
        input.len() > 0,
        max_points > 0,
        step >= 1,
        step == 1 || step * max_points <= input.len(),
        (step + 1) * max_points > input.len(),
    ensures
        0 < decimated(input, max_points).len() <= max_points,
        0 <= k < decimated(input, max_points).len() ==> 0 <= k * step < input.len() && decimated(
            input,
            max_points,
        )[k] == input[k * step],
        decimated(input, max_points).len() == max_points || decimated(input, max_points).len()
            * step >= input.len(),
{
    let len = input.len() as int;
    let q = len / max_points;
    vstd::arithmetic::div_mod::lemma_fundamental_div_mod(len, max_points);
    let rest = len % max_points;
    assert(q >= 0 && step == if q > 1 {
        q
    } else {
        1
    }) by (nonlinear_arith)
        requires
            len == max_points * q + rest,
            0 <= rest < max_points,
            step >= 1,
            step == 1 || step * max_points <= len,
            (step + 1) * max_points > len,
            len > 0,
    ;
    let all = (len + step - 1) / step;
    vstd::arithmetic::div_mod::lemma_fundamental_div_mod(len + step - 1, step);
    let over = (len + step - 1) % step;
    assert(all >= 1 && all * step >= len && (all - 1) * step < len) by (nonlinear_arith)
        requires
            len + step - 1 == step * all + over,
            0 <= over < step,
            len > 0,
    ;
    if 0 <= k < decimated(input, max_points).len() {
        assert(0 <= k * step < len) by (nonlinear_arith)
            requires
                0 <= k <= all - 1,
                (all - 1) * step < len,
                step >= 1,
        ;
    }
}

/// Nothing is kept of nothing, or where nothing may be kept.
pub proof fn nothing_is_kept_of_nothing<T>(input: Seq<T>, max_points: int)
    requires
        input.len() == 0 || max_points == 0,
    ensures
        decimated(input, max_points).len() == 0,
{
}

} // verus!
