//! Sending an image as a spectrogram: one row of pixels after the other, each
//! pixel a tone.

use crate::spectrum::{is_power_above, power_of_two_above};
use vstd::prelude::*;

verus! {

/// Smallest transform that makes a row.
pub const MIN_ROW_FFT: usize = 512;

/// How often the transform of a row is repeated at most.
pub const MAX_ROW_REPEATS: usize = 256;

/// Pixels darker than this are not sent.
pub const DARKEST_SENT: u8 = 3;

/// How the rows of an image are sent.
#[derive(Clone, Copy, PartialEq, Eq, Structural, Debug)]
pub struct RowLayout {
    /// Size of the transform.
    pub fft_size: usize,
    /// How often it is repeated.
    pub repeats: usize,
}

/// The size of the transform for rows of `width` pixels: a power of two, at
/// least one bin for each pixel.
pub open spec fn is_row_fft(fft_size: int, width: int) -> bool {
    exists|p: int|
        #[trigger] is_power_above(p, width) && fft_size == if p > 512 {
            p
        } else {
            512
        }
}

/// How many samples a row takes: at least one transform, at most 256.
pub open spec fn row_samples(requested: int, fft_size: int) -> int {
    let enough = if requested > fft_size {
        requested
    } else {
        fft_size
    };
    if enough < 256 * fft_size {
        enough
    } else {
        256 * fft_size
    }
}

/// Lays out rows of `width` pixels that are to last for `requested` samples:
/// the transform is repeated as often as that takes.
pub fn row_layout(width: usize, requested: usize) -> (layout: RowLayout)
    requires
        width <= usize::MAX / 1024,
    ensures
        is_row_fft(layout.fft_size as int, width as int),
        layout.fft_size >= width,
        layout.fft_size >= 512,
        1 <= layout.repeats <= 256,
        layout.fft_size * (layout.repeats - 1) < row_samples(
            requested as int,
            layout.fft_size as int,
        ) <= layout.fft_size * layout.repeats,
{
    let p: usize = power_of_two_above(width);
    assert(is_power_above(p as int, width as int));
    let fft_size: usize = if p > MIN_ROW_FFT {
        p
    } else {
        MIN_ROW_FFT
    };
    assert(p == 1 || p / 2 < usize::MAX / 1024);
    let enough: usize = if requested > fft_size {
        requested
    } else {
        fft_size
    };
    let samples: usize = if enough < MAX_ROW_REPEATS * fft_size {
        enough
    } else {
        MAX_ROW_REPEATS * fft_size
    };
    let whole: usize = samples / fft_size;
    let rest: usize = samples % fft_size;
    proof {
        vstd::arithmetic::div_mod::lemma_fundamental_div_mod(samples as int, fft_size as int);
        let q = whole as int;
        let f = fft_size as int;
        assert(1 <= q <= 256 && (q == 256 ==> rest == 0)) by (nonlinear_arith)
            requires
                samples == f * q + rest,
                0 <= rest < f,
                f <= samples <= 256 * f,
        ;
        assert(f * (q + 1 - 1) == f * q && f * (q + 1) == f * q + f && f * (q - 1) == f * q - f)
            by (nonlinear_arith);
    }
    RowLayout {
        fft_size,
        repeats: if rest == 0 {
            whole
        } else {
            whole + 1
        },
    }
}

/// The row of the image that is sent as row `row`: the lowest first.
pub open spec fn sent_row(row: int, height: int) -> int {
    height - 1 - row
}

/// How far to the right of the middle of the image column `x` lies.
pub open spec fn column_offset(x: int, width: int) -> int {
    x - width / 2
}

/// The bin of the transform that column `x` is sent in: columns left of the
/// middle stand for negative frequencies.
pub open spec fn column_bin(x: int, width: int, fft_size: int) -> int {
    if column_offset(x, width) >= 0 {
        column_offset(x, width)
    } else {
        fft_size + column_offset(x, width)
    }
}

/// Different columns are sent in different bins.
pub proof fn columns_have_their_own_bins(x: int, y: int, width: int, fft_size: int)
    requires
        0 <= x < width,
        0 <= y < width,
        x != y,
        width <= fft_size,
    ensures
        0 <= column_bin(x, width, fft_size) < fft_size,
        column_bin(x, width, fft_size) != column_bin(y, width, fft_size),
{
}

/// The phase of a tone, in thousandths of a radian.
pub open spec fn tone_phase(row: int, x: int) -> int {
    (row * 131 + x * 17) % 6283
}

/// A tone of a row.
#[derive(Clone, Copy, PartialEq, Eq, Structural, Debug)]
pub struct Tone {
    /// The bin that it is sent in.
    pub bin: usize,
    /// Its level, as the grey of the pixel.
    pub level: u8,
    /// Its phase, in thousandths of a radian.
    pub phase: usize,
}

/// A grey image.
pub struct TxImage {
    pub width: usize,
    pub height: usize,
    /// Rows from top to bottom.
    pub gray: Vec<u8>,
}

impl TxImage {
    /// Whether there is a pixel for each place.
    pub open spec fn well_formed(self) -> bool {
        &&& self.width <= usize::MAX / 1024
        &&& self.height <= usize::MAX / 1024
        &&& self.gray@.len() >= self.width * self.height
    }

    /// The grey of column `x` in the row that is sent as row `row`.
    pub open spec fn sent_pixel(self, row: int, x: int) -> u8 {
        self.gray@[sent_row(row, self.height as int) * self.width + x]
    }
}

/// Whether column `x` of a row is sent: it is bright enough, and not in the
/// middle of the band where that is kept clear.
pub open spec fn pixel_is_sent(image: TxImage, row: int, x: int, clear_middle: bool) -> bool {
    &&& image.sent_pixel(row, x) >= 3
    &&& !(clear_middle && -1 <= column_offset(x, image.width as int) <= 1)
}

/// The tones of the first `n` columns of a row.
pub open spec fn row_tones(
    image: TxImage,
    row: int,
    clear_middle: bool,
    fft_size: int,
    n: nat,
) -> Seq<Tone>
    decreases n,
{
    if n == 0 {
        seq![]
    } else {
        let before = row_tones(image, row, clear_middle, fft_size, (n - 1) as nat);
        if pixel_is_sent(image, row, n - 1, clear_middle) {
            before.push(
                Tone {
                    bin: column_bin(n - 1, image.width as int, fft_size) as usize,
                    level: image.sent_pixel(row, n - 1),
                    phase: tone_phase(row, n - 1) as usize,
                },
            )
        } else {
            before
        }
    }
}

/// Lists the tones of a row of the image.
pub fn image_row_tones(image: &TxImage, row: usize, clear_middle: bool, fft_size: usize) -> (tones:
    Vec<Tone>)
    requires
        image.well_formed(),
        row < image.height,
        image.width <= fft_size,
    ensures
        tones@ == row_tones(*image, row as int, clear_middle, fft_size as int, image.width as nat),
{
    let width: usize = image.width;
    let from: usize = image.height - 1 - row;
    let mut tones: Vec<Tone> = Vec::new();
    let half: usize = width / 2;
    for x in 0..width
        invariant
            image.well_formed(),
            row < image.height,
            width == image.width,
            width <= fft_size,
            half == width / 2,
            from == sent_row(row as int, image.height as int),
            tones@ == row_tones(*image, row as int, clear_middle, fft_size as int, x as nat),
    {
        assert(from * width + x < image.gray@.len() && from * width <= (image.height - 1) * width)
            by (nonlinear_arith)
            requires
                from <= image.height - 1,
                x < width,
                image.gray@.len() >= width * image.height,
        ;
        assert(from * width + x < image.gray.len());
        let level: u8 = image.gray[from * width + x];
        let near_middle = (x >= half && x - half <= 1) || (x < half && half - x <= 1);
        if level >= DARKEST_SENT && !(clear_middle && near_middle) {
            let bin: usize = if x >= half {
                x - half
            } else {
                fft_size - (half - x)
            };
            tones.push(Tone { bin, level, phase: (row * 131 + x * 17) % 6283 });
        }
    }
    tones
}

/// The highest level of the tones of a row; zero where there is none.
pub open spec fn row_level(tones: Seq<Tone>) -> u8
    decreases tones.len(),
{
    if tones.len() == 0 {
        0
    } else {
        let before = row_level(tones.drop_last());
        if tones.last().level > before {
            tones.last().level
        } else {
            before
        }
    }
}

/// Finds the highest level of the tones of a row.
pub fn highest_level(tones: &[Tone]) -> (level: u8)
    ensures
        level == row_level(tones@),
{
    let mut level: u8 = 0;
    for i in 0..tones.len()
        invariant
            level == row_level(tones@.take(i as int)),
    {
        assert(tones@.take(i + 1).drop_last() =~= tones@.take(i as int));
        if tones[i].level > level {
            level = tones[i].level;
        }
    }
    assert(tones@.take(tones@.len() as int) =~= tones@);
    level
}

/// A row has a level just where it has a tone.
pub proof fn silent_rows_have_no_tones(
    image: TxImage,
    row: int,
    clear_middle: bool,
    fft_size: int,
    n: nat,
)
    ensures
        row_level(row_tones(image, row, clear_middle, fft_size, n)) == 0 <==> row_tones(
            image,
            row,
            clear_middle,
            fft_size,
            n,
        ).len() == 0,
    decreases n,
{
    if n > 0 {
        silent_rows_have_no_tones(image, row, clear_middle, fft_size, (n - 1) as nat);
        let before = row_tones(image, row, clear_middle, fft_size, (n - 1) as nat);
        let tones = row_tones(image, row, clear_middle, fft_size, n);
        if tones.len() > before.len() {
            assert(tones.drop_last() =~= before);
            assert(tones.last().level >= 3);
        }
    }
}

/// A row without a pixel that is bright enough has no tone.
pub proof fn dark_rows_are_silent(
    image: TxImage,
    row: int,
    clear_middle: bool,
    fft_size: int,
    n: nat,
)
    requires
        forall|x: int| 0 <= x < n ==> #[trigger] image.sent_pixel(row, x) < 3,
    ensures
        row_tones(image, row, clear_middle, fft_size, n).len() == 0,
    decreases n,
{
    if n > 0 {
        dark_rows_are_silent(image, row, clear_middle, fft_size, (n - 1) as nat);
    }
}

/// The first `n` blocks one after the other, each of them `repeats` times.
pub open spec fn joined<T>(blocks: Seq<Vec<T>>, repeats: nat, n: nat) -> Seq<T>
    decreases n,
{
    if n == 0 {
        seq![]
    } else {
        joined(blocks, repeats, (n - 1) as nat) + repeated(blocks[n - 1]@, repeats)
    }
}

/// A block `repeats` times.
pub open spec fn repeated<T>(block: Seq<T>, repeats: nat) -> Seq<T>
    decreases repeats,
{
    if repeats == 0 {
        seq![]
    } else {
        repeated(block, (repeats - 1) as nat) + block
    }
}

proof fn repeated_shape<T>(block: Seq<T>, repeats: nat)
    ensures
        repeated(block, repeats).len() == repeats * block.len(),
        forall|i: int|
            0 <= i < repeats * block.len() ==> #[trigger] repeated(block, repeats)[i] == block[i
                % block.len() as int],
    decreases repeats,
{
    let len = block.len() as int;
    assert(repeats * len == repeats * block.len());
    if repeats == 0 {
        assert(repeats * len == 0) by (nonlinear_arith)
            requires
                repeats == 0,
        ;
    } else {
        let fewer = (repeats - 1) as nat;
        repeated_shape(block, fewer);
        assert(fewer * len == fewer * block.len());
        assert(repeats * len == fewer * len + len) by (nonlinear_arith)
            requires
                repeats == fewer + 1,
        ;
        assert forall|i: int| 0 <= i < repeats * len implies #[trigger] repeated(
            block,
            repeats,
        )[i] == block[i % len] by {
            if i >= fewer * len {
                let at = i - fewer * len;
                assert(i == len * fewer + at) by (nonlinear_arith)
                    requires
                        at == i - fewer * len,
                ;
                vstd::arithmetic::div_mod::lemma_fundamental_div_mod_converse(
                    i,
                    len,
                    fewer as int,
                    at,
                );
            }
        }
    }
}

/// The waveform of an image has as many samples as its rows take: sample `i`
/// of row `row` is sample `i` of the block of that row, over and over.
pub proof fn rows_follow_each_other<T>(
    blocks: Seq<Vec<T>>,
    repeats: nat,
    n: nat,
    fft_size: int,
    row: int,
    i: int,
)
    requires
        0 <= row < n,
        n <= blocks.len(),
        0 <= i < repeats * fft_size,
        forall|k: int| 0 <= k < n ==> (#[trigger] blocks[k])@.len() == fft_size,
    ensures
        joined(blocks, repeats, n).len() == n * (repeats * fft_size),
        0 <= row * (repeats * fft_size) + i < n * (repeats * fft_size),
        joined(blocks, repeats, n)[row * (repeats * fft_size) + i] == blocks[row]@[i % fft_size],
    decreases n,
{
    let span = repeats * fft_size;
    let before = (n - 1) as nat;
    joined_len(blocks, repeats, n, fft_size);
    joined_len(blocks, repeats, before, fft_size);
    assert(0 <= row * span + i < n * span && n * span == before * span + span) by (nonlinear_arith)
        requires
            0 <= row < n,
            0 <= i < span,
            n == before + 1,
    ;
    if row < before {
        rows_follow_each_other(blocks, repeats, before, fft_size, row, i);
    } else {
        repeated_shape(blocks[row]@, repeats);
        assert(joined(blocks, repeats, n)[row * span + i] == repeated(blocks[row]@, repeats)[i]);
    }
}

/// Rows that all take `repeats` times `fft_size` samples take as many times
/// that as there are rows; there is no sample just where there is no row.
pub proof fn joined_len<T>(blocks: Seq<Vec<T>>, repeats: nat, n: nat, fft_size: int)
    requires
        n <= blocks.len(),
        forall|k: int| 0 <= k < n ==> (#[trigger] blocks[k])@.len() == fft_size,
    ensures
        joined(blocks, repeats, n).len() == n * (repeats * fft_size),
        repeats > 0 && fft_size > 0 ==> (joined(blocks, repeats, n).len() == 0 <==> n == 0),
    decreases n,
{
    let span = repeats * fft_size;
    if repeats > 0 && fft_size > 0 {
        assert(n * span == 0 <==> n == 0) by (nonlinear_arith)
            requires
                span == repeats * fft_size,
                repeats > 0,
                fft_size > 0,
        ;
    }
    if n > 0 {
        let before = (n - 1) as nat;
        joined_len(blocks, repeats, before, fft_size);
        repeated_shape(blocks[n - 1]@, repeats);
        assert(n * span == before * span + span) by (nonlinear_arith)
            requires
                n == before + 1,
        ;
    } else {
        assert(n * span == 0) by (nonlinear_arith)
            requires
                n == 0,
        ;
    }
}

/// Joins the blocks of the rows of an image, in order, each of them `repeats`
/// times, to the waveform that is sent. There is none without a sample.
pub fn join_rows<T: Copy>(blocks: &[Vec<T>], repeats: usize) -> (waveform: Option<Vec<T>>)
    ensures
        match waveform {
            Some(samples) => samples@ == joined(blocks@, repeats as nat, blocks@.len())
                && samples@.len() > 0,
            None => joined(blocks@, repeats as nat, blocks@.len()).len() == 0,
        },
{
    let mut samples: Vec<T> = Vec::new();
    for row in 0..blocks.len()
        invariant
            samples@ == joined(blocks@, repeats as nat, row as nat),
    {
        let block = &blocks[row];
        let ghost before = samples@;
        assert(before + repeated(block@, 0) =~= before);
        for n in 0..repeats
            invariant
                block@ == blocks@[row as int]@,
                before == joined(blocks@, repeats as nat, row as nat),
                samples@ == before + repeated(block@, n as nat),
        {
            let len: usize = block.len();
            let ghost start = samples@;
            for i in 0..len
                invariant
                    len == block@.len(),
                    samples@ =~= start + block@.take(i as int),
            {
                samples.push(block[i]);
            }
            assert(block@.take(len as int) =~= block@);
            assert(samples@ =~= before + repeated(block@, (n + 1) as nat));
        }
    }
    if samples.len() == 0 {
        None
    } else {
        Some(samples)
    }
}

/// A column of an image row that is bright enough, and not in the middle where
/// that is kept clear, has its tone. Row `row` of the transmission is that many
/// rows above the last of the image, so that the picture goes out bottom row
/// first.
pub proof fn bright_pixels_have_their_tones(
    image: TxImage,
    row: int,
    clear_middle: bool,
    fft_size: int,
    n: nat,
    x: int,
)
    requires
        0 <= x < n,
        image.gray@[(image.height - 1 - row) * image.width + x] > 2,
        !clear_middle || x - image.width as int / 2 > 1 || x - image.width as int / 2 < -1,
    ensures
        row_tones(image, row, clear_middle, fft_size, n).contains(
            Tone {
                bin: (if x >= image.width as int / 2 {
                    x - image.width as int / 2
                } else {
                    fft_size + x - image.width as int / 2
                }) as usize,
                level: image.gray@[(image.height - 1 - row) * image.width + x],
                phase: ((row * 131 + x * 17) % 6283) as usize,
            },
        ),
    decreases n,
{
    let tones = row_tones(image, row, clear_middle, fft_size, n);
    let before = row_tones(image, row, clear_middle, fft_size, (n - 1) as nat);
    if x == n - 1 {
        assert(tones[before.len() as int] == tones.last());
    } else {
        bright_pixels_have_their_tones(image, row, clear_middle, fft_size, (n - 1) as nat, x);
        let tone = Tone {
            bin: (if x >= image.width as int / 2 {
                x - image.width as int / 2
            } else {
                fft_size + x - image.width as int / 2
            }) as usize,
            level: image.gray@[(image.height - 1 - row) * image.width + x],
            phase: ((row * 131 + x * 17) % 6283) as usize,
        };
        let k = choose|k: int| 0 <= k < before.len() && before[k] == tone;
        assert(tones[k] == tone);
    }
}

/// Every tone is that of a column, and the tones are in the order of their
/// columns: their levels are the greys of the image row that many rows above
/// the last.
pub proof fn tones_are_those_of_the_image_row(
    image: TxImage,
    row: int,
    clear_middle: bool,
    fft_size: int,
    n: nat,
)
    ensures
        exists|columns: Seq<int>|
            {
                let tones = row_tones(image, row, clear_middle, fft_size, n);
                &&& #[trigger] columns.len() == tones.len()
                &&& forall|k: int|
                    0 <= k < columns.len() ==> {
                        let x = #[trigger] columns[k];
                        &&& 0 <= x < n
                        &&& tones[k].level == image.gray@[(image.height - 1 - row) * image.width
                            + x]
                        &&& tones[k].level > 2
                        &&& clear_middle ==> x - image.width as int / 2 > 1 || x
                            - image.width as int / 2 < -1
                    }
                &&& forall|k: int, l: int|
                    0 <= k < l < columns.len() ==> #[trigger] columns[k] < #[trigger] columns[l]
            },
    decreases n,
{
    let tones = row_tones(image, row, clear_middle, fft_size, n);
    if n == 0 {
        let none: Seq<int> = seq![];
        assert(none.len() == tones.len());
    } else {
        tones_are_those_of_the_image_row(image, row, clear_middle, fft_size, (n - 1) as nat);
        let before = row_tones(image, row, clear_middle, fft_size, (n - 1) as nat);
        let held = choose|columns: Seq<int>|
            {
                &&& #[trigger] columns.len() == before.len()
                &&& forall|k: int|
                    0 <= k < columns.len() ==> {
                        let x = #[trigger] columns[k];
                        &&& 0 <= x < n - 1
                        &&& before[k].level == image.gray@[(image.height - 1 - row) * image.width
                            + x]
                        &&& before[k].level > 2
                        &&& clear_middle ==> x - image.width as int / 2 > 1 || x
                            - image.width as int / 2 < -1
                    }
                &&& forall|k: int, l: int|
                    0 <= k < l < columns.len() ==> #[trigger] columns[k] < #[trigger] columns[l]
            };
        let columns = if pixel_is_sent(image, row, n - 1, clear_middle) {
            held.push(n - 1)
        } else {
            held
        };
        assert(columns.len() == tones.len());
        assert forall|k: int| 0 <= k < columns.len() implies {
            let x = #[trigger] columns[k];
            &&& 0 <= x < n
            &&& tones[k].level == image.gray@[(image.height - 1 - row) * image.width + x]
            &&& tones[k].level > 2
            &&& clear_middle ==> x - image.width as int / 2 > 1 || x - image.width as int / 2 < -1
        } by {
            if k < held.len() {
                assert(columns[k] == held[k]);
                assert(tones[k] == before[k]);
            }
        }
    }
}

/// The rows of an image go out from the last to the first: the grey of a sent
/// pixel is that of the image as many rows from the bottom as it is from the
/// start of the transmission.
pub proof fn pictures_go_out_bottom_row_first(image: TxImage, row: int, x: int)
    requires
        0 <= row < image.height,
        0 <= x < image.width,
    ensures
        image.sent_pixel(row, x) == image.gray@[(image.height - 1 - row) * image.width + x],
        row == 0 ==> image.sent_pixel(row, x) == image.gray@[image.height * image.width
            - image.width + x],
        row == image.height - 1 ==> image.sent_pixel(row, x) == image.gray@[x],
{
    let h = image.height as int;
    let w = image.width as int;
    assert((h - 1) * w == h * w - w && (h - 1 - (h - 1)) * w == 0) by (nonlinear_arith);
}

/// The level of a row is that of its loudest tone; without tones it is zero.
pub proof fn row_level_is_the_loudest(tones: Seq<Tone>, k: int)
    ensures
        tones.len() == 0 ==> row_level(tones) == 0,
        0 <= k < tones.len() ==> tones[k].level <= row_level(tones),
        tones.len() > 0 && row_level(tones) > 0 ==> exists|j: int|
            0 <= j < tones.len() && (#[trigger] tones[j]).level == row_level(tones),
    decreases tones.len(),
{
    if tones.len() > 0 {
        let front = tones.drop_last();
        row_level_is_the_loudest(front, k);
        if tones.last().level > row_level(front) {
            assert(tones[tones.len() - 1].level == row_level(tones));
        } else if row_level(front) > 0 {
            let j = choose|j: int|
                0 <= j < front.len() && (#[trigger] front[j]).level == row_level(front);
            assert(tones[j].level == row_level(tones));
        }
    }
}

/// The transform of a row is the smallest power of two with a bin for each
/// pixel, and at least 512.
pub proof fn row_transforms_fit_the_row(fft_size: int, width: int)
    requires
        is_row_fft(fft_size, width),
    ensures
        exists|k: nat| fft_size == #[trigger] vstd::arithmetic::power2::pow2(k),
        fft_size >= width,
        fft_size >= 512,
        fft_size > 512 ==> fft_size / 2 < width,
{
    let p = choose|p: int|
        #[trigger] is_power_above(p, width) && fft_size == if p > 512 {
            p
        } else {
            512
        };
    vstd::arithmetic::power2::lemma2_to64();
    if p <= 512 {
        assert(512 == vstd::arithmetic::power2::pow2(9));
    }
}

/// A row lasts as long as was asked for, but at least one transform and at most
/// 256 of them.
pub proof fn rows_last_as_long_as_asked(requested: int, fft_size: int)
    requires
        0 < fft_size,
    ensures
        fft_size <= row_samples(requested, fft_size) <= 256 * fft_size,
        fft_size <= requested <= 256 * fft_size ==> row_samples(requested, fft_size) == requested,
        requested < fft_size ==> row_samples(requested, fft_size) == fft_size,
        requested > 256 * fft_size ==> row_samples(requested, fft_size) == 256 * fft_size,
{
}

} // verus!
