//! What the user interface shows and asks for.
//!
//! Frequencies, gains and levels are real numbers that are carried along, the
//! former of type `F`, the latter of type `D`.

use crate::spectrum::{fft_size_for, is_power_above, clamped_size};
use crate::text::{decimal, push_decimal, push_signed_decimal, signed_decimal};
use vstd::prelude::*;
use vstd::string::StringExecFns;

verus! {

/// Size of the transform to begin with.
pub const DEFAULT_FFT_SIZE: usize = 8192;

/// Rows of the waterfall.
pub const WATERFALL_ROWS: usize = 96;

/// The state that the radio and the user interface share.
pub struct SdrUiState<F, D> {
    pub status: String,
    pub detail: String,
    pub device: String,
    pub center_hz: F,
    pub bandwidth_hz: F,
    pub sample_rate: F,
    pub gain_db: F,
    /// Counts the tunings asked for.
    pub config_revision: u64,
    /// The tuning that the radio has.
    pub applied_revision: u64,
    pub opened: bool,
    pub streaming: bool,
    pub fft_size: usize,
    pub fft_fps: D,
    pub fft_smoothing: D,
    /// Counts the transform settings asked for.
    pub fft_revision: u64,
    /// The transform settings in use.
    pub applied_fft_revision: u64,
    pub spectrum_db: Vec<D>,
    /// Spectra, the newest last.
    pub waterfall: Vec<Vec<D>>,
    pub frames: u64,
    /// Counts the flowgraphs asked for.
    pub graph_revision: u64,
    /// The flowgraph that runs.
    pub applied_graph_revision: u64,
    /// Counts the transmissions asked for.
    pub tx_revision: u64,
    pub tx_enabled: bool,
    pub tx_transmitting: bool,
    pub user_stopped: bool,
    pub user_paused: bool,
    pub rx_channel: usize,
    pub tx_channel: usize,
}

/// The status of a radio that is open.
pub open spec fn open_status(streaming: bool) -> Seq<char> {
    if streaming {
        "Streaming"@
    } else {
        "B210 opened"@
    }
}

fn resumed(streaming: bool) -> (status: String)
    ensures
        status@ == open_status(streaming),
{
    if streaming {
        "Streaming".to_string()
    } else {
        "B210 opened".to_string()
    }
}

/// The detail shown while the end of an image is sent.
pub open spec fn flushing_detail() -> Seq<char> {
    "TX image complete; flushing burst"@
}

/// What is shown of a transmission that is over: the end of an image is no
/// longer being sent.
pub open spec fn settled_detail(detail: Seq<char>) -> Seq<char> {
    if detail == flushing_detail() {
        "TX image complete"@
    } else {
        detail
    }
}

/// The waterfall after a spectrum was added: at most 96 of the newest rows.
pub open spec fn waterfall_after<D>(rows: Seq<Vec<D>>, spectrum: Vec<D>) -> Seq<Vec<D>> {
    let all = rows.push(spectrum);
    if all.len() > 96 {
        all.skip(all.len() - 96)
    } else {
        all
    }
}

impl<F: Copy, D: Copy> SdrUiState<F, D> {
    /// The state before a radio was found.
    pub fn new(
        center_hz: F,
        bandwidth_hz: F,
        sample_rate: F,
        gain_db: F,
        fft_fps: D,
        fft_smoothing: D,
        floor_db: D,
    ) -> (state: Self)
        ensures
            state.status@ == "Waiting for B210"@,
            state.detail@ == "Attach USRP B210 and grant USB permission"@,
            state.device@ == "\u{2014}"@,
            state.center_hz == center_hz,
            state.bandwidth_hz == bandwidth_hz,
            state.sample_rate == sample_rate,
            state.gain_db == gain_db,
            state.config_revision == 0,
            state.applied_revision == 0,
            !state.opened,
            !state.streaming,
            state.fft_size == 8192,
            state.fft_fps == fft_fps,
            state.fft_smoothing == fft_smoothing,
            state.fft_revision == 0,
            state.applied_fft_revision == 0,
            state.spectrum_db@ == Seq::new(8192, |i: int| floor_db),
            state.waterfall@.len() == 0,
            state.frames == 0,
            state.graph_revision == 0,
            state.applied_graph_revision == 0,
            state.tx_revision == 0,
            !state.tx_enabled,
            !state.tx_transmitting,
            !state.user_stopped,
            !state.user_paused,
            state.rx_channel == 0,
            state.tx_channel == 0,
    {
        let spectrum_db = filled(floor_db, DEFAULT_FFT_SIZE);
        SdrUiState {
            status: "Waiting for B210".to_string(),
            detail: "Attach USRP B210 and grant USB permission".to_string(),
            device: "\u{2014}".to_string(),
            center_hz,
            bandwidth_hz,
            sample_rate,
            gain_db,
            config_revision: 0,
            applied_revision: 0,
            opened: false,
            streaming: false,
            fft_size: DEFAULT_FFT_SIZE,
            fft_fps,
            fft_smoothing,
            fft_revision: 0,
            applied_fft_revision: 0,
            spectrum_db,
            waterfall: Vec::new(),
            frames: 0,
            graph_revision: 0,
            applied_graph_revision: 0,
            tx_revision: 0,
            tx_enabled: false,
            tx_transmitting: false,
            user_stopped: false,
            user_paused: false,
            rx_channel: 0,
            tx_channel: 0,
        }
    }

    /// A descriptor was obtained: the radio is being opened.
    pub fn opening(&mut self, fd: i32)
        ensures
            final(self).status@ == "Opening B210"@,
            final(self).detail@ == "Got Android USB fd="@ + signed_decimal(fd as int)
                + "; initializing UHD"@,
            *final(self) == (SdrUiState {
                status: final(self).status,
                detail: final(self).detail,
                ..*old(self)
            }),
    {
        self.status = "Opening B210".to_string();
        let mut detail = "Got Android USB fd=".to_string();
        push_signed_decimal(&mut detail, fd as i64);
        detail.append("; initializing UHD");
        self.detail = detail;
    }

    /// The radio was opened.
    pub fn radio_opened(&mut self, name: String, rx: usize, tx: usize)
        ensures
            final(self).status@ == "B210 opened"@,
            final(self).detail@ == name@ + ": RX="@ + decimal(rx as nat) + ", TX="@ + decimal(
                tx as nat,
            ),
            final(self).device@ == name@,
            *final(self) == (SdrUiState {
                status: final(self).status,
                detail: final(self).detail,
                device: final(self).device,
                opened: true,
                ..*old(self)
            }),
    {
        self.status = "B210 opened".to_string();
        let mut detail = name.clone();
        detail.append(": RX=");
        push_decimal(&mut detail, rx as u64);
        detail.append(", TX=");
        push_decimal(&mut detail, tx as u64);
        self.detail = detail;
        self.device = name;
        self.opened = true;
    }

    /// The radio could not be opened.
    pub fn open_failed(&mut self, reason: String)
        ensures
            final(self).status@ == "Waiting for B210"@,
            *final(self) == (SdrUiState {
                status: final(self).status,
                detail: reason,
                opened: false,
                streaming: false,
                ..*old(self)
            }),
    {
        self.status = "Waiting for B210".to_string();
        self.detail = reason;
        self.opened = false;
        self.streaming = false;
    }

    /// There is no descriptor to open a radio on.
    pub fn no_descriptor(&mut self)
        ensures
            final(self).status@ == "Waiting for B210"@,
            final(self).detail@ == "No B210 fd available"@,
            *final(self) == (SdrUiState {
                status: final(self).status,
                detail: final(self).detail,
                ..*old(self)
            }),
    {
        self.status = "Waiting for B210".to_string();
        self.detail = "No B210 fd available".to_string();
    }

    /// Reception failed: the spectrum falls to `floor_db` and the waterfall is
    /// cleared.
    pub fn reception_failed(&mut self, reason: &str, floor_db: D)
        ensures
            final(self).status@ == "B210 opened; RX stream failed"@,
            final(self).detail@ == "No live samples: "@ + reason@,
            final(self).spectrum_db@ == Seq::new(old(self).spectrum_db@.len(), |i: int| floor_db),
            final(self).waterfall@.len() == 0,
            *final(self) == (SdrUiState {
                status: final(self).status,
                detail: final(self).detail,
                streaming: false,
                spectrum_db: final(self).spectrum_db,
                waterfall: final(self).waterfall,
                ..*old(self)
            }),
    {
        self.status = "B210 opened; RX stream failed".to_string();
        let mut detail = "No live samples: ".to_string();
        detail.append(reason);
        self.detail = detail;
        self.streaming = false;
        self.spectrum_db = filled(floor_db, self.spectrum_db.len());
        self.waterfall = Vec::new();
    }

    /// A flowgraph's source failed to receive.
    pub fn source_failed(&mut self, reason: &str)
        ensures
            final(self).status@ == "B210 opened; RX stream failed"@,
            final(self).detail@ == "No live samples: "@ + reason@,
            *final(self) == (SdrUiState {
                status: final(self).status,
                detail: final(self).detail,
                streaming: false,
                ..*old(self)
            }),
    {
        self.status = "B210 opened; RX stream failed".to_string();
        let mut detail = "No live samples: ".to_string();
        detail.append(reason);
        self.detail = detail;
        self.streaming = false;
    }

    /// Reception has begun.
    pub fn reception_started(&mut self)
        ensures
            final(self).status@ == "Streaming"@,
            final(self).detail@ == "UHD RX stream active"@,
            *final(self) == (SdrUiState {
                status: final(self).status,
                detail: final(self).detail,
                streaming: true,
                ..*old(self)
            }),
    {
        self.status = "Streaming".to_string();
        self.detail = "UHD RX stream active".to_string();
        self.streaming = true;
    }

    /// A flowgraph's source has begun to receive.
    pub fn source_started(&mut self)
        ensures
            final(self).status@ == "Streaming"@,
            final(self).detail@ == "FutureSDR UHD source active"@,
            *final(self) == (SdrUiState {
                status: final(self).status,
                detail: final(self).detail,
                streaming: true,
                ..*old(self)
            }),
    {
        self.status = "Streaming".to_string();
        self.detail = "FutureSDR UHD source active".to_string();
        self.streaming = true;
    }

    /// Reception stops for another tuning.
    pub fn retuning(&mut self)
        ensures
            final(self).status@ == "Retuning"@,
            *final(self) == (SdrUiState {
                status: final(self).status,
                streaming: false,
                ..*old(self)
            }),
    {
        self.streaming = false;
        self.status = "Retuning".to_string();
    }

    /// A tuning is about to be applied.
    pub fn configuring(&mut self, detail: String)
        ensures
            final(self).status@ == "Configuring RX"@,
            *final(self) == (SdrUiState {
                status: final(self).status,
                detail,
                ..*old(self)
            }),
    {
        self.status = "Configuring RX".to_string();
        self.detail = detail;
    }

    /// Tuning `revision` was applied at a sample rate.
    pub fn configured(&mut self, sample_rate: F, revision: u64, detail: String)
        ensures
            final(self).status@ == open_status(old(self).streaming),
            *final(self) == (SdrUiState {
                status: final(self).status,
                detail,
                sample_rate,
                applied_revision: revision,
                ..*old(self)
            }),
    {
        self.sample_rate = sample_rate;
        self.applied_revision = revision;
        self.status = resumed(self.streaming);
        self.detail = detail;
    }

    /// Another tuning is asked for; the sample rate goes with the bandwidth.
    pub fn tune(&mut self, center_hz: F, bandwidth_hz: F, gain_db: F, detail: String)
        ensures
            *final(self) == (SdrUiState {
                center_hz,
                bandwidth_hz,
                sample_rate: bandwidth_hz,
                gain_db,
                config_revision: old(self).config_revision.wrapping_add(1),
                detail,
                ..*old(self)
            }),
    {
        self.center_hz = center_hz;
        self.bandwidth_hz = bandwidth_hz;
        self.sample_rate = bandwidth_hz;
        self.gain_db = gain_db;
        self.config_revision = self.config_revision.wrapping_add(1);
        self.detail = detail;
    }

    /// Another transform is asked for: the size is made a power of two within
    /// limits.
    pub fn set_fft(&mut self, fft_size: usize, fft_fps: D, fft_smoothing: D, detail: String)
        ensures
            is_power_above(final(self).fft_size as int, clamped_size(fft_size as int)),
            *final(self) == (SdrUiState {
                fft_size: final(self).fft_size,
                fft_fps,
                fft_smoothing,
                fft_revision: old(self).fft_revision.wrapping_add(1),
                detail,
                ..*old(self)
            }),
    {
        self.fft_size = fft_size_for(fft_size);
        self.fft_fps = fft_fps;
        self.fft_smoothing = fft_smoothing;
        self.fft_revision = self.fft_revision.wrapping_add(1);
        self.detail = detail;
    }

    /// A transform of `size` bins is in use: the spectrum is cut or filled up
    /// with `floor_db`, and the waterfall is cleared.
    pub fn fft_applied(&mut self, size: usize, revision: u64, floor_db: D, detail: String)
        ensures
            final(self).spectrum_db@ == resized(old(self).spectrum_db@, size as nat, floor_db),
            final(self).waterfall@.len() == 0,
            *final(self) == (SdrUiState {
                applied_fft_revision: revision,
                spectrum_db: final(self).spectrum_db,
                waterfall: final(self).waterfall,
                detail,
                ..*old(self)
            }),
    {
        self.applied_fft_revision = revision;
        self.spectrum_db = resize(self.spectrum_db.as_slice(), size, floor_db);
        self.waterfall = Vec::new();
        self.detail = detail;
    }

    /// Shows a spectrum and adds it to the waterfall.
    pub fn publish(&mut self, spectrum: Vec<D>)
        requires
            old(self).frames < u64::MAX,
        ensures
            final(self).spectrum_db@ == spectrum@,
            final(self).waterfall@ == waterfall_after(old(self).waterfall@, spectrum),
            *final(self) == (SdrUiState {
                spectrum_db: final(self).spectrum_db,
                waterfall: final(self).waterfall,
                frames: (old(self).frames + 1) as u64,
                ..*old(self)
            }),
    {
        let len: usize = spectrum.len();
        let mut shown: Vec<D> = Vec::with_capacity(len);
        for i in 0..len
            invariant
                len == spectrum@.len(),
                shown@ =~= spectrum@.take(i as int),
        {
            shown.push(spectrum[i]);
        }
        assert(shown@ =~= spectrum@);
        self.spectrum_db = shown;
        let ghost rows = self.waterfall@;
        self.waterfall.push(spectrum);
        let ghost all = self.waterfall@;
        let total: usize = self.waterfall.len();
        if total > WATERFALL_ROWS {
            let extra: usize = total - WATERFALL_ROWS;
            for n in 0..extra
                invariant
                    total == all.len(),
                    extra == total - 96,
                    self.waterfall@ =~= all.skip(n as int),
                    *self == (SdrUiState {
                        spectrum_db: self.spectrum_db,
                        waterfall: self.waterfall,
                        ..*old(self)
                    }),
                    self.spectrum_db@ == spectrum@,
            {
                self.waterfall.remove(0);
            }
        }
        self.frames = self.frames + 1;
    }

    /// A flowgraph is about to run; tells whether it is to transmit.
    pub fn graph_started(&mut self) -> (transmit: bool)
        ensures
            transmit == old(self).tx_enabled,
            *final(self) == (SdrUiState {
                applied_graph_revision: old(self).graph_revision,
                ..*old(self)
            }),
    {
        self.applied_graph_revision = self.graph_revision;
        self.tx_enabled
    }

    /// An image was turned into so many samples.
    pub fn image_prepared(&mut self, samples: usize)
        ensures
            final(self).detail@ == "Generated "@ + decimal(samples as nat)
                + " TX samples from image"@,
            *final(self) == (SdrUiState {
                detail: final(self).detail,
                ..*old(self)
            }),
    {
        let mut detail = "Generated ".to_string();
        push_decimal(&mut detail, samples as u64);
        detail.append(" TX samples from image");
        self.detail = detail;
    }

    /// An image could not be turned into samples: transmission is called off.
    pub fn image_failed(&mut self, reason: &str)
        ensures
            final(self).detail@ == "Could not prepare TX image: "@ + reason@,
            *final(self) == (SdrUiState {
                detail: final(self).detail,
                tx_enabled: false,
                tx_transmitting: false,
                ..*old(self)
            }),
    {
        self.tx_enabled = false;
        self.tx_transmitting = false;
        let mut detail = "Could not prepare TX image: ".to_string();
        detail.append(reason);
        self.detail = detail;
    }

    /// The last sample of an image was handed on; its end is still to be sent.
    pub fn image_complete(&mut self)
        ensures
            final(self).status@ == open_status(old(self).streaming),
            final(self).detail@ == flushing_detail(),
            *final(self) == (SdrUiState {
                status: final(self).status,
                detail: final(self).detail,
                tx_enabled: false,
                tx_transmitting: true,
                ..*old(self)
            }),
    {
        self.tx_enabled = false;
        self.tx_transmitting = true;
        self.status = resumed(self.streaming);
        self.detail = "TX image complete; flushing burst".to_string();
    }

    /// Samples are being sent.
    pub fn transmitting(&mut self)
        ensures
            final(self).status@ == "Transmitting"@,
            *final(self) == (SdrUiState {
                status: final(self).status,
                tx_transmitting: true,
                ..*old(self)
            }),
    {
        self.tx_transmitting = true;
        self.status = "Transmitting".to_string();
    }

    /// Transmission is over.
    pub fn transmission_over(&mut self)
        ensures
            final(self).status@ == open_status(old(self).streaming),
            final(self).detail@ == settled_detail(old(self).detail@),
            *final(self) == (SdrUiState {
                status: final(self).status,
                detail: final(self).detail,
                tx_transmitting: false,
                ..*old(self)
            }),
    {
        self.tx_transmitting = false;
        self.status = resumed(self.streaming);
        let flushing = "TX image complete; flushing burst".to_string();
        if self.detail == flushing {
            self.detail = "TX image complete".to_string();
        }
    }

    /// Samples could not be sent: transmission is called off.
    pub fn transmission_failed(&mut self, reason: &str)
        ensures
            final(self).status@ == "B210 opened; TX failed"@,
            final(self).detail@ == "TX send failed: "@ + reason@,
            *final(self) == (SdrUiState {
                status: final(self).status,
                detail: final(self).detail,
                tx_enabled: false,
                tx_transmitting: false,
                ..*old(self)
            }),
    {
        self.tx_enabled = false;
        self.tx_transmitting = false;
        self.status = "B210 opened; TX failed".to_string();
        let mut detail = "TX send failed: ".to_string();
        detail.append(reason);
        self.detail = detail;
    }

    /// The transmitter was shut down.
    pub fn transmitter_closed(&mut self)
        ensures
            *final(self) == (SdrUiState {
                tx_transmitting: false,
                ..*old(self)
            }),
    {
        self.tx_transmitting = false;
    }

    /// Tuning `revision` was applied while receiving; it is shown unless another
    /// was asked for meanwhile.
    pub fn hot_tuned(&mut self, revision: u64, bandwidth_hz: F, detail: String)
        ensures
            if revision == old(self).config_revision {
                &&& final(self).status@ == "Streaming"@
                &&& *final(self) == (SdrUiState {
                    status: final(self).status,
                    detail,
                    bandwidth_hz,
                    applied_revision: revision,
                    ..*old(self)
                })
            } else {
                *final(self) == *old(self)
            },
    {
        if self.config_revision == revision {
            self.bandwidth_hz = bandwidth_hz;
            self.applied_revision = revision;
            self.status = "Streaming".to_string();
            self.detail = detail;
        }
    }

    /// Whether another tuning was asked for than the radio has.
    pub fn needs_reconfig(&self) -> (b: bool)
        ensures
            b == (self.config_revision != self.applied_revision),
    {
        self.config_revision != self.applied_revision
    }

    /// The transform that is asked for: its size and the number of the request.
    pub fn fft_request(&self) -> (r: (usize, u64))
        ensures
            is_power_above(r.0 as int, clamped_size(self.fft_size as int)),
            r.1 == self.fft_revision,
    {
        (fft_size_for(self.fft_size), self.fft_revision)
    }
}

/// A sequence cut or filled up to a length.
pub open spec fn resized<D>(values: Seq<D>, len: nat, filler: D) -> Seq<D> {
    Seq::new(
        len,
        |i: int|
            if i < values.len() {
                values[i]
            } else {
                filler
            },
    )
}

fn filled<D: Copy>(value: D, len: usize) -> (r: Vec<D>)
    ensures
        r@ == Seq::new(len as nat, |i: int| value),
{
    let mut r: Vec<D> = Vec::with_capacity(len);
    for i in 0..len
        invariant
            r@ =~= Seq::new(i as nat, |k: int| value),
    {
        r.push(value);
    }
    r
}

fn resize<D: Copy>(values: &[D], len: usize, filler: D) -> (r: Vec<D>)
    ensures
        r@ == resized(values@, len as nat, filler),
{
    let mut r: Vec<D> = Vec::with_capacity(len);
    for i in 0..len
        invariant
            r@ =~= resized(values@, len as nat, filler).take(i as int),
    {
        r.push(
            if i < values.len() {
                values[i]
            } else {
                filler
            },
        );
    }
    r
}

/// The waterfall keeps within its rows and ends with the newest spectrum.
pub proof fn waterfall_keeps_the_newest<D>(rows: Seq<Vec<D>>, spectrum: Vec<D>)
    ensures
        0 < waterfall_after(rows, spectrum).len() <= 96,
        waterfall_after(rows, spectrum).last() == spectrum,
        rows.len() < 96 ==> waterfall_after(rows, spectrum).len() == rows.len() + 1,
{
}

/// A tuning that is asked for is pending until it is applied.
pub proof fn tuning_is_pending_until_applied(config_revision: u64, applied_revision: u64)
    requires
        applied_revision == config_revision,
    ensures
        config_revision.wrapping_add(1) != applied_revision,
{
}

/// Puts a descriptor aside for the next attempt to open the radio.
pub fn set_b210_fd(slot: &mut Option<i32>, fd: i32)
    ensures
        *final(slot) == Some(fd),
{
    *slot = Some(fd);
}

/// Takes the descriptor that was put aside, if there is one.
pub fn take_b210_fd(slot: &mut Option<i32>) -> (fd: Option<i32>)
    ensures
        fd == *old(slot),
        *final(slot) is None,
{
    slot.take()
}

/// The pages of the user interface.
#[derive(Clone, Copy, PartialEq, Eq, Structural, Debug)]
pub enum UiTab {
    Radio,
    Fft,
}

/// The page that is shown after the tabs were drawn.
pub fn chosen_tab(active: UiTab, radio_clicked: bool, fft_clicked: bool) -> (tab: UiTab)
    ensures
        tab == if fft_clicked {
            UiTab::Fft
        } else if radio_clicked {
            UiTab::Radio
        } else {
            active
        },
{
    if fft_clicked {
        UiTab::Fft
    } else if radio_clicked {
        UiTab::Radio
    } else {
        active
    }
}

/// How well the radio is doing.
#[derive(Clone, Copy, PartialEq, Eq, Structural, Debug)]
pub enum Health {
    /// It streams.
    Good,
    /// It is open.
    Fair,
    /// There is none.
    Bad,
}

impl<F, D> SdrUiState<F, D> {
    /// Tells how well the radio is doing.
    pub fn health(&self) -> (health: Health)
        ensures
            health == if self.streaming {
                Health::Good
            } else if self.opened {
                Health::Fair
            } else {
                Health::Bad
            },
    {
        if self.streaming {
            Health::Good
        } else if self.opened {
            Health::Fair
        } else {
            Health::Bad
        }
    }

    /// Whether there is a spectrum to show.
    pub fn shows_spectrum(&self) -> (b: bool)
        ensures
            b == (self.streaming && self.frames > 0),
    {
        self.streaming && self.frames > 0
    }

    /// Whether there is a waterfall to show.
    pub fn shows_waterfall(&self) -> (b: bool)
        ensures
            b == (self.streaming && self.waterfall@.len() > 0),
    {
        self.streaming && self.waterfall.len() > 0
    }

    /// How many frames the waterfall claims: at least its rows, and one.
    pub fn waterfall_frames(&self) -> (n: u64)
        ensures
            n == if self.frames > self.waterfall@.len() && self.frames > 1 {
                self.frames as int
            } else if self.waterfall@.len() > 1 {
                self.waterfall@.len() as int
            } else {
                1
            },
    {
        let rows: u64 = if self.waterfall.len() > 1 {
            self.waterfall.len() as u64
        } else {
            1
        };
        if self.frames > rows {
            self.frames
        } else {
            rows
        }
    }

    /// Whether reception is live, in words.
    pub fn reception_label(&self) -> (label: &'static str)
        ensures
            label@ == if self.streaming {
                "RX: live UHD"@
            } else {
                "RX: preview"@
            },
    {
        if self.streaming {
            "RX: live UHD"
        } else {
            "RX: preview"
        }
    }

    /// The tuning that the radio has and the one asked for.
    pub fn tuning_label(&self) -> (label: String)
        ensures
            label@ == revision_label(self.applied_revision, self.config_revision),
    {
        label_of(self.applied_revision, self.config_revision)
    }

    /// The transform that is in use and the one asked for.
    pub fn fft_label(&self) -> (label: String)
        ensures
            label@ == revision_label(self.applied_fft_revision, self.fft_revision),
    {
        label_of(self.applied_fft_revision, self.fft_revision)
    }
}

/// A request that was met and the last one made.
pub open spec fn revision_label(applied: u64, requested: u64) -> Seq<char> {
    "rev "@ + decimal(applied as nat) + "/"@ + decimal(requested as nat)
}

fn label_of(applied: u64, requested: u64) -> (label: String)
    ensures
        label@ == revision_label(applied, requested),
{
    let mut label = "rev ".to_string();
    push_decimal(&mut label, applied);
    label.append("/");
    push_decimal(&mut label, requested);
    label
}

/// The waterfall keeps the newest rows in order: the row that many before the
/// last is the one that many before it was added.
pub proof fn waterfall_keeps_its_order<D>(rows: Seq<Vec<D>>, spectrum: Vec<D>, age: int)
    requires
        1 <= age <= rows.len(),
        age < 96,
    ensures
        ({
            let after = waterfall_after(rows, spectrum);
            &&& age < after.len()
            &&& after[after.len() - 1 - age] == rows[rows.len() - age]
        }),
{
}

/// A spectrum of another size keeps what it can: its bins as far as there are
/// places, and the filler in the rest.
pub proof fn resizing_keeps_what_fits<D>(values: Seq<D>, len: nat, filler: D, i: int)
    requires
        0 <= i < len,
    ensures
        resized(values, len, filler).len() == len,
        i < values.len() ==> resized(values, len, filler)[i] == values[i],
        i >= values.len() ==> resized(values, len, filler)[i] == filler,
{
}

/// A radio that is open streams or does not; once the end of an image was sent,
/// that is what is shown of it, and any other detail stays.
pub proof fn transmissions_leave_their_mark(detail: Seq<char>)
    ensures
        open_status(true) == "Streaming"@,
        open_status(false) == "B210 opened"@,
        detail == "TX image complete; flushing burst"@ ==> settled_detail(detail)
            == "TX image complete"@,
        detail != "TX image complete; flushing burst"@ ==> settled_detail(detail) == detail,
        flushing_detail() == "TX image complete; flushing burst"@,
{
}

/// A label shows the request that was met before the last one made, both in
/// decimal.
pub proof fn labels_show_both_requests(applied: u64, requested: u64)
    ensures
        revision_label(applied, requested) == "rev "@ + (decimal(applied as nat) + ("/"@ + decimal(
            requested as nat,
        ))),
        decimal(requested as nat).is_suffix_of(revision_label(applied, requested)),
{
    let label = revision_label(applied, requested);
    let tail = decimal(requested as nat);
    assert(label =~= "rev "@ + (decimal(applied as nat) + ("/"@ + tail)));
    assert(label.subrange(label.len() - tail.len(), label.len() as int) =~= tail);
}

} // verus!
