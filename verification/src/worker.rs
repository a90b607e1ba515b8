//! The worker that opens the radio and keeps it streaming.

use crate::futuresdr_backend::taken_samples;
use crate::text::{decimal, signed_decimal};
use crate::ui_state::{open_status, take_b210_fd, SdrUiState};
use vstd::prelude::*;

verus! {

/// A latch that only one can hold at a time.
#[derive(Clone, Copy, PartialEq, Eq, Structural, Debug)]
pub struct Latch {
    pub held: bool,
}

impl Latch {
    /// A latch that nobody holds.
    pub fn new() -> (latch: Self)
        ensures
            !latch.held,
    {
        Latch { held: false }
    }

    /// Takes the latch; tells whether it was free.
    pub fn enter(&mut self) -> (admitted: bool)
        ensures
            admitted == !old(self).held,
            final(self).held,
    {
        let admitted = !self.held;
        self.held = true;
        admitted
    }

    /// Frees the latch.
    pub fn leave(&mut self)
        ensures
            !final(self).held,
    {
        self.held = false;
    }
}

/// How an attempt to open the radio goes.
pub enum OpenEvent {
    /// It is to begin.
    Begin,
    /// USB was opened: the descriptor, if there is one.
    UsbOpened(Option<i32>),
    /// The radio was opened: its name and how many channels it has to receive
    /// and to transmit.
    Opened(String, usize, usize),
    /// It could not be opened, for a reason.
    Failed(String),
    /// The USB connection was closed.
    Closed,
}

/// What an attempt to open the radio does next.
#[derive(Clone, Copy, PartialEq, Eq, Structural, Debug)]
pub enum OpenAction {
    /// Nothing: another attempt is under way.
    Busy,
    /// Open USB for a descriptor.
    OpenUsb,
    /// Open the radio on this descriptor.
    InitRadio(i32),
    /// Close the USB connection.
    CloseUsb,
    /// The attempt is over without a radio.
    GiveUp,
    /// The attempt is over: the radio is open and can stream.
    Stream,
}

/// What an attempt does next, where the latch is `held` and a descriptor may be
/// `stored`: only one attempt is made at a time, a stored descriptor comes
/// before USB, and the USB connection is closed where the radio cannot be
/// opened.
pub open spec fn next_action(event: OpenEvent, held: bool, stored: Option<i32>) -> OpenAction {
    match event {
        OpenEvent::Begin => if held {
            OpenAction::Busy
        } else {
            match stored {
                Some(fd) => OpenAction::InitRadio(fd),
                None => OpenAction::OpenUsb,
            }
        },
        OpenEvent::UsbOpened(Some(fd)) => OpenAction::InitRadio(fd),
        OpenEvent::UsbOpened(None) => OpenAction::GiveUp,
        OpenEvent::Opened(_, _, _) => OpenAction::Stream,
        OpenEvent::Failed(_) => OpenAction::CloseUsb,
        OpenEvent::Closed => OpenAction::GiveUp,
    }
}

/// Whether the latch is held after an event: from the beginning of an attempt
/// until it is over.
pub open spec fn held_after(event: OpenEvent, held: bool) -> bool {
    match event {
        OpenEvent::Begin => true,
        OpenEvent::UsbOpened(Some(_)) => held,
        OpenEvent::UsbOpened(None) => false,
        OpenEvent::Opened(_, _, _) => false,
        OpenEvent::Failed(_) => held,
        OpenEvent::Closed => false,
    }
}

/// While an attempt has the latch, it is freed just when the attempt is over.
pub proof fn latch_is_held_until_the_end(event: OpenEvent, stored: Option<i32>)
    requires
        event !is Begin,
    ensures
        held_after(event, true) <==> !(next_action(event, true, stored) is GiveUp || next_action(
            event,
            true,
            stored,
        ) is Stream),
{
}

/// Whether `after` shows an event that came in state `before`; what is shown
/// changes with the action.
pub open spec fn is_shown<F, D>(
    before: SdrUiState<F, D>,
    after: SdrUiState<F, D>,
    event: OpenEvent,
    action: OpenAction,
) -> bool {
    match (action, event) {
        (OpenAction::InitRadio(fd), _) => {
            &&& after.status@ == "Opening B210"@
            &&& after.detail@ == "Got Android USB fd="@ + signed_decimal(fd as int)
                + "; initializing UHD"@
            &&& after == (SdrUiState { status: after.status, detail: after.detail, ..before })
        },
        (_, OpenEvent::UsbOpened(None)) => {
            &&& after.status@ == "Waiting for B210"@
            &&& after.detail@ == "No B210 fd available"@
            &&& after == (SdrUiState { status: after.status, detail: after.detail, ..before })
        },
        (_, OpenEvent::Opened(name, rx, tx)) => {
            &&& after.status@ == "B210 opened"@
            &&& after.detail@ == name@ + ": RX="@ + decimal(rx as nat) + ", TX="@ + decimal(
                tx as nat,
            )
            &&& after.device@ == name@
            &&& after == (SdrUiState {
                status: after.status,
                detail: after.detail,
                device: after.device,
                opened: true,
                ..before
            })
        },
        (_, OpenEvent::Failed(reason)) => {
            &&& after.status@ == "Waiting for B210"@
            &&& after == (SdrUiState {
                status: after.status,
                detail: reason,
                opened: false,
                streaming: false,
                ..before
            })
        },
        _ => after == before,
    }
}

/// Takes an attempt to open the radio further, and shows how it goes. An
/// attempt takes the latch, and the descriptor that is stored, when it begins;
/// the latch is freed when it is over.
pub fn try_open_b210_once<F: Copy, D: Copy>(
    state: &mut SdrUiState<F, D>,
    latch: &mut Latch,
    stored: &mut Option<i32>,
    event: OpenEvent,
) -> (action: OpenAction)
    ensures
        action == next_action(event, old(latch).held, *old(stored)),
        final(latch).held == held_after(event, old(latch).held),
        *final(stored) == if event is Begin && !old(latch).held {
            None
        } else {
            *old(stored)
        },
        is_shown(*old(state), *final(state), event, action),
{
    match event {
        OpenEvent::Begin => {
            if !latch.enter() {
                return OpenAction::Busy;
            }
            match take_b210_fd(stored) {
                Some(fd) => {
                    state.opening(fd);
                    OpenAction::InitRadio(fd)
                },
                None => OpenAction::OpenUsb,
            }
        },
        OpenEvent::UsbOpened(Some(fd)) => {
            state.opening(fd);
            OpenAction::InitRadio(fd)
        },
        OpenEvent::UsbOpened(None) => {
            state.no_descriptor();
            latch.leave();
            OpenAction::GiveUp
        },
        OpenEvent::Opened(name, rx, tx) => {
            state.radio_opened(name, rx, tx);
            latch.leave();
            OpenAction::Stream
        },
        OpenEvent::Failed(reason) => {
            state.open_failed(reason);
            OpenAction::CloseUsb
        },
        OpenEvent::Closed => {
            latch.leave();
            OpenAction::GiveUp
        },
    }
}

/// What the worker does after an attempt to open the radio.
#[derive(Clone, Copy, PartialEq, Eq, Structural, Debug)]
pub enum WorkerStep {
    /// Stream from the radio.
    Stream,
    /// Wait a little and try again.
    Retry,
    /// Keep the radio open and do nothing more.
    Park,
}

/// Decides what the worker does: it streams from a radio that is open, tries
/// again where there is none, and keeps a radio whose stream failed.
pub fn start_sdr_worker(opened: bool, stream_failed: bool) -> (step: WorkerStep)
    ensures
        step == if !opened {
            WorkerStep::Retry
        } else if stream_failed {
            WorkerStep::Park
        } else {
            WorkerStep::Stream
        },
{
    if !opened {
        WorkerStep::Retry
    } else if stream_failed {
        WorkerStep::Park
    } else {
        WorkerStep::Stream
    }
}

/// What is done before samples are received.
#[derive(Clone, Copy, PartialEq, Eq, Structural, Debug)]
pub enum StreamStep {
    /// The stream is stopped and begun anew: another tuning was asked for.
    Restart,
    /// The transform is made anew, and samples are received.
    Refit,
    /// Samples are received.
    Receive,
}

/// What is done with received samples.
#[derive(Clone, Copy, PartialEq, Eq, Structural, Debug)]
pub enum ReceivedStep {
    /// Nothing.
    Skip,
    /// So many of them are transformed and shown.
    Publish(usize),
}

/// A stream whose samples are turned into spectra.
#[derive(Clone, Copy, PartialEq, Eq, Structural, Debug)]
pub struct SpectrumStream {
    pub fft_size: usize,
    pub applied_fft_revision: u64,
}

impl SpectrumStream {
    /// Decides what is done before samples are received, and takes over the
    /// transform that is asked for; another tuning comes first.
    pub fn configure_and_stream(
        &mut self,
        needs_reconfig: bool,
        fft_size: usize,
        fft_revision: u64,
    ) -> (step: StreamStep)
        ensures
            step == if needs_reconfig {
                StreamStep::Restart
            } else if fft_revision != old(self).applied_fft_revision {
                StreamStep::Refit
            } else {
                StreamStep::Receive
            },
            *final(self) == if step == StreamStep::Refit {
                SpectrumStream { fft_size, applied_fft_revision: fft_revision }
            } else {
                *old(self)
            },
    {
        if needs_reconfig {
            StreamStep::Restart
        } else if fft_revision != self.applied_fft_revision {
            self.fft_size = fft_size;
            self.applied_fft_revision = fft_revision;
            StreamStep::Refit
        } else {
            StreamStep::Receive
        }
    }

    /// Decides what is done with received samples: they are shown, as many as
    /// the transform takes, once a spectrum is `due`.
    pub fn received(&self, samples: usize, due: bool) -> (step: ReceivedStep)
        ensures
            step == if samples == 0 || self.fft_size == 0 || !due {
                ReceivedStep::Skip
            } else if samples < self.fft_size {
                ReceivedStep::Publish(samples)
            } else {
                ReceivedStep::Publish(self.fft_size)
            },
    {
        let n: usize = taken_samples(samples, self.fft_size);
        if n == 0 || !due {
            ReceivedStep::Skip
        } else {
            ReceivedStep::Publish(n)
        }
    }
}

/// Whether the number of spectra shown is worth a line in the log.
pub fn frames_are_logged(frames: u64) -> (b: bool)
    ensures
        b == (frames % 120 == 0),
{
    frames % 120 == 0
}

/// The tuning that is to be applied, and its number.
pub struct RxTuning<F> {
    pub center_hz: F,
    pub bandwidth_hz: F,
    pub gain_db: F,
    pub revision: u64,
}

/// Reads the tuning that is to be applied. The sample rate goes with the
/// bandwidth.
pub fn requested_tuning<F: Copy, D>(state: &SdrUiState<F, D>) -> (tuning: RxTuning<F>)
    ensures
        tuning == (RxTuning {
            center_hz: state.center_hz,
            bandwidth_hz: state.bandwidth_hz,
            gain_db: state.gain_db,
            revision: state.config_revision,
        }),
{
    RxTuning {
        center_hz: state.center_hz,
        bandwidth_hz: state.bandwidth_hz,
        gain_db: state.gain_db,
        revision: state.config_revision,
    }
}

/// Shows that a tuning was applied: it is pending no more unless another was
/// asked for meanwhile.
pub fn apply_rx_config<F: Copy, D: Copy>(
    state: &mut SdrUiState<F, D>,
    tuning: &RxTuning<F>,
    detail: String,
)
    ensures
        final(state).status@ == open_status(old(state).streaming),
        *final(state) == (SdrUiState {
            status: final(state).status,
            detail,
            sample_rate: tuning.bandwidth_hz,
            applied_revision: tuning.revision,
            ..*old(state)
        }),
{
    state.configured(tuning.bandwidth_hz, tuning.revision, detail);
}

/// Only one attempt is made at a time, and a stored descriptor comes before USB:
/// an attempt that begins while another is under way does nothing; else it
/// opens the radio on the stored descriptor, or USB where there is none.
pub proof fn stored_descriptors_come_first(held: bool, stored: Option<i32>)
    ensures
        held ==> next_action(OpenEvent::Begin, held, stored) is Busy,
        !held ==> (stored matches Some(fd) ==> next_action(OpenEvent::Begin, held, stored)
            == OpenAction::InitRadio(fd)),
        !held && stored is None ==> next_action(OpenEvent::Begin, held, stored) is OpenUsb,
        held_after(OpenEvent::Begin, held),
{
}

/// An attempt goes on with the descriptor that USB gave, and gives up without
/// one. A radio that opened streams; where it does not open, USB is closed, and
/// then the attempt is given up.
pub proof fn failed_attempts_close_usb(event: OpenEvent, held: bool, stored: Option<i32>)
    ensures
        event matches OpenEvent::UsbOpened(Some(fd)) ==> next_action(event, held, stored)
            == OpenAction::InitRadio(fd),
        event matches OpenEvent::UsbOpened(None) ==> next_action(event, held, stored) is GiveUp
            && !held_after(event, held),
        event is Opened ==> next_action(event, held, stored) is Stream && !held_after(event, held),
        event is Failed ==> next_action(event, held, stored) is CloseUsb && held_after(event, held)
            == held,
        event is Closed ==> next_action(event, held, stored) is GiveUp && !held_after(event, held),
{
}

/// What is shown of an attempt: only what it changes. A radio that opened is
/// open, and named; one that did not is neither open nor streaming, and the
/// reason is shown. Beginning to open USB, closing it, and an attempt that does
/// not begin, change nothing.
pub proof fn attempts_show_how_they_go<F, D>(
    before: SdrUiState<F, D>,
    after: SdrUiState<F, D>,
    event: OpenEvent,
    held: bool,
    stored: Option<i32>,
)
    requires
        is_shown(before, after, event, next_action(event, held, stored)),
    ensures
        next_action(event, held, stored) matches OpenAction::InitRadio(fd) ==> after.detail@
            == "Got Android USB fd="@ + (signed_decimal(fd as int) + "; initializing UHD"@),
        event matches OpenEvent::Opened(name, rx, tx) ==> after.detail@ == name@ + (": RX="@ + (
        decimal(rx as nat) + (", TX="@ + decimal(tx as nat)))),
        event is Opened ==> after.opened && after.status@ == "B210 opened"@ && after.device@
            == event->Opened_0@ && after.streaming == before.streaming,
        event is Failed ==> !after.opened && !after.streaming && after.detail@
            == event->Failed_0@ && after.status@ == "Waiting for B210"@,
        event is Closed ==> after == before,
        event is Begin && (held || stored is None) ==> after == before,
        event == OpenEvent::UsbOpened(None) ==> after.status@ == "Waiting for B210"@
            && after.detail@ == "No B210 fd available"@ && after.opened == before.opened,
        next_action(event, held, stored) is InitRadio ==> after.status@ == "Opening B210"@
            && after.opened == before.opened && after.streaming == before.streaming,
        after.center_hz == before.center_hz,
        after.config_revision == before.config_revision,
        after.spectrum_db == before.spectrum_db,
        after.waterfall == before.waterfall,
        after.frames == before.frames,
{
}

} // verus!
