//! The blocks of the flowgraph: what each does next.
//!
//! A block is run again and again. Each time it looks at what the user asked
//! for, and the functions here say what that means for it; moving samples to
//! and from the radio is up to the application.

use crate::ui_state::SdrUiState;
use vstd::prelude::*;

verus! {

/// What the user asked of the transmitter.
#[derive(Clone, Copy, PartialEq, Eq, Structural, Debug)]
pub struct TxControls {
    pub tx_enabled: bool,
    pub user_stopped: bool,
    pub user_paused: bool,
    pub graph_revision: u64,
    pub tx_revision: u64,
}

/// Reads what the user asked of the transmitter.
pub fn tx_controls<F, D>(state: &SdrUiState<F, D>) -> (controls: TxControls)
    ensures
        controls.tx_enabled == state.tx_enabled,
        controls.user_stopped == state.user_stopped,
        controls.user_paused == state.user_paused,
        controls.graph_revision == state.graph_revision,
        controls.tx_revision == state.tx_revision,
{
    TxControls {
        tx_enabled: state.tx_enabled,
        user_stopped: state.user_stopped,
        user_paused: state.user_paused,
        graph_revision: state.graph_revision,
        tx_revision: state.tx_revision,
    }
}

/// Whether a block that belongs to flowgraph `applied` is to end.
pub open spec fn must_end(controls: Option<TxControls>, applied: u64) -> bool {
    controls matches Some(c) && (c.user_stopped || c.user_paused || c.graph_revision != applied)
}

fn ends(controls: &Option<TxControls>, applied: u64) -> (b: bool)
    ensures
        b == must_end(*controls, applied),
{
    match controls {
        Some(c) => c.user_stopped || c.user_paused || c.graph_revision != applied,
        None => false,
    }
}

/// What the source of an image does next.
#[derive(Clone, Copy, PartialEq, Eq, Structural, Debug)]
pub enum ImageStep {
    /// It ends.
    Finish,
    /// It waits: transmission is off.
    Idle,
    /// It needs the samples of an image.
    Prepare,
    /// It hands samples on.
    Fill,
}

/// How the source of an image goes on after it handed samples on.
#[derive(Clone, Copy, PartialEq, Eq, Structural, Debug)]
pub enum AfterFill {
    /// It ends.
    Finish,
    /// It waits a little and runs again.
    Rest,
    /// It runs again.
    Again,
}

/// A source that plays the samples of an image, once or over and over.
pub struct ImageSpectrumSource<T> {
    pub samples: Vec<T>,
    /// The next sample to play.
    pub cursor: usize,
    pub loop_enabled: bool,
    /// The transmission that the samples are for.
    pub revision: u64,
    pub applied_graph_revision: u64,
    /// Whether the image was played to its end.
    pub completed: bool,
}

/// Where playing goes on: at the start where it stands at the end.
pub open spec fn play_from(cursor: int, len: int) -> int {
    if cursor >= len {
        0
    } else {
        cursor
    }
}

/// What is played of `samples` from `cursor` on into `room` places.
pub open spec fn played<T>(samples: Seq<T>, cursor: int, looped: bool, room: int) -> Seq<T> {
    let len = samples.len() as int;
    if len == 0 {
        seq![]
    } else if looped {
        Seq::new(room as nat, |k: int| samples[(play_from(cursor, len) + k) % len])
    } else if cursor >= len {
        seq![]
    } else if cursor + room <= len {
        samples.subrange(cursor, cursor + room)
    } else {
        samples.skip(cursor)
    }
}

/// Whether playing once into `room` places comes to the end of the samples.
pub open spec fn runs_out(len: int, cursor: int, room: int) -> bool {
    room > 0 && cursor + room > len
}

/// Where playing stands after `room` places were filled as far as they could
/// be.
pub open spec fn cursor_after(len: int, cursor: int, looped: bool, room: int) -> int {
    if room == 0 {
        cursor
    } else if looped {
        if len == 0 {
            0
        } else {
            (play_from(cursor, len) + room - 1) % len + 1
        }
    } else if cursor >= len {
        cursor
    } else if cursor + room <= len {
        cursor + room
    } else {
        len
    }
}

impl<T: Copy> ImageSpectrumSource<T> {
    /// A source without samples.
    pub fn new() -> (source: Self)
        ensures
            source.samples@.len() == 0,
            source.cursor == 0,
            !source.loop_enabled,
            source.revision == 0,
            source.applied_graph_revision == 0,
            !source.completed,
    {
        ImageSpectrumSource {
            samples: Vec::new(),
            cursor: 0,
            loop_enabled: false,
            revision: 0,
            applied_graph_revision: 0,
            completed: false,
        }
    }

    /// The source becomes part of a flowgraph.
    pub fn init(&mut self, graph_revision: u64)
        ensures
            *final(self) == (ImageSpectrumSource {
                applied_graph_revision: graph_revision,
                ..*old(self)
            }),
    {
        self.applied_graph_revision = graph_revision;
    }

    /// What the source does next.
    pub open spec fn step(self, controls: Option<TxControls>) -> ImageStep {
        if must_end(controls, self.applied_graph_revision) || self.completed {
            ImageStep::Finish
        } else {
            match controls {
                Some(c) if c.tx_enabled => if c.tx_revision != self.revision || self.samples@.len()
                    == 0 {
                    ImageStep::Prepare
                } else {
                    ImageStep::Fill
                },
                _ => ImageStep::Idle,
            }
        }
    }

    /// Tells what the source does next; without word from the user it waits.
    pub fn begin(&self, controls: Option<TxControls>) -> (step: ImageStep)
        ensures
            step == self.step(controls),
    {
        if ends(&controls, self.applied_graph_revision) || self.completed {
            return ImageStep::Finish;
        }
        match controls {
            Some(c) => {
                if !c.tx_enabled {
                    ImageStep::Idle
                } else if c.tx_revision != self.revision || self.samples.len() == 0 {
                    ImageStep::Prepare
                } else {
                    ImageStep::Fill
                }
            },
            None => ImageStep::Idle,
        }
    }

    /// Gives the source the samples of an image.
    pub fn load(&mut self, samples: Vec<T>, loop_enabled: bool, revision: u64)
        ensures
            *final(self) == (ImageSpectrumSource {
                samples,
                cursor: 0,
                loop_enabled,
                revision,
                ..*old(self)
            }),
    {
        self.samples = samples;
        self.cursor = 0;
        self.loop_enabled = loop_enabled;
        self.revision = revision;
    }

    /// Plays samples into `room` places. An image that is played once is
    /// complete when there is room left after its last sample.
    pub fn fill(&mut self, room: usize) -> (out: Vec<T>)
        ensures
            out@ == played(
                old(self).samples@,
                old(self).cursor as int,
                old(self).loop_enabled,
                room as int,
            ),
            final(self).samples == old(self).samples,
            final(self).loop_enabled == old(self).loop_enabled,
            final(self).revision == old(self).revision,
            final(self).applied_graph_revision == old(self).applied_graph_revision,
            final(self).completed == (old(self).completed || (!old(self).loop_enabled && runs_out(
                old(self).samples@.len() as int,
                old(self).cursor as int,
                room as int,
            ))),
            final(self).cursor == cursor_after(
                old(self).samples@.len() as int,
                old(self).cursor as int,
                old(self).loop_enabled,
                room as int,
            ),
    {
        let mut out: Vec<T> = Vec::new();
        let len: usize = self.samples.len();
        let looped = self.loop_enabled;
        let ghost samples = self.samples@;
        let ghost start = self.cursor as int;
        if !looped {
            while out.len() < room && self.cursor < len
                invariant
                    samples == self.samples@,
                    len == samples.len(),
                    !looped,
                    start == old(self).cursor,
                    out@.len() <= room,
                    self.cursor == start + out@.len(),
                    start < len ==> self.cursor <= len,
                    out@.len() > 0 ==> start < len,
                    forall|k: int| 0 <= k < out@.len() ==> #[trigger] out@[k] == samples[start + k],
                    *self == (ImageSpectrumSource { cursor: self.cursor, ..*old(self) }),
                decreases len - self.cursor,
            {
                out.push(self.samples[self.cursor]);
                self.cursor = self.cursor + 1;
            }
            if out.len() < room {
                self.completed = true;
            }
            assert(out@ =~= played(samples, start, false, room as int));
            return out;
        }
        if len == 0 {
            if room > 0 && self.cursor >= len {
                self.cursor = 0;
            }
            return out;
        }
        let ghost from = play_from(start, len as int);
        let ghost mut turns: int = 0;
        if room > 0 && self.cursor >= len {
            self.cursor = 0;
        }
        while out.len() < room
            invariant
                samples == self.samples@,
                len == samples.len(),
                len > 0,
                from == play_from(start, len as int),
                start == old(self).cursor,
                out@.len() <= room,
                room == 0 ==> self.cursor == start,
                room > 0 ==> self.cursor <= len,
                room > 0 ==> from + out@.len() == turns * len + self.cursor,
                out@.len() > 0 ==> self.cursor > 0,
                forall|k: int|
                    0 <= k < out@.len() ==> #[trigger] out@[k] == samples[(from + k) % len as int],
                *self == (ImageSpectrumSource { cursor: self.cursor, ..*old(self) }),
            decreases room - out@.len(),
        {
            if self.cursor >= len {
                self.cursor = 0;
                proof {
                    assert(turns * len + len == (turns + 1) * len) by (nonlinear_arith);
                    turns = turns + 1;
                }
            }
            proof {
                assert(len as int * turns == turns * len) by (nonlinear_arith);
                vstd::arithmetic::div_mod::lemma_fundamental_div_mod_converse(
                    from + out@.len(),
                    len as int,
                    turns,
                    self.cursor as int,
                );
            }
            out.push(self.samples[self.cursor]);
            self.cursor = self.cursor + 1;
        }
        assert(out@ =~= played(samples, start, true, room as int));
        proof {
            if room > 0 {
                assert(from + room - 1 == len as int * turns + (self.cursor - 1)) by (nonlinear_arith)
                    requires
                        from + room == turns * len + self.cursor,
                ;
                vstd::arithmetic::div_mod::lemma_fundamental_div_mod_converse(
                    from + room - 1,
                    len as int,
                    turns,
                    self.cursor - 1,
                );
            }
        }
        out
    }

    /// Tells how the source goes on after it played so many samples.
    pub fn after_fill(&self, produced: usize) -> (next: AfterFill)
        ensures
            next == if self.completed {
                AfterFill::Finish
            } else if produced == 0 {
                AfterFill::Rest
            } else {
                AfterFill::Again
            },
    {
        if self.completed {
            AfterFill::Finish
        } else if produced == 0 {
            AfterFill::Rest
        } else {
            AfterFill::Again
        }
    }
}

/// Playing once in two goes plays what playing in one go does, as long as the
/// first go does not come to the end.
pub proof fn playing_in_two_goes<T>(samples: Seq<T>, cursor: int, first: int, second: int)
    requires
        0 <= cursor,
        0 <= first,
        0 <= second,
        cursor + first <= samples.len(),
    ensures
        played(samples, cursor, false, first) + played(
            samples,
            cursor_after(samples.len() as int, cursor, false, first),
            false,
            second,
        ) == played(samples, cursor, false, first + second),
{
    let two = played(samples, cursor, false, first) + played(
        samples,
        cursor_after(samples.len() as int, cursor, false, first),
        false,
        second,
    );
    assert(two =~= played(samples, cursor, false, first + second));
}

/// What the transmitting sink does first.
#[derive(Clone, Copy, PartialEq, Eq, Structural, Debug)]
pub enum SinkStep {
    /// It closes the burst and ends.
    Stop,
    /// It closes the burst and is configured anew before it goes on.
    Reconfigure,
    /// It goes on.
    Proceed,
}

/// What the transmitting sink does with its input.
#[derive(Clone, Copy, PartialEq, Eq, Structural, Debug)]
pub enum InputStep {
    /// It closes the burst and ends: there is nothing more to send.
    Close,
    /// It waits for input.
    Wait,
    /// It cannot send: there is no streamer.
    NoStreamer,
    /// It sends its input; whether that starts a burst, and whether it ends
    /// one.
    Send(bool, bool),
}

/// How the sink goes on after it sent samples.
#[derive(Clone, Copy, PartialEq, Eq, Structural, Debug)]
pub struct AfterSend {
    /// How many samples of its input it is done with.
    pub consumed: usize,
    /// Whether the burst is to be closed.
    pub close: bool,
    /// Whether it is to run again at once.
    pub again: bool,
}

/// The sink that transmits through the radio.
#[derive(Clone, Copy, PartialEq, Eq, Structural, Debug)]
pub struct UhdB210Sink {
    /// Whether there is a streamer to send with.
    pub has_streamer: bool,
    /// The transmission that the radio is configured for.
    pub revision: u64,
    pub applied_graph_revision: u64,
    /// Whether a burst was begun and not ended.
    pub in_burst: bool,
    /// Whether the end of a burst is still to be sent.
    pub pending_eob: bool,
}

impl UhdB210Sink {
    /// Whether a burst is open, or waits for its end, but not both.
    pub open spec fn framed(self) -> bool {
        !(self.in_burst && self.pending_eob)
    }

    /// The sink after its burst was closed and its streamer given up.
    pub open spec fn closed(self) -> Self {
        UhdB210Sink { has_streamer: false, in_burst: false, pending_eob: false, ..self }
    }

    /// The sink after the radio took `taken` of `len` samples: a burst is open
    /// after all but the last packet of it.
    pub open spec fn after_send(self, taken: int, len: int, last: bool) -> Self {
        if taken > 0 && len > 0 {
            UhdB210Sink { in_burst: !last, pending_eob: last, ..self }
        } else {
            self
        }
    }

    /// A sink that is not configured.
    pub fn new() -> (sink: Self)
        ensures
            sink == (UhdB210Sink {
                has_streamer: false,
                revision: 0,
                applied_graph_revision: 0,
                in_burst: false,
                pending_eob: false,
            }),
            sink.framed(),
    {
        UhdB210Sink {
            has_streamer: false,
            revision: 0,
            applied_graph_revision: 0,
            in_burst: false,
            pending_eob: false,
        }
    }

    /// The sink becomes part of a flowgraph, configured for a transmission.
    pub fn init(&mut self, graph_revision: u64, revision: u64)
        ensures
            *final(self) == (UhdB210Sink {
                has_streamer: true,
                revision,
                applied_graph_revision: graph_revision,
                ..*old(self)
            }),
    {
        self.applied_graph_revision = graph_revision;
        self.reconfigured(revision);
    }

    /// The sink was configured for a transmission.
    pub fn reconfigured(&mut self, revision: u64)
        ensures
            *final(self) == (UhdB210Sink { has_streamer: true, revision, ..*old(self) }),
    {
        self.revision = revision;
        self.has_streamer = true;
    }

    /// Closes the burst and gives up the streamer; tells whether the end of a
    /// burst is to be sent before.
    pub fn finish_burst_and_mute(&mut self) -> (send_end: bool)
        ensures
            send_end == ((old(self).in_burst || old(self).pending_eob) && old(self).has_streamer),
            *final(self) == old(self).closed(),
    {
        let send_end = (self.in_burst || self.pending_eob) && self.has_streamer;
        self.in_burst = false;
        self.pending_eob = false;
        self.has_streamer = false;
        send_end
    }

    /// What the sink does first.
    pub open spec fn step(self, controls: Option<TxControls>) -> SinkStep {
        if must_end(controls, self.applied_graph_revision) {
            SinkStep::Stop
        } else if controls matches Some(c) && c.tx_revision != self.revision {
            SinkStep::Reconfigure
        } else {
            SinkStep::Proceed
        }
    }

    /// Tells what the sink does first.
    pub fn begin(&self, controls: Option<TxControls>) -> (step: SinkStep)
        ensures
            step == self.step(controls),
    {
        if ends(&controls, self.applied_graph_revision) {
            return SinkStep::Stop;
        }
        match controls {
            Some(c) => {
                if c.tx_revision != self.revision {
                    SinkStep::Reconfigure
                } else {
                    SinkStep::Proceed
                }
            },
            None => SinkStep::Proceed,
        }
    }

    /// What the sink does with its input.
    pub open spec fn input_step(self, len: int, finished: bool, tx_enabled: bool) -> InputStep {
        if len == 0 {
            if finished || !tx_enabled || self.pending_eob {
                InputStep::Close
            } else {
                InputStep::Wait
            }
        } else if !self.has_streamer {
            InputStep::NoStreamer
        } else {
            InputStep::Send(!self.in_burst, finished || !tx_enabled)
        }
    }

    /// Tells what the sink does with `len` samples of input.
    pub fn on_input(&self, len: usize, finished: bool, tx_enabled: bool) -> (step: InputStep)
        ensures
            step == self.input_step(len as int, finished, tx_enabled),
    {
        if len == 0 {
            if finished || !tx_enabled || self.pending_eob {
                InputStep::Close
            } else {
                InputStep::Wait
            }
        } else if !self.has_streamer {
            InputStep::NoStreamer
        } else {
            InputStep::Send(!self.in_burst, finished || !tx_enabled)
        }
    }

    /// Takes note that the radio took `taken` of `len` samples.
    pub fn sent(&mut self, taken: usize, len: usize, last: bool) -> (after: AfterSend)
        ensures
            ({
                let n = if taken < len {
                    taken
                } else {
                    len
                };
                &&& after == (AfterSend { consumed: n, close: last && n == len, again: n == 0 })
                &&& *final(self) == old(self).after_send(taken as int, len as int, last)
            }),
    {
        let n: usize = if taken < len {
            taken
        } else {
            len
        };
        if n > 0 {
            self.in_burst = !last;
            self.pending_eob = last;
        }
        AfterSend { consumed: n, close: last && n == len, again: n == 0 }
    }

    /// Takes note that sending failed: no burst is open any more.
    pub fn send_failed(&mut self)
        ensures
            *final(self) == (UhdB210Sink { in_burst: false, pending_eob: false, ..*old(self) }),
    {
        self.in_burst = false;
        self.pending_eob = false;
    }
}

/// A burst is never both open and waiting for its end: no operation on the
/// sink makes it so.
pub proof fn bursts_stay_framed(
    sink: UhdB210Sink,
    graph_revision: u64,
    revision: u64,
    taken: int,
    len: int,
    last: bool,
)
    requires
        sink.framed(),
    ensures
        (UhdB210Sink {
            has_streamer: true,
            revision,
            applied_graph_revision: graph_revision,
            ..sink
        }).framed(),
        (UhdB210Sink { has_streamer: true, revision, ..sink }).framed(),
        (UhdB210Sink { in_burst: false, pending_eob: false, ..sink }).framed(),
        sink.after_send(taken, len, last).framed(),
        sink.closed().framed(),
        !sink.closed().in_burst,
        !sink.closed().pending_eob,
{
}

/// What the user asked of the receiver.
pub struct RxControls<F> {
    pub center_hz: F,
    /// At most the sample rate.
    pub bandwidth_hz: F,
    pub sample_rate: F,
    pub gain_db: F,
    pub rx_channel: usize,
    pub config_revision: u64,
    pub graph_revision: u64,
    pub user_paused: bool,
    pub user_stopped: bool,
}

/// Which settings moved by more than they may without being applied.
#[derive(Clone, Copy, PartialEq, Eq, Structural, Debug)]
pub struct RxMoved {
    pub center: bool,
    pub bandwidth: bool,
    pub sample_rate: bool,
    pub gain: bool,
}

/// Why the receiving source ends.
#[derive(Clone, Copy, PartialEq, Eq, Structural, Debug)]
pub enum StopReason {
    Stop,
    Pause,
    GraphChange,
    StreamReconfig,
}

/// What the receiving source does next.
#[derive(Clone, Copy, PartialEq, Eq, Structural, Debug)]
pub enum SourceStep {
    /// It stops the stream and ends.
    Stop(StopReason),
    /// It applies those settings that moved, and receives.
    Retune,
    /// It receives.
    Receive,
}

/// The source that receives through the radio.
pub struct UhdB210Source<F> {
    /// Whether there is a streamer to receive with.
    pub has_streamer: bool,
    pub applied_center_hz: F,
    pub applied_bandwidth_hz: F,
    pub applied_sample_rate: F,
    pub applied_gain_db: F,
    pub applied_rx_channel: usize,
    pub applied_config_revision: u64,
    pub applied_graph_revision: u64,
}

impl<F: Copy> UhdB210Source<F> {
    /// A source that is not configured.
    pub fn new(zero: F) -> (source: Self)
        ensures
            source == (UhdB210Source {
                has_streamer: false,
                applied_center_hz: zero,
                applied_bandwidth_hz: zero,
                applied_sample_rate: zero,
                applied_gain_db: zero,
                applied_rx_channel: 0,
                applied_config_revision: 0,
                applied_graph_revision: 0,
            }),
    {
        UhdB210Source {
            has_streamer: false,
            applied_center_hz: zero,
            applied_bandwidth_hz: zero,
            applied_sample_rate: zero,
            applied_gain_db: zero,
            applied_rx_channel: 0,
            applied_config_revision: 0,
            applied_graph_revision: 0,
        }
    }

    /// The source becomes part of a flowgraph, with these settings applied and
    /// a stream begun.
    pub fn init(&mut self, controls: RxControls<F>)
        ensures
            *final(self) == (UhdB210Source {
                has_streamer: true,
                applied_center_hz: controls.center_hz,
                applied_bandwidth_hz: controls.bandwidth_hz,
                applied_sample_rate: controls.sample_rate,
                applied_gain_db: controls.gain_db,
                applied_rx_channel: controls.rx_channel,
                applied_config_revision: controls.config_revision,
                applied_graph_revision: controls.graph_revision,
            }),
    {
        self.applied_center_hz = controls.center_hz;
        self.applied_bandwidth_hz = controls.bandwidth_hz;
        self.applied_sample_rate = controls.sample_rate;
        self.applied_gain_db = controls.gain_db;
        self.applied_rx_channel = controls.rx_channel;
        self.applied_config_revision = controls.config_revision;
        self.applied_graph_revision = controls.graph_revision;
        self.has_streamer = true;
    }

    /// What the source does next; without word from the user nothing changed.
    pub open spec fn step(self, controls: Option<RxControls<F>>, moved: RxMoved) -> SourceStep {
        match controls {
            None => SourceStep::Receive,
            Some(c) => if c.user_stopped {
                SourceStep::Stop(StopReason::Stop)
            } else if c.user_paused {
                SourceStep::Stop(StopReason::Pause)
            } else if c.graph_revision != self.applied_graph_revision {
                SourceStep::Stop(StopReason::GraphChange)
            } else if c.rx_channel != self.applied_rx_channel || moved.sample_rate {
                SourceStep::Stop(StopReason::StreamReconfig)
            } else if c.config_revision != self.applied_config_revision || moved.center
                || moved.bandwidth || moved.gain {
                SourceStep::Retune
            } else {
                SourceStep::Receive
            },
        }
    }

    /// Tells what the source does next: another flowgraph, channel or sample
    /// rate takes a new stream; other settings are applied while receiving.
    pub fn begin(&self, controls: &Option<RxControls<F>>, moved: RxMoved) -> (step: SourceStep)
        ensures
            step == self.step(*controls, moved),
    {
        match controls {
            None => SourceStep::Receive,
            Some(c) => {
                if c.user_stopped {
                    SourceStep::Stop(StopReason::Stop)
                } else if c.user_paused {
                    SourceStep::Stop(StopReason::Pause)
                } else if c.graph_revision != self.applied_graph_revision {
                    SourceStep::Stop(StopReason::GraphChange)
                } else if c.rx_channel != self.applied_rx_channel || moved.sample_rate {
                    SourceStep::Stop(StopReason::StreamReconfig)
                } else if c.config_revision != self.applied_config_revision || moved.center
                    || moved.bandwidth || moved.gain {
                    SourceStep::Retune
                } else {
                    SourceStep::Receive
                }
            },
        }
    }

    /// Takes note that settings were applied while receiving.
    pub fn retuned(&mut self, controls: RxControls<F>)
        ensures
            *final(self) == (UhdB210Source {
                applied_center_hz: controls.center_hz,
                applied_bandwidth_hz: controls.bandwidth_hz,
                applied_gain_db: controls.gain_db,
                applied_config_revision: controls.config_revision,
                ..*old(self)
            }),
    {
        self.applied_center_hz = controls.center_hz;
        self.applied_bandwidth_hz = controls.bandwidth_hz;
        self.applied_gain_db = controls.gain_db;
        self.applied_config_revision = controls.config_revision;
    }

    /// Gives up the streamer; tells whether there was one, which is to be
    /// stopped.
    pub fn deinit(&mut self) -> (stop: bool)
        ensures
            stop == old(self).has_streamer,
            *final(self) == (UhdB210Source { has_streamer: false, ..*old(self) }),
    {
        let stop = self.has_streamer;
        self.has_streamer = false;
        stop
    }
}

/// Settings that were applied while receiving are not applied again: with the
/// same request, and nothing moved any more, the source just receives.
pub proof fn retuning_settles<F: Copy>(
    before: UhdB210Source<F>,
    after: UhdB210Source<F>,
    controls: RxControls<F>,
    moved: RxMoved,
)
    requires
        before.step(Some(controls), moved) == SourceStep::Retune,
        after == (UhdB210Source {
            applied_center_hz: controls.center_hz,
            applied_bandwidth_hz: controls.bandwidth_hz,
            applied_gain_db: controls.gain_db,
            applied_config_revision: controls.config_revision,
            ..before
        }),
    ensures
        after.step(
            Some(controls),
            RxMoved { center: false, bandwidth: false, sample_rate: false, gain: false },
        ) == SourceStep::Receive,
{
}

/// Why the source ends, in a word.
pub open spec fn reason_text(reason: StopReason) -> Seq<char> {
    match reason {
        StopReason::Stop => "stop"@,
        StopReason::Pause => "pause"@,
        StopReason::GraphChange => "graph change"@,
        StopReason::StreamReconfig => "stream reconfig"@,
    }
}

/// Says why the source ends.
pub fn stop_reason_text(reason: StopReason) -> (text: &'static str)
    ensures
        text@ == reason_text(reason),
{
    match reason {
        StopReason::Stop => "stop",
        StopReason::Pause => "pause",
        StopReason::GraphChange => "graph change",
        StopReason::StreamReconfig => "stream reconfig",
    }
}

/// The status shown when the source ends.
pub open spec fn stopped_status(reason: StopReason) -> Seq<char> {
    match reason {
        StopReason::Stop => "Stopping"@,
        StopReason::Pause => "Paused"@,
        _ => "Retuning"@,
    }
}

/// Shows that the source ends.
pub fn show_source_stopped<F, D>(state: &mut SdrUiState<F, D>, reason: StopReason)
    ensures
        final(state).status@ == stopped_status(reason),
        *final(state) == (SdrUiState {
            status: final(state).status,
            streaming: false,
            ..*old(state)
        }),
{
    state.streaming = false;
    state.status = match reason {
        StopReason::Stop => "Stopping".to_string(),
        StopReason::Pause => "Paused".to_string(),
        _ => "Retuning".to_string(),
    };
}

/// How many samples a block is done with: no more than there are.
pub fn taken_samples(reported: usize, room: usize) -> (n: usize)
    ensures
        n == if reported < room {
            reported
        } else {
            room
        },
{
    if reported < room {
        reported
    } else {
        room
    }
}

/// What the spectrum sink does with its input.
#[derive(Clone, Copy, PartialEq, Eq, Structural, Debug)]
pub struct SpectrumStep {
    /// Whether the transform is to be made anew.
    pub refit: bool,
    /// How many samples are transformed and shown, if any.
    pub publish: Option<usize>,
}

/// The sink that turns samples into spectra.
#[derive(Clone, Copy, PartialEq, Eq, Structural, Debug)]
pub struct SpectrumSink {
    pub fft_size: usize,
    pub applied_fft_revision: u64,
}

impl SpectrumSink {
    /// A sink with the transform that is asked for.
    pub fn new(fft_size: usize, fft_revision: u64) -> (sink: Self)
        ensures
            sink == (SpectrumSink { fft_size, applied_fft_revision: fft_revision }),
    {
        SpectrumSink { fft_size, applied_fft_revision: fft_revision }
    }

    /// Takes over another transform where one is asked for, and tells how many
    /// of the input's samples are to be shown, which happens no sooner than a
    /// spectrum is `due`.
    pub fn work(
        &mut self,
        fft_size: usize,
        fft_revision: u64,
        input_len: usize,
        due: bool,
    ) -> (step: SpectrumStep)
        ensures
            step.refit == (fft_revision != old(self).applied_fft_revision),
            *final(self) == if step.refit {
                SpectrumSink { fft_size, applied_fft_revision: fft_revision }
            } else {
                *old(self)
            },
            step.publish == if input_len == 0 || !due {
                None
            } else if input_len < final(self).fft_size {
                Some(input_len)
            } else {
                Some(final(self).fft_size)
            },
    {
        let refit = fft_revision != self.applied_fft_revision;
        if refit {
            self.fft_size = fft_size;
            self.applied_fft_revision = fft_revision;
        }
        let publish: Option<usize> = if input_len == 0 || !due {
            None
        } else {
            Some(taken_samples(input_len, self.fft_size))
        };
        SpectrumStep { refit, publish }
    }
}

/// A block ends when the user stops or pauses, or another flowgraph takes over,
/// and for no other reason.
pub proof fn blocks_end_when_asked(c: TxControls, applied: u64)
    ensures
        c.user_stopped || c.user_paused || c.graph_revision != applied ==> must_end(
            Some(c),
            applied,
        ),
        !c.user_stopped && !c.user_paused && c.graph_revision == applied ==> !must_end(
            Some(c),
            applied,
        ),
        !must_end(None, applied),
{
}

/// What the source of an image does. It plays only while transmission is on and
/// it has the samples of the transmission asked for; an image that was played
/// to its end, or a user who stops, ends it.
pub proof fn images_play_while_sending<T: Copy>(
    source: ImageSpectrumSource<T>,
    controls: Option<TxControls>,
)
    ensures
        source.completed ==> source.step(controls) is Finish,
        controls is None && !source.completed ==> source.step(controls) is Idle,
        controls matches Some(c) ==> {
            let ended = c.user_stopped || c.user_paused || c.graph_revision
                != source.applied_graph_revision || source.completed;
            &&& source.step(controls) is Finish <==> ended
            &&& source.step(controls) is Idle <==> !ended && !c.tx_enabled
            &&& source.step(controls) is Fill <==> !ended && c.tx_enabled && c.tx_revision
                == source.revision && source.samples@.len() > 0
            &&& source.step(controls) is Prepare <==> !ended && c.tx_enabled && (c.tx_revision
                != source.revision || source.samples@.len() == 0)
        },
{
}

/// An image that is played once is played straight through: sample after sample
/// from where it stands, as many as there is room for and samples left. It is
/// complete when there is room left over.
pub proof fn playing_once_goes_straight_through<T>(
    samples: Seq<T>,
    cursor: int,
    room: int,
    k: int,
)
    requires
        0 <= cursor <= samples.len(),
        0 <= room,
    ensures
        ({
            let out = played(samples, cursor, false, room);
            &&& cursor + room <= samples.len() ==> out.len() == room
            &&& cursor + room > samples.len() ==> out.len() == samples.len() - cursor
            &&& 0 <= k < out.len() ==> out[k] == samples[cursor + k]
            &&& cursor_after(samples.len() as int, cursor, false, room) == cursor + out.len()
            &&& runs_out(samples.len() as int, cursor, room) <==> out.len() < room
        }),
{
}

/// An image that is played over and over fills all the room: from where it
/// stands, and from the start again after the last sample.
pub proof fn looping_fills_all_the_room<T>(
    samples: Seq<T>,
    cursor: int,
    room: int,
    k: int,
    turns: int,
    i: int,
)
    requires
        0 <= cursor <= samples.len(),
        samples.len() > 0,
        0 <= k < room,
        0 <= i < samples.len(),
        cursor + k == turns * samples.len() + i,
    ensures
        played(samples, cursor, true, room).len() == room,
        played(samples, cursor, true, room)[k] == samples[i],
{
    let len = samples.len() as int;
    let from = play_from(cursor, len);
    let t = if cursor >= len {
        turns - 1
    } else {
        turns
    };
    assert(turns * len == len * turns && (turns - 1) * len == len * (turns - 1) && turns * len
        - len == (turns - 1) * len) by (nonlinear_arith);
    vstd::arithmetic::div_mod::lemma_fundamental_div_mod_converse(from + k, len, t, i);
}

/// Playing over and over in two goes plays what playing in one go does.
pub proof fn looping_in_two_goes<T>(samples: Seq<T>, cursor: int, first: int, second: int)
    requires
        0 <= cursor <= samples.len(),
        samples.len() > 0,
        0 <= first,
        0 <= second,
    ensures
        0 <= cursor_after(samples.len() as int, cursor, true, first) <= samples.len(),
        played(samples, cursor, true, first) + played(
            samples,
            cursor_after(samples.len() as int, cursor, true, first),
            true,
            second,
        ) == played(samples, cursor, true, first + second),
{
    let len = samples.len() as int;
    let from = play_from(cursor, len);
    let next = cursor_after(len, cursor, true, first);
    let one = played(samples, cursor, true, first + second);
    let two = played(samples, cursor, true, first) + played(samples, next, true, second);
    if first > 0 {
        let last = from + first - 1;
        vstd::arithmetic::div_mod::lemma_fundamental_div_mod(last, len);
        vstd::arithmetic::div_mod::lemma_mod_bound(last, len);
        let q = last / len;
        assert forall|k: int| first <= k < first + second implies two[k] == one[k] by {
            let j = k - first;
            let again = play_from(next, len);
            let shift = if next >= len {
                q + 1
            } else {
                q
            };
            assert(from + k == len * shift + (again + j)) by (nonlinear_arith)
                requires
                    from + first - 1 == len * q + (next - 1),
                    k == first + j,
                    shift == if next >= len {
                        q + 1
                    } else {
                        q
                    },
                    again == if next >= len {
                        0
                    } else {
                        next
                    },
                    next <= len,
            ;
            vstd::arithmetic::div_mod::lemma_mod_multiples_vanish(shift, again + j, len);
        }
    }
    assert(two =~= one);
}

/// What the sink does first: it ends when asked to, and is configured anew for
/// another transmission before anything of it is sent.
pub proof fn sinks_send_what_they_are_configured_for(
    sink: UhdB210Sink,
    controls: Option<TxControls>,
)
    ensures
        controls is None ==> sink.step(controls) is Proceed,
        controls matches Some(c) ==> {
            let ended = c.user_stopped || c.user_paused || c.graph_revision
                != sink.applied_graph_revision;
            &&& sink.step(controls) is Stop <==> ended
            &&& sink.step(controls) is Reconfigure <==> !ended && c.tx_revision != sink.revision
            &&& sink.step(controls) is Proceed <==> !ended && c.tx_revision == sink.revision
        },
{
}

/// Bursts are framed: a packet starts a burst just where none is open, and ends
/// it just where its input is finished or transmission was turned off. Without
/// input the sink closes when nothing more will come, and else waits.
pub proof fn packets_frame_bursts(sink: UhdB210Sink, len: int, finished: bool, tx_enabled: bool)
    requires
        0 <= len,
    ensures
        ({
            let step = sink.input_step(len, finished, tx_enabled);
            &&& len > 0 && sink.has_streamer ==> (step matches InputStep::Send(starts, ends) && (
            starts <==> !sink.in_burst) && (ends <==> finished || !tx_enabled))
            &&& len > 0 && !sink.has_streamer ==> step is NoStreamer
            &&& len == 0 && (finished || !tx_enabled || sink.pending_eob) ==> step is Close
            &&& len == 0 && !finished && tx_enabled && !sink.pending_eob ==> step is Wait
        }),
{
}

/// A burst is open from its first packet to its last: the packet after one that
/// was not the last starts none, and after the last one the end of the burst
/// is still to be sent. A packet of which nothing was taken changes nothing.
pub proof fn bursts_last_until_their_last_packet(
    sink: UhdB210Sink,
    taken: int,
    len: int,
    last: bool,
    next_len: int,
    finished: bool,
    tx_enabled: bool,
)
    requires
        0 < len,
        0 <= taken,
        0 < next_len,
        sink.has_streamer,
    ensures
        ({
            let after = sink.after_send(taken, len, last);
            let next = after.input_step(next_len, finished, tx_enabled);
            &&& taken == 0 ==> after == sink
            &&& taken > 0 && !last ==> after.in_burst && !after.pending_eob && (
            next matches InputStep::Send(starts, _) && !starts)
            &&& taken > 0 && last ==> !after.in_burst && after.pending_eob && (
            next matches InputStep::Send(starts, _) && starts)
            &&& after.has_streamer
            &&& after.revision == sink.revision
            &&& after.applied_graph_revision == sink.applied_graph_revision
            &&& !after.closed().has_streamer && !after.closed().in_burst
                && !after.closed().pending_eob
            &&& after.closed().revision == sink.revision
        }),
{
}

/// What the receiving source does. It ends, for the first reason there is, when
/// the user stops or pauses, or another flowgraph, channel or sample rate takes
/// over; other settings are applied while it receives, where there are any that
/// moved or that were asked for anew.
pub proof fn sources_follow_the_user<F: Copy>(
    source: UhdB210Source<F>,
    c: RxControls<F>,
    moved: RxMoved,
)
    ensures
        ({
            let step = source.step(Some(c), moved);
            let other_graph = c.graph_revision != source.applied_graph_revision;
            let other_stream = c.rx_channel != source.applied_rx_channel || moved.sample_rate;
            let other_settings = c.config_revision != source.applied_config_revision
                || moved.center || moved.bandwidth || moved.gain;
            let running = !c.user_stopped && !c.user_paused && !other_graph && !other_stream;
            &&& step == SourceStep::Stop(StopReason::Stop) <==> c.user_stopped
            &&& step == SourceStep::Stop(StopReason::Pause) <==> c.user_paused && !c.user_stopped
            &&& step == SourceStep::Stop(StopReason::GraphChange) <==> other_graph
                && !c.user_paused && !c.user_stopped
            &&& step == SourceStep::Stop(StopReason::StreamReconfig) <==> other_stream
                && !other_graph && !c.user_paused && !c.user_stopped
            &&& step is Retune <==> running && other_settings
            &&& step is Receive <==> running && !other_settings
            &&& source.step(None, moved) is Receive
        }),
{
}

/// Each reason to end has its word and its status.
pub proof fn reasons_have_their_words(reason: StopReason)
    ensures
        reason == StopReason::Stop ==> reason_text(reason) == "stop"@ && stopped_status(reason)
            == "Stopping"@,
        reason == StopReason::Pause ==> reason_text(reason) == "pause"@ && stopped_status(reason)
            == "Paused"@,
        reason == StopReason::GraphChange ==> reason_text(reason) == "graph change"@
            && stopped_status(reason) == "Retuning"@,
        reason == StopReason::StreamReconfig ==> reason_text(reason) == "stream reconfig"@
            && stopped_status(reason) == "Retuning"@,
{
}

} // verus!
