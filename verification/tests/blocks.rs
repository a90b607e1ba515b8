use pixdr::futuresdr_backend::{
    show_source_stopped, stop_reason_text, taken_samples, tx_controls, AfterFill, AfterSend,
    ImageSpectrumSource, ImageStep, InputStep, RxControls, RxMoved, SinkStep, SourceStep,
    SpectrumSink, SpectrumStep, StopReason, TxControls, UhdB210Sink, UhdB210Source,
};
use pixdr::ui_state::{
    chosen_tab, set_b210_fd, take_b210_fd, Health, SdrUiState, UiTab, WATERFALL_ROWS,
};
use pixdr::worker::{
    apply_rx_config, frames_are_logged, requested_tuning, start_sdr_worker, try_open_b210_once,
    Latch, OpenAction, OpenEvent, ReceivedStep, SpectrumStream, StreamStep, WorkerStep,
};

fn fresh_state() -> SdrUiState<f64, f32> {
    SdrUiState::new(100.0e6, 1.0e6, 1.0e6, 20.0, 15.0, 0.65, -100.0)
}

fn sending() -> TxControls {
    TxControls {
        tx_enabled: true,
        user_stopped: false,
        user_paused: false,
        graph_revision: 4,
        tx_revision: 9,
    }
}

#[test]
fn an_image_source_waits_prepares_and_fills() {
    let mut source = ImageSpectrumSource::<u32>::new();
    source.init(4);
    assert_eq!(source.begin(None), ImageStep::Idle);
    assert_eq!(source.begin(Some(TxControls { tx_enabled: false, ..sending() })), ImageStep::Idle);
    assert_eq!(source.begin(Some(sending())), ImageStep::Prepare);
    source.load(vec![1, 2, 3], false, 9);
    assert_eq!(source.begin(Some(sending())), ImageStep::Fill);
    assert_eq!(source.begin(Some(TxControls { tx_revision: 10, ..sending() })), ImageStep::Prepare);
    assert_eq!(source.begin(Some(TxControls { user_stopped: true, ..sending() })), ImageStep::Finish);
    assert_eq!(source.begin(Some(TxControls { user_paused: true, ..sending() })), ImageStep::Finish);
    assert_eq!(source.begin(Some(TxControls { graph_revision: 5, ..sending() })), ImageStep::Finish);
}

#[test]
fn an_image_is_played_once() {
    let mut source = ImageSpectrumSource::new();
    source.load(vec![1, 2, 3, 4, 5], false, 1);
    assert_eq!(source.fill(3), vec![1, 2, 3]);
    assert_eq!(source.after_fill(3), AfterFill::Again);
    assert_eq!(source.fill(2), vec![4, 5]);
    assert!(!source.completed);
    assert_eq!(source.fill(2), Vec::<i32>::new());
    assert!(source.completed);
    assert_eq!(source.after_fill(0), AfterFill::Finish);
    assert_eq!(source.begin(None), ImageStep::Finish);
    let mut whole = ImageSpectrumSource::new();
    whole.load(vec![1, 2], false, 1);
    assert_eq!(whole.fill(5), vec![1, 2]);
    assert!(whole.completed);
}

#[test]
fn an_image_is_played_over_and_over() {
    let mut source = ImageSpectrumSource::new();
    source.load(vec![1, 2, 3], true, 1);
    assert_eq!(source.fill(5), vec![1, 2, 3, 1, 2]);
    assert_eq!(source.cursor, 2);
    assert_eq!(source.fill(1), vec![3]);
    assert_eq!(source.cursor, 3);
    assert_eq!(source.fill(2), vec![1, 2]);
    assert!(!source.completed);
    let mut empty = ImageSpectrumSource::<u8>::new();
    empty.load(Vec::new(), true, 1);
    assert_eq!(empty.fill(4), Vec::<u8>::new());
    assert_eq!(empty.after_fill(0), AfterFill::Rest);
}

#[test]
fn a_sink_frames_bursts() {
    let mut sink = UhdB210Sink::new();
    assert_eq!(sink.on_input(8, false, true), InputStep::NoStreamer);
    sink.init(4, 9);
    assert_eq!(sink.begin(Some(sending())), SinkStep::Proceed);
    assert_eq!(sink.on_input(8, false, true), InputStep::Send(true, false));
    assert_eq!(sink.sent(8, 8, false), AfterSend { consumed: 8, close: false, again: false });
    assert_eq!(sink.on_input(8, false, true), InputStep::Send(false, false));
    assert_eq!(sink.on_input(8, true, true), InputStep::Send(false, true));
    assert_eq!(sink.sent(5, 8, true), AfterSend { consumed: 5, close: false, again: false });
    assert!(sink.pending_eob && !sink.in_burst);
    assert_eq!(sink.sent(0, 3, true), AfterSend { consumed: 0, close: false, again: true });
    assert_eq!(sink.sent(9, 3, true), AfterSend { consumed: 3, close: true, again: false });
    assert_eq!(sink.on_input(0, false, true), InputStep::Close);
    assert!(sink.finish_burst_and_mute());
    assert!(!sink.finish_burst_and_mute());
    assert_eq!(sink.on_input(0, false, true), InputStep::Wait);
    assert_eq!(sink.on_input(0, true, true), InputStep::Close);
    assert_eq!(sink.on_input(0, false, false), InputStep::Close);
}

#[test]
fn a_sink_follows_the_user() {
    let mut sink = UhdB210Sink::new();
    sink.init(4, 9);
    assert_eq!(sink.begin(None), SinkStep::Proceed);
    assert_eq!(sink.begin(Some(TxControls { tx_revision: 10, ..sending() })), SinkStep::Reconfigure);
    assert_eq!(sink.begin(Some(TxControls { user_paused: true, ..sending() })), SinkStep::Stop);
    sink.finish_burst_and_mute();
    sink.reconfigured(10);
    assert_eq!(sink.begin(Some(TxControls { tx_revision: 10, ..sending() })), SinkStep::Proceed);
    sink.sent(1, 2, false);
    sink.send_failed();
    assert!(!sink.in_burst && !sink.pending_eob);
}

fn listening() -> RxControls<f64> {
    RxControls {
        center_hz: 1.0,
        bandwidth_hz: 2.0,
        sample_rate: 3.0,
        gain_db: 4.0,
        rx_channel: 1,
        config_revision: 5,
        graph_revision: 6,
        user_paused: false,
        user_stopped: false,
    }
}

const STILL: RxMoved = RxMoved { center: false, bandwidth: false, sample_rate: false, gain: false };

#[test]
fn a_source_stops_for_a_reason() {
    let mut source = UhdB210Source::new(0.0);
    source.init(listening());
    assert_eq!(source.begin(&None, STILL), SourceStep::Receive);
    assert_eq!(source.begin(&Some(listening()), STILL), SourceStep::Receive);
    let stop = RxControls { user_stopped: true, user_paused: true, ..listening() };
    assert_eq!(source.begin(&Some(stop), STILL), SourceStep::Stop(StopReason::Stop));
    let pause = RxControls { user_paused: true, graph_revision: 7, ..listening() };
    assert_eq!(source.begin(&Some(pause), STILL), SourceStep::Stop(StopReason::Pause));
    let graph = RxControls { graph_revision: 7, rx_channel: 0, ..listening() };
    assert_eq!(source.begin(&Some(graph), STILL), SourceStep::Stop(StopReason::GraphChange));
    let channel = RxControls { rx_channel: 0, ..listening() };
    assert_eq!(source.begin(&Some(channel), STILL), SourceStep::Stop(StopReason::StreamReconfig));
    let moved = RxMoved { sample_rate: true, ..STILL };
    assert_eq!(
        source.begin(&Some(listening()), moved),
        SourceStep::Stop(StopReason::StreamReconfig)
    );
    assert!(source.deinit());
    assert!(!source.deinit());
}

#[test]
fn a_source_retunes_while_receiving() {
    let mut source = UhdB210Source::new(0.0);
    source.init(listening());
    let newer = RxControls { config_revision: 6, center_hz: 9.0, ..listening() };
    assert_eq!(source.begin(&Some(newer), STILL), SourceStep::Retune);
    for moved in [
        RxMoved { center: true, ..STILL },
        RxMoved { bandwidth: true, ..STILL },
        RxMoved { gain: true, ..STILL },
    ] {
        assert_eq!(source.begin(&Some(listening()), moved), SourceStep::Retune);
    }
    source.retuned(RxControls { config_revision: 6, center_hz: 9.0, ..listening() });
    assert_eq!(source.applied_center_hz, 9.0);
    let same = RxControls { config_revision: 6, center_hz: 9.0, ..listening() };
    assert_eq!(source.begin(&Some(same), STILL), SourceStep::Receive);
}

#[test]
fn stopping_is_shown() {
    let mut state = fresh_state();
    for (reason, status, text) in [
        (StopReason::Stop, "Stopping", "stop"),
        (StopReason::Pause, "Paused", "pause"),
        (StopReason::GraphChange, "Retuning", "graph change"),
        (StopReason::StreamReconfig, "Retuning", "stream reconfig"),
    ] {
        state.streaming = true;
        show_source_stopped(&mut state, reason);
        assert_eq!(state.status, status);
        assert!(!state.streaming);
        assert_eq!(stop_reason_text(reason), text);
    }
}

#[test]
fn spectra_are_made_when_due() {
    let mut sink = SpectrumSink::new(1024, 3);
    assert_eq!(sink.work(2048, 3, 5000, true), SpectrumStep { refit: false, publish: Some(1024) });
    assert_eq!(sink.work(2048, 4, 5000, true), SpectrumStep { refit: true, publish: Some(2048) });
    assert_eq!(sink.work(2048, 4, 100, true), SpectrumStep { refit: false, publish: Some(100) });
    assert_eq!(sink.work(2048, 4, 100, false), SpectrumStep { refit: false, publish: None });
    assert_eq!(sink.work(2048, 4, 0, true), SpectrumStep { refit: false, publish: None });
    assert_eq!(taken_samples(7, 5), 5);
    assert_eq!(taken_samples(3, 5), 3);
}

#[test]
fn the_state_starts_waiting() {
    let state = fresh_state();
    assert_eq!(state.status, "Waiting for B210");
    assert_eq!(state.detail, "Attach USRP B210 and grant USB permission");
    assert_eq!(state.device, "—");
    assert_eq!(state.spectrum_db, vec![-100.0; 8192]);
    assert_eq!(state.fft_request(), (8192, 0));
    assert_eq!(state.health(), Health::Bad);
    assert!(!state.needs_reconfig());
    assert_eq!(state.waterfall_frames(), 1);
    assert_eq!(state.reception_label(), "RX: preview");
}

#[test]
fn a_stored_descriptor_comes_before_usb() {
    let mut state = fresh_state();
    let mut latch = Latch::new();
    let mut stored = Some(12);
    assert_eq!(
        try_open_b210_once(&mut state, &mut latch, &mut stored, OpenEvent::Begin),
        OpenAction::InitRadio(12)
    );
    assert_eq!(stored, None);
    assert_eq!(state.status, "Opening B210");
    assert_eq!(state.detail, "Got Android USB fd=12; initializing UHD");
    assert!(latch.held);
    stored = Some(13);
    assert_eq!(
        try_open_b210_once(&mut state, &mut latch, &mut stored, OpenEvent::Begin),
        OpenAction::Busy
    );
    assert_eq!(stored, Some(13));
    assert!(latch.held);
    let opened = OpenEvent::Opened("B210".to_string(), 2, 1);
    assert_eq!(
        try_open_b210_once(&mut state, &mut latch, &mut stored, opened),
        OpenAction::Stream
    );
    assert_eq!(stored, Some(13));
    assert_eq!(state.status, "B210 opened");
    assert_eq!(state.detail, "B210: RX=2, TX=1");
    assert_eq!(state.device, "B210");
    assert_eq!(state.health(), Health::Fair);
    assert!(!latch.held);
}

#[test]
fn usb_is_opened_without_a_stored_descriptor() {
    let mut state = fresh_state();
    let mut latch = Latch::new();
    let mut stored = None;
    assert_eq!(
        try_open_b210_once(&mut state, &mut latch, &mut stored, OpenEvent::Begin),
        OpenAction::OpenUsb
    );
    assert_eq!(state.detail, "Attach USRP B210 and grant USB permission");
    assert!(latch.held);
    assert_eq!(
        try_open_b210_once(&mut state, &mut latch, &mut stored, OpenEvent::UsbOpened(Some(7))),
        OpenAction::InitRadio(7)
    );
    assert_eq!(state.detail, "Got Android USB fd=7; initializing UHD");
    assert!(latch.held);
}

#[test]
fn failing_to_open_is_shown() {
    let mut state = fresh_state();
    let mut latch = Latch::new();
    let mut stored = None;
    assert!(latch.enter());
    assert!(!latch.enter());
    assert_eq!(
        try_open_b210_once(&mut state, &mut latch, &mut stored, OpenEvent::UsbOpened(None)),
        OpenAction::GiveUp
    );
    assert_eq!(state.detail, "No B210 fd available");
    assert!(!latch.held);
    latch.enter();
    state.opened = true;
    state.streaming = true;
    let failed = OpenEvent::Failed("no images".to_string());
    assert_eq!(
        try_open_b210_once(&mut state, &mut latch, &mut stored, failed),
        OpenAction::CloseUsb
    );
    assert_eq!(state.status, "Waiting for B210");
    assert_eq!(state.detail, "no images");
    assert!(!state.opened && !state.streaming);
    assert!(latch.held);
    assert_eq!(
        try_open_b210_once(&mut state, &mut latch, &mut stored, OpenEvent::Closed),
        OpenAction::GiveUp
    );
    assert_eq!(state.detail, "no images");
    assert!(!latch.held);
    assert_eq!(start_sdr_worker(false, false), WorkerStep::Retry);
    assert_eq!(start_sdr_worker(true, false), WorkerStep::Stream);
    assert_eq!(start_sdr_worker(true, true), WorkerStep::Park);
}

#[test]
fn a_descriptor_is_taken_once() {
    let mut slot = None;
    assert_eq!(take_b210_fd(&mut slot), None);
    set_b210_fd(&mut slot, 5);
    set_b210_fd(&mut slot, 6);
    assert_eq!(take_b210_fd(&mut slot), Some(6));
    assert_eq!(take_b210_fd(&mut slot), None);
}

#[test]
fn tunings_are_pending_until_applied() {
    let mut state = fresh_state();
    state.tune(95.0e6, 2.0e6, 30.0, "Pending".to_string());
    assert!(state.needs_reconfig());
    assert_eq!(state.sample_rate, 2.0e6);
    assert_eq!(state.tuning_label(), "rev 0/1");
    let tuning = requested_tuning(&state);
    assert_eq!((tuning.center_hz, tuning.bandwidth_hz, tuning.gain_db, tuning.revision), (95.0e6, 2.0e6, 30.0, 1));
    state.configuring("center".to_string());
    assert_eq!(state.status, "Configuring RX");
    apply_rx_config(&mut state, &tuning, "tuned".to_string());
    assert!(!state.needs_reconfig());
    assert_eq!(state.status, "B210 opened");
    assert_eq!(state.detail, "tuned");
    state.config_revision = u64::MAX;
    state.tune(95.0e6, 2.0e6, 30.0, String::new());
    assert_eq!(state.config_revision, 0);
}

#[test]
fn streams_restart_refit_and_publish() {
    let mut stream = SpectrumStream { fft_size: 1024, applied_fft_revision: 0 };
    assert_eq!(stream.configure_and_stream(true, 2048, 1), StreamStep::Restart);
    assert_eq!(stream.fft_size, 1024);
    assert_eq!(stream.configure_and_stream(false, 2048, 1), StreamStep::Refit);
    assert_eq!(stream.configure_and_stream(false, 2048, 1), StreamStep::Receive);
    assert_eq!(stream.received(0, true), ReceivedStep::Skip);
    assert_eq!(stream.received(100, false), ReceivedStep::Skip);
    assert_eq!(stream.received(100, true), ReceivedStep::Publish(100));
    assert_eq!(stream.received(9999, true), ReceivedStep::Publish(2048));
    assert!(frames_are_logged(240));
    assert!(!frames_are_logged(241));
}

#[test]
fn the_waterfall_keeps_the_newest_rows() {
    let mut state = fresh_state();
    for i in 0..100 {
        state.publish(vec![i as f32; 4]);
    }
    assert_eq!(state.frames, 100);
    assert_eq!(state.waterfall.len(), WATERFALL_ROWS);
    assert_eq!(state.waterfall[0], vec![4.0; 4]);
    assert_eq!(state.waterfall[95], vec![99.0; 4]);
    assert_eq!(state.spectrum_db, vec![99.0; 4]);
    assert!(!state.shows_waterfall() && !state.shows_spectrum());
    state.reception_started();
    assert!(state.shows_waterfall() && state.shows_spectrum());
    assert_eq!(state.health(), Health::Good);
    assert_eq!(state.reception_label(), "RX: live UHD");
    assert_eq!(state.waterfall_frames(), 100);
    state.fft_applied(6, 1, -100.0, "FFT".to_string());
    assert_eq!(state.spectrum_db, vec![99.0, 99.0, 99.0, 99.0, -100.0, -100.0]);
    assert!(state.waterfall.is_empty());
    assert_eq!(state.fft_label(), "rev 1/0");
    state.reception_failed("gone", -120.0);
    assert_eq!(state.status, "B210 opened; RX stream failed");
    assert_eq!(state.detail, "No live samples: gone");
    assert_eq!(state.spectrum_db, vec![-120.0; 6]);
}

#[test]
fn transform_requests_are_rounded() {
    let mut state = fresh_state();
    state.set_fft(3000, 20.0, 0.5, "Pending FFT".to_string());
    assert_eq!(state.fft_request(), (4096, 1));
    assert_eq!(state.detail, "Pending FFT");
    assert_eq!((state.fft_fps, state.fft_smoothing), (20.0, 0.5));
}

#[test]
fn transmitting_is_shown() {
    let mut state = fresh_state();
    state.tx_enabled = true;
    state.graph_revision = 3;
    assert!(state.graph_started());
    assert_eq!(state.applied_graph_revision, 3);
    assert_eq!(tx_controls(&state).graph_revision, 3);
    state.image_prepared(512);
    assert_eq!(state.detail, "Generated 512 TX samples from image");
    state.transmitting();
    assert_eq!(state.status, "Transmitting");
    state.image_complete();
    assert!(!state.tx_enabled && state.tx_transmitting);
    assert_eq!(state.detail, "TX image complete; flushing burst");
    state.transmission_over();
    assert!(!state.tx_transmitting);
    assert_eq!(state.status, "B210 opened");
    assert_eq!(state.detail, "TX image complete");
    state.detail = "something else".to_string();
    state.transmission_over();
    assert_eq!(state.detail, "something else");
    state.image_failed("too wide");
    assert_eq!(state.detail, "Could not prepare TX image: too wide");
    state.transmission_failed("underrun");
    assert_eq!(state.status, "B210 opened; TX failed");
    assert_eq!(state.detail, "TX send failed: underrun");
    state.tx_transmitting = true;
    state.transmitter_closed();
    assert!(!state.tx_transmitting);
}

#[test]
fn hot_tunings_are_shown_unless_overtaken() {
    let mut state = fresh_state();
    state.source_started();
    assert_eq!(state.detail, "FutureSDR UHD source active");
    state.tune(1.0, 2.0, 3.0, "Pending".to_string());
    state.hot_tuned(0, 9.0, "late".to_string());
    assert_eq!(state.detail, "Pending");
    state.hot_tuned(1, 9.0, "in time".to_string());
    assert_eq!(state.detail, "in time");
    assert_eq!(state.bandwidth_hz, 9.0);
    assert_eq!(state.applied_revision, 1);
    state.source_failed("unplugged");
    assert_eq!(state.detail, "No live samples: unplugged");
    assert!(!state.streaming);
    state.retuning();
    assert_eq!(state.status, "Retuning");
}

#[test]
fn tabs_follow_clicks() {
    assert_eq!(chosen_tab(UiTab::Radio, false, false), UiTab::Radio);
    assert_eq!(chosen_tab(UiTab::Radio, false, true), UiTab::Fft);
    assert_eq!(chosen_tab(UiTab::Fft, true, false), UiTab::Radio);
}
