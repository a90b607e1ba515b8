# pixdr

A software-defined radio for Android and the USRP B210: a spectrum and waterfall
display, a receiver for the synchronisation and broadcast channels of GSM-900, and a
transmitter that draws an image in the spectrum.

- `src/` is the library. Everything in it is verified: the channel decoders (convolutional
  code, parity, interleaving, burst timing), the burst searches and their ranking, the
  Intel HEX firmware loader, the USB and device start-up sequences, the streaming blocks and
  the state behind the display.
- `app/` is the program around it: JNI, the radio driver, the windows, and the arithmetic on
  floating-point samples.
- `tests/` runs the library on concrete values.

The library is generic where samples are concerned. A path metric implements
`viterbi::PathMetric`, and a stream of symbols implements `symbols::SymbolStream`. The
contracts hold for every implementation that keeps what those traits state; the
implementations in `app/` over `f32` are not verified. The laws of decoding ask more of a
metric, of those of its values that are costs: see `viterbi::consistent` and
`soft_decoding::counts`.
