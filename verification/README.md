# sdroxide

The radio side of an SDR application: the parts that decide, parse, encode and
decode, with machine-checked contracts, and the ordinary code around them.

- `src/` is the library. Every function states what it returns or changes, and
  Verus proves it, but for thirteen small wrappers in `ring` and `text`: they call
  the ring crate and three functions of the standard library, and their contracts
  are believed.
  - `qo100`: the QO-100 beacon's telemetry. Reed-Solomon over GF(256), the
    convolutional code, interleaver and scrambler of the coded frame, the uncoded
    frame, and the worker that looks for both.
  - `net`: the DX-cluster client and the PSK Reporter uploader.
  - `hpsdr`: openHPSDR discovery, Protocol 1 and the Hermes-Lite's IO board.
  - `ism`: the 868 MHz channel plan, the choice of window, and the device table.
  - `fobos`, `hackrf`: control queues, accounting, sample rings and pumps.
  - `pluto`: the PlutoSDR link's errors.
  - `ring`, `text`: the wait-free rings and text helpers that the rest uses.
- `tests/` runs the library.
- `app/` holds sockets, threads, vendor libraries and floating-point signal
  processing. It asks the library what to do and does it.

Frequencies, levels and times are integers throughout the library: a name or a
comment says the unit.
