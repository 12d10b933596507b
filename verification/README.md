# Spectrum Monitor

Real-time monitoring of a radio band: spectra and waterfall in the browser, AIS
reception with a chart, and a surveillance that finds senders, follows them and
names their modulation with a small neural network.

- `src/` is the library, written in Verus. Every item of it carries a contract
  that Verus proves.
  - `ais/`: messages, frames, sentences and the simulated fleet, in both
    directions. `frame_laws`, `message_laws` and `nmea_laws` state what a
    receiver gets of what was sent.
  - `detect`, `track`, `classify`, `scanner`: occupied ranges of a spectrum,
    signals over time, windows and classes, and what is reported of them.
    `track_laws`, `track_runs`, `scanner_laws` and `scanner_runs` state what a
    user can rely on.
  - `dsp`, `burst`, `wire`: which samples and bins take part, when bursts are on
    the air, and how spectra travel.
  - `store`, `pipeline`, `server`: the state of ships, the way of a message, the
    limits of queries.
  - `frontend/`: what the interface shows and does.
  - `train/`: the training data and the ONNX model of the classifier.
- `app/` is ordinary Rust around it: sampling and filtering, the network,
  SQLite, the server, and the interface in the browser.
- `tests/` run the library.

Verus does not compute with floating-point numbers. Where the library has to
order them, it works on integers that order in the same way (`order`). What
needs their arithmetic is measured in `app/` and handed over: which tracks a
detection is close to, how long ago a signal was seen, the energy of a window.

The library trusts outside code in three places, and says there what it claims
of it: `rand` for random numbers (`random`), `tract_onnx` and `prost` for the
protobuf messages of a model (`train/proto`), and `String::push` (`text`).
