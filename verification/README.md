# mint

A batch mastering renderer: it takes finished mixes and writes one deliverable per target,
each with its own loudness, true-peak ceiling, sample rate, sample format and file naming.

The rules of the renderer are a library that Verus proves; the program around it reads files,
computes in floating point and writes the results.

## Layout

- `src/`: the library. Its functions are proved against contracts that say what they return or
  change; a few private helpers need no contract. What five wrappers promise of `rand`, `hound`
  and `flacenc` is believed, not proved: their doc comments, in `dither/noise.rs` and
  `audio/io_write.rs`, say what.
  - `config`, `targets`, `cli`: defaults, presets and overrides, which targets can be delivered,
    which inputs are rendered to which targets, and what a batch reports.
  - `pipeline`: the order of the steps of one task, and what is warned about.
  - `ops`: loudness and ceiling policy, the limiter's gain curve, resampled lengths, bit-depth
    reduction.
  - `dither`: noise, noise shaping, channel correlation, the framing of the psychoacoustic
    model and of adaptive filters.
  - `audio`: buffers, interleaving, reading packets, WAV, Broadcast WAV and FLAC output.
  - `level`, `decimal`, `text`, `path`, `refusal`, `closures`: decibel figures with exact
    binary64 addition and comparison, printing, text and path helpers, errors.
- `app/`: the program: arguments, files, decoding, meters, resamplers and filter design.
- `tests/`: tests of the library, with the real encoders and generators.

## How floating point is handled

The library computes with integers and with `Level`, a binary64 bit pattern whose sum,
difference and order are defined on integers. A kernel that needs more floating point than
that, such as a multiply-accumulate, is handed in as a closure. The contracts then hold for
every function that the closure may compute.

Public laws, such as that a delivered signal holds its ceiling or says so in a warning, are
the proof functions whose names start with `law_`.
