# rusty_esp_audio

Audio for small devices, verified: fixed-block elements over caller-owned
memory, IMA ADPCM, WAV and FLAC, a linear resampler, voice activity detection,
raw PCM in datagrams, and the register sequences of five codec chips.

## Layout

- `src/` is the library. Its functions have contracts, proved by Verus; laws
  that relate several functions stand beside them as public proof functions.
  Traits that are for others to implement (`AudioSource`, `AudioSink`, `Element`,
  `Bus`, `Tick`, `Voice`) say what an implementation owes.
- `tests/` runs the library, with the outside crates it calls.
- `app/` is ordinary Rust around it: the filters that compute in floating point,
  a test tone, UDP sockets, WAV files, an `embedded-hal` I2C adaptor and a
  microphone bench.

## How things are stated

- A block of PCM is its format, its timestamp and its bytes; 16-bit samples are
  the bytes read in little-endian pairs.
- An element says what it emits for a block; a pipeline's contract is the list of
  calls it made, each handed what the one before left.
- A ring buffer is the sequence of bytes stored; a resampler is its rates, its
  exact rational phase and the last frame heard.
- A bus is the log of what was handed to it and what came back, the pauses in
  between included. A codec-chip driver is a script: the registers it writes and
  reads and the pauses it makes, in order, where what it writes may depend on what
  it read. Its contract is that what the log grew by carries the script out, or
  stops at the first failed transfer.
- A filter that brings its own arithmetic is the record of what it was asked and
  what it answered; a tone is the record of the values it gave.

## What is trusted

Calls into `rusty_esp_core` (viewing bytes as samples), `rusty_esp_dsp` (RMS
levels and sample-format conversion) and `rusty_flac` (encoding and decoding) are
made by small functions marked `external_body`; their doc comments say what is
claimed of each.
