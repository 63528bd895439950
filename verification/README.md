# acoustic_modem

Data over sound, half duplex, at 48 kHz: M-FSK with Hamming(7,4), block interleaving
and CRC-16, behind a chirp preamble, with fragmentation and stop-and-wait ARQ between
devices that name themselves. The library is verified with Verus; what it proves is
stated in the `ensures` of its functions and in its public proof functions.

## Layout

- `src/` holds the verified library.
  - `fec`, `framing`, `packet`, `mfsk`: what is on the wire, from bytes to tones.
  - `profile`, `band`: how fast, and where.
  - `chirp`, `receiver`: from scores to frames, as a state machine over positions.
  - `sender`, `dispatch`, `reassembly`, `trx`: the two ends of a conversation.
  - `event`, `text`: what the user is told, to the character.
  - `audio`, `diag`, `cli`: what is decided around a sound card and a command line.
- `tests/` runs it, `tests/link.rs` on rendered audio with real filters.
- `app/` is the program: signal processing, the sound card, threads and `main`.

## Units

The library computes in whole numbers. Frequencies are thousandths of a hertz,
durations of symbols thousandths of a millisecond, clocks nanoseconds. Confidences and
levels come as doubles and are counted in units so small that nothing is lost. A
preamble score or a tone's energy is taken by its rank in the total order of
floating-point numbers, so comparing ranks compares scores. Where a line shows a time
or a frequency, it shows the digits of the double nearest to it.

## Driving it

Whatever waits, plays or filters is outside. The library says what it wants next and is
told what came of it:

- `sender::Transfer` and `sender::Handshake` ask for a frame to be played, then for a
  control frame or the news that none came in time.
- `receiver::RxMachine` takes in blocks of samples, says what to drop and what is owed
  next, and asks for scores and for the bits at a place.
- `packet::try_decode` asks for the bits at one place after another.
- `dispatch::handle_frame` says what to reply, hand over and reassemble.
