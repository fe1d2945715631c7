# violino

A physical model of a bowed string driven by Standard MIDI Files.

- `src/` is the verified library (Verus): the SMF parser (`smf`), the
  track merge and tempo map (`timeline`), and the player's note and
  controller state with the bow-noise generator (`player`).
- `app/` is the program around it: the floating-point instrument (waveguide
  string, friction bow, modal body, control curves), the audio renderer,
  seconds from ticks, WAV output, the command line and the Python bindings.
- `tests/` runs the library on concrete files and event lists.
