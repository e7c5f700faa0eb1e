# Audio player

An audio player for language learning: browse to a file, see its waveform, drag
over a passage to repeat it, and slow it down.

- `src/` is the library, verified with Verus: the playback engine and its audio
  callback, waveform peaks, the decoding loop, the file browser, the drawing of
  the waveform, and what clicks, drags, buttons and sliders do.
- `app/` is the program around it: the window, the output device, files, threads.
- `tests/` runs the library, in part against the machine's own floating point and
  the standard library's paths.

## How it is laid out

- `float` holds IEEE 754 numbers as bit patterns. An exact value is a whole number
  of the format's least positive number; every operation is proved to round it to
  the nearest number, ties to even.
- `audio` holds the engine. The cells that the window and the audio callback share
  are plain values here; each command and each run of the callback returns the
  writes to carry out, in order, and `app/` carries them out on atomics.
- `app` holds the state of the window. Drawing returns shapes and texts, in the
  colours of the theme that `App::new` chooses.
- `browser`, `path`, `clock`, `text`, `startup`, `theme` hold what their names say.
  Paths are the bytes of Unix paths.

The modules named `laws` and `peak_laws` state what holds across functions: that a seek stays in
the file, that the loop button brings back a loop that a click switched off, that
listings are in order and complete, that going up undoes going down, and more.

Outside calls that the library makes stand behind small functions whose contracts
are believed: channel masks (`audio::decode`), UTF-8 and lower case (`text`), and
the sharing of samples (`audio::data`).
