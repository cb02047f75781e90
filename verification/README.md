# lumen-play

A media library player and test harness, verified with Verus. It walks a library, tells what each
file is from its bytes, plays the lot through mpv and records what happened to every file. It also
serves the library: to paired clients over TLS, as HLS and DASH presentations, and to renderers on
the local network.

## Layout

- `src/` is the library: every decision, format and rule, with its contract proved.
  - Text and numbers: `text`, `paths`, `number`, `natural`, `binary64`, `numeral`, `measure`. Numbers
    with a fraction are kept as numerals or as exact integers; arithmetic on them rounds as binary64
    does.
  - JSON: `json` reads and quotes, `json_writer` and `json_layout` put documents together and show
    that they read back as what they were put together from.
  - The library on disk: `scan`, `media`, `tally`, `reindex`, `verify`, `library_watch`.
  - Playing: `session`, `ipc`, `fidelity`, `calibration`, `report`, `record`.
  - Serving: `http`, `dlna`, and below `remote` the protocol, pairing, certificates, connections and
    presentations.
  - The command line: `args`, `doctor`, `machine`, `mpvbin`, `ffmpegbin`.
- `app/` is the program around it: sockets, processes, files and clocks.
- `tests/` runs the library on concrete values.

Times are nanoseconds since the Unix epoch. Paths are text, with `/` between their components.
