# avtool

An H.264 / MP4 inspection library whose logic is verified with Verus, and a
thin desktop front end around it.

- `src/h264/`: Annex B start-code scanning, emulation-prevention removal,
  the bit reader (`u(n)`, `ue(v)`, `se(v)`), and field-by-field parsers of
  SPS, PPS, SEI and slice headers. Each parser's contract describes the
  rows it lists with spec functions over the raw bytes.
- `src/mp4.rs`: the ISO BMFF box tree, `avcC` parsing and the conversion of
  a video track's samples into an Annex B stream.
- `src/commands.rs`, `src/cache.rs`: the requests of the front end: hex
  windows, file-size limits, the cache of parsed entries.
- `src/ffmpeg.rs`, `src/update.rs`: the decisions around the external
  tools (probe summaries, transcode results, progress lines, update
  checks against the latest commit), taking what the tools and the network
  returned as plain values.
- `app/`: the Tauri commands, file and process I/O, and the serde copies of
  the library's types.

`tests/` runs the library on concrete streams; the proof functions named
`lemma_*` with `pub` state the properties that hold across calls.
