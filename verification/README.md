# openlr2

A reader for BMS/PMS rhythm-game chart files, verified with Verus.

- `src/` — the verified library. `scan::scan_bms` reads a chart file's text
  into a `document::BmsDocument`: metadata headers, `#WAV`/`#BMP` resource
  tables, `#BPM`/`#STOP` definitions, and every channel object placed on the
  measure grid (measure, slot, slot count). Its contract is the function
  `scan::parse_document`, defined line by line over the text. Decimal values
  (tempos, stops, measure lengths) are kept as the literals the file gives;
  the library decides exactly which literals `f64::from_str` accepts.
  Also here: Base36/Base62 codes, channel codes and lanes (`codes`), key
  modes (`keymode`), UTF-8 decoding of chart files (`encoding`), and the
  grouping of notes into lanes in measure-grid order (`assemble`). `properties` proves that CRLF
  line endings and comment lines do not change what is read.
- `app/` — the `bms-dump` command line tool: file I/O, the floating-point
  timeline (BPM changes, stops, wall-clock times), the chart model with
  serde support, and JSON output.
- `tests/` — tests of the library.
