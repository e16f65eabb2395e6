# lumina_control_dmx (verified core)

Tools for the `.KKD` show files of the Avolites Mini Pearl 512A console,
which saves to FAT16 USB sticks with a broken cluster chain.

- `src/` — the library, verified with Verus:
  - `bpb` — the FAT16 boot-sector parameter block and the volume layout.
  - `dir` — root-directory records and their 8.3 names.
  - `carve` — choosing the entry of the file to carve (ASCII-case-insensitive).
  - `diff` — byte diff grouped into runs, and its report.
  - `find` — hex-byte patterns and their occurrences.
  - `num` — whitespace tokens and unsigned integer literals.
  - `drive` — the drive-letter argument of a raw dump.
  - `hexview`, `text` — hex/ASCII rendering of byte ranges.
  - `inspect` — the side-by-side field report.
  - `laws` — proved properties that span several functions.
- `app/` — the command-line program: argument handling, file and raw-volume
  I/O, printing.
- `tests/` — tests of the library on concrete values.
