# vyges-resize

STA-driven gate sizing: a gate-level netlist in, a resized netlist out. For each cell the
tool picks a drive strength from the interchangeable families (`group:` lines) of the job
file: it upsizes cells on the critical path to close setup, then downsizes cells with
slack to recover area. Only the cell variant of an instance ever changes.

## Layout

- `src/` — the verified library (Verus).
  - `text.rs` — characters, whitespace, trimming, searching and splitting, stated over
    `Seq<char>`.
  - `job.rs` — the resize knobs of a `.resize` job (`parse_cfg`) and the instance-name
    globs (`glob_match`).
  - `engine.rs` — the sizing loop as a state machine (`Sizer`): candidate upsizes along the
    worst path, the keep-best choice, the effort budget, the one-pass area recovery, and
    the laws every run obeys (legal swaps only, `dont_touch` respected, upsizes within the
    budget and never under the area objective).
  - `report.rs` — the swap lines of the text report and the swap items of the JSON report.
  - `cli.rs` — the command line.
- `tests/` — tests of the library, including a toy timer that drives `Sizer`.
- `app/` — the program: file I/O, the static-timing engine (`vyges-sta-si`) that scores
  every candidate in floating point, and the reports' slack figures.
