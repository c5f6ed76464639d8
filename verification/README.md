# dev-tools-rs (`dt`), verified

A developer utility with three tools, whose logic is proved with Verus:

- `scc` — string case conversion: an identifier is split into lower-case
  words (at non-alphanumeric characters, case changes, letter/digit changes
  and acronym ends) and written again as camel, Pascal, snake, kebab, dot,
  title, upper, lower or mocking case.
- `ucc` — code conversion: an input is recognised as a JWT, HTML entities,
  Unicode code points or escapes, percent encoding, hexadecimal UTF-8 or
  Base64 and decoded; plain text is encoded in all of these ways.
- `ts` — timestamps: seconds or milliseconds since the epoch, RFC 3339 and
  common local date formats are read and described.

Each tool can answer with Alfred Workflow items.

## Layout

- `src/` — the verified library.
  - `strings.rs`, `numbers.rs`: characters, trimming, splitting, replacing,
    decimal and hexadecimal numbers.
  - `codecs.rs`: the encodings, and the calls into `hex`, `urlencoding`,
    `html_escape`, `base64` and `serde_json`.
  - `scc.rs`, `ucc.rs`, `ts.rs`: the three tools, each with a plan function
    that decides what the command prints.
  - `alfred.rs`: the Alfred items.
- `app/` — the `dt` program: argument parsing (`clap`), reading standard
  input, terminal detection (`atty`), JSON output (`serde`).
- `tests/` — tests of the library.
