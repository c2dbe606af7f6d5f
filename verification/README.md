# rtk diff filtering, verified

The diff-condensing core of `rtk`, written in Verus: every function in `src/`
states its behaviour in a `requires`/`ensures` contract that Verus proves,
except two trusted wrappers whose contracts Verus takes on trust:
`text::string_push` (std's `String::push`) and `stdin::utf8_str` (std's
`str::from_utf8`).

## Layout

- `src/text.rs`: character-sequence helpers (prefixes, splitting, decimal
  rendering and parsing) with their specifications.
- `src/tokens.rs`: the token estimate, `ceil(bytes / 4)`.
- `src/guard.rs`: `never_worse`, which keeps a filtered output only when it
  costs no more tokens than the raw one.
- `src/line_diff_spec.rs`, `src/line_diff.rs`: the line diff of two files
  (common prefix and suffix, a capped LCS table, run pairing into
  modifications), proved equal to its specification.
- `src/render.rs`: the compact and classic renderings of a line diff, the
  identical / invisible-difference verdicts and the tracking baseline.
- `src/unified_spec.rs`, `src/unified.rs`: the region scanner that condenses
  a unified-diff stream (git, combined, plain `diff -u`, `format-patch`) into
  per-file summaries, or declines so that the stream passes through raw.
- `src/ansi.rs`: removal of ANSI colour sequences.
- `src/stdin.rs`: the piped-stream path (UTF-8 check, colour stripping,
  condensing, token guard).
- `src/compare.rs`: a whole file comparison: `str::lines` splitting, the
  diff, and the choice of what to print, including the invisible-difference
  allowance.
- `src/line_diff_laws.rs`, `src/line_diff_counts.rs`, `src/line_diff_sides.rs`,
  `src/unified_laws.rs`, `src/unified_lines.rs`, `src/render_laws.rs`,
  `src/classic_laws.rs`, `src/compare_laws.rs`: properties proved of the
  whole library.
- `app/`: the command-line entry points (file reading, stdin, printing).
- `tests/`: executable tests of the library.
