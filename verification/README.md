# roll

A dice roller for tabletop RPGs: standard dice notation (`2d10+4`),
advantage and disadvantage, keep-highest/lowest (`4d6kh3`), statistics,
exact and simulated probabilities, named presets, a REPL and a terminal
interface.

## Layout

- `src/` — the library, verified with Verus. Each public function states what
  it computes over a mathematical model in its module:
  - `parse` — the expression language, from text to `DiceExpr`; `roundtrip`
    proves that the canonical text of an expression parses back to it.
  - `roll` — rolling, keep rules and the breakdown text; `stats` — the
    theoretical minimum, maximum and mean, and that every roll lies within them.
  - `dist` — simulated distributions and probability queries, and the integral
    layout of a histogram; `exact` — exact probabilities as counts of the ways
    the dice can fall.
  - `session` — the state of the terminal interface and its key handling;
    `steps` — its two steps that roll (submitting, opening the distribution);
    `tui` and `view` — the values that interface shows; `cli` — the command
    line's range syntax and query texts; `text` — characters and numerals.
- `app/` — the executable: argument parsing, preset files, the REPL, the
  terminal drawing, and the floating-point percentages.
- `tests/` — tests of the library.
