# lib

Verified solutions to Advent of Code 2024, days 2 to 5, written in Verus.

- `src/day2.rs` – safe reports, and reports that pass with one bad level tolerated.
- `src/day3.rs` – summing `mul(X,Y)` instructions, optionally gated by `do()`/`don't()`;
  `part1_unsafe`/`part2_unsafe` scan a text that lies a given number of bytes before a
  32-byte boundary, `part1`/`part2` a text that starts on one.
- `src/day4.rs` – counting `XMAS` in a 140 by 140 word search.
- `src/day5.rs` – reading page ordering rules into bit tables.
- `src/hacks.rs` – 128/256-bit values seen as integers or `u64` lanes.
- `app/main.rs` – a benchmark driver that runs day 5 over `input/2024/day5.txt`.

Each `partN` takes the puzzle text and its contract states the answer as a
spec function of the input bytes; the `law_*` proof functions state the
properties that relate the parts.
