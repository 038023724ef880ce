# lang_summary

Lays out a per-language source statistics report: for every language its
files, lines (code and extra), sizes and keyword counts; the totals; and an
overview of each language's share of files, lines and bytes, drawn as fifty
coloured vertical bars.

- `src/` is the library, verified with Verus. The report is produced as a
  sequence of styled spans (`text`), from two maps of statistics
  (`table`, `languages`): shares in tenths of a percent (`percentages`),
  computed as double-precision arithmetic computes them, stated in integers
  (`binary64`),
  the bars and their normalization (`verticals`), the sections of the report
  (`report`) and the whole report (`format`). `laws` states properties that
  hold for all inputs.
- `app/` prints a report on a terminal: it formats the amounts as decimals
  and applies the colours.
- `tests/` runs the library on concrete statistics.
