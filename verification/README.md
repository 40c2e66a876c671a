# rime-word-counter

Daily word counts for the [Rime](https://rime.im/) input method. A Lua script
inside Rime appends `YYYY-MM-DD,count` to a CSV log; this project sums the log
per day into a SQLite table and shows trends by day, month or year.

* `src/` is the library, verified with Verus: parsing log lines, summing them
  per date, the daily table (one row per date, in date order) and its grouped
  queries, the dashboard figures, locale classification, default paths and
  count formatting.
* `app/` is the command line program around it: reading and truncating the
  log file, loading and storing the table in SQLite, the environment, the
  clock (today's date, which stands for the range of an empty table), and the
  terminal output (`--process`, `--stats`). `app/commands.rs` and
  `app/dto.rs` hold the desktop front end's command layer and its JSON shapes.
* `tests/` runs the library on concrete values.
