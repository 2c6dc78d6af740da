# ir_bench

Tools for benchmarking the iRacing simulator: a runner that plays a replay
once per configured benchmark while a capture program records frame times,
and a report generator that turns the recordings and the simulator settings
of each benchmark into one HTML page of charts and comparison tables.

The logic is a Verus library in `src/`, proved against its contracts:

- `text`, `numtext`: character-level string work and integer text, as std
  reads and writes it.
- `ini`: the INI reader (keys, values, comments; a later line wins).
- `config`: the settings, their defaults and checks, paths, the current
  benchmark id file, which files a benchmark copies.
- `order`, `pipeline`: the benchmark order (sorted by id, stable) and the
  runner as a state machine from event to next action, with its laws
  (it always ends, each benchmark at most once and in order, runs counted
  1 to n).
- `messages`: the worker-to-window message protocol, encoded and decoded,
  and the log entries (`[ HH:MM:SS ]  message`, newest batch on top).
- `stats`: frame-time histograms per run and per group.
- `naming`, `html`, `report`: names, colors, escaping, the hover-title
  patches of the charts, the notes, legend and comparison table, the page.

`app/` holds what the library does not: file and process I/O, the simulator
connection, the charts (floating point, through `plotly`) and the command
line. `tests/` exercises the library on concrete values.

The runner in `app/` is a console program with no window: it reads the
settings from `config/config.json5` beside the program, prints the
worker's messages as they come, and runs the report generator (the same
program without `--run-benchmarks`) after the last benchmark. Editing and saving the settings, and the
file dialogs, are left to a text editor; no GUI toolkit is a dependency.
The report's page template, style sheet and script are read at run time
from the `assets` folder beside the program.
