# pail

Pipelines of commands: steps that run one after another, what each of them cost,
and a table of it all. The decisions are a verified library; what spawns, waits,
signals and writes is ordinary Rust around it.

- `src/` is the library. `cmd`, `closure`, `step` and `pipeline` build what is to
  run; `run` walks through it, one question and one answer at a time; `launch`,
  `reap` and `batch` decide what starting, waiting for and stopping a process
  takes; `execute` and `fmt` turn what the kernel says into what a reader
  sees; `cpu`, `layout`, `metrics`, `columns` and `table` draw the table.
- `promise` states and proves what the sinks of a run are promised, `progress`
  that a run comes to an end, `skip` what skipping the rest of a step comes to,
  and `shell` that a shell reads a command back as it was built.
- `app/` runs it all: processes, threads, clocks and files, with the sinks.
- `tests/` holds examples of everything, against made-up commands.

Durations are kept in whole nanoseconds, and printed to two places the way the
nearest double would be.
