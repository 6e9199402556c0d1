# kage

A small Ninja-style build system (`mold` on the command line), written in
Verus: the parsing, graph building, planning, scheduling and log handling
are proved against their contracts; the program around them reads files,
runs commands and prints.

## Layout

```text
src/                 the verified library
├── lexer.rs         tokens of a build file
├── parse.rs         statements, instructions, includes (a parse session)
├── expand.rs        `$name` expansion, shell quoting, command hashing
├── depfile.rs       GCC depfile parsing
├── graph.rs         nodes, edges, defaults, target lookup
├── plan.rs          wanted edges, cycle detection, dirty checking, plans
├── exec.rs          the scheduler, listings, compilation database, texts
├── buildlog.rs      the command-hash log and its text
├── files.rs         stat results and path joining
├── error.rs         the error type and its messages
├── options.rs       the settings of a run
├── fxmap.rs         the `rustc_hash` maps the library keys by text
└── strutil.rs       string helpers and their order
app/main.rs          the command line, file system, processes and threads
tests/               tests of the library
```

The library does no I/O.  The program parses with a `ParseSession`, which
stops at each `include` so that the program can read the named file; it
stats the paths that `Graph::stat_paths` lists into a `StatCache`, reads the
depfiles that `Graph::depfiles_to_read` names, and hands the results to
`Graph::plan`.  A `Scheduler` then hands out the dirty jobs in an order that
respects their inputs; a `JobQueue` adds the failures of a run and keeps no
more jobs in flight than there are workers; and `Graph::record_built`
updates the log and the stat cache after each job.
