# solstice

Debugging and tracing support for Solidity tests run with `forge`, written in
Verus: the library under `src/` is verified, and `app/` holds the command line
around it.

Layout of the library:

- `position_tracker` — moves positions in a document through a list of edits.
- `graph` — a dependency graph with a topological sort and a `dot` rendering.
- `config` — the language server's settings, read from a JSON object whose nested
  names are joined with `_`.
- `forge`, `tracer` — the command lines of `forge test` and `forge test --debug`,
  and the errors of running them.
- `server` — decisions of the language server on plain values: whether new
  inlay hints replace the held ones, the run/debug code lenses of a file's
  test functions, and the code object a completion after `.` asks about.
- `symbol_indexer` — finds the contracts that a Solidity file declares, and
  the entries a file adds to the index of contract names.
- `debugger` — a cursor over the steps of a recorded trace (breakpoints,
  stepping in, out and over), and in its submodules:
  - `ast`, `visitor` — the syntax tree of a contract, and the debug information
    read out of it: functions, blocks, statements, calls and variables, each
    with its place in the source;
  - `units` — what the debugger knows of a contract, source maps, and the
    lookup of the function or statement an instruction belongs to;
  - `context`, `artifact`, `dump` — the types and state variables of a build,
    the debug units of a compiled artifact, and the sources a debug dump lists;
  - `builder` — turns the recorded execution into a debug trace: its steps,
    where the variables are, the variable definitions, and the phase times;
  - `metrics` — how long each phase takes.

The command line (`app/`) has two commands: `trace` runs one test under forge's
debugger, which writes the debug dump; `symbols` scans a workspace and lists the
files that declare a contract of a given name.

Each public function states its result in its `ensures` clause; the properties
that span several functions are stated and proved as `law_*` proof functions.
