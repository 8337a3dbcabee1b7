# pyq

A queryable code graph for Python: who calls a symbol, what it reaches, what it
touches, which tests cover it. Every answer is one envelope, for people or as JSON.

## Layout

- `src/` is the library, verified with Verus. It turns sources into facts
  (`extract`), facts into graphs (`callgraph`, `hierarchy`, `imports`), and graphs
  into reports (`symbol_reports`, `graph_reports`, `structure_reports`,
  `surface_reports`, `import_report`, `effects`, `describe`, `canonical`,
  `change_cov`). `output` and `json` render them. `cache`, `channel` and `upgrade`
  hold the decisions of what is kept, followed and installed.
- `app/` is the program around it: arguments, files, git, the network, the test
  suite, and the type checker `ty`, which answers where names lead.
- `tests/` runs the library on small projects.

## What is proved

Each function's contract says what it returns, over texts, sequences and maps. The
functions named `law_..` state what holds across functions: that a closure is found
once and completely, that a recorded graph answers as the one it was recorded from
(of the kinds of callable that it has names for), that reported cycles are the cycles,
that a walk with kept facts gives what reading every file gives, and others.

Parsing Python, JSON and TOML, hashing, and a few functions on characters are taken
from other crates and from std. What is believed of them stands above each wrapper.
