# cortex

The context and memory side-car of an LLM, with its decisions verified by
Verus. Token turns come in; what is joined, committed, grounded, routed and
restored is decided by functions whose contracts are proved.

## The library (`src/`)

| Module | What it holds |
| --- | --- |
| `context`, `context_laws`, `route` | the grow-only follow matrix, its lattice laws, shortest measured paths |
| `lattice` | sketches as sets of bit addresses; the Noether invariants |
| `hashing`, `index`, `kstorage`, `storage_laws` | the reverse index, single-seed and multi-seed storages, their laws |
| `lut` | term frequencies and collision-aware materialization |
| `tree`, `views`, `context_unified`, `working_set`, `unified_laws` | leaves, relational views, the unified context and its joins |
| `grounding` | coverage, novelty and retained links, counted |
| `wire`, `golden`, `passthrough`, `executor`, `executor_laws` | module graphs, the pipeline and verdict runs over a driver, the isolation of tenants |
| `app`, `app_laws`, `message`, `llm`, `role` | the turn loop, commit messages and recovery with their laws, token sources, roles |
| `text`, `order`, `tid` | characters and numerals, canonical sets, the `tid{n}` inscription |

Hash functions and content digests are passed in as functions; contracts say
what they are applied to and what becomes of their results.

## Around it

- `tests/` runs the library.
- `app/` is ordinary Rust: the commit store, the simulator, the `ollama`
  process and the floating-point gauges.
