# multifractal-workflow

A verified library for manufacturing process geometries (POWL models) from plans,
admitting untrusted observations through a chain of gates, and the small decision
functions and receipts that tie the workflow families together. `src/` is verified by
Verus: its public functions carry contracts, and the few private helpers without one
(the geometry refusals' diagnostic texts among them) are still checked to be free of
panics and overflow.

Layout:

- `src/` — the library, one module per concern:
  - `relation`, `text`, `lex`, `digest`: pair relations and their closure, string
    helpers, lexicographic sorting, BLAKE3 and hex digests;
  - `powl`, `routing`, `plan`, `grouping`, `geometry`, `geometry_detail`, `shape`, `shape_laws`, `turtle`:
    the model, plans, the geometry builder with its refusals, the shape validator, the
    Turtle serialization and the laws relating them;
  - `growth`, `graft`: bounded descent, growth gates, grafting a manufactured child;
  - `contraction`, `projector`, `planning`, `datalog`, `runtime`: the contraction state
    machine, planning refusals, closure digests and residue comparison, and the local
    runtime's tick decisions;
  - `admission`: the observation admission gates and ledger;
  - `crown`, `case_text`, `case_closure`, `obligations`: the crown witnesses' receipts,
    dispatch decisions, and the text extraction and record building of the case run.
- `tests/` — tests run against the compiled library.
- `app/` — a command-line front end that reads a plan from JSON and prints its model.
