# livewalk

Static analysis and navigation of source code: a call graph of a repository (Rust,
TypeScript, Python and Go), metrics and engineering lenses over it, and the questions
one asks while walking through unfamiliar code: where does it start, how is it
organized, what calls this and what does it call, how does control get from here to
there.

- `src/` is the library. Every function is verified with Verus against its contract;
  the contracts speak of mathematical models of graphs, trees, reports and texts. Calls
  into `petgraph`, `tree-sitter` and a few functions of the standard library stand
  behind trusted items in `arena.rs`, `syntax.rs`, `naming.rs` and `text.rs`. Laws that
  relate several functions are proof functions whose names begin with `law_`.
- `tests/` runs the library on concrete sources and graphs.
- `app/` is the `lcw` command: files, settings, JSON, and the layout of the graph view.

Fractions in the configuration are held as whole millionths, and measurements as exact
quotients, so that thresholds are decided without rounding.

No advisor is built in: a fresh report holds no suggestions and leaves the vertical
unknown, and the fields are there for the caller to fill.
