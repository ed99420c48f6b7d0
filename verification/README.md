# hash_visualiser

The verified core of a tool that draws how data flows through hash algorithms (SHA-2, SHA-3, …) described in the
`.hv` DSL: a graph of registers, constants and operations wired together, with the values flowing through them.

`src/` is the library, verified with Verus:

- `ast`, `graph` — the syntax tree of a program and the validated graph, with lookups by name.
- `word`, `eval`, `value` — word arithmetic within a configurable word size, and the evaluator that computes the value
  each node shows.
- `inspect`, `map`, `reduce`, `grid`, `stepper`, `viz`, `scene` — what the array visualisations ask of a node: which function it
  feeds, the shape and values of its grid, the reduction or map it takes part in, which step visualisation it gets, and what each press of the step
  controls does.
- `format`, `text`, `describe` — cell text grouped into bytes, node labels, expression labels, and node descriptions
  rendered from markdown (through pulldown-cmark).
- `layering` — the as-late-as-possible layering of the diagram.
- `live` — the live-reload decisions of the development server: which changed files to push, and how.

`app/` draws the diagram as live SVG in the browser (screen geometry in floating point) and runs the development
server; it calls the library for every decision.
