# orc_sdk

The data structures and algorithms of the ORC plugin SDK, written in Verus
and proved against their contracts.

- `src/` is the verified library:
  - decks (`deck`, `layout`, `view`, `writer`, `text`, `literal`): nested
    lists stored as a flat item buffer plus marks, with cursors that read and
    write them level by level, and their text renderings;
  - `combinations`: the loop a plugin function runs over the combinations of
    its input decks, broadcasting the last group of shallower inputs;
  - `context`, `registry`, `types`: resources and values kept by `u64` ids;
  - `dims`: physical dimensions as exponent vectors;
  - `graph`, `nested`, `topo`: the workflow graph, its garbage collection and
    a depth-first topological order that reports cycles;
  - `graph_io`, `msgpack`: the MessagePack layout of a graph, written and read
    through `rmp`, with the laws that a read gives back what a write wrote;
  - `workflow_io`, `workflow_read`: the workflow file around the graph (node
    infos, labels, comments, workflow inputs and outputs, nested workflows),
    written byte for byte as its contract states and read back with every
    error case stated;
  - `workflow_law`: the law that reading a written workflow file gives back
    every entry of the workflow, nested workflows included.
- `tests/` runs the library on concrete values.
- `app/` holds what the library leaves out: raw pointers, `Display` and
  `std::error::Error` impls, and byte-buffer plumbing around `rmp`.
