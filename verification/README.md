# gem

Partitioning of and-inverter graphs for bit-parallel execution on a GPU, and the
preparation of their simulation, verified with Verus.

A design is an and-inverter graph with endpoints: outputs, registers, memories,
and nodes that a later stage of the design reads. The library

- maps a set of endpoints to a *partition*, a series of stages in which the
  graph is laid out as a tree of 8192, 4096, ..., 1 cells (`src/pe.rs`);
- merges partitions as long as the result can be mapped (`src/merge.rs`);
- builds the hypergraph of endpoints that share logic, for a hypergraph solver
  (`src/repcut.rs`), and drives the search for the size of the parts
  (`src/cut_map.rs`);
- reports figures about partitions (`src/analysis.rs`);
- turns a value change dump into the input states of a simulation, cuts the
  simulation into chunks that fit into the memory of a device, and decides which
  changes are written into the resulting dump (`src/trace.rs`, `src/chunks.rs`,
  `src/dump.rs` and the modules around them).

Every function has an exact contract over a mathematical model. The modules
whose names end in `_laws`, and the public proof functions of the others, state
what holds of the models: for example that every stage of a partition is a tree
that reads only known values and holds at most 4095 nodes, that only the first
stage reads from outside and reads at most 8191 nodes, that a partition writes
out what its endpoints read within the limit of write-outs, 32 nodes at most for
each, that merging loses no endpoint, that the hyperedges of a design of one stage are the logic that its
endpoints share, and that a reader of the written dump sees the value of every
signal at every time.

`app/` holds the command line programs: reading and writing files, the
hypergraph solver, the simulation kernel, and floating point work.
