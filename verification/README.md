# logicsim

Build digital circuits out of logic gates, then simulate them.

A `GateGraphBuilder` creates gates (constants `off()`/`on()`, levers, `Not`, `And`, `Or`,
`Xor` and their negations) and connects them; `output` groups gates whose state can be read
as numbers. `init` optimizes the graph and turns it into an `InitializedGateGraph`, which
propagates lever changes tick by tick.

The library is written in Verus. Its contracts state, among other things:

- `data_structures`: the slab allocator (index reuse, read after insert and remove), the
  bit set with update tracking, the double stack (whose size counts additions minus pops
  that return an item), the bit walker over little-endian bytes.
- `graph`: the well-formedness of graphs under construction and once initialized, that the
  optimization passes keep every lever and output gate and the levers and outputs lists, and
  what each of them does. Const propagation, single dependency collapsing, not
  deduplication, equal gate merging and the merging step of value numbering are each stated
  as a run of steps, every step described exactly in the types and dependencies it leaves
  (which gate goes, and what its readers read in its place); the runs follow the work lists
  the passes keep, so the result is fixed by the graph (and, for value numbering, by the
  hash-derived value numbers). Further: const propagation removes every unobservable gate
  that a constant lists and decides; not deduplication leaves each gate at most one of the
  unobservable Not gates it listed; single dependency collapsing keeps the type of every
  observable gate; dead code elimination leaves no dead gate, keeps the type and
  dependencies of the gates it keeps, keeps every gate that lists a kept gate, keeps the
  dependents lists mirrored among kept gates, and, where every gate is listed by its
  dependencies, keeps what every kept gate computes from the levers (`eval`); dependency
  deduplication leaves one copy of each dependency of an And, Nand, Or or Nor gate and one
  or two (as the count is odd or even) of an Xor or Xnor gate, keeps the dependents, and
  keeps what every gate computes from the levers (`eval`, at every depth);
  `optimize` is the chain of the passes, each related to the next as it states, and `init`
  renumbers the optimized gates contiguously in increasing order, with every lever off and
  every gate computed once, in index order, by the same propagation steps as a tick. A tick is stated as a run of steps, each a visit of one
  queued gate (computing its state, queuing its dependents when it changed or is a lever,
  or deferring it when already updated), a turn of the queue, the start of a deferred gate,
  or the end of the tick; `run_until_stable` is a run of such ticks from unstable graphs.
  Setting, resetting or flipping a lever changes its state (deferring it when that changes
  it) and runs one tick; the `_stable` variants then run until stable, and a pulse does both
  for true and then false.
  `OFF` always reads false and `ON` true, updating a lever sets its state, output gates are
  read as numbers, and once a graph is stable every gate holds the state it computes from
  its dependencies (for graphs whose dependents lists mirror their dependencies, which
  `check_dependents` confirms).
  Value numbering is stated exactly in terms of std's `DefaultHasher` over the little-endian
  bytes of the type number and of the dependencies' numbers; const propagation also drops
  the constants that do not decide a gate. What the passes keep of what gates compute is
  stated on graphs ordered by a rank (`ranked`, so without cycles), where every gate
  settles once given more fuel than its rank (`law_eval_settles`). Each step of each pass
  keeps what the gates settle to: dropping constants, turning a gate into a Not and
  replacing a gate in const propagation, collapsing a gate (whose dependency may take its
  place and its state), merging a Not gate into an equal one, absorbing a dependency in
  equal gate merging, and handing the readers of a gate to one that settles alike in value
  numbering; the whole merging pass keeps it where it leaves every gate that a remaining
  gate reads. The replacing steps need every reader of the replaced gate to be listed among
  its dependents. That the whole of `optimize` keeps what the outputs read is not stated:
  the passes do not state that they keep the dependents lists complete, nor value numbering
  that gates of equal number settle alike.
- `circuits`: the gates each building block adds and how they are wired (exactly for the
  adder, decoder, multiplexers, SR latch, D and JK flip-flops, register, RAM, ROM, counter,
  ALU, output register and I/O buffer), what connecting buses and signal sets adds to each
  gate, the lever states that the I/O buffer's read, write and reset leave behind and the
  settled graph a read takes its value from, and that every gate handed back belongs to the
  graph.

`app/` holds what prints or writes files (dot dumps of graphs, printing outputs).
