# ganet

Spiking neural networks evolved by a genetic algorithm, with the network
and the gene pools verified with Verus.

- `src/` is the verified library. Network numbers are generic (`S`). The
  contracts give structural facts (which nodes, links, signals and ticks)
  for every number type. Their numeric clauses hold only under `exact`
  (and, where arithmetic may fail, `total`): that the type's operations
  follow their Verus specifications. vstd establishes this neither for
  `f32`, which the program uses, nor for the integer types, so for the
  types shipped the numeric clauses say nothing; they are exercised by the
  tests only.
  - `table`: an insertion-ordered map (one entry per key).
  - `node`, `link`, `net`: neurons, synapses, the network and its schedule.
  - `run`: ticks and cycles; `feedback`: scoring back along the links;
    `clean`: dropping hidden nodes that no input reaches.
  - `mutate`, `mutations`: the mutations of a network.
  - `gene`, `ga`, `gapool`: alleles and their selection and eviction, the
    leaderboard, building networks from the pool, validation slices.
  - `fitness`: scoring one sample; `dataset`: data set parts and the
    names of input and output nodes; `util`: random draws, clocks, scans.
- `app/` is the master program: configuration, MNIST loading, the TCP and
  HTTP services, checkpoints, and the floating-point arithmetic of scores.
- `tests/` runs the library on concrete values.
