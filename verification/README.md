# pipe_chain

A chain of hinged pipe links with liquid flowing through it. The link at the
start of the chain is anchored; each step moves every other link, using the
chain as it stood before the step.

- `src/chain.rs`: one step (`step_all`) and several steps (`step_many`) of the
  chain, with proofs that the anchor stays put, that the length is kept,
  that steps compose, that a link's new state depends only on it and its
  neighbours, and that a step keeps whatever the update of a link keeps.
- `src/generate.rs`: building a fresh chain (`generate_chain`), and proofs
  that a built chain keeps its length and the measures of its links through
  any number of steps.
- `src/controls.rs`: when the control panel asks for a new chain.
- `app/`: the nannou window, the egui panel and the floating-point physics of
  a link, which the library receives as closures.
