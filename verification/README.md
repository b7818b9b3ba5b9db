# turiplogic

An editor for digital logic circuits: gates and inputs are placed on a grid,
joined by wires, and the logic levels (high, low, undefined) flow through the
network as inputs are toggled. Every edit can be undone and redone.

## Layout

- `src/` is the verified core, checked with Verus:
  - `logic.rs`: three-valued logic levels and their algebra;
  - `geometry.rs`: integer grid points and the lookup key of a point;
  - `arena.rs`: the generational arenas that store nodes, wires and
    components, with the contracts their operations are trusted to meet;
  - `nodes.rs`: the node network, its lookup table, and the propagation of
    levels through it;
  - `wires.rs`, `component.rs`: wires and components, and how they place,
    move and remove their nodes;
  - `history.rs`: actions, their reverses, and the undo/redo history;
  - `canvas.rs`: the circuit being edited, and every editing operation.
- `tests/` runs the core on concrete circuits.
- `app/` is the program around it: the window, the GPU renderer, the user
  interface, and saving and loading files.
