# lifeview

A Lenia-style continuous cellular automaton. The library under `src/` holds the
parts of the simulator that are integer and text logic, each with a contract
proved by Verus:

- `vector`: integer positions and offsets.
- `grid`: the toroidal grid layout (cell index and position, wrapping,
  neighbour lookup, placing shapes, kernel offsets, the kernel count that
  averages growth, resizing cell buffers, clamped sampling positions).
- `lattice`: the integer points of a square within a band of squared
  distances, shared by kernels, discs and rings.
- `compressed`: the compressed text format of life forms.
- `shapes`: which cells a shape has and where they sit.
- `coloration`, `rule`: choosing a colour map; the state type.

The program under `app/` runs the simulation with Bevy and egui: the f32 cell
states, growth functions, colour maps, rendering and user interface.
