# Radar AVL

An air-traffic radar kept as an AVL tree of flights ordered by altitude, verified with Verus.

- `src/modelo.rs`: flights and nodes, the model of a tree (its contents as a map from
  altitude to flight code, its height), the ordering and balance invariants, and the
  height bookkeeping.
- `src/rotaciones.rs`: single rotations and the lemmas on what they keep.
- `src/insercion.rs`, `src/eliminacion.rs`: insertion and removal with rebalancing.
- `src/consultas.rs`: search by altitude and counting flights in an altitude band.
- `src/recorridos.rs`: the in-order listing and the rows of the sideways drawing.
- `src/leyes.rs`: properties of the radar as a whole.
- `app/main.rs`: the demo program, which prints the radar as it is built and emptied.
