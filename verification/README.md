# metatron_qso

The verified core of a quantum framework built on the 13-node Metatron Cube.

`src/` is the verified library:

- `graph` — the 13 nodes and the 78 edges of the cube (the complete graph on
  its nodes), neighbours, degrees, connectivity, diameter, adjacency and
  Laplacian matrices, the symmetries that keep each node class (all of
  them, each once), every member of the full symmetry group by number
  (13! of them, each exactly once), the order of that group and the node
  orbits, and the export to `petgraph`; with the laws that the cube is
  connected and 12-regular and the handshake law.
- `ansatz` — parameter bookkeeping of the variational circuit templates.
- `dtl` — the classes of Dynamic Tripolar Logic and their connectives, with
  their Boolean, De Morgan and absorption laws.
- `quantum` — dimension and index checks of states and operators.
- `circuit` — backend-agnostic circuits and measurement counts.
- `backends` — backend capabilities, the IBM configuration, its validation
  and dry-run stub, and the local simulator's tally of sampled outcomes.
- `registry` — backend registration and the selection rules of each mode.
- `telemetry` — the bounded job list and metric history of the telemetry
  service.
- `text` — decimal and binary rendering of numbers.

`app/` holds what the verifier does not see: complex state vectors and
operators, trajectories and other floating-point computation, reading the
environment and configuration files, and the serde forms of the records.

`tests/` exercises the library on concrete values.
