# compas_forge

Mesh topology and repair routines for fabrication checks, written in Verus.

- `src/` is the verified library:
  - `edges` — fan triangulation, undirected edge keys, edge tallies, boundary and
    non-manifold edge queries;
  - `winding` — consistent face orientation by walking face adjacency, with the
    breadth-first spanning forest that justifies every flip;
  - `orientation` — consistent orientation, and what reorienting does to a surface that
    has one or could have one (it flips nothing the second time);
  - `weld` — merging vertices that share a position signature;
  - `buffers` — flat index/offset buffers and their decoding;
  - `report` — mesh validation, Euler characteristic, genus, topology reports and
    fabrication profiles;
  - `keys` — the order in which numbered records are read.
- `app/` is the Python extension module: buffer and JSON input, floating-point
  geometry (volumes, planarity, collision and clash queries) and the glue that hands
  plain values to the library.
- `tests/` exercises the library on concrete meshes.
