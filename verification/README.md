# fem_rs

A small 2D finite element toolkit (Poisson and plane-stress elasticity on
triangles) whose combinatorial core is verified with Verus.

- `src/` is the verified library:
  - `text`: whitespace, fields, lines and unsigned integers of a text;
  - `gmsh`: the reader for gmsh 4.x ASCII `.msh` files, with an exact
    contract over the file's lines (sections, node and element blocks,
    node tags, error cases);
  - `msh_layout`: reading from a line depends only on the lines from there
    on, an unknown `$Name` ... `$EndName` section between sections is
    skipped whole, and the sections read fix the mesh;
  - `keys`: packed `(usize, usize)` keys and the counting lemmas over them;
  - `mesh`, `mesh_2d`, `grid`: 1D and triangular meshes, boundary edges
    and boundary nodes (edges that belong to exactly one triangle), and the
    structured mesh of the unit square with the proof that its grid
    boundary is its topological boundary;
  - `triangle_order`: the boundary does not depend on the order of the
    triangles or of their corners;
  - `elasticity_2d`: the degree-of-freedom layout of two-component fields.
- `app/` holds the floating-point side: element integrals, assembly into
  nalgebra matrices, boundary conditions, solvers, SVG plots, the egui
  viewer and the demo programs.
- `tests/` runs the library on concrete inputs.

Edge counts and boundary node sets are kept as sorted vectors of packed
`u128` keys, not in a `HashMap` or `HashSet`. The results are wanted in
increasing order, and the order in which a hash map hands out its entries
is not specified, so the keys would be sorted anyway. With sorted keys,
the count of an edge is the length of its run, and the proofs go through
multisets of the keys: one structure gives the counts, the distinct keys
and their order.

The floating-point side reads each node's coordinate text as it was read,
in reading order and before any error that stopped the reading
(`read_sections`), so a bad number is refused even in a node that a later
one with the same tag replaces.
