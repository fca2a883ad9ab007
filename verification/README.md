# erosion

Index bookkeeping for procedurally grown stone meshes, verified with Verus.

- `src/modular.rs`: cyclic arithmetic on vertex indices, on a cycle `0..n`
  and on a ring `first..=last`, with the laws that a step forward by the
  distance between two vertices lands on the second, and back.
- `src/rings.rs`: stitching an inner and an outer ring of vertices into a
  band of triangles; the band only names vertices of the two rings, and its
  fans go round the inner ring a whole number of times.
- `src/plan.rs`: the plan of rings a stone is made of (how many planes, how
  large each ring is, where each ring's vertices start), and the triangles
  that join each new ring to the mesh.
- `src/flow.rs`: the random tree that links the nodes of a lava flow.
- `src/random.rs`: the one call into `rand` that the library makes.

`app/` holds the floating-point geometry (random points on planes, angles,
nearest vertices, camera moves) and a small program that grows two stones.
