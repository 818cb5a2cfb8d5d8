# Scene graph and mesh data, verified

A small engine core whose logic is proved with Verus:

- `utils::pool` — a generational pool: handles name objects, freed slots are
  reused with a raised generation, and a stale handle never names a new object.
- `renderer::surface` — vertex and index buffers of a mesh: vertex insertion
  with deduplication, the unit quad and cube tables, face normals and tangents
  computed in fixed point, and textured surfaces sharing their data;
  `renderer::tangents` defines the tangent computation.
- `scene` — nodes linked into a tree under a root: linking and unlinking,
  search by name, removal of whole subtrees with their rigid bodies, copying of
  subtrees into another scene, and the propagation of visibility down the tree.
  `scene::graph` holds the mathematical model of the tree and its lemmas;
  `scene::visibility` proves what a traversal leaves in every node.
- `math` — fixed-point vectors (16 fractional bits), the integer square root,
  and triangle normals, whose cross products are halved to fit 128-bit arithmetic.

`app/` holds what stays in floating point: conversion to and from fixed point
and sphere generation.
