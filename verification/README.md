# voxel_svo

The core of a voxel editor: a sparse voxel octree stored as a flat array of
GPU-ready nodes, the editing operations on it, and the integer geometry and
small state machines around it, with their behaviour stated as contracts and
proved with Verus.

World coordinates are integers in grid units; one grid unit is 1/64 of a
world unit, the edge of the finest voxel.

## Layout

- `src/octree.rs`: the octree. Its invariant (`Octree::wf`), what it holds at
  each point (`Octree::material_at`), node allocation and freeing, growing the
  world cube, writing cubes, collapsing uniform subtrees, queries, voxel counts
  and occupied bounds. Every operation that changes the tree also states its
  exact effect on the node array, the free list and the dirty pages (`Store`).
- `src/engine.rs`: 3D Bresenham lines, replaying edits and deltas, history
  actions, brush strokes and world generation.
- `src/types.rs`: tools, gizmo modes, world types, Morton codes, the undo/redo
  history and import estimates.
- `src/voxelize.rs`: packed cell keys, merging surface samples, palette
  assignment and Morton ordering of imported voxels.
- `src/fill.rs`: solid filling of a voxelized surface by flooding air from
  outside its bounding box.
- `src/ui.rs`: the 5x7 HUD font.
- `app/main.rs`: a command-line front end: world generation from fractal
  noise, glTF import, brush strokes, ray casting, and JSON or binary export.
- `tests/`: tests of the library on concrete values.
