# terrain_raymarch

A heightmap terrain renderer that raymarches a square ring buffer of terrain
quads on the GPU. This crate holds its integer logic, verified with Verus:

- `grid`: rounding the buffer edge to a power of two, the buffer layout that
  follows, and the slot of each voxel in the ring buffer.
- `terrain`: which voxel each slot holds, and the per-frame decision of which
  voxels to regenerate (the whole window on the first frame, the edge strips
  while the player moves), with the changes sorted by slot.
- `batching`: grouping the sorted changes into runs of consecutive slots, each
  written to the GPU with one copy.
- `chunks`: keys, sets and spawn/despawn decisions of the planet view's chunks,
  and the chunk offsets within a render distance.
- `quad`: the corner vertices of a quad and the points at which heights are sampled.
- `input`: movement input from the keys and cursor grabbing.

`app/` is the Bevy program around the library: windowing, rendering, the noise
height field and all floating-point geometry.
