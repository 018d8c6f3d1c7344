# worldrenderer

The core of a globe renderer that streams terrain, imagery, models and vector
shapes. `src/` is the library, verified with Verus; `app/` is the browser program
around it (WebGPU, workers, the page), which holds what is floating point or I/O.

- `tiling`, `tiles`: the addresses of tiles and the store that holds them.
- `quadtree`, `residency`, `census`: which tiles are drawn and asked for in a frame,
  which keep their slots, and what is told of them.
- `stream`, `worker`: the queue of jobs, the workers that take them, and what a
  worker keeps track of.
- `gpu`, `terrain_gpu`: upload budgets, slots and sizes on the device.
- `terrain_mesh`, `vector`: indices, parents and skirts of terrain, and the batches
  of polygons, tubes, lines, icons and markers.
- `imaging`, `glb`, `model`: images and models from the bytes that hold them.
- `scene`, `tool`, `input`: models and flights, the tools, and what the keys and the
  mouse do.
- `report`, `text`, `bytes`: reports as text, and words as bytes.

Heights and positions that the library only carries are bits of floats. Decoding
PNG, JPEG and glTF is left to the crates `png`, `jpeg-decoder` and `gltf`; what is
taken from them without proof is said where they are called.
