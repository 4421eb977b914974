# simplan

A small flight simulator whose terrain, tile and mesh bookkeeping is a
library verified with Verus.

- `src/` – the verified library `simplan`:
  - `quadtree` – the terrain level-of-detail quad-tree and the spawn/despawn
    operations its updates emit;
  - `elevation`, `imagery` – Terrarium elevation and satellite imagery tiles:
    decoding (through the `png` and `image` crates), disk formats, URLs and
    cache file names;
  - `binary32` – exact single-precision encoding of Terrarium heights;
  - `tile_store` – the tile cache's maps and in-flight key sets;
  - `reload` – the frame-by-frame debounce that decides when new data
    rebuilds the terrain, and the delayed despawn of replaced tiles;
  - `raster`, `mesh`, `noise`, `text` – rectangles and labels in RGBA
    buffers, triangle index lists, Perlin lattice hashing and decimal text.
- `tests/` – tests of the library on concrete values.
- `app/` – the Bevy program around it: window, physics, HUD, sky colours,
  flight dynamics, threads, network and disk I/O.

The laws of each module are its public `law_*` proof functions.
