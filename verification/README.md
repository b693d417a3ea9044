# voxel_mip

A sparse voxel structure over `8 · 4^k` grids, verified with Verus: Morton-ordered
`8³` leaf bricks under a 64-way hierarchy, in two node layouts, with per-leaf
material palettes, incremental edits, ray marches, and the buffer plans of a GPU
renderer.

- `src/` is the library. Every public function has a contract; the `law_*` proof
  functions state what holds across functions.
  - Grids and codes: `coord`, `resolution`, `level`, `morton`, `bits`
  - Contents: `leaf`, `node`, `occupancy`, `fixtures`, `noise`, `palette`
  - Structure: `levels`, `layout`, `sparse`, `assemble`, `school_b`, `mip`,
    `cells` (what each level stores), `builds` (the ways to a tree agree),
    `contents` (what is written reads back)
  - Edits: `brush`, `scene`, `bench`
  - Rays: `traverse`, `oracle`, `course`
  - Devices: `upload`, `kernel`, `truecolor`, `shader`, `bytes`, `error`
  - Tools: `measure`, `compare`, `catalog`, `controls`, `hud`
- `tests/` runs the library on concrete values, with floating-point drivers for
  the marches and the noise.
- `app/` is a command-line tool and viewer around the library: argument handling,
  GPU calls, windowing, and whatever is computed in floating point. Shader and
  noise parameter files are read at run time from `shaders/`, or from the
  directory named by `VOXEL_SHADERS`. GPU traces are recorded through Metal, so
  on macOS only.

A ray march is split in two. The library decides, on integers, which cell is
next, when to descend, and what is a hit; a driver answers where the ray is. The
laws in `course` say what the march meets when the driver is faithful.
