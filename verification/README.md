# vxl_phys

The logic of a deterministic rigid-body physics engine, verified with Verus.

- `src/` is the verified library: finding contacts, grouping bodies into islands,
  the cache of impulses, the order of the sweeps, sleep, joints, terrain, ropes,
  state hashes. Every number is the bit pattern of a single-precision float; the
  library compares and negates numbers, and takes their arithmetic as closures.
- `app/` is ordinary Rust around it: the floating-point formulas, and the threads
  that solve groups of islands side by side.
- `tests/` runs the library on scenes in single precision and on plain values.

What the library promises of whole runs stands in `src/` as public proof functions.
Some of them: the number of threads changes nothing in a solve or in what colliding
finds, solving an island depends on its own bodies only, contacts push only and start
from what an earlier solve stored under their key, the order of unions is free, pinned
particles of a rope stay, extraction takes every voxel once, fracture keeps the number
of cells, equal states have equal hashes, and an island sleeps as one.
