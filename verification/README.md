# fdm

The input side of an elastic-wave finite-difference model, verified with Verus.

- `src/text.rs`: splitting text at a character, into lines and into
  whitespace-separated tokens; decimal integers, read and written.
- `src/util.rs`: a byte buffer with a read position: characters byte by byte,
  little-endian integers, text lines.
- `src/grid.rs`: two-dimensional grids held in `ndarray` arrays.
- `src/grd.rs`: grid files, binary and ASCII (`DSAA`).
- `src/param.rs`: the model parameter file, read and written.
- `src/sw.rs`: model file paths and the node layout of the simulation grid.
- `app/`: the program: file input and output, and the floating-point work
  (velocities, Lamé parameters, the source wavelet, damping profiles).
