# geo

A small 3D geometry toolkit and a path tracer built on it. The parts that
need no floating point are a library verified with Verus; the rest is an
ordinary Rust program around it.

## Layout

- `src/` — the verified library
  - `image.rs`: raster images (`Image<PIXELS>`), per-pixel mutable access,
    netpbm (`.pgm`/`.ppm`) encoding.
  - `text.rs`: whitespace splitting, keyword comparison, decimal integers.
  - `bytes.rs`: little-endian integers read through `byteorder`.
  - `mesh/stl.rs`: binary and ASCII STL grammars, format detection.
  - `mesh/obj.rs`: the OBJ line grammar, face index resolution.
  - `stl.rs`: streaming reader over binary STL facets.
  - `spatial_index.rs`: the counting decisions of the k-d tree split.
  - `spatial_index/bvh.rs`: the shape of a bounding volume hierarchy and the
    pruned depth-first walk that answers its queries.
- `app/` — the program: vectors, boxes, rays, signed distance fields, the
  BVH and k-d tree over `f64` geometry, the camera, materials and renderer,
  file I/O. It calls the library for everything listed above.
- `tests/` — tests of the library on concrete values.
