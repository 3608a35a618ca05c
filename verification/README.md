# raytracer

A small ray tracer and rasterizer whose integer and ordering logic is a
library with proved contracts.

- `src/` is the verified library: intervals and axis-aligned boxes (bounds
  held by order keys), the object list's bounding box, bounding-volume
  hierarchy construction, and raster drawing (pixels, Bresenham lines, row
  spans, disk fills, polygon vertex handling).
- `app/` is the program around it: floating-point vectors, rays, materials,
  textures, shapes, the camera, anti-aliased lines, triangle fills, and
  output. It converts real bounds to order keys and back.
- `tests/` exercises the library on concrete values.
