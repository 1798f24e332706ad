# tinyrender

A small software rasteriser. The library (`src/`, verified with Verus) holds
the integer and text logic; the program around it (`app/`) holds the
floating-point camera, shading and rasterisation code, the command line and
file I/O.

Library modules:

- `grid_position`: integer screen positions and their row-major buffer index.
- `line`, `line_laws`: Bresenham segments and triangle outlines on a pixel
  buffer, with the pixels of a segment given in closed form and proved laws
  (symmetry, endpoints, 8-connectedness, half-pixel accuracy, bounding box).
- `image`: turning a row-major image upside down.
- `tga`: encoding an image as a 32-bit TGA file through the `tgar` crate.
- `batteries`: the pixel type and random colours through the `rand` crate.
- `text`, `numbers`: whitespace splitting, splitting at a character, and the
  grammars of `usize` and `f32` literals as the standard library reads them.
- `obj`, `obj_laws`: the Wavefront OBJ reader (vertices, normals, faces);
  coordinates are kept as their text, which is always a valid `f32` literal.
