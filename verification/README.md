# cvcls_rs

Image-processing exercises (pixel access, grey-level histograms, point
operations, geometric transforms, 3 x 3 filters) as a Verus library.

- `src/` is the verified library. Images are the `image` crate's
  `RgbImage` / `GrayImage`, held in `buffers::RgbImage` / `buffers::GrayImage`
  and described by their dimensions and pixel maps; every operation states the
  exact image it returns.
- `app/` is the program: it decodes and encodes PNG files, and holds the steps
  computed in floating point (grey conversion, interpolation, rotation angles,
  Otsu's variance, the look-up tables of the grey-level transforms), which it
  hands to the library as index maps, tables and thresholds.
- `tests/` runs the library on small images.
