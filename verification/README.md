# gpx_tile_generator

Turns GPS tracks into Web Mercator raster map tiles.

- `src/` is the verified library: splitting tracks into per-tile polylines
  (`track`), the `.bin` polyline dump (`bin_codec`), cutting batches into GPU
  render passes (`gpu`, `batch`), the indexed-coverage PNG and its repainting
  (`raster`, `png_chunks`, `crc`). The modules `track_laws`, `gpu_laws` and
  `repaint` state what holds across functions.
- `app/` puts floating point around it: projection, rounding to half precision,
  stroking with tiny-skia, and the GPU.
- `tests/` runs the library.

The library takes coordinates and widths as the integers that have their IEEE
754 bits. It does no arithmetic on them.
