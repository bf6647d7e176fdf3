# wgpu_buffer

The logic of the wgpu buffer libraries of a planetary renderer, written in Verus with its
contracts proved:

- `atlas`: column layouts of texture atlases — a growable flat atlas (`atlas::flat`), an atlas of
  planes uploaded incrementally as a texture array (`atlas::array`), and a plain atlas of planes;
  the two atlases of planes share their column rules (`atlas::planes`).
- `layer_pack`: the layer-pack file format (header, index items, tile data) and its writer cursor.
- `quad_tree`: the tree of terrain tiles built from layer packs, and the per-frame votes on which
  tiles are needed.
- `tile_cache`: the atlas slots, load queue and read states of the terrain tiles on the GPU.
- `frame`: how the tree's per-frame report and the cache fit together.
- `tile_decode`: decompressing tiles and widening colour tiles to RGBA.
- `tile`, `subdivision`, `shader_shared`, `font`: tile geometry, detail presets, subdivision
  arithmetic, bind group slots and font metrics.

`app/` holds what touches files, images and floating point: writing layer packs, reading tiles,
the image-holding atlas packers, and the angle arithmetic that feeds the quad tree.
