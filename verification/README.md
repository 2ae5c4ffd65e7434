# light-maps

Vector map tiles: geodata is baked into an immutable PMTiles archive, and archives are
served over HTTP. The rules of both are a library that Verus verifies; the program around
it does the input and output and the floating-point arithmetic.

- `src/` is the verified library.
  - Archive format: `tile_id`, `le`, `varint`, `header`, `directory`, `archive`, `packing`,
    `codec`, `pmtiles` (reader), `writer`, `tile_writer` (streaming writer), `fixture`,
    `inspect`, `order`.
  - Reading geodata: `feature_text` and `json_text` (GeoJSON), `wkb`, `csv_layer`,
    `mbtiles`, `ingest`, `manifest`, `props`, `extent`, `prepare`.
  - Baking: `geometry`, `number`, `clip`, `spatial`, `feature_store`, `tiling`,
    `tile_encode`, `pipeline`, `estimate`, `fields`, `bake_args`, `progress`, `human`.
  - Serving: `config`, `auth`, `server`, `tilejson`, `demo`.
- `tests/` runs the library, end to end in `tests/baking.rs`.
- `app/` is the program: `light-maps bake`, `light-maps serve`, `light-maps example`.

Coordinates are bit patterns of floating-point numbers in the library. It compares them
(`number`) but does not calculate with them: projection, intersection and simplification
are done by the program, which hands their results to the library.

Outside crates are called behind wrappers marked `external_body`. Each says in its doc
comment what is taken on trust. A result that takes long to describe has a name, a
specification function without a body, and contracts speak of that name.
