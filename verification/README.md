# sim3dview

The terrain data and fetch logic of a browser 3D terrain viewer, written in Verus with
contracts that Verus proves.

- `src/` is the verified library:
  - `loader`: the fetched terrain (level 0 of every tile, per-chunk grids of the finer levels with
    least-recently-used eviction, the level each chunk shows, the grid a height query reads);
  - `fetch`: tile names and URLs, byte ranges, size checks with their messages, grid decoding;
  - `lod_driver`: fetch keys, the concurrency limit, retries with back-off, chunk level moves;
  - `fade`: the bookkeeping of mesh cross-fades;
  - `markers`: the triangle band between dome rings, palette choice;
  - `draw_tool`, `drawing`, `drawing_editor`: shape kinds and hints, the list of shapes made
    (default names, copies, renaming, removal, selection), coordinate-space checks, `#rrggbb`
    colour text;
  - `frame_request`, `targets`, `los`, `camera`: small pieces of view logic.
- `tests/` runs the library on concrete values.
- `app/` is the browser side: HTTP requests, timers and the floating-point helpers.
