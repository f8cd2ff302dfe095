# region

A library for Minecraft region files, with contracts proved by Verus.

- `src/models/anvil.rs`: the anvil format (chunk table, sector-aligned chunk
  data, external `.mcc` chunks).
- `src/models/linear_v1.rs`, `src/models/linear_v2.rs`: the linear formats
  (superblocks, bucket grids, chunk bitmaps, feature tables).
- `src/mclinear/`: the bucketed linear v3 format, coordinates in file names,
  external chunk files, and telling file kinds apart.
- `src/region.rs`, `src/features.rs`: regions, chunks and feature tables.
- `src/codec.rs`: the hash and compression functions of the outside crates
  that the formats use (`xxhash-rust`, `zstd`, `flate2`, `lz4_flex`), each
  behind a small trusted wrapper.
- `src/bytes.rs`, `src/utils.rs`, `src/split.rs`: byte encodings, decimal
  parsing, and dealing work out to threads.
- `app/main.rs`: the command-line converter (directory walking, file I/O,
  threads).

Writers come with read-back laws in their contracts: a written anvil file,
v2 bucket grid, v3 region, header, table or feature map reads back as what
was written.
