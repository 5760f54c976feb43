# nbt_editor

An editor for Minecraft NBT documents and a reader/writer for MCRegion
(`.mca`) region files.

- `src/` is the verified library:
  - `mcregion`: the on-disk layout (header and timestamp tables, chunk
    record shape, codecs and errors);
  - `reader`: reading header entries, timestamps and chunk records;
  - `allocator`: the free-sector runs of a region, which stay coalesced over
    any series of calls that frees only sectors not already free;
  - `writer`: writing, replacing and freeing chunk records. Proved laws:
    a written chunk reads back, except when its record (length field,
    compression byte and payload) fills a whole number of sectors, where the
    header claims one sector more than was written and the read fails; a
    write leaves every other chunk reading as it did, provided that chunk's
    record lies inside the file, overlaps no free run and not the record the
    write replaces (which holds for a writer built from a region whose
    records do not overlap); and a write keeps a region soundly laid out (free
    runs coalesced, records inside the bytes, apart from one another and from
    the free runs), so that both laws carry over any series of writes with
    the same exception. Timestamps are read and written as `u32` values in
    the machine's byte order;
  - `codec`: gzip, zlib and LZ4 through `flate2` and `lz4_java_wrc`;
  - `sector_buffer`: region bytes kept on a sector boundary (`aligned_vec`);
  - `coords`: enumeration of the chunk coordinates;
  - `document`: stored NBT documents and the save/load decisions of a tab;
  - `tabs`: tab ids and titles, and the ids of the nodes of the tree view;
  - `i18n`: the cache of the most used translated texts.
- `app/` is the egui application around it: windows, dialogs, files,
  translations, and the NBT tree itself (`simdnbt`).
- `tests/` exercises the library.
