# explorer_lib

A file-tree explorer. A directory is scanned into a tree in which every
directory records the total length of the files beneath it; the tree can list
the full paths of its files and drop the files whose extension is not listed
or whose length falls outside a range.

- `src/` — the library, verified with Verus:
  - `tree.rs`: metadata, entries, the explorer and its construction from a scan;
  - `paths.rs`: appending a name to a path, and file-name extensions;
  - `base_funcs.rs`: listing (`flatten`) and filtering (`filter`);
  - `laws.rs`: what filtering keeps and preserves;
  - `apis.rs`, `video_compress.rs`: entry points built on the above.
- `app/` — reading the file system, the serde forms of the types, and the video
  re-encoding program that runs the encoder.
- `tests/` — tests of the library on hand-built scans.
