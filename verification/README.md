# bunle

A container for page images (comics, scans): pre-encoded pages are stored back to
back behind a small index, optionally inside a RIFF/WebP cover so that the archive
also opens as an image.

- `src/` — the verified library (Verus):
  - `format.rs`: byte layout, index records, `read_index`, `extract_page`, writers;
  - `pack.rs`: `pack` and the model of the bytes it writes;
  - `roundtrip.rs`: proofs that reading gives back what packing wrote;
  - `validate.rs`: structural validation;
  - `unpack.rs`: page file names and contents for unpacking;
  - `encode.rs`: preparing source images (passthrough or decode), extension filter;
  - `jxl.rs`: recognising JPEG XL (bare or boxed, whole or in parts) and reading its size header;
  - `select.rs`: choosing and ordering the source files of a directory;
  - `info.rs`: JSON and text descriptions of an index, and the summary after packing;
  - `messages.rs`: texts of the errors.
- `app/` — the command-line tool: directory walking, file I/O, WebP encoding.
- `tests/` — tests of the library.
