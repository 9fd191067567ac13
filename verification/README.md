# rc_carve

Signature carving for damaged and formatted storage, verified with Verus.

A scan finds files by their headers, puts every match to a validator that walks
the format's own accounting, and reports where each file begins, how long it is,
and how far that can be trusted. Files that lie in pieces are searched for and
put together again.

## Layout

| Path | What it is |
|---|---|
| `src/signature.rs`, `src/prefilter.rs` | The table of formats, and the index that finds their headers. |
| `src/scan/` | The scan: blocks, header matches, validation, containment, and scans that are stopped and taken up again. |
| `src/validate/` | One validator for each format. |
| `src/bifrag/` | The search for the fragments of a file. |
| `src/cmd/`, `src/output.rs` | What the commands decide, and what they say. |
| `src/search.rs`, `src/hash.rs`, `src/text.rs` | Calls into `memchr`, `sha2` and the standard library, with what is trusted of them. |
| `app/` | The `rc` program: arguments, devices, threads and files. |
| `tests/` | The library, run. |

## What is proved

The functions of the library state what they return, or how they change what
they are handed, on the inputs that they accept. Beyond that, proof functions
state what holds of the library as a whole, among them:

- a scan passes nothing over that stands in its range, and accounts for every
  header match (`scan`);
- a scan may be split anywhere, or stopped and taken up again, and finds the same
  candidates (`scan`, `scan::session`);
- what is dropped as contained lies inside something complete (`scan::contain`);
- no validator claims more bytes than it was given, unless the file's own header
  states how long it was (`validate`);
- what follows a complete file changes nothing, for formats that point into
  themselves (PE, ELF, ZIP, MP4, PDF) where they do so without leaving the file
  (`validate::trailing`);
- one damaged byte in a chunk of a PNG is told as just that (`validate::png`);
- what a validator finds that cannot belong, more bytes do not mend
  (`validate::trailing`, `validate::lasting`);
- a walk of a SQLite database counts no page twice, and damage is always on a
  page that the database has (`validate::sqlite_pages`);
- every way to prefilter flags the same positions (`prefilter`);
- the pieces that a search reports spell the bytes that its validator accepted
  (`bifrag::laws`), and every search comes to an end within its budget
  (`bifrag::ending`).
