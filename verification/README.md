# vmdk

Flat VMDK disk images (`monolithicFlat` and `twoGbMaxExtentFlat`), verified with Verus.

- `src/` decides: what a descriptor says (`text`, `lines`, `descriptor`), which open files are
  trusted (`path`, `trusted_root`), and how the worker serves a guest request on the extents of an
  image (`extent`, `transfer`, `worker`, `flat`, `disk`, `error`). `image` states what requests do
  to the bytes of the virtual disk: a read gives back what was written, a write changes nothing
  else, a request that an extent forbids moves nothing.
- `app/` does the I/O that the library asks for. It checks the preconditions of the library's
  functions before it calls them.
- `tests/` runs the library.

The worker does no I/O itself. Of a request it says which action is due (`next_action`); the caller
performs it and hands back what came of it (`resume`), until the request has finished or failed.

Two functions of the standard library are taken on trust: `String::from_utf8` and
`String::from_utf8_lossy`.
