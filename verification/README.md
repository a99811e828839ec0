# msiviewer

Reads Windows installer packages: where each file of a package installs, which
stream holds its embedded cabinet, and a safe layer over the native installer
library. The library under `src/` is verified with Verus; `app/` holds the
programs around it (file and network I/O, async serving, the C interface).

- `src/dirtree.rs` resolves the `Directory` table into full paths, and decides
  whether that walk ends.
- `src/package.rs` reads table cells into directory rows, file paths and the
  cabinet's stream name.
- `src/names.rs` takes the long part of a `short|long` name.
- `src/bindings.rs` holds the codes and flags of the native library.
- `src/wrapper.rs` decides what reaches the native library's calls.
- `src/scan.rs`, `src/events.rs` and `src/chat.rs` hold the decisions of the
  change stream and of the chat client's event stream.
- `src/columns.rs` writes the listing of a table's columns.
