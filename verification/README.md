# devil_connection_patcher

An installer for a Korean translation of the game でびるコネクショん. It
finds the game's Steam install, backs up its `app.asar`, extracts the
archive, copies the bundled translation folders in, repacks the archive
(native libraries go to the `.unpacked` sidecar folder) and cleans up; if
the install fails or is cancelled, the untouched archive is put back.

## Layout

- `src/` — the library, verified with Verus:
  - `asar/` — the archive format: header frame, JSON directory tree, file
    entries, packing layout, SHA256 block integrity, the sidecar glob,
    progress reporting;
  - `steam.rs`, `detect.rs`, `steam_dirs.rs` — where Steam and the game
    are, and whether the game runs;
  - `path_order.rs` — paths compared by their components, as `std::path`
    compares them, and ordered sets of paths;
  - `installer.rs`, `install.rs` — the install flows as state machines that
    decide what to report and what to do next;
  - `ui.rs`, `session.rs`, `config.rs` — the window's state and the
    session's rules;
  - `text.rs` — string helpers.
- `app/` — the programs around the library: file-system work, the egui
  window, the Tauri commands.
- `tests/` — tests of the library.

Building the programs needs the `patches/` folder and the `assets/` files
(icon and font) next to the manifest; they are bundled at build time.
