# hyper-revamp

The configuration, key-binding, input-encoding and pane-layout logic of the
hyper-revamp terminal, written in Verus: every function in `src/` carries a
`requires`/`ensures` contract that Verus proves.

## Layout

- `src/` — the verified library.
  - `json`, `model`, `config`, `typed_root`, `resolve`, `snapshot`, `theme`:
    the JSON config document, its lenient reading into typed options, and the
    root → theme → profile resolution.
  - `keymap`, `keymap_build`, `menu`, `palette`: chord and command parsing,
    the merged and sorted keymap, menu accelerators, the inline palette.
  - `input`, `mouse`, `modes`: key, paste and mouse events to PTY bytes, and
    the pane's decisions on selection, clipboard and wheel.
  - `workspace`: tabs and split-pane trees, with the tree invariant kept by
    every operation.
  - `settings`, `search`, `links`, `term_theme`, `grid`: the settings drafts,
    the search overlay, URL detection, the colour table.
  - `session_state`, `ipc`, `paths`, `env`, `shell`, `ssh`, `ssh_url`: what is
    saved and restored, the single-instance socket protocol, file locations,
    the shell environment, shell fallback and SSH commands.
- `tests/` — ordinary Rust tests of the library.
- `app/` — the program around it: command line, file and socket I/O, the
  file watcher, and the floating-point options.

Calls into outside crates (regex, csscolorparser, egui's colour type,
sys-locale, dirs, slotmap) sit behind small trusted wrappers whose doc
comments say what their contracts assume.
