# rust_macos_gui

A small macOS text viewer (AppKit through the Objective-C runtime) whose text
logic is a Verus-verified library.

- `src/` — the verified library:
  - `thousands`: decimal numbers with thousands separators for the status bar;
  - `text_offsets`: UTF-8 byte offsets and UTF-16 offsets of character boundaries;
  - `words`: words as maximal runs of letters and digits;
  - `highlight`: the UTF-16 ranges of the marked words (every fifth, from the third);
  - `document`: file name, line count, status-bar texts, accepted file types;
  - `url`: which addresses are fetched.
- `app/` — the program: Objective-C runtime calls, windows, menus, dialogs,
  file reading, fetching URLs with `ureq`, and the floating-point layout and zoom.
- `tests/` — tests of the library.
