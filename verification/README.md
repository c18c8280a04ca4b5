# binary_preview

The logic behind a language server that shows hover information for numeric
literals and binary file paths in source code, verified with Verus.

- `src/binary/`: summaries of PE, ELF, Mach-O, universal Mach-O and archive
  files, read from their bytes.
- `src/hover.rs`: finding the literal or path under the cursor, the integer and
  floating-point previews, the hex dump and the hover texts.
- `src/launcher.rs`: how the editor extension finds, reuses or installs the
  server, as a state machine that its host drives.
- `src/text.rs`: strings, digits, number parsing and sorted name sets shared by
  the rest.
- `app/`: the language server itself (file reading, the LSP transport) and the
  Zed extension that drives the launcher.
