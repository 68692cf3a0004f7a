# notes_inspector

A terminal browser for Apple Notes and Obsidian vaults, with an export of Apple Notes into
an Obsidian vault. The library under `src/` holds its logic, each function with a contract
proved by Verus; `app/` is the terminal program around it.

## Library (`src/`)

- `proto`, `note`, `diagnosis`: the protobuf reader, the note body (text, attachment
  markers, style runs) and its rendering, the note cache, file-name sanitising, and the
  diagnostic view of a note's attachments.
- `export`, `exporter`, `naming`: Markdown of a note from its style runs and attachment
  links, the folder layout of an export, its log, and the naming of exported files.
- `tree`, `notes_tree`, `order`: the notes tree, its arrangement, flattening and lookup.
- `vault`, `walk`, `search`, `paths`: vault files, link extraction and resolution,
  attachment analysis, the vault search and the attachment file search (as machines that
  ask their caller to list directories).
- `markdown`, `preview`, `picture`, `display`, `text`: Markdown parsed with pulldown-cmark
  and shown as styled lines, callouts, half-block images, terminal widths and truncation, and text utilities.
- `nav`, `screens`, `layout`, `schema`: what each key does on each screen, and what the
  list screens show.

Each law of the library is a public proof function named `law_*`.

## Program (`app/`)

Terminal drawing (ratatui, crossterm), the SQLite database (rusqlite), the file system,
image decoding and scaling, and the export thread.
