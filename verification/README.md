# legend_keeper_mcp

An MCP server over Legend Keeper world files (`.lk`: gzipped JSON), with its
logic written in Verus and proved against its contracts.

It reads the worlds of a directory (and keeps them in step with the files),
answers queries over them (resources, trees, search, calendars, maps,
boards), and builds new worlds: resources and documents written in markdown,
templates copied from the loaded worlds, then exported as a `.lk` file.

## Layout

- `src/` — the verified library.
  - `text.rs` — strings as character sequences: trimming, lines, search,
    decimal and ordering, with their specifications.
  - `json.rs` — JSON values as plain data (`JsonValue`) and their model
    (`Json`).
  - `lk/` — the world model: `schema.rs` (records), `store.rs` (queries over
    loaded worlds), `builder.rs` (the draft world and its edits),
    `board_gen.rs` (graphs laid out as boards), `io.rs` (ids, timestamps,
    the export hash), `archive.rs` (the gzip layer of `.lk` files),
    `pos.rs` (order keys for new items).
  - `prosemirror/` — markdown to ProseMirror JSON (`from_markdown.rs`, over
    the CommonMark XML of the markdown parser, `md_xml.rs`, and the pipe
    tables it does not read, `md_lines.rs`) and back (`to_markdown.rs`).
  - `server/` — what the tools compute: the markdown views of resources,
    documents, maps (with the base64 of map images) and boards, tag
    merging, and batches of resources.
- `app/` — the program: file reads and writes, the directory watcher, image downloads, the
  MCP transport, the serde forms of the records, and the parts of the views
  that print floating-point numbers.
- `tests/` — tests of the library.
