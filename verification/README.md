# zttl

A terminal note-taking application over a graph of Markdown notes, with the
note model, parsing, graph index, navigation and rendering decisions written
and proved in Verus.

Notes are Markdown files with YAML frontmatter. The index joins them by
containment (`parents:` in the frontmatter, or membership in an area or
project note that links to them), by links (`[[Title]]` or `[[slug]]`) and by
block transclusions (`((block-id))`). A reference names a note by id, then
by title, then by slug; of several notes with one title, a link prefers those
in the linking note's containment context, then the most recently edited. A
note that some reference names and that has no id gets a ULID when the vault
is indexed, and the program writes it into the note's frontmatter.

Two views browse the same notes: the ego view (a note and what it refers to
and what refers to it, as a foldable outline) and the spatial view (the
containment hierarchy as columns).

## Layout

- `src/` — the verified library.
  - `text`, `parser`, `model`: characters, frontmatter splitting, the body
    grammar (links, transclusions, bullets and their block ids).
  - `store`, `keys`, `graph`, `graph_laws`, `fuzzy`: the graph index over
    petgraph, name tables, reference resolution, containment closure, fuzzy
    lookup, and the laws of the index.
  - `app`, `app_laws`: the navigation state, its operations, and the laws
    of the ego outline.
  - `ui`: the keymap and pane widths (`ui`), the text of the navigation pane
    and status bar (`nav`), Markdown to styled blocks (`markdown`), heading
    images (`header_image`), editor layout (`editor`), colors and palette.
  - `vault`: which files of a vault are notes and how a file becomes a note.
  - `font_profile`: reading the terminal's answers about its font.
- `app/` — the program: terminal setup and event loop, disk access, YAML
  decoding, and drawing with ratatui.
- `tests/` — tests of the library.
