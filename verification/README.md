# gongwen

A verified library behind a desktop drafting tool for official documents
(公文). Verus proves the library in `src/`: its functions carry contracts,
and the few small helpers without one are proved free of panics and overflow.

## Layout

- `src/text.rs` — characters, bytes and lines: the shared model of text
  (UTF-8 widths, trimming, `str::lines`/`split('\n')` semantics, decimal digits).
- `src/models.rs` — the data of a draft, a layout profile, the vocabulary
  and the settings.
- `src/lcs.rs`, `src/diff.rs` — the version comparison engine: paragraph
  alignment by longest common subsequence, character-level highlighting of
  rewritten paragraphs, and field-by-field comparison of drafts and settings.
- `src/hunks.rs`, `src/hunk_order.rs` — changes grouped into hunks for the
  editor, the revert of one hunk, and why every hunk of a diff can be reverted.
- `src/diff_view.rs`, `src/diff_editor.rs` — state and text helpers of the
  comparison views.
- `src/markdown.rs` — line roles, line positions and the edits of the format
  ribbon (headings, bullets, bold, tidying blank lines, own-line inserts).
- `src/align.rs` — centred and right-aligned regions: the marker governing a
  line, and adding, switching and removing a region's marker.
- `src/table.rs` — GFM tables: finding the table under the cursor, rendering
  cells aligned, merged cells, and row/column/merge edits.
- `src/find.rs` — find and replace through the `regex` crate.
- `src/doc_import.rs` — normalizing imported Markdown and reading the
  frontmatter of research reports.
- `src/form.rs` — the rules of the element form: unit lists, blocked units,
  the people the pickers list, handling-unit rows, and required items.
- `src/widgets.rs`, `src/draft_page.rs`, `src/editor.rs` — small decisions of
  the interface: shortened texts, option trees, unique names, export files.
- `src/crash_log.rs` — the content of crash reports and which old ones go.
- `app/` — the program's side: files, processes, the clock and the panic
  hook, calling into the library.
- `tests/` — tests of the library on concrete values.
