# markview

The decision logic of the Markview Markdown reader — tabs and sessions,
command-line checks, the stylesheet and Fonts pages, export planning, search
navigation, keyboard policy — as a library whose behaviour is stated in
contracts and proved with Verus.

## Layout

- `src/` — the verified library. Each module states its model in spec
  functions and proves its executable functions against them:
  - `tabs` — the tab strip and the shown session; laws on reordering,
    switching back, request order and background tabs.
  - `cli` — launch modes, the final command-line checks, keyword, author,
    language-tag and CJK-name reading, legacy flag hints.
  - `paths` — lexical path folding and relative display paths.
  - `anchor` — a link's document part and percent-decoded fragment.
  - `fonts`, `font_panel`, `fonts_command`, `font_dirs` — the Fonts page
    and the `fonts` commands: labels, sizes, filters, downloads being
    followed, and the lines the commands print.
  - `styles` — stylesheet priority, display order and list edits.
  - `export` — PNG strip planning and pasted file names.
  - `search`, `outline`, `keys`, `gestures`, `preferences`, `benchmark`,
    `text`.
- `tests/` — tests that run the library.
- `app/` — the `markview` command-line front end: argument grammar, path
  resolution on disk, `/proc` reading and JSON output.
