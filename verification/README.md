# mip — Markdown Instant Preview, verified

A markdown previewer: a window shows the rendered document and reloads it
when the file changes; a command bar (`:`) runs commands, completes names
and paths with Tab and keeps a history; a table of contents can stand beside
the document or fill the window.

The logic lives in `src/` and is verified with Verus:

- `command` — the command bar's language: parsing, command and setting
  matching, tilde expansion, path completion, the wildmenu, key names and
  the keybinding registry.
- `config` — the configuration's rules and defaults, and where it lives.
- `history` — the command history: pushing, filtering, its file content.
- `markdown` — anchors, the table of contents, section numbers, media
  embeds, the front matter table and the page template.
- `view` — what each command does, Tab completion, the history keys, the
  nesting of the table of contents, the export clean-up and page scripts.
- `watch` — which file events warrant a render, which directories to watch,
  and the debounce of renders.
- `server` — content types of assets and the choice of a port.
- `text` — text over character sequences: search, replace, trim, paths.

`app/` is the program around it: the command line, the files, the HTTP
server, the file watcher and the GTK window.
