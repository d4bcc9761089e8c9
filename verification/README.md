# daybook_core

The logic of Daybook, a voice-first journal that files captures into a
Markdown vault, written in Verus with its behaviour stated in contracts and
proved.

- `src/` is the verified library: how captures are read from the inbox,
  planned into writes (day notes, project and area pages, `personal.md`,
  `ideas.md`, `tasks.md`, the raw archive and the entry index), how those
  files are spliced without disturbing what was written by hand, the
  order in which a plan's writes are carried out (the inbox file goes
  last, and only after every other write succeeded), how the
  entry index is rebuilt from the Markdown, search and backlinks, the
  trash, dates and times in the user's formats, and the prompts and
  replies of the model calls. Public proof functions named `law_…` state
  what holds across calls: a read gives back what a write wrote, filing
  again replaces instead of duplicating, an Overview survives filing, and
  so on.
- `app/` is a small command-line program around the library: file I/O,
  the HTTP calls to the model providers, an MCP server on stdio, and JSON
  through serde.
- `tests/` exercises the library on concrete vault contents.
