# todo_tree

A tree-shaped todo list with projects, tags, links, statuses, search,
Markdown export and Google Drive synchronisation.

- `src/` is the library, verified with Verus: the task tree and its edits
  (`tree`), normalisation and the application state (`state`), projects and
  the active tree (`projects`), search (`filter`), Markdown export
  (`markdown`), the text fields (`fields`, `text`), the Drive requests and
  their effect on the state (`drive`) and what the interface shows (`ui`).
  Each public function states its result over a mathematical model of the
  data (`NodeModel`, `StateModel`, ...); the laws that relate several
  functions are the public `lemma_*` proof functions.
- `app/` is the Leptos web application around it: the interface, IndexedDB
  storage, JSON (de)serialisation and the HTTP calls to Google Drive.
- `tests/` runs the library on concrete values.
