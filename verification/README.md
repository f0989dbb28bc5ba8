# noosphere

A small desk organiser: a task list kept in SQLite, and a reading list whose
page-count field shows how far each book has been read.

- `src/` is the verified library (Verus): `text` (white space, trimming,
  decimal numerals, numbered labels), `tasks` (the task board and what it
  does with the store's answers), `books` (the page-count field).
- `app/` is the window (Dioxus) and the SQLite store (rusqlite); it hands
  the library plain values and applies what the library decides.
- `tests/` runs the library on concrete inputs.
