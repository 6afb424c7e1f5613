# FlintBrain

The core of a note-taking application over a folder of markdown files, the
vault. The files are the source of truth; the index over them is a cache that can
be thrown away and rebuilt at any time.

`src/` is the library, verified with Verus:

- `text`: white space, searching, the order and the letter case of strings
- `frontmatter`: splitting a file into frontmatter and body, and joining them again
- `links`: the `[[wiki-links]]` in a body
- `paths`: which files are notes, their names, and their PARA categories
- `note`: the record of one note, with the fallbacks for what its file leaves out
- `order`: the order of the notes by path
- `titles`: titles as links find them
- `index`: what a rebuild of the index writes
- `tables`: what a rebuild leaves in the tables
- `session`: the state of the application and what its commands decide
- `vault`: where the index of a vault is kept

Each function states its result exactly, over sequences of characters. The
functions named `law_...` state what holds of several of them together: that a
note that is loaded and saved without an edit keeps its text, that the index
depends on the files alone, that every link ends at a note or dangles.

Taken from elsewhere and believed without proof: `String::push`,
`str::to_lowercase`, the RFC 3339 text of a time (chrono) and a random id (nanoid).

`app/` is the desktop application around the library: files, database, file
watcher and window. `tests/` runs the library, its plans against an SQLite
database in memory.
