# git_blame

Who last touched each row of a buffer, kept in step with the buffer as it is edited.

A blame is generated from what a repository says of a file. From then on, edits of the buffer move
its rows: a row that an edit touched loses its blame, every other row keeps it. Blame is generated
anew when it may be stale, but only while somebody looks at it.

- `src/` is the library. All of it is verified with Verus.
  - `blame`: the blame of a buffer, and what is done when something happens to the buffer, the
    project or its repositories
  - `text`, `edits`: a buffer's text in rows, and the edits between two of its snapshots
  - `row_edits`: the rows that edits touch
  - `entry`, `tree`, `rows`: runs of rows that share their blame, how they are searched, and what
    they say of each row
  - `splice`: those runs after edits
  - `build_tree`, `small`: those runs out of a repository's blame
  - `commits`: what is known of the commits
  - `message`: how errors are shown
  - `renderer`: how blame is drawn
  - `laws`: what holds of the library as a whole
- `tests/` runs it.
- `app/` runs the blame of a buffer inside an editor.
