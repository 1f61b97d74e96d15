# Silex

Silex is a version-control system whose history, branches and productivity
data (ephemeral chat, todo list) live in SQLite databases under `.silex/db`.
Files are tracked as assets with a stable identity: a file renamed with
its content unchanged keeps its asset. Blob contents are
deduplicated by their BLAKE3 hash and stored compressed; commits can be
signed with Ed25519 keys and audited.

## Layout

- `src/` — the verified library (Verus):
  - `manifest` — a commit's manifest, one entry per path;
  - `status` — the working tree against the head commit;
  - `checkout` — what switching branches writes and removes;
  - `commit` — the rows and the change count of a new commit, renames
    included;
  - `refs` — branches and the feature/hotfix flows;
  - `digest`, `hex`, `compression`, `crypto` — content hashes, their
    hexadecimal form, blob compression, signatures and the audit;
  - `tree`, `sizes` — the repository tree view;
  - `diff`, `console`, `git`, `todo`, `text` — the rendered output, the log's
    paging, the Git import's assets and the smaller helpers.
- `app/` — the command-line program: argument parsing, SQLite, the file
  system, the terminal, the Git import.
- `tests/` — tests of the library.
