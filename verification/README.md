# note_taker_lib

The core of a desktop note-taking application, verified with Verus.

- `src/` is the verified library:
  - `paths.rs`: a model of Unix paths (roots, components, file names,
    extensions, component-wise prefixes and ordering) with executable
    helpers proved against it.
  - `webdav.rs`: where a note lives on the WebDAV server
    (`normalize_note_path`), the user's notes folder, and the file
    addresses of a folder listing.
  - `commands.rs`: the rules behind the file commands: the next
    `UntitledN.md` name, whether a path lies in the documents folder, and the
    sorted file tree of a documents folder.
  - `tree.rs`: the tree of notes keyed by path (`Tree`, `TreeNode`), its
    lookups, insertion and deletion, its display and JSON forms, and the laws
    that insertion and deletion keep.
  - `file_cache.rs`: the in-memory cache of fetched notes.
  - `store.rs`, `text.rs`: a keyed store and string helpers used by the rest.
- `tests/` runs the library on concrete values.
- `app/` is the Tauri application around it: commands, disk and network
  access, and the serde forms of the library's types.
