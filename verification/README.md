# Dedupe

Finds duplicated files, and deletes copies where the user gives scores to paths.

The library in `src/` decides; the program in `app/` walks folders, reads files,
keeps the cache and prints.

- `config`: what the user asks for, which paths are looked at, and their scores.
- `scan`: the records of the files of a folder, and what the cache is told.
- `filter_duplicates`: the two steps that narrow the files down, by size and by the
  hash of the first 4096 bytes, and the order in which files are hashed.
- `report`: the groups of files with equal hashes, how they are shown, and which
  files may be deleted.
- `dir_report`: which files of a folder have copies elsewhere.
- `laws`: what holds of these together. Two files with equal, non-empty content that
  can be read, and of which the cache knows nothing untrue, are reported in one
  group; no group loses its last copy; a second scan inserts nothing.
- `sorting`, `grouping`, `selection`, `lex`, `path`, `file_record`, `number`, `text`:
  what these are built from.
- `pattern`: what is relied on of the `regex` crate.
