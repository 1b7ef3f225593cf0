# juanlog

The engine of a Neovim log viewer for very large files: the file is mapped
read-only, a sparse line index is built over it (in the background or with all
cores), and edits go into a piece table, so that any line of a file of many
gigabytes can be shown, edited, searched and saved without loading it.

The library under `src/` is written in Verus and verified:

- `scan`: newline counting, detection of files without line breaks, and the
  cuts that split such files into fixed-width lines.
- `index`, `indexing`, `lines`: the sparse index, how it is built step by
  step, and where it places each line.
- `document`, `engine`, `edit`: the piece table, its document of lines, and
  edits as splices of that document.
- `render`, `text`: reading blocks of lines.
- `search`, `matching`: forward, backward and resumable searches, and what
  they find in terms of the document's lines.
- `save`: the writes that save the document.
- `pager`: paged access to a file's bytes.
- `laws`: properties that span several operations.
- `outside`: the calls into `memchr` and std that are trusted.

`app/` holds what cannot be verified: mapping files, threads, writing files,
and the C ABI the plugin calls.
