# xorb

Bundles a directory's structure and the contents of its files into one
Markdown text, for pasting into a language model.

- `src/` is the library, verified with Verus: the drawing of the directory
  tree (`tree`), the order of its entries and of the files (`sorting`), the
  putting together of what the walk of a directory found (`scanner`), with
  its laws (`scan_laws`, `scan_order`), file names and extensions (`path`), the bundle itself
  (`formatter`), what is read from git's output (`git`), character-level text
  helpers (`text`) and the options of a run (`cli`).
- `app/` is the program around it: argument parsing, the walk of the
  directory, reading files, running git, the clipboard and the output.
