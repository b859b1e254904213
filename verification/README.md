# dsl_dict

Reads dictionaries in the DSL format (UTF-16LE text with inline markup) and
turns their entries into lines of an Anki import file.

- `src/` is the verified library: the line splitter for UTF-16LE streams
  (`reader`), the reading of lines into entries (`dict`), the rendering of
  definition markup to HTML (`markup`, `word`) and the building of card lines
  (`card`). Each public function carries a contract; the `law_*` proof
  functions state properties that hold across calls.
- `app/main.rs` is the command-line program: it lists the dictionary
  directory, reads files, and writes `anki_csv.txt`.
- `tests/` runs the library on concrete inputs.
