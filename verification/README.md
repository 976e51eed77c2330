# repo2markdown

Turns the files of a project into one Markdown document.

- `src/path_model.rs`: Unix paths as byte strings, their components as
  `std::path` gives them, joining and making paths absolute.
- `src/normalizer.rs`: lexical normalization of a path and writing it
  relative to a root directory, with the laws this obeys.
- `src/renderer.rs`: the document's title and file sections, the fence
  around file contents, and readable file sizes.
- `src/util/path_display.rs`: paths as `{:?}` shows them, without quotes.
- `src/util/text.rs`: UTF-8 decoding one scalar at a time, and the
  standard-library calls the text helpers rest on.
- `src/logger.rs`: warnings that a quiet logger keeps to itself.
- `app/main.rs`: the command-line program (arguments, standard input and
  output, the file system).
