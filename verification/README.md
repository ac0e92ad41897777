# depclean

A terminal tool that finds what projects can make again (build output, installed packages, unused
container images), shows how much space it takes, and deletes what is chosen.

- `src/` is the library, in Verus: the rules by which projects are recognised, the scan of
  directories and container images, sizes, the list with its keys, the deletion, and the screens. Two
  outside calls are trusted, as their doc comments say: `String::push`, and the layout solver of
  `ratatui`. Everything else is proved.
- `app/` is the program round it: the terminal, the file system and the container engine.
- `tests/` runs the library.
